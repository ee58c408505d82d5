//! Queue of sleeping threads, ordered by wake tick.
//!
//! The queue is kept in wake order: the entry that is due first is at the
//! front, and entries with the same wake tick leave in the order in which
//! they were added.

pub mod order;

use std::collections::VecDeque;
use vstd::prelude::*;

verus! {

/// A sleeping thread and the tick at which it is due.
#[derive(Clone, Copy, Debug)]
pub struct SleepData {
    /// Absolute tick at which the thread is to be woken.
    pub ticks: i64,
    /// The sleeping thread.
    pub thread: usize,
}

/// Whether the entries are in ascending order of wake tick.
pub open spec fn in_wake_order(s: Seq<SleepData>) -> bool {
    forall|i: int, j: int| 0 <= i <= j < s.len() ==> s[i].ticks <= s[j].ticks
}

/// Index of the first entry that is due later than `tick`, or the length if there is none.
pub open spec fn slot(s: Seq<SleepData>, tick: i64) -> int
    decreases s.len(),
{
    if s.len() == 0 || s[0].ticks > tick {
        0
    } else {
        1 + slot(s.drop_first(), tick)
    }
}

/// `slot` is a position of the sequence; the entries before it are due by
/// `tick` and, in a sequence in wake order, those from it on are due later.
pub proof fn lemma_slot(s: Seq<SleepData>, tick: i64)
    ensures
        0 <= slot(s, tick) <= s.len(),
        forall|i: int| 0 <= i < slot(s, tick) ==> s[i].ticks <= tick,
        in_wake_order(s) ==> forall|i: int| slot(s, tick) <= i < s.len() ==> s[i].ticks > tick,
    decreases s.len(),
{
    if !(s.len() == 0 || s[0].ticks > tick) {
        let rest = s.drop_first();
        lemma_slot(rest, tick);
        assert forall|i: int| 0 <= i < slot(s, tick) implies s[i].ticks <= tick by {
            if i > 0 {
                assert(s[i] == rest[i - 1]);
            }
        }
        if in_wake_order(s) {
            assert forall|i: int, j: int| 0 <= i <= j < rest.len() implies rest[i].ticks
                <= rest[j].ticks by {
                assert(rest[i] == s[i + 1] && rest[j] == s[j + 1]);
            }
            assert forall|i: int| slot(s, tick) <= i < s.len() implies s[i].ticks > tick by {
                assert(s[i] == rest[i - 1]);
            }
        }
    } else if s.len() > 0 && in_wake_order(s) {
        assert forall|i: int| 0 <= i < s.len() implies s[i].ticks > tick by {
            assert(s[0].ticks <= s[i].ticks);
        }
    }
}

/// Sleeping threads, earliest deadline first.
pub struct SleepQueue {
    entries: VecDeque<SleepData>,
}

impl View for SleepQueue {
    type V = Seq<SleepData>;

    closed spec fn view(&self) -> Seq<SleepData> {
        self.entries@
    }
}

impl SleepQueue {
    /// Whether the queue is in wake order.
    pub open spec fn wf(&self) -> bool {
        in_wake_order(self@)
    }

    /// An empty queue.
    pub fn new() -> (q: Self)
        ensures
            q@ == Seq::<SleepData>::empty(),
            q.wf(),
    {
        SleepQueue { entries: VecDeque::new() }
    }

    /// Number of sleeping threads.
    pub fn len(&self) -> (n: usize)
        ensures
            n == self@.len(),
    {
        self.entries.len()
    }

    /// Removes and returns the entry that is due first.
    pub fn pop(&mut self) -> (data: SleepData)
        requires
            old(self).wf(),
            old(self)@.len() > 0,
        ensures
            data == old(self)@[0],
            final(self)@ == old(self)@.drop_first(),
            forall|i: int| 0 <= i < old(self)@.len() ==> data.ticks <= old(self)@[i].ticks,
            final(self).wf(),
    {
        let data = self.entries.pop_front().unwrap();
        assert(self@ =~= old(self)@.drop_first());
        assert forall|i: int, j: int| 0 <= i <= j < self@.len() implies self@[i].ticks
            <= self@[j].ticks by {
            assert(self@[i] == old(self)@[i + 1] && self@[j] == old(self)@[j + 1]);
        }
        data
    }

    /// Adds an entry behind every entry that is due no later than it.
    pub fn push(&mut self, data: SleepData)
        requires
            old(self).wf(),
        ensures
            final(self)@ == old(self)@.insert(slot(old(self)@, data.ticks), data),
            final(self).wf(),
    {
        let ghost s = self@;
        let n = self.entries.len();
        let mut i: usize = 0;
        assert(s.subrange(0, n as int) =~= s);
        while i < n && self.entries[i].ticks <= data.ticks
            invariant
                self@ == s,
                n == s.len(),
                i <= n,
                slot(s, data.ticks) == i + slot(s.subrange(i as int, n as int), data.ticks),
            decreases n - i,
        {
            assert(s.subrange(i as int, n as int).drop_first() =~= s.subrange(i + 1, n as int));
            i += 1;
        }
        self.entries.insert(i, data);
        proof {
            lemma_slot(s, data.ticks);
            assert forall|a: int, b: int| 0 <= a <= b < self@.len() implies self@[a].ticks
                <= self@[b].ticks by {
                if a < i && b > i {
                    assert(self@[a] == s[a] && self@[b] == s[b - 1]);
                } else if a > i {
                    assert(self@[a] == s[a - 1] && self@[b] == s[b - 1]);
                } else if b < i {
                    assert(self@[a] == s[a] && self@[b] == s[b]);
                } else if a < i && b == i {
                    assert(self@[a] == s[a]);
                } else if a == i && b > i {
                    assert(self@[b] == s[b - 1]);
                }
            }
        }
    }

    /// Entry at position `i` in wake order.
    pub fn get(&self, i: usize) -> (data: SleepData)
        requires
            i < self@.len(),
        ensures
            data == self@[i as int],
    {
        self.entries[i]
    }

    /// Wake tick of the entry that is due first.
    pub fn peek_time(&self) -> (tick: i64)
        requires
            self.wf(),
            self@.len() > 0,
        ensures
            tick == self@[0].ticks,
            forall|i: int| 0 <= i < self@.len() ==> tick <= self@[i].ticks,
    {
        self.entries[0].ticks
    }
}

} // verus!
