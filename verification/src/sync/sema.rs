//! Counting semaphore, the one primitive on which a thread blocks.

use crate::thread::state::{
    ManagerView, lemma_schedule_strict_priority, lemma_scheduled_wf, lemma_woken_wf,
};
use crate::thread::{Manager, Status, ThreadView, block, current, schedule, wake_up};
use std::collections::VecDeque;
use vstd::prelude::*;

verus! {

/// Whether `i` is the first position of `p` that holds its maximum.
pub open spec fn is_first_max(p: Seq<u32>, i: int) -> bool {
    &&& 0 <= i < p.len()
    &&& forall|j: int| 0 <= j < p.len() ==> p[j] <= p[i]
    &&& forall|j: int| 0 <= j < i ==> p[j] < p[i]
}

/// The first position of `p` that holds its maximum, or 0 for an empty sequence.
pub open spec fn first_max(p: Seq<u32>) -> int
    decreases p.len(),
{
    if p.len() <= 1 {
        0
    } else {
        let b = first_max(p.drop_last());
        if p.last() > p[b] {
            p.len() - 1
        } else {
            b
        }
    }
}

/// `first_max` names the one position that satisfies `is_first_max`.
pub proof fn lemma_first_max(p: Seq<u32>)
    requires
        p.len() > 0,
    ensures
        is_first_max(p, first_max(p)),
        forall|i: int| is_first_max(p, i) ==> i == first_max(p),
    decreases p.len(),
{
    if p.len() > 1 {
        let front = p.drop_last();
        lemma_first_max(front);
        let n = first_max(p);
        assert forall|j: int| 0 <= j < p.len() implies p[j] <= p[n] by {
            if j < front.len() {
                assert(front[j] == p[j]);
            }
        }
        assert forall|j: int| 0 <= j < n implies p[j] < p[n] by {
            assert(front[j] == p[j]);
        }
    }
    assert forall|i: int| is_first_max(p, i) implies i == first_max(p) by {
        let n = first_max(p);
        if i < n {
            assert(p[i] < p[n]);
        } else if n < i {
            assert(p[n] < p[i]);
        }
    }
}

/// Priorities of the waiters, position by position.
pub open spec fn priorities(waiters: Seq<usize>, threads: Seq<ThreadView>) -> Seq<u32> {
    Seq::new(waiters.len(), |i: int| threads[waiters[i] as int].priority)
}

/// Whether position `i` holds the waiter to wake: no waiter has a higher
/// priority and every waiter that arrived earlier has a lower one.
pub open spec fn is_best(waiters: Seq<usize>, threads: Seq<ThreadView>, i: int) -> bool {
    is_first_max(priorities(waiters, threads), i)
}

/// Position of the waiter to wake, or 0 for an empty list.
pub open spec fn best(waiters: Seq<usize>, threads: Seq<ThreadView>) -> int {
    first_max(priorities(waiters, threads))
}

/// `best` names the one position that satisfies `is_best`.
pub proof fn lemma_best(waiters: Seq<usize>, threads: Seq<ThreadView>)
    requires
        waiters.len() > 0,
    ensures
        is_best(waiters, threads, best(waiters, threads)),
        0 <= best(waiters, threads) < waiters.len(),
        forall|i: int| is_best(waiters, threads, i) ==> i == best(waiters, threads),
{
    lemma_first_max(priorities(waiters, threads));
}

/// Mathematical value of a [`Semaphore`].
#[verifier::ext_equal]
pub struct SemaphoreView {
    /// The count.
    pub value: usize,
    /// Blocked threads in order of arrival.
    pub waiters: Seq<usize>,
}

impl SemaphoreView {
    /// Whether every waiter is a thread of `m`.
    pub open spec fn fits(self, m: ManagerView) -> bool {
        forall|i: int| 0 <= i < self.waiters.len() ==> (#[trigger] self.waiters[i]) < m.threads.len()
    }

    /// Whether every waiter is a blocked thread of `m`.
    pub open spec fn all_blocked(self, m: ManagerView) -> bool {
        forall|i: int|
            0 <= i < self.waiters.len() ==> (#[trigger] self.waiters[i]) < m.threads.len()
                && m.threads[self.waiters[i] as int].status == Status::Blocked
    }

    /// Whether `up` may be called: the count can grow, and if threads wait
    /// the count is zero and the waiter to wake is blocked.
    pub open spec fn can_up(self, m: ManagerView) -> bool {
        &&& self.fits(m)
        &&& self.value < usize::MAX
        &&& self.waiters.len() > 0 ==> {
            &&& self.value == 0
            &&& m.threads[self.waiters[best(self.waiters, m.threads)] as int].status
                == Status::Blocked
        }
    }

    /// The semaphore after `down` by the current thread of `m`.
    pub open spec fn downed(self, m: ManagerView) -> SemaphoreView {
        if self.value == 0 {
            SemaphoreView { waiters: self.waiters.push(m.current), ..self }
        } else {
            SemaphoreView { value: (self.value - 1) as usize, ..self }
        }
    }

    /// The semaphore after `up`.
    pub open spec fn upped(self, m: ManagerView) -> SemaphoreView {
        SemaphoreView {
            value: (self.value + 1) as usize,
            waiters: if self.waiters.len() == 0 {
                self.waiters
            } else {
                self.waiters.remove(best(self.waiters, m.threads))
            },
        }
    }

    /// The kernel state after `up`: the waiter to wake, if there is one, is
    /// woken, and the processor is rescheduled if that waiter has a higher
    /// priority than the current thread.
    pub open spec fn upped_manager(self, m: ManagerView) -> ManagerView {
        if self.waiters.len() == 0 {
            m
        } else {
            let w = self.waiters[best(self.waiters, m.threads)];
            if m.threads[m.current as int].priority < m.threads[w as int].priority {
                m.woken(w).scheduled()
            } else {
                m.woken(w)
            }
        }
    }
}

/// The count of a semaphore never goes below zero, and a `down` followed by
/// the matching `up` leaves it where it was.
///
/// With a positive count the `down` takes one and the `up` gives it back.
/// With a zero count the `down` blocks the caller, the `up` raises the
/// count to one, and the attempt that the woken caller then makes takes it
/// again.
pub proof fn lemma_down_up_restores(
    s: SemaphoreView,
    m1: ManagerView,
    m2: ManagerView,
    m3: ManagerView,
)
    requires
        s.value < usize::MAX,
    ensures
        s.value > 0 ==> s.downed(m1).upped(m2).value == s.value,
        s.value == 0 ==> s.downed(m1).upped(m2).downed(m3).value == s.value,
        s.downed(m1).value >= 0,
{
}

/// Raising a semaphore keeps the kernel state consistent and leaves every
/// blocked thread blocked except the waiter that it wakes.
pub proof fn lemma_upped_manager(s: SemaphoreView, m: ManagerView, t: usize)
    requires
        m.wf(),
        s.can_up(m),
        t < m.threads.len(),
    ensures
        s.upped_manager(m).wf(),
        s.upped_manager(m).threads.len() == m.threads.len(),
        m.threads[t as int].status == Status::Blocked && (s.waiters.len() > 0
            ==> s.waiters[best(s.waiters, m.threads)] != t) ==> s.upped_manager(m).threads[t as int].status
            == Status::Blocked,
{
    if s.waiters.len() > 0 {
        lemma_best(s.waiters, m.threads);
        let w = s.waiters[best(s.waiters, m.threads)];
        lemma_woken_wf(m, w);
        lemma_scheduled_wf(m.woken(w));
        lemma_schedule_strict_priority(m.woken(w));
    }
}

/// Counting semaphore.
pub struct Semaphore {
    value: usize,
    waiters: VecDeque<usize>,
}

impl View for Semaphore {
    type V = SemaphoreView;

    closed spec fn view(&self) -> SemaphoreView {
        SemaphoreView { value: self.value, waiters: self.waiters@ }
    }
}

impl Semaphore {
    /// Creates a semaphore of initial value `n` with no waiters.
    pub fn new(n: usize) -> (s: Self)
        ensures
            s@ == (SemaphoreView { value: n, waiters: Seq::empty() }),
    {
        Semaphore { value: n, waiters: VecDeque::new() }
    }

    /// The count.
    pub fn value(&self) -> (v: usize)
        ensures
            v == self@.value,
    {
        self.value
    }

    /// Number of waiting threads.
    pub fn waiting(&self) -> (n: usize)
        ensures
            n == self@.waiters.len(),
    {
        self.waiters.len()
    }

    /// Waiter at position `i`.
    pub fn waiter(&self, i: usize) -> (t: usize)
        requires
            i < self@.waiters.len(),
        ensures
            t == self@.waiters[i as int],
    {
        self.waiters[i]
    }

    /// Whether thread `t` is among the waiters.
    pub fn has_waiter(&self, t: usize) -> (found: bool)
        ensures
            found == self@.waiters.contains(t),
    {
        let n = self.waiters.len();
        let mut i: usize = 0;
        while i < n
            invariant
                n == self@.waiters.len(),
                i <= n,
                forall|k: int| 0 <= k < i ==> (#[trigger] self@.waiters[k]) != t,
            decreases n - i,
        {
            if self.waiters[i] == t {
                return true;
            }
            i += 1;
        }
        false
    }

    /// Whether every waiter is a thread of `m`.
    pub fn fits(&self, m: &Manager) -> (ok: bool)
        ensures
            ok == self@.fits(m@),
    {
        let n = self.waiters.len();
        let count = m.thread_count();
        let mut i: usize = 0;
        while i < n
            invariant
                n == self@.waiters.len(),
                count == m@.threads.len(),
                i <= n,
                forall|k: int| 0 <= k < i ==> (#[trigger] self@.waiters[k]) < m@.threads.len(),
            decreases n - i,
        {
            if self.waiters[i] >= count {
                return false;
            }
            i += 1;
        }
        true
    }

    /// Whether every waiter is a blocked thread of `m`.
    pub fn all_blocked(&self, m: &Manager) -> (ok: bool)
        ensures
            ok == self@.all_blocked(m@),
    {
        let n = self.waiters.len();
        let count = m.thread_count();
        let mut i: usize = 0;
        while i < n
            invariant
                n == self@.waiters.len(),
                count == m@.threads.len(),
                i <= n,
                forall|k: int|
                    0 <= k < i ==> (#[trigger] self@.waiters[k]) < m@.threads.len()
                        && m@.threads[self@.waiters[k] as int].status == Status::Blocked,
            decreases n - i,
        {
            let t = self.waiters[i];
            if t >= count {
                return false;
            }
            match m.status(t) {
                Status::Blocked => {},
                _ => {
                    return false;
                },
            }
            i += 1;
        }
        true
    }

    /// Whether `up` may be called in state `m`.
    pub fn can_up(&self, m: &Manager) -> (ok: bool)
        ensures
            ok == self@.can_up(m@),
    {
        if !self.fits(m) || self.value == usize::MAX {
            return false;
        }
        if self.waiters.len() == 0 {
            return true;
        }
        if self.value != 0 {
            return false;
        }
        let (index, _) = self.get_maxpriority(m);
        match m.status(self.waiters[index]) {
            Status::Blocked => true,
            _ => false,
        }
    }

    /// Position and priority of the waiter that `up` would wake, or `(0, 0)` with no waiters.
    pub fn get_maxpriority(&self, m: &Manager) -> (r: (usize, u32))
        requires
            self@.fits(m@),
        ensures
            self@.waiters.len() == 0 ==> r == (0usize, 0u32),
            self@.waiters.len() > 0 ==> {
                &&& is_best(self@.waiters, m@.threads, r.0 as int)
                &&& r.0 == best(self@.waiters, m@.threads)
                &&& r.1 == m@.threads[self@.waiters[r.0 as int] as int].priority
            },
    {
        let n = self.waiters.len();
        let mut max_index: usize = 0;
        let mut max_priority: u32 = 0;
        let mut i: usize = 0;
        while i < n
            invariant
                n == self@.waiters.len(),
                i <= n,
                self@.fits(m@),
                i == 0 ==> max_index == 0 && max_priority == 0,
                i > 0 ==> max_index == best(self@.waiters.subrange(0, i as int), m@.threads)
                    && max_index < i && max_priority
                    == m@.threads[self@.waiters[max_index as int] as int].priority,
            decreases n - i,
        {
            let t = self.waiters[i];
            let this_priority = m.priority(t);
            proof {
                let w = self@.waiters;
                let ts = m@.threads;
                assert(priorities(w.subrange(0, i + 1), ts).drop_last() =~= priorities(
                    w.subrange(0, i as int),
                    ts,
                ));
                if i > 0 {
                    assert(w.subrange(0, i as int)[max_index as int] == w[max_index as int]);
                    assert(w.subrange(0, i + 1)[max_index as int] == w[max_index as int]);
                }
                assert(w.subrange(0, i + 1)[i as int] == w[i as int]);
            }
            if i == 0 || this_priority > max_priority {
                max_priority = this_priority;
                max_index = i;
            }
            i += 1;
        }
        proof {
            assert(self@.waiters.subrange(0, n as int) =~= self@.waiters);
            if n > 0 {
                lemma_best(self@.waiters, m@.threads);
            }
        }
        (max_index, max_priority)
    }

    /// P operation, one attempt.
    ///
    /// With a positive count the count drops by one and the result is
    /// `true`. With a zero count the current thread joins the waiters and
    /// blocks, and the result is `false`; the thread makes the attempt again
    /// once it runs again.
    pub fn down(&mut self, m: &mut Manager) -> (acquired: bool)
        requires
            old(m).wf(),
            old(m)@.running(),
        ensures
            acquired == (old(self)@.value > 0),
            final(self)@ == old(self)@.downed(old(m)@),
            final(m)@ == if acquired {
                old(m)@
            } else {
                old(m)@.blocked()
            },
            final(m).wf(),
            old(self)@.fits(old(m)@) ==> final(self)@.fits(final(m)@),
        final(m)@.threads.len() == old(m)@.threads.len(),
        final(m)@.holders == old(m)@.holders,
    {
        proof {
            lemma_scheduled_wf(m@.with_status(m@.current, Status::Blocked));
        }
        if self.value == 0 {
            self.waiters.push_back(current(m));
            block(m);
            assert(self@ =~= old(self)@.downed(old(m)@));
            false
        } else {
            self.value = self.value - 1;
            assert(self@ =~= old(self)@.downed(old(m)@));
            true
        }
    }

    /// V operation.
    ///
    /// The count grows by one. If threads wait, the one with the highest
    /// priority (the earliest among equals) leaves the list and is woken, and
    /// the processor is rescheduled at once when that thread has a higher
    /// priority than the current one.
    pub fn up(&mut self, m: &mut Manager)
        requires
            old(m).wf(),
            old(self)@.can_up(old(m)@),
        ensures
            final(self)@ == old(self)@.upped(old(m)@),
            final(m)@ == old(self)@.upped_manager(old(m)@),
            final(m).wf(),
            final(self)@.fits(final(m)@),
        final(m)@.threads.len() == old(m)@.threads.len(),
        final(m)@.holders == old(m)@.holders,
    {
        self.value = self.value + 1;
        if self.waiters.len() != 0 {
            let (max_index, max_priority) = self.get_maxpriority(m);
            let thread = self.waiters.remove(max_index).unwrap();
            proof {
                lemma_woken_wf(m@, thread);
                lemma_scheduled_wf(m@.woken(thread));
            }
            let cur = current(m);
            let cur_priority = m.priority(cur);
            wake_up(m, thread);
            if cur_priority < max_priority {
                schedule(m);
            }
            assert(self@ =~= old(self)@.upped(old(m)@));
        } else {
            assert(self@ =~= old(self)@.upped(old(m)@));
        }
    }
}

} // verus!
