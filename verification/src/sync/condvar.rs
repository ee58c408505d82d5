//! Condition variable.
//!
//! A condition variable lets a thread give up a lock and block until another
//! thread signals that the condition it waits for may hold. Each waiting
//! thread blocks on a semaphore of its own; signalling raises the semaphore
//! of the waiter with the highest priority.
//!
//! A wait takes three steps, each made while the thread is running:
//! [`Condvar::wait`] enqueues the thread and releases the lock,
//! [`Condvar::park`] blocks it until it has been signalled, and the thread
//! then takes the lock again with `Sleep::acquire`. The waiting thread checks
//! its condition again after that.

use crate::sync::sema::{
    Semaphore, SemaphoreView, best, first_max, is_first_max, lemma_best, lemma_first_max,
    lemma_upped_manager,
};
use crate::sync::sleep::{Sleep, relieved};
use crate::thread::state::{ManagerView, lemma_scheduled_wf};
use crate::thread::{Manager, Status, ThreadView, current};
use vstd::prelude::*;

verus! {

/// Mathematical value of one entry of a condition variable.
#[verifier::ext_equal]
pub struct WaiterView {
    /// The thread that waits.
    pub thread: usize,
    /// The semaphore it blocks on.
    pub sema: SemaphoreView,
}

/// Priority by which an entry competes: that of the thread blocked on its
/// semaphore, or 0 while no thread is blocked on it.
pub open spec fn entry_priority(e: WaiterView, threads: Seq<ThreadView>) -> u32 {
    if e.sema.waiters.len() == 0 {
        0
    } else {
        threads[e.sema.waiters[best(e.sema.waiters, threads)] as int].priority
    }
}

/// Priorities of the entries, position by position.
pub open spec fn entry_priorities(entries: Seq<WaiterView>, threads: Seq<ThreadView>) -> Seq<u32> {
    Seq::new(entries.len(), |i: int| entry_priority(entries[i], threads))
}

/// Position of the entry that `notify_one` signals: the first among those of highest priority.
pub open spec fn chosen(entries: Seq<WaiterView>, threads: Seq<ThreadView>) -> int {
    first_max(entry_priorities(entries, threads))
}

/// Position of the first entry of thread `t`, or the length if it has none.
pub open spec fn index_of(entries: Seq<WaiterView>, t: usize) -> int
    decreases entries.len(),
{
    if entries.len() == 0 || entries[0].thread == t {
        0
    } else {
        1 + index_of(entries.drop_first(), t)
    }
}

/// Whether the semaphore of every entry has only threads of `m` as waiters.
pub open spec fn entries_fit(entries: Seq<WaiterView>, m: ManagerView) -> bool {
    forall|i: int| 0 <= i < entries.len() ==> (#[trigger] entries[i]).sema.fits(m)
}

/// Whether every entry can be signalled in turn, newest first.
pub open spec fn can_signal_all(entries: Seq<WaiterView>, m: ManagerView) -> bool
    decreases entries.len(),
{
    if entries.len() == 0 {
        true
    } else {
        &&& m.wf()
        &&& entries.last().sema.can_up(m)
        &&& can_signal_all(entries.drop_last(), entries.last().sema.upped_manager(m))
    }
}

/// The kernel state after every entry has been signalled, newest first.
pub open spec fn signalled_all(entries: Seq<WaiterView>, m: ManagerView) -> ManagerView
    decreases entries.len(),
{
    if entries.len() == 0 {
        m
    } else {
        signalled_all(entries.drop_last(), entries.last().sema.upped_manager(m))
    }
}

/// Whether the entries can surely all be signalled: each semaphore can be
/// raised, all its waiters are blocked, and no thread waits on two of them.
pub open spec fn all_signallable(entries: Seq<WaiterView>, m: ManagerView) -> bool {
    &&& forall|i: int|
        0 <= i < entries.len() ==> {
            &&& (#[trigger] entries[i]).sema.all_blocked(m)
            &&& entries[i].sema.value < usize::MAX
            &&& entries[i].sema.waiters.len() > 0 ==> entries[i].sema.value == 0
        }
    &&& forall|i: int, j: int, t: usize|
        #![trigger entries[i].sema.waiters.contains(t), entries[j].sema.waiters.contains(t)]
        0 <= i < j < entries.len() && entries[i].sema.waiters.contains(t)
            ==> !entries[j].sema.waiters.contains(t)
}

/// Entries that are signallable in the sense of [`all_signallable`] can be signalled in turn.
pub proof fn lemma_all_signallable(entries: Seq<WaiterView>, m: ManagerView)
    requires
        m.wf(),
        all_signallable(entries, m),
    ensures
        can_signal_all(entries, m),
    decreases entries.len(),
{
    if entries.len() > 0 {
        let last = entries.last();
        let front = entries.drop_last();
        let n = last.sema.upped_manager(m);
        assert(entries[entries.len() - 1] == last);
        assert(last.sema.all_blocked(m));
        if last.sema.waiters.len() > 0 {
            lemma_best(last.sema.waiters, m.threads);
        }
        assert(last.sema.can_up(m));
        lemma_upped_manager(last.sema, m, 0);
        assert forall|i: int| 0 <= i < front.len() implies {
            &&& (#[trigger] front[i]).sema.all_blocked(n)
            &&& front[i].sema.value < usize::MAX
            &&& front[i].sema.waiters.len() > 0 ==> front[i].sema.value == 0
        } by {
            assert(front[i] == entries[i]);
            let w = front[i].sema.waiters;
            assert forall|k: int| 0 <= k < w.len() implies (#[trigger] w[k]) < n.threads.len()
                && n.threads[w[k] as int].status == Status::Blocked by {
                assert(w.contains(w[k]));
                lemma_upped_manager(last.sema, m, w[k]);
                if last.sema.waiters.len() > 0 {
                    let woken = last.sema.waiters[best(last.sema.waiters, m.threads)];
                    assert(last.sema.waiters.contains(woken));
                    assert(!entries[entries.len() - 1].sema.waiters.contains(w[k]));
                }
            }
        }
        assert forall|i: int, j: int, t: usize|
            #![trigger front[i].sema.waiters.contains(t), front[j].sema.waiters.contains(t)]
            0 <= i < j < front.len() && front[i].sema.waiters.contains(
                t,
            ) implies !front[j].sema.waiters.contains(t) by {
            assert(front[i] == entries[i] && front[j] == entries[j]);
            assert(entries[i].sema.waiters.contains(t));
            assert(!entries[j].sema.waiters.contains(t));
        }
        lemma_all_signallable(front, n);
    }
}

/// A waiting thread and the semaphore it blocks on.
struct Waiter {
    thread: usize,
    sema: Semaphore,
}

impl View for Waiter {
    type V = WaiterView;

    closed spec fn view(&self) -> WaiterView {
        WaiterView { thread: self.thread, sema: self.sema@ }
    }
}

/// Condition variable.
pub struct Condvar {
    waiters: Vec<Waiter>,
}

impl View for Condvar {
    type V = Seq<WaiterView>;

    closed spec fn view(&self) -> Seq<WaiterView> {
        Seq::new(self.waiters@.len(), |i: int| self.waiters@[i]@)
    }
}

impl Condvar {
    /// A condition variable on which nobody waits.
    pub fn new() -> (c: Self)
        ensures
            c@ == Seq::<WaiterView>::empty(),
    {
        let c = Condvar { waiters: Vec::new() };
        assert(c@ =~= Seq::<WaiterView>::empty());
        c
    }

    /// Number of entries.
    pub fn len(&self) -> (n: usize)
        ensures
            n == self@.len(),
    {
        self.waiters.len()
    }

    /// Whether the semaphore of every entry has only threads of `m` as waiters.
    pub fn fits(&self, m: &Manager) -> (ok: bool)
        ensures
            ok == entries_fit(self@, m@),
    {
        let n = self.waiters.len();
        let mut i: usize = 0;
        while i < n
            invariant
                n == self@.len(),
                i <= n,
                forall|k: int| 0 <= k < i ==> (#[trigger] self@[k]).sema.fits(m@),
            decreases n - i,
        {
            if !self.waiters[i].sema.fits(m) {
                assert(!self@[i as int].sema.fits(m@));
                return false;
            }
            i += 1;
        }
        true
    }

    /// Position of the entry that `notify_one` signals.
    fn chosen(&self, m: &Manager) -> (c: usize)
        requires
            entries_fit(self@, m@),
            self@.len() > 0,
        ensures
            c == chosen(self@, m@.threads),
            c < self@.len(),
            is_first_max(entry_priorities(self@, m@.threads), c as int),
    {
        let length = self.waiters.len();
        let ghost ps = entry_priorities(self@, m@.threads);
        let mut chosen_index: usize = 0;
        let mut max_priority: u32 = 0;
        let mut i: usize = 0;
        while i < length
            invariant
                length == self@.len(),
                i <= length,
                entries_fit(self@, m@),
                ps == entry_priorities(self@, m@.threads),
                i == 0 ==> chosen_index == 0 && max_priority == 0,
                i > 0 ==> chosen_index == first_max(ps.subrange(0, i as int)) && chosen_index < i
                    && max_priority == ps[chosen_index as int],
            decreases length - i,
        {
            assert(self@[i as int].sema.fits(m@));
            let (_, this_priority) = self.waiters[i].sema.get_maxpriority(m);
            proof {
                assert(ps.subrange(0, i + 1).drop_last() =~= ps.subrange(0, i as int));
                assert(this_priority == ps[i as int]);
            }
            if i == 0 || this_priority > max_priority {
                max_priority = this_priority;
                chosen_index = i;
            }
            i += 1;
        }
        proof {
            assert(ps.subrange(0, length as int) =~= ps);
            lemma_first_max(ps);
        }
        chosen_index
    }

    /// Whether `notify_one` may be called in state `m`.
    pub fn can_notify_one(&self, m: &Manager) -> (ok: bool)
        ensures
            ok == (entries_fit(self@, m@) && (self@.len() > 0 ==> self@[chosen(
                self@,
                m@.threads,
            )].sema.can_up(m@))),
    {
        if !self.fits(m) {
            return false;
        }
        if self.waiters.len() == 0 {
            return true;
        }
        let c = self.chosen(m);
        self.waiters[c].sema.can_up(m)
    }

    /// Whether every entry can surely be signalled, so that `notify_all` may be called.
    pub fn can_notify_all(&self, m: &Manager) -> (ok: bool)
        requires
            m.wf(),
        ensures
            ok == all_signallable(self@, m@),
            ok ==> can_signal_all(self@, m@),
    {
        let n = self.waiters.len();
        let mut i: usize = 0;
        while i < n
            invariant
                n == self@.len(),
                i <= n,
                forall|k: int|
                    0 <= k < i ==> {
                        &&& (#[trigger] self@[k]).sema.all_blocked(m@)
                        &&& self@[k].sema.value < usize::MAX
                        &&& self@[k].sema.waiters.len() > 0 ==> self@[k].sema.value == 0
                    },
                forall|a: int, b: int, t: usize|
                    #![trigger self@[a].sema.waiters.contains(t), self@[b].sema.waiters.contains(t)]
                    0 <= a < b < i && self@[a].sema.waiters.contains(t)
                        ==> !self@[b].sema.waiters.contains(t),
            decreases n - i,
        {
            let sema = &self.waiters[i].sema;
            if !sema.all_blocked(m) || sema.value() == usize::MAX || (sema.waiting() > 0
                && sema.value() != 0) {
                assert(!(self@[i as int].sema.all_blocked(m@) && self@[i as int].sema.value
                    < usize::MAX && (self@[i as int].sema.waiters.len() > 0
                    ==> self@[i as int].sema.value == 0)));
                return false;
            }
            let w = sema.waiting();
            let mut k: usize = 0;
            while k < w
                invariant
                    n == self@.len(),
                    i < n,
                    w == self@[i as int].sema.waiters.len(),
                    k <= w,
                    forall|a: int, x: int|
                        #![trigger self@[a].sema.waiters.contains(self@[i as int].sema.waiters[x])]
                        0 <= a < i && 0 <= x < k ==> !self@[a].sema.waiters.contains(
                            self@[i as int].sema.waiters[x],
                        ),
                decreases w - k,
            {
                let t = self.waiters[i].sema.waiter(k);
                let mut a: usize = 0;
                assert(self@[i as int].sema.waiters.contains(t));
                while a < i
                    invariant
                        n == self@.len(),
                        a <= i < n,
                        self@[i as int].sema.waiters.contains(t),
                        forall|b: int| 0 <= b < a ==> !(#[trigger] self@[b]).sema.waiters.contains(t),
                    decreases i - a,
                {
                    if self.waiters[a].sema.has_waiter(t) {
                        assert(self@[a as int].sema.waiters.contains(t));
                        return false;
                    }
                    a += 1;
                }
                k += 1;
            }
            proof {
                assert forall|a: int, t: usize|
                    #![trigger self@[a].sema.waiters.contains(t)]
                    0 <= a < i && self@[a].sema.waiters.contains(t) implies !self@[i as int].sema.waiters.contains(
                    t,
                ) by {
                    if self@[i as int].sema.waiters.contains(t) {
                        let x = choose|x: int|
                            0 <= x < self@[i as int].sema.waiters.len()
                                && self@[i as int].sema.waiters[x] == t;
                        assert(!self@[a].sema.waiters.contains(self@[i as int].sema.waiters[x]));
                    }
                }
            }
            i += 1;
        }
        proof {
            lemma_all_signallable(self@, m@);
        }
        true
    }

    /// First step of a wait: the current thread enters the list with a
    /// fresh semaphore of value 0 and releases `guard`, which it must hold.
    ///
    /// The result is that of the release.
    pub fn wait(&mut self, m: &mut Manager, guard: &mut Sleep) -> (finished: bool)
        requires
            old(m).wf(),
            old(m)@.running(),
            old(guard)@.wf(old(m)@),
            old(m)@.holder(old(guard)@.lockid) == Some(old(m)@.current),
            old(guard)@.inner.can_up(
                relieved(old(m)@, old(guard)@.lockid).with_holder(old(guard)@.lockid, None),
            ),
        ensures
            final(self)@ == old(self)@.push(
                WaiterView {
                    thread: old(m)@.current,
                    sema: SemaphoreView { value: 0, waiters: Seq::empty() },
                },
            ),
            final(guard)@ == old(guard)@.released(old(m)@),
            final(m)@ == old(guard)@.released_manager(old(m)@),
            finished == (old(guard)@.handed_over(old(m)@).current == old(m)@.current),
            final(m).wf(),
            final(guard)@.wf(final(m)@),
        final(m)@.threads.len() == old(m)@.threads.len(),
        final(m)@.holders.len() == old(m)@.holders.len(),
        forall|other: u32|
            other != old(guard)@.lockid ==> final(m)@.holder(other) == old(m)@.holder(other),
        final(guard)@.lockid == old(guard)@.lockid,
        final(m)@.holder(final(guard)@.lockid) is None,
    {
        let sema = Semaphore::new(0);
        self.waiters.push(Waiter { thread: current(m), sema: sema });
        assert(self@ =~= old(self)@.push(
            WaiterView {
                thread: old(m)@.current,
                sema: SemaphoreView { value: 0, waiters: Seq::empty() },
            },
        ));
        guard.release(m)
    }

    /// Second step of a wait: the current thread blocks on its semaphore.
    ///
    /// When the thread has no entry any more it has been signalled, and the
    /// result is `true`. Otherwise the thread makes one attempt on the
    /// semaphore of its first entry, which blocks it while the count is 0,
    /// and the result is that of the attempt.
    pub fn park(&mut self, m: &mut Manager) -> (resumed: bool)
        requires
            old(m).wf(),
            old(m)@.running(),
        ensures
            ({
                let i = index_of(old(self)@, old(m)@.current);
                if i == old(self)@.len() {
                    &&& resumed
                    &&& final(self)@ == old(self)@
                    &&& final(m)@ == old(m)@
                } else {
                    let e = old(self)@[i];
                    &&& resumed == (e.sema.value > 0)
                    &&& final(self)@ == old(self)@.update(
                        i,
                        WaiterView { sema: e.sema.downed(old(m)@), ..e },
                    )
                    &&& final(m)@ == if resumed {
                        old(m)@
                    } else {
                        old(m)@.blocked()
                    }
                }
            }),
            final(m).wf(),
            entries_fit(old(self)@, old(m)@) ==> entries_fit(final(self)@, final(m)@),
        final(m)@.threads.len() == old(m)@.threads.len(),
        final(m)@.holders == old(m)@.holders,
    {
        let cur = current(m);
        let n = self.waiters.len();
        let mut i: usize = 0;
        assert(self@.subrange(0, n as int) =~= self@);
        while i < n && self.waiters[i].thread != cur
            invariant
                n == self@.len(),
                i <= n,
                self@ == old(self)@,
                index_of(self@, cur) == i + index_of(self@.subrange(i as int, n as int), cur),
            decreases n - i,
        {
            assert(self@.subrange(i as int, n as int).drop_first() =~= self@.subrange(
                i + 1,
                n as int,
            ));
            i += 1;
        }
        if i == n {
            return true;
        }
        let resumed = self.waiters[i].sema.down(m);
        proof {
            let e = old(self)@[i as int];
            assert(self@ =~= old(self)@.update(
                i as int,
                WaiterView { sema: e.sema.downed(old(m)@), ..e },
            ));
            if entries_fit(old(self)@, old(m)@) {
                assert forall|k: int| 0 <= k < self@.len() implies (#[trigger] self@[k]).sema.fits(
                    m@,
                ) by {
                    assert(old(self)@[k].sema.fits(old(m)@));
                    lemma_scheduled_wf(
                        old(m)@.with_status(old(m)@.current, crate::thread::Status::Blocked),
                    );
                }
            }
        }
        resumed
    }

    /// Signals the entry of highest priority, the earliest among equals, and
    /// removes it from the list. Does nothing when nobody waits.
    pub fn notify_one(&mut self, m: &mut Manager)
        requires
            old(m).wf(),
            entries_fit(old(self)@, old(m)@),
            old(self)@.len() > 0 ==> old(self)@[chosen(old(self)@, old(m)@.threads)].sema.can_up(
                old(m)@,
            ),
        ensures
            old(self)@.len() == 0 ==> final(self)@ == old(self)@ && final(m)@ == old(m)@,
            old(self)@.len() > 0 ==> {
                let c = chosen(old(self)@, old(m)@.threads);
                &&& is_first_max(entry_priorities(old(self)@, old(m)@.threads), c)
                &&& final(self)@ == old(self)@.remove(c)
                &&& final(m)@ == old(self)@[c].sema.upped_manager(old(m)@)
            },
            final(m).wf(),
            final(self)@.len() == if old(self)@.len() == 0 {
                0
            } else {
                old(self)@.len() - 1
            },
        final(m)@.threads.len() == old(m)@.threads.len(),
        final(m)@.holders == old(m)@.holders,
    {
        let length = self.waiters.len();
        if length == 0 {
            return ;
        }
        let chosen_index = self.chosen(m);
        let chosen = self.waiters.remove(chosen_index);
        assert(self@ =~= old(self)@.remove(chosen_index as int));
        let mut sema = chosen.sema;
        sema.up(m);
    }

    /// Signals every entry, newest first, and empties the list.
    pub fn notify_all(&mut self, m: &mut Manager)
        requires
            old(m).wf(),
            can_signal_all(old(self)@, old(m)@),
        ensures
            final(self)@ == Seq::<WaiterView>::empty(),
            final(m)@ == signalled_all(old(self)@, old(m)@),
            final(m).wf(),
        final(m)@.threads.len() == old(m)@.threads.len(),
        final(m)@.holders == old(m)@.holders,
    {
        while self.waiters.len() > 0
            invariant
                m.wf(),
                m@.threads.len() == old(m)@.threads.len(),
                m@.holders == old(m)@.holders,
                can_signal_all(self@, m@),
                signalled_all(self@, m@) == signalled_all(old(self)@, old(m)@),
            decreases self@.len(),
        {
            let ghost before = self@;
            let w = self.waiters.pop().unwrap();
            assert(self@ =~= before.drop_last());
            assert(w@ == before.last());
            let mut sema = w.sema;
            sema.up(m);
        }
        assert(self@ =~= Seq::<WaiterView>::empty());
    }
}

} // verus!
