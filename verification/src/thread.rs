//! Kernel threads and the manager that owns them.

pub mod scheduler;
pub mod state;

use crate::sleepq::{SleepData, SleepQueue, lemma_slot, slot};
use crate::sync::sleep::DonationData;
use crate::thread::scheduler::priority::{
    PriorityScheduler, lemma_filter_none, lemma_queued_iff_occurs, lemma_register_occurrences,
    queued, times_queued,
};
use crate::thread::state::{
    ManagerView, donation_ok, for_lock, highest_donation, lemma_due_blocked, lemma_retouch_wf,
    lemma_scheduled_wf, lemma_with_status_wf, lemma_woken_wf, not_for_lock, places, thread_ok,
};
use vstd::prelude::*;

verus! {

/// Number of priority levels.
pub const PRI_LEVELS: usize = 64;

/// Highest priority a thread can have.
pub const PRI_MAX: u32 = 63;

/// Life-cycle state of a thread.
#[derive(Clone, Copy, Debug, PartialEq, Eq, Structural)]
pub enum Status {
    Running,
    Ready,
    Blocked,
    Dying,
}

/// A schedulable entity.
pub struct Thread {
    /// Index of the thread in the arena.
    pub id: usize,
    /// Name given at creation.
    pub name: String,
    /// Life-cycle state.
    pub status: Status,
    /// Effective priority, possibly raised by donation.
    pub priority: u32,
    /// Priority requested through `set_priority`, if any.
    pub priority_setted: Option<u32>,
    /// Donations the thread takes part in, as donor or as acceptor, oldest first.
    pub donationq: Vec<DonationData>,
    /// Lowest lock id for which a baseline was recorded, and that baseline.
    pub stored_prev: (u32, u32),
    /// Lock the thread is suspended on, if any.
    pub waiting_lock: Option<u32>,
}

/// Mathematical value of a [`Thread`].
#[verifier::ext_equal]
pub struct ThreadView {
    pub id: usize,
    pub name: Seq<char>,
    pub status: Status,
    pub priority: u32,
    pub priority_setted: Option<u32>,
    pub donationq: Seq<DonationData>,
    pub stored_prev: (u32, u32),
    pub waiting_lock: Option<u32>,
}

impl View for Thread {
    type V = ThreadView;

    open spec fn view(&self) -> ThreadView {
        ThreadView {
            id: self.id,
            name: self.name@,
            status: self.status,
            priority: self.priority,
            priority_setted: self.priority_setted,
            donationq: self.donationq@,
            stored_prev: self.stored_prev,
            waiting_lock: self.waiting_lock,
        }
    }
}

/// Views of all threads of an arena, in index order.
pub open spec fn thread_views(threads: Seq<Thread>) -> Seq<ThreadView> {
    Seq::new(threads.len(), |i: int| threads[i]@)
}

/// The kernel's threads, the one that runs, and the queues that order the rest.
pub struct Manager {
    threads: Vec<Thread>,
    current: usize,
    scheduler: PriorityScheduler,
    sleepq: SleepQueue,
    holders: Vec<Option<usize>>,
}

impl View for Manager {
    type V = ManagerView;

    closed spec fn view(&self) -> ManagerView {
        ManagerView {
            threads: thread_views(self.threads@),
            current: self.current,
            ready: self.scheduler@,
            sleepers: self.sleepq@,
            holders: self.holders@,
        }
    }
}

impl Manager {
    /// Whether the state is consistent.
    pub open spec fn wf(&self) -> bool {
        self@.wf()
    }

    /// A manager whose only thread, thread 0, is running with the given priority.
    pub fn new(name: String, priority: u32) -> (m: Self)
        requires
            priority <= PRI_MAX,
        ensures
            m.wf(),
            m@.threads.len() == 1,
            m@.threads[0] == (ThreadView {
                id: 0,
                name: name@,
                status: Status::Running,
                priority: priority,
                priority_setted: None,
                donationq: Seq::empty(),
                stored_prev: (u32::MAX, priority),
                waiting_lock: None,
            }),
            m@.current == 0,
            forall|j: int| 0 <= j < PRI_LEVELS ==> m@.ready[j] == Seq::<usize>::empty(),
            m@.sleepers == Seq::<SleepData>::empty(),
            m@.holders == Seq::<Option<usize>>::empty(),
    {
        let first = Thread {
            id: 0,
            name: name,
            status: Status::Running,
            priority: priority,
            priority_setted: None,
            donationq: Vec::new(),
            stored_prev: (u32::MAX, priority),
            waiting_lock: None,
        };
        let mut threads: Vec<Thread> = Vec::new();
        threads.push(first);
        let m = Manager {
            threads: threads,
            current: 0,
            scheduler: PriorityScheduler::new(),
            sleepq: SleepQueue::new(),
            holders: Vec::new(),
        };
        proof {
            assert(m@.threads[0] =~= (ThreadView {
                id: 0,
                name: name@,
                status: Status::Running,
                priority: priority,
                priority_setted: None,
                donationq: Seq::empty(),
                stored_prev: (u32::MAX, priority),
                waiting_lock: None,
            }));
            assert forall|t: usize| t < m@.threads.len() implies #[trigger] times_queued(
                m@.ready,
                t,
            ) == 0 by {
                lemma_queued_iff_occurs(m@.ready, t);
            }
        }
        m
    }

    /// Number of threads ever created.
    pub fn thread_count(&self) -> (n: usize)
        ensures
            n == self@.threads.len(),
    {
        self.threads.len()
    }

    /// Name of thread `t`.
    pub fn name(&self, t: usize) -> (name: &String)
        requires
            t < self@.threads.len(),
        ensures
            name@ == self@.threads[t as int].name,
    {
        &self.threads[t].name
    }

    /// Status of thread `t`.
    pub fn status(&self, t: usize) -> (status: Status)
        requires
            t < self@.threads.len(),
        ensures
            status == self@.threads[t as int].status,
    {
        self.threads[t].status
    }

    /// Effective priority of thread `t`.
    pub fn priority(&self, t: usize) -> (priority: u32)
        requires
            t < self@.threads.len(),
        ensures
            priority == self@.threads[t as int].priority,
    {
        self.threads[t].priority
    }

    /// Priority that thread `t` asked for through `set_priority`, if any.
    pub fn priority_setted(&self, t: usize) -> (p: Option<u32>)
        requires
            t < self@.threads.len(),
        ensures
            p == self@.threads[t as int].priority_setted,
    {
        self.threads[t].priority_setted
    }

    /// Stored baseline of thread `t`: a lock id and the priority to return to.
    pub fn stored_prev(&self, t: usize) -> (stored: (u32, u32))
        requires
            t < self@.threads.len(),
        ensures
            stored == self@.threads[t as int].stored_prev,
    {
        self.threads[t].stored_prev
    }

    /// Lock that thread `t` is suspended on, if any.
    pub fn waiting_lock(&self, t: usize) -> (lock: Option<u32>)
        requires
            t < self@.threads.len(),
        ensures
            lock == self@.threads[t as int].waiting_lock,
    {
        self.threads[t].waiting_lock
    }

    /// Number of donation records that thread `t` keeps.
    pub fn donation_count(&self, t: usize) -> (n: usize)
        requires
            t < self@.threads.len(),
        ensures
            n == self@.threads[t as int].donationq.len(),
    {
        self.threads[t].donationq.len()
    }

    /// Donation record `k` of thread `t`.
    pub fn donation(&self, t: usize, k: usize) -> (d: DonationData)
        requires
            t < self@.threads.len(),
            k < self@.threads[t as int].donationq.len(),
        ensures
            d == self@.threads[t as int].donationq[k as int],
    {
        self.threads[t].donationq[k]
    }

    /// The highest of `base` and the donor priorities in the donations of thread `t`.
    pub fn highest_donation(&self, t: usize, base: u32) -> (p: u32)
        requires
            t < self@.threads.len(),
        ensures
            p == highest_donation(self@.threads[t as int].donationq, base),
    {
        let n = self.threads[t].donationq.len();
        let ghost q = self@.threads[t as int].donationq;
        let mut p = base;
        let mut i: usize = 0;
        assert(q.subrange(0, 0) =~= Seq::<DonationData>::empty());
        while i < n
            invariant
                t < self@.threads.len(),
                q == self@.threads[t as int].donationq,
                n == q.len(),
                i <= n,
                p == highest_donation(q.subrange(0, i as int), base),
            decreases n - i,
        {
            assert(q.subrange(0, i + 1).drop_last() =~= q.subrange(0, i as int));
            let d = self.threads[t].donationq[i];
            if d.donner_priority > p {
                p = d.donner_priority;
            }
            i += 1;
        }
        assert(q.subrange(0, n as int) =~= q);
        p
    }

    /// Number of sleeping threads.
    pub fn sleeping(&self) -> (n: usize)
        ensures
            n == self@.sleepers.len(),
    {
        self.sleepq.len()
    }

    /// Wake tick of the sleeper that is due first, if any thread sleeps.
    pub fn next_wake(&self) -> (tick: Option<i64>)
        requires
            self.wf(),
        ensures
            tick == if self@.sleepers.len() > 0 {
                Some(self@.sleepers[0].ticks)
            } else {
                None
            },
    {
        if self.sleepq.len() > 0 {
            Some(self.sleepq.peek_time())
        } else {
            None
        }
    }

    /// Number of locks created.
    pub fn lock_count(&self) -> (n: usize)
        ensures
            n == self@.holders.len(),
    {
        self.holders.len()
    }

    /// Holder of lock `lockid`; `None` also for an id that names no lock.
    pub fn holder(&self, lockid: u32) -> (h: Option<usize>)
        ensures
            h == self@.holder(lockid),
    {
        if 1 <= lockid && lockid as usize <= self.holders.len() {
            self.holders[lockid as usize - 1]
        } else {
            None
        }
    }

    /// Whether the timer tick `now` may be handled: the sleepers that are
    /// due are blocked threads, no two the same.
    pub fn can_tick(&self, now: i64) -> (ok: bool)
        requires
            self.wf(),
        ensures
            ok == self@.due_blocked(now),
            ok ==> self@.wakeable(now),
    {
        let n = self.sleepq.len();
        let ghost due = slot(self@.sleepers, now);
        proof {
            lemma_slot(self@.sleepers, now);
        }
        let mut i: usize = 0;
        while i < n && self.sleepq.get(i).ticks <= now
            invariant
                self.wf(),
                n == self@.sleepers.len(),
                i <= n,
                i <= due <= n,
                due == slot(self@.sleepers, now),
                forall|k: int| 0 <= k < due ==> (#[trigger] self@.sleepers[k]).ticks <= now,
                forall|k: int| due <= k < n ==> (#[trigger] self@.sleepers[k]).ticks > now,
                forall|k: int|
                    0 <= k < i ==> self@.threads[(#[trigger] self@.sleepers[k]).thread as int].status
                        == Status::Blocked,
                forall|a: int, b: int|
                    0 <= a < b < i ==> (#[trigger] self@.sleepers[a]).thread != (
                    #[trigger] self@.sleepers[b]).thread,
            decreases n - i,
        {
            let t = self.sleepq.get(i).thread;
            assert(self@.sleepers[i as int].thread < self@.threads.len());
            match self.threads[t].status {
                Status::Blocked => {},
                _ => {
                    return false;
                },
            }
            let mut j: usize = 0;
            assert(i < due);
            while j < i
                invariant
                    n == self@.sleepers.len(),
                    j <= i < n,
                    i < due,
                    due == slot(self@.sleepers, now),
                    t == self@.sleepers[i as int].thread,
                    forall|a: int| 0 <= a < j ==> (#[trigger] self@.sleepers[a]).thread != t,
                decreases i - j,
            {
                if self.sleepq.get(j).thread == t {
                    assert(self@.sleepers[j as int].thread == self@.sleepers[i as int].thread);
                    return false;
                }
                j += 1;
            }
            i += 1;
        }
        proof {
            if i < due {
                assert(self@.sleepers[i as int].ticks <= now);
            }
            lemma_due_blocked(self@, now);
        }
        true
    }

    /// Sets the effective priority of thread `t`.
    pub fn set_thread_priority(&mut self, t: usize, priority: u32)
        requires
            old(self).wf(),
            t < old(self)@.threads.len(),
            priority <= PRI_MAX,
        ensures
            final(self)@ == old(self)@.with_priority(t, priority),
            final(self).wf(),
    {
        self.threads[t].priority = priority;
        proof {
            assert(self@.threads =~= old(self)@.with_priority(t, priority).threads);
            assert(self@ =~= old(self)@.with_priority(t, priority));
            assert forall|i: int| 0 <= i < self@.threads.len() implies thread_ok(
                #[trigger] self@.threads[i],
                i,
                self@.threads.len(),
            ) by {
                assert(thread_ok(old(self)@.threads[i], i, self@.threads.len()));
            }
            lemma_retouch_wf(old(self)@, self@);
        }
    }

    /// Replaces the stored baseline of thread `t`.
    pub fn set_stored_prev(&mut self, t: usize, stored: (u32, u32))
        requires
            old(self).wf(),
            t < old(self)@.threads.len(),
            stored.1 <= PRI_MAX,
        ensures
            final(self)@ == old(self)@.with_stored_prev(t, stored),
            final(self).wf(),
    {
        self.threads[t].stored_prev = stored;
        proof {
            assert(self@.threads =~= old(self)@.with_stored_prev(t, stored).threads);
            assert(self@ =~= old(self)@.with_stored_prev(t, stored));
            assert forall|i: int| 0 <= i < self@.threads.len() implies thread_ok(
                #[trigger] self@.threads[i],
                i,
                self@.threads.len(),
            ) by {
                assert(thread_ok(old(self)@.threads[i], i, self@.threads.len()));
            }
            lemma_retouch_wf(old(self)@, self@);
        }
    }

    /// Records the lock that thread `t` is suspended on.
    pub fn set_waiting_lock(&mut self, t: usize, lock: Option<u32>)
        requires
            old(self).wf(),
            t < old(self)@.threads.len(),
        ensures
            final(self)@ == old(self)@.with_waiting(t, lock),
            final(self).wf(),
    {
        self.threads[t].waiting_lock = lock;
        proof {
            assert(self@.threads =~= old(self)@.with_waiting(t, lock).threads);
            assert(self@ =~= old(self)@.with_waiting(t, lock));
            assert forall|i: int| 0 <= i < self@.threads.len() implies thread_ok(
                #[trigger] self@.threads[i],
                i,
                self@.threads.len(),
            ) by {
                assert(thread_ok(old(self)@.threads[i], i, self@.threads.len()));
            }
            lemma_retouch_wf(old(self)@, self@);
        }
    }

    /// Appends a donation record to the donations of thread `t`.
    pub fn add_donation(&mut self, t: usize, d: DonationData)
        requires
            old(self).wf(),
            t < old(self)@.threads.len(),
            donation_ok(d, old(self)@.threads.len()),
        ensures
            final(self)@ == old(self)@.with_donation(t, d),
            final(self).wf(),
    {
        self.threads[t].donationq.push(d);
        proof {
            assert(self@.threads =~= old(self)@.with_donation(t, d).threads);
            assert(self@ =~= old(self)@.with_donation(t, d));
            assert forall|i: int| 0 <= i < self@.threads.len() implies thread_ok(
                #[trigger] self@.threads[i],
                i,
                self@.threads.len(),
            ) by {
                assert(thread_ok(old(self)@.threads[i], i, self@.threads.len()));
                if i == t {
                    let q = self@.threads[i].donationq;
                    assert forall|k: int| 0 <= k < q.len() implies donation_ok(
                        #[trigger] q[k],
                        self@.threads.len(),
                    ) by {
                        if k < q.len() - 1 {
                            assert(q[k] == old(self)@.threads[i].donationq[k]);
                        }
                    }
                }
            }
            lemma_retouch_wf(old(self)@, self@);
        }
    }

    /// Removes the records for lock `lockid` from the donations of thread
    /// `t` and returns them, oldest first.
    pub fn delete_donation(&mut self, t: usize, lockid: u32) -> (gone: Vec<DonationData>)
        requires
            old(self).wf(),
            t < old(self)@.threads.len(),
        ensures
            gone@ == old(self)@.threads[t as int].donationq.filter(for_lock(lockid)),
            forall|k: int|
                0 <= k < gone@.len() ==> (#[trigger] gone@[k]).lockid == lockid && donation_ok(
                    gone@[k],
                    old(self)@.threads.len(),
                ),
            final(self)@ == old(self)@.without_donations(t, lockid),
            final(self).wf(),
    {
        let ghost q = self@.threads[t as int].donationq;
        let n = self.threads[t].donationq.len();
        let mut kept: Vec<DonationData> = Vec::new();
        let mut gone: Vec<DonationData> = Vec::new();
        let mut i: usize = 0;
        proof {
            assert(q.subrange(0, 0) =~= Seq::<DonationData>::empty());
            lemma_filter_none(q.subrange(0, 0), not_for_lock(lockid));
            lemma_filter_none(q.subrange(0, 0), for_lock(lockid));
        }
        while i < n
            invariant
                self@ == old(self)@,
                t < self@.threads.len(),
                q == self@.threads[t as int].donationq,
                n == q.len(),
                i <= n,
                kept@ == q.subrange(0, i as int).filter(not_for_lock(lockid)),
                gone@ == q.subrange(0, i as int).filter(for_lock(lockid)),
                forall|k: int| 0 <= k < kept@.len() ==> q.contains(#[trigger] kept@[k]),
                forall|k: int|
                    0 <= k < gone@.len() ==> q.contains(#[trigger] gone@[k]) && gone@[k].lockid
                        == lockid,
            decreases n - i,
        {
            let d = self.threads[t].donationq[i];
            proof {
                assert(q.subrange(0, i + 1) =~= q.subrange(0, i as int).push(d));
                q.subrange(0, i as int).lemma_filter_push(d, not_for_lock(lockid));
                q.subrange(0, i as int).lemma_filter_push(d, for_lock(lockid));
                assert(q[i as int] == d);
                assert(q.contains(d));
            }
            if d.lockid == lockid {
                gone.push(d);
            } else {
                kept.push(d);
            }
            i += 1;
        }
        self.threads[t].donationq = kept;
        proof {
            assert(q.subrange(0, n as int) =~= q);
            assert(self@.threads =~= old(self)@.without_donations(t, lockid).threads);
            assert(self@ =~= old(self)@.without_donations(t, lockid));
            assert(thread_ok(old(self)@.threads[t as int], t as int, self@.threads.len()));
            assert forall|i: int| 0 <= i < self@.threads.len() implies thread_ok(
                #[trigger] self@.threads[i],
                i,
                self@.threads.len(),
            ) by {
                assert(thread_ok(old(self)@.threads[i], i, self@.threads.len()));
                if i == t {
                    let nq = self@.threads[i].donationq;
                    assert forall|k: int| 0 <= k < nq.len() implies donation_ok(
                        #[trigger] nq[k],
                        self@.threads.len(),
                    ) by {
                        assert(q.contains(nq[k]));
                        let k0 = choose|k0: int| 0 <= k0 < q.len() && q[k0] == nq[k];
                        assert(donation_ok(q[k0], self@.threads.len()));
                    }
                }
            }
            lemma_retouch_wf(old(self)@, self@);
            assert forall|k: int| 0 <= k < gone@.len() implies (#[trigger] gone@[k]).lockid
                == lockid && donation_ok(gone@[k], old(self)@.threads.len()) by {
                assert(q.contains(gone@[k]));
                let k0 = choose|k0: int| 0 <= k0 < q.len() && q[k0] == gone@[k];
                assert(donation_ok(q[k0], self@.threads.len()));
            }
        }
        gone
    }

    /// Adds a lock that nobody holds and returns its id; ids start at 1.
    pub fn new_lock(&mut self) -> (lockid: u32)
        requires
            old(self).wf(),
            old(self)@.holders.len() + 1 < u32::MAX,
        ensures
            lockid == old(self)@.holders.len() + 1,
            final(self)@ == old(self)@.with_new_lock(),
            final(self).wf(),
    {
        self.holders.push(None);
        proof {
            assert(self@ =~= old(self)@.with_new_lock());
            assert forall|i: int| 0 <= i < self@.holders.len() implies ((
            #[trigger] self@.holders[i]) matches Some(h) ==> h < self@.threads.len()) by {
                if i < old(self)@.holders.len() {
                    assert(self@.holders[i] == old(self)@.holders[i]);
                }
            }
            lemma_retouch_wf(old(self)@, self@);
        }
        self.holders.len() as u32
    }

    /// Replaces the holder of lock `lockid`.
    pub fn set_holder(&mut self, lockid: u32, holder: Option<usize>)
        requires
            old(self).wf(),
            old(self)@.has_lock(lockid),
            holder matches Some(h) ==> h < old(self)@.threads.len(),
        ensures
            final(self)@ == old(self)@.with_holder(lockid, holder),
            final(self).wf(),
    {
        self.holders[lockid as usize - 1] = holder;
        proof {
            assert(self@ =~= old(self)@.with_holder(lockid, holder));
            assert forall|i: int| 0 <= i < self@.holders.len() implies ((
            #[trigger] self@.holders[i]) matches Some(h) ==> h < self@.threads.len()) by {
                if i != lockid - 1 {
                    assert(self@.holders[i] == old(self)@.holders[i]);
                }
            }
            lemma_retouch_wf(old(self)@, self@);
        }
    }
}

/// Creates a thread that is ready to run and registers it with the
/// scheduler. Returns the new thread, which is the next free index of the arena.
pub fn spawn(m: &mut Manager, name: String, priority: u32) -> (t: usize)
    requires
        old(m).wf(),
        priority <= PRI_MAX,
    ensures
        t == old(m)@.threads.len(),
        final(m)@ == old(m)@.spawned(name@, priority),
        final(m).wf(),
    final(m)@.threads.len() == old(m)@.threads.len() + 1,
    final(m)@.holders == old(m)@.holders,
{
    let t = m.threads.len();
    let ghost name_view = name@;
    let thread = Thread {
        id: t,
        name: name,
        status: Status::Ready,
        priority: priority,
        priority_setted: None,
        donationq: Vec::new(),
        stored_prev: (u32::MAX, priority),
        waiting_lock: None,
    };
    m.threads.push(thread);
    m.scheduler.register(t, priority);
    proof {
        let s = old(m)@;
        let n = s.spawned(name_view, priority);
        assert(m@.threads =~= n.threads);
        assert(m@ =~= n);
        assert forall|i: int| 0 <= i < n.threads.len() implies thread_ok(
            #[trigger] n.threads[i],
            i,
            n.threads.len(),
        ) by {
            if i < s.threads.len() {
                assert(thread_ok(s.threads[i], i, s.threads.len()));
                let q = s.threads[i].donationq;
                assert forall|k: int| 0 <= k < q.len() implies donation_ok(
                    #[trigger] q[k],
                    n.threads.len(),
                ) by {
                    assert(donation_ok(q[k], s.threads.len()));
                }
            }
        }
        assert forall|u: usize| u < n.threads.len() implies #[trigger] times_queued(n.ready, u)
            == places(n.threads[u as int].status) by {
            lemma_register_occurrences(s.ready, priority as int, t, u);
            if u < s.threads.len() {
                assert(times_queued(s.ready, u) == places(s.threads[u as int].status));
            } else {
                lemma_queued_iff_occurs(s.ready, u);
                if queued(s.ready, u) {
                    let j = choose|j: int| 0 <= j < s.ready.len() && #[trigger] s.ready[j].contains(u);
                    let k = choose|k: int| 0 <= k < s.ready[j].len() && s.ready[j][k] == u;
                    assert(s.ready[j][k] < s.threads.len());
                }
            }
        }
        assert forall|j: int, k: int| 0 <= j < n.ready.len() && 0 <= k < n.ready[j].len() implies {
            &&& (#[trigger] n.ready[j][k]) < n.threads.len()
            &&& n.threads[n.ready[j][k] as int].priority < n.ready.len()
        } by {
            if j == priority && k == 0 {
            } else if j == priority {
                assert(n.ready[j][k] == s.ready[j][k - 1]);
            } else {
                assert(n.ready[j][k] == s.ready[j][k]);
            }
        }
        assert forall|i: int| 0 <= i < n.threads.len() && i != n.current implies (
        #[trigger] n.threads[i]).status != Status::Running by {
            if i < s.threads.len() {
                assert(s.threads[i].status != Status::Running);
            }
        }
        assert forall|i: int| 0 <= i < n.holders.len() implies ((
        #[trigger] n.holders[i]) matches Some(h) ==> h < n.threads.len()) by {
            assert(s.holders[i] matches Some(h) ==> h < s.threads.len());
        }
        assert forall|i: int| 0 <= i < n.sleepers.len() implies (#[trigger] n.sleepers[i]).thread
            < n.threads.len() by {
            assert(s.sleepers[i].thread < s.threads.len());
        }
    }
    t
}

/// The thread that has the processor.
pub fn current(m: &Manager) -> (t: usize)
    ensures
        t == m@.current,
{
    m.current
}

/// Gives the processor to another thread if the scheduler hands one out.
///
/// Returns the displaced thread when the processor changes hands.
pub fn schedule(m: &mut Manager) -> (displaced: Option<usize>)
    requires
        old(m).wf(),
    ensures
        final(m)@ == old(m)@.scheduled(),
        final(m).wf(),
        displaced == if final(m)@.current != old(m)@.current {
            Some(old(m)@.current)
        } else {
            None
        },
    final(m)@.threads.len() == old(m)@.threads.len(),
    final(m)@.holders == old(m)@.holders,
{
    proof {
        lemma_scheduled_wf(m@);
    }
    let prev = m.current;
    let next = m.scheduler.schedule(&m.threads, prev);
    match next {
        None => {
            assert(m@ =~= old(m)@.scheduled());
            None
        },
        Some(n) => {
            let was_running = m.threads[prev].status == Status::Running;
            m.threads[n].status = Status::Running;
            if n != prev && was_running {
                m.threads[prev].status = Status::Ready;
                let level = m.threads[prev].priority;
                assert(thread_ok(old(m)@.threads[prev as int], prev as int, old(m)@.threads.len()));
                m.scheduler.register(prev, level);
            }
            m.current = n;
            assert(m@.threads =~= old(m)@.scheduled().threads);
            assert(m@ =~= old(m)@.scheduled());
            if n != prev {
                Some(prev)
            } else {
                None
            }
        },
    }
}

/// Marks the current thread dying and gives the processor away.
///
/// A dying thread is in no queue and cannot be woken, so it never runs again.
pub fn exit(m: &mut Manager)
    requires
        old(m).wf(),
        old(m)@.running(),
    ensures
        final(m)@ == old(m)@.exited(),
        final(m).wf(),
    final(m)@.threads.len() == old(m)@.threads.len(),
    final(m)@.holders == old(m)@.holders,
{
    proof {
        lemma_with_status_wf(m@, m@.current, Status::Dying);
    }
    let cur = m.current;
    m.threads[cur].status = Status::Dying;
    assert(m@.threads =~= old(m)@.with_status(cur, Status::Dying).threads);
    assert(m@ =~= old(m)@.with_status(cur, Status::Dying));
    schedule(m);
}

/// Marks the current thread blocked and gives the processor away.
///
/// The thread runs again only after another thread has woken it.
pub fn block(m: &mut Manager)
    requires
        old(m).wf(),
        old(m)@.running(),
    ensures
        final(m)@ == old(m)@.blocked(),
        final(m).wf(),
    final(m)@.threads.len() == old(m)@.threads.len(),
    final(m)@.holders == old(m)@.holders,
{
    proof {
        lemma_with_status_wf(m@, m@.current, Status::Blocked);
    }
    let cur = m.current;
    m.threads[cur].status = Status::Blocked;
    assert(m@.threads =~= old(m)@.with_status(cur, Status::Blocked).threads);
    assert(m@ =~= old(m)@.with_status(cur, Status::Blocked));
    schedule(m);
}

/// Makes blocked thread `thread` ready and registers it with the scheduler.
///
/// The processor does not change hands here; the next scheduling point decides.
pub fn wake_up(m: &mut Manager, thread: usize)
    requires
        old(m).wf(),
        thread < old(m)@.threads.len(),
        old(m)@.threads[thread as int].status == Status::Blocked,
    ensures
        final(m)@ == old(m)@.woken(thread),
        final(m).wf(),
    final(m)@.threads.len() == old(m)@.threads.len(),
    final(m)@.holders == old(m)@.holders,
{
    proof {
        lemma_woken_wf(m@, thread);
        assert(thread_ok(m@.threads[thread as int], thread as int, m@.threads.len()));
    }
    m.threads[thread].status = Status::Ready;
    let level = m.threads[thread].priority;
    m.scheduler.register(thread, level);
    assert(m@.threads =~= old(m)@.woken(thread).threads);
    assert(m@ =~= old(m)@.woken(thread));
}

/// Sets the priority of the current thread and lets the scheduler decide who runs.
///
/// The request is remembered: it replaces whatever priority a later lock
/// release would restore.
pub fn set_priority(m: &mut Manager, priority: u32)
    requires
        old(m).wf(),
        priority <= PRI_MAX,
    ensures
        final(m)@ == old(m)@.reprioritized(priority),
        final(m).wf(),
    final(m)@.threads.len() == old(m)@.threads.len(),
    final(m)@.holders == old(m)@.holders,
{
    let cur = m.current;
    m.set_thread_priority(cur, priority);
    let ghost mid = m@;
    m.threads[cur].priority_setted = Some(priority);
    proof {
        assert(m@.threads =~= mid.with_priority_setted(cur, priority).threads);
        assert(m@ =~= mid.with_priority_setted(cur, priority));
        assert forall|i: int| 0 <= i < m@.threads.len() implies thread_ok(
            #[trigger] m@.threads[i],
            i,
            m@.threads.len(),
        ) by {
            assert(thread_ok(mid.threads[i], i, mid.threads.len()));
        }
        lemma_retouch_wf(mid, m@);
    }
    schedule(m);
}

/// Effective priority of the current thread.
pub fn get_priority(m: &Manager) -> (priority: u32)
    requires
        m.wf(),
    ensures
        priority == m@.threads[m@.current as int].priority,
{
    m.threads[m.current].priority
}

/// Puts the current thread to sleep for `ticks` timer ticks, counted from tick `now`.
///
/// With `ticks <= 0` nothing happens. Otherwise the thread joins the sleep
/// queue with wake tick `now + ticks` and blocks.
pub fn sleep(m: &mut Manager, ticks: i64, now: i64)
    requires
        old(m).wf(),
        old(m)@.running(),
        ticks > 0 ==> now + ticks <= i64::MAX,
    ensures
        final(m)@ == old(m)@.slept(ticks, now),
        final(m).wf(),
    final(m)@.threads.len() == old(m)@.threads.len(),
    final(m)@.holders == old(m)@.holders,
{
    if ticks <= 0 {
        return ;
    }
    let wake_time = now + ticks;
    let cur = m.current;
    m.sleepq.push(SleepData { ticks: wake_time, thread: cur });
    proof {
        let s = old(m)@;
        let d = SleepData { ticks: wake_time, thread: cur };
        let n = s.with_sleeper(d);
        assert(m@ =~= n);
        lemma_slot(s.sleepers, wake_time);
        assert forall|i: int| 0 <= i < n.sleepers.len() implies (#[trigger] n.sleepers[i]).thread
            < n.threads.len() by {
            let p = slot(s.sleepers, wake_time);
            if i < p {
                assert(n.sleepers[i] == s.sleepers[i]);
            } else if i > p {
                assert(n.sleepers[i] == s.sleepers[i - 1]);
            }
        }
        assert(n.wf());
    }
    block(m);
}

/// Timer tick `now`: wakes every sleeper whose wake tick has come, earliest
/// first, then lets the scheduler decide who runs.
pub fn tick(m: &mut Manager, now: i64)
    requires
        old(m).wf(),
        old(m)@.wakeable(now),
    ensures
        final(m)@ == old(m)@.ticked(now),
        final(m).wf(),
    final(m)@.threads.len() == old(m)@.threads.len(),
    final(m)@.holders == old(m)@.holders,
{
    while m.sleepq.len() > 0 && m.sleepq.peek_time() <= now
        invariant
            m.wf(),
            m@.threads.len() == old(m)@.threads.len(),
            m@.holders == old(m)@.holders,
            m@.wakeable(now),
            m@.drained(now) == old(m)@.drained(now),
        decreases m@.sleepers.len(),
    {
        let ghost s = m@;
        let d = m.sleepq.pop();
        proof {
            let mid = ManagerView { sleepers: s.sleepers.drop_first(), ..s };
            assert(m@ =~= mid);
            assert(s.sleepers[0].thread < s.threads.len());
            assert forall|i: int| 0 <= i < mid.sleepers.len() implies (
            #[trigger] mid.sleepers[i]).thread < mid.threads.len() by {
                assert(mid.sleepers[i] == s.sleepers[i + 1]);
            }
            assert(mid.wf());
        }
        wake_up(m, d.thread);
    }
    schedule(m);
}

} // verus!
