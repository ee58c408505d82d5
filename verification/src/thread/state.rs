//! Mathematical model of the kernel state.
//!
//! [`ManagerView`] is the value that a `Manager` stands for. Every operation
//! of the kernel is described here as a function from state to state, and
//! the laws that hold of those functions are proved here.

use crate::sleepq::{SleepData, in_wake_order, lemma_slot, slot};
use crate::sync::sleep::DonationData;
use crate::thread::scheduler::priority::{
    after_pick, lemma_pick_highest, lemma_queued_iff_occurs, lemma_rebucket_fits,
    lemma_rebucket_occurrences, lemma_register_occurrences, lemma_take_occurrences,
    lemma_top_level, pick, queued, queues_fit, rebucket, times_queued, top_level,
};
use crate::thread::{PRI_LEVELS, PRI_MAX, Status, ThreadView};
use vstd::prelude::*;

verus! {

/// Whether a donation record names existing threads and priorities within range.
pub open spec fn donation_ok(d: DonationData, n: nat) -> bool {
    &&& d.donner < n
    &&& d.acceptor < n
    &&& d.donner_priority <= PRI_MAX
    &&& d.prev_priority <= PRI_MAX
}

/// Whether the record of thread `i` in an arena of `n` threads is consistent.
pub open spec fn thread_ok(t: ThreadView, i: int, n: nat) -> bool {
    &&& t.id == i
    &&& t.priority <= PRI_MAX
    &&& (t.priority_setted matches Some(p) ==> p <= PRI_MAX)
    &&& t.stored_prev.1 <= PRI_MAX
    &&& forall|k: int| 0 <= k < t.donationq.len() ==> donation_ok(#[trigger] t.donationq[k], n)
}

/// Predicate "the record belongs to lock `lockid`" as a function of the record.
pub open spec fn for_lock(lockid: u32) -> spec_fn(DonationData) -> bool {
    |d: DonationData| d.lockid == lockid
}

/// Predicate "the record belongs to another lock than `lockid`" as a function of the record.
pub open spec fn not_for_lock(lockid: u32) -> spec_fn(DonationData) -> bool {
    |d: DonationData| d.lockid != lockid
}

/// The highest of `base` and the donor priorities recorded in `q`.
pub open spec fn highest_donation(q: Seq<DonationData>, base: u32) -> u32
    decreases q.len(),
{
    if q.len() == 0 {
        base
    } else {
        let rest = highest_donation(q.drop_last(), base);
        if q.last().donner_priority > rest {
            q.last().donner_priority
        } else {
            rest
        }
    }
}

/// `highest_donation` is the maximum of `base` and the recorded donor priorities.
pub proof fn lemma_highest_donation(q: Seq<DonationData>, base: u32)
    ensures
        highest_donation(q, base) >= base,
        forall|k: int| 0 <= k < q.len() ==> highest_donation(q, base) >= q[k].donner_priority,
        highest_donation(q, base) == base || exists|k: int|
            0 <= k < q.len() && highest_donation(q, base) == q[k].donner_priority,
    decreases q.len(),
{
    if q.len() > 0 {
        let front = q.drop_last();
        lemma_highest_donation(front, base);
        assert forall|k: int| 0 <= k < q.len() implies highest_donation(q, base)
            >= q[k].donner_priority by {
            if k < front.len() {
                assert(front[k] == q[k]);
            }
        }
        if highest_donation(q, base) != base {
            if highest_donation(q, base) == q.last().donner_priority {
                assert(q[q.len() - 1] == q.last());
            } else {
                let k = choose|k: int|
                    0 <= k < front.len() && highest_donation(front, base)
                        == front[k].donner_priority;
                assert(front[k] == q[k]);
            }
        }
    }
}

/// Number of places that a thread of the given status takes in the ready queues.
pub open spec fn places(status: Status) -> nat {
    if status == Status::Ready {
        1
    } else {
        0
    }
}

/// Mathematical value of a [`Manager`].
#[verifier::ext_equal]
pub struct ManagerView {
    /// The arena; a thread is named by its index.
    pub threads: Seq<ThreadView>,
    /// Thread that has the processor.
    pub current: usize,
    /// The 64 ready queues, each written front to back.
    pub ready: Seq<Seq<usize>>,
    /// Sleeping threads in wake order.
    pub sleepers: Seq<SleepData>,
    /// Holder of each lock; lock `id` is entry `id - 1`.
    pub holders: Seq<Option<usize>>,
}

impl ManagerView {
    /// The state with the status of thread `t` set to `status`.
    pub open spec fn with_status(self, t: usize, status: Status) -> ManagerView {
        ManagerView {
            threads: self.threads.update(
                t as int,
                ThreadView { status: status, ..self.threads[t as int] },
            ),
            ..self
        }
    }

    /// The state with thread `t` added at the front of the ready queue of its priority.
    pub open spec fn registered(self, t: usize) -> ManagerView {
        let level = self.threads[t as int].priority as int;
        ManagerView { ready: self.ready.update(level, seq![t] + self.ready[level]), ..self }
    }

    /// The state after a scheduling point.
    ///
    /// The ready queues are put in order. If the scheduler hands out a
    /// thread, that thread becomes the running one; the thread it displaces
    /// becomes ready and is queued again if it was still running.
    pub open spec fn scheduled(self) -> ManagerView {
        let r = rebucket(self.ready, self.threads);
        match pick(r, self.threads, self.current) {
            None => ManagerView { ready: r, ..self },
            Some(next) => {
                let taken = ManagerView {
                    ready: after_pick(r, self.threads, self.current),
                    ..self
                };
                if next != self.current && self.threads[self.current as int].status
                    == Status::Running {
                    ManagerView {
                        current: next,
                        ..taken.with_status(next, Status::Running).with_status(
                            self.current,
                            Status::Ready,
                        ).registered(self.current)
                    }
                } else {
                    ManagerView { current: next, ..taken.with_status(next, Status::Running) }
                }
            },
        }
    }

    /// The state after the current thread has blocked.
    pub open spec fn blocked(self) -> ManagerView {
        self.with_status(self.current, Status::Blocked).scheduled()
    }

    /// The state after blocked thread `t` has been woken.
    pub open spec fn woken(self, t: usize) -> ManagerView {
        self.with_status(t, Status::Ready).registered(t)
    }

    /// The state after the current thread has exited.
    pub open spec fn exited(self) -> ManagerView {
        self.with_status(self.current, Status::Dying).scheduled()
    }

    /// The state with the priority of thread `t` set to `priority`.
    pub open spec fn with_priority(self, t: usize, priority: u32) -> ManagerView {
        ManagerView {
            threads: self.threads.update(
                t as int,
                ThreadView { priority: priority, ..self.threads[t as int] },
            ),
            ..self
        }
    }

    /// The state with `d` appended to the donations of thread `t`.
    pub open spec fn with_donation(self, t: usize, d: DonationData) -> ManagerView {
        ManagerView {
            threads: self.threads.update(
                t as int,
                ThreadView {
                    donationq: self.threads[t as int].donationq.push(d),
                    ..self.threads[t as int]
                },
            ),
            ..self
        }
    }

    /// The state with the records for lock `lockid` removed from the donations of thread `t`.
    pub open spec fn without_donations(self, t: usize, lockid: u32) -> ManagerView {
        ManagerView {
            threads: self.threads.update(
                t as int,
                ThreadView {
                    donationq: self.threads[t as int].donationq.filter(not_for_lock(lockid)),
                    ..self.threads[t as int]
                },
            ),
            ..self
        }
    }

    /// The state with the stored baseline of thread `t` replaced.
    pub open spec fn with_stored_prev(self, t: usize, stored: (u32, u32)) -> ManagerView {
        ManagerView {
            threads: self.threads.update(
                t as int,
                ThreadView { stored_prev: stored, ..self.threads[t as int] },
            ),
            ..self
        }
    }

    /// The state with the requested priority of thread `t` recorded.
    pub open spec fn with_priority_setted(self, t: usize, priority: u32) -> ManagerView {
        ManagerView {
            threads: self.threads.update(
                t as int,
                ThreadView { priority_setted: Some(priority), ..self.threads[t as int] },
            ),
            ..self
        }
    }

    /// The state with the lock that thread `t` is suspended on replaced.
    pub open spec fn with_waiting(self, t: usize, lock: Option<u32>) -> ManagerView {
        ManagerView {
            threads: self.threads.update(
                t as int,
                ThreadView { waiting_lock: lock, ..self.threads[t as int] },
            ),
            ..self
        }
    }

    /// Whether `lockid` names a lock of this state.
    pub open spec fn has_lock(self, lockid: u32) -> bool {
        1 <= lockid <= self.holders.len()
    }

    /// Holder of lock `lockid`, if the lock exists and is held.
    pub open spec fn holder(self, lockid: u32) -> Option<usize> {
        if self.has_lock(lockid) {
            self.holders[lockid - 1]
        } else {
            None
        }
    }

    /// The state with the holder of lock `lockid` replaced.
    pub open spec fn with_holder(self, lockid: u32, holder: Option<usize>) -> ManagerView {
        ManagerView { holders: self.holders.update(lockid - 1, holder), ..self }
    }

    /// The state with one more lock, not held.
    pub open spec fn with_new_lock(self) -> ManagerView {
        ManagerView { holders: self.holders.push(None), ..self }
    }

    /// The state with a new ready thread of the given name and priority, queued at its level.
    pub open spec fn spawned(self, name: Seq<char>, priority: u32) -> ManagerView {
        ManagerView {
            threads: self.threads.push(
                ThreadView {
                    id: self.threads.len() as usize,
                    name: name,
                    status: Status::Ready,
                    priority: priority,
                    priority_setted: None,
                    donationq: Seq::empty(),
                    stored_prev: (u32::MAX, priority),
                    waiting_lock: None,
                },
            ),
            ..self
        }.registered(self.threads.len() as usize)
    }

    /// The state with sleeper `d` added behind the sleepers that are due no later.
    pub open spec fn with_sleeper(self, d: SleepData) -> ManagerView {
        ManagerView { sleepers: self.sleepers.insert(slot(self.sleepers, d.ticks), d), ..self }
    }

    /// The state after the current thread has gone to sleep for `ticks` ticks at tick `now`.
    pub open spec fn slept(self, ticks: i64, now: i64) -> ManagerView {
        if ticks <= 0 {
            self
        } else {
            self.with_sleeper(
                SleepData { ticks: (now + ticks) as i64, thread: self.current },
            ).blocked()
        }
    }

    /// Whether the sleeper at the front is due at tick `now`.
    pub open spec fn front_due(self, now: i64) -> bool {
        self.sleepers.len() > 0 && self.sleepers[0].ticks <= now
    }

    /// The state after the sleeper at the front has been woken.
    pub open spec fn front_woken(self) -> ManagerView {
        ManagerView { sleepers: self.sleepers.drop_first(), ..self }.woken(self.sleepers[0].thread)
    }

    /// Whether every sleeper that is due at tick `now` is blocked when its turn to be woken comes.
    pub open spec fn wakeable(self, now: i64) -> bool
        decreases self.sleepers.len(),
    {
        if self.front_due(now) {
            &&& self.threads[self.sleepers[0].thread as int].status == Status::Blocked
            &&& self.front_woken().wakeable(now)
        } else {
            true
        }
    }

    /// Whether the sleepers that are due at tick `now` are blocked threads, no two the same.
    pub open spec fn due_blocked(self, now: i64) -> bool {
        &&& forall|i: int|
            0 <= i < slot(self.sleepers, now) ==> self.threads[(
            #[trigger] self.sleepers[i]).thread as int].status == Status::Blocked
        &&& forall|i: int, j: int|
            0 <= i < j < slot(self.sleepers, now) ==> (#[trigger] self.sleepers[i]).thread != (
            #[trigger] self.sleepers[j]).thread
    }

    /// The state after every sleeper that is due at tick `now` has been woken, earliest first.
    pub open spec fn drained(self, now: i64) -> ManagerView
        decreases self.sleepers.len(),
    {
        if self.front_due(now) {
            self.front_woken().drained(now)
        } else {
            self
        }
    }

    /// The state after the timer tick `now`: due sleepers are woken, then the scheduler decides.
    pub open spec fn ticked(self, now: i64) -> ManagerView {
        self.drained(now).scheduled()
    }

    /// The state after the current thread has set its own priority.
    pub open spec fn reprioritized(self, priority: u32) -> ManagerView {
        self.with_priority(self.current, priority).with_priority_setted(
            self.current,
            priority,
        ).scheduled()
    }

    /// Whether the current thread is running.
    pub open spec fn running(self) -> bool {
        self.threads[self.current as int].status == Status::Running
    }

    /// Consistency of the kernel state.
    ///
    /// Thread records are consistent, only the current thread can be
    /// running, and a thread is in the ready queues exactly once when it is
    /// ready and not at all otherwise.
    pub open spec fn wf(self) -> bool {
        &&& self.current < self.threads.len()
        &&& forall|i: int|
            0 <= i < self.threads.len() ==> thread_ok(
                #[trigger] self.threads[i],
                i,
                self.threads.len(),
            )
        &&& forall|i: int|
            0 <= i < self.threads.len() && i != self.current ==> (
            #[trigger] self.threads[i]).status != Status::Running
        &&& self.ready.len() == PRI_LEVELS
        &&& queues_fit(self.ready, self.threads)
        &&& forall|t: usize|
            t < self.threads.len() ==> #[trigger] times_queued(self.ready, t) == places(
                self.threads[t as int].status,
            )
        &&& in_wake_order(self.sleepers)
        &&& forall|i: int|
            0 <= i < self.sleepers.len() ==> (#[trigger] self.sleepers[i]).thread
                < self.threads.len()
        &&& self.holders.len() < u32::MAX
        &&& forall|i: int|
            0 <= i < self.holders.len() ==> ((#[trigger] self.holders[i]) matches Some(h) ==> h
                < self.threads.len())
    }
}

/// Changing the status of a thread between two states other than `Ready`
/// keeps a state consistent, provided no thread other than the current one
/// is made to run.
pub proof fn lemma_with_status_wf(s: ManagerView, t: usize, status: Status)
    requires
        s.wf(),
        t < s.threads.len(),
        s.threads[t as int].status != Status::Ready,
        status != Status::Ready,
        status == Status::Running ==> t == s.current,
    ensures
        s.with_status(t, status).wf(),
{
    let n = s.with_status(t, status);
    assert forall|i: int| 0 <= i < n.threads.len() implies thread_ok(
        #[trigger] n.threads[i],
        i,
        n.threads.len(),
    ) by {
        assert(thread_ok(s.threads[i], i, s.threads.len()));
    }
    assert forall|u: usize| u < n.threads.len() implies #[trigger] times_queued(n.ready, u)
        == places(n.threads[u as int].status) by {
        assert(times_queued(s.ready, u) == places(s.threads[u as int].status));
    }
    assert forall|j: int, k: int| 0 <= j < n.ready.len() && 0 <= k < n.ready[j].len() implies {
        &&& (#[trigger] n.ready[j][k]) < n.threads.len()
        &&& n.threads[n.ready[j][k] as int].priority < n.ready.len()
    } by {
        assert(s.ready[j][k] < s.threads.len());
    }
}

/// Waking a blocked thread keeps a state consistent.
pub proof fn lemma_woken_wf(s: ManagerView, t: usize)
    requires
        s.wf(),
        t < s.threads.len(),
        s.threads[t as int].status != Status::Ready,
        s.threads[t as int].status != Status::Running,
    ensures
        s.woken(t).wf(),
{
    let m = s.with_status(t, Status::Ready);
    let n = s.woken(t);
    let level = s.threads[t as int].priority as int;
    assert(thread_ok(s.threads[t as int], t as int, s.threads.len()));
    assert forall|i: int| 0 <= i < n.threads.len() implies thread_ok(
        #[trigger] n.threads[i],
        i,
        n.threads.len(),
    ) by {
        assert(thread_ok(s.threads[i], i, s.threads.len()));
    }
    assert forall|u: usize| u < n.threads.len() implies #[trigger] times_queued(n.ready, u)
        == places(n.threads[u as int].status) by {
        assert(times_queued(s.ready, u) == places(s.threads[u as int].status));
        lemma_register_occurrences(s.ready, level, t, u);
    }
    assert forall|j: int, k: int| 0 <= j < n.ready.len() && 0 <= k < n.ready[j].len() implies {
        &&& (#[trigger] n.ready[j][k]) < n.threads.len()
        &&& n.threads[n.ready[j][k] as int].priority < n.ready.len()
    } by {
        if j == level {
            if k > 0 {
                assert(n.ready[j][k] == s.ready[j][k - 1]);
            }
        } else {
            assert(n.ready[j][k] == s.ready[j][k]);
        }
    }
}

/// A scheduling point keeps a state consistent.
pub proof fn lemma_scheduled_wf(s: ManagerView)
    requires
        s.wf(),
    ensures
        s.scheduled().wf(),
        s.scheduled().threads.len() == s.threads.len(),
        pick(rebucket(s.ready, s.threads), s.threads, s.current) matches Some(next) ==> next
            < s.threads.len() && s.threads[next as int].status == Status::Ready,
{
    let r = rebucket(s.ready, s.threads);
    let n = s.scheduled();
    let mid = ManagerView { ready: r, ..s };
    lemma_rebucket_fits(s.ready, s.threads);
    assert forall|u: usize| u < s.threads.len() implies #[trigger] times_queued(r, u)
        == places(s.threads[u as int].status) by {
        lemma_rebucket_occurrences(s.ready, s.threads, u);
        assert(times_queued(s.ready, u) == places(s.threads[u as int].status));
    }
    assert(mid.wf());
    match pick(r, s.threads, s.current) {
        None => {},
        Some(next) => {
            let top = top_level(r, r.len() as int);
            lemma_top_level(r, r.len() as int);
            assert(next == r[top][r[top].len() - 1]);
            assert(r[top].contains(next));
            lemma_queued_iff_occurs(r, next);
            assert(times_queued(r, next) == 1);
            let a = after_pick(r, s.threads, s.current);
            let taken = ManagerView { ready: a, ..s };
            let run = taken.with_status(next, Status::Running);
            assert forall|j: int, k: int| 0 <= j < a.len() && 0 <= k < a[j].len() implies {
                &&& (#[trigger] a[j][k]) < s.threads.len()
                &&& s.threads[a[j][k] as int].priority < a.len()
            } by {
                assert(a[j][k] == r[j][k]);
            }
            assert forall|u: usize| u < s.threads.len() implies #[trigger] times_queued(a, u)
                == places(run.threads[u as int].status) by {
                lemma_take_occurrences(r, top, u);
                assert(times_queued(r, u) == places(s.threads[u as int].status));
            }
            assert forall|i: int| 0 <= i < run.threads.len() implies thread_ok(
                #[trigger] run.threads[i],
                i,
                run.threads.len(),
            ) by {
                assert(thread_ok(s.threads[i], i, s.threads.len()));
            }
            if next != s.current && s.threads[s.current as int].status == Status::Running {
                let back = run.with_status(s.current, Status::Ready);
                let level = s.threads[s.current as int].priority as int;
                assert(thread_ok(s.threads[s.current as int], s.current as int, s.threads.len()));
                assert forall|i: int| 0 <= i < n.threads.len() implies thread_ok(
                    #[trigger] n.threads[i],
                    i,
                    n.threads.len(),
                ) by {
                    assert(thread_ok(s.threads[i], i, s.threads.len()));
                }
                assert forall|u: usize| u < n.threads.len() implies #[trigger] times_queued(
                    n.ready,
                    u,
                ) == places(n.threads[u as int].status) by {
                    assert(times_queued(a, u) == places(run.threads[u as int].status));
                    lemma_register_occurrences(a, level, s.current, u);
                }
                assert forall|j: int, k: int|
                    0 <= j < n.ready.len() && 0 <= k < n.ready[j].len() implies {
                    &&& (#[trigger] n.ready[j][k]) < n.threads.len()
                    &&& n.threads[n.ready[j][k] as int].priority < n.ready.len()
                } by {
                    if j == level {
                        if k > 0 {
                            assert(n.ready[j][k] == a[j][k - 1]);
                        }
                    } else {
                        assert(n.ready[j][k] == a[j][k]);
                    }
                }
                assert forall|i: int|
                    0 <= i < n.threads.len() && i != n.current implies (
                #[trigger] n.threads[i]).status != Status::Running by {
                    if i != s.current {
                        assert(s.threads[i].status != Status::Running);
                    }
                }
            } else {
                assert forall|i: int|
                    0 <= i < n.threads.len() && i != n.current implies (
                #[trigger] n.threads[i]).status != Status::Running by {
                    if i != s.current {
                        assert(s.threads[i].status != Status::Running);
                    }
                }
            }
        },
    }
}

/// A change that leaves statuses, queues, sleepers and the current thread
/// alone, and leaves every record and the lock table consistent, keeps a
/// state consistent.
pub proof fn lemma_retouch_wf(s: ManagerView, n: ManagerView)
    requires
        s.wf(),
        n.threads.len() == s.threads.len(),
        n.current == s.current,
        n.ready == s.ready,
        n.sleepers == s.sleepers,
        forall|i: int|
            0 <= i < n.threads.len() ==> thread_ok(#[trigger] n.threads[i], i, n.threads.len())
                && n.threads[i].status == s.threads[i].status,
        n.holders.len() < u32::MAX,
        forall|i: int|
            0 <= i < n.holders.len() ==> ((#[trigger] n.holders[i]) matches Some(h) ==> h
                < n.threads.len()),
    ensures
        n.wf(),
{
    assert forall|u: usize| u < n.threads.len() implies #[trigger] times_queued(n.ready, u)
        == places(n.threads[u as int].status) by {
        assert(times_queued(s.ready, u) == places(s.threads[u as int].status));
    }
    assert forall|j: int, k: int| 0 <= j < n.ready.len() && 0 <= k < n.ready[j].len() implies {
        &&& (#[trigger] n.ready[j][k]) < n.threads.len()
        &&& n.threads[n.ready[j][k] as int].priority < n.ready.len()
    } by {
        assert(s.ready[j][k] < s.threads.len());
        assert(thread_ok(n.threads[n.ready[j][k] as int], n.ready[j][k] as int, n.threads.len()));
    }
    assert forall|i: int| 0 <= i < n.threads.len() && i != n.current implies (
    #[trigger] n.threads[i]).status != Status::Running by {
        assert(s.threads[i].status != Status::Running);
    }
}

/// When a running thread still has the processor after a scheduling point,
/// nothing but the order of the ready queues has changed.
pub proof fn lemma_scheduled_stays(s: ManagerView)
    requires
        s.wf(),
        s.running(),
        s.scheduled().current == s.current,
    ensures
        s.scheduled() == (ManagerView { ready: rebucket(s.ready, s.threads), ..s }),
        s.scheduled().running(),
{
    lemma_scheduled_wf(s);
}

/// Strict priority with no preemption by lower threads.
///
/// When a scheduling point hands the processor to a thread, that thread was
/// ready and no ready thread had a higher priority. When it hands the
/// processor to nobody although threads are ready, the current thread is
/// running and its priority is above that of every ready thread.
pub proof fn lemma_schedule_strict_priority(s: ManagerView)
    requires
        s.wf(),
    ensures
        pick(rebucket(s.ready, s.threads), s.threads, s.current) matches Some(c) ==> {
            &&& c < s.threads.len()
            &&& s.threads[c as int].status == Status::Ready
            &&& s.scheduled().current == c
            &&& s.scheduled().threads[c as int].status == Status::Running
            &&& forall|t: int|
                0 <= t < s.threads.len() && (#[trigger] s.threads[t]).status == Status::Ready
                    ==> s.threads[t].priority <= s.threads[c as int].priority
        },
        pick(rebucket(s.ready, s.threads), s.threads, s.current) is None ==> {
            &&& s.scheduled().current == s.current
            &&& s.scheduled().threads == s.threads
            &&& forall|t: int|
                0 <= t < s.threads.len() && (#[trigger] s.threads[t]).status == Status::Ready
                    ==> s.running() && s.threads[t].priority
                    < s.threads[s.current as int].priority
        },
{
    lemma_scheduled_wf(s);
    lemma_pick_highest(s.ready, s.threads, s.current);
    assert forall|t: int|
        0 <= t < s.threads.len() && (#[trigger] s.threads[t]).status
            == Status::Ready implies queued(s.ready, t as usize) by {
        assert(times_queued(s.ready, t as usize) == 1);
        lemma_queued_iff_occurs(s.ready, t as usize);
    }
}

/// A thread that has exited never runs again by way of the scheduler: a
/// scheduling point hands the processor only to a thread that was ready.
pub proof fn lemma_dying_stays(s: ManagerView, t: usize)
    requires
        s.wf(),
        t < s.threads.len(),
        s.threads[t as int].status == Status::Dying,
    ensures
        s.scheduled().threads[t as int].status == Status::Dying,
        s.scheduled().current == t ==> s.current == t,
{
    lemma_schedule_strict_priority(s);
}

/// A tick wakes the sleepers that are due and no others.
///
/// After the sleepers due at `now` have been woken, the sleep queue holds
/// exactly the former sleepers with a later wake tick, in their order. A
/// thread named by a due entry is ready; the status of every other thread
/// is as before.
pub proof fn lemma_drained(s: ManagerView, now: i64)
    requires
        in_wake_order(s.sleepers),
        forall|i: int| 0 <= i < s.sleepers.len() ==> (#[trigger] s.sleepers[i]).thread < s.threads.len(),
    ensures
        0 <= slot(s.sleepers, now) <= s.sleepers.len(),
        s.drained(now).sleepers == s.sleepers.subrange(
            slot(s.sleepers, now),
            s.sleepers.len() as int,
        ),
        forall|i: int|
            0 <= i < s.drained(now).sleepers.len() ==> (#[trigger] s.drained(now).sleepers[i]).ticks
                > now,
        forall|i: int| 0 <= i < slot(s.sleepers, now) ==> (#[trigger] s.sleepers[i]).ticks <= now,
        s.drained(now).threads.len() == s.threads.len(),
        s.drained(now).current == s.current,
        forall|i: int|
            0 <= i < slot(s.sleepers, now) ==> s.drained(now).threads[(
            #[trigger] s.sleepers[i]).thread as int].status == Status::Ready,
        forall|t: int|
            0 <= t < s.threads.len() && (forall|i: int|
                0 <= i < slot(s.sleepers, now) ==> (#[trigger] s.sleepers[i]).thread != t)
                ==> (#[trigger] s.drained(now).threads[t]).status == s.threads[t].status,
    decreases s.sleepers.len(),
{
    lemma_slot(s.sleepers, now);
    if s.front_due(now) {
        let n = s.front_woken();
        let rest = s.sleepers.drop_first();
        let k = slot(s.sleepers, now);
        let first = s.sleepers[0].thread;
        assert(n.sleepers == rest);
        assert forall|i: int, j: int| 0 <= i <= j < rest.len() implies rest[i].ticks
            <= rest[j].ticks by {
            assert(rest[i] == s.sleepers[i + 1] && rest[j] == s.sleepers[j + 1]);
        }
        assert forall|i: int| 0 <= i < rest.len() implies (#[trigger] rest[i]).thread
            < n.threads.len() by {
            assert(rest[i] == s.sleepers[i + 1]);
        }
        lemma_drained(n, now);
        assert(slot(rest, now) == k - 1);
        assert(rest.subrange(k - 1, rest.len() as int) =~= s.sleepers.subrange(
            k,
            s.sleepers.len() as int,
        ));
        assert forall|i: int| 0 <= i < k implies s.drained(now).threads[(
        #[trigger] s.sleepers[i]).thread as int].status == Status::Ready by {
            if i > 0 {
                assert(rest[i - 1] == s.sleepers[i]);
            } else if forall|j: int| 0 <= j < k - 1 ==> (#[trigger] rest[j]).thread != first {
                assert(n.drained(now).threads[first as int].status == n.threads[first as int].status);
            } else {
                let j = choose|j: int| 0 <= j < k - 1 && (#[trigger] rest[j]).thread == first;
                assert(n.drained(now).threads[rest[j].thread as int].status == Status::Ready);
            }
        }
        assert forall|t: int|
            0 <= t < s.threads.len() && (forall|i: int|
                0 <= i < k ==> (#[trigger] s.sleepers[i]).thread != t) implies (
        #[trigger] s.drained(now).threads[t]).status == s.threads[t].status by {
            assert(s.sleepers[0].thread != t);
            assert forall|i: int| 0 <= i < k - 1 implies (#[trigger] rest[i]).thread != t by {
                assert(rest[i] == s.sleepers[i + 1]);
            }
            assert(n.drained(now).threads[t].status == n.threads[t].status);
        }
    } else {
        assert(s.sleepers.subrange(0, s.sleepers.len() as int) =~= s.sleepers);
    }
}

/// A sleeper is woken by the first tick at or after its wake tick, and by no earlier one.
///
/// If the wake tick of a sleeper has come at tick `now`, draining the queue
/// leaves its thread ready. If it has not, the sleeper stays in the queue.
pub proof fn lemma_tick_wakes_due(s: ManagerView, now: i64, i: int)
    requires
        in_wake_order(s.sleepers),
        forall|k: int| 0 <= k < s.sleepers.len() ==> (#[trigger] s.sleepers[k]).thread < s.threads.len(),
        0 <= i < s.sleepers.len(),
    ensures
        s.sleepers[i].ticks <= now ==> s.drained(now).threads[s.sleepers[i].thread as int].status
            == Status::Ready,
        s.sleepers[i].ticks > now ==> s.drained(now).sleepers.contains(s.sleepers[i]),
{
    lemma_drained(s, now);
    lemma_slot(s.sleepers, now);
    let k = slot(s.sleepers, now);
    if s.sleepers[i].ticks > now {
        assert(s.drained(now).sleepers[i - k] == s.sleepers[i]);
    }
}

/// Due sleepers that are blocked and pairwise distinct can be woken in turn.
pub proof fn lemma_due_blocked(s: ManagerView, now: i64)
    requires
        s.wf(),
        s.due_blocked(now),
    ensures
        s.wakeable(now),
    decreases s.sleepers.len(),
{
    lemma_slot(s.sleepers, now);
    if s.front_due(now) {
        let n = s.front_woken();
        let rest = s.sleepers.drop_first();
        let first = s.sleepers[0].thread;
        let k = slot(s.sleepers, now);
        assert(first < s.threads.len());
        let mid = ManagerView { sleepers: rest, ..s };
        assert forall|i: int, j: int| 0 <= i <= j < rest.len() implies rest[i].ticks
            <= rest[j].ticks by {
            assert(rest[i] == s.sleepers[i + 1] && rest[j] == s.sleepers[j + 1]);
        }
        assert forall|i: int| 0 <= i < rest.len() implies (#[trigger] rest[i]).thread
            < mid.threads.len() by {
            assert(rest[i] == s.sleepers[i + 1]);
        }
        assert(mid.wf());
        lemma_woken_wf(mid, first);
        assert(slot(rest, now) == k - 1);
        assert forall|i: int| 0 <= i < k - 1 implies n.threads[(
        #[trigger] n.sleepers[i]).thread as int].status == Status::Blocked by {
            assert(rest[i] == s.sleepers[i + 1]);
            assert(s.sleepers[0].thread != s.sleepers[i + 1].thread);
        }
        assert forall|i: int, j: int| 0 <= i < j < k - 1 implies (#[trigger] n.sleepers[i]).thread
            != (#[trigger] n.sleepers[j]).thread by {
            assert(rest[i] == s.sleepers[i + 1] && rest[j] == s.sleepers[j + 1]);
        }
        lemma_due_blocked(n, now);
    }
}

} // verus!
