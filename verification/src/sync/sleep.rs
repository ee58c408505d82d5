//! Sleep lock with priority donation.
//!
//! A thread that finds the lock held by a thread of lower priority gives the
//! holder its own priority, and so on along the chain of locks that the
//! holders themselves wait for. Releasing a lock takes back what was given
//! because of it.

use crate::sync::sema::{Semaphore, SemaphoreView, best, lemma_best};
use crate::thread::scheduler::priority::{lemma_filter_all, lemma_filter_none};
use crate::thread::state::{
    ManagerView, donation_ok, for_lock, highest_donation, lemma_highest_donation,
    lemma_retouch_wf, lemma_schedule_strict_priority, lemma_scheduled_stays, lemma_scheduled_wf,
    lemma_woken_wf, not_for_lock, thread_ok,
};
use crate::thread::{Manager, Status, ThreadView, current, schedule};
use vstd::prelude::*;

verus! {

/// One edge of the donation graph: `donner` raised `acceptor` because of lock `lockid`.
#[derive(Clone, Copy, Debug, PartialEq, Eq, Structural)]
pub struct DonationData {
    /// Thread that gave its priority.
    pub donner: usize,
    /// Thread that received it.
    pub acceptor: usize,
    /// Priority of the donor when it donated.
    pub donner_priority: u32,
    /// Priority of the acceptor just before the donation.
    pub prev_priority: u32,
    /// Whether this copy of the record sits in the donor's list.
    pub is_donner: bool,
    /// Lock that caused the donation.
    pub lockid: u32,
}

/// The record of a donation from `donner` to `acceptor` in state `m`, as the donor keeps it.
pub open spec fn record(
    m: ManagerView,
    donner: usize,
    acceptor: usize,
    lockid: u32,
) -> DonationData {
    DonationData {
        donner: donner,
        acceptor: acceptor,
        donner_priority: m.threads[donner as int].priority,
        prev_priority: m.threads[acceptor as int].priority,
        is_donner: true,
        lockid: lockid,
    }
}

/// Whether `donner` has to donate to `acceptor`.
pub open spec fn needs_donation(m: ManagerView, donner: usize, acceptor: usize) -> bool {
    m.threads[donner as int].priority > m.threads[acceptor as int].priority
}

/// The state after `donner` has donated to `acceptor` where needed: the
/// acceptor has the donor's priority, and both keep a record of it.
pub open spec fn donated(
    m: ManagerView,
    donner: usize,
    acceptor: usize,
    lockid: u32,
) -> ManagerView {
    if needs_donation(m, donner, acceptor) {
        let d = record(m, donner, acceptor, lockid);
        m.with_priority(acceptor, d.donner_priority).with_donation(donner, d).with_donation(
            acceptor,
            DonationData { is_donner: false, ..d },
        )
    } else {
        m
    }
}

/// The state after [`donation_wrapped`]: a donation where needed, followed by a scheduling point.
pub open spec fn donated_and_scheduled(
    m: ManagerView,
    donner: usize,
    acceptor: usize,
    lockid: u32,
) -> ManagerView {
    if needs_donation(m, donner, acceptor) {
        donated(m, donner, acceptor, lockid).scheduled()
    } else {
        m
    }
}

/// The holder that thread `t` waits behind and the lock it waits for, if `t`
/// is suspended on a lock that is held.
pub open spec fn next_link(m: ManagerView, t: usize) -> Option<(usize, u32)> {
    match m.threads[t as int].waiting_lock {
        Some(lockid) => match m.holder(lockid) {
            Some(h) => Some((h, lockid)),
            None => None,
        },
        None => None,
    }
}

/// The holders reached from thread `t` in at most `fuel` steps, nearest first.
pub open spec fn chain(m: ManagerView, t: usize, fuel: nat) -> Seq<usize>
    decreases fuel,
{
    if fuel == 0 {
        Seq::empty()
    } else {
        match next_link(m, t) {
            Some((h, _)) => seq![h] + chain(m, h, (fuel - 1) as nat),
            None => Seq::empty(),
        }
    }
}

/// The state after the priority of thread `t` has been passed along its chain for `fuel` steps.
pub open spec fn propagated(m: ManagerView, t: usize, fuel: nat) -> ManagerView
    decreases fuel,
{
    if fuel == 0 {
        m
    } else {
        match next_link(m, t) {
            Some((h, lockid)) => propagated(donated(m, t, h, lockid), h, (fuel - 1) as nat),
            None => m,
        }
    }
}

/// A donation changes no status, queue, waiting lock or holder, lowers no
/// priority, and leaves the acceptor at least as high as the donor.
pub proof fn lemma_donated(m: ManagerView, donner: usize, acceptor: usize, lockid: u32)
    requires
        m.wf(),
        donner < m.threads.len(),
        acceptor < m.threads.len(),
    ensures
        donated(m, donner, acceptor, lockid).wf(),
        donated(m, donner, acceptor, lockid).threads.len() == m.threads.len(),
        donated(m, donner, acceptor, lockid).holders == m.holders,
        donated(m, donner, acceptor, lockid).current == m.current,
        donated(m, donner, acceptor, lockid).ready == m.ready,
        forall|i: int|
            0 <= i < m.threads.len() ==> {
                let n = #[trigger] donated(m, donner, acceptor, lockid).threads[i];
                &&& n.priority >= m.threads[i].priority
                &&& n.waiting_lock == m.threads[i].waiting_lock
                &&& n.status == m.threads[i].status
                &&& i != acceptor ==> n.priority == m.threads[i].priority
            },
        donated(m, donner, acceptor, lockid).threads[acceptor as int].priority
            >= m.threads[donner as int].priority,
        donated(m, donner, acceptor, lockid).threads[acceptor as int].priority == if needs_donation(
            m,
            donner,
            acceptor,
        ) {
            m.threads[donner as int].priority
        } else {
            m.threads[acceptor as int].priority
        },
{
    if needs_donation(m, donner, acceptor) {
        let d = record(m, donner, acceptor, lockid);
        assert(thread_ok(m.threads[donner as int], donner as int, m.threads.len()));
        assert(thread_ok(m.threads[acceptor as int], acceptor as int, m.threads.len()));
        let m1 = m.with_priority(acceptor, d.donner_priority);
        let m2 = m1.with_donation(donner, d);
        let m3 = m2.with_donation(acceptor, DonationData { is_donner: false, ..d });
        assert forall|i: int| 0 <= i < m3.threads.len() implies thread_ok(
            #[trigger] m3.threads[i],
            i,
            m3.threads.len(),
        ) && m3.threads[i].status == m.threads[i].status by {
            assert(thread_ok(m.threads[i], i, m.threads.len()));
            let q = m3.threads[i].donationq;
            let q0 = m.threads[i].donationq;
            assert forall|k: int| 0 <= k < q.len() implies donation_ok(
                #[trigger] q[k],
                m3.threads.len(),
            ) by {
                if k < q0.len() {
                    assert(q[k] == q0[k]);
                }
            }
        }
        lemma_retouch_wf(m, m3);
    }
}

/// The chain from a thread depends only on who waits for which lock and who holds it.
pub proof fn lemma_chain_same(m: ManagerView, n: ManagerView, t: usize, fuel: nat)
    requires
        m.wf(),
        t < m.threads.len(),
        n.threads.len() == m.threads.len(),
        n.holders == m.holders,
        forall|i: int|
            0 <= i < m.threads.len() ==> (#[trigger] n.threads[i]).waiting_lock
                == m.threads[i].waiting_lock,
    ensures
        chain(n, t, fuel) == chain(m, t, fuel),
    decreases fuel,
{
    if fuel > 0 {
        assert(n.threads[t as int].waiting_lock == m.threads[t as int].waiting_lock);
        match next_link(m, t) {
            Some((h, lockid)) => {
                assert(m.holders[lockid - 1] == Some(h));
                lemma_chain_same(m, n, h, (fuel - 1) as nat);
            },
            None => {},
        }
    }
}

/// Donation reaches every holder along the chain: after the priority of a
/// thread has been passed along its chain, each holder on the chain has at
/// least that priority. Nothing else changes but donation records, and no
/// priority drops.
pub proof fn lemma_propagated(m: ManagerView, t: usize, fuel: nat)
    requires
        m.wf(),
        t < m.threads.len(),
    ensures
        propagated(m, t, fuel).wf(),
        propagated(m, t, fuel).threads.len() == m.threads.len(),
        propagated(m, t, fuel).holders == m.holders,
        propagated(m, t, fuel).current == m.current,
        propagated(m, t, fuel).ready == m.ready,
        propagated(m, t, fuel).sleepers == m.sleepers,
        forall|i: int|
            0 <= i < m.threads.len() ==> {
                let n = #[trigger] propagated(m, t, fuel).threads[i];
                &&& n.priority >= m.threads[i].priority
                &&& n.waiting_lock == m.threads[i].waiting_lock
                &&& n.status == m.threads[i].status
            },
        forall|k: int|
            0 <= k < chain(m, t, fuel).len() ==> {
                &&& (#[trigger] chain(m, t, fuel)[k]) < m.threads.len()
                &&& propagated(m, t, fuel).threads[chain(m, t, fuel)[k] as int].priority
                    >= m.threads[t as int].priority
            },
    decreases fuel,
{
    if fuel > 0 {
        match next_link(m, t) {
            Some((h, lockid)) => {
                assert(m.holders[lockid - 1] == Some(h));
                let m1 = donated(m, t, h, lockid);
                lemma_donated(m, t, h, lockid);
                lemma_propagated(m1, h, (fuel - 1) as nat);
                lemma_chain_same(m, m1, h, (fuel - 1) as nat);
                let rest = chain(m, h, (fuel - 1) as nat);
                let fin = propagated(m, t, fuel);
                assert forall|i: int| 0 <= i < m.threads.len() implies {
                    let n = #[trigger] fin.threads[i];
                    &&& n.priority >= m.threads[i].priority
                    &&& n.waiting_lock == m.threads[i].waiting_lock
                    &&& n.status == m.threads[i].status
                } by {
                    let mid = m1.threads[i];
                    assert(mid.priority >= m.threads[i].priority);
                }
                assert forall|k: int| 0 <= k < chain(m, t, fuel).len() implies {
                    &&& (#[trigger] chain(m, t, fuel)[k]) < m.threads.len()
                    &&& fin.threads[chain(m, t, fuel)[k] as int].priority
                        >= m.threads[t as int].priority
                } by {
                    if k == 0 {
                        assert(chain(m, t, fuel)[0] == h);
                        assert(fin.threads[h as int].priority >= m1.threads[h as int].priority);
                    } else {
                        assert(chain(m, t, fuel)[k] == rest[k - 1]);
                    }
                }
            },
            None => {},
        }
    }
}

/// Gives `acceptor` the priority of `donner` if that is higher, records the
/// donation with both threads, and then lets the scheduler decide who runs.
pub fn donation_wrapped(m: &mut Manager, donner: usize, acceptor: usize, lockid: u32)
    requires
        old(m).wf(),
        donner < old(m)@.threads.len(),
        acceptor < old(m)@.threads.len(),
    ensures
        final(m)@ == donated_and_scheduled(old(m)@, donner, acceptor, lockid),
        final(m).wf(),
    final(m)@.threads.len() == old(m)@.threads.len(),
    final(m)@.holders == old(m)@.holders,
{
    if donate(m, donner, acceptor, lockid) {
        schedule(m);
    }
}

/// The donation itself: raises `acceptor` and records the donation with both
/// threads when `donner` has the higher priority. Returns whether it did.
pub fn donate(m: &mut Manager, donner: usize, acceptor: usize, lockid: u32) -> (given: bool)
    requires
        old(m).wf(),
        donner < old(m)@.threads.len(),
        acceptor < old(m)@.threads.len(),
    ensures
        given == needs_donation(old(m)@, donner, acceptor),
        final(m)@ == donated(old(m)@, donner, acceptor, lockid),
        final(m).wf(),
    final(m)@.threads.len() == old(m)@.threads.len(),
    final(m)@.holders == old(m)@.holders,
{
    let current_priority: u32 = m.priority(donner);
    let holder_priority: u32 = m.priority(acceptor);
    if current_priority > holder_priority {
        proof {
            assert(thread_ok(m@.threads[donner as int], donner as int, m@.threads.len()));
            assert(thread_ok(m@.threads[acceptor as int], acceptor as int, m@.threads.len()));
        }
        m.set_thread_priority(acceptor, current_priority);
        let current_dd = DonationData {
            donner: donner,
            acceptor: acceptor,
            donner_priority: current_priority,
            prev_priority: holder_priority,
            is_donner: true,
            lockid: lockid,
        };
        m.add_donation(donner, current_dd);
        let acceptor_dd = DonationData {
            donner: donner,
            acceptor: acceptor,
            donner_priority: current_priority,
            prev_priority: holder_priority,
            is_donner: false,
            lockid: lockid,
        };
        m.add_donation(acceptor, acceptor_dd);
        true
    } else {
        false
    }
}

/// Passes the priority of `acceptor` on to the holder of the lock that
/// `acceptor` waits for, then from that holder to the next, to the end of the
/// chain of waiting threads.
///
/// The walk ends after as many steps as there are threads, so it also ends on
/// a chain that closes on itself.
pub fn find_and_donate(m: &mut Manager, acceptor: usize)
    requires
        old(m).wf(),
        acceptor < old(m)@.threads.len(),
    ensures
        final(m)@ == propagated(old(m)@, acceptor, old(m)@.threads.len()),
        final(m).wf(),
    final(m)@.threads.len() == old(m)@.threads.len(),
    final(m)@.holders == old(m)@.holders,
{
    let mut t = acceptor;
    let mut fuel = m.thread_count();
    let mut next = link(m, t);
    while fuel > 0 && next.is_some()
        invariant
            m.wf(),
            m@.threads.len() == old(m)@.threads.len(),
            m@.holders == old(m)@.holders,
            t < m@.threads.len(),
            next == next_link(m@, t),
            propagated(old(m)@, acceptor, old(m)@.threads.len()) == propagated(m@, t, fuel as nat),
        decreases fuel,
    {
        let (h, lockid) = next.unwrap();
        proof {
            lemma_donated(m@, t, h, lockid);
        }
        donate(m, t, h, lockid);
        t = h;
        fuel -= 1;
        next = link(m, t);
    }
}

/// The holder that thread `t` waits behind and the lock it waits for, if any.
pub fn link(m: &Manager, t: usize) -> (next: Option<(usize, u32)>)
    requires
        m.wf(),
        t < m@.threads.len(),
    ensures
        next == next_link(m@, t),
        next matches Some((h, _)) ==> h < m@.threads.len(),
{
    match m.waiting_lock(t) {
        Some(lockid) => match m.holder(lockid) {
            Some(h) => Some((h, lockid)),
            None => None,
        },
        None => None,
    }
}

/// The state after the donors named in `gone` have lost their records for lock `lockid`.
pub open spec fn stripped(m: ManagerView, gone: Seq<DonationData>, lockid: u32) -> ManagerView
    decreases gone.len(),
{
    if gone.len() == 0 {
        m
    } else {
        stripped(m, gone.drop_last(), lockid).without_donations(gone.last().donner, lockid)
    }
}

/// The baseline that the current thread keeps after it has released lock
/// `lockid`, for which `first` is its oldest donation record.
pub open spec fn baseline(stored: (u32, u32), lockid: u32, first: DonationData) -> (u32, u32) {
    if stored.0 > lockid {
        (lockid, first.prev_priority)
    } else {
        stored
    }
}

/// The state after the current thread has given back what it received
/// because of lock `lockid`.
///
/// The records for the lock leave the donations of the current thread and
/// of the threads that donated. If there were any, the priority of the
/// current thread becomes the highest of its baseline and the donor
/// priorities in the records that remain. A priority that the thread asked
/// for itself then replaces the result.
pub open spec fn relieved(m: ManagerView, lockid: u32) -> ManagerView {
    let cur = m.current;
    let gone = m.threads[cur as int].donationq.filter(for_lock(lockid));
    let restored = if gone.len() > 0 {
        let bare = stripped(m.without_donations(cur, lockid), gone, lockid);
        let stored = baseline(m.threads[cur as int].stored_prev, lockid, gone[0]);
        bare.with_stored_prev(cur, stored).with_priority(
            cur,
            highest_donation(bare.threads[cur as int].donationq, stored.1),
        )
    } else {
        m
    };
    match m.threads[cur as int].priority_setted {
        Some(p) => restored.with_priority(cur, p),
        None => restored,
    }
}

/// Donation on acquisition reaches the holder and, through it, the whole chain.
///
/// When a thread attempts to take a held lock, the holder ends up with at
/// least the priority of the thread. If the thread is not displaced at the
/// scheduling point, so does every holder on the chain that starts at the
/// holder of the lock, however long the chain is.
pub proof fn lemma_acquire_donates(lock: SleepView, m: ManagerView, h: usize)
    requires
        m.wf(),
        m.running(),
        lock.wf(m),
        m.holder(lock.lockid) == Some(h),
        h != m.current,
    ensures
        lock.prepared(m).threads[h as int].priority >= m.threads[m.current as int].priority,
        lock.prepared(m).current == m.current ==> forall|k: int|
            0 <= k < chain(m, h, m.threads.len()).len() ==> lock.prepared(m).threads[(
            #[trigger] chain(m, h, m.threads.len())[k]) as int].priority
                >= m.threads[m.current as int].priority,
{
    let cur = m.current;
    assert(m.holders[lock.lockid - 1] == Some(h));
    let g = donated(m, cur, h, lock.lockid);
    lemma_donated(m, cur, h, lock.lockid);
    let d = donated_and_scheduled(m, cur, h, lock.lockid);
    if needs_donation(m, cur, h) {
        lemma_scheduled_wf(g);
        lemma_schedule_strict_priority(g);
        if d.current == m.current {
            lemma_scheduled_stays(g);
        } else {
            assert(d.threads[h as int].priority == g.threads[h as int].priority);
        }
    }
    if d.current == m.current {
        assert(d.threads == g.threads);
        assert(d.holders == m.holders);
        lemma_propagated(d, h, d.threads.len());
        lemma_chain_same(m, d, h, m.threads.len());
    }
}

/// Stripping donation records touches nothing but donation lists, and a
/// list that holds no record for the lock stays as it is.
pub proof fn lemma_stripped_thread(m: ManagerView, gone: Seq<DonationData>, lockid: u32, t: usize)
    requires
        t < m.threads.len(),
        forall|k: int| 0 <= k < gone.len() ==> (#[trigger] gone[k]).donner < m.threads.len(),
    ensures
        stripped(m, gone, lockid).threads.len() == m.threads.len(),
        stripped(m, gone, lockid).threads[t as int] == (ThreadView {
            donationq: stripped(m, gone, lockid).threads[t as int].donationq,
            ..m.threads[t as int]
        }),
        m.threads[t as int].donationq.filter(for_lock(lockid)).len() == 0 ==> stripped(
            m,
            gone,
            lockid,
        ).threads[t as int].donationq == m.threads[t as int].donationq,
    decreases gone.len(),
{
    if gone.len() > 0 {
        let front = gone.drop_last();
        assert forall|k: int| 0 <= k < front.len() implies (#[trigger] front[k]).donner
            < m.threads.len() by {
            assert(front[k] == gone[k]);
        }
        lemma_stripped_thread(m, front, lockid, t);
        let mid = stripped(m, front, lockid);
        let d = gone[gone.len() - 1].donner;
        assert(d < m.threads.len());
        if d == t && m.threads[t as int].donationq.filter(for_lock(lockid)).len() == 0 {
            lemma_without_none(mid, t, lockid);
        }
    }
}

/// Release restores the baseline.
///
/// When every donation record of the current thread is for the lock it
/// releases, and no baseline is stored for a lock of lower id, the release
/// leaves the thread without records and with the priority it asked for
/// itself, if any, or else with the priority it had before the first
/// donation for the lock.
pub proof fn lemma_release_restores(m: ManagerView, lockid: u32)
    requires
        m.wf(),
        m.threads[m.current as int].donationq.len() > 0,
        forall|k: int|
            0 <= k < m.threads[m.current as int].donationq.len() ==> (
            #[trigger] m.threads[m.current as int].donationq[k]).lockid == lockid,
        m.threads[m.current as int].stored_prev.0 > lockid,
    ensures
        relieved(m, lockid).threads[m.current as int].donationq == Seq::<DonationData>::empty(),
        relieved(m, lockid).threads[m.current as int].priority
            == match m.threads[m.current as int].priority_setted {
            Some(p) => p,
            None => m.threads[m.current as int].donationq[0].prev_priority,
        },
{
    let cur = m.current;
    let q = m.threads[cur as int].donationq;
    let gone = q.filter(for_lock(lockid));
    lemma_filter_all(q, for_lock(lockid));
    lemma_filter_none(q, not_for_lock(lockid));
    let m1 = m.without_donations(cur, lockid);
    assert(m1.threads[cur as int].donationq == Seq::<DonationData>::empty());
    lemma_filtered_ok(m, cur, for_lock(lockid));
    lemma_filter_none(
        Seq::<DonationData>::empty(),
        for_lock(lockid),
    );
    lemma_stripped_thread(m1, gone, lockid, cur);
    let bare = stripped(m1, gone, lockid);
    assert(bare.threads[cur as int].donationq == Seq::<DonationData>::empty());
}

/// Mathematical value of a [`Sleep`] lock.
#[verifier::ext_equal]
pub struct SleepView {
    /// Id of the lock in the manager's lock table.
    pub lockid: u32,
    /// The semaphore that the lock is built on.
    pub inner: SemaphoreView,
}

impl SleepView {
    /// Consistency of the lock with kernel state `m`: the lock is known to
    /// `m`, its waiters are threads of `m`, and its semaphore stands at 0
    /// while the lock is held and at 1 while it is free.
    pub open spec fn wf(self, m: ManagerView) -> bool {
        &&& m.has_lock(self.lockid)
        &&& self.inner.fits(m)
        &&& self.inner.value == if m.holder(self.lockid) is Some {
            0usize
        } else {
            1usize
        }
    }

    /// The kernel state when the donation phase of an acquisition ends.
    ///
    /// With a holder, the current thread donates and a scheduling point
    /// follows. If the thread still has the processor, its priority is then
    /// passed along the chain that starts at the holder.
    pub open spec fn prepared(self, m: ManagerView) -> ManagerView {
        match m.holder(self.lockid) {
            Some(h) => {
                let d = donated_and_scheduled(m, m.current, h, self.lockid);
                if d.current != m.current {
                    d
                } else {
                    propagated(d, h, d.threads.len())
                }
            },
            None => m,
        }
    }

    /// The kernel state after an attempt to acquire the lock.
    pub open spec fn acquired_manager(self, m: ManagerView) -> ManagerView {
        let p = self.prepared(m);
        if p.current != m.current {
            p
        } else if self.inner.value == 0 {
            p.with_waiting(m.current, Some(self.lockid)).blocked()
        } else {
            p.with_waiting(m.current, None).with_holder(self.lockid, Some(m.current))
        }
    }

    /// The lock after an attempt to acquire it.
    pub open spec fn acquired(self, m: ManagerView) -> SleepView {
        let p = self.prepared(m);
        if p.current != m.current {
            self
        } else {
            SleepView { inner: self.inner.downed(p), ..self }
        }
    }

    /// The kernel state after the holder has released the lock and the
    /// semaphore has been raised, before the final scheduling point.
    pub open spec fn handed_over(self, m: ManagerView) -> ManagerView {
        let free = relieved(m, self.lockid).with_holder(self.lockid, None);
        self.inner.upped_manager(free)
    }

    /// The kernel state after a release.
    pub open spec fn released_manager(self, m: ManagerView) -> ManagerView {
        let u = self.handed_over(m);
        if u.current == m.current {
            u.scheduled()
        } else {
            u
        }
    }

    /// The lock after a release.
    pub open spec fn released(self, m: ManagerView) -> SleepView {
        SleepView {
            inner: self.inner.upped(relieved(m, self.lockid).with_holder(self.lockid, None)),
            ..self
        }
    }
}

/// Raising the semaphore and rescheduling touch neither the lock table nor the arena's size.
pub proof fn lemma_handed_over(lock: SleepView, m: ManagerView)
    requires
        m.wf(),
        lock.wf(m),
        lock.inner.can_up(relieved(m, lock.lockid).with_holder(lock.lockid, None)),
        relieved(m, lock.lockid).with_holder(lock.lockid, None).wf(),
    ensures
        lock.handed_over(m).holders == m.holders.update(lock.lockid - 1, None),
        lock.handed_over(m).threads.len() == relieved(m, lock.lockid).threads.len(),
        lock.released_manager(m).holders == m.holders.update(lock.lockid - 1, None),
        lock.released_manager(m).threads.len() == relieved(m, lock.lockid).threads.len(),
        relieved(m, lock.lockid).holders == m.holders,
{
    let free = relieved(m, lock.lockid).with_holder(lock.lockid, None);
    lemma_relieved_frame(m, lock.lockid);
    if lock.inner.waiters.len() > 0 {
        lemma_best(lock.inner.waiters, free.threads);
        let w = lock.inner.waiters[best(lock.inner.waiters, free.threads)];
        lemma_woken_wf(free, w);
        lemma_scheduled_wf(free.woken(w));
    }
    let u = lock.handed_over(m);
    lemma_scheduled_wf(u);
}

/// Stripping donation records changes neither the lock table nor the arena's size.
pub proof fn lemma_stripped_frame(m: ManagerView, gone: Seq<DonationData>, lockid: u32)
    requires
        forall|k: int| 0 <= k < gone.len() ==> (#[trigger] gone[k]).donner < m.threads.len(),
    ensures
        stripped(m, gone, lockid).holders == m.holders,
        stripped(m, gone, lockid).threads.len() == m.threads.len(),
    decreases gone.len(),
{
    if gone.len() > 0 {
        let front = gone.drop_last();
        assert forall|k: int| 0 <= k < front.len() implies (#[trigger] front[k]).donner
            < m.threads.len() by {
            assert(front[k] == gone[k]);
        }
        lemma_stripped_frame(m, front, lockid);
        assert(gone[gone.len() - 1].donner < m.threads.len());
    }
}

/// The records of a consistent thread that a filter lets pass name existing threads.
pub proof fn lemma_filtered_ok(m: ManagerView, t: usize, pred: spec_fn(DonationData) -> bool)
    requires
        m.wf(),
        t < m.threads.len(),
    ensures
        forall|k: int|
            0 <= k < m.threads[t as int].donationq.filter(pred).len() ==> donation_ok(
                #[trigger] m.threads[t as int].donationq.filter(pred)[k],
                m.threads.len(),
            ),
{
    let q = m.threads[t as int].donationq;
    let f = q.filter(pred);
    assert(thread_ok(m.threads[t as int], t as int, m.threads.len()));
    assert forall|k: int| 0 <= k < f.len() implies donation_ok(#[trigger] f[k], m.threads.len()) by {
        assert(f.contains(f[k]));
        q.lemma_filter_contains_rev(pred, f[k]);
        let k0 = choose|k0: int| 0 <= k0 < q.len() && q[k0] == f[k];
        assert(donation_ok(q[k0], m.threads.len()));
    }
}

/// Giving back donations changes neither the lock table nor the arena's size.
pub proof fn lemma_relieved_frame(m: ManagerView, lockid: u32)
    requires
        m.wf(),
    ensures
        relieved(m, lockid).holders == m.holders,
        relieved(m, lockid).threads.len() == m.threads.len(),
{
    let cur = m.current;
    let gone = m.threads[cur as int].donationq.filter(for_lock(lockid));
    lemma_filtered_ok(m, cur, for_lock(lockid));
    lemma_stripped_frame(m.without_donations(cur, lockid), gone, lockid);
}

/// Removing the records for a lock from donations that hold none for it changes nothing.
pub proof fn lemma_without_none(m: ManagerView, t: usize, lockid: u32)
    requires
        t < m.threads.len(),
        m.threads[t as int].donationq.filter(for_lock(lockid)).len() == 0,
    ensures
        m.without_donations(t, lockid) == m,
{
    let q = m.threads[t as int].donationq;
    assert forall|k: int| 0 <= k < q.len() implies not_for_lock(lockid)(#[trigger] q[k]) by {
        if q[k].lockid == lockid {
            q.lemma_filter_contains(for_lock(lockid), k);
        }
    }
    lemma_filter_all(q, not_for_lock(lockid));
    assert(m.without_donations(t, lockid).threads =~= m.threads);
}

/// Giving back donations changes no status.
pub proof fn lemma_relieved_status(m: ManagerView, lockid: u32, t: usize)
    requires
        m.wf(),
        t < m.threads.len(),
    ensures
        relieved(m, lockid).threads.len() == m.threads.len(),
        relieved(m, lockid).threads[t as int].status == m.threads[t as int].status,
{
    let cur = m.current;
    let gone = m.threads[cur as int].donationq.filter(for_lock(lockid));
    lemma_filtered_ok(m, cur, for_lock(lockid));
    lemma_stripped_thread(m.without_donations(cur, lockid), gone, lockid, t);
    lemma_stripped_thread(m.without_donations(cur, lockid), gone, lockid, cur);
}

/// Sleep lock. Uses a [`Semaphore`] under the hood.
pub struct Sleep {
    lockid: u32,
    inner: Semaphore,
}

impl View for Sleep {
    type V = SleepView;

    closed spec fn view(&self) -> SleepView {
        SleepView { lockid: self.lockid, inner: self.inner@ }
    }
}

impl Sleep {
    /// Creates a free lock and enters it in the lock table of `m`.
    pub fn new(m: &mut Manager) -> (lock: Self)
        requires
            old(m).wf(),
            old(m)@.holders.len() + 1 < u32::MAX,
        ensures
            final(m)@ == old(m)@.with_new_lock(),
            final(m).wf(),
            lock@ == (SleepView {
                lockid: (old(m)@.holders.len() + 1) as u32,
                inner: SemaphoreView { value: 1, waiters: Seq::empty() },
            }),
            lock@.wf(final(m)@),
    {
        let lockid = m.new_lock();
        Sleep { lockid: lockid, inner: Semaphore::new(1) }
    }

    /// Id of the lock.
    pub fn lockid(&self) -> (id: u32)
        ensures
            id == self@.lockid,
    {
        self.lockid
    }

    /// Number of threads blocked on the lock.
    pub fn waiting(&self) -> (n: usize)
        ensures
            n == self@.inner.waiters.len(),
    {
        self.inner.waiting()
    }

    /// Whether the current thread may release the lock: it is running, it
    /// holds the lock, and every waiter is blocked.
    pub fn can_release(&self, m: &Manager) -> (ok: bool)
        requires
            m.wf(),
            self@.wf(m@),
        ensures
            ok == (m@.running() && m@.holder(self@.lockid) == Some(m@.current)
                && self@.inner.all_blocked(m@)),
            ok ==> self@.inner.can_up(
                relieved(m@, self@.lockid).with_holder(self@.lockid, None),
            ),
    {
        let cur = current(m);
        let running = match m.status(cur) {
            Status::Running => true,
            _ => false,
        };
        let held = match m.holder(self.lockid) {
            Some(h) => h == cur,
            None => false,
        };
        let ok = running && held && self.inner.all_blocked(m);
        proof {
            if ok {
                let free = relieved(m@, self@.lockid).with_holder(self@.lockid, None);
                let w = self@.inner.waiters;
                lemma_relieved_frame(m@, self@.lockid);
                if w.len() > 0 {
                    lemma_best(w, free.threads);
                    let b = best(w, free.threads);
                    assert(w[b] < m@.threads.len());
                    lemma_relieved_status(m@, self@.lockid, w[b]);
                }
            }
        }
        ok
    }

    /// One attempt of the current thread to take the lock.
    ///
    /// The attempt succeeds exactly when the lock is free. Otherwise the
    /// thread donates its priority to the holder if that is lower, which is
    /// followed by a scheduling point, passes its priority along the chain
    /// of holders, and blocks on the semaphore. The result is `false` also
    /// when the thread was displaced at the scheduling point; either way it
    /// makes the attempt again once it runs again.
    pub fn acquire(&mut self, m: &mut Manager) -> (acquired: bool)
        requires
            old(m).wf(),
            old(m)@.running(),
            old(self)@.wf(old(m)@),
            old(m)@.holder(old(self)@.lockid) != Some(old(m)@.current),
        ensures
            acquired == (old(m)@.holder(old(self)@.lockid) is None),
            final(self)@ == old(self)@.acquired(old(m)@),
            final(m)@ == old(self)@.acquired_manager(old(m)@),
            final(m).wf(),
            final(self)@.wf(final(m)@),
            acquired ==> final(m)@.holder(final(self)@.lockid) == Some(old(m)@.current),
        final(m)@.threads.len() == old(m)@.threads.len(),
        final(m)@.holders.len() == old(m)@.holders.len(),
        forall|other: u32|
            other != old(self)@.lockid ==> final(m)@.holder(other) == old(m)@.holder(other),
        final(self)@.lockid == old(self)@.lockid,
    {
        let cur = current(m);
        let ghost m0 = m@;
        match m.holder(self.lockid) {
            Some(h) => {
                assert(m0.holders[self.lockid - 1] == Some(h));
                proof {
                    lemma_donated(m0, cur, h, self.lockid);
                    lemma_scheduled_wf(donated(m0, cur, h, self.lockid));
                }
                donation_wrapped(m, cur, h, self.lockid);
                if current(m) != cur {
                    assert(self@ =~= old(self)@.acquired(m0));
                    return false;
                }
                proof {
                    if needs_donation(m0, cur, h) {
                        lemma_scheduled_stays(donated(m0, cur, h, self.lockid));
                    }
                    lemma_propagated(m@, h, m@.threads.len());
                }
                find_and_donate(m, h);
            },
            None => {},
        }
        assert(m@ == old(self)@.prepared(m0));
        assert(m@.holders == m0.holders);
        if self.inner.value() == 0 {
            m.set_waiting_lock(cur, Some(self.lockid));
            proof {
                lemma_scheduled_wf(m@.with_status(m@.current, Status::Blocked));
            }
            self.inner.down(m);
            assert(self@ =~= old(self)@.acquired(m0));
            false
        } else {
            self.inner.down(m);
            m.set_waiting_lock(cur, None);
            m.set_holder(self.lockid, Some(cur));
            proof {
                let p = old(self)@.prepared(m0);
                assert(m@.threads =~= p.with_waiting(cur, None).with_holder(
                    self.lockid,
                    Some(cur),
                ).threads);
                assert(m@ =~= old(self)@.acquired_manager(m0));
                assert(self@ =~= old(self)@.acquired(m0));
            }
            true
        }
    }

    /// Releases the lock, which the current thread must hold.
    ///
    /// The thread gives back the donations it received because of this lock
    /// and its priority is restored. The lock becomes free and the
    /// semaphore is raised, which wakes the waiter of highest priority and
    /// hands it the processor at once if its priority is higher. If the
    /// releasing thread still has the processor, a scheduling point follows
    /// and the result is `true`. The result `false` says that the thread was
    /// displaced before that point; it calls `schedule` once it runs again.
    pub fn release(&mut self, m: &mut Manager) -> (finished: bool)
        requires
            old(m).wf(),
            old(m)@.running(),
            old(self)@.wf(old(m)@),
            old(m)@.holder(old(self)@.lockid) == Some(old(m)@.current),
            old(self)@.inner.can_up(
                relieved(old(m)@, old(self)@.lockid).with_holder(old(self)@.lockid, None),
            ),
        ensures
            final(self)@ == old(self)@.released(old(m)@),
            final(m)@ == old(self)@.released_manager(old(m)@),
            finished == (old(self)@.handed_over(old(m)@).current == old(m)@.current),
            final(m).wf(),
            final(self)@.wf(final(m)@),
            final(m)@.holder(final(self)@.lockid) is None,
        final(m)@.threads.len() == old(m)@.threads.len(),
        final(m)@.holders.len() == old(m)@.holders.len(),
        forall|other: u32|
            other != old(self)@.lockid ==> final(m)@.holder(other) == old(m)@.holder(other),
        final(self)@.lockid == old(self)@.lockid,
    {
        let cur = current(m);
        let ghost m0 = m@;
        let lockid = self.lockid;
        let setted = m.priority_setted(cur);
        let stored = m.stored_prev(cur);
        assert(thread_ok(m0.threads[cur as int], cur as int, m0.threads.len()));
        let gone = m.delete_donation(cur, lockid);
        let ghost m1 = m@;
        let n = gone.len();
        let mut i: usize = 0;
        assert(gone@.subrange(0, 0) =~= Seq::<DonationData>::empty());
        while i < n
            invariant
                m.wf(),
                n == gone@.len(),
                i <= n,
                m@ == stripped(m1, gone@.subrange(0, i as int), lockid),
                m@.threads.len() == m0.threads.len(),
                forall|k: int|
                    0 <= k < gone@.len() ==> donation_ok(#[trigger] gone@[k], m0.threads.len()),
            decreases n - i,
        {
            assert(gone@.subrange(0, i + 1).drop_last() =~= gone@.subrange(0, i as int));
            assert(donation_ok(gone@[i as int], m0.threads.len()));
            m.delete_donation(gone[i].donner, lockid);
            i += 1;
        }
        assert(gone@.subrange(0, n as int) =~= gone@);
        let ghost bare = m@;
        proof {
            if n == 0 {
                lemma_without_none(m0, cur, lockid);
            }
        }
        assert(bare == stripped(m0.without_donations(cur, lockid), gone@, lockid));
        assert(gone@ == m0.threads[cur as int].donationq.filter(for_lock(lockid)));
        if n > 0 {
            let first = gone[0];
            assert(donation_ok(gone@[0], m0.threads.len()));
            let kept = if stored.0 > lockid {
                (lockid, first.prev_priority)
            } else {
                stored
            };
            m.set_stored_prev(cur, kept);
            let final_priority = m.highest_donation(cur, kept.1);
            proof {
                let q = m@.threads[cur as int].donationq;
                lemma_highest_donation(q, kept.1);
                assert(thread_ok(m@.threads[cur as int], cur as int, m@.threads.len()));
                if final_priority != kept.1 {
                    let k = choose|k: int|
                        0 <= k < q.len() && highest_donation(q, kept.1) == q[k].donner_priority;
                    assert(donation_ok(q[k], m@.threads.len()));
                }
                assert(q == bare.threads[cur as int].donationq);
            }
            m.set_thread_priority(cur, final_priority);
            assert(m@ == bare.with_stored_prev(cur, kept).with_priority(
                cur,
                highest_donation(bare.threads[cur as int].donationq, kept.1),
            ));
            assert(kept == baseline(m0.threads[cur as int].stored_prev, lockid, gone@[0]));
        }
        let ghost restored = m@;
        match setted {
            Some(p) => {
                m.set_thread_priority(cur, p);
            },
            None => {},
        }
        proof {
            lemma_relieved_frame(m0, lockid);
        }
        assert(m@ == relieved(m0, lockid));
        m.set_holder(lockid, None);
        self.inner.up(m);
        proof {
            assert(self@ =~= old(self)@.released(m0));
            assert(m@ == old(self)@.handed_over(m0));
            lemma_handed_over(old(self)@, m0);
        }
        if current(m) == cur {
            schedule(m);
            true
        } else {
            false
        }
    }
}

} // verus!
