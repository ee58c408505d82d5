use threadcore::sync::sleep::{donate, donation_wrapped, find_and_donate, link, Sleep};
use threadcore::thread::{
    block, current, get_priority, schedule, set_priority, sleep, spawn, tick, Manager, Status,
};

#[test]
fn donation_three_threads_priority_order() {
    let mut m = Manager::new(String::from("low"), 1);
    let mut lock = Sleep::new(&mut m);
    assert!(lock.acquire(&mut m));
    assert_eq!(m.holder(lock.lockid()), Some(0));

    // The thread of priority 5 arrives and tries to take the lock.
    let mid = spawn(&mut m, String::from("mid"), 5);
    assert_eq!(schedule(&mut m), Some(0));
    assert_eq!(current(&m), mid);
    assert!(!lock.acquire(&mut m));
    assert_eq!(m.priority(0), 5);
    // The donation hands the processor back to the holder.
    assert_eq!(current(&m), 0);
    assert_eq!(m.status(mid), Status::Ready);

    // The thread of priority 10 arrives and tries as well.
    let high = spawn(&mut m, String::from("high"), 10);
    assert_eq!(schedule(&mut m), Some(0));
    assert_eq!(current(&m), high);
    assert!(!lock.acquire(&mut m));
    assert_eq!(m.priority(0), 10);
    assert_eq!(current(&m), 0);

    // The holder releases: its priority returns to 1 and the lock goes to
    // the thread of priority 10, not to the one that arrived first.
    lock.release(&mut m);
    assert_eq!(m.priority(0), 1);
    assert_eq!(current(&m), high);
    assert!(lock.acquire(&mut m));
    assert_eq!(m.holder(lock.lockid()), Some(high));
    assert_eq!(m.status(mid), Status::Ready);
}

#[test]
fn free_lock_is_taken_without_blocking() {
    let mut m = Manager::new(String::from("main"), 31);
    let mut lock = Sleep::new(&mut m);
    assert_eq!(lock.lockid(), 1);
    assert_eq!(m.holder(1), None);
    assert!(lock.acquire(&mut m));
    assert_eq!(m.holder(1), Some(0));
    assert_eq!(m.waiting_lock(0), None);
    assert!(lock.can_release(&m));
    assert!(lock.release(&mut m));
    assert_eq!(m.holder(1), None);
    assert_eq!(current(&m), 0);
}

#[test]
fn lock_ids_count_from_one() {
    let mut m = Manager::new(String::from("main"), 31);
    let a = Sleep::new(&mut m);
    let b = Sleep::new(&mut m);
    assert_eq!(a.lockid(), 1);
    assert_eq!(b.lockid(), 2);
    assert_eq!(m.lock_count(), 2);
    assert_eq!(m.holder(0), None);
    assert_eq!(m.holder(3), None);
}

#[test]
fn release_by_non_holder_is_refused() {
    let mut m = Manager::new(String::from("main"), 31);
    let mut lock = Sleep::new(&mut m);
    // Nobody holds the lock.
    assert!(!lock.can_release(&m));
    assert!(lock.acquire(&mut m));
    let other = spawn(&mut m, String::from("other"), 31);
    schedule(&mut m);
    assert_eq!(current(&m), other);
    // The lock is held, but not by the thread that runs.
    assert!(!lock.can_release(&m));
    assert_eq!(m.holder(lock.lockid()), Some(0));
}

#[test]
fn no_donation_to_holder_of_equal_or_higher_priority() {
    let mut m = Manager::new(String::from("main"), 31);
    let mut lock = Sleep::new(&mut m);
    assert!(lock.acquire(&mut m));
    let a = spawn(&mut m, String::from("a"), 31);
    schedule(&mut m);
    assert_eq!(current(&m), a);
    assert!(!lock.acquire(&mut m));
    assert_eq!(m.priority(0), 31);
    assert_eq!(m.donation_count(0), 0);
    assert_eq!(m.donation_count(a), 0);
    assert_eq!(m.status(a), Status::Blocked);
    assert_eq!(m.waiting_lock(a), Some(lock.lockid()));
    assert_eq!(lock.waiting(), 1);
    assert_eq!(current(&m), 0);
    // The release wakes the waiter; equal priority, so the final scheduling point yields.
    assert!(lock.release(&mut m));
    assert_eq!(current(&m), a);
    assert!(lock.acquire(&mut m));
    assert_eq!(m.waiting_lock(a), None);
}

#[test]
fn donation_is_recorded_with_both_threads() {
    let mut m = Manager::new(String::from("low"), 3);
    let mut lock = Sleep::new(&mut m);
    assert!(lock.acquire(&mut m));
    let high = spawn(&mut m, String::from("high"), 40);
    schedule(&mut m);
    assert!(!lock.acquire(&mut m));
    assert_eq!(m.donation_count(0), 1);
    assert_eq!(m.donation_count(high), 1);
    let kept_by_acceptor = m.donation(0, 0);
    let kept_by_donor = m.donation(high, 0);
    assert_eq!(kept_by_acceptor.donner, high);
    assert_eq!(kept_by_acceptor.acceptor, 0);
    assert_eq!(kept_by_acceptor.donner_priority, 40);
    assert_eq!(kept_by_acceptor.prev_priority, 3);
    assert_eq!(kept_by_acceptor.lockid, lock.lockid());
    assert!(!kept_by_acceptor.is_donner);
    assert!(kept_by_donor.is_donner);
    assert_eq!(kept_by_donor.donner_priority, 40);
    lock.release(&mut m);
    assert_eq!(m.donation_count(0), 0);
    assert_eq!(m.donation_count(high), 0);
    assert_eq!(m.priority(0), 3);
    assert_eq!(m.stored_prev(0), (lock.lockid(), 3));
}

#[test]
fn donation_travels_along_a_chain_and_is_taken_back() {
    // t0 (10) holds l1. t1 (20) holds l2 and waits for l1. t2 (30) wants l2.
    let mut m = Manager::new(String::from("t0"), 10);
    let idle = spawn(&mut m, String::from("idle"), 0);
    let mut l1 = Sleep::new(&mut m);
    let mut l2 = Sleep::new(&mut m);
    assert!(l1.acquire(&mut m));

    let t1 = spawn(&mut m, String::from("t1"), 20);
    schedule(&mut m);
    assert_eq!(current(&m), t1);
    assert!(l2.acquire(&mut m));
    // t1 donates to t0 and is displaced by it.
    assert!(!l1.acquire(&mut m));
    assert_eq!(m.priority(0), 20);
    assert_eq!(current(&m), 0);
    // t0 sleeps, so t1 runs again and now blocks on l1.
    sleep(&mut m, 100, 0);
    assert_eq!(current(&m), t1);
    assert!(!l1.acquire(&mut m));
    assert_eq!(m.status(t1), Status::Blocked);
    assert_eq!(m.waiting_lock(t1), Some(l1.lockid()));
    assert_eq!(current(&m), idle);

    let t2 = spawn(&mut m, String::from("t2"), 30);
    schedule(&mut m);
    assert_eq!(current(&m), t2);
    assert!(!l2.acquire(&mut m));
    // The donation reached t1 and, through l1, t0.
    assert_eq!(m.priority(t1), 30);
    assert_eq!(m.priority(0), 30);
    assert_eq!(m.status(t2), Status::Blocked);
    assert_eq!(current(&m), idle);

    // t0 wakes, runs with the donated priority and releases l1.
    tick(&mut m, 100);
    assert_eq!(current(&m), 0);
    assert_eq!(get_priority(&m), 30);
    assert!(l1.can_release(&m));
    l1.release(&mut m);
    assert_eq!(m.priority(0), 10);
    assert_eq!(m.donation_count(0), 0);
    // t1 was woken with priority 30 and took the processor.
    assert_eq!(current(&m), t1);
    assert!(l1.acquire(&mut m));
    assert!(l1.can_release(&m));
    l1.release(&mut m);
    assert_eq!(m.priority(t1), 30);
    assert!(l2.can_release(&m));
    l2.release(&mut m);
    assert_eq!(m.priority(t1), 20);
    assert_eq!(m.donation_count(t1), 0);
    assert_eq!(m.donation_count(t2), 0);
    assert_eq!(current(&m), t2);
    assert!(l2.acquire(&mut m));
    assert_eq!(m.priority(t2), 30);
    assert_eq!(m.holder(l2.lockid()), Some(t2));
}

#[test]
fn release_keeps_donations_for_other_locks() {
    // The holder has two locks; a thread of priority 20 wants the first, one of 30 the second.
    let mut m = Manager::new(String::from("holder"), 10);
    let mut l1 = Sleep::new(&mut m);
    let mut l2 = Sleep::new(&mut m);
    assert!(l1.acquire(&mut m));
    assert!(l2.acquire(&mut m));
    let a = spawn(&mut m, String::from("a"), 20);
    schedule(&mut m);
    assert!(!l1.acquire(&mut m));
    assert_eq!(current(&m), 0);
    let b = spawn(&mut m, String::from("b"), 30);
    schedule(&mut m);
    assert_eq!(current(&m), b);
    assert!(!l2.acquire(&mut m));
    assert_eq!(current(&m), 0);
    assert_eq!(get_priority(&m), 30);
    // Releasing the second lock leaves the donation for the first in force.
    l2.release(&mut m);
    assert_eq!(m.priority(0), 20);
    assert_eq!(m.donation_count(0), 1);
    assert_eq!(current(&m), b);
    assert!(l2.acquire(&mut m));
    block(&mut m);
    // a was displaced when it donated; it runs again, tries once more and blocks.
    assert_eq!(current(&m), a);
    assert!(!l1.acquire(&mut m));
    assert_eq!(m.status(a), Status::Blocked);
    assert_eq!(current(&m), 0);
    assert!(!l1.release(&mut m));
    assert_eq!(m.priority(0), 10);
    assert_eq!(m.donation_count(0), 0);
    assert_eq!(current(&m), a);
}

#[test]
fn explicit_priority_wins_over_restored_one() {
    let mut m = Manager::new(String::from("holder"), 10);
    let mut lock = Sleep::new(&mut m);
    set_priority(&mut m, 15);
    assert!(lock.acquire(&mut m));
    let a = spawn(&mut m, String::from("a"), 40);
    schedule(&mut m);
    assert_eq!(current(&m), a);
    assert!(!lock.acquire(&mut m));
    assert_eq!(current(&m), 0);
    assert_eq!(get_priority(&m), 40);
    set_priority(&mut m, 12);
    // Equal to nobody: the donor (40) is ready and takes over.
    assert_eq!(current(&m), a);
    assert!(!lock.acquire(&mut m));
    assert_eq!(m.priority(0), 40);
    assert_eq!(current(&m), 0);
    lock.release(&mut m);
    assert_eq!(m.priority(0), 12);
}

#[test]
fn waiters_are_served_by_priority() {
    let mut m = Manager::new(String::from("holder"), 50);
    let mut lock = Sleep::new(&mut m);
    assert!(lock.acquire(&mut m));
    let a = spawn(&mut m, String::from("a"), 10);
    let b = spawn(&mut m, String::from("b"), 30);
    let c = spawn(&mut m, String::from("c"), 20);
    // The holder sleeps, holding the lock; the others queue up behind it.
    sleep(&mut m, 10, 0);
    assert_eq!(current(&m), b);
    assert!(!lock.acquire(&mut m));
    assert_eq!(current(&m), c);
    assert!(!lock.acquire(&mut m));
    assert_eq!(current(&m), a);
    assert!(!lock.acquire(&mut m));
    assert_eq!(lock.waiting(), 3);
    tick(&mut m, 10);
    assert_eq!(current(&m), 0);
    assert!(lock.release(&mut m));
    assert_eq!(m.status(b), Status::Ready);
    assert_eq!(m.status(a), Status::Blocked);
    assert_eq!(m.status(c), Status::Blocked);
    assert_eq!(lock.waiting(), 2);
}

#[test]
fn donation_wrapped_raises_and_yields() {
    let mut m = Manager::new(String::from("donor"), 30);
    let a = spawn(&mut m, String::from("a"), 10);
    donation_wrapped(&mut m, 0, a, 7);
    assert_eq!(m.priority(a), 30);
    assert_eq!(m.donation_count(0), 1);
    assert_eq!(m.donation_count(a), 1);
    assert_eq!(m.donation(a, 0).lockid, 7);
    assert_eq!(m.donation(a, 0).prev_priority, 10);
    // The acceptor now equals the donor and is handed the processor.
    assert_eq!(current(&m), a);
    assert_eq!(m.status(0), Status::Ready);
}

#[test]
fn donation_wrapped_does_nothing_for_lower_or_equal_donor() {
    let mut m = Manager::new(String::from("donor"), 10);
    let a = spawn(&mut m, String::from("a"), 10);
    let b = spawn(&mut m, String::from("b"), 20);
    donation_wrapped(&mut m, 0, a, 1);
    donation_wrapped(&mut m, 0, b, 1);
    assert_eq!(m.priority(a), 10);
    assert_eq!(m.priority(b), 20);
    assert_eq!(m.donation_count(0), 0);
    assert_eq!(m.donation_count(a), 0);
    assert_eq!(m.donation_count(b), 0);
    // No donation, no scheduling point.
    assert_eq!(current(&m), 0);
}

#[test]
fn donate_reports_whether_it_gave() {
    let mut m = Manager::new(String::from("donor"), 30);
    let a = spawn(&mut m, String::from("a"), 10);
    assert!(donate(&mut m, 0, a, 1));
    assert_eq!(m.priority(a), 30);
    assert!(!donate(&mut m, 0, a, 1));
    assert_eq!(m.donation_count(a), 1);
    assert_eq!(current(&m), 0);
}

#[test]
fn find_and_donate_follows_waiting_links() {
    // t1 waits for l1 held by t2, which waits for l2 held by t3.
    let mut m = Manager::new(String::from("t0"), 50);
    let t1 = spawn(&mut m, String::from("t1"), 40);
    let t2 = spawn(&mut m, String::from("t2"), 20);
    let t3 = spawn(&mut m, String::from("t3"), 10);
    let l1 = m.new_lock();
    let l2 = m.new_lock();
    m.set_holder(l1, Some(t2));
    m.set_holder(l2, Some(t3));
    m.set_waiting_lock(t1, Some(l1));
    m.set_waiting_lock(t2, Some(l2));
    assert_eq!(link(&m, t1), Some((t2, l1)));
    assert_eq!(link(&m, t2), Some((t3, l2)));
    assert_eq!(link(&m, t3), None);
    find_and_donate(&mut m, t1);
    assert_eq!(m.priority(t2), 40);
    assert_eq!(m.priority(t3), 40);
    assert_eq!(m.donation(t3, 0).donner, t2);
    assert_eq!(m.donation(t3, 0).donner_priority, 40);
    assert_eq!(m.donation(t3, 0).prev_priority, 10);
    assert_eq!(m.donation(t3, 0).lockid, l2);
    // The walk itself does not reschedule.
    assert_eq!(current(&m), 0);
}

#[test]
fn find_and_donate_ends_on_a_cycle() {
    let mut m = Manager::new(String::from("t0"), 50);
    let t1 = spawn(&mut m, String::from("t1"), 40);
    let t2 = spawn(&mut m, String::from("t2"), 20);
    let l1 = m.new_lock();
    let l2 = m.new_lock();
    m.set_holder(l1, Some(t2));
    m.set_holder(l2, Some(t1));
    m.set_waiting_lock(t1, Some(l1));
    m.set_waiting_lock(t2, Some(l2));
    find_and_donate(&mut m, t1);
    assert_eq!(m.priority(t1), 40);
    assert_eq!(m.priority(t2), 40);
}

#[test]
fn baseline_is_that_of_the_lowest_lock_id() {
    // The holder has two locks. The donation for the second lock comes first, the one for
    // the first lock second, and the first lock is released first.
    let mut m = Manager::new(String::from("holder"), 10);
    let mut l1 = Sleep::new(&mut m);
    let mut l2 = Sleep::new(&mut m);
    assert!(l1.acquire(&mut m));
    assert!(l2.acquire(&mut m));
    let a = spawn(&mut m, String::from("a"), 20);
    schedule(&mut m);
    assert_eq!(current(&m), a);
    assert!(!l2.acquire(&mut m));
    assert_eq!(current(&m), 0);
    let b = spawn(&mut m, String::from("b"), 30);
    schedule(&mut m);
    assert_eq!(current(&m), b);
    assert!(!l1.acquire(&mut m));
    assert_eq!(current(&m), 0);
    assert_eq!(get_priority(&m), 30);
    l1.release(&mut m);
    // The baseline stored for lock 1 is the priority before its donation, which is 20.
    assert_eq!(m.stored_prev(0), (1, 20));
    assert_eq!(m.priority(0), 20);
    assert_eq!(current(&m), b);
    assert!(l1.acquire(&mut m));
    block(&mut m);
    assert_eq!(current(&m), a);
    assert!(!l2.acquire(&mut m));
    assert_eq!(current(&m), 0);
    l2.release(&mut m);
    // Lock 2 has the higher id, so the stored baseline stays and the priority with it.
    assert_eq!(m.stored_prev(0), (1, 20));
    assert_eq!(m.priority(0), 20);
}
