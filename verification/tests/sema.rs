use threadcore::sync::sema::Semaphore;
use threadcore::thread::{block, current, schedule, spawn, wake_up, Manager, Status};

#[test]
fn down_takes_one_when_positive() {
    let mut m = Manager::new(String::from("main"), 31);
    let mut s = Semaphore::new(2);
    assert_eq!(s.value(), 2);
    assert!(s.down(&mut m));
    assert_eq!(s.value(), 1);
    assert!(s.down(&mut m));
    assert_eq!(s.value(), 0);
    assert_eq!(s.waiting(), 0);
    assert_eq!(m.status(0), Status::Running);
}

#[test]
fn down_blocks_on_zero() {
    let mut m = Manager::new(String::from("main"), 31);
    let a = spawn(&mut m, String::from("a"), 31);
    let mut s = Semaphore::new(0);
    assert!(!s.down(&mut m));
    assert_eq!(s.value(), 0);
    assert_eq!(s.waiting(), 1);
    assert_eq!(m.status(0), Status::Blocked);
    assert_eq!(current(&m), a);
}

#[test]
fn down_then_up_restores_value() {
    let mut m = Manager::new(String::from("main"), 31);
    let mut s = Semaphore::new(3);
    assert!(s.down(&mut m));
    s.up(&mut m);
    assert_eq!(s.value(), 3);
}

#[test]
fn up_without_waiters_only_counts() {
    let mut m = Manager::new(String::from("main"), 31);
    spawn(&mut m, String::from("a"), 63);
    let mut s = Semaphore::new(0);
    assert!(s.can_up(&m));
    s.up(&mut m);
    assert_eq!(s.value(), 1);
    assert_eq!(current(&m), 0);
}

#[test]
fn blocked_down_up_retry_restores_zero() {
    let mut m = Manager::new(String::from("main"), 31);
    let a = spawn(&mut m, String::from("a"), 31);
    let mut s = Semaphore::new(0);
    assert!(!s.down(&mut m));
    assert_eq!(current(&m), a);
    s.up(&mut m);
    assert_eq!(s.value(), 1);
    assert_eq!(s.waiting(), 0);
    assert_eq!(m.status(0), Status::Ready);
    // Equal priority: no switch inside up.
    assert_eq!(current(&m), a);
    schedule(&mut m);
    assert_eq!(current(&m), 0);
    assert!(s.down(&mut m));
    assert_eq!(s.value(), 0);
}

/// Three threads of priorities 10, 30, 20 block in that order on one semaphore.
fn three_waiters() -> (Manager, Semaphore, usize, usize, usize) {
    let mut m = Manager::new(String::from("main"), 0);
    let mut s = Semaphore::new(0);
    let a = spawn(&mut m, String::from("a"), 10);
    schedule(&mut m);
    assert_eq!(current(&m), a);
    assert!(!s.down(&mut m));
    let b = spawn(&mut m, String::from("b"), 30);
    schedule(&mut m);
    assert_eq!(current(&m), b);
    assert!(!s.down(&mut m));
    let c = spawn(&mut m, String::from("c"), 20);
    schedule(&mut m);
    assert_eq!(current(&m), c);
    assert!(!s.down(&mut m));
    assert_eq!(current(&m), 0);
    (m, s, a, b, c)
}

#[test]
fn get_maxpriority_finds_highest_waiter() {
    let (m, s, _a, _b, _c) = three_waiters();
    assert_eq!(s.waiting(), 3);
    assert_eq!(s.get_maxpriority(&m), (1, 30));
}

#[test]
fn get_maxpriority_on_empty_list() {
    let m = Manager::new(String::from("main"), 31);
    let s = Semaphore::new(1);
    assert_eq!(s.get_maxpriority(&m), (0, 0));
}

#[test]
fn up_wakes_highest_priority_and_switches() {
    let (mut m, mut s, a, b, c) = three_waiters();
    assert!(s.can_up(&m));
    s.up(&mut m);
    assert_eq!(s.value(), 1);
    assert_eq!(s.waiting(), 2);
    // The woken thread outranks the caller, so it runs at once.
    assert_eq!(current(&m), b);
    assert_eq!(m.status(b), Status::Running);
    assert_eq!(m.status(0), Status::Ready);
    assert_eq!(m.status(a), Status::Blocked);
    assert_eq!(m.status(c), Status::Blocked);
    assert!(s.down(&mut m));
    assert_eq!(s.get_maxpriority(&m), (1, 20));
}

#[test]
fn up_does_not_switch_for_equal_or_lower_priority() {
    let (mut m, mut s, _a, b, _c) = three_waiters();
    let d = spawn(&mut m, String::from("d"), 30);
    schedule(&mut m);
    assert_eq!(current(&m), d);
    s.up(&mut m);
    assert_eq!(m.status(b), Status::Ready);
    assert_eq!(current(&m), d);
}

#[test]
fn ties_go_to_earliest_waiter() {
    let mut m = Manager::new(String::from("main"), 0);
    let mut s = Semaphore::new(0);
    let a = spawn(&mut m, String::from("a"), 20);
    schedule(&mut m);
    assert!(!s.down(&mut m));
    let b = spawn(&mut m, String::from("b"), 20);
    schedule(&mut m);
    assert!(!s.down(&mut m));
    assert_eq!(current(&m), 0);
    assert_eq!(s.get_maxpriority(&m), (0, 20));
    s.up(&mut m);
    assert_eq!(current(&m), a);
    assert_eq!(m.status(b), Status::Blocked);
}

#[test]
fn can_up_refuses_waiter_that_is_not_blocked() {
    let mut m = Manager::new(String::from("main"), 31);
    let a = spawn(&mut m, String::from("a"), 31);
    let mut s = Semaphore::new(0);
    assert!(!s.down(&mut m));
    assert_eq!(current(&m), a);
    assert!(s.all_blocked(&m));
    // Somebody else wakes the waiter behind the semaphore's back.
    wake_up(&mut m, 0);
    assert!(!s.all_blocked(&m));
    assert!(!s.can_up(&m));
}

#[test]
fn can_up_refuses_second_up_while_waiters_remain() {
    let (mut m, mut s, _a, _b, _c) = three_waiters();
    let d = spawn(&mut m, String::from("d"), 30);
    schedule(&mut m);
    assert_eq!(current(&m), d);
    s.up(&mut m);
    assert_eq!(s.value(), 1);
    assert_eq!(s.waiting(), 2);
    assert!(!s.can_up(&m));
    block(&mut m);
}
