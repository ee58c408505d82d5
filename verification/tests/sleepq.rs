use threadcore::sleepq::{SleepData, SleepQueue};

#[test]
fn pops_in_wake_order() {
    let mut q = SleepQueue::new();
    assert_eq!(q.len(), 0);
    q.push(SleepData { ticks: 30, thread: 1 });
    q.push(SleepData { ticks: 10, thread: 2 });
    q.push(SleepData { ticks: 20, thread: 3 });
    assert_eq!(q.len(), 3);
    assert_eq!(q.peek_time(), 10);
    let d = q.pop();
    assert_eq!((d.ticks, d.thread), (10, 2));
    assert_eq!(q.peek_time(), 20);
    let d = q.pop();
    assert_eq!((d.ticks, d.thread), (20, 3));
    let d = q.pop();
    assert_eq!((d.ticks, d.thread), (30, 1));
    assert_eq!(q.len(), 0);
}

#[test]
fn equal_ticks_leave_in_arrival_order() {
    let mut q = SleepQueue::new();
    q.push(SleepData { ticks: 7, thread: 4 });
    q.push(SleepData { ticks: 7, thread: 5 });
    q.push(SleepData { ticks: 3, thread: 6 });
    q.push(SleepData { ticks: 7, thread: 7 });
    assert_eq!(q.pop().thread, 6);
    assert_eq!(q.pop().thread, 4);
    assert_eq!(q.pop().thread, 5);
    assert_eq!(q.pop().thread, 7);
}

#[test]
fn negative_ticks_order_before_positive() {
    let mut q = SleepQueue::new();
    q.push(SleepData { ticks: 0, thread: 1 });
    q.push(SleepData { ticks: -4, thread: 2 });
    q.push(SleepData { ticks: i64::MAX, thread: 3 });
    q.push(SleepData { ticks: i64::MIN, thread: 4 });
    assert_eq!(q.peek_time(), i64::MIN);
    assert_eq!(q.pop().thread, 4);
    assert_eq!(q.pop().thread, 2);
    assert_eq!(q.pop().thread, 1);
    assert_eq!(q.pop().thread, 3);
}

#[test]
fn entries_compare_by_tick_in_reverse() {
    let early = SleepData { ticks: 5, thread: 1 };
    let late = SleepData { ticks: 9, thread: 2 };
    let also_early = SleepData { ticks: 5, thread: 3 };
    assert!(early > late);
    assert!(late < early);
    assert!(early == also_early);
    assert!(early != late);
    assert!(early >= also_early);
    assert!(early <= also_early);
    assert_eq!(early.partial_cmp(&late), Some(std::cmp::Ordering::Greater));
    assert_eq!(late.partial_cmp(&early), Some(std::cmp::Ordering::Less));
    assert_eq!(early.partial_cmp(&also_early), Some(std::cmp::Ordering::Equal));
}

#[test]
fn get_reads_entries_in_wake_order() {
    let mut q = SleepQueue::new();
    q.push(SleepData { ticks: 8, thread: 1 });
    q.push(SleepData { ticks: 2, thread: 2 });
    assert_eq!(q.get(0).thread, 2);
    assert_eq!(q.get(1).thread, 1);
}
