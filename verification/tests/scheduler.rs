use threadcore::thread::scheduler::priority::PriorityScheduler;
use threadcore::thread::{Status, Thread};

fn thread(id: usize, priority: u32, status: Status) -> Thread {
    Thread {
        id,
        name: format!("t{}", id),
        status,
        priority,
        priority_setted: None,
        donationq: Vec::new(),
        stored_prev: (u32::MAX, priority),
        waiting_lock: None,
    }
}

#[test]
fn empty_scheduler_hands_out_nothing() {
    let threads = vec![thread(0, 31, Status::Running)];
    let mut s = PriorityScheduler::new();
    assert_eq!(s.schedule(&threads, 0), None);
}

#[test]
fn highest_priority_first() {
    let threads = vec![
        thread(0, 0, Status::Blocked),
        thread(1, 10, Status::Ready),
        thread(2, 63, Status::Ready),
        thread(3, 30, Status::Ready),
    ];
    let mut s = PriorityScheduler::new();
    s.register(1, 10);
    s.register(2, 63);
    s.register(3, 30);
    assert_eq!(s.schedule(&threads, 0), Some(2));
    assert_eq!(s.schedule(&threads, 0), Some(3));
    assert_eq!(s.schedule(&threads, 0), Some(1));
    assert_eq!(s.schedule(&threads, 0), None);
}

#[test]
fn fifo_among_equal_priorities() {
    let threads = vec![
        thread(0, 0, Status::Blocked),
        thread(1, 20, Status::Ready),
        thread(2, 20, Status::Ready),
        thread(3, 20, Status::Ready),
    ];
    let mut s = PriorityScheduler::new();
    s.register(2, 20);
    s.register(1, 20);
    s.register(3, 20);
    assert_eq!(s.schedule(&threads, 0), Some(2));
    assert_eq!(s.schedule(&threads, 0), Some(1));
    assert_eq!(s.schedule(&threads, 0), Some(3));
}

#[test]
fn running_thread_is_not_preempted_by_lower_priority() {
    let threads = vec![thread(0, 40, Status::Running), thread(1, 39, Status::Ready)];
    let mut s = PriorityScheduler::new();
    s.register(1, 39);
    assert_eq!(s.schedule(&threads, 0), None);
    // The candidate stays queued: once the current thread no longer runs it is handed out.
    let threads = vec![thread(0, 40, Status::Blocked), thread(1, 39, Status::Ready)];
    assert_eq!(s.schedule(&threads, 0), Some(1));
}

#[test]
fn running_thread_yields_to_equal_priority() {
    let threads = vec![thread(0, 40, Status::Running), thread(1, 40, Status::Ready)];
    let mut s = PriorityScheduler::new();
    s.register(1, 40);
    assert_eq!(s.schedule(&threads, 0), Some(1));
}

#[test]
fn stale_entries_are_rebucketed_before_choosing() {
    let mut threads = vec![
        thread(0, 0, Status::Blocked),
        thread(1, 10, Status::Ready),
        thread(2, 20, Status::Ready),
        thread(3, 20, Status::Ready),
    ];
    let mut s = PriorityScheduler::new();
    s.register(1, 10);
    s.register(2, 20);
    s.register(3, 20);
    // Thread 1 is raised while it waits in queue 10.
    threads[1].priority = 20;
    s.update_priority(&threads);
    // A thread that arrives from another queue goes to the back, so it runs first.
    assert_eq!(s.schedule(&threads, 0), Some(1));
    assert_eq!(s.schedule(&threads, 0), Some(2));
    assert_eq!(s.schedule(&threads, 0), Some(3));
}

#[test]
fn lowered_thread_moves_down() {
    let mut threads = vec![
        thread(0, 0, Status::Blocked),
        thread(1, 50, Status::Ready),
        thread(2, 20, Status::Ready),
    ];
    let mut s = PriorityScheduler::new();
    s.register(1, 50);
    s.register(2, 20);
    threads[1].priority = 5;
    assert_eq!(s.schedule(&threads, 0), Some(2));
    assert_eq!(s.schedule(&threads, 0), Some(1));
}

#[test]
fn default_scheduler_is_empty() {
    let threads = vec![thread(0, 31, Status::Blocked)];
    let mut s = PriorityScheduler::default();
    assert_eq!(s.schedule(&threads, 0), None);
}
