use threadcore::thread::{
    block, current, exit, get_priority, schedule, set_priority, sleep, spawn, tick, wake_up,
    Manager, Status,
};

#[test]
fn new_manager_runs_thread_zero() {
    let m = Manager::new(String::from("main"), 31);
    assert_eq!(current(&m), 0);
    assert_eq!(m.thread_count(), 1);
    assert_eq!(m.status(0), Status::Running);
    assert_eq!(get_priority(&m), 31);
    assert_eq!(m.sleeping(), 0);
    assert_eq!(m.lock_count(), 0);
}

#[test]
fn spawn_registers_a_ready_thread() {
    let mut m = Manager::new(String::from("main"), 31);
    let a = spawn(&mut m, String::from("a"), 10);
    assert_eq!(a, 1);
    assert_eq!(m.status(a), Status::Ready);
    assert_eq!(m.priority(a), 10);
    assert_eq!(current(&m), 0);
    // Lower priority than the running thread: no switch.
    assert_eq!(schedule(&mut m), None);
    assert_eq!(current(&m), 0);
}

#[test]
fn schedule_switches_to_higher_priority_and_requeues_displaced() {
    let mut m = Manager::new(String::from("main"), 31);
    let a = spawn(&mut m, String::from("a"), 40);
    assert_eq!(schedule(&mut m), Some(0));
    assert_eq!(current(&m), a);
    assert_eq!(m.status(a), Status::Running);
    assert_eq!(m.status(0), Status::Ready);
    // The displaced thread is queued again and runs once the other blocks.
    block(&mut m);
    assert_eq!(m.status(a), Status::Blocked);
    assert_eq!(current(&m), 0);
    assert_eq!(m.status(0), Status::Running);
}

#[test]
fn round_robin_among_equal_priorities() {
    let mut m = Manager::new(String::from("main"), 31);
    let a = spawn(&mut m, String::from("a"), 31);
    let b = spawn(&mut m, String::from("b"), 31);
    schedule(&mut m);
    assert_eq!(current(&m), a);
    schedule(&mut m);
    assert_eq!(current(&m), b);
    schedule(&mut m);
    assert_eq!(current(&m), 0);
    schedule(&mut m);
    assert_eq!(current(&m), a);
}

#[test]
fn block_and_wake_up() {
    let mut m = Manager::new(String::from("main"), 31);
    let a = spawn(&mut m, String::from("a"), 31);
    block(&mut m);
    assert_eq!(m.status(0), Status::Blocked);
    assert_eq!(current(&m), a);
    wake_up(&mut m, 0);
    assert_eq!(m.status(0), Status::Ready);
    // Waking does not switch by itself.
    assert_eq!(current(&m), a);
    schedule(&mut m);
    assert_eq!(current(&m), 0);
}

#[test]
fn block_with_nobody_ready_leaves_processor_idle() {
    let mut m = Manager::new(String::from("main"), 31);
    block(&mut m);
    assert_eq!(current(&m), 0);
    assert_eq!(m.status(0), Status::Blocked);
    assert_eq!(schedule(&mut m), None);
    wake_up(&mut m, 0);
    assert_eq!(schedule(&mut m), None);
    assert_eq!(current(&m), 0);
    assert_eq!(m.status(0), Status::Running);
}

#[test]
fn exited_thread_is_never_scheduled_again() {
    let mut m = Manager::new(String::from("main"), 31);
    let a = spawn(&mut m, String::from("a"), 31);
    exit(&mut m);
    assert_eq!(m.status(0), Status::Dying);
    assert_eq!(current(&m), a);
    for _ in 0..5 {
        schedule(&mut m);
        assert_eq!(current(&m), a);
        assert_eq!(m.status(0), Status::Dying);
    }
}

#[test]
fn set_priority_lowers_and_yields() {
    let mut m = Manager::new(String::from("main"), 31);
    let a = spawn(&mut m, String::from("a"), 20);
    set_priority(&mut m, 10);
    assert_eq!(m.priority(0), 10);
    assert_eq!(m.priority_setted(0), Some(10));
    assert_eq!(current(&m), a);
    assert_eq!(get_priority(&m), 20);
}

#[test]
fn set_priority_keeps_processor_when_still_highest() {
    let mut m = Manager::new(String::from("main"), 31);
    spawn(&mut m, String::from("a"), 20);
    set_priority(&mut m, 63);
    assert_eq!(current(&m), 0);
    assert_eq!(get_priority(&m), 63);
}

#[test]
fn sleep_zero_and_negative_do_nothing() {
    let mut m = Manager::new(String::from("main"), 31);
    spawn(&mut m, String::from("a"), 31);
    sleep(&mut m, 0, 100);
    assert_eq!(current(&m), 0);
    assert_eq!(m.status(0), Status::Running);
    assert_eq!(m.sleeping(), 0);
    sleep(&mut m, -5, 100);
    assert_eq!(current(&m), 0);
    assert_eq!(m.status(0), Status::Running);
    assert_eq!(m.sleeping(), 0);
}

#[test]
fn sleeper_wakes_at_its_tick_not_earlier() {
    let mut m = Manager::new(String::from("main"), 31);
    let a = spawn(&mut m, String::from("a"), 10);
    sleep(&mut m, 5, 100);
    assert_eq!(m.status(0), Status::Blocked);
    assert_eq!(m.sleeping(), 1);
    assert_eq!(m.next_wake(), Some(105));
    assert_eq!(current(&m), a);
    for now in 101..105 {
        tick(&mut m, now);
        assert_eq!(m.status(0), Status::Blocked);
        assert_eq!(m.sleeping(), 1);
        assert_eq!(current(&m), a);
    }
    tick(&mut m, 105);
    assert_eq!(m.sleeping(), 0);
    // The woken thread has the higher priority and takes the processor.
    assert_eq!(current(&m), 0);
    assert_eq!(m.status(0), Status::Running);
    assert_eq!(m.status(a), Status::Ready);
}

#[test]
fn tick_wakes_every_due_sleeper() {
    let mut m = Manager::new(String::from("main"), 5);
    let a = spawn(&mut m, String::from("a"), 5);
    let b = spawn(&mut m, String::from("b"), 5);
    let idle = spawn(&mut m, String::from("idle"), 0);
    sleep(&mut m, 30, 0);
    assert_eq!(current(&m), a);
    sleep(&mut m, 10, 0);
    assert_eq!(current(&m), b);
    sleep(&mut m, 20, 0);
    assert_eq!(current(&m), idle);
    assert_eq!(m.sleeping(), 3);
    assert_eq!(m.next_wake(), Some(10));
    tick(&mut m, 25);
    assert_eq!(m.sleeping(), 1);
    assert_eq!(m.next_wake(), Some(30));
    assert_eq!(m.status(0), Status::Blocked);
    // Woken in wake order: a (due at 10) runs before b (due at 20).
    assert_eq!(current(&m), a);
    assert_eq!(m.status(b), Status::Ready);
    tick(&mut m, 1000);
    assert_eq!(m.sleeping(), 0);
    assert_eq!(m.status(0), Status::Ready);
}

#[test]
fn can_tick_checks_due_sleepers() {
    let mut m = Manager::new(String::from("main"), 31);
    let a = spawn(&mut m, String::from("a"), 31);
    assert!(m.can_tick(0));
    sleep(&mut m, 5, 0);
    assert_eq!(current(&m), a);
    assert!(m.can_tick(4));
    assert!(m.can_tick(5));
    // The sleeper is woken early by somebody else: it is not due yet, so ticks before its
    // wake tick are fine, but it can no longer be woken when it is due.
    wake_up(&mut m, 0);
    assert!(m.can_tick(4));
    assert!(!m.can_tick(5));
}

#[test]
fn threads_keep_their_names() {
    let mut m = Manager::new(String::from("main"), 31);
    let a = spawn(&mut m, String::from("worker"), 10);
    assert_eq!(m.name(0), "main");
    assert_eq!(m.name(a), "worker");
}

#[test]
fn priorities_at_both_ends_of_the_range() {
    let mut m = Manager::new(String::from("main"), 0);
    let top = spawn(&mut m, String::from("top"), 63);
    let bottom = spawn(&mut m, String::from("bottom"), 0);
    schedule(&mut m);
    assert_eq!(current(&m), top);
    set_priority(&mut m, 0);
    // All three are equal now; the one that has waited longest runs.
    assert_eq!(current(&m), bottom);
    schedule(&mut m);
    assert_eq!(current(&m), 0);
    schedule(&mut m);
    assert_eq!(current(&m), top);
}

#[test]
fn sleep_up_to_the_last_tick() {
    let mut m = Manager::new(String::from("main"), 31);
    spawn(&mut m, String::from("a"), 31);
    sleep(&mut m, 1, i64::MAX - 1);
    assert_eq!(m.next_wake(), Some(i64::MAX));
    tick(&mut m, i64::MAX - 1);
    assert_eq!(m.sleeping(), 1);
    tick(&mut m, i64::MAX);
    assert_eq!(m.sleeping(), 0);
}

#[test]
fn at_most_one_thread_runs_through_a_long_history() {
    let mut m = Manager::new(String::from("main"), 31);
    let mut seed: u64 = 0x2545_f491_4f6c_dd1d;
    let mut now: i64 = 0;
    for step in 0..2000 {
        seed = seed.wrapping_mul(6364136223846793005).wrapping_add(1442695040888963407);
        let r = (seed >> 33) as usize;
        let cur = current(&m);
        let running = m.status(cur) == Status::Running;
        match r % 7 {
            0 if m.thread_count() < 24 => {
                spawn(&mut m, format!("t{}", step), (r / 7 % 64) as u32);
            }
            1 => {
                schedule(&mut m);
            }
            2 if running => block(&mut m),
            3 => {
                let t = r / 7 % m.thread_count();
                // Wake a blocked thread, but only while nobody sleeps, so that every
                // sleeper is still blocked when its tick comes.
                if m.status(t) == Status::Blocked && m.sleeping() == 0 {
                    wake_up(&mut m, t);
                }
            }
            4 => set_priority(&mut m, (r / 7 % 64) as u32),
            5 if running => sleep(&mut m, (r / 7 % 5) as i64, now),
            _ => {
                now += 1;
                if m.can_tick(now) {
                    tick(&mut m, now);
                }
            }
        }
        let mut running_threads = 0;
        for t in 0..m.thread_count() {
            if m.status(t) == Status::Running {
                running_threads += 1;
                assert_eq!(t, current(&m));
            }
            assert!(m.priority(t) <= 63);
        }
        assert!(running_threads <= 1);
    }
}
