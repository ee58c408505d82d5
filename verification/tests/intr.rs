use threadcore::sync::intr::Intr;

#[test]
fn intr_records_and_returns_previous_state() {
    let mut lock = Intr::new();
    assert!(!lock.is_held());
    lock.acquire(true);
    assert!(lock.is_held());
    assert!(lock.release());
    assert!(!lock.is_held());
    lock.acquire(false);
    assert!(!lock.release());
    assert!(!lock.is_held());
}

#[test]
fn intr_default_is_free() {
    let lock = Intr::default();
    assert!(!lock.is_held());
}
