use threadcore::thread::{current, spawn, Manager, Status};
use threadcore::userproc::{arg_layout, exit, wait, UserProc};

#[test]
fn user_process_remembers_its_file() {
    let p = UserProc::new(42);
    assert_eq!(p.bin(), 42);
}

#[test]
fn wait_has_no_children_to_report() {
    assert_eq!(wait(0), Some(-1));
    assert_eq!(wait(7), Some(-1));
    assert_eq!(wait(-1), Some(-1));
}

#[test]
fn process_exit_ends_the_thread() {
    let mut m = Manager::new(String::from("main"), 31);
    let a = spawn(&mut m, String::from("a"), 0);
    exit(&mut m, 3);
    assert_eq!(m.status(0), Status::Dying);
    assert_eq!(current(&m), a);
}

#[test]
fn layout_without_arguments() {
    let l = arg_layout(0x1000, &Vec::new()).unwrap();
    assert_eq!(l.strings.len(), 0);
    assert_eq!(l.argv_base, 0x1000 - 8);
}

#[test]
fn layout_places_strings_downwards_and_aligns_table() {
    // "ls" and "-l": 3 bytes each with the terminating zero.
    let l = arg_layout(0x8000_1000, &vec![2, 2]).unwrap();
    assert_eq!(l.strings, vec![0x8000_0ffd, 0x8000_0ffa]);
    // 0x8000_0ffa rounded down to 0x8000_0ff8, less three pointers.
    assert_eq!(l.argv_base, 0x8000_0ff8 - 24);
    assert_eq!(l.argv_base % 8, 0);
}

#[test]
fn layout_with_empty_string() {
    let l = arg_layout(64, &vec![0]).unwrap();
    assert_eq!(l.strings, vec![63]);
    assert_eq!(l.argv_base, 56 - 16);
}

#[test]
fn layout_refuses_stack_without_room() {
    assert!(arg_layout(4, &vec![4]).is_none());
    assert!(arg_layout(16, &vec![3]).is_none());
    assert!(arg_layout(0, &Vec::new()).is_none());
    assert!(arg_layout(7, &Vec::new()).is_none());
    assert!(arg_layout(8, &Vec::new()).is_some());
    assert!(arg_layout(100, &vec![usize::MAX]).is_none());
}
