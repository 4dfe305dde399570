use kvs::bytes::{append_bytes, copy_range, find_byte, slice_range, starts_with_at};
use kvs::keydir::{KeyDir, LogPointer};
use kvs::names::{
    active_file, comes_before, compact_file, has_prefix, names_compact, names_sealed, names_stale,
    sealed_file,
};
use kvs::thread_pool::{replaces, worker_step, Received, WorkerStep};

#[test]
fn names_carry_the_time() {
    assert_eq!(sealed_file(1700000000000), "data-1700000000000.log");
    assert_eq!(compact_file(1700000000000), "compact-1700000000000.log");
    assert_eq!(sealed_file(0), "data-0.log");
    assert_eq!(sealed_file(9), "data-9.log");
    assert_eq!(sealed_file(10), "data-10.log");
    assert_eq!(compact_file(u128::MAX), "compact-340282366920938463463374607431768211455.log");
    assert_eq!(active_file(), "db.log");
}

#[test]
fn names_are_told_apart_by_their_beginning() {
    assert!(names_compact("compact-1.log"));
    assert!(names_compact("compact"));
    assert!(!names_compact("compac"));
    assert!(!names_compact("db.log"));
    assert!(names_sealed("data-1.log"));
    assert!(names_sealed("database"));
    assert!(!names_sealed("dat"));
    assert!(!names_sealed("db.log"));
    assert!(has_prefix("abc", ""));
    assert!(!has_prefix("", "a"));
    assert!(has_prefix("éa", "é"));
}

#[test]
fn stale_files_are_all_but_the_new_snapshot() {
    let keep = "compact-7.log".to_string();
    assert!(names_stale(&"compact-6.log".to_string(), &keep));
    assert!(names_stale(&"data-6.log".to_string(), &keep));
    assert!(!names_stale(&"compact-7.log".to_string(), &keep));
    assert!(!names_stale(&"db.log".to_string(), &keep));
    assert!(!names_stale(&"engine".to_string(), &keep));
}

#[test]
fn order_is_that_of_the_dictionary() {
    assert!(comes_before("a", "b"));
    assert!(!comes_before("b", "a"));
    assert!(!comes_before("a", "a"));
    assert!(comes_before("", "a"));
    assert!(!comes_before("a", ""));
    assert!(comes_before("data-1", "data-10"));
    assert!(comes_before("data-10", "data-9"));
    assert!(comes_before("data-1700000000000.log", "data-1700000000001.log"));
    assert!(comes_before("z", "é"));
}

#[test]
fn pointers_are_equal_by_path_and_offset() {
    let a = LogPointer::new("db.log".to_string(), 3);
    assert_eq!(a.path(), "db.log");
    assert_eq!(a.offset(), 3);
    assert!(a.same(&LogPointer::new("db.log".to_string(), 3)));
    assert!(!a.same(&LogPointer::new("db.log".to_string(), 4)));
    assert!(!a.same(&LogPointer::new("data-1.log".to_string(), 3)));
}

#[test]
fn directory_keeps_the_latest_pointer() {
    let mut dir = KeyDir::new();
    assert_eq!(dir.len(), 0);
    dir.insert("a".to_string(), LogPointer::new("db.log".to_string(), 0));
    dir.insert("b".to_string(), LogPointer::new("db.log".to_string(), 10));
    dir.insert("a".to_string(), LogPointer::new("db.log".to_string(), 20));
    assert_eq!(dir.len(), 2);
    assert_eq!(dir.get(&"a".to_string()).unwrap().offset(), 20);
    assert!(dir.contains_key(&"b".to_string()));
    assert!(!dir.contains_key(&"c".to_string()));
    assert_eq!(dir.entry(0).0, "a");
    assert_eq!(dir.entry(1).0, "b");
    assert!(dir.remove(&"a".to_string()));
    assert!(!dir.remove(&"a".to_string()));
    assert!(dir.get(&"a".to_string()).is_none());
    assert_eq!(dir.len(), 1);
    dir.clear();
    assert_eq!(dir.len(), 0);
}

#[test]
fn byte_helpers() {
    assert!(starts_with_at(b"hello", 1, b"ell"));
    assert!(!starts_with_at(b"hello", 1, b"elx"));
    assert!(!starts_with_at(b"hello", 4, b"oo"));
    assert!(starts_with_at(b"hello", 5, b""));
    assert!(!starts_with_at(b"hello", 6, b""));
    assert_eq!(find_byte(b"a\nb\n", 0, b'\n'), 1);
    assert_eq!(find_byte(b"a\nb\n", 2, b'\n'), 3);
    assert_eq!(find_byte(b"abc", 0, b'\n'), 3);
    assert_eq!(find_byte(b"abc", 3, b'\n'), 3);
    let mut out = vec![1u8];
    append_bytes(&mut out, &[2, 3]);
    assert_eq!(out, vec![1, 2, 3]);
    assert_eq!(copy_range(b"hello", 1, 3), b"el".to_vec());
    assert_eq!(slice_range(b"hello", 2, 5), b"llo");
}

#[test]
fn workers_run_jobs_and_leave_when_told() {
    assert_eq!(worker_step(Received::Job), WorkerStep::Run);
    assert_eq!(worker_step(Received::Shutdown), WorkerStep::Exit);
    assert_eq!(worker_step(Received::Closed), WorkerStep::Exit);
    assert!(replaces(true));
    assert!(!replaces(false));
}
