use kvs::error::{CodecFault, EngineError};
use kvs::recovery::{recover, LogFile};
use kvs::store::KvStore;

fn file(name: &str, contents: &str) -> LogFile {
    LogFile { name: name.to_string(), contents: contents.as_bytes().to_vec() }
}

fn put(key: &str, value: &str) -> String {
    format!("{{\"Set\":{{\"key\":\"{}\",\"value\":\"{}\"}}}}\n", key, value)
}

fn remove(key: &str) -> String {
    format!("{{\"Remove\":{{\"key\":\"{}\"}}}}\n", key)
}

#[test]
fn open_on_empty_directory() {
    let store = KvStore::open("dir".to_string(), &Vec::new()).unwrap();
    assert_eq!(store.len(), 0);
    assert_eq!(store.dir_path(), "dir");
    assert!(!store.should_rotate(10240, 0));
    assert!(store.should_rotate(10240, 1));
}

#[test]
fn open_replays_snapshot_then_segments_then_active() {
    let files = vec![
        file("db.log", &(put("a", "active") + &remove("c"))),
        file("data-20.log", &put("b", "second")),
        file("compact-5.log", &(put("a", "old") + &put("b", "old") + &put("c", "old") + &put("d", "old"))),
        file("data-10.log", &(put("b", "first") + &put("e", "first"))),
        file("engine", "kvs"),
    ];
    let store = KvStore::open("dir".to_string(), &files).unwrap();
    let a = store.locate(&"a".to_string()).unwrap();
    assert_eq!((a.path().as_str(), a.offset()), ("db.log", 0));
    let b = store.locate(&"b".to_string()).unwrap();
    assert_eq!((b.path().as_str(), b.offset()), ("data-20.log", 0));
    assert!(store.locate(&"c".to_string()).is_none());
    let d = store.locate(&"d".to_string()).unwrap();
    assert_eq!((d.path().as_str(), d.offset()), ("compact-5.log", 3 * put("a", "old").len()));
    let e = store.locate(&"e".to_string()).unwrap();
    assert_eq!((e.path().as_str(), e.offset()), ("data-10.log", put("b", "first").len()));
    assert_eq!(store.len(), 4);
}

#[test]
fn open_takes_the_greatest_snapshot_only() {
    let files = vec![
        file("compact-100.log", &put("new", "1")),
        file("compact-099.log", &put("old", "1")),
    ];
    let store = KvStore::open("dir".to_string(), &files).unwrap();
    assert!(store.locate(&"new".to_string()).is_some());
    assert!(store.locate(&"old".to_string()).is_none());
}

#[test]
fn nominal_snapshot_sorts_after_stamped_ones() {
    let files = vec![
        file("compact-100.log", &put("stamped", "1")),
        file("compact.log", &put("nominal", "1")),
    ];
    let store = KvStore::open("dir".to_string(), &files).unwrap();
    assert!(store.locate(&"nominal".to_string()).is_some());
    assert!(store.locate(&"stamped".to_string()).is_none());
}

#[test]
fn open_uses_nominal_snapshot_when_alone() {
    let files = vec![file("compact.log", &put("nominal", "1"))];
    let store = KvStore::open("dir".to_string(), &files).unwrap();
    assert!(store.locate(&"nominal".to_string()).is_some());
}

#[test]
fn open_fails_on_malformed_line() {
    let files = vec![file("db.log", &(put("a", "1") + "{\"Set\":{\"key\":"))];
    match KvStore::open("dir".to_string(), &files) {
        Err(EngineError::Serde(CodecFault::Malformed)) => {}
        Err(other) => panic!("unexpected: {:?}", other),
        Ok(_) => panic!("opened"),
    }
}

#[test]
fn recover_keeps_what_came_before_the_fault() {
    let files = vec![
        file("data-1.log", &put("a", "1")),
        file("data-2.log", &(put("b", "2") + "garbage\n" + &put("c", "3"))),
        file("db.log", &put("d", "4")),
    ];
    let (dir, outcome) = recover(&files);
    assert!(matches!(outcome, Err(EngineError::Serde(CodecFault::Malformed))));
    assert!(dir.contains_key(&"a".to_string()));
    assert!(dir.contains_key(&"b".to_string()));
    assert!(!dir.contains_key(&"c".to_string()));
    assert!(!dir.contains_key(&"d".to_string()));
    assert_eq!(dir.len(), 2);
}

#[test]
fn of_two_files_by_one_name_the_later_counts() {
    let files = vec![file("db.log", &put("a", "1")), file("db.log", &put("b", "2"))];
    let (dir, outcome) = recover(&files);
    assert!(outcome.is_ok());
    assert!(!dir.contains_key(&"a".to_string()));
    assert!(dir.contains_key(&"b".to_string()));
}
