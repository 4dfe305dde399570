use std::collections::BTreeMap;

use kvs::error::{CodecFault, EngineError};
use kvs::names::{compact_file, names_compact, names_sealed, names_stale};
use kvs::recovery::LogFile;
use kvs::store::{segment_name, total_size, KvStore};

const ACTIVE: &str = "db.log";

/// A directory held in memory, and an engine driven over it the way a
/// file-backed driver does: every write, rename and delete that the engine
/// asks for is carried out on the map.
struct Driver {
    store: KvStore,
    files: BTreeMap<String, Vec<u8>>,
    clock: u128,
    forced_total: Option<u64>,
}

impl Driver {
    fn open(mut files: BTreeMap<String, Vec<u8>>) -> Result<Driver, EngineError> {
        files.entry(ACTIVE.to_string()).or_default();
        let listing: Vec<LogFile> = files
            .iter()
            .map(|(name, contents)| LogFile { name: name.clone(), contents: contents.clone() })
            .collect();
        let store = KvStore::open("dir".to_string(), &listing)?;
        Ok(Driver { store, files, clock: 1_700_000_000_000, forced_total: None })
    }

    fn empty() -> Driver {
        Driver::open(BTreeMap::new()).unwrap()
    }

    fn reopen(self) -> Driver {
        Driver::open(self.files).unwrap()
    }

    fn now(&mut self) -> u128 {
        self.clock += 1;
        self.clock
    }

    fn total(&self) -> u64 {
        let sizes: Vec<u64> = self.files.values().map(|f| f.len() as u64).collect();
        total_size(&sizes)
    }

    fn set(&mut self, key: &str, value: &str) -> Result<(), EngineError> {
        let key = key.to_string();
        let value = value.to_string();
        let len = self.files[ACTIVE].len();
        let write = self.store.prepare_set(&key, &value, len)?;
        self.files.get_mut(ACTIVE).unwrap().extend_from_slice(&write.record);
        self.store.commit_set(key, write.offset);
        if write.rotate {
            self.rotate()?;
        }
        let total = self.forced_total.unwrap_or_else(|| self.total());
        if self.store.should_compact(total) {
            self.compact()?;
        }
        Ok(())
    }

    fn rotate(&mut self) -> Result<(), EngineError> {
        let names: Vec<String> = self.files.keys().cloned().collect();
        let millis = self.now();
        if let Some(name) = segment_name(millis, &names) {
            let contents = self.files.insert(ACTIVE.to_string(), Vec::new()).unwrap();
            self.files.insert(name.clone(), contents.clone());
            self.store.rotate(&name, &contents)?;
        }
        Ok(())
    }

    fn compact(&mut self) -> Result<(), EngineError> {
        let millis = self.now();
        let name = compact_file(millis);
        let mut pairs = Vec::new();
        for i in 0..self.store.len() {
            let (key, pointer) = self.store.entry(i);
            let file = &self.files[pointer.path()];
            let value = KvStore::read_value(&file[pointer.offset()..])?;
            pairs.push((key.clone(), value));
        }
        let text = KvStore::snapshot(&pairs)?;
        self.files.insert(name.clone(), text.clone());
        let stale: Vec<String> =
            self.files.keys().filter(|n| names_stale(n, &name)).cloned().collect();
        for n in stale {
            self.files.remove(&n);
        }
        self.files.insert(ACTIVE.to_string(), Vec::new());
        self.store.adopt_snapshot(&name, &text)
    }

    fn get(&self, key: &str) -> Result<Option<String>, EngineError> {
        match self.store.locate(&key.to_string()) {
            None => Ok(None),
            Some(pointer) => {
                let file = self
                    .files
                    .get(pointer.path())
                    .ok_or_else(|| EngineError::Io("no such file".to_string()))?;
                KvStore::read_value(&file[pointer.offset()..]).map(Some)
            }
        }
    }

    fn remove(&mut self, key: &str) -> Result<(), EngineError> {
        let key = key.to_string();
        let record = self.store.prepare_remove(&key)?;
        self.files.get_mut(ACTIVE).unwrap().extend_from_slice(&record);
        self.store.commit_remove(&key);
        Ok(())
    }

    fn count(&self, test: fn(&str) -> bool) -> usize {
        self.files.keys().filter(|n| test(n)).count()
    }
}

fn random_text(state: &mut u64, len: usize) -> String {
    let mut out = String::new();
    for _ in 0..len {
        *state = state.wrapping_mul(6364136223846793005).wrapping_add(1442695040888963407);
        out.push((b'a' + ((*state >> 33) % 26) as u8) as char);
    }
    out
}

#[test]
fn basic_set_get_overwrite_remove() {
    let mut d = Driver::empty();
    assert!(d.set("a", "1").is_ok());
    assert_eq!(d.get("a").unwrap(), Some("1".to_string()));
    assert!(d.set("a", "2").is_ok());
    assert_eq!(d.get("a").unwrap(), Some("2".to_string()));
    assert!(d.remove("a").is_ok());
    assert_eq!(d.get("a").unwrap(), None);
    match d.remove("a") {
        Err(EngineError::NotFound(key)) => assert_eq!(key, "a"),
        other => panic!("unexpected: {:?}", other),
    }
}

#[test]
fn get_of_unknown_key_is_none() {
    let d = Driver::empty();
    assert_eq!(d.get("nothing").unwrap(), None);
}

#[test]
fn remove_of_unknown_key_writes_nothing() {
    let mut d = Driver::empty();
    assert!(matches!(d.remove("k"), Err(EngineError::NotFound(_))));
    assert!(d.files[ACTIVE].is_empty());
}

#[test]
fn pointer_is_length_before_append() {
    let mut d = Driver::empty();
    d.set("a", "1").unwrap();
    let first = d.files[ACTIVE].len();
    assert_eq!(first, "{\"Set\":{\"key\":\"a\",\"value\":\"1\"}}\n".len());
    d.set("b", "2").unwrap();
    let a = d.store.locate(&"a".to_string()).unwrap();
    assert_eq!(a.path(), "db.log");
    assert_eq!(a.offset(), 0);
    let b = d.store.locate(&"b".to_string()).unwrap();
    assert_eq!(b.path(), "db.log");
    assert_eq!(b.offset(), first);
}

#[test]
fn persistence_across_reopen() {
    let mut d = Driver::empty();
    d.set("k", "v").unwrap();
    let d = d.reopen();
    assert_eq!(d.get("k").unwrap(), Some("v".to_string()));
}

#[test]
fn reopen_answers_as_before() {
    let mut d = Driver::empty();
    let mut seed = 7u64;
    let mut keys = Vec::new();
    for i in 0..600 {
        let key = format!("key{}", i % 97);
        let value = random_text(&mut seed, 24);
        d.set(&key, &value).unwrap();
        if i % 5 == 0 {
            d.remove(&key).unwrap();
        }
        keys.push(key);
    }
    assert!(d.count(|n| names_sealed(n)) >= 1);
    let before: Vec<Option<String>> = keys.iter().map(|k| d.get(k).unwrap()).collect();
    let d = d.reopen();
    let after: Vec<Option<String>> = keys.iter().map(|k| d.get(k).unwrap()).collect();
    assert_eq!(before, after);
}

#[test]
fn rotation_keeps_every_key_readable() {
    let mut d = Driver::empty();
    d.forced_total = Some(0);
    let mut seed = 1u64;
    let mut pairs = Vec::new();
    for _ in 0..1024 {
        let key = random_text(&mut seed, 16);
        let value = random_text(&mut seed, 16);
        d.set(&key, &value).unwrap();
        pairs.push((key, value));
    }
    assert!(d.count(|n| names_sealed(n)) >= 1);
    let mut last = BTreeMap::new();
    for (k, v) in &pairs {
        last.insert(k.clone(), v.clone());
    }
    for (k, v) in &last {
        assert_eq!(d.get(k).unwrap().as_ref(), Some(v));
    }
}

#[test]
fn compaction_bounds_the_directory() {
    let mut d = Driver::empty();
    let mut seed = 3u64;
    let mut last = String::new();
    let mut peak = 0u64;
    for _ in 0..10_000 {
        last = random_text(&mut seed, 16);
        d.set("x", &last).unwrap();
        peak = peak.max(d.total());
    }
    assert!(peak <= 2 * 51200);
    assert_eq!(d.count(|n| names_compact(n)), 1);
    assert_eq!(d.get("x").unwrap(), Some(last));
}

#[test]
fn compaction_changes_no_answer() {
    let mut d = Driver::empty();
    d.forced_total = Some(0);
    for i in 0..50 {
        d.set(&format!("k{}", i), &format!("v{}", i)).unwrap();
    }
    d.remove("k7").unwrap();
    d.set("k3", "again").unwrap();
    let keys: Vec<String> = (0..50).map(|i| format!("k{}", i)).collect();
    let before: Vec<Option<String>> = keys.iter().map(|k| d.get(k).unwrap()).collect();
    d.compact().unwrap();
    assert_eq!(d.count(|n| names_compact(n)), 1);
    assert_eq!(d.count(|n| names_sealed(n)), 0);
    assert!(d.files[ACTIVE].is_empty());
    let after: Vec<Option<String>> = keys.iter().map(|k| d.get(k).unwrap()).collect();
    assert_eq!(before, after);
    d.set("k7", "back").unwrap();
    d.remove("k8").unwrap();
    assert_eq!(d.get("k7").unwrap(), Some("back".to_string()));
    assert_eq!(d.get("k8").unwrap(), None);
    assert_eq!(d.get("k3").unwrap(), Some("again".to_string()));
}

#[test]
fn snapshot_lists_one_put_per_pair() {
    let pairs = vec![
        ("a".to_string(), "1".to_string()),
        ("b".to_string(), "2".to_string()),
    ];
    let text = KvStore::snapshot(&pairs).unwrap();
    assert_eq!(
        text,
        b"{\"Set\":{\"key\":\"a\",\"value\":\"1\"}}\n{\"Set\":{\"key\":\"b\",\"value\":\"2\"}}\n"
            .to_vec()
    );
    assert_eq!(KvStore::snapshot(&Vec::new()).unwrap(), Vec::<u8>::new());
}

#[test]
fn thresholds_are_strict() {
    let store = KvStore::new("dir".to_string());
    assert!(!store.should_rotate(10240, 0));
    assert!(!store.should_rotate(10000, 240));
    assert!(store.should_rotate(10000, 241));
    assert!(store.should_rotate(usize::MAX, usize::MAX));
    assert!(!store.should_compact(51200));
    assert!(store.should_compact(51201));
    let small = KvStore::with_thresholds("dir".to_string(), 10, 20);
    assert!(small.should_rotate(5, 6));
    assert!(!small.should_rotate(5, 5));
    assert!(small.should_compact(21));
    assert_eq!(small.dir_path(), "dir");
}

#[test]
fn prepare_set_says_what_to_append() {
    let store = KvStore::with_thresholds("dir".to_string(), 40, 100);
    let write = store.prepare_set(&"a".to_string(), &"1".to_string(), 7).unwrap();
    assert_eq!(write.record, b"{\"Set\":{\"key\":\"a\",\"value\":\"1\"}}\n".to_vec());
    assert_eq!(write.offset, 7);
    assert!(!write.rotate);
    let write = store.prepare_set(&"a".to_string(), &"1".to_string(), 8).unwrap();
    assert!(!write.rotate);
    let write = store.prepare_set(&"a".to_string(), &"1".to_string(), 9).unwrap();
    assert!(write.rotate);
}

#[test]
fn read_value_takes_the_first_line() {
    let bytes = b"{\"Set\":{\"key\":\"a\",\"value\":\"1\"}}\n{\"Remove\":{\"key\":\"a\"}}\n";
    assert_eq!(KvStore::read_value(bytes).unwrap(), "1");
    assert_eq!(KvStore::read_value(&bytes[..32]).unwrap(), "1");
    assert_eq!(KvStore::read_value(&bytes[..31]).unwrap(), "1");
    match KvStore::read_value(&bytes[32..]) {
        Err(EngineError::Serde(CodecFault::NotPut)) => {}
        other => panic!("unexpected: {:?}", other),
    }
    match KvStore::read_value(&bytes[1..]) {
        Err(EngineError::Serde(CodecFault::Malformed)) => {}
        other => panic!("unexpected: {:?}", other),
    }
    match KvStore::read_value(b"") {
        Err(EngineError::Serde(CodecFault::Malformed)) => {}
        other => panic!("unexpected: {:?}", other),
    }
}

#[test]
fn scan_applies_entries_with_their_offsets() {
    let mut store = KvStore::new("dir".to_string());
    let file = b"{\"Set\":{\"key\":\"a\",\"value\":\"1\"}}\n{\"Set\":{\"key\":\"b\",\"value\":\"2\"}}\n{\"Remove\":{\"key\":\"a\"}}\n{\"Set\":{\"key\":\"b\",\"value\":\"3\"}}";
    store.scan_file(&"data-1.log".to_string(), file).unwrap();
    assert_eq!(store.len(), 1);
    assert!(store.locate(&"a".to_string()).is_none());
    let b = store.locate(&"b".to_string()).unwrap();
    assert_eq!(b.path(), "data-1.log");
    assert_eq!(b.offset(), 32 + 32 + 23);
}

#[test]
fn scan_stops_at_a_malformed_line() {
    let mut store = KvStore::new("dir".to_string());
    let file = b"{\"Set\":{\"key\":\"a\",\"value\":\"1\"}}\nnot a record\n{\"Set\":{\"key\":\"b\",\"value\":\"2\"}}\n";
    match store.scan_file(&"db.log".to_string(), file) {
        Err(EngineError::Serde(CodecFault::Malformed)) => {}
        other => panic!("unexpected: {:?}", other),
    }
    assert!(store.locate(&"a".to_string()).is_some());
    assert!(store.locate(&"b".to_string()).is_none());
}

#[test]
fn scan_of_empty_file_changes_nothing() {
    let mut store = KvStore::new("dir".to_string());
    store.scan_file(&"db.log".to_string(), b"").unwrap();
    assert_eq!(store.len(), 0);
}

#[test]
fn segment_name_waits_for_a_later_clock() {
    let names = vec![
        "db.log".to_string(),
        "data-1700000000005.log".to_string(),
        "compact-1700000000009.log".to_string(),
        "engine".to_string(),
    ];
    assert_eq!(segment_name(1700000000006, &names), Some("data-1700000000006.log".to_string()));
    assert_eq!(segment_name(1700000000005, &names), None);
    assert_eq!(segment_name(1700000000004, &names), None);
    assert_eq!(segment_name(16, &names), None);
    assert_eq!(segment_name(999, &names), Some("data-999.log".to_string()));
    assert_eq!(segment_name(0, &Vec::new()), Some("data-0.log".to_string()));
}

#[test]
fn total_size_adds_and_saturates() {
    assert_eq!(total_size(&vec![]), 0);
    assert_eq!(total_size(&vec![1, 2, 3]), 6);
    assert_eq!(total_size(&vec![u64::MAX, 1, 0]), u64::MAX);
    assert_eq!(total_size(&vec![u64::MAX - 1, 1]), u64::MAX);
}

#[test]
fn sets_of_disjoint_keys_are_all_readable() {
    let orders: Vec<Vec<usize>> = vec![vec![0, 1, 2, 3], vec![3, 2, 1, 0], vec![2, 0, 3, 1]];
    for order in orders {
        let mut d = Driver::empty();
        for i in &order {
            d.set(&format!("k{}", i), &format!("v{}", i)).unwrap();
        }
        for i in 0..4 {
            assert_eq!(d.get(&format!("k{}", i)).unwrap(), Some(format!("v{}", i)));
        }
    }
}

#[test]
fn sets_of_one_key_leave_the_last_value() {
    let orders: Vec<Vec<usize>> = vec![vec![0, 1, 2], vec![2, 1, 0], vec![1, 2, 0]];
    for order in orders {
        let mut d = Driver::empty();
        for i in &order {
            d.set("k", &format!("v{}", i)).unwrap();
        }
        assert_eq!(d.get("k").unwrap(), Some(format!("v{}", order[2])));
    }
}
