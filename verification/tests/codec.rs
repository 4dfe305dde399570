use kvs::entry::Entry;
use kvs::error::{CodecFault, EngineError};
use kvs::frame::{frame, scan_literal, unframe, RawEntry};

#[test]
fn put_line_is_tagged_json() {
    let entry = Entry::Put { key: "a".to_string(), value: "1".to_string() };
    let line = entry.encode().unwrap();
    assert_eq!(line, b"{\"Set\":{\"key\":\"a\",\"value\":\"1\"}}".to_vec());
}

#[test]
fn remove_line_is_tagged_json() {
    let entry = Entry::Remove { key: "a".to_string() };
    let line = entry.encode().unwrap();
    assert_eq!(line, b"{\"Remove\":{\"key\":\"a\"}}".to_vec());
}

#[test]
fn record_ends_with_line_feed() {
    let entry = Entry::Remove { key: "k".to_string() };
    let record = entry.record().unwrap();
    assert_eq!(record, b"{\"Remove\":{\"key\":\"k\"}}\n".to_vec());
}

#[test]
fn decode_reads_put() {
    match Entry::decode(b"{\"Set\":{\"key\":\"foo\",\"value\":\"bar\"}}") {
        Ok(Entry::Put { key, value }) => {
            assert_eq!(key, "foo");
            assert_eq!(value, "bar");
        }
        other => panic!("unexpected: {:?}", other),
    }
}

#[test]
fn decode_reads_remove() {
    match Entry::decode(b"{\"Remove\":{\"key\":\"foo\"}}") {
        Ok(Entry::Remove { key }) => assert_eq!(key, "foo"),
        other => panic!("unexpected: {:?}", other),
    }
}

#[test]
fn escapes_round_trip() {
    let key = "line\nfeed \"quoted\" back\\slash \u{1F600} tab\t".to_string();
    let value = "\u{0}\u{1f}é".to_string();
    let entry = Entry::Put { key: key.clone(), value: value.clone() };
    let line = entry.encode().unwrap();
    assert!(!line.contains(&b'\n'));
    match Entry::decode(&line) {
        Ok(Entry::Put { key: k, value: v }) => {
            assert_eq!(k, key);
            assert_eq!(v, value);
        }
        other => panic!("unexpected: {:?}", other),
    }
}

#[test]
fn decode_rejects_garbage() {
    for bad in [
        &b""[..],
        b"{}",
        b"{\"Set\":{\"key\":\"a\"}}",
        b"{\"Set\":{\"key\":\"a\",\"value\":\"1\"}} ",
        b"{\"Set\":{\"key\":\"a\",\"value\":\"1\"}",
        b"{\"Set\":{\"key\":a,\"value\":\"1\"}}",
        b"{\"Remove\":{\"key\":\"a\\\"}}",
        b"{\"Remove\":{\"key\":\"\\q\"}}",
    ] {
        match Entry::decode(bad) {
            Err(EngineError::Serde(CodecFault::Malformed)) => {}
            other => panic!("unexpected: {:?}", other),
        }
    }
}

#[test]
fn scan_literal_finds_closing_quote() {
    assert_eq!(scan_literal(b"\"abc\"rest", 0), Some(5));
    assert_eq!(scan_literal(b"x\"a\\\"b\"", 1), Some(7));
    assert_eq!(scan_literal(b"\"abc", 0), None);
    assert_eq!(scan_literal(b"\"abc\\", 0), None);
    assert_eq!(scan_literal(b"abc", 0), None);
    assert_eq!(scan_literal(b"", 0), None);
}

#[test]
fn frame_and_unframe_agree() {
    let raw = RawEntry::Put { key: b"\"k\"".to_vec(), value: b"\"v\\\"\"".to_vec() };
    let line = frame(&raw);
    assert_eq!(line, b"{\"Set\":{\"key\":\"k\",\"value\":\"v\\\"\"}}".to_vec());
    match unframe(&line) {
        Some(RawEntry::Put { key, value }) => {
            assert_eq!(key, b"\"k\"".to_vec());
            assert_eq!(value, b"\"v\\\"\"".to_vec());
        }
        _ => panic!("not a put"),
    }
}
