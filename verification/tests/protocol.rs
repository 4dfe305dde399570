use kvs::client::outcome;
use kvs::engine::{removal, stored_text, KvsEngine};
use kvs::error::EngineError;
use kvs::protocol::{text_of, Parsed, Request, Response};
use kvs::server::{respond_get, respond_remove, respond_set, serve, ConfigError, Engine};
use std::collections::HashMap;
use std::sync::{Arc, Mutex};

fn put(key: &str, value: &str) -> Request {
    Request::Put { key: key.to_string(), value: value.to_string() }
}

fn get(key: &str) -> Request {
    Request::Get { key: key.to_string() }
}

fn rm(key: &str) -> Request {
    Request::Remove { key: key.to_string() }
}

fn same(a: &Request, b: &Request) -> bool {
    match (a, b) {
        (Request::Put { key: k, value: v }, Request::Put { key: l, value: w }) => k == l && v == w,
        (Request::Get { key: k }, Request::Get { key: l }) => k == l,
        (Request::Remove { key: k }, Request::Remove { key: l }) => k == l,
        _ => false,
    }
}

#[derive(Clone)]
struct Memory {
    map: Arc<Mutex<HashMap<String, String>>>,
    broken: bool,
}

impl Memory {
    fn new() -> Memory {
        Memory { map: Arc::new(Mutex::new(HashMap::new())), broken: false }
    }
}

impl KvsEngine for Memory {
    fn set(&self, key: String, value: String) -> Result<(), EngineError> {
        if self.broken {
            return Err(EngineError::Io("disk full".to_string()));
        }
        self.map.lock().unwrap().insert(key, value);
        Ok(())
    }

    fn get(&self, key: String) -> Result<Option<String>, EngineError> {
        if self.broken {
            return Err(EngineError::Io("disk gone".to_string()));
        }
        Ok(self.map.lock().unwrap().get(&key).cloned())
    }

    fn remove(&self, key: String) -> Result<(), EngineError> {
        if self.broken {
            return Err(EngineError::Unknown("broken".to_string()));
        }
        let held = self.map.lock().unwrap().remove(&key).is_some();
        removal(key, held)
    }
}

fn exchange(engine: &Memory, bytes: &[u8]) -> Vec<u8> {
    match Request::decode(bytes) {
        Parsed::Done(request) => serve(engine, request).encode().unwrap(),
        other => panic!("unexpected: {:?}", other),
    }
}

#[test]
fn wire_set_then_get() {
    let engine = Memory::new();
    let reply = exchange(&engine, b"\x73\x00\x00\x00\x03foo\x00\x00\x00\x03bar");
    assert_eq!(reply, vec![0x00]);
    let reply = exchange(&engine, b"\x67\x00\x00\x00\x03foo");
    assert_eq!(reply, b"\x00\x00\x00\x00\x03bar".to_vec());
}

#[test]
fn wire_get_miss() {
    let engine = Memory::new();
    let reply = exchange(&engine, b"\x67\x00\x00\x00\x01z");
    assert_eq!(reply, b"\x01\x00\x00\x00\x0dKey not found".to_vec());
}

#[test]
fn wire_remove_hit_and_miss() {
    let engine = Memory::new();
    exchange(&engine, b"s\x00\x00\x00\x01k\x00\x00\x00\x01v");
    assert_eq!(exchange(&engine, b"r\x00\x00\x00\x01k"), vec![0x00]);
    assert_eq!(exchange(&engine, b"r\x00\x00\x00\x01k"), b"\x01\x00\x00\x00\x0dKey not found".to_vec());
}

#[test]
fn wire_failure_without_reason_is_bare() {
    let mut engine = Memory::new();
    engine.broken = true;
    assert_eq!(exchange(&engine, b"s\x00\x00\x00\x01k\x00\x00\x00\x01v"), vec![0x01]);
    assert_eq!(exchange(&engine, b"g\x00\x00\x00\x01k"), vec![0x01]);
    assert_eq!(exchange(&engine, b"r\x00\x00\x00\x01k"), vec![0x01]);
}

#[test]
fn request_bytes_are_exact() {
    assert_eq!(put("foo", "bar").encode().unwrap(), b"s\x00\x00\x00\x03foo\x00\x00\x00\x03bar".to_vec());
    assert_eq!(get("foo").encode().unwrap(), b"g\x00\x00\x00\x03foo".to_vec());
    assert_eq!(rm("").encode().unwrap(), b"r\x00\x00\x00\x00".to_vec());
    let long = "x".repeat(0x01020304);
    let bytes = get(&long).encode().unwrap();
    assert_eq!(&bytes[..5], b"g\x01\x02\x03\x04");
    assert_eq!(bytes.len(), 5 + 0x01020304);
}

#[test]
fn request_round_trip() {
    for request in [put("k", "v"), put("", ""), get("héllo \u{1F600}"), rm("a\nb\0c"), put("é", "\u{10FFFF}")] {
        let bytes = request.encode().unwrap();
        match Request::decode(&bytes) {
            Parsed::Done(back) => assert!(same(&back, &request)),
            other => panic!("unexpected: {:?}", other),
        }
    }
}

#[test]
fn response_round_trip() {
    for (ok, text) in [(true, None), (false, None), (true, Some("value")), (false, Some("Key not found")), (true, Some(""))] {
        let response = Response { ok, text: text.map(|t: &str| t.to_string()) };
        let bytes = response.encode().unwrap();
        let back = Response::decode(&bytes).unwrap();
        assert_eq!(back.ok, response.ok);
        assert_eq!(back.text, response.text);
    }
}

#[test]
fn decode_says_how_much_is_missing() {
    let whole = put("foo", "quux").encode().unwrap();
    let needs: Vec<usize> = (0..whole.len())
        .map(|n| match Request::decode(&whole[..n]) {
            Parsed::Need(k) => k,
            other => panic!("unexpected at {}: {:?}", n, other),
        })
        .collect();
    assert_eq!(needs, vec![1, 4, 3, 2, 1, 3, 2, 1, 4, 3, 2, 1, 4, 3, 2, 1]);
    assert!(matches!(Request::decode(&whole), Parsed::Done(_)));
}

#[test]
fn decode_rejects_unknown_operation_and_trailing_bytes() {
    assert!(matches!(Request::decode(b"x"), Parsed::Invalid));
    assert!(matches!(Request::decode(b"S\x00\x00\x00\x00"), Parsed::Invalid));
    assert!(matches!(Request::decode(b"g\x00\x00\x00\x01kk"), Parsed::Invalid));
    assert!(matches!(Request::decode(b"s\x00\x00\x00\x01k\x00\x00\x00\x01vv"), Parsed::Invalid));
    assert!(matches!(Request::decode(b"g\xff\xff\xff\xff"), Parsed::Need(0xffff_ffff)));
}

#[test]
fn response_decode_rejects_what_is_no_response() {
    assert!(Response::decode(b"").is_none());
    assert!(Response::decode(b"\x02").is_none());
    assert!(Response::decode(b"\x00\x00\x00").is_none());
    assert!(Response::decode(b"\x00\x00\x00\x00\x02a").is_none());
    assert!(Response::decode(b"\x00\x00\x00\x00\x01ab").is_none());
}

#[test]
fn bytes_that_are_no_utf8_are_replaced() {
    assert_eq!(text_of(b"caf\xc3\xa9"), "café");
    assert_eq!(text_of(b"a\xffb"), "a\u{FFFD}b");
    assert_eq!(text_of(b""), "");
    match Request::decode(b"g\x00\x00\x00\x02\xc3\x28") {
        Parsed::Done(Request::Get { key }) => assert_eq!(key, "\u{FFFD}("),
        other => panic!("unexpected: {:?}", other),
    }
}

#[test]
fn responses_follow_the_outcome() {
    let r = respond_get(Ok(Some("v".to_string())));
    assert_eq!((r.ok, r.text), (true, Some("v".to_string())));
    let r = respond_get(Ok(None));
    assert_eq!((r.ok, r.text), (false, Some("Key not found".to_string())));
    let r = respond_get(Err(EngineError::Io("x".to_string())));
    assert_eq!((r.ok, r.text), (false, None));
    let r = respond_set(Ok(()));
    assert_eq!((r.ok, r.text), (true, None));
    let r = respond_set(Err(EngineError::NotFound("k".to_string())));
    assert_eq!((r.ok, r.text), (false, None));
    let r = respond_remove(Ok(()));
    assert_eq!((r.ok, r.text), (true, None));
    let r = respond_remove(Err(EngineError::NotFound("k".to_string())));
    assert_eq!((r.ok, r.text), (false, Some("Key not found".to_string())));
    let r = respond_remove(Err(EngineError::Unknown("k".to_string())));
    assert_eq!((r.ok, r.text), (false, None));
}

#[test]
fn client_outcomes() {
    let hit = Response { ok: true, text: Some("v".to_string()) };
    assert_eq!(outcome(&get("k"), hit).unwrap(), Some("v".to_string()));
    let miss = Response { ok: false, text: Some("Key not found".to_string()) };
    assert_eq!(outcome(&get("k"), miss.clone()).unwrap(), Some("Key not found".to_string()));
    match outcome(&rm("k"), miss) {
        Err(EngineError::NotFound(key)) => assert_eq!(key, "k"),
        other => panic!("unexpected: {:?}", other),
    }
    let bare = Response { ok: false, text: None };
    assert!(matches!(outcome(&get("k"), bare.clone()), Err(EngineError::Unknown(_))));
    assert!(matches!(outcome(&put("k", "v"), bare.clone()), Err(EngineError::Unknown(_))));
    assert!(matches!(outcome(&rm("k"), bare), Err(EngineError::Unknown(_))));
    let fine = Response { ok: true, text: None };
    assert_eq!(outcome(&put("k", "v"), fine.clone()).unwrap(), None);
    assert_eq!(outcome(&rm("k"), fine).unwrap(), None);
}

#[test]
fn tree_adapter_rules() {
    assert!(removal("k".to_string(), true).is_ok());
    match removal("k".to_string(), false) {
        Err(EngineError::NotFound(key)) => assert_eq!(key, "k"),
        other => panic!("unexpected: {:?}", other),
    }
    assert_eq!(stored_text(None), None);
    assert_eq!(stored_text(Some(b"v\xc3\xa9".to_vec())), Some("vé".to_string()));
    assert_eq!(stored_text(Some(vec![0x80])), Some("\u{FFFD}".to_string()));
}

#[test]
fn engine_kind_is_parsed_and_selected() {
    assert_eq!(Engine::parse("kvs"), Some(Engine::Kvs));
    assert_eq!(Engine::parse("sled"), Some(Engine::Sled));
    assert_eq!(Engine::parse("Kvs"), None);
    assert_eq!(Engine::parse("kvs\n"), None);
    assert_eq!(Engine::parse(""), None);
    assert_eq!(Engine::Kvs.name(), "kvs");
    assert_eq!(Engine::Sled.name(), "sled");
    assert_eq!(Engine::select(Some(Engine::Kvs), None), Ok(Engine::Kvs));
    assert_eq!(Engine::select(Some(Engine::Kvs), Some(Engine::Kvs)), Ok(Engine::Kvs));
    assert_eq!(Engine::select(Some(Engine::Kvs), Some(Engine::Sled)), Err(ConfigError::WrongEngine));
    assert_eq!(Engine::select(None, Some(Engine::Sled)), Ok(Engine::Sled));
    assert_eq!(Engine::select(None, None), Err(ConfigError::NoEngine));
}

#[test]
fn error_messages() {
    assert_eq!(EngineError::NotFound("k".to_string()).message(), "Key not found, `k` is not found");
    assert_eq!(EngineError::Io("disk".to_string()).message(), "Io Error");
    assert_eq!(EngineError::Unknown("why".to_string()).message(), "why");
    assert!(EngineError::NotFound("k".to_string()).is_not_found());
    assert!(!EngineError::Io("k".to_string()).is_not_found());
}
