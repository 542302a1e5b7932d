use logblock::cursors::{Cursor, CursorName, ETag, LogPosition};
use logblock::json::{encode_cursor, parse_cursor_json};
use logblock::store::{CursorStore, CursorStoreOptions, Error, MemoryBlobStore};

fn store() -> CursorStore {
    CursorStore::new(
        CursorStoreOptions { concurrency: 4 },
        "log".to_string(),
        "writer_one".to_string(),
    )
}

fn cursor(offset: u64, epoch_us: u64, writer: &str) -> Cursor {
    Cursor { position: LogPosition { offset }, epoch_us, writer: writer.to_string() }
}

#[test]
fn encode_produces_canonical_json() {
    let s = encode_cursor(42, 7, "me").unwrap();
    assert_eq!(s, "{\"position\":42,\"epoch_us\":7,\"writer\":\"me\"}");
}

#[test]
fn encode_refuses_unencodable_writer() {
    assert!(encode_cursor(1, 1, "has\"quote").is_none());
    assert!(encode_cursor(1, 1, "has\\backslash").is_none());
    assert!(encode_cursor(1, 1, "has\nnewline").is_none());
    assert!(encode_cursor(1, 1, "").is_some());
}

#[test]
fn parse_inverts_encode() {
    let s = encode_cursor(u64::MAX, 123456789, "some_writer").unwrap();
    let (p, e, w) = parse_cursor_json(&s).unwrap();
    assert_eq!(p, u64::MAX);
    assert_eq!(e, 123456789);
    assert_eq!(w, "some_writer");
}

#[test]
fn parse_rejects_non_canonical_records() {
    assert!(parse_cursor_json("").is_none());
    assert!(parse_cursor_json("{}").is_none());
    assert!(parse_cursor_json("{\"position\":,\"epoch_us\":1,\"writer\":\"w\"}").is_none());
    assert!(parse_cursor_json("{\"position\":01,\"epoch_us\":1,\"writer\":\"w\"}").is_none());
    assert!(parse_cursor_json("{\"position\":1,\"epoch_us\":1,\"writer\":\"w\"} ").is_none());
    assert!(parse_cursor_json("{\"position\":99999999999999999999999,\"epoch_us\":1,\"writer\":\"w\"}").is_none());
}

#[test]
fn canonical_record_is_real_json() {
    let s = encode_cursor(17, 99, "proc_7").unwrap();
    let v: serde_json::Value = serde_json::from_str(&s).unwrap();
    assert_eq!(v.get("position").unwrap().as_u64().unwrap(), 17);
    assert_eq!(v.get("epoch_us").unwrap().as_u64().unwrap(), 99);
    assert_eq!(v.get("writer").unwrap().as_str().unwrap(), "proc_7");
}

#[test]
fn init_then_load_round_trips() {
    let cs = store();
    let mut blobs = MemoryBlobStore::new();
    let name = CursorName::new("head").unwrap();
    let witness = cs.init(&mut blobs, &name, &cursor(5, 10, "caller")).unwrap();
    // The persisted writer is the store's own identity, not the caller's.
    assert_eq!(witness.cursor().writer, "writer_one");
    assert_eq!(witness.cursor().position.offset, 5);
    let loaded = cs.load(&blobs, &name).unwrap();
    assert_eq!(loaded.cursor().position.offset, 5);
    assert_eq!(loaded.cursor().epoch_us, 10);
    assert_eq!(loaded.cursor().writer, "writer_one");
}

#[test]
fn second_init_conflicts() {
    let cs = store();
    let mut blobs = MemoryBlobStore::new();
    let name = CursorName::new("head").unwrap();
    assert!(cs.init(&mut blobs, &name, &cursor(1, 1, "w")).is_ok());
    let second = cs.init(&mut blobs, &name, &cursor(2, 2, "w"));
    assert!(matches!(second, Err(Error::ConflictOnCreate)));
}

#[test]
fn save_with_stale_witness_conflicts() {
    let cs = store();
    let mut blobs = MemoryBlobStore::new();
    let name = CursorName::new("head").unwrap();
    let w0 = cs.init(&mut blobs, &name, &cursor(1, 1, "w")).unwrap();
    let w1 = cs.save(&mut blobs, &name, &cursor(2, 2, "w"), &w0).unwrap();
    // The old witness no longer matches the stored version.
    let stale = cs.save(&mut blobs, &name, &cursor(3, 3, "w"), &w0);
    assert!(matches!(stale, Err(Error::ConflictOnUpdate)));
    // The fresh witness from the successful save does.
    let fresh = cs.save(&mut blobs, &name, &cursor(3, 3, "w"), &w1);
    assert!(fresh.is_ok());
    let loaded = cs.load(&blobs, &name).unwrap();
    assert_eq!(loaded.cursor().position.offset, 3);
}

#[test]
fn save_on_absent_cursor_conflicts() {
    let cs = store();
    let mut blobs = MemoryBlobStore::new();
    let name = CursorName::new("head").unwrap();
    let fake = ETag { tag: "1".to_string() };
    let witness = logblock::cursors::Witness { e_tag: fake, cursor: cursor(1, 1, "w") };
    let r = cs.save(&mut blobs, &name, &cursor(2, 2, "w"), &witness);
    assert!(matches!(r, Err(Error::ConflictOnUpdate)));
}

#[test]
fn load_without_version_token_is_corrupt() {
    let cs = store();
    let name = CursorName::new("head").unwrap();
    let body = encode_cursor(1, 1, "w").unwrap();
    let r = cs.interpret_load(&name, body.as_bytes(), None);
    match r {
        Err(Error::CorruptCursor(m)) => assert!(m.ends_with("head")),
        _ => panic!("expected a corrupt-cursor error"),
    }
}

#[test]
fn load_with_malformed_body_is_corrupt() {
    let cs = store();
    let name = CursorName::new("head").unwrap();
    let tag = ETag { tag: "1".to_string() };
    let r = cs.interpret_load(&name, b"not json at all", Some(tag));
    match r {
        Err(Error::CorruptCursor(m)) => assert!(m.ends_with("head")),
        _ => panic!("expected a corrupt-cursor error"),
    }
}

#[test]
fn load_with_token_and_valid_body_succeeds() {
    let cs = store();
    let name = CursorName::new("head").unwrap();
    let body = encode_cursor(8, 9, "last_writer").unwrap();
    let tag = ETag { tag: "7".to_string() };
    let w = cs.interpret_load(&name, body.as_bytes(), Some(tag)).unwrap();
    assert_eq!(w.cursor().position.offset, 8);
    assert_eq!(w.cursor().epoch_us, 9);
    assert_eq!(w.cursor().writer, "last_writer");
    assert_eq!(w.e_tag.tag, "7");
}

#[test]
fn load_of_missing_blob_is_backend_error() {
    let cs = store();
    let blobs = MemoryBlobStore::new();
    let name = CursorName::new("nowhere").unwrap();
    let r = cs.load(&blobs, &name);
    assert!(matches!(r, Err(Error::Backend(_))));
}

#[test]
fn unencodable_writer_is_corrupt_on_init() {
    let cs = CursorStore::new(
        CursorStoreOptions { concurrency: 1 },
        "log".to_string(),
        "bad\"writer".to_string(),
    );
    let mut blobs = MemoryBlobStore::new();
    let name = CursorName::new("head").unwrap();
    let r = cs.init(&mut blobs, &name, &cursor(1, 1, "w"));
    assert!(matches!(r, Err(Error::CorruptCursor(_))));
}
