use koru_delta::error::DeltaError;
use koru_delta::persistence::{
    calculate_checksum, encode_line, is_blank_line, load_source, lock_marker, lock_outcome,
    new_put_entry, plan_batch, plan_write, replay_action, replay_order, segment_file_name,
    value_path_parts, verify_checksum, LoadSource, LockState, LogEntry, ReplayAction, WalMetadata,
    WriteRecord, MAX_SEGMENT_SIZE,
};

fn record(ns: &str, key: &str, hash: &str, prev: Option<&str>, nanos: i64) -> WriteRecord {
    WriteRecord {
        ns: ns.to_string(),
        key: key.to_string(),
        value_hash: hash.to_string(),
        prev_hash: prev.map(|p| p.to_string()),
        timestamp_nanos: nanos,
    }
}

/// The checksum the WAL format defines, computed independently with serde_json's map.
fn reference_checksum(e: &LogEntry) -> String {
    let mut m = serde_json::Map::new();
    m.insert("version".into(), serde_json::Value::from(e.version));
    m.insert("op".into(), serde_json::Value::from(e.op.clone()));
    m.insert("ns".into(), serde_json::Value::from(e.ns.clone()));
    m.insert("key".into(), serde_json::Value::from(e.key.clone()));
    m.insert("value_hash".into(), serde_json::Value::from(e.value_hash.clone()));
    m.insert(
        "prev_hash".into(),
        match &e.prev_hash {
            Some(p) => serde_json::Value::from(p.clone()),
            None => serde_json::Value::Null,
        },
    );
    let ts = chrono::DateTime::<chrono::Utc>::from_timestamp_nanos(e.timestamp_nanos);
    m.insert("timestamp".into(), serde_json::to_value(ts).unwrap());
    m.insert("seq".into(), serde_json::Value::from(e.seq));
    m.insert(
        "value".into(),
        match &e.value {
            Some(v) => serde_json::from_str(v).unwrap(),
            None => serde_json::Value::Null,
        },
    );
    let text = serde_json::Value::Object(m).to_string();
    format!("crc32:{:08x}", crc32fast::hash(text.as_bytes()))
}

#[test]
fn checksum_matches_reference_format() {
    let w = record("users", "alice", "abcdef0123", Some("ffee00"), 1_770_292_800_123_456_789);
    let e = new_put_entry(&w, 42);
    assert_eq!(e.checksum, reference_checksum(&e));
    assert!(verify_checksum(&e));
}

#[test]
fn checksum_of_known_text() {
    // CRC-32 of "123456789" is cbf43926.
    assert_eq!(calculate_checksum("123456789"), "crc32:cbf43926");
    assert_eq!(calculate_checksum(""), "crc32:00000000");
}

#[test]
fn tampered_entry_fails_checksum() {
    let w = record("users", "alice", "abcdef0123", None, 0);
    let mut e = new_put_entry(&w, 1);
    e.key = "mallory".to_string();
    assert!(!verify_checksum(&e));
    assert!(matches!(replay_action(&e), ReplayAction::Corrupt));
}

#[test]
fn line_round_trips_through_serde_json() {
    let w = record("ns \"quoted\"", "k\n", "abcdef0123", Some("prev"), -5);
    let e = new_put_entry(&w, 7);
    let line = encode_line(&e);
    let v: serde_json::Value = serde_json::from_str(&line).unwrap();
    assert_eq!(v["version"], 1);
    assert_eq!(v["op"], "put");
    assert_eq!(v["ns"], "ns \"quoted\"");
    assert_eq!(v["key"], "k\n");
    assert_eq!(v["value_hash"], "abcdef0123");
    assert_eq!(v["prev_hash"], "prev");
    assert_eq!(v["seq"], 7);
    assert_eq!(v["checksum"], e.checksum.as_str());
    assert!(v.get("value").is_none());
    let ts: chrono::DateTime<chrono::Utc> = serde_json::from_value(v["timestamp"].clone()).unwrap();
    assert_eq!(ts.timestamp_nanos_opt(), Some(-5));
    // Keys appear in declaration order.
    assert!(line.starts_with("{\"version\":1,\"op\":\"put\",\"ns\":"));
    assert!(line.ends_with(&format!(",\"checksum\":\"{}\"}}", e.checksum)));
}

#[test]
fn batch_numbers_entries_after_last_seq() {
    let meta = WalMetadata { last_seq: 9, current_segment: 3 };
    let writes = vec![
        record("a", "k1", "h1h1h1", None, 1),
        record("a", "k2", "h2h2h2", None, 2),
        record("b", "k3", "h3h3h3", None, 3),
    ];
    let plan = plan_batch(meta, &writes, None);
    let seqs: Vec<u64> = plan.entries.iter().map(|e| e.seq).collect();
    assert_eq!(seqs, vec![10, 11, 12]);
    assert_eq!(plan.metadata, WalMetadata { last_seq: 12, current_segment: 3 });
    assert!(!plan.rotated);
    for (e, l) in plan.entries.iter().zip(plan.lines.iter()) {
        assert!(verify_checksum(e));
        assert_eq!(&encode_line(e), l);
    }
}

#[test]
fn batch_rotates_when_segment_would_overflow() {
    let meta = WalMetadata { last_seq: 0, current_segment: 1 };
    let writes = vec![record("a", "k", "h1h1h1", None, 1)];
    let fits = plan_batch(meta, &writes, Some(100));
    assert!(!fits.rotated);
    let bytes = fits.lines[0].len() as u64 + 1;
    let at_limit = plan_batch(meta, &writes, Some(MAX_SEGMENT_SIZE - bytes));
    assert!(!at_limit.rotated);
    let over = plan_batch(meta, &writes, Some(MAX_SEGMENT_SIZE - bytes + 1));
    assert!(over.rotated);
    assert_eq!(over.metadata.current_segment, 2);
}

#[test]
fn single_write_rotates_only_past_limit() {
    let meta = WalMetadata::default();
    assert_eq!(meta, WalMetadata { last_seq: 0, current_segment: 1 });
    let w = record("a", "k", "h1h1h1", None, 1);
    let p = plan_write(meta, &w, Some(MAX_SEGMENT_SIZE));
    assert!(!p.rotated);
    assert_eq!(p.entry.seq, 1);
    let p = plan_write(meta, &w, Some(MAX_SEGMENT_SIZE + 1));
    assert!(p.rotated);
    assert_eq!(p.metadata, WalMetadata { last_seq: 1, current_segment: 2 });
}

#[test]
fn segment_names_are_zero_padded() {
    assert_eq!(segment_file_name(1), "000001.wal");
    assert_eq!(segment_file_name(123456), "123456.wal");
    assert_eq!(segment_file_name(1234567), "1234567.wal");
}

#[test]
fn replay_order_keeps_sorted_segments() {
    let names = vec![
        "000002.wal".to_string(),
        "metadata.json".to_string(),
        "000001.wal".to_string(),
        "current".to_string(),
        "000010.wal".to_string(),
    ];
    assert_eq!(replay_order(names), vec!["000001.wal", "000002.wal", "000010.wal"]);
}

#[test]
fn replay_put_builds_write_id() {
    let w = record("users", "alice", "abcd1234", None, 1_500);
    let e = new_put_entry(&w, 3);
    match replay_action(&e) {
        ReplayAction::Put { write_id } => assert_eq!(write_id, "abcd1234_1500"),
        other => panic!("unexpected {:?}", other),
    }
    let w = record("users", "alice", "abcd1234", None, -7);
    match replay_action(&new_put_entry(&w, 3)) {
        ReplayAction::Put { write_id } => assert_eq!(write_id, "abcd1234_-7"),
        other => panic!("unexpected {:?}", other),
    }
}

#[test]
fn replay_ignores_valid_non_put() {
    let w = record("users", "alice", "abcd1234", None, 0);
    let mut e = new_put_entry(&w, 3);
    e.op = "delete".to_string();
    e.checksum = reference_checksum(&e);
    assert!(matches!(replay_action(&e), ReplayAction::Ignore));
}

#[test]
fn blank_lines_are_detected() {
    assert!(is_blank_line(""));
    assert!(is_blank_line("  \t \r"));
    assert!(!is_blank_line(" {} "));
}

#[test]
fn value_paths_split_after_two_bytes() {
    let (dir, file) = value_path_parts("abcdef").unwrap();
    assert_eq!(dir, "ab");
    assert_eq!(file, "cdef");
    match value_path_parts("abc") {
        Err(DeltaError::StorageError(m)) => assert_eq!(m, "Value hash too short"),
        other => panic!("unexpected {:?}", other),
    }
}

#[test]
fn lock_protocol() {
    assert!(matches!(lock_outcome(None), Ok(LockState::Clean)));
    assert!(matches!(lock_outcome(Some(lock_marker(LockState::Clean))), Ok(LockState::Clean)));
    assert!(matches!(lock_outcome(Some(lock_marker(LockState::Unclean))), Ok(LockState::Unclean)));
    assert!(matches!(lock_outcome(Some("garbage")), Ok(LockState::Unclean)));
    assert!(matches!(lock_outcome(Some(" RUNNING\n")), Err(DeltaError::StorageError(_))));
    assert!(lock_outcome(Some(lock_marker(LockState::Running))).is_err());
}

#[test]
fn load_source_decision() {
    assert_eq!(load_source(false, false, false), LoadSource::Empty);
    assert_eq!(load_source(true, true, false), LoadSource::Wal);
    assert_eq!(load_source(true, false, true), LoadSource::LegacySnapshot);
    assert_eq!(load_source(true, false, false), LoadSource::Empty);
}
