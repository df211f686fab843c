use koru_delta::error::DeltaError;
use koru_delta::storage::CausalStorage;

const T0: i64 = 1_700_000_000_000_000_000;

/// A stand-in content address: the same text gives the same ID.
fn did(value: &str) -> String {
    format!("d{}", value.len() * 31 + value.bytes().map(|b| b as usize).sum::<usize>())
}

fn put(s: &mut CausalStorage, ns: &str, key: &str, value: &str, now: i64) -> koru_delta::types::VersionedValue {
    s.put(ns.to_string(), key.to_string(), value.to_string(), did(value), now)
}

#[test]
fn storage_test_put_and_get() {
    let mut storage = CausalStorage::new();
    let value = r#"{"age":30,"name":"Alice"}"#;
    put(&mut storage, "users", "alice", value, T0);
    let retrieved = storage.get("users", "alice").unwrap();
    assert_eq!(retrieved.value, value);
}

#[test]
fn test_get_nonexistent_key() {
    let storage = CausalStorage::new();
    let result = storage.get("users", "nonexistent");
    assert!(matches!(result, Err(DeltaError::KeyNotFound { .. })));
}

#[test]
fn test_versioning() {
    let mut storage = CausalStorage::new();
    let v1 = put(&mut storage, "users", "alice", r#"{"age":30}"#, T0);
    let v2 = put(&mut storage, "users", "alice", r#"{"age":31}"#, T0 + 10_000_000);

    assert_eq!(v2.previous_version, Some(v1.write_id.clone()));
    let current = storage.get("users", "alice").unwrap();
    assert_eq!(current.distinction_id, v2.distinction_id);
    assert_ne!(v1.distinction_id, v2.distinction_id);
    assert!(storage.causal_graph().contains(&v1.write_id));
    assert!(storage.causal_graph().contains(&v2.write_id));
    assert_eq!(v1.write_id, format!("{}_{}", v1.distinction_id, T0));
}

#[test]
fn test_causal_graph_populated() {
    let mut storage = CausalStorage::new();
    let v1 = put(&mut storage, "test", "key", "1", T0);
    let v2 = put(&mut storage, "test", "key", "2", T0 + 1);
    let v3 = put(&mut storage, "test", "key", "3", T0 + 2);

    assert!(storage.causal_graph().contains(&v1.write_id));
    assert!(storage.causal_graph().contains(&v2.write_id));
    assert!(storage.causal_graph().contains(&v3.write_id));

    let ancestors_v2 = storage.causal_graph().ancestors(&v2.write_id);
    assert!(ancestors_v2.contains(&v1.write_id));
    let ancestors_v3 = storage.causal_graph().ancestors(&v3.write_id);
    assert!(ancestors_v3.contains(&v2.write_id));
    assert!(ancestors_v3.contains(&v1.write_id));
}

#[test]
fn storage_test_contains_key() {
    let mut storage = CausalStorage::new();
    assert!(!storage.contains_key("users", "alice"));
    put(&mut storage, "users", "alice", "{}", T0);
    assert!(storage.contains_key("users", "alice"));
}

#[test]
fn test_key_count() {
    let mut storage = CausalStorage::new();
    assert_eq!(storage.key_count(), 0);
    put(&mut storage, "users", "alice", "{}", T0);
    assert_eq!(storage.key_count(), 1);
    put(&mut storage, "users", "bob", "{}", T0 + 1);
    assert_eq!(storage.key_count(), 2);
    put(&mut storage, "users", "alice", r#"{"updated":true}"#, T0 + 2);
    assert_eq!(storage.key_count(), 2);
}

#[test]
fn test_total_version_count_via_causal_graph() {
    let mut storage = CausalStorage::new();
    let v1 = put(&mut storage, "users", "alice", r#"{"v":1}"#, T0);
    assert_eq!(storage.total_version_count(), 1);
    let v2 = put(&mut storage, "users", "alice", r#"{"v":2}"#, T0 + 1);
    assert_eq!(storage.total_version_count(), 2);
    let v3 = put(&mut storage, "users", "bob", r#"{"v":3}"#, T0 + 2);
    assert_eq!(storage.total_version_count(), 3);
    assert!(storage.causal_graph().contains(&v1.write_id));
    assert!(storage.causal_graph().contains(&v2.write_id));
    assert!(storage.causal_graph().contains(&v3.write_id));
}

#[test]
fn storage_test_list_namespaces() {
    let mut storage = CausalStorage::new();
    put(&mut storage, "users", "alice", "{}", T0);
    put(&mut storage, "users", "bob", "{}", T0 + 1);
    put(&mut storage, "sessions", "s1", "{}", T0 + 2);
    put(&mut storage, "config", "app", "{}", T0 + 3);
    assert_eq!(storage.list_namespaces(), vec!["config", "sessions", "users"]);
}

#[test]
fn test_list_keys() {
    let mut storage = CausalStorage::new();
    put(&mut storage, "users", "alice", "{}", T0);
    put(&mut storage, "users", "bob", "{}", T0 + 1);
    put(&mut storage, "users", "charlie", "{}", T0 + 2);
    put(&mut storage, "sessions", "s1", "{}", T0 + 3);
    assert_eq!(storage.list_keys("users"), vec!["alice", "bob", "charlie"]);
    assert_eq!(storage.list_keys("sessions"), vec!["s1"]);
}

#[test]
fn history_and_time_travel() {
    let mut storage = CausalStorage::new();
    put(&mut storage, "k", "x", "1", T0);
    put(&mut storage, "k", "x", "2", T0 + 100);
    put(&mut storage, "k", "x", "3", T0 + 200);

    let history = storage.history("k", "x").unwrap();
    let values: Vec<&str> = history.iter().map(|h| h.value.as_str()).collect();
    assert_eq!(values, vec!["1", "2", "3"]);

    assert_eq!(storage.get_at("k", "x", T0 + 150).unwrap().value, "2");
    assert_eq!(storage.get_at("k", "x", T0 + 500).unwrap().value, "3");
    assert!(matches!(
        storage.get_at("k", "x", T0 - 1),
        Err(DeltaError::NoValueAtTimestamp { timestamp, .. }) if timestamp == (T0 - 1).div_euclid(1_000_000_000)
    ));
    assert!(matches!(storage.history("k", "y"), Err(DeltaError::KeyNotFound { .. })));
}

#[test]
fn same_content_shares_stored_text() {
    let mut storage = CausalStorage::new();
    put(&mut storage, "a", "one", "{}", T0);
    let v = put(&mut storage, "a", "two", "{}", T0 + 1);
    assert_eq!(v.value, "{}");
    assert_eq!(storage.scan_collection("a").len(), 2);
    assert_eq!(storage.scan_all().len(), 2);
}

use koru_delta::storage_agent::StorageAgent;

fn agent_put(a: &mut StorageAgent, ns: &str, key: &str, value: &str, now: i64) -> koru_delta::types::VersionedValue {
    a.put(ns.to_string(), key.to_string(), value.to_string(), did(value), now).unwrap()
}

#[test]
fn test_basic_crud() {
    let mut agent = StorageAgent::new();
    let versioned = agent_put(&mut agent, "test", "key1", r#"{"data":"value1"}"#, T0);
    assert_eq!(versioned.value, r#"{"data":"value1"}"#);
    let retrieved = agent.get("test", "key1").unwrap();
    assert_eq!(retrieved.value, r#"{"data":"value1"}"#);
    let versioned2 = agent_put(&mut agent, "test", "key1", r#"{"data":"value2"}"#, T0 + 1);
    assert_eq!(versioned2.value, r#"{"data":"value2"}"#);
    let history = agent.history("test", "key1").unwrap();
    assert_eq!(history.len(), 2);
    assert_eq!(history[0].value, r#"{"data":"value1"}"#);
    agent.delete("test", "key1", T0 + 2).unwrap();
    assert!(agent.get("test", "key1").is_err());
}

#[test]
fn storage_agent_test_contains_key() {
    let mut agent = StorageAgent::new();
    assert!(!agent.contains_key("test", "key1"));
    agent_put(&mut agent, "test", "key1", r#"{"data":"value1"}"#, T0);
    assert!(agent.contains_key("test", "key1"));
}

#[test]
fn storage_agent_test_list_namespaces() {
    let mut agent = StorageAgent::new();
    agent_put(&mut agent, "ns1", "key1", r#""value1""#, T0);
    agent_put(&mut agent, "ns2", "key1", r#""value2""#, T0 + 1);
    let namespaces = agent.list_namespaces();
    assert_eq!(namespaces.len(), 2);
    assert!(namespaces.contains(&"ns1".to_string()));
    assert!(namespaces.contains(&"ns2".to_string()));
}

#[test]
fn test_tombstone_prevents_reappearance() {
    let mut agent = StorageAgent::new();
    agent_put(&mut agent, "test", "key1", r#"{"data":"value1"}"#, T0);
    agent.delete("test", "key1", T0 + 1).unwrap();
    let result = agent.get("test", "key1");
    assert!(result.is_err());
    assert!(agent.has_tombstone("test", "key1"));
    // A later write does not bring the key back for readers.
    agent_put(&mut agent, "test", "key1", r#"{"data":"again"}"#, T0 + 2);
    assert!(agent.get("test", "key1").is_err());
    assert_eq!(agent.get_all_tombstones().len(), 1);
}

#[test]
fn agent_scans_are_sorted() {
    let mut agent = StorageAgent::new();
    agent_put(&mut agent, "b", "z", "1", T0);
    agent_put(&mut agent, "a", "y", "2", T0 + 1);
    agent_put(&mut agent, "b", "x", "3", T0 + 2);
    let keys: Vec<(String, String)> = agent
        .scan_all()
        .into_iter()
        .map(|(k, _)| (k.namespace, k.key))
        .collect();
    assert_eq!(
        keys,
        vec![("a".to_string(), "y".to_string()), ("b".to_string(), "x".to_string()), ("b".to_string(), "z".to_string())]
    );
    let b: Vec<String> = agent.scan_collection("b").into_iter().map(|(k, _)| k).collect();
    assert_eq!(b, vec!["x".to_string(), "z".to_string()]);
    assert_eq!(agent.total_version_count(), 3);
    assert_eq!(agent.query("{}").unwrap().len(), 3);
    let batch = agent
        .put_batch(vec![("c".to_string(), "k".to_string(), "4".to_string(), did("4"), T0 + 3)])
        .unwrap();
    assert_eq!(batch.len(), 1);
    assert_eq!(agent.key_count(), 4);
}

#[test]
fn snapshot_lists_each_key_with_its_lineage() {
    let mut storage = CausalStorage::new();
    put(&mut storage, "users", "alice", "1", T0);
    put(&mut storage, "users", "alice", "22", T0 + 5);
    put(&mut storage, "users", "bob", "333", T0 + 7);
    let mut snap = storage.create_snapshot();
    snap.sort_by(|a, b| a.0.key.cmp(&b.0.key));
    assert_eq!(snap.len(), 2);
    assert_eq!(snap[0].0.key, "alice");
    assert_eq!(snap[0].1.value, "22");
    let times: Vec<i64> = snap[0].2.iter().map(|v| v.timestamp).collect();
    assert_eq!(times, vec![T0, T0 + 5]);
    assert_eq!(snap[1].0.key, "bob");
    assert_eq!(snap[1].2.len(), 1);
    assert_eq!(snap[1].2[0].value, "333");
}
