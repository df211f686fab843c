use koru_delta::memory::hot::{HotConfig, HotMemory};
use koru_delta::types::{FullKey, VersionedValue};

fn key(ns: &str, k: &str) -> FullKey {
    FullKey::new(ns.to_string(), k.to_string())
}

fn version(value: &str, id: &str) -> VersionedValue {
    VersionedValue {
        value: value.to_string(),
        timestamp: 0,
        write_id: id.to_string(),
        distinction_id: id.to_string(),
        previous_version: None,
    }
}

#[test]
fn hot_test_put_and_get() {
    let mut hot = HotMemory::new();
    let k = key("users", "alice");
    hot.put(k.clone(), version("{\"name\":\"Alice\"}", "v1"));
    let retrieved = hot.get(&k).unwrap();
    assert_eq!(retrieved.write_id, "v1");
}

#[test]
fn test_lru_eviction() {
    let mut hot = HotMemory::with_config(HotConfig { capacity: 2, promote_threshold: 1 });
    let (k1, k2, k3) = (key("ns", "key1"), key("ns", "key2"), key("ns", "key3"));
    hot.put(k1.clone(), version("1", "v1"));
    hot.put(k2.clone(), version("2", "v2"));
    hot.get(&k1);
    let evicted = hot.put(k3.clone(), version("3", "v3"));
    assert!(evicted.is_some(), "Should have evicted");
    assert_eq!(evicted.unwrap().distinction_id, "v2");
    assert!(hot.get(&k2).is_none(), "key2 should be evicted");
    assert!(hot.get(&k1).is_some(), "key1 should still be present");
    assert_eq!(hot.len(), 2);
}

#[test]
fn test_hit_rate() {
    let mut hot = HotMemory::new();
    let k = key("users", "alice");
    hot.put(k.clone(), version("{}", "v1"));
    hot.get(&k);
    hot.get(&k);
    hot.get(&key("users", "bob"));
    let stats = hot.stats();
    assert_eq!(stats.hits, 2);
    assert_eq!(stats.misses, 1);
    let rate = stats.hits as f64 / (stats.hits + stats.misses) as f64;
    assert!((rate - 2.0 / 3.0).abs() < 0.01);
}

#[test]
fn test_update_existing() {
    let mut hot = HotMemory::new();
    let k = key("users", "alice");
    hot.put(k.clone(), version("{\"v\":1}", "v1"));
    hot.put(k.clone(), version("{\"v\":2}", "v2"));
    let current = hot.get(&k).unwrap();
    assert_eq!(current.write_id, "v2");
    assert_eq!(hot.len(), 1);
}

#[test]
fn hot_test_contains() {
    let mut hot = HotMemory::new();
    let k = key("users", "alice");
    assert!(!hot.contains_key(&k));
    hot.put(k.clone(), version("{}", "v1"));
    assert!(hot.contains_key(&k));
    assert!(hot.contains_id("v1"));
}

#[test]
fn hot_test_clear() {
    let mut hot = HotMemory::new();
    hot.put(key("a", "1"), version("1", "v1"));
    hot.put(key("a", "2"), version("2", "v2"));
    let evicted = hot.clear();
    assert_eq!(evicted.len(), 2);
    assert!(hot.is_empty());
    assert!(hot.keys().is_empty());
}

#[test]
fn hot_test_stats() {
    let mut hot = HotMemory::with_config(HotConfig { capacity: 10, promote_threshold: 1 });
    for i in 0..5 {
        hot.put(key("ns", &format!("key{}", i)), version(&i.to_string(), &format!("v{}", i)));
    }
    let stats = hot.stats();
    assert_eq!(stats.current_size, 5);
    assert_eq!(stats.capacity, 10);
    assert_eq!(stats.current_size as f64 / stats.capacity as f64, 0.5);
}

#[test]
fn hot_capacity_is_never_exceeded() {
    let mut hot = HotMemory::with_config(HotConfig { capacity: 3, promote_threshold: 1 });
    for i in 0..20 {
        hot.put(key("ns", &format!("k{}", i % 7)), version("0", &format!("v{}", i)));
        assert!(hot.len() <= 3);
    }
    assert_eq!(hot.stats().evictions, 17);
}

#[test]
fn hot_default_config() {
    let c = HotConfig::default();
    assert_eq!((c.capacity, c.promote_threshold), (1000, 3));
    assert_eq!(HotMemory::new().capacity(), 1000);
}
