use koru_delta::memory::cold::{ArchiveAgent, ArchiveConfig};
use koru_delta::memory::hot::HotMemory;
use koru_delta::memory::warm::{ChronicleAgent, ChronicleConfig, WarmConfig, WarmMemory, WarmStats, HOUR_NANOS};
use koru_delta::processes::consolidation::{ConsolidationConfig, ConsolidationProcess, SleepAgent, SleepConfig, SleepPhase};
use koru_delta::types::{FullKey, VersionedValue};

fn key(ns: &str, k: &str) -> FullKey {
    FullKey::new(ns.to_string(), k.to_string())
}

fn version(id: &str, ts: i64) -> VersionedValue {
    VersionedValue {
        value: format!("{{\"id\":\"{}\"}}", id),
        timestamp: ts,
        write_id: id.to_string(),
        distinction_id: id.to_string(),
        previous_version: None,
    }
}

#[test]
fn test_put_and_contains() {
    let mut c = ChronicleAgent::new();
    let k = key("users", "alice");
    c.put(k.clone(), version("v1", 0), 10);
    assert!(c.contains("v1"));
    assert!(c.contains_key(&k));
    assert_eq!(c.len(), 1);
}

#[test]
fn test_get_by_key() {
    let mut c = ChronicleAgent::new();
    let k = key("users", "alice");
    c.put(k.clone(), version("v1", 0), 10);
    assert_eq!(c.get_by_key(&k).unwrap(), "v1");
}

#[test]
fn test_capacity_and_eviction() {
    let mut c = ChronicleAgent::with_config(ChronicleConfig { index_capacity: 3, idle_threshold: HOUR_NANOS, rotation_size: 10_000_000 });
    for i in 0..5 {
        c.put(key("ns", &format!("key{}", i)), version(&format!("v{}", i), i), i);
    }
    assert_eq!(c.len(), 3);
    // The least recently accessed entries left first.
    assert!(!c.contains("v0") && !c.contains("v1"));
    assert!(c.contains("v4"));
}

#[test]
fn warm_test_stats() {
    let mut c = ChronicleAgent::with_config(ChronicleConfig { index_capacity: 100, idle_threshold: HOUR_NANOS, rotation_size: 10_000_000 });
    for i in 0..10 {
        c.put(key("ns", &format!("key{}", i)), version(&format!("v{}", i), i), i);
    }
    let stats = c.stats();
    assert_eq!(stats.current_size, 10);
    assert_eq!(stats.capacity, 100);
    assert_eq!(stats.current_size as f64 / stats.capacity as f64, 0.1);
}

#[test]
fn test_update_existing_key() {
    let mut c = ChronicleAgent::new();
    let k = key("users", "alice");
    c.put(k.clone(), version("v1", 0), 1);
    c.put(k.clone(), version("v2", 0), 2);
    assert_eq!(c.get_by_key(&k).unwrap(), "v2");
    assert!(c.contains("v1"));
    assert!(c.contains("v2"));
}

#[test]
fn test_promote_and_demote() {
    let mut c = ChronicleAgent::new();
    c.put(key("users", "alice"), version("v1", 0), 1);
    assert_eq!(c.len(), 1);
    c.promote("v1");
    assert_eq!(c.len(), 0);
    assert_eq!(c.stats().promotions, 1);
    c.put(key("users", "bob"), version("v2", 0), 2);
    c.demote("v2");
    assert_eq!(c.len(), 0);
    assert_eq!(c.stats().demotions, 1);
}

#[test]
fn test_find_promotion_candidates() {
    let mut c = ChronicleAgent::new();
    for i in 0..5 {
        c.put(key("ns", &format!("key{}", i)), version(&format!("v{}", i), i), i);
    }
    c.get("v1", 100);
    let candidates = c.find_promotion_candidates(10);
    let ids: Vec<&str> = candidates.iter().map(|(_, id)| id.as_str()).collect();
    assert_eq!(ids, vec!["v1", "v4", "v3", "v2", "v0"]);
    let two = c.find_promotion_candidates(2);
    assert_eq!(two.len(), 2);
    assert_eq!(two[0].0.key, "key1");
}

#[test]
fn test_is_empty() {
    let mut c = ChronicleAgent::new();
    assert!(c.is_empty());
    c.put(key("users", "alice"), version("v1", 0), 0);
    assert!(!c.is_empty());
}

#[test]
fn warm_demotion_candidates_most_idle_first() {
    let mut c = ChronicleAgent::new();
    c.put(key("ns", "a"), version("a", 0), 0);
    c.put(key("ns", "b"), version("b", 0), 5 * HOUR_NANOS + HOUR_NANOS / 2);
    c.put(key("ns", "c"), version("c", 0), 2 * HOUR_NANOS);
    let now = 6 * HOUR_NANOS + 1;
    assert_eq!(c.find_demotion_candidates(10, now), vec!["a", "c"]);
    assert_eq!(c.find_demotion_candidates(1, now), vec!["a"]);
}

#[test]
fn test_new_archive_agent() {
    let a = ArchiveAgent::new(0);
    assert_eq!(a.current_epoch(), 0);
    assert_eq!(a.epoch_count(), 1);
}

fn distinction(id: &str, k: &str, refs: usize) -> (String, FullKey, VersionedValue, usize) {
    (id.to_string(), key("ns", k), version(id, 0), refs)
}

#[test]
fn test_consolidate() {
    let mut a = ArchiveAgent::new(0);
    let result = a.consolidate(vec![distinction("v1", "k1", 5), distinction("v2", "k2", 1), distinction("v3", "k3", 3)]);
    assert_eq!(result.kept, 2);
    assert_eq!(result.archived, 1);
    let stats = a.stats();
    assert_eq!(stats.consolidations, 1);
    assert_eq!(stats.archives, 1);
    let (k, data_ref) = a.get("v3").unwrap();
    assert_eq!(k.key, "k3");
    assert_eq!(data_ref, "epoch_0/data_v3");
}

#[test]
fn cold_test_contains() {
    let mut a = ArchiveAgent::new(0);
    a.consolidate(vec![distinction("v1", "k1", 5)]);
    assert!(a.contains("v1"));
    assert!(!a.contains("v2"));
}

#[test]
fn test_rotate_epoch() {
    let mut a = ArchiveAgent::new(0);
    assert_eq!(a.current_epoch(), 0);
    a.rotate_epoch(1);
    assert_eq!(a.current_epoch(), 1);
    assert_eq!(a.epoch_count(), 2);
    a.rotate_epoch(2);
    assert_eq!(a.current_epoch(), 2);
    assert_eq!(a.epoch_count(), 3);
}

#[test]
fn test_epoch_limit() {
    let cfg = ArchiveConfig { epoch_count: 3, epoch_duration: 86_400_000_000_000, max_distinctions_per_epoch: 100_000, fitness_threshold: 2 };
    let mut a = ArchiveAgent::with_config(cfg, 0);
    for i in 0..5 {
        a.rotate_epoch(i);
    }
    assert_eq!(a.epoch_count(), 3);
    assert_eq!(a.current_epoch(), 5);
}

#[test]
fn test_total_distinctions() {
    let mut a = ArchiveAgent::new(0);
    a.consolidate(vec![distinction("v1", "k1", 5), distinction("v2", "k2", 3)]);
    assert_eq!(a.total_distinctions(), 2);
    a.rotate_epoch(10);
    a.consolidate(vec![distinction("v3", "k3", 9)]);
    assert_eq!(a.total_distinctions(), 3);
    // The newest epoch is searched first.
    assert_eq!(a.get("v3").unwrap().1, "epoch_1/data_v3");
}

#[test]
fn cold_test_custom_config() {
    let cfg = ArchiveConfig { epoch_count: 10, epoch_duration: 6 * 3_600_000_000_000, max_distinctions_per_epoch: 50_000, fitness_threshold: 5 };
    let mut a = ArchiveAgent::with_config(cfg, 0);
    let result = a.consolidate(vec![distinction("v1", "k1", 3), distinction("v2", "k2", 5)]);
    assert_eq!(result.kept, 1);
    assert_eq!(result.archived, 1);
}

#[test]
fn cold_compression_counted_when_full() {
    let cfg = ArchiveConfig { epoch_count: 3, epoch_duration: 1, max_distinctions_per_epoch: 2, fitness_threshold: 0 };
    let mut a = ArchiveAgent::with_config(cfg, 0);
    a.consolidate(vec![distinction("v1", "k1", 0)]);
    assert_eq!(a.stats().compressions, 0);
    a.consolidate(vec![distinction("v2", "k2", 0)]);
    assert_eq!(a.stats().compressions, 1);
}

#[test]
fn cold_compress_old_epochs_counts_full_past_epochs() {
    let cfg = ArchiveConfig { epoch_count: 5, epoch_duration: 1, max_distinctions_per_epoch: 2, fitness_threshold: 0 };
    let mut a = ArchiveAgent::with_config(cfg, 0);
    a.consolidate(vec![distinction("v1", "k1", 0), distinction("v2", "k2", 0)]);
    assert_eq!(a.stats().compressions, 1);
    a.rotate_epoch(1);
    a.consolidate(vec![distinction("v3", "k3", 0)]);
    a.rotate_epoch(2);
    a.consolidate(vec![distinction("v4", "k4", 0), distinction("v5", "k5", 0)]);
    assert_eq!(a.stats().compressions, 2);
    // Epochs 0 and 1 lie before the current one; only epoch 0 is full.
    a.compress_old_epochs();
    assert_eq!(a.stats().compressions, 3);
    a.compress_old_epochs();
    assert_eq!(a.stats().compressions, 4);
    assert_eq!(a.stats().consolidations, 3);
}

#[test]
fn test_new_sleep_agent() {
    let s = SleepAgent::new();
    assert_eq!(s.phase(), SleepPhase::Awake);
    assert_eq!(s.cycle_count(), 0);
}

#[test]
fn test_phase_transitions() {
    let mut s = SleepAgent::new();
    s.enter_phase(SleepPhase::LightSleep);
    assert_eq!(s.phase(), SleepPhase::LightSleep);
    s.enter_phase(SleepPhase::DeepSleep);
    assert_eq!(s.phase(), SleepPhase::DeepSleep);
    s.enter_phase(SleepPhase::Rem);
    assert_eq!(s.phase(), SleepPhase::Rem);
    s.wake();
    assert_eq!(s.phase(), SleepPhase::Awake);
}

#[test]
fn test_handle_hot_eviction() {
    let mut s = SleepAgent::new();
    let mut warm = ChronicleAgent::new();
    let k = key("ns", "key1");
    s.handle_hot_eviction(&mut warm, k.clone(), version("v1", 0), 0);
    assert!(warm.contains_key(&k));
    assert_eq!(s.stats().hot_to_warm, 1);
}

#[test]
fn test_consolidation_stats() {
    let mut s = SleepAgent::new();
    let mut warm = ChronicleAgent::new();
    for i in 0..5 {
        s.handle_hot_eviction(&mut warm, key("ns", &format!("key{}", i)), version(&format!("v{}", i), 0), 0);
    }
    assert_eq!(s.stats().hot_to_warm, 5);
}

#[test]
fn consolidation_test_config() {
    let cfg = SleepConfig { interval_secs: 600, batch_size: 50, demotion_idle_threshold_secs: 600, consolidation_ratio: 0.5f64.to_bits() };
    let s = SleepAgent::with_config(cfg);
    assert_eq!(s.interval(), 600);
}

#[test]
fn test_run_cycle() {
    let mut s = SleepAgent::new();
    let mut warm = ChronicleAgent::new();
    let mut cold = ArchiveAgent::new(0);
    warm.put(key("ns", "old"), version("old", 0), 0);
    s.run_cycle(&mut warm, &mut cold, 2 * HOUR_NANOS);
    assert_eq!(s.cycle_count(), 1);
    assert_eq!(s.phase(), SleepPhase::Awake);
    // Nothing reaches cold memory: warm memory holds no values to move.
    assert_eq!(s.stats().warm_to_cold, 0);
    assert_eq!(cold.total_distinctions(), 0);
    // The idle entry was looked up, which counts a hit.
    assert_eq!(warm.stats().hits, 1);
}

#[test]
fn sleep_promotes_recent_into_hot() {
    let s = SleepAgent::new();
    let mut warm = ChronicleAgent::new();
    let mut hot = HotMemory::new();
    warm.put(key("ns", "a"), version("a", 0), 0);
    warm.put(key("ns", "b"), version("b", 0), 1);
    assert_eq!(s.promote_to_hot(&warm, &mut hot, 0, 5, 3), 2);
    assert!(hot.contains_id("a") && hot.contains_id("b"));
}

#[test]
fn warm_test_backward_compatible_aliases() {
    let _warm_memory: WarmMemory = ChronicleAgent::new();
    let config: WarmConfig = ChronicleConfig::default();
    let agent = ChronicleAgent::with_config(config);
    let _stats: WarmStats = agent.stats();
}

#[test]
fn test_dream() {
    let mut sleep = SleepAgent::new();
    sleep.enter_phase(SleepPhase::Rem);
    sleep.dream();
    assert_eq!(sleep.phase(), SleepPhase::Rem);
}

#[test]
fn consolidation_test_backward_compatible_aliases() {
    let _consolidation: ConsolidationProcess = SleepAgent::new();
    let _config: ConsolidationConfig = SleepConfig::default();
}

#[test]
fn consolidate_warm_to_cold_refreshes_idle_entries() {
    let mut sleep = SleepAgent::new();
    let mut warm = ChronicleAgent::new();
    let mut cold = ArchiveAgent::new(0);
    warm.put(key("ns", "a"), version("v1", 0), 0);
    warm.put(key("ns", "b"), version("v2", 0), 10);
    let later = 2 * HOUR_NANOS;
    assert_eq!(warm.find_demotion_candidates(10, later), vec!["v1".to_string(), "v2".to_string()]);
    let result = sleep.consolidate_warm_to_cold(&mut warm, &mut cold, &vec![], later);
    assert_eq!(result.distinctions_moved, 0);
    assert_eq!(result.distinctions_failed, 0);
    assert_eq!(sleep.phase(), SleepPhase::DeepSleep);
    // Both idle entries were looked up: one hit each, and neither is idle any more.
    assert_eq!(warm.stats().hits, 2);
    assert!(warm.find_demotion_candidates(10, later).is_empty());
    assert_eq!(warm.len(), 2);
    assert_eq!(cold.total_distinctions(), 0);
}

#[test]
fn cold_get_by_key_prefers_newest_epoch() {
    let mut a = ArchiveAgent::new(0);
    a.consolidate(vec![distinction("v1", "k1", 5)]);
    a.rotate_epoch(10);
    a.consolidate(vec![distinction("v2", "k1", 5), distinction("v3", "k3", 5)]);
    assert_eq!(a.get_by_key(&key("ns", "k1")), Some("v2".to_string()));
    assert_eq!(a.get_by_key(&key("ns", "k3")), Some("v3".to_string()));
    assert_eq!(a.get_by_key(&key("ns", "zz")), None);
    assert_eq!(a.get_by_key(&key("other", "k1")), None);
}
