use koru_delta::lifecycle::access_tracker::AccessTracker;
use koru_delta::types::FullKey;

const HOUR: i64 = 3_600_000_000_000;
// 2023-11-14T22:13:20Z, a Tuesday.
const NOW: i64 = 1_700_000_000_000_000_000;

fn key(ns: &str, k: &str) -> FullKey {
    FullKey::new(ns.to_string(), k.to_string())
}

#[test]
fn test_access_tracker_new() {
    let tracker = AccessTracker::new();
    assert!(tracker.is_empty());
    assert_eq!(tracker.len(), 0);
}

#[test]
fn test_record_access() {
    let mut tracker = AccessTracker::new();
    let id = "dist1".to_string();
    tracker.record_access(key("test", "key1"), id.clone(), NOW);

    assert_eq!(tracker.len(), 1);
    let pattern = tracker.get_pattern(&id).unwrap();
    assert_eq!(pattern.access_count, 1);
    assert!(pattern.last_accessed.is_some());
    assert!(pattern.first_accessed.is_some());
    assert_eq!(pattern.hourly_counts[22], 1);
    assert_eq!(pattern.weekday_counts[1], 1);
}

#[test]
fn test_multiple_accesses() {
    let mut tracker = AccessTracker::new();
    let id = "dist1".to_string();
    for i in 0..5 {
        tracker.record_access(key("test", "key1"), id.clone(), NOW + i * 10_000_000_000);
    }
    let pattern = tracker.get_pattern(&id).unwrap();
    assert_eq!(pattern.access_count, 5);
    assert_eq!(pattern.first_accessed, Some(NOW));
    assert_eq!(pattern.last_accessed, Some(NOW + 40_000_000_000));
    // Four intervals of ten seconds.
    assert_eq!(pattern.interval_total_secs, 40);
}

#[test]
fn test_most_frequent() {
    let mut tracker = AccessTracker::new();
    for i in 0..5 {
        tracker.record_access(key("test", &format!("key{}", i)), "dist1".to_string(), NOW + i);
    }
    for i in 0..3 {
        tracker.record_access(key("test", &format!("key{}", i + 10)), "dist2".to_string(), NOW + 10 + i);
    }
    tracker.record_access(key("test", "key20"), "dist3".to_string(), NOW + 20);

    let most_frequent = tracker.most_frequent(2);
    assert_eq!(most_frequent.len(), 2);
    assert_eq!(most_frequent[0].0, "dist1");
    assert_eq!(most_frequent[0].1, 5);
    assert_eq!(most_frequent[1].0, "dist2");
}

#[test]
fn most_recent_orders_by_last_access() {
    let mut tracker = AccessTracker::new();
    tracker.record_access(key("t", "a"), "a".to_string(), NOW + 3);
    tracker.record_access(key("t", "b"), "b".to_string(), NOW + 9);
    tracker.record_access(key("t", "c"), "c".to_string(), NOW + 1);
    let recent = tracker.most_recent(10);
    assert_eq!(recent, vec![("b".to_string(), NOW + 9), ("a".to_string(), NOW + 3), ("c".to_string(), NOW + 1)]);
}

#[test]
fn test_peak_hour() {
    let mut tracker = AccessTracker::new();
    let id = "dist1".to_string();
    tracker.record_access(key("test", "key1"), id.clone(), NOW);
    let peak = tracker.peak_hour(&id);
    assert!(peak.is_some());
    assert_eq!(peak, Some(22));
    assert_eq!(tracker.peak_hour("other"), None);
}

#[test]
fn neighbours_are_recorded() {
    let mut tracker = AccessTracker::new();
    tracker.record_access(key("t", "a"), "a".to_string(), NOW);
    tracker.record_access(key("t", "b"), "b".to_string(), NOW + 1);
    tracker.record_access(key("t", "a"), "a".to_string(), NOW + 2);
    // "b" follows the first "a", and "a" precedes "b".
    assert_eq!(tracker.get_pattern("b").unwrap().predecessors, vec!["a".to_string()]);
    assert_eq!(tracker.get_pattern("a").unwrap().successors, vec!["b".to_string()]);
}

#[test]
fn distributions_and_hours() {
    let mut tracker = AccessTracker::new();
    tracker.record_access(key("t", "a"), "a".to_string(), NOW);
    tracker.record_access(key("t", "b"), "b".to_string(), NOW + 2 * HOUR);
    let dist = tracker.global_hourly_distribution();
    assert_eq!(dist[22], 1);
    assert_eq!(dist[0], 1);
    assert_eq!(tracker.accessed_at_hour(22), vec!["a".to_string()]);
    assert_eq!(tracker.accessed_at_hour(24), vec!["b".to_string()]);
}

#[test]
fn durations_are_summed() {
    let mut tracker = AccessTracker::new();
    tracker.record_access_with_duration(key("t", "a"), "a".to_string(), 30, NOW);
    tracker.record_access_with_duration(key("t", "a"), "a".to_string(), 50, NOW + 1);
    let pattern = tracker.get_pattern("a").unwrap();
    assert_eq!(pattern.total_duration_ms, 80);
    assert_eq!(pattern.avg_duration_ms(), 40);
}

#[test]
fn access_tracker_test_stats() {
    let mut tracker = AccessTracker::new();
    for i in 0..3 {
        tracker.record_access(key("test", &format!("key{}", i)), format!("dist{}", i), NOW + i);
    }
    for i in 0..3 {
        tracker.record_access(key("test", "key0"), "dist0".to_string(), NOW + 10 + i);
    }
    let stats = tracker.stats();
    assert_eq!(stats.unique_distinctions, 3);
    assert_eq!(stats.total_accesses, 6);
    assert_eq!(stats.total_accesses as f64 / stats.unique_distinctions as f64, 2.0);
}
