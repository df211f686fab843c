use koru_delta::causal_graph::CausalGraph;
use koru_delta::memory::deep::{DeepConfig, DeepMemory};

const DAY: i64 = 86_400_000_000_000;

#[test]
fn test_new_deep_memory() {
    let deep = DeepMemory::new();
    assert_eq!(deep.genome_count(), 0);
    assert_eq!(deep.archive_count(), 0);
}

#[test]
fn test_extract_genome() {
    let mut deep = DeepMemory::new();
    let mut causal_graph = CausalGraph::new();
    causal_graph.add_node("root1".to_string());
    causal_graph.add_node("root2".to_string());

    let genome = deep.extract_genome(&causal_graph, 5, 1000, 10 * DAY);

    assert_eq!(genome.version, 1);
    assert_eq!(genome.epoch_summary.epoch_number, 5);
    assert_eq!(genome.epoch_summary.distinction_count, 1000);
    assert_eq!(genome.epoch_summary.start_time, 9 * DAY);
    assert_eq!(genome.epoch_summary.end_time, 10 * DAY);
    assert_eq!(genome.roots.len(), 2);

    assert_eq!(deep.genome_count(), 1);
    let stats = deep.stats();
    assert_eq!(stats.genomes_created, 1);
}

#[test]
fn extract_genome_keeps_only_roots() {
    let mut deep = DeepMemory::new();
    let mut causal_graph = CausalGraph::new();
    causal_graph.add_node("a".to_string());
    causal_graph.add_node("b".to_string());
    causal_graph.add_edge("a".to_string(), "b".to_string());
    let genome = deep.extract_genome(&causal_graph, 0, 2, DAY);
    assert_eq!(genome.roots, vec!["a".to_string()]);
    assert!(deep.get_genome(&format!("genome_{}", DAY)).is_some());
}

#[test]
fn test_express_genome() {
    let mut deep = DeepMemory::new();
    let mut causal_graph = CausalGraph::new();
    causal_graph.add_node("root".to_string());

    let genome = deep.extract_genome(&causal_graph, 0, 100, DAY);
    let result = deep.express_genome(&genome);

    assert_eq!(result.distinctions_restored, 100);
    assert_eq!(result.roots_restored, 1);
    assert_eq!(result.patterns_restored, 0);

    let stats = deep.stats();
    assert_eq!(stats.restorations, 1);
}

#[test]
fn test_archive_epoch() {
    let mut deep = DeepMemory::new();
    deep.archive_epoch("epoch_0".to_string(), 50000, 1024 * 1024, DAY);
    deep.archive_epoch("epoch_1".to_string(), 60000, 2 * 1024 * 1024, 2 * DAY);
    assert_eq!(deep.archive_count(), 2);
    assert_eq!(deep.total_archive_size(), 3 * 1024 * 1024);
}

#[test]
fn archive_epoch_replaces_same_id() {
    let mut deep = DeepMemory::new();
    deep.archive_epoch("epoch_0".to_string(), 1, 10, DAY);
    deep.archive_epoch("epoch_0".to_string(), 1, 30, DAY);
    assert_eq!(deep.archive_count(), 1);
    assert_eq!(deep.total_archive_size(), 30);
}

#[test]
fn test_get_latest_genome() {
    let mut deep = DeepMemory::new();
    let mut causal_graph = CausalGraph::new();
    causal_graph.add_node("root".to_string());

    let _g1 = deep.extract_genome(&causal_graph, 1, 100, DAY);
    let _g2 = deep.extract_genome(&causal_graph, 2, 200, DAY + 10_000_000);

    let latest = deep.latest_genome().unwrap();
    assert_eq!(latest.epoch_summary.epoch_number, 2);
    assert_eq!(latest.epoch_summary.distinction_count, 200);
}

#[test]
fn latest_genome_of_empty_memory_is_none() {
    let deep = DeepMemory::new();
    assert!(deep.latest_genome().is_none());
}

#[test]
fn deep_test_custom_config() {
    let config = DeepConfig { genome_update_interval_secs: 3600, max_roots: 50, max_patterns: 500 };
    let mut deep = DeepMemory::with_config(config);
    let causal_graph = CausalGraph::new();
    let genome = deep.extract_genome(&causal_graph, 0, 100, DAY);
    assert_eq!(genome.version, 1);
    assert!(deep.genome_count() > 0);
    assert_eq!(deep.config().max_roots, 50);
}

#[test]
fn deep_test_stats() {
    let mut deep = DeepMemory::new();
    let mut causal_graph = CausalGraph::new();
    causal_graph.add_node("root".to_string());

    deep.extract_genome(&causal_graph, 0, 100, DAY);
    deep.archive_epoch("epoch_0".to_string(), 50000, 1024 * 1024, DAY);

    let stats = deep.stats();
    assert_eq!(stats.genomes_created, 1);
    assert_eq!(stats.genome_count, 1);
    assert_eq!(stats.archive_count, 1);
    assert_eq!(stats.total_archive_size, 1024 * 1024);
}
