use koru_delta::causal_graph::CausalGraph;
use koru_delta::memory::deep::DeepMemory;
use koru_delta::processes::genome_update::{GenomeUpdateConfig, GenomeUpdateProcess};

const DAY: i64 = 86_400_000_000_000;

#[test]
fn genome_update_test_config() {
    let config = GenomeUpdateConfig {
        interval_secs: 3600,
        max_genomes: 10,
        auto_cleanup: false,
    };
    let process = GenomeUpdateProcess::with_config(config);

    assert_eq!(process.interval(), 3600);
    assert_eq!(process.max_genomes(), 10);
}


#[test]
fn test_update() {
    let mut process = GenomeUpdateProcess::new();
    let mut deep = DeepMemory::new();
    let mut causal_graph = CausalGraph::new();
    causal_graph.add_node("root".to_string());

    let genome = process.update(&mut deep, &causal_graph, 0, 100, DAY);

    assert!(genome.is_some());
    assert_eq!(deep.genome_count(), 1);
    assert_eq!(process.stats().updates_performed, 1);
}

#[test]
fn test_restore_latest() {
    let mut process = GenomeUpdateProcess::new();
    let mut deep = DeepMemory::new();
    let mut causal_graph = CausalGraph::new();
    causal_graph.add_node("root".to_string());

    process.update(&mut deep, &causal_graph, 0, 100, DAY);

    let result = process.restore_latest(&mut deep);
    assert!(result.is_some());
    assert_eq!(result.unwrap().distinctions_restored, 100);
}

#[test]
fn restore_latest_of_empty_memory_is_none() {
    let process = GenomeUpdateProcess::new();
    let mut deep = DeepMemory::new();
    assert!(process.restore_latest(&mut deep).is_none());
    assert!(process.restore(&mut deep, "genome_0").is_none());
}

#[test]
fn test_cleanup() {
    let config = GenomeUpdateConfig { interval_secs: 86400, max_genomes: 3, auto_cleanup: true };
    let mut process = GenomeUpdateProcess::with_config(config);
    let mut deep = DeepMemory::new();
    let mut causal_graph = CausalGraph::new();
    causal_graph.add_node("root".to_string());

    for i in 0..5 {
        process.update(&mut deep, &causal_graph, i, 100, DAY + (i as i64) * 10_000_000);
    }

    assert_eq!(deep.genome_count(), 3);
    assert!(process.stats().cleanups_performed > 0);
    assert_eq!(process.stats().cleanups_performed, 2);
    // The two oldest went.
    assert!(deep.get_genome(&format!("genome_{}", DAY)).is_none());
    assert!(deep.get_genome(&format!("genome_{}", DAY + 10_000_000)).is_none());
    assert!(deep.get_genome(&format!("genome_{}", DAY + 40_000_000)).is_some());
}

#[test]
fn cleanup_disabled_keeps_everything() {
    let config = GenomeUpdateConfig { interval_secs: 60, max_genomes: 1, auto_cleanup: false };
    let mut process = GenomeUpdateProcess::with_config(config);
    let mut deep = DeepMemory::new();
    let causal_graph = CausalGraph::new();
    process.update(&mut deep, &causal_graph, 0, 1, DAY);
    process.update(&mut deep, &causal_graph, 1, 1, 2 * DAY);
    assert_eq!(deep.genome_count(), 2);
    assert_eq!(process.stats().cleanups_performed, 0);
}

#[test]
fn genome_update_test_stats() {
    let mut process = GenomeUpdateProcess::new();
    let mut deep = DeepMemory::new();
    let mut causal_graph = CausalGraph::new();
    causal_graph.add_node("root".to_string());

    for i in 0..3 {
        process.update(&mut deep, &causal_graph, 0, 100, DAY + i);
    }

    let stats = process.stats();
    assert_eq!(stats.updates_performed, 3);
}

#[test]
fn process_extracts_minimal_genome() {
    let process = GenomeUpdateProcess::new();
    let genome = process.extract_genome(DAY);
    assert_eq!(genome.version, 1);
    assert!(genome.roots.is_empty());
    assert_eq!(genome.epoch_summary.start_time, DAY);
}

#[test]
fn update_with_cleanup_counts_removed_genomes() {
    let config = GenomeUpdateConfig { interval_secs: 60, max_genomes: 2, auto_cleanup: true };
    let mut process = GenomeUpdateProcess::with_config(config);
    let mut deep = DeepMemory::new();
    let causal_graph = CausalGraph::new();
    for i in 0..5 {
        process.update(&mut deep, &causal_graph, 0, 1, DAY + i * 1_000);
    }
    assert_eq!(deep.genome_count(), 2);
    let stats = process.stats();
    assert_eq!(stats.updates_performed, 5);
    assert_eq!(stats.cleanups_performed, 3);
}
