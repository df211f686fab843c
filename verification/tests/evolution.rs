use koru_delta::causal_graph::CausalGraph;
use koru_delta::memory::cold::ArchiveAgent;
use koru_delta::memory::deep::DeepMemory;
use koru_delta::processes::distillation::{
    DistillationConfig, DistillationProcess, EvolutionAgent, EvolutionConfig,
};
use koru_delta::reference_graph::ReferenceGraph;

const DAY: i64 = 86_400_000_000_000;
const NOW: i64 = 1_700_000_000_000_000_000;

#[test]
fn test_calculate_fitness() {
    let evolution = EvolutionAgent::new();
    let mut ref_graph = ReferenceGraph::new();
    let mut causal_graph = CausalGraph::new();
    ref_graph.add_node("test".to_string());
    causal_graph.add_node("test".to_string());

    let fitness = evolution.calculate_fitness("test", &ref_graph, &causal_graph, NOW, NOW);

    assert_eq!(fitness.reference_count, 0);
    assert_eq!(fitness.total_score, 0);
}

#[test]
fn test_fitness_with_references() {
    let evolution = EvolutionAgent::new();
    let mut ref_graph = ReferenceGraph::new();
    let mut causal_graph = CausalGraph::new();
    ref_graph.add_node("test1".to_string());
    ref_graph.add_node("test2".to_string());
    ref_graph.add_reference("test2".to_string(), "test1".to_string());
    causal_graph.add_node("test1".to_string());

    let fitness = evolution.calculate_fitness("test1", &ref_graph, &causal_graph, NOW, NOW);

    assert_eq!(fitness.reference_count, 1);
    assert_eq!(fitness.total_score, 1);
}

#[test]
fn fitness_counts_descendants_with_bonus() {
    let config = EvolutionConfig { descendant_bonus: 3, ..EvolutionConfig::default() };
    let evolution = EvolutionAgent::with_config(config);
    let ref_graph = ReferenceGraph::new();
    let mut causal_graph = CausalGraph::new();
    for n in ["a", "b", "c"] {
        causal_graph.add_node(n.to_string());
    }
    causal_graph.add_edge("a".to_string(), "b".to_string());
    causal_graph.add_edge("b".to_string(), "c".to_string());
    let fitness = evolution.calculate_fitness("a", &ref_graph, &causal_graph, NOW, NOW);
    assert_eq!(fitness.descendant_count, 2);
    assert_eq!(fitness.total_score, 6);
}

#[test]
fn test_classify_distinctions() {
    let config = EvolutionConfig { fitness_threshold: 2, ..EvolutionConfig::default() };
    let mut evolution = EvolutionAgent::with_config(config);
    let mut ref_graph = ReferenceGraph::new();
    let mut causal_graph = CausalGraph::new();

    let distinctions = vec![("high_fit".to_string(), NOW), ("low_fit".to_string(), NOW)];

    for n in ["high_fit", "low_fit", "ref1", "ref2", "ref3"] {
        ref_graph.add_node(n.to_string());
    }
    ref_graph.add_reference("ref1".to_string(), "high_fit".to_string());
    ref_graph.add_reference("ref2".to_string(), "high_fit".to_string());
    ref_graph.add_reference("ref3".to_string(), "high_fit".to_string());
    causal_graph.add_node("high_fit".to_string());
    causal_graph.add_node("low_fit".to_string());

    let classification = evolution.classify_distinctions(&distinctions, &ref_graph, &causal_graph, NOW);

    assert_eq!(classification.fit.len(), 1);
    assert_eq!(classification.unfit.len(), 1);
    assert_eq!(classification.fit[0].distinction_id, "high_fit");
}

#[test]
fn test_age_penalty() {
    let evolution = EvolutionAgent::new();
    let mut ref_graph = ReferenceGraph::new();
    let mut causal_graph = CausalGraph::new();
    ref_graph.add_node("old".to_string());
    causal_graph.add_node("old".to_string());

    let old_timestamp = NOW - 30 * DAY;
    let fitness = evolution.calculate_fitness("old", &ref_graph, &causal_graph, old_timestamp, NOW);

    assert!(fitness.total_score < 0);
    // 30 - 7 = 23 days over the threshold.
    assert_eq!(fitness.total_score, -23);
    assert_eq!(fitness.age_days, 30);
}

#[test]
fn distillation_test_stats() {
    let mut evolution = EvolutionAgent::new();
    let mut ref_graph = ReferenceGraph::new();
    let mut causal_graph = CausalGraph::new();
    for i in 0..10 {
        let id = format!("test{}", i);
        ref_graph.add_node(id.clone());
        causal_graph.add_node(id);
    }
    let distinctions: Vec<_> = (0..10).map(|i| (format!("test{}", i), NOW)).collect();

    let _ = evolution.classify_distinctions(&distinctions, &ref_graph, &causal_graph, NOW);

    let stats = evolution.stats();
    assert_eq!(stats.distinctions_evaluated, 10);
}

#[test]
fn test_preserve_and_archive() {
    let mut evolution = EvolutionAgent::new();
    let fit = vec!["fit1".to_string(), "fit2".to_string()];
    let unfit = vec!["unfit1".to_string()];

    evolution.preserve(&fit);
    evolution.archive_unfit(&unfit);

    let stats = evolution.stats();
    assert_eq!(stats.distinctions_preserved, 2);
    assert_eq!(stats.distinctions_archived, 1);
}

#[test]
fn evolve_epoch_archives_the_epoch() {
    let mut evolution = EvolutionAgent::new();
    let cold = ArchiveAgent::new(0);
    let mut deep = DeepMemory::new();
    let result = evolution.evolve_epoch(&cold, &mut deep, 3, &ReferenceGraph::new(), &CausalGraph::new(), NOW);
    assert_eq!(result.distinctions_preserved, 0);
    assert_eq!(result.distinctions_archived, 0);
    assert_eq!(deep.archive_count(), 1);
    assert_eq!(evolution.fitness_threshold(), 2);
    assert_eq!(evolution.interval(), 3600);
}

#[test]
fn distillation_test_backward_compatible_aliases() {
    let _distillation: DistillationProcess = EvolutionAgent::new();
    let _config: DistillationConfig = EvolutionConfig::default();
}
