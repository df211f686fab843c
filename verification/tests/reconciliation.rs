use koru_delta::reconciliation::bloom::BloomFilter;
use koru_delta::reconciliation::merkle::MerkleTree;
use koru_delta::reconciliation::{find_missing, ReconciliationAgent, SyncStrategy};
use koru_delta::reconciliation::world::{SyncResult, World, WorldReconciliation};

#[test]
fn mod_test_find_missing() {
    let local = vec!["a".to_string(), "b".to_string(), "c".to_string()];
    let remote = vec!["a".to_string(), "b".to_string()];

    let missing = find_missing(&local, &remote);
    assert_eq!(missing, vec!["c"]);
}

#[test]
fn find_missing_keeps_order_and_duplicates() {
    let local = vec!["z".to_string(), "a".to_string(), "z".to_string(), "b".to_string()];
    let remote = vec!["b".to_string()];
    assert_eq!(find_missing(&local, &remote), vec!["z", "a", "z"]);
    assert!(find_missing(&[], &remote).is_empty());
}

#[test]
fn test_world_creation() {
    let mut world = World::new("test".to_string());
    world.add("a".to_string());
    world.add_with_parent("b".to_string(), "a".to_string());
    world.add_with_parent("c".to_string(), "b".to_string());

    assert_eq!(world.frontier(), vec!["c"]);
    assert_eq!(world.graph.node_count(), 3);
}

#[test]
fn world_branches_have_two_leaves() {
    let mut world = World::new("w".to_string());
    world.add("a".to_string());
    world.add_with_parent("b".to_string(), "a".to_string());
    world.add_with_parent("c".to_string(), "a".to_string());
    world.add("a".to_string());
    assert_eq!(world.frontier(), vec!["b", "c"]);
    assert_eq!(world.graph.node_count(), 3);
    assert!(world.graph.contains("c"));
    assert!(!world.graph.contains("d"));
}

fn chain(names: &[&str]) -> koru_delta::causal_graph::CausalGraph {
    let mut w = koru_delta::reconciliation::world::World::new("w".to_string());
    w.add(names[0].to_string());
    for pair in names.windows(2) {
        w.add_with_parent(pair[1].to_string(), pair[0].to_string());
    }
    w.graph
}

#[test]
fn test_exchange_roots() {
    let reconciler = koru_delta::reconciliation::world::WorldReconciliation::new(chain(&["a", "b"]));
    assert_eq!(reconciler.exchange_roots(), vec!["b"]);
}

#[test]
fn test_find_divergence() {
    let reconciler = koru_delta::reconciliation::world::WorldReconciliation::new(chain(&["a", "b", "c"]));
    assert_eq!(reconciler.find_divergence(&["b".to_string()]), Some("b".to_string()));
    assert_eq!(reconciler.find_divergence(&["zzz".to_string()]), None);
}

#[test]
fn world_test_find_missing() {
    let reconciler = koru_delta::reconciliation::world::WorldReconciliation::new(chain(&["a", "b", "c"]));
    let missing = reconciler.find_missing(&["b".to_string()]);
    assert_eq!(missing, vec!["c".to_string()]);
    // No divergence: everything we hold is missing remotely.
    let mut all = reconciler.find_missing(&["x".to_string()]);
    all.sort();
    assert_eq!(all, vec!["a", "b", "c"]);
}

#[test]
fn test_merge_graphs() {
    let mut reconciler = koru_delta::reconciliation::world::WorldReconciliation::new(chain(&["a", "b"]));
    let result = reconciler.merge_graphs(&chain(&["a", "c"]));
    assert_eq!(result.added, 1);
    assert_eq!(result.common, 1);
    assert_eq!(reconciler.graph().node_count(), 3);
    let mut leaves = reconciler.exchange_roots();
    leaves.sort();
    assert_eq!(leaves, vec!["b", "c"]);
}

#[test]
fn test_sync_result() {
    let result = SyncResult::empty();
    assert!(result.is_perfect());
    assert_eq!(result.total_transferred(), 0);
    let result = SyncResult { sent: vec!["a".to_string()], received: vec!["b".to_string()], conflicts: vec![], node_count: 4 };
    assert!(!result.is_perfect());
    assert_eq!(result.total_transferred(), 2);
}

#[test]
fn sync_round_trip_between_worlds() {
    let mut ours = WorldReconciliation::new(chain(&["a", "b", "c"]));
    let theirs = WorldReconciliation::new(chain(&["a", "b"]));
    let data = theirs.prepare_sync(&ours.exchange_roots());
    assert_eq!(data.missing_count, data.distinctions_to_send.len());
    let res = ours.reconcile(&data).unwrap();
    assert_eq!(res.sent, vec!["c".to_string()]);
    assert_eq!(ours.stats().syncs_performed, 1);
    assert_eq!(ours.stats().total_sent, 1);
}

#[test]
fn graph_ancestors_and_descendants_are_transitive() {
    let g = chain(&["a", "b", "c", "d"]);
    let mut anc = g.ancestors("d");
    anc.sort();
    assert_eq!(anc, vec!["a", "b", "c"]);
    let mut desc = g.descendants("b");
    desc.sort();
    assert_eq!(desc, vec!["c", "d"]);
    assert!(g.ancestors("a").is_empty());
    assert_eq!(g.roots(), vec!["a"]);
    assert_eq!(g.all_nodes(), vec!["a", "b", "c", "d"]);
}

/// Bloom filter dimensions for `n` items at false-positive rate `p`.
fn bloom_dims(n: usize, p: f64) -> (usize, usize) {
    let m = ((-1.0 * n as f64 * p.ln()) / (2.0_f64.ln().powi(2))).ceil() as usize;
    let k = ((m as f64 / n as f64) * 2.0_f64.ln()).ceil() as usize;
    (m.max(1), k.max(1))
}

#[test]
fn test_manager_basic() {
    let mut manager = ReconciliationAgent::new();
    assert!(manager.is_empty());

    manager.add_local_distinction("dist_1".to_string());
    assert_eq!(manager.len(), 1);
    assert!(manager.has_distinction("dist_1"));

    manager.add_local_distinction("dist_2".to_string());
    assert_eq!(manager.len(), 2);
}

#[test]
fn agent_holds_each_distinction_once() {
    let mut manager = ReconciliationAgent::with_strategy(SyncStrategy::Hybrid { threshold: 10 });
    manager.add_local_distinctions(vec!["a".to_string(), "b".to_string(), "a".to_string()]);
    assert_eq!(manager.len(), 2);
    assert!(manager.remove_local_distinction("a"));
    assert!(!manager.remove_local_distinction("a"));
    assert_eq!(manager.distinctions(), vec!["b".to_string()]);
    manager.clear();
    assert!(manager.is_empty());
}

#[test]
fn test_merkle_root() {
    let mut manager = ReconciliationAgent::new();
    let root1 = manager.merkle_root();
    assert_eq!(root1, [0; 32]);

    manager.add_local_distinction("test".to_string());
    let root2 = manager.merkle_root();
    assert_ne!(root2, root1);
}

#[test]
fn test_deterministic_root() {
    let mut manager1 = ReconciliationAgent::new();
    let mut manager2 = ReconciliationAgent::new();
    for i in 0..10 {
        manager1.add_local_distinction(format!("dist_{}", i));
        manager2.add_local_distinction(format!("dist_{}", 9 - i));
    }
    assert_eq!(manager1.merkle_root(), manager2.merkle_root());
}

#[test]
fn test_bloom_filter() {
    let mut manager = ReconciliationAgent::new();
    for i in 0..100 {
        manager.add_local_distinction(format!("dist_{}", i));
    }
    let (m, k) = bloom_dims(100, 0.01);
    let filter = manager.bloom_filter(m, k);
    for i in 0..100 {
        assert!(filter.might_contain(&format!("dist_{}", i)));
    }
}

#[test]
fn agent_compares_roots_and_trees() {
    let mut a = ReconciliationAgent::new();
    let mut b = ReconciliationAgent::new();
    a.add_local_distinctions(vec!["x".to_string(), "y".to_string()]);
    b.add_local_distinctions(vec!["y".to_string(), "x".to_string()]);
    let root_b = b.merkle_root();
    assert_eq!(a.compare_merkle_root(&root_b), Some(vec![]));

    b.add_local_distinction("z".to_string());
    let root_b = b.merkle_root();
    assert_eq!(a.compare_merkle_root(&root_b), None);

    let empty = MerkleTree::from_distinctions(&[]);
    let mut missing = a.find_missing_with_tree(&empty);
    missing.sort();
    assert_eq!(missing, vec!["x".to_string(), "y".to_string()]);
    let tree_b = b.merkle_tree().unwrap();
    assert_eq!(tree_b.size(), 3);
}

#[test]
fn agent_finds_missing_with_bloom_and_graph() {
    let mut a = ReconciliationAgent::new();
    a.add_local_distinctions(vec!["p".to_string(), "q".to_string()]);
    let mut remote = BloomFilter::with_dimensions(1024, 3);
    remote.insert("p");
    assert_eq!(a.find_missing_with_bloom(&remote), vec!["q".to_string()]);

    let mut graph = koru_delta::causal_graph::CausalGraph::new();
    graph.add_node("q".to_string());
    assert_eq!(a.reconcile_with_graph(&graph), vec!["p".to_string()]);
}
