use koru_delta::causal_graph::CausalGraph;
use koru_delta::reference_graph::ReferenceGraph;

fn s(x: &str) -> String {
    x.to_string()
}

#[test]
fn test_add_node() {
    let mut graph = ReferenceGraph::new();
    graph.add_node(s("a"));
    assert!(graph.contains("a"));
    assert_eq!(graph.node_count(), 1);
}

#[test]
fn test_add_reference() {
    let mut graph = ReferenceGraph::new();
    graph.add_node(s("a"));
    graph.add_node(s("b"));
    graph.add_reference(s("a"), s("b"));

    assert_eq!(graph.references("a"), vec![s("b")]);
    assert_eq!(graph.referrers("b"), vec![s("a")]);
    assert_eq!(graph.reference_count("b"), 1);
    assert_eq!(graph.edge_count(), 1);
}

#[test]
fn test_reference_count_multiple() {
    let mut graph = ReferenceGraph::new();
    graph.add_node(s("a"));
    graph.add_node(s("b"));
    graph.add_node(s("c"));
    graph.add_reference(s("a"), s("c"));
    graph.add_reference(s("b"), s("c"));

    assert_eq!(graph.reference_count("c"), 2);
    assert_eq!(graph.reference_count("a"), 0);
}

#[test]
fn test_is_reachable() {
    let mut graph = ReferenceGraph::new();
    graph.add_node(s("a"));
    graph.add_node(s("b"));
    graph.add_node(s("c"));
    graph.add_reference(s("a"), s("b"));
    graph.add_reference(s("b"), s("c"));

    assert!(graph.is_reachable("a", &[s("a")]));
    assert!(graph.is_reachable("b", &[s("a")]));
    assert!(graph.is_reachable("c", &[s("a")]));
    assert!(!graph.is_reachable("a", &[s("b")]));
}

#[test]
fn reachability_follows_cycles_without_looping() {
    let mut graph = ReferenceGraph::new();
    for n in ["a", "b", "c"] {
        graph.add_node(s(n));
    }
    graph.add_reference(s("a"), s("b"));
    graph.add_reference(s("b"), s("a"));
    assert!(graph.is_reachable("a", &[s("b")]));
    assert!(!graph.is_reachable("c", &[s("a"), s("b")]));
}

#[test]
fn test_find_garbage() {
    let mut ref_graph = ReferenceGraph::new();
    let mut causal_graph = CausalGraph::new();

    causal_graph.add_node(s("root"));
    causal_graph.add_node(s("orphan"));
    causal_graph.add_node(s("current"));
    causal_graph.add_edge(s("root"), s("orphan"));
    causal_graph.add_edge(s("orphan"), s("current"));

    ref_graph.add_node(s("root"));
    ref_graph.add_node(s("orphan"));
    ref_graph.add_node(s("current"));
    ref_graph.add_reference(s("root"), s("current"));

    let garbage = ref_graph.find_garbage(&causal_graph);
    assert!(garbage.contains(&s("orphan")));
    assert!(!garbage.contains(&s("current")));
    assert!(!garbage.contains(&s("root")));
}

#[test]
fn test_find_hot_candidates() {
    let mut graph = ReferenceGraph::new();
    for n in ["a", "b", "c", "d"] {
        graph.add_node(s(n));
    }
    graph.add_reference(s("b"), s("a"));
    graph.add_reference(s("c"), s("a"));
    graph.add_reference(s("d"), s("a"));
    graph.add_reference(s("c"), s("b"));

    let hot = graph.find_hot_candidates(2);
    assert_eq!(hot, vec![s("a")]);
    let warm = graph.find_hot_candidates(1);
    assert_eq!(warm, vec![s("a"), s("b")]);
}

#[test]
fn test_remove() {
    let mut graph = ReferenceGraph::new();
    graph.add_node(s("a"));
    graph.add_node(s("b"));
    graph.add_reference(s("a"), s("b"));

    assert_eq!(graph.reference_count("b"), 1);

    graph.remove("a");

    assert!(!graph.contains("a"));
    assert_eq!(graph.reference_count("b"), 0);
    assert_eq!(graph.edge_count(), 0);
}

#[test]
fn remove_drops_references_into_the_node() {
    let mut graph = ReferenceGraph::new();
    for n in ["a", "b", "c"] {
        graph.add_node(s(n));
    }
    graph.add_reference(s("a"), s("b"));
    graph.add_reference(s("c"), s("b"));
    graph.add_reference(s("b"), s("c"));
    graph.remove("b");
    assert!(graph.references("a").is_empty());
    assert!(graph.references("c").is_empty());
    assert!(graph.referrers("c").is_empty());
    assert_eq!(graph.edge_count(), 0);
}
