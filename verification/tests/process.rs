use koru_delta::network_process::{NetworkContent, NetworkProcess, SynthesisContext};

fn create(node: &str) -> NetworkProcess {
    NetworkProcess::new(node.to_string(), "127.0.0.1:7878".to_string(), "net-root".to_string(), format!("net-root+{}", node))
}

/// Synthesize content the way the process's owner does: take a context, form
/// a new root ID from the local root and the sequence number, record it.
fn synthesize(p: &mut NetworkProcess, now: i64) -> (String, SynthesisContext) {
    let ctx = p.next_context(now);
    let root = format!("{}>{}", p.local_root(), ctx.sequence);
    p.record_synthesis(root.clone());
    (root, ctx)
}

#[test]
fn test_process_creation() {
    let p = create("node-1");
    assert_ne!(p.local_root(), *p.network_root());
    let stats = p.stats();
    assert_eq!(stats.distinctions_synthesized, 0);
    assert_eq!(stats.propagations_observed, 0);
}

#[test]
fn test_synthesis_sequence_increments() {
    let mut p = create("node-1");
    let (_, c1) = synthesize(&mut p, 1);
    let (_, c2) = synthesize(&mut p, 2);
    assert_eq!(c1.sequence, 0);
    assert_eq!(c2.sequence, 1);
    assert_eq!(p.stats().distinctions_synthesized, 2);
}

#[test]
fn test_observation_tracks_propagations() {
    let mut p = create("node-1");
    for i in 0..3 {
        p.observe(format!("observed-{}", i));
    }
    assert_eq!(p.stats().propagations_observed, 3);
}

#[test]
fn test_peer_presence_synthesis() {
    let mut p = create("node-1");
    match p.presence_content() {
        NetworkContent::PeerPresence { node_id, address } => {
            assert_eq!(&node_id, p.node_id());
            assert_eq!(&address, p.bind_addr());
        }
        other => panic!("unexpected content {:?}", other),
    }
    let (_, ctx) = synthesize(&mut p, 1);
    assert_eq!(ctx.sequence, 0);
}

#[test]
fn test_causal_parents_tracked() {
    let mut p = create("node-1");
    let initial = p.local_root();
    let (root1, c1) = synthesize(&mut p, 1);
    let (_, c2) = synthesize(&mut p, 2);
    assert!(c1.causal_parents.contains(&initial));
    assert!(c2.causal_parents.contains(&root1));
}

#[test]
fn test_large_sequence_numbers() {
    let mut p = create("node-1");
    for i in 0..1000u64 {
        let (_, ctx) = synthesize(&mut p, i as i64);
        assert_eq!(ctx.sequence, i);
    }
    let stats = p.stats();
    assert_eq!(stats.distinctions_synthesized, 1000);
    assert_eq!(stats.current_sequence, 1000);
}

#[test]
fn test_network_root_constant() {
    let p1 = create("node-1");
    let p2 = create("node-2");
    assert_eq!(p1.network_root(), p2.network_root());
}

#[test]
fn test_local_roots_differ() {
    let p1 = create("node-1");
    let p2 = create("node-2");
    assert_ne!(p1.local_root(), p2.local_root());
}

#[test]
fn topology_lists_this_node_only() {
    let mut p = create("node-1");
    synthesize(&mut p, 1);
    let t = p.discover_topology();
    assert_eq!(t.nodes.len(), 1);
    assert_eq!(t.nodes[0].node_id, "node-1");
    assert_eq!(t.nodes[0].address.as_deref(), Some("127.0.0.1:7878"));
    assert_eq!(t.nodes[0].last_sequence, 1);
    assert_eq!(t.nodes[0].distinction_count, 1);
    assert!(t.connections.is_empty() && t.shared_distinctions.is_empty());
    assert_eq!(p.find_active_peers().len(), 1);
    assert!(p.is_reachable("anyone"));
}
