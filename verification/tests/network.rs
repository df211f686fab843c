use koru_delta::error::DeltaError;
use koru_delta::network::{frame_header, frame_length, PeerStatus, DEFAULT_PORT, MAX_MESSAGE_SIZE};
use koru_delta::network_agent::{action_for, NetworkAction, NetworkAgent, NetworkEvent};
use koru_delta::network_process::{CausalConnection, CausalDirection};

/// Record events the way the agent's owner does: synthesize each action into
/// a fresh root ID, and fold a joining peer into a fresh peers ID.
fn process(agent: &mut NetworkAgent, events: Vec<NetworkEvent>, next: &mut u32) -> usize {
    let mut count = 0;
    for e in events {
        let root = action_for(&e).map(|_| {
            *next += 1;
            format!("root-{}", next)
        });
        let peers = match e {
            NetworkEvent::PeerJoined { .. } => Some(format!("peers-{}", next)),
            _ => None,
        };
        agent.handle_event(&e, root, peers);
        count += 1;
    }
    count
}

fn create_test_agent() -> NetworkAgent {
    NetworkAgent::new("node-a".to_string(), "root-0".to_string())
}

fn joined(id: &str, port: u16) -> NetworkEvent {
    NetworkEvent::PeerJoined { node_id: id.to_string(), address: format!("127.0.0.1:{}", port) }
}

#[test]
fn test_network_agent_creation() {
    let agent = create_test_agent();
    assert!(!agent.local_root().is_empty());
    assert!(!agent.peers_distinction().is_empty());
    assert_eq!(agent.stats().current_peers, 0);
}

#[test]
fn test_peer_joined_event() {
    let mut agent = create_test_agent();
    let mut next = 0;
    let root_before = agent.local_root();
    process(&mut agent, vec![joined("peer-1", 8080)], &mut next);
    assert_ne!(agent.local_root(), root_before);
    assert_eq!(agent.stats().peers_joined, 1);
    assert!(agent.get_peer_distinction("peer-1").is_some());
    assert_eq!(agent.get_peer_distinction("peer-1"), Some(agent.local_root()));
}

#[test]
fn test_peer_left_event() {
    let mut agent = create_test_agent();
    let mut next = 0;
    process(&mut agent, vec![joined("peer-1", 8080)], &mut next);
    assert_eq!(agent.stats().current_peers, 1);
    process(&mut agent, vec![NetworkEvent::PeerLeft { node_id: "peer-1".to_string() }], &mut next);
    assert_eq!(agent.stats().peers_left, 1);
    assert_eq!(agent.stats().current_peers, 0);
    assert!(agent.get_peer_distinction("peer-1").is_none());
}

#[test]
fn test_sync_completed_event() {
    let mut agent = create_test_agent();
    let mut next = 0;
    let root_before = agent.local_root();
    process(&mut agent, vec![NetworkEvent::SyncCompleted { peer_id: "peer_123".to_string(), updates_count: 5 }], &mut next);
    assert_ne!(agent.local_root(), root_before);
    assert_eq!(agent.stats().syncs_completed, 1);
}

#[test]
fn test_message_received_event() {
    let mut agent = create_test_agent();
    let mut next = 0;
    process(
        &mut agent,
        vec![NetworkEvent::MessageReceived { from: "peer_123".to_string(), message_type: "WriteEvent".to_string() }],
        &mut next,
    );
    assert_eq!(agent.stats().messages_received, 1);
}

#[test]
fn test_gossip_exchanged_event() {
    let mut agent = create_test_agent();
    let mut next = 0;
    process(&mut agent, vec![NetworkEvent::GossipExchanged { peer_id: "peer_123".to_string(), their_peer_count: 3 }], &mut next);
    assert!(!agent.local_root().is_empty());
}

#[test]
fn test_self_joined_event() {
    let mut agent = create_test_agent();
    let mut next = 0;
    let root_before = agent.local_root();
    process(&mut agent, vec![NetworkEvent::SelfJoined { via_peer: "192.168.1.1:7878".to_string() }], &mut next);
    assert_ne!(agent.local_root(), root_before);
}

#[test]
fn test_process_multiple_events() {
    let mut agent = create_test_agent();
    let mut next = 0;
    let events: Vec<NetworkEvent> = (0..5).map(|i| joined(&format!("peer-{}", i), 8080 + i)).collect();
    let count = process(&mut agent, events, &mut next);
    assert_eq!(count, 5);
    assert_eq!(agent.stats().current_peers, 5);
}

#[test]
fn leaving_unknown_peers_and_empty_syncs_count_nothing() {
    let mut agent = create_test_agent();
    let mut next = 0;
    process(
        &mut agent,
        vec![
            NetworkEvent::PeerLeft { node_id: "ghost".to_string() },
            NetworkEvent::SyncCompleted { peer_id: "p".to_string(), updates_count: 0 },
            joined("p", 1),
            joined("p", 2),
        ],
        &mut next,
    );
    let stats = agent.stats();
    assert_eq!(stats.peers_left, 0);
    assert_eq!(stats.syncs_completed, 0);
    assert_eq!(stats.peers_joined, 2);
    assert_eq!(stats.current_peers, 1);
    assert_eq!(agent.peers_distinction(), format!("peers-{}", next));
    assert_eq!(agent.node_id(), "node-a");
}

#[test]
fn actions_follow_events() {
    let a = action_for(&NetworkEvent::PeerStatusChanged { node_id: "n1".to_string(), status: PeerStatus::Unreachable });
    assert!(matches!(a, Some(NetworkAction::Reconcile { ref difference_ids }) if difference_ids == &vec!["n1:Unreachable".to_string()]));
    assert!(action_for(&NetworkEvent::PeerLeft { node_id: "n1".to_string() }).is_none());
    let b = action_for(&joined("x", 9000));
    assert!(matches!(b, Some(NetworkAction::Join { ref peer_address }) if peer_address == "127.0.0.1:9000"));
}

#[test]
fn frames_carry_big_endian_lengths_up_to_the_maximum() {
    assert_eq!(frame_header(0x000A_0B0C).unwrap(), [0, 10, 11, 12]);
    assert_eq!(frame_length([0, 10, 11, 12]).unwrap(), 0x000A_0B0C);
    assert_eq!(frame_header(MAX_MESSAGE_SIZE).unwrap(), [1, 0, 0, 0]);
    match frame_header(MAX_MESSAGE_SIZE + 1) {
        Err(DeltaError::StorageError(m)) => assert_eq!(m, "Message too large: 16777217 bytes (max: 16777216)"),
        other => panic!("unexpected {:?}", other),
    }
    assert!(frame_length([1, 0, 0, 1]).is_err());
    assert_eq!(DEFAULT_PORT, 7878);
    let c = CausalConnection { from: "a".to_string(), to: "b".to_string(), shared_count: 2, direction: CausalDirection::AToB };
    assert_eq!(c.direction, CausalDirection::AToB);
}
