use koru_delta::orchestrator::{
    AgentCapability, AgentInfo, AgentRegistry, CoordinationPhase, KoruOrchestrator, PulseCoordinator,
};

fn agent(id: &str, name: &str, kind: &str, caps: Vec<AgentCapability>) -> AgentInfo {
    AgentInfo {
        id: id.to_string(),
        name: name.to_string(),
        root: "root-d0".to_string(),
        agent_type: kind.to_string(),
        capabilities: caps,
    }
}

#[test]
fn test_orchestrator_creation() {
    let orch = KoruOrchestrator::new();
    assert_eq!(orch.stats().agents_registered, 0);
    assert_eq!(orch.stats().pulses_triggered, 0);
}

#[test]
fn test_agent_registration() {
    let mut orch = KoruOrchestrator::new();
    orch.register_agent(agent("test_agent", "Test Agent", "test", vec![AgentCapability::Storage]));
    assert_eq!(orch.stats().agents_registered, 1);
    assert!(orch.get_agent("test_agent").is_some());
}

#[test]
fn test_agent_unregistration() {
    let mut orch = KoruOrchestrator::new();
    orch.register_agent(agent("test_agent", "Test Agent", "test", vec![AgentCapability::Storage]));
    orch.unregister_agent("test_agent");
    assert!(orch.get_agent("test_agent").is_none());
}

#[test]
fn test_find_by_capability() {
    let mut orch = KoruOrchestrator::new();
    orch.register_agent(agent("storage_agent", "Storage Agent", "storage", vec![AgentCapability::Storage]));
    orch.register_agent(agent("query_agent", "Query Agent", "query", vec![AgentCapability::Query]));
    let storage_agents = orch.find_agents_by_capability(AgentCapability::Storage);
    assert_eq!(storage_agents.len(), 1);
    assert_eq!(storage_agents[0].id, "storage_agent");
}

#[test]
fn test_pulse_coordination() {
    let mut orch = KoruOrchestrator::new();
    assert_eq!(orch.current_phase(), CoordinationPhase::Idle);
    orch.pulse(CoordinationPhase::Input);
    assert_eq!(orch.current_phase(), CoordinationPhase::Input);
    assert_eq!(orch.stats().pulses_triggered, 1);
    orch.advance_phase();
    assert_eq!(orch.current_phase(), CoordinationPhase::Processing);
}

#[test]
fn test_pulse_sequence_wraps() {
    let mut orch = KoruOrchestrator::new();
    for _ in 0..4 {
        orch.advance_phase();
    }
    assert_eq!(orch.current_phase(), CoordinationPhase::Input);
}

#[test]
fn test_agent_registry_direct() {
    let mut registry = AgentRegistry::new();
    registry.register(agent("test", "Test", "test", vec![AgentCapability::Custom("test_cap".to_string())]));
    assert_eq!(registry.list().len(), 1);
    registry.unregister("test");
    assert!(registry.list().is_empty());
}

#[test]
fn test_custom_capability() {
    let mut orch = KoruOrchestrator::new();
    orch.register_agent(agent(
        "custom_agent",
        "Custom Agent",
        "custom",
        vec![AgentCapability::Custom("my_feature".to_string())],
    ));
    let found = orch.find_agents_by_capability(AgentCapability::Custom("my_feature".to_string()));
    assert_eq!(found.len(), 1);
}

#[test]
fn reregistering_replaces_the_agent_and_lists_it_twice() {
    let mut orch = KoruOrchestrator::new();
    orch.register_agent(agent("a", "First", "t", vec![AgentCapability::Query]));
    orch.register_agent(agent("a", "Second", "t", vec![AgentCapability::Query]));
    assert_eq!(orch.agent_count(), 1);
    assert_eq!(orch.get_agent("a").unwrap().name, "Second");
    assert_eq!(orch.stats().agents_registered, 2);
    // The capability list holds the ID once per registration.
    assert_eq!(orch.find_agents_by_capability(AgentCapability::Query).len(), 2);
    orch.unregister_agent("a");
    assert!(orch.find_agents_by_capability(AgentCapability::Query).is_empty());
    assert_eq!(orch.agent_count(), 0);
}

#[test]
fn unregistering_keeps_other_agents_of_a_capability() {
    let mut orch = KoruOrchestrator::new();
    orch.register_agent(agent("a", "A", "t", vec![AgentCapability::Network, AgentCapability::Views]));
    orch.register_agent(agent("b", "B", "t", vec![AgentCapability::Network]));
    orch.unregister_agent("a");
    orch.unregister_agent("missing");
    let net = orch.find_agents_by_capability(AgentCapability::Network);
    assert_eq!(net.len(), 1);
    assert_eq!(net[0].id, "b");
    assert!(orch.find_agents_by_capability(AgentCapability::Views).is_empty());
    assert_eq!(orch.list_agent_ids(), vec!["b".to_string()]);
    assert_eq!(orch.get_agent_root("b"), Some("root-d0".to_string()));
    assert_eq!(orch.get_agent_root("a"), None);
}

#[test]
fn custom_capabilities_are_told_apart_by_name() {
    let mut orch = KoruOrchestrator::new();
    orch.register_agent(agent("x", "X", "t", vec![AgentCapability::Custom("one".to_string())]));
    assert!(orch.find_agents_by_capability(AgentCapability::Custom("two".to_string())).is_empty());
    assert_eq!(orch.list_agents().len(), 1);
}

#[test]
fn next_phase_walks_the_sequence_round() {
    let mut p = PulseCoordinator::with_sequence(vec![CoordinationPhase::Exploration, CoordinationPhase::Output]);
    assert_eq!(p.current_phase(), CoordinationPhase::Idle);
    assert_eq!(p.next_phase(), CoordinationPhase::Output);
    assert_eq!(p.next_phase(), CoordinationPhase::Exploration);
    assert_eq!(p.next_phase(), CoordinationPhase::Output);
    p.set_sequence(vec![CoordinationPhase::Input, CoordinationPhase::Idle, CoordinationPhase::Output]);
    assert_eq!(p.next_phase(), CoordinationPhase::Idle);
    assert_eq!(p.sequence().len(), 3);
    assert_eq!(CoordinationPhase::default(), CoordinationPhase::Idle);
    assert_eq!(PulseCoordinator::default().sequence().len(), 4);
}

#[test]
fn cross_agent_roots_follow_the_ids_asked() {
    let mut orch = KoruOrchestrator::new();
    let mut a = agent("a", "A", "t", vec![]);
    a.root = "root-a".to_string();
    let mut b = agent("b", "B", "t", vec![]);
    b.root = "root-b".to_string();
    orch.register_agent(a);
    orch.register_agent(b);
    assert_eq!(orch.cross_agent_roots(&["b", "zzz", "a", "b"]), vec!["root-b", "root-a", "root-b"]);
    assert!(orch.cross_agent_roots(&["none"]).is_empty());
}
