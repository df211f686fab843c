use koru_delta::json::Json;
use koru_delta::orchestrator::{CoordinationPhase, KoruOrchestrator};
use koru_delta::sensory_interface::{PulseAction, SensoryEvent, SensoryInterface};

#[test]
fn test_sensory_interface_creation() {
    let sensory = SensoryInterface::new(KoruOrchestrator::new());
    assert_eq!(sensory.orchestrator().agent_count(), 0);
}

#[test]
fn test_phase_trigger_event() {
    let mut sensory = SensoryInterface::new(KoruOrchestrator::new());
    let action = sensory.event_to_action(SensoryEvent::PhaseTrigger { phase: "Input".to_string() });
    assert_eq!(sensory.orchestrator().current_phase(), CoordinationPhase::Input);
    assert!(matches!(action, PulseAction::TriggerPulse { ref phase } if phase == "Input"));
}

#[test]
fn test_phase_parsing() {
    let sensory = SensoryInterface::new(KoruOrchestrator::new());
    assert_eq!(sensory.parse_phase("INPUT"), CoordinationPhase::Input);
    assert_eq!(sensory.parse_phase("processing"), CoordinationPhase::Processing);
    assert_eq!(sensory.parse_phase("Output"), CoordinationPhase::Output);
    assert_eq!(sensory.parse_phase("unknown"), CoordinationPhase::Idle);
}

#[test]
fn agent_and_custom_events_become_actions_without_a_pulse() {
    let mut sensory = SensoryInterface::new(KoruOrchestrator::new());
    let reg = sensory.event_to_action(SensoryEvent::AgentRegistered {
        agent_id: "a1".to_string(),
        agent_type: "test".to_string(),
    });
    assert!(matches!(reg, PulseAction::RegisterAgent { ref agent_id, ref agent_type } if agent_id == "a1" && agent_type == "test"));
    let unreg = sensory.event_to_action(SensoryEvent::AgentUnregistered { agent_id: "a1".to_string() });
    assert!(matches!(unreg, PulseAction::UnregisterAgent { ref agent_id } if agent_id == "a1"));
    let custom = sensory.event_to_action(SensoryEvent::Custom { event_type: "test_event".to_string(), data: Json::Null });
    assert!(matches!(custom, PulseAction::TriggerPulse { ref phase } if phase == "CUSTOM:test_event"));
    assert_eq!(sensory.orchestrator().stats().pulses_triggered, 0);
    assert_eq!(sensory.orchestrator().current_phase(), CoordinationPhase::Idle);
    assert_eq!(sensory.parse_phase("consolidation"), CoordinationPhase::Consolidation);
    assert_eq!(sensory.parse_phase("Exploration"), CoordinationPhase::Exploration);
}
