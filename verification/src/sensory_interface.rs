//! The sensory interface: external events enter the orchestrator as pulse
//! actions, which the orchestrator's owner then synthesizes into the field.

use vstd::prelude::*;
use crate::json::Json;
use crate::orchestrator::{CoordinationPhase, KoruOrchestrator};
use crate::processes::distillation::wrap_add;
use crate::strings::{str_eq, to_uppercase, uppercase_of};

verus! {

/// Events that can enter the field through the sensory interface.
#[derive(Debug)]
pub enum SensoryEvent {
    /// Trigger a coordination phase.
    PhaseTrigger { phase: String },
    /// Signal agent registration.
    AgentRegistered { agent_id: String, agent_type: String },
    /// Signal agent unregistration.
    AgentUnregistered { agent_id: String },
    /// Custom event with arbitrary data.
    Custom { event_type: String, data: Json },
}

/// An orchestrator action that an event becomes.
#[derive(Debug)]
pub enum PulseAction {
    /// A coordination pulse with the given phase name.
    TriggerPulse { phase: String },
    /// An agent registered.
    RegisterAgent { agent_id: String, agent_type: String },
    /// An agent unregistered.
    UnregisterAgent { agent_id: String },
}

/// The phase that an upper-cased phase name names (Idle for any other name).
pub open spec fn phase_named(upper: Seq<char>) -> CoordinationPhase {
    if upper == seq!['I', 'N', 'P', 'U', 'T'] {
        CoordinationPhase::Input
    } else if upper == seq!['P', 'R', 'O', 'C', 'E', 'S', 'S', 'I', 'N', 'G'] {
        CoordinationPhase::Processing
    } else if upper == seq!['O', 'U', 'T', 'P', 'U', 'T'] {
        CoordinationPhase::Output
    } else if upper == seq!['C', 'O', 'N', 'S', 'O', 'L', 'I', 'D', 'A', 'T', 'I', 'O', 'N'] {
        CoordinationPhase::Consolidation
    } else if upper == seq!['E', 'X', 'P', 'L', 'O', 'R', 'A', 'T', 'I', 'O', 'N'] {
        CoordinationPhase::Exploration
    } else {
        CoordinationPhase::Idle
    }
}

/// The phase name a custom event pulses with.
pub open spec fn custom_phase(event_type: Seq<char>) -> Seq<char> {
    seq!['C', 'U', 'S', 'T', 'O', 'M', ':'] + event_type
}

/// The interface through which external events reach the orchestrator.
#[derive(Debug)]
pub struct SensoryInterface {
    orchestrator: KoruOrchestrator,
}

impl SensoryInterface {
    /// The orchestrator that events reach.
    pub closed spec fn orch(&self) -> KoruOrchestrator {
        self.orchestrator
    }

    /// An interface in front of `orchestrator`.
    pub fn new(orchestrator: KoruOrchestrator) -> (s: Self)
        ensures
            s.orch() == orchestrator,
    {
        SensoryInterface { orchestrator }
    }

    /// The orchestrator.
    pub fn orchestrator(&self) -> (r: &KoruOrchestrator)
        ensures
            *r == self.orch(),
    {
        &self.orchestrator
    }

    /// The coordination phase a phase name names, case aside (Idle for an
    /// unknown name).
    pub fn parse_phase(&self, phase: &str) -> (r: CoordinationPhase)
        ensures
            r == phase_named(uppercase_of(phase@)),
    {
        let upper = to_uppercase(phase);
        let u = upper.as_str();
        proof {
            reveal_strlit("INPUT");
            reveal_strlit("PROCESSING");
            reveal_strlit("OUTPUT");
            reveal_strlit("CONSOLIDATION");
            reveal_strlit("EXPLORATION");
            assert("INPUT"@ =~= seq!['I', 'N', 'P', 'U', 'T']);
            assert("PROCESSING"@ =~= seq!['P', 'R', 'O', 'C', 'E', 'S', 'S', 'I', 'N', 'G']);
            assert("OUTPUT"@ =~= seq!['O', 'U', 'T', 'P', 'U', 'T']);
            assert("CONSOLIDATION"@ =~= seq!['C', 'O', 'N', 'S', 'O', 'L', 'I', 'D', 'A', 'T', 'I', 'O', 'N']);
            assert("EXPLORATION"@ =~= seq!['E', 'X', 'P', 'L', 'O', 'R', 'A', 'T', 'I', 'O', 'N']);
        }
        if str_eq(u, "INPUT") {
            CoordinationPhase::Input
        } else if str_eq(u, "PROCESSING") {
            CoordinationPhase::Processing
        } else if str_eq(u, "OUTPUT") {
            CoordinationPhase::Output
        } else if str_eq(u, "CONSOLIDATION") {
            CoordinationPhase::Consolidation
        } else if str_eq(u, "EXPLORATION") {
            CoordinationPhase::Exploration
        } else {
            CoordinationPhase::Idle
        }
    }

    /// Turn an event into the action to synthesize. A phase trigger first
    /// pulses the orchestrator with the phase it names.
    pub fn event_to_action(&mut self, event: SensoryEvent) -> (r: PulseAction)
        requires
            old(self).orch().wf(),
        ensures
            final(self).orch().wf(),
            match event {
                SensoryEvent::PhaseTrigger { phase } => {
                    &&& r == (PulseAction::TriggerPulse { phase })
                    &&& final(self).orch().pulses().phase() == phase_named(uppercase_of(phase@))
                    &&& final(self).orch().pulse_count() == wrap_add(old(self).orch().pulse_count(), 1)
                    &&& final(self).orch().pulses().phases() == old(self).orch().pulses().phases()
                    &&& final(self).orch().pulses().position() == old(self).orch().pulses().position()
                    &&& final(self).orch().registry() == old(self).orch().registry()
                    &&& final(self).orch().registered_count() == old(self).orch().registered_count()
                },
                SensoryEvent::AgentRegistered { agent_id, agent_type } => {
                    &&& r == (PulseAction::RegisterAgent { agent_id, agent_type })
                    &&& final(self).orch() == old(self).orch()
                },
                SensoryEvent::AgentUnregistered { agent_id } => {
                    &&& r == (PulseAction::UnregisterAgent { agent_id })
                    &&& final(self).orch() == old(self).orch()
                },
                SensoryEvent::Custom { event_type, data } => {
                    &&& r matches PulseAction::TriggerPulse { phase }
                    &&& final(self).orch() == old(self).orch()
                },
            },
            match (event, r) {
                (SensoryEvent::Custom { event_type, data }, PulseAction::TriggerPulse { phase }) =>
                    phase@ == custom_phase(event_type@),
                _ => true,
            },
    {
        match event {
            SensoryEvent::PhaseTrigger { phase } => {
                let p = self.parse_phase(phase.as_str());
                self.orchestrator.pulse(p);
                PulseAction::TriggerPulse { phase }
            },
            SensoryEvent::AgentRegistered { agent_id, agent_type } => PulseAction::RegisterAgent { agent_id, agent_type },
            SensoryEvent::AgentUnregistered { agent_id } => PulseAction::UnregisterAgent { agent_id },
            SensoryEvent::Custom { event_type, data: _ } => {
                let mut phase = String::new();
                proof {
                    reveal_strlit("CUSTOM:");
                }
                phase.append("CUSTOM:");
                phase.append(event_type.as_str());
                proof {
                    assert(phase@ =~= custom_phase(event_type@));
                }
                PulseAction::TriggerPulse { phase }
            },
        }
    }
}

} // verus!
