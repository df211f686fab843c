//! Names of the canonical root distinctions that anchor each agent.

use vstd::prelude::*;

verus! {

/// Types of canonical roots in the Koru field.
#[derive(Debug, Clone, Copy, PartialEq, Eq, Structural)]
pub enum RootType {
    /// The universal field root.
    Field,
    /// Orchestrator root.
    Orchestrator,
    /// Storage agent root.
    Storage,
    /// Temperature agent root.
    Temperature,
    /// Chronicle agent root.
    Chronicle,
    /// Archive agent root.
    Archive,
    /// Essence agent root.
    Essence,
    /// Sleep agent root.
    Sleep,
    /// Evolution agent root.
    Evolution,
    /// Lineage agent root.
    Lineage,
    /// Perspective agent root.
    Perspective,
    /// Identity agent root.
    Identity,
    /// Network agent root.
    Network,
}

/// The canonical name of a root type.
pub open spec fn root_name(r: RootType) -> Seq<char> {
    match r {
        RootType::Field => "FIELD"@,
        RootType::Orchestrator => "ORCHESTRATOR"@,
        RootType::Storage => "STORAGE"@,
        RootType::Temperature => "TEMPERATURE"@,
        RootType::Chronicle => "CHRONICLE"@,
        RootType::Archive => "ARCHIVE"@,
        RootType::Essence => "ESSENCE"@,
        RootType::Sleep => "SLEEP"@,
        RootType::Evolution => "EVOLUTION"@,
        RootType::Lineage => "LINEAGE"@,
        RootType::Perspective => "PERSPECTIVE"@,
        RootType::Identity => "IDENTITY"@,
        RootType::Network => "NETWORK"@,
    }
}

impl RootType {
    /// Get the canonical name for this root type.
    pub fn as_str(&self) -> (r: &'static str)
        ensures
            r@ == root_name(*self),
    {
        match self {
            RootType::Field => "FIELD",
            RootType::Orchestrator => "ORCHESTRATOR",
            RootType::Storage => "STORAGE",
            RootType::Temperature => "TEMPERATURE",
            RootType::Chronicle => "CHRONICLE",
            RootType::Archive => "ARCHIVE",
            RootType::Essence => "ESSENCE",
            RootType::Sleep => "SLEEP",
            RootType::Evolution => "EVOLUTION",
            RootType::Lineage => "LINEAGE",
            RootType::Perspective => "PERSPECTIVE",
            RootType::Identity => "IDENTITY",
            RootType::Network => "NETWORK",
        }
    }
}

} // verus!
