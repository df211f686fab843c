//! Memory lifecycle: the tiers data moves through (Hot → Warm → Cold → Deep)
//! and the planning of moves between them.

pub mod access_tracker;
pub mod transition_planner;

use vstd::prelude::*;

verus! {

/// Memory tier enumeration.
#[derive(Debug, Clone, Copy, PartialEq, Eq, Structural)]
pub enum MemoryTier {
    /// Hot memory (RAM, fastest)
    Hot,
    /// Warm memory (disk, recent)
    Warm,
    /// Cold memory (disk, compressed epochs)
    Cold,
    /// Deep memory (archival, genomic)
    Deep,
}

impl MemoryTier {
    /// The tier's display name.
    pub fn as_str(&self) -> (r: &'static str)
        ensures
            r@ == (match *self {
                MemoryTier::Hot => "hot"@,
                MemoryTier::Warm => "warm"@,
                MemoryTier::Cold => "cold"@,
                MemoryTier::Deep => "deep"@,
            }),
    {
        match self {
            MemoryTier::Hot => "hot",
            MemoryTier::Warm => "warm",
            MemoryTier::Cold => "cold",
            MemoryTier::Deep => "deep",
        }
    }
}

/// Lifecycle statistics.
#[derive(Debug, Clone, Default)]
pub struct LifecycleStats {
    pub transitions_executed: u64,
    pub consolidations_run: u64,
    pub genomes_extracted: u64,
    pub distinctions_scored: u64,
}

impl LifecycleStats {
    /// All counters at zero.
    pub fn new() -> (s: Self)
        ensures
            s.transitions_executed == 0,
            s.consolidations_run == 0,
            s.genomes_extracted == 0,
            s.distinctions_scored == 0,
    {
        LifecycleStats { transitions_executed: 0, consolidations_run: 0, genomes_extracted: 0, distinctions_scored: 0 }
    }
}

} // verus!
