//! The sleep agent: moves data between memory layers in sleep phases — hot
//! evictions into warm memory, idle warm entries toward the archive, and
//! recently used warm entries back into hot memory.

use vstd::prelude::*;
use crate::memory::cold::{ArchiveAgent, ConsolidationResult as ArchiveResult};
use crate::memory::hot::{bump_u64, bump_u64_exec, HotMemory};
use crate::memory::maps::has_size;
use crate::memory::warm::{
    after_lookups, bumps, idle_past, is_demotion_choice, keep_last, lemma_lookups_of_indexed, promotion_ids,
    pushed_accesses, refreshed, ChronicleAgent,
};
use crate::strings::views;
use crate::types::{key_view, FullKey, VersionedValue};
use vstd::string::*;

verus! {

/// Phases of the sleep cycle.
#[derive(Debug, Clone, Copy, PartialEq, Eq, Structural)]
pub enum SleepPhase {
    /// Normal operation, no consolidation.
    Awake,
    /// Hot to warm consolidation.
    LightSleep,
    /// Warm to cold consolidation.
    DeepSleep,
    /// Pattern extraction and dreaming.
    Rem,
}

/// Sleep agent configuration.
#[derive(Debug, Clone, Copy, PartialEq, Eq, Structural)]
pub struct SleepConfig {
    /// How often to run consolidation (seconds).
    pub interval_secs: u64,
    /// Batch size for moving distinctions.
    pub batch_size: usize,
    /// Idle time before demotion from warm to cold (seconds).
    pub demotion_idle_threshold_secs: u64,
    /// Ratio of distinctions to consolidate (bits of an `f64`).
    pub consolidation_ratio: u64,
}

impl Default for SleepConfig {
    fn default() -> (c: Self)
        ensures
            c.interval_secs == 300,
            c.batch_size == 100,
            c.demotion_idle_threshold_secs == 3600,
            c.consolidation_ratio == 0x3FE0_0000_0000_0000,
    {
        SleepConfig {
            interval_secs: 300,
            batch_size: 100,
            demotion_idle_threshold_secs: 3600,
            consolidation_ratio: 0x3FE0_0000_0000_0000,
        }
    }
}

/// Result of a warm-to-cold consolidation.
#[derive(Debug, Clone, Copy, PartialEq, Eq, Structural)]
pub struct ConsolidationResult {
    /// Distinctions moved to cold memory.
    pub distinctions_moved: usize,
    /// Distinctions that could not be kept there.
    pub distinctions_failed: usize,
}

/// Consolidation statistics.
#[derive(Debug, Clone, Copy, PartialEq, Eq, Structural)]
pub struct ConsolidationStats {
    /// Versions moved from hot to warm memory.
    pub hot_to_warm: u64,
    /// Distinctions moved from warm to cold memory.
    pub warm_to_cold: u64,
}

/// The sleep agent.
pub struct SleepAgent {
    config: SleepConfig,
    phase: SleepPhase,
    hot_to_warm: u64,
    warm_to_cold: u64,
    cycle_count: u64,
}

impl SleepAgent {
    /// The configuration.
    pub closed spec fn spec_config(&self) -> SleepConfig {
        self.config
    }

    /// The current phase.
    pub closed spec fn spec_phase(&self) -> SleepPhase {
        self.phase
    }

    /// The counters: hot to warm, warm to cold, cycles.
    pub closed spec fn counters(&self) -> (u64, u64, u64) {
        (self.hot_to_warm, self.warm_to_cold, self.cycle_count)
    }

    /// A sleep agent with the default configuration, awake.
    pub fn new() -> (a: Self)
        ensures
            a.spec_config().batch_size == 100,
            a.spec_config().interval_secs == 300,
            a.spec_phase() == SleepPhase::Awake,
            a.counters() == (0u64, 0u64, 0u64),
    {
        Self::with_config(SleepConfig::default())
    }

    /// A sleep agent with a custom configuration, awake.
    pub fn with_config(config: SleepConfig) -> (a: Self)
        ensures
            a.spec_config() == config,
            a.spec_phase() == SleepPhase::Awake,
            a.counters() == (0u64, 0u64, 0u64),
    {
        SleepAgent { config, phase: SleepPhase::Awake, hot_to_warm: 0, warm_to_cold: 0, cycle_count: 0 }
    }

    /// The current sleep phase.
    pub fn phase(&self) -> (p: SleepPhase)
        ensures
            p == self.spec_phase(),
    {
        self.phase
    }

    /// Enter a sleep phase.
    pub fn enter_phase(&mut self, phase: SleepPhase)
        ensures
            final(self).spec_phase() == phase,
            final(self).spec_config() == old(self).spec_config(),
            final(self).counters() == old(self).counters(),
    {
        self.phase = phase;
    }

    /// Dream: explore while in the current phase. Nothing in the layers or the
    /// counters changes.
    pub fn dream(&self) {
    }

    /// Wake from sleep.
    pub fn wake(&mut self)
        ensures
            final(self).spec_phase() == SleepPhase::Awake,
            final(self).spec_config() == old(self).spec_config(),
            final(self).counters() == old(self).counters(),
    {
        self.enter_phase(SleepPhase::Awake);
    }

    /// The number of cycles run.
    pub fn cycle_count(&self) -> (r: u64)
        ensures
            r == self.counters().2,
    {
        self.cycle_count
    }

    /// A version evicted from hot memory goes into warm memory at `now`.
    pub fn handle_hot_eviction(&mut self, warm: &mut ChronicleAgent, key: FullKey, versioned: VersionedValue, now: i64)
        ensures
            final(self).counters() == (bump_u64(old(self).counters().0), old(self).counters().1, old(self).counters().2),
            final(self).spec_phase() == old(self).spec_phase(),
            final(self).spec_config() == old(self).spec_config(),
            final(warm).mappings() == old(warm).mappings().insert(key_view(key), versioned.write_id@),
            final(warm).index().contains_key(versioned.write_id@),
            final(warm).index()[versioned.write_id@].last_accessed == now,
            final(warm).window() == keep_last(old(warm).window().push((versioned.write_id@, now)), old(warm).spec_config().index_capacity as nat),
    {
        warm.put(key, versioned, now);
        self.hot_to_warm = bump_u64_exec(self.hot_to_warm);
    }

    /// Consolidate warm memory toward cold at `now`, in deep sleep: up to
    /// `batch_size` of the most idle warm distinctions are looked up in warm memory.
    /// Warm memory keeps no values, so no lookup yields one and nothing is moved;
    /// each lookup refreshes that distinction's access time.
    pub fn consolidate_warm_to_cold(
        &mut self,
        warm: &mut ChronicleAgent,
        cold: &mut ArchiveAgent,
        reference_counts: &Vec<(String, usize)>,
        now: i64,
    ) -> (r: ConsolidationResult)
        ensures
            r == (ConsolidationResult { distinctions_moved: 0, distinctions_failed: 0 }),
            final(self).spec_phase() == SleepPhase::DeepSleep,
            final(self).counters() == old(self).counters(),
            final(self).spec_config() == old(self).spec_config(),
            final(warm).index().dom() == old(warm).index().dom(),
            final(warm).mappings() == old(warm).mappings(),
            final(warm).spec_config() == old(warm).spec_config(),
            exists|c: Seq<Seq<char>>| #[trigger] is_demotion_choice(
                old(warm).index(),
                old(warm).spec_config().idle_threshold,
                old(self).spec_config().batch_size,
                now,
                c,
            ) && {
                &&& forall|k: Seq<char>| #[trigger] old(warm).index().contains_key(k) ==> final(warm).index()[k]
                    == (if c.contains(k) { refreshed(old(warm).index()[k], now) } else { old(warm).index()[k] })
                &&& final(warm).window() == pushed_accesses(old(warm).window(), c, now, old(warm).spec_config().index_capacity as nat)
                &&& final(warm).counters() == (
                    bumps(old(warm).counters().0, c.len()),
                    old(warm).counters().1,
                    old(warm).counters().2,
                    old(warm).counters().3,
                )
            },
            final(cold).epochs() == old(cold).epochs(),
            final(cold).current() == old(cold).current(),
            final(cold).counters() == old(cold).counters(),
    {
        self.enter_phase(SleepPhase::DeepSleep);
        let candidates = warm.find_demotion_candidates(self.config.batch_size, now);
        let ghost c = views(candidates@);
        let ghost idx0 = warm.index();
        let ghost win0 = warm.window();
        let ghost cnt0 = warm.counters();
        let ghost cap = warm.spec_config().index_capacity as nat;
        let mut moved: usize = 0;
        let mut i: usize = 0;
        proof {
            assert(c.take(0) =~= Seq::<Seq<char>>::empty());
        }
        while i < candidates.len()
            invariant
                i <= candidates@.len(),
                c == views(candidates@),
                moved == 0,
                idx0 == old(warm).index(),
                win0 == old(warm).window(),
                cnt0 == old(warm).counters(),
                cap == old(warm).spec_config().index_capacity as nat,
                warm.mappings() == old(warm).mappings(),
                warm.spec_config() == old(warm).spec_config(),
                warm.index() == after_lookups(idx0, win0, cnt0.0, c.take(i as int), now, cap).0,
                warm.window() == after_lookups(idx0, win0, cnt0.0, c.take(i as int), now, cap).1,
                warm.counters() == (after_lookups(idx0, win0, cnt0.0, c.take(i as int), now, cap).2, cnt0.1, cnt0.2, cnt0.3),
            decreases candidates@.len() - i,
        {
            proof {
                assert(c.take(i + 1).drop_last() =~= c.take(i as int));
                assert(c.take(i + 1).last() == candidates@[i as int]@);
            }
            match warm.get(candidates[i].as_str(), now) {
                Some(_found) => {
                    moved = moved + 1;
                },
                None => {},
            }
            i = i + 1;
        }
        proof {
            assert(c.take(c.len() as int) =~= c);
            assert forall|x: int| 0 <= x < c.len() implies idx0.contains_key(#[trigger] c[x]) by {}
            lemma_lookups_of_indexed(idx0, win0, cnt0.0, c, now, cap);
            assert(warm.index().dom() =~= old(warm).index().dom());
        }
        self.warm_to_cold = self.warm_to_cold + moved as u64;
        ConsolidationResult { distinctions_moved: moved, distinctions_failed: 0 }
    }

    /// Promote recently used warm distinctions into hot memory at `now`: up to
    /// `limit` promotion candidates are put into hot memory (as placeholders holding
    /// `{}`, written `now`). Returns how many were promoted.
    pub fn promote_to_hot(&self, warm: &ChronicleAgent, hot: &mut HotMemory, epoch_num: usize, limit: usize, now: i64) -> (r: usize)
        requires
            2 * limit <= usize::MAX,
            old(hot).wf(),
        ensures
            final(hot).wf(),
            r == promotion_ids(warm.window(), warm.index(), limit as nat).len(),
            r > 0 ==> final(hot).order()[0] == promotion_ids(warm.window(), warm.index(), limit as nat)[r - 1],
            r > 0 ==> final(hot).cache().contains_key(promotion_ids(warm.window(), warm.index(), limit as nat)[r - 1]),
    {
        let candidates = warm.find_promotion_candidates(limit);
        let mut promoted: usize = 0;
        let mut i: usize = 0;
        while i < candidates.len()
            invariant
                hot.wf(),
                i <= candidates@.len(),
                promoted == i,
                i > 0 ==> hot.order()[0] == candidates@[i - 1].1@ && hot.cache().contains_key(candidates@[i - 1].1@),
            decreases candidates@.len() - i,
        {
            let placeholder = VersionedValue {
                value: String::from_str("{}"),
                timestamp: now,
                write_id: candidates[i].1.clone(),
                distinction_id: candidates[i].1.clone(),
                previous_version: None,
            };
            hot.put(candidates[i].0.duplicate(), placeholder);
            promoted = promoted + 1;
            i = i + 1;
        }
        promoted
    }

    /// Run a full cycle at `now`: light sleep, deep sleep with a warm-to-cold
    /// consolidation, REM, then wake. The cycle is counted.
    pub fn run_cycle(&mut self, warm: &mut ChronicleAgent, cold: &mut ArchiveAgent, now: i64)
        ensures
            final(self).spec_phase() == SleepPhase::Awake,
            final(self).counters() == (old(self).counters().0, old(self).counters().1, bump_u64(old(self).counters().2)),
            final(self).spec_config() == old(self).spec_config(),
            final(warm).index().dom() == old(warm).index().dom(),
            final(warm).mappings() == old(warm).mappings(),
            final(cold).epochs() == old(cold).epochs(),
    {
        self.cycle_count = bump_u64_exec(self.cycle_count);
        self.enter_phase(SleepPhase::LightSleep);
        self.enter_phase(SleepPhase::DeepSleep);
        let refs: Vec<(String, usize)> = Vec::new();
        let _ = self.consolidate_warm_to_cold(warm, cold, &refs, now);
        self.enter_phase(SleepPhase::Rem);
        self.wake();
    }

    /// Statistics.
    pub fn stats(&self) -> (s: ConsolidationStats)
        ensures
            s.hot_to_warm == self.counters().0,
            s.warm_to_cold == self.counters().1,
    {
        ConsolidationStats { hot_to_warm: self.hot_to_warm, warm_to_cold: self.warm_to_cold }
    }

    /// The consolidation interval in seconds.
    pub fn interval(&self) -> (r: u64)
        ensures
            r == self.spec_config().interval_secs,
    {
        self.config.interval_secs
    }
}

/// The sleep agent, under its earlier name.
pub type ConsolidationProcess = SleepAgent;

/// Sleep configuration, under its earlier name.
pub type ConsolidationConfig = SleepConfig;

} // verus!
