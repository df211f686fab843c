//! Genome update: periodically extracting the system's genome and keeping
//! only the most recent ones.

use vstd::prelude::*;
use crate::causal_graph::{roots_of, CausalGraph};
use crate::memory::cold::DAY_NANOS;
use crate::memory::deep::{
    genome_id_text, same_genome, CausalTopology, DeepMemory, EpochSummary, ExpressionResult, Genome,
};
use crate::memory::hot::bump_u64;
use crate::memory::maps::has_size;
use crate::strings::views;

verus! {

/// Genome update configuration.
#[derive(Debug, Clone, Copy)]
pub struct GenomeUpdateConfig {
    /// How often to update genome (seconds).
    pub interval_secs: u64,
    /// Maximum genomes to keep.
    pub max_genomes: usize,
    /// Whether to auto-cleanup old genomes.
    pub auto_cleanup: bool,
}

impl Default for GenomeUpdateConfig {
    /// Daily updates, keeping a week of genomes, with automatic cleanup.
    fn default() -> (c: Self)
        ensures
            c.interval_secs == 86400,
            c.max_genomes == 7,
            c.auto_cleanup,
    {
        GenomeUpdateConfig { interval_secs: 86400, max_genomes: 7, auto_cleanup: true }
    }
}

/// Genome update statistics.
#[derive(Debug, Clone, Copy)]
pub struct GenomeUpdateStats {
    pub updates_performed: u64,
    pub cleanups_performed: u64,
}

/// `after` is `before` with a genome extracted at `now` stored as `g` under
/// its ID, every other genome unchanged.
pub open spec fn stores_extraction(before: Map<Seq<char>, Genome>, after: Map<Seq<char>, Genome>, now: i64, g: Genome) -> bool {
    &&& after.dom() == before.dom().insert(genome_id_text(now))
    &&& same_genome(after[genome_id_text(now)], g)
    &&& forall|k: Seq<char>| k != genome_id_text(now) && #[trigger] before.contains_key(k) ==> after[k] == before[k]
}

/// `after` keeps the newest `min(n, max)` of the `n` genomes of `before`,
/// unchanged: every genome removed was extracted no later than every genome kept.
pub open spec fn keeps_newest(before: Map<Seq<char>, Genome>, after: Map<Seq<char>, Genome>, max: nat) -> bool {
    &&& after.dom().subset_of(before.dom())
    &&& forall|k: Seq<char>| #[trigger] after.contains_key(k) ==> after[k] == before[k]
    &&& has_size(after, if before.dom().len() > max { max } else { before.dom().len() })
    &&& forall|k: Seq<char>, j: Seq<char>|
        #![trigger before.contains_key(k), after.contains_key(j)]
        before.contains_key(k) && !after.contains_key(k) && after.contains_key(j)
            ==> before[k].extracted_at <= before[j].extracted_at
}

/// What re-expressing `g` reports.
pub open spec fn expression_of(g: Genome) -> ExpressionResult {
    ExpressionResult {
        distinctions_restored: g.epoch_summary.distinction_count,
        roots_restored: g.roots@.len() as usize,
        patterns_restored: g.patterns@.len() as usize,
    }
}

/// `n + k`, held at `u64::MAX`.
pub open spec fn saturating(n: u64, k: int) -> u64 {
    if n + k > u64::MAX { u64::MAX } else { (n + k) as u64 }
}

/// Genome Update Process - maintains system DNA.
#[derive(Debug)]
pub struct GenomeUpdateProcess {
    config: GenomeUpdateConfig,
    updates_performed: u64,
    cleanups_performed: u64,
}

impl GenomeUpdateProcess {
    /// The configuration.
    pub closed spec fn spec_config(&self) -> GenomeUpdateConfig {
        self.config
    }

    /// Updates performed so far.
    pub closed spec fn spec_updates(&self) -> u64 {
        self.updates_performed
    }

    /// Genomes removed by cleanup so far.
    pub closed spec fn spec_cleanups(&self) -> u64 {
        self.cleanups_performed
    }

    /// Create a process with the default configuration.
    pub fn new() -> (p: Self)
        ensures
            p.spec_config().interval_secs == 86400,
            p.spec_config().max_genomes == 7,
            p.spec_config().auto_cleanup,
            p.spec_updates() == 0,
            p.spec_cleanups() == 0,
    {
        Self::with_config(GenomeUpdateConfig::default())
    }

    /// Create with custom config.
    pub fn with_config(config: GenomeUpdateConfig) -> (p: Self)
        ensures
            p.spec_config() == config,
            p.spec_updates() == 0,
            p.spec_cleanups() == 0,
    {
        GenomeUpdateProcess { config, updates_performed: 0, cleanups_performed: 0 }
    }

    /// The update interval, in seconds.
    pub fn interval(&self) -> (r: u64)
        ensures
            r == self.spec_config().interval_secs,
    {
        self.config.interval_secs
    }

    /// Maximum genomes kept.
    pub fn max_genomes(&self) -> (r: usize)
        ensures
            r == self.spec_config().max_genomes,
    {
        self.config.max_genomes
    }

    /// Whether old genomes are cleaned up after each update.
    pub fn auto_cleanup(&self) -> (r: bool)
        ensures
            r == self.spec_config().auto_cleanup,
    {
        self.config.auto_cleanup
    }

    /// Get statistics.
    pub fn stats(&self) -> (s: GenomeUpdateStats)
        ensures
            s.updates_performed == self.spec_updates(),
            s.cleanups_performed == self.spec_cleanups(),
    {
        GenomeUpdateStats { updates_performed: self.updates_performed, cleanups_performed: self.cleanups_performed }
    }

    /// Extract the current genome from the causal graph into deep memory, count
    /// the update, and (when configured) clean up the oldest genomes beyond the
    /// limit.
    pub fn update(
        &mut self,
        deep: &mut DeepMemory,
        causal_graph: &CausalGraph,
        epoch_number: usize,
        distinction_count: usize,
        now: i64,
    ) -> (r: Option<Genome>)
        requires
            now - DAY_NANOS >= i64::MIN,
        ensures
            r matches Some(g) && g.version == 1 && g.extracted_at == now
                && views(g.roots@) == roots_of(causal_graph.node_ids(), causal_graph.edge_ids())
                && g.epoch_summary == (EpochSummary { epoch_number, distinction_count, start_time: (now - DAY_NANOS) as i64, end_time: now })
                && (if old(self).spec_config().auto_cleanup {
                    exists|mid: Map<Seq<char>, Genome>| #[trigger] stores_extraction(old(deep).genomes(), mid, now, g)
                        && keeps_newest(mid, final(deep).genomes(), old(self).spec_config().max_genomes as nat)
                        && final(self).spec_cleanups() == saturating(
                            old(self).spec_cleanups(),
                            mid.dom().len() - final(deep).genomes().dom().len(),
                        )
                } else {
                    stores_extraction(old(deep).genomes(), final(deep).genomes(), now, g)
                        && final(self).spec_cleanups() == old(self).spec_cleanups()
                }),
            final(self).spec_updates() == saturating(old(self).spec_updates(), 1),
            final(self).spec_config() == old(self).spec_config(),
            final(deep).archived() == old(deep).archived(),
            final(deep).spec_config() == old(deep).spec_config(),
    {
        let genome = deep.extract_genome(causal_graph, epoch_number, distinction_count, now);
        let ghost mid = deep.genomes();
        proof {
            assert(stores_extraction(old(deep).genomes(), mid, now, genome));
        }
        self.updates_performed = self.updates_performed.saturating_add(1);
        if self.config.auto_cleanup {
            self.cleanup_old_genomes(deep);
        }
        Some(genome)
    }

    /// Re-express the most recently extracted genome, if any.
    pub fn restore_latest(&self, deep: &mut DeepMemory) -> (r: Option<ExpressionResult>)
        ensures
            r is None <==> old(deep).genomes().dom().len() == 0,
            r matches Some(x) ==> exists|k: Seq<char>| #[trigger] old(deep).genomes().contains_key(k)
                && x == expression_of(old(deep).genomes()[k])
                && forall|j: Seq<char>| #[trigger] old(deep).genomes().contains_key(j)
                    ==> old(deep).genomes()[j].extracted_at <= old(deep).genomes()[k].extracted_at,
            final(deep).genomes() == old(deep).genomes(),
            final(deep).archived() == old(deep).archived(),
            final(deep).counters().1 == (if r is Some { bump_u64(old(deep).counters().1) } else { old(deep).counters().1 }),
            final(deep).counters().0 == old(deep).counters().0,
    {
        match deep.latest_genome() {
            Some(genome) => {
                let result = deep.express_genome(&genome);
                proof {
                    let k = choose|k: Seq<char>| #[trigger] deep.genomes().contains_key(k) && same_genome(deep.genomes()[k], genome);
                    assert(old(deep).genomes().contains_key(k));
                }
                Some(result)
            },
            None => None,
        }
    }

    /// Re-express the genome stored under `genome_id`, if any.
    pub fn restore(&self, deep: &mut DeepMemory, genome_id: &str) -> (r: Option<ExpressionResult>)
        ensures
            match r {
                Some(x) => old(deep).genomes().contains_key(genome_id@) && x == expression_of(old(deep).genomes()[genome_id@]),
                None => !old(deep).genomes().contains_key(genome_id@),
            },
            final(deep).genomes() == old(deep).genomes(),
            final(deep).archived() == old(deep).archived(),
            final(deep).counters().1 == (if r is Some { bump_u64(old(deep).counters().1) } else { old(deep).counters().1 }),
            final(deep).counters().0 == old(deep).counters().0,
    {
        match deep.get_genome(genome_id) {
            Some(genome) => Some(deep.express_genome(&genome)),
            None => None,
        }
    }

    /// Remove the oldest genomes beyond `max_genomes`, counting each removal.
    pub fn cleanup_old_genomes(&mut self, deep: &mut DeepMemory)
        ensures
            keeps_newest(old(deep).genomes(), final(deep).genomes(), old(self).spec_config().max_genomes as nat),
            final(self).spec_cleanups() == saturating(
                old(self).spec_cleanups(),
                old(deep).genomes().dom().len() - final(deep).genomes().dom().len(),
            ),
            final(self).spec_updates() == old(self).spec_updates(),
            final(self).spec_config() == old(self).spec_config(),
            final(deep).archived() == old(deep).archived(),
            final(deep).counters() == old(deep).counters(),
            final(deep).spec_config() == old(deep).spec_config(),
    {
        let count = deep.genome_count();
        let ghost before = deep.genomes();
        if count <= self.config.max_genomes {
            return;
        }
        let to_remove = count - self.config.max_genomes;
        let mut i: usize = 0;
        while i < to_remove
            invariant
                i <= to_remove,
                to_remove == count - self.config.max_genomes,
                count > self.config.max_genomes,
                has_size(before, count as nat),
                before == old(deep).genomes(),
                deep.genomes().dom().subset_of(before.dom()),
                forall|k: Seq<char>| #[trigger] deep.genomes().contains_key(k) ==> deep.genomes()[k] == before[k],
                has_size(deep.genomes(), (count - i) as nat),
                forall|k: Seq<char>, j: Seq<char>|
                    #![trigger before.contains_key(k), deep.genomes().contains_key(j)]
                    before.contains_key(k) && !deep.genomes().contains_key(k) && deep.genomes().contains_key(j)
                        ==> before[k].extracted_at <= before[j].extracted_at,
                self.cleanups_performed == saturating(old(self).spec_cleanups(), i as int),
                self.updates_performed == old(self).spec_updates(),
                self.config == old(self).spec_config(),
                deep.archived() == old(deep).archived(),
                deep.counters() == old(deep).counters(),
                deep.spec_config() == old(deep).spec_config(),
            decreases to_remove - i,
        {
            let oldest = deep.oldest_genome_id();
            match oldest {
                Some(id) => {
                    let ghost cur = deep.genomes();
                    deep.remove_genome(&id);
                    proof {
                        assert forall|k: Seq<char>, j: Seq<char>|
                            #![trigger before.contains_key(k), deep.genomes().contains_key(j)]
                            before.contains_key(k) && !deep.genomes().contains_key(k) && deep.genomes().contains_key(j)
                                implies before[k].extracted_at <= before[j].extracted_at by {
                            assert(cur.contains_key(j));
                            if k == id@ {
                                assert(cur[id@].extracted_at <= cur[j].extracted_at);
                            } else {
                                assert(!cur.contains_key(k));
                            }
                        }
                    }
                    self.cleanups_performed = self.cleanups_performed.saturating_add(1);
                },
                None => {},
            }
            i = i + 1;
        }
    }

    /// A minimal genome extracted at `now`: no roots, topology or patterns, and
    /// an empty epoch summary.
    pub fn extract_genome(&self, now: i64) -> (g: Genome)
        ensures
            g.version == 1,
            g.extracted_at == now,
            g.roots@.len() == 0,
            g.topology.paths@.len() == 0 && g.topology.branches@.len() == 0 && g.topology.convergences@.len() == 0,
            g.patterns@.len() == 0,
            g.epoch_summary == (EpochSummary { epoch_number: 0, distinction_count: 0, start_time: now, end_time: now }),
    {
        Genome {
            version: 1,
            extracted_at: now,
            roots: Vec::new(),
            topology: CausalTopology { paths: Vec::new(), branches: Vec::new(), convergences: Vec::new() },
            patterns: Vec::new(),
            epoch_summary: EpochSummary { epoch_number: 0, distinction_count: 0, start_time: now, end_time: now },
        }
    }
}

} // verus!
