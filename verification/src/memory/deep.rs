//! Deep memory: genomes (compact snapshots of the causal structure) and the
//! record of archived epochs.
//!
//! Times are nanoseconds after the Unix epoch (UTC).

use vstd::prelude::*;
use crate::causal_graph::{roots_of, CausalGraph, DistinctionId};
use crate::memory::hot::{bump_u64, bump_u64_exec};
use crate::memory::maps::{
    archived_entries, archived_insert, archived_len, archived_new, archived_of, genomes_entries, genomes_get,
    genomes_insert, genomes_len, genomes_new, genomes_of, genomes_remove, has_size,
};
use crate::memory::cold::DAY_NANOS;
use crate::numfmt::{push_signed_decimal, signed_decimal};
use crate::strings::views;
use vstd::string::*;

verus! {

/// Deep memory configuration.
#[derive(Debug, Clone, Copy, PartialEq, Eq, Structural)]
pub struct DeepConfig {
    /// How often to update the genome (seconds).
    pub genome_update_interval_secs: u64,
    /// Maximum number of roots to keep.
    pub max_roots: usize,
    /// Maximum number of patterns to keep.
    pub max_patterns: usize,
}

impl Default for DeepConfig {
    fn default() -> (c: Self)
        ensures
            c.genome_update_interval_secs == 86400,
            c.max_roots == 100,
            c.max_patterns == 1000,
    {
        DeepConfig { genome_update_interval_secs: 86400, max_roots: 100, max_patterns: 1000 }
    }
}

/// The causal shape a genome records.
#[derive(Debug, Clone)]
pub struct CausalTopology {
    /// Paths through the graph.
    pub paths: Vec<Vec<DistinctionId>>,
    /// Where the graph branches.
    pub branches: Vec<DistinctionId>,
    /// Where branches meet.
    pub convergences: Vec<DistinctionId>,
}

/// A recurring reference pattern.
#[derive(Debug, Clone)]
pub struct ReferencePattern {
    /// Pattern ID.
    pub pattern_id: String,
    /// Kind of the referring distinction.
    pub source_type: String,
    /// Kind of the referenced distinction.
    pub target_type: String,
    /// How often it occurs.
    pub frequency: usize,
}

/// What a genome says of the epoch it came from.
#[derive(Debug, Clone, Copy, PartialEq, Eq, Structural)]
pub struct EpochSummary {
    /// The epoch number.
    pub epoch_number: usize,
    /// Distinctions in the epoch.
    pub distinction_count: usize,
    /// When the epoch started.
    pub start_time: i64,
    /// When it ended.
    pub end_time: i64,
}

/// A genome: the minimal information to rebuild the system's causal structure.
#[derive(Debug, Clone)]
pub struct Genome {
    /// Format version.
    pub version: u32,
    /// When it was extracted.
    pub extracted_at: i64,
    /// Root distinctions.
    pub roots: Vec<DistinctionId>,
    /// The causal topology.
    pub topology: CausalTopology,
    /// Reference patterns.
    pub patterns: Vec<ReferencePattern>,
    /// Summary of the epoch.
    pub epoch_summary: EpochSummary,
}

/// A record of an archived epoch.
#[derive(Debug, Clone, Copy, PartialEq, Eq, Structural)]
pub struct ArchivedEpoch {
    /// When it was archived.
    pub archived_at: i64,
    /// Its compressed size (bytes).
    pub compressed_size: usize,
    /// Distinctions it holds.
    pub distinction_count: usize,
}

/// What re-expressing a genome restored.
#[derive(Debug, Clone, Copy, PartialEq, Eq, Structural)]
pub struct ExpressionResult {
    /// Distinctions restored.
    pub distinctions_restored: usize,
    /// Roots restored.
    pub roots_restored: usize,
    /// Patterns restored.
    pub patterns_restored: usize,
}

/// Deep memory statistics.
#[derive(Debug, Clone, Copy, PartialEq, Eq, Structural)]
pub struct DeepStats {
    /// Genomes extracted.
    pub genomes_created: u64,
    /// Genomes re-expressed.
    pub restorations: u64,
    /// Genomes stored.
    pub genome_count: usize,
    /// Epochs archived.
    pub archive_count: usize,
    /// Total compressed size of the archived epochs (saturating).
    pub total_archive_size: usize,
}

/// Whether two genomes hold the same data.
pub open spec fn same_genome(a: Genome, b: Genome) -> bool {
    &&& a.version == b.version
    &&& a.extracted_at == b.extracted_at
    &&& a.roots@ == b.roots@
    &&& a.topology.paths@.len() == b.topology.paths@.len()
    &&& forall|i: int| 0 <= i < a.topology.paths@.len() ==> (#[trigger] a.topology.paths@[i])@ == b.topology.paths@[i]@
    &&& a.topology.branches@ == b.topology.branches@
    &&& a.topology.convergences@ == b.topology.convergences@
    &&& a.patterns@ == b.patterns@
    &&& a.epoch_summary == b.epoch_summary
}

/// Whether `e` lists the entries of `m`, each once.
pub open spec fn enumerates<V>(e: Seq<(Seq<char>, V)>, m: Map<Seq<char>, V>) -> bool {
    &&& has_size(m, e.len())
    &&& forall|i: int| 0 <= i < e.len() ==> m.contains_key((#[trigger] e[i]).0) && m[e[i].0] == e[i].1
    &&& forall|i: int, j: int| 0 <= i < j < e.len() ==> (#[trigger] e[i]).0 != (#[trigger] e[j]).0
}

/// The total compressed size of a list of archived epochs.
pub open spec fn size_sum(e: Seq<(Seq<char>, ArchivedEpoch)>) -> int
    decreases e.len(),
{
    if e.len() == 0 {
        0
    } else {
        size_sum(e.drop_last()) + e.last().1.compressed_size
    }
}

/// The ID a genome extracted at `now` is stored under.
pub open spec fn genome_id_text(now: i64) -> Seq<char> {
    "genome_"@ + signed_decimal(now as int)
}

/// Deep memory.
pub struct DeepMemory {
    config: DeepConfig,
    genome: dashmap::DashMap<String, Genome>,
    archive: dashmap::DashMap<String, ArchivedEpoch>,
    genomes_created: u64,
    restorations: u64,
}

impl DeepMemory {
    /// The stored genomes, by ID.
    pub closed spec fn genomes(&self) -> Map<Seq<char>, Genome> {
        genomes_of(self.genome)
    }

    /// The archived epochs, by ID.
    pub closed spec fn archived(&self) -> Map<Seq<char>, ArchivedEpoch> {
        archived_of(self.archive)
    }

    /// The configuration.
    pub closed spec fn spec_config(&self) -> DeepConfig {
        self.config
    }

    /// The counters: genomes created, restorations.
    pub closed spec fn counters(&self) -> (u64, u64) {
        (self.genomes_created, self.restorations)
    }

    /// Deep memory with the default configuration.
    pub fn new() -> (d: Self)
        ensures
            d.spec_config().max_roots == 100,
            has_size(d.genomes(), 0),
            has_size(d.archived(), 0),
            d.counters() == (0u64, 0u64),
    {
        Self::with_config(DeepConfig::default())
    }

    /// Deep memory with a custom configuration.
    pub fn with_config(config: DeepConfig) -> (d: Self)
        ensures
            d.spec_config() == config,
            has_size(d.genomes(), 0),
            has_size(d.archived(), 0),
            d.counters() == (0u64, 0u64),
    {
        DeepMemory { config, genome: genomes_new(), archive: archived_new(), genomes_created: 0, restorations: 0 }
    }

    /// Extract a genome from the causal graph at `now`: its roots, an empty
    /// topology and pattern list, and a summary of the epoch ending `now` (a day
    /// long). It is stored under `genome_{now}` and counted.
    pub fn extract_genome(&mut self, causal_graph: &CausalGraph, epoch_number: usize, distinction_count: usize, now: i64) -> (g: Genome)
        requires
            now - DAY_NANOS >= i64::MIN,
        ensures
            g.version == 1,
            g.extracted_at == now,
            views(g.roots@) == roots_of(causal_graph.node_ids(), causal_graph.edge_ids()),
            g.topology.paths@.len() == 0 && g.topology.branches@.len() == 0 && g.topology.convergences@.len() == 0,
            g.patterns@.len() == 0,
            g.epoch_summary == (EpochSummary { epoch_number, distinction_count, start_time: (now - DAY_NANOS) as i64, end_time: now }),
            final(self).genomes().dom() == old(self).genomes().dom().insert(genome_id_text(now)),
            same_genome(final(self).genomes()[genome_id_text(now)], g),
            forall|k: Seq<char>| k != genome_id_text(now) && #[trigger] old(self).genomes().contains_key(k) ==> final(self).genomes()[k] == old(self).genomes()[k],
            final(self).archived() == old(self).archived(),
            final(self).counters() == (bump_u64(old(self).counters().0), old(self).counters().1),
            final(self).spec_config() == old(self).spec_config(),
    {
        let roots = causal_graph.roots();
        let genome = Genome {
            version: 1,
            extracted_at: now,
            roots,
            topology: CausalTopology { paths: Vec::new(), branches: Vec::new(), convergences: Vec::new() },
            patterns: Vec::new(),
            epoch_summary: EpochSummary { epoch_number, distinction_count, start_time: now - DAY_NANOS, end_time: now },
        };
        let mut id = String::from_str("genome_");
        push_signed_decimal(&mut id, now);
        let stored = copy_genome(&genome);
        genomes_insert(&mut self.genome, id, stored);
        self.genomes_created = bump_u64_exec(self.genomes_created);
        genome
    }

    /// Re-express a genome: report what it would restore, and count it.
    pub fn express_genome(&mut self, genome: &Genome) -> (r: ExpressionResult)
        ensures
            r == (ExpressionResult {
                distinctions_restored: genome.epoch_summary.distinction_count,
                roots_restored: genome.roots@.len() as usize,
                patterns_restored: genome.patterns@.len() as usize,
            }),
            final(self).genomes() == old(self).genomes(),
            final(self).archived() == old(self).archived(),
            final(self).counters() == (old(self).counters().0, bump_u64(old(self).counters().1)),
    {
        self.restorations = bump_u64_exec(self.restorations);
        ExpressionResult {
            distinctions_restored: genome.epoch_summary.distinction_count,
            roots_restored: genome.roots.len(),
            patterns_restored: genome.patterns.len(),
        }
    }

    /// Record an archived epoch at `now`.
    pub fn archive_epoch(&mut self, epoch_id: String, distinction_count: usize, compressed_size: usize, now: i64)
        ensures
            final(self).archived() == old(self).archived().insert(epoch_id@, ArchivedEpoch { archived_at: now, compressed_size, distinction_count }),
            final(self).genomes() == old(self).genomes(),
            final(self).counters() == old(self).counters(),
    {
        archived_insert(&mut self.archive, epoch_id, ArchivedEpoch { archived_at: now, compressed_size, distinction_count });
    }

    /// Store a genome under `id`.
    pub fn store_genome(&mut self, id: &str, genome: Genome)
        ensures
            final(self).genomes() == old(self).genomes().insert(id@, genome),
            final(self).archived() == old(self).archived(),
            final(self).counters() == old(self).counters(),
    {
        genomes_insert(&mut self.genome, id.to_owned(), genome);
    }

    /// The genome stored under `id`.
    pub fn get_genome(&self, id: &str) -> (r: Option<Genome>)
        ensures
            match r {
                Some(g) => self.genomes().contains_key(id@) && g == self.genomes()[id@],
                None => !self.genomes().contains_key(id@),
            },
    {
        genomes_get(&self.genome, id)
    }

    /// A most recently extracted genome (one of them, on ties).
    pub fn latest_genome(&self) -> (r: Option<Genome>)
        ensures
            r is None <==> self.genomes().dom().len() == 0,
            r matches Some(g) ==> (exists|k: Seq<char>| #[trigger] self.genomes().contains_key(k) && same_genome(self.genomes()[k], g))
                && forall|k: Seq<char>| #[trigger] self.genomes().contains_key(k) ==> self.genomes()[k].extracted_at <= g.extracted_at,
    {
        let entries = genomes_entries(&self.genome);
        if entries.len() == 0 {
            return None;
        }
        let mut best: usize = 0;
        let mut i: usize = 1;
        while i < entries.len()
            invariant
                0 < entries@.len(),
                best < i <= entries@.len(),
                forall|j: int| 0 <= j < i ==> (#[trigger] entries@[j]).1.extracted_at <= entries@[best as int].1.extracted_at,
            decreases entries@.len() - i,
        {
            if entries[i].1.extracted_at >= entries[best].1.extracted_at {
                best = i;
            }
            i = i + 1;
        }
        proof {
            assert(self.genomes().contains_key(entries@[best as int].0@));
            assert forall|k: Seq<char>| #[trigger] self.genomes().contains_key(k) implies self.genomes()[k].extracted_at <= entries@[best as int].1.extracted_at by {
                let w = choose|w: int| 0 <= w < entries@.len() && (#[trigger] entries@[w]).0@ == k;
            }
        }
        Some(copy_genome(&entries[best].1))
    }

    /// The ID of a least recently extracted genome (one of them, on ties).
    pub fn oldest_genome_id(&self) -> (r: Option<String>)
        ensures
            r is None <==> self.genomes().dom().len() == 0,
            r matches Some(id) ==> self.genomes().contains_key(id@)
                && forall|k: Seq<char>| #[trigger] self.genomes().contains_key(k)
                    ==> self.genomes()[id@].extracted_at <= self.genomes()[k].extracted_at,
    {
        let entries = genomes_entries(&self.genome);
        if entries.len() == 0 {
            return None;
        }
        let mut best: usize = 0;
        let mut i: usize = 1;
        while i < entries.len()
            invariant
                0 < entries@.len(),
                best < i <= entries@.len(),
                forall|j: int| 0 <= j < i ==> entries@[best as int].1.extracted_at <= (#[trigger] entries@[j]).1.extracted_at,
            decreases entries@.len() - i,
        {
            if entries[i].1.extracted_at < entries[best].1.extracted_at {
                best = i;
            }
            i = i + 1;
        }
        proof {
            assert(self.genomes().contains_key(entries@[best as int].0@));
            assert forall|k: Seq<char>| #[trigger] self.genomes().contains_key(k) implies entries@[best as int].1.extracted_at <= self.genomes()[k].extracted_at by {
                let w = choose|w: int| 0 <= w < entries@.len() && (#[trigger] entries@[w]).0@ == k;
            }
        }
        Some(entries[best].0.clone())
    }

    /// Remove the genome stored under `id`, if any.
    pub fn remove_genome(&mut self, id: &str)
        ensures
            final(self).genomes() == old(self).genomes().remove(id@),
            final(self).archived() == old(self).archived(),
            final(self).counters() == old(self).counters(),
            final(self).spec_config() == old(self).spec_config(),
    {
        genomes_remove(&mut self.genome, id);
    }

    /// The number of genomes stored.
    pub fn genome_count(&self) -> (r: usize)
        ensures
            has_size(self.genomes(), r as nat),
    {
        genomes_len(&self.genome)
    }

    /// The number of epochs archived.
    pub fn archive_count(&self) -> (r: usize)
        ensures
            has_size(self.archived(), r as nat),
    {
        archived_len(&self.archive)
    }

    /// The total compressed size of the archived epochs (saturating at `usize::MAX`).
    pub fn total_archive_size(&self) -> (r: usize)
        ensures
            exists|e: Seq<(Seq<char>, ArchivedEpoch)>| #[trigger] enumerates(e, self.archived())
                && r == (if size_sum(e) > usize::MAX { usize::MAX as int } else { size_sum(e) }),
    {
        let entries = archived_entries(&self.archive);
        let ghost e = entries@.map_values(|p: (String, ArchivedEpoch)| (p.0@, p.1));
        let mut total: usize = 0;
        let mut i: usize = 0;
        while i < entries.len()
            invariant
                i <= entries@.len(),
                e == entries@.map_values(|p: (String, ArchivedEpoch)| (p.0@, p.1)),
                total == (if size_sum(e.take(i as int)) > usize::MAX { usize::MAX as int } else { size_sum(e.take(i as int)) }),
            decreases entries@.len() - i,
        {
            proof {
                assert(e.take(i + 1).drop_last() =~= e.take(i as int));
                assert(e.take(i + 1).last() == e[i as int]);
                lemma_size_sum_nonneg(e.take(i as int));
            }
            total = total.saturating_add(entries[i].1.compressed_size);
            i = i + 1;
        }
        proof {
            assert(e.take(entries@.len() as int) =~= e);
            assert forall|a: int| 0 <= a < e.len() implies self.archived().contains_key((#[trigger] e[a]).0) && self.archived()[e[a].0] == e[a].1 by {
                assert(e[a] == (entries@[a].0@, entries@[a].1));
            }
            assert forall|a: int, b: int| 0 <= a < b < e.len() implies (#[trigger] e[a]).0 != (#[trigger] e[b]).0 by {
                assert(e[a].0 == entries@[a].0@ && e[b].0 == entries@[b].0@);
            }
            assert(enumerates(e, self.archived()));
        }
        total
    }

    /// The configuration.
    pub fn config(&self) -> (c: DeepConfig)
        ensures
            c == self.spec_config(),
    {
        self.config
    }

    /// Statistics.
    pub fn stats(&self) -> (s: DeepStats)
        ensures
            s.genomes_created == self.counters().0,
            s.restorations == self.counters().1,
            has_size(self.genomes(), s.genome_count as nat),
            has_size(self.archived(), s.archive_count as nat),
            exists|e: Seq<(Seq<char>, ArchivedEpoch)>| #[trigger] enumerates(e, self.archived())
                && s.total_archive_size == (if size_sum(e) > usize::MAX { usize::MAX as int } else { size_sum(e) }),
    {
        DeepStats {
            genomes_created: self.genomes_created,
            restorations: self.restorations,
            genome_count: genomes_len(&self.genome),
            archive_count: archived_len(&self.archive),
            total_archive_size: self.total_archive_size(),
        }
    }
}

proof fn lemma_size_sum_nonneg(e: Seq<(Seq<char>, ArchivedEpoch)>)
    ensures
        size_sum(e) >= 0,
    decreases e.len(),
{
    if e.len() > 0 {
        lemma_size_sum_nonneg(e.drop_last());
    }
}

/// A copy of a list of IDs.
fn clone_ids(ids: &Vec<DistinctionId>) -> (r: Vec<DistinctionId>)
    ensures
        r@ == ids@,
{
    let mut r: Vec<DistinctionId> = Vec::new();
    let mut i: usize = 0;
    while i < ids.len()
        invariant
            i <= ids@.len(),
            r@ == ids@.take(i as int),
        decreases ids@.len() - i,
    {
        r.push(ids[i].clone());
        assert(r@ =~= ids@.take(i + 1));
        i = i + 1;
    }
    assert(ids@.take(ids@.len() as int) =~= ids@);
    r
}

/// A copy of a genome.
fn copy_genome(g: &Genome) -> (r: Genome)
    ensures
        same_genome(r, *g),
{
    let mut paths: Vec<Vec<DistinctionId>> = Vec::new();
    let mut i: usize = 0;
    while i < g.topology.paths.len()
        invariant
            i <= g.topology.paths@.len(),
            paths@.len() == i,
            forall|k: int| 0 <= k < i ==> (#[trigger] paths@[k])@ == g.topology.paths@[k]@,
        decreases g.topology.paths@.len() - i,
    {
        paths.push(clone_ids(&g.topology.paths[i]));
        i = i + 1;
    }
    let mut patterns: Vec<ReferencePattern> = Vec::new();
    let mut j: usize = 0;
    while j < g.patterns.len()
        invariant
            j <= g.patterns@.len(),
            patterns@ == g.patterns@.take(j as int),
        decreases g.patterns@.len() - j,
    {
        let p = &g.patterns[j];
        patterns.push(ReferencePattern {
            pattern_id: p.pattern_id.clone(),
            source_type: p.source_type.clone(),
            target_type: p.target_type.clone(),
            frequency: p.frequency,
        });
        assert(patterns@ =~= g.patterns@.take(j + 1));
        j = j + 1;
    }
    assert(g.patterns@.take(g.patterns@.len() as int) =~= g.patterns@);
    Genome {
        version: g.version,
        extracted_at: g.extracted_at,
        roots: clone_ids(&g.roots),
        topology: CausalTopology {
            paths,
            branches: clone_ids(&g.topology.branches),
            convergences: clone_ids(&g.topology.convergences),
        },
        patterns,
        epoch_summary: g.epoch_summary,
    }
}

} // verus!
