//! The evolution agent: natural selection of distinctions. Each distinction is
//! scored for fitness (references, causal descendants, age); the fit are kept,
//! the unfit archived.
//!
//! Times are nanoseconds after the Unix epoch (UTC).

use vstd::prelude::*;
use crate::causal_graph::{reaches, CausalGraph};
use crate::memory::cold::{ArchiveAgent, DAY_NANOS};
use crate::memory::deep::{ArchivedEpoch, DeepMemory};
use crate::numfmt::{decimal, push_decimal};
use crate::reference_graph::{list_at, ReferenceGraph};
use crate::strings::views;
use vstd::string::*;

verus! {

/// A week, in nanoseconds.
pub const WEEK_NANOS: i64 = 604_800_000_000_000;

/// Evolution agent configuration.
#[derive(Debug, Clone, Copy, PartialEq, Eq, Structural)]
pub struct EvolutionConfig {
    /// How often to run evolution (seconds).
    pub interval_secs: u64,
    /// Fitness threshold (a score at or above it is "fit").
    pub fitness_threshold: usize,
    /// Age threshold in nanoseconds: past it, each further day costs a point.
    pub age_threshold_nanos: i64,
    /// What each causal descendant adds to the fitness.
    pub descendant_bonus: usize,
}

impl Default for EvolutionConfig {
    /// Hourly runs, threshold 2, a week before age counts, one point per descendant.
    fn default() -> (c: Self)
        ensures
            c.interval_secs == 3600,
            c.fitness_threshold == 2,
            c.age_threshold_nanos == WEEK_NANOS,
            c.descendant_bonus == 1,
    {
        EvolutionConfig { interval_secs: 3600, fitness_threshold: 2, age_threshold_nanos: WEEK_NANOS, descendant_bonus: 1 }
    }
}

/// Fitness score for a distinction.
#[derive(Debug, Clone)]
pub struct Fitness {
    pub distinction_id: String,
    pub reference_count: usize,
    pub descendant_count: usize,
    pub age_days: i64,
    pub total_score: i64,
}

/// Classification result.
#[derive(Debug, Clone)]
pub struct Classification {
    pub fit: Vec<Fitness>,
    pub unfit: Vec<Fitness>,
}

/// Evolution result.
#[derive(Debug, Clone, Copy)]
pub struct EvolutionResult {
    pub distinctions_preserved: u64,
    pub distinctions_archived: u64,
}

/// Evolution statistics (the preservation rate is preserved / evaluated).
#[derive(Debug, Clone, Copy)]
pub struct EvolutionStats {
    pub distinctions_evaluated: u64,
    pub distinctions_preserved: u64,
    pub distinctions_archived: u64,
}

/// A fitness score by its plain values: ID, references, descendants, age in
/// days, total.
pub type FitnessView = (Seq<char>, usize, usize, i64, i64);

/// The plain values of a fitness score.
pub open spec fn fitness_view(f: Fitness) -> FitnessView {
    (f.distinction_id@, f.reference_count, f.descendant_count, f.age_days, f.total_score)
}

/// The plain values of a list of fitness scores.
pub open spec fn fitness_views(s: Seq<Fitness>) -> Seq<FitnessView> {
    s.map_values(|f: Fitness| fitness_view(f))
}

/// Whole days in a span of nanoseconds, rounded toward zero.
pub open spec fn whole_days(nanos: int) -> int {
    if nanos >= 0 { nanos / (DAY_NANOS as int) } else { -((-nanos) / (DAY_NANOS as int)) }
}

/// `a * b`, held at `usize::MAX`.
pub open spec fn sat_mul(a: usize, b: usize) -> int {
    if a * b > usize::MAX { usize::MAX as int } else { a * b }
}

/// `x` held within the range of `i64`.
pub open spec fn clamp_i64(x: int) -> i64 {
    if x > i64::MAX { i64::MAX } else if x < i64::MIN { i64::MIN } else { x as i64 }
}

/// Fitness = references + descendants * bonus, less a point for each whole day
/// of age past the threshold.
pub open spec fn fitness_score(refs: usize, descendants: usize, bonus: usize, age: int, age_threshold: i64) -> i64 {
    let penalty = if age > age_threshold { whole_days(age - age_threshold) } else { 0 };
    clamp_i64(refs + sat_mul(descendants, bonus) - penalty)
}

/// The distinctions a chain of causal edges leads to from `id`.
pub open spec fn descendant_set(g: &CausalGraph, id: Seq<char>) -> Set<Seq<char>> {
    Set::new(|d: Seq<char>| reaches(g.edge_ids(), id, d))
}

/// `x + y` wrapped into `u64`.
pub open spec fn wrap_add(x: u64, y: u64) -> u64 {
    if x + y > u64::MAX { (x + y - u64::MAX - 1) as u64 } else { (x + y) as u64 }
}

/// Whether a fitness view is at or above the threshold.
pub open spec fn is_fit(threshold: usize) -> spec_fn(FitnessView) -> bool {
    |v: FitnessView| v.4 >= threshold as i64
}

/// Whether a fitness view is below the threshold.
pub open spec fn is_unfit(threshold: usize) -> spec_fn(FitnessView) -> bool {
    |v: FitnessView| v.4 < threshold as i64
}

/// `x + y` wrapped into `u64`, as the agent's atomic counters add.
pub(crate) fn wrapping_add(x: u64, y: u64) -> (r: u64)
    ensures
        r == wrap_add(x, y),
{
    if y > u64::MAX - x {
        y - (u64::MAX - x) - 1
    } else {
        x + y
    }
}

/// `a * b`, held at `usize::MAX`.
fn saturating_mul(a: usize, b: usize) -> (r: usize)
    ensures
        r == sat_mul(a, b),
{
    if a == 0 {
        return 0;
    }
    if b > usize::MAX / a {
        proof {
            assert(a * b > usize::MAX) by (nonlinear_arith)
                requires
                    a > 0,
                    b > usize::MAX / a,
            ;
        }
        usize::MAX
    } else {
        proof {
            assert(a * b <= usize::MAX) by (nonlinear_arith)
                requires
                    a > 0,
                    b <= usize::MAX / a,
            ;
        }
        a * b
    }
}

/// Whole days in a span of nanoseconds, rounded toward zero.
fn days_in(nanos: i128) -> (r: i64)
    requires
        -0x1_0000_0000_0000_0000_0000i128 <= nanos <= 0x1_0000_0000_0000_0000_0000i128,
    ensures
        r == whole_days(nanos as int),
{
    let day: i128 = 86_400_000_000_000;
    if nanos >= 0 {
        (nanos / day) as i64
    } else {
        let d = (0 - nanos) / day;
        (0 - d) as i64
    }
}

/// The evolution agent: scores distinctions and keeps the fit.
#[derive(Debug)]
pub struct EvolutionAgent {
    config: EvolutionConfig,
    distinctions_evaluated: u64,
    distinctions_preserved: u64,
    distinctions_archived: u64,
}

impl EvolutionAgent {
    /// The configuration.
    pub closed spec fn spec_config(&self) -> EvolutionConfig {
        self.config
    }

    /// The counters: evaluated, preserved, archived.
    pub closed spec fn counters(&self) -> (u64, u64, u64) {
        (self.distinctions_evaluated, self.distinctions_preserved, self.distinctions_archived)
    }

    /// The fitness of `id`, stamped `timestamp`, at `now`.
    pub open spec fn expected_fitness(&self, rg: &ReferenceGraph, cg: &CausalGraph, id: Seq<char>, timestamp: i64, now: i64) -> FitnessView {
        let refs = list_at(rg.inc(), id).len() as usize;
        let descendants = descendant_set(cg, id).len() as usize;
        let age = now - timestamp;
        (
            id,
            refs,
            descendants,
            whole_days(age) as i64,
            fitness_score(refs, descendants, self.spec_config().descendant_bonus, age, self.spec_config().age_threshold_nanos),
        )
    }

    /// An agent with the default configuration.
    pub fn new() -> (a: Self)
        ensures
            a.spec_config() == (EvolutionConfig { interval_secs: 3600, fitness_threshold: 2, age_threshold_nanos: WEEK_NANOS, descendant_bonus: 1 }),
            a.counters() == (0u64, 0u64, 0u64),
    {
        Self::with_config(EvolutionConfig::default())
    }

    /// An agent with the given configuration.
    pub fn with_config(config: EvolutionConfig) -> (a: Self)
        ensures
            a.spec_config() == config,
            a.counters() == (0u64, 0u64, 0u64),
    {
        EvolutionAgent { config, distinctions_evaluated: 0, distinctions_preserved: 0, distinctions_archived: 0 }
    }

    /// The fitness of `distinction_id`, created at `timestamp`, as of `now`:
    /// its references plus its descendants times the bonus, less a point per
    /// whole day of age past the threshold.
    pub fn calculate_fitness(
        &self,
        distinction_id: &str,
        reference_graph: &ReferenceGraph,
        causal_graph: &CausalGraph,
        timestamp: i64,
        now: i64,
    ) -> (f: Fitness)
        ensures
            fitness_view(f) == self.expected_fitness(reference_graph, causal_graph, distinction_id@, timestamp, now),
            descendant_set(causal_graph, distinction_id@).finite(),
    {
        let reference_count = reference_graph.reference_count(distinction_id);
        let descendants = causal_graph.descendants(distinction_id);
        let descendant_count = descendants.len();
        proof {
            assert(views(descendants@).to_set() =~= descendant_set(causal_graph, distinction_id@));
            views(descendants@).unique_seq_to_set();
        }
        let age: i128 = now as i128 - timestamp as i128;
        let age_days = days_in(age);
        let gain: i128 = reference_count as i128 + saturating_mul(descendant_count, self.config.descendant_bonus) as i128;
        let threshold: i128 = self.config.age_threshold_nanos as i128;
        let penalty: i128 = if age > threshold { days_in(age - threshold) as i128 } else { 0 };
        let raw: i128 = gain - penalty;
        let total_score: i64 = if raw > i64::MAX as i128 {
            i64::MAX
        } else if raw < i64::MIN as i128 {
            i64::MIN
        } else {
            raw as i64
        };
        Fitness {
            distinction_id: distinction_id.to_string(),
            reference_count,
            descendant_count,
            age_days,
            total_score,
        }
    }

    /// Score each (ID, timestamp) pair as of `now`, counting each evaluation,
    /// and split them into the fit (score at or above the threshold) and the
    /// unfit, each in the given order.
    pub fn classify_distinctions(
        &mut self,
        distinctions: &[(String, i64)],
        reference_graph: &ReferenceGraph,
        causal_graph: &CausalGraph,
        now: i64,
    ) -> (c: Classification)
        ensures
            fitness_views(c.fit@) == distinctions@.map_values(|p: (String, i64)|
                old(self).expected_fitness(reference_graph, causal_graph, p.0@, p.1, now)).filter(is_fit(old(self).spec_config().fitness_threshold)),
            fitness_views(c.unfit@) == distinctions@.map_values(|p: (String, i64)|
                old(self).expected_fitness(reference_graph, causal_graph, p.0@, p.1, now)).filter(is_unfit(old(self).spec_config().fitness_threshold)),
            final(self).spec_config() == old(self).spec_config(),
            final(self).counters() == (
                wrap_add(old(self).counters().0, distinctions@.len() as u64),
                old(self).counters().1,
                old(self).counters().2,
            ),
    {
        let ghost expected = distinctions@.map_values(|p: (String, i64)|
            self.expected_fitness(reference_graph, causal_graph, p.0@, p.1, now));
        let ghost threshold = self.config.fitness_threshold;
        let mut fit: Vec<Fitness> = Vec::new();
        let mut unfit: Vec<Fitness> = Vec::new();
        let mut i: usize = 0;
        proof {
            assert(expected.take(0) =~= Seq::<FitnessView>::empty());
            assert(fitness_views(fit@) =~= Seq::<FitnessView>::empty());
            assert(fitness_views(unfit@) =~= Seq::<FitnessView>::empty());
        }
        while i < distinctions.len()
            invariant
                i <= distinctions@.len(),
                self.config == old(self).spec_config(),
                threshold == self.config.fitness_threshold,
                expected == distinctions@.map_values(|p: (String, i64)|
                    old(self).expected_fitness(reference_graph, causal_graph, p.0@, p.1, now)),
                fitness_views(fit@) == expected.take(i as int).filter(is_fit(threshold)),
                fitness_views(unfit@) == expected.take(i as int).filter(is_unfit(threshold)),
                self.distinctions_evaluated == wrap_add(old(self).counters().0, i as u64),
                self.distinctions_preserved == old(self).counters().1,
                self.distinctions_archived == old(self).counters().2,
            decreases distinctions@.len() - i,
        {
            let fitness = self.calculate_fitness(distinctions[i].0.as_str(), reference_graph, causal_graph, distinctions[i].1, now);
            proof {
                reveal(Seq::filter);
                assert(expected.take(i + 1).drop_last() =~= expected.take(i as int));
                assert(expected.take(i + 1).last() == expected[i as int]);
                assert(fitness_view(fitness) == expected[i as int]);
                assert(wrap_add(wrap_add(old(self).counters().0, i as u64), 1) == wrap_add(old(self).counters().0, (i + 1) as u64));
            }
            self.distinctions_evaluated = wrapping_add(self.distinctions_evaluated, 1);
            let ghost fit_before = fitness_views(fit@);
            let ghost unfit_before = fitness_views(unfit@);
            let ghost fv = fitness_view(fitness);
            if fitness.total_score >= self.config.fitness_threshold as i64 {
                fit.push(fitness);
                proof {
                    assert(fitness_views(fit@) =~= fit_before.push(fv));
                }
            } else {
                unfit.push(fitness);
                proof {
                    assert(fitness_views(unfit@) =~= unfit_before.push(fv));
                }
            }
            i = i + 1;
        }
        proof {
            assert(expected.take(distinctions@.len() as int) =~= expected);
        }
        Classification { fit, unfit }
    }

    /// Evolve a cold epoch: the epoch is archived in deep memory as
    /// `epoch_{epoch_num}` at `now`, with no distinctions and no size, and
    /// nothing is counted as preserved or archived.
    pub fn evolve_epoch(
        &mut self,
        cold: &ArchiveAgent,
        deep: &mut DeepMemory,
        epoch_num: usize,
        reference_graph: &ReferenceGraph,
        causal_graph: &CausalGraph,
        now: i64,
    ) -> (r: EvolutionResult)
        ensures
            r.distinctions_preserved == 0,
            r.distinctions_archived == 0,
            final(deep).archived() == old(deep).archived().insert(
                "epoch_"@ + decimal(epoch_num as nat),
                ArchivedEpoch { archived_at: now, compressed_size: 0, distinction_count: 0 },
            ),
            final(deep).genomes() == old(deep).genomes(),
            final(deep).counters() == old(deep).counters(),
            final(self).counters() == old(self).counters(),
            final(self).spec_config() == old(self).spec_config(),
    {
        let mut epoch_id = String::from_str("epoch_");
        proof {
            reveal_strlit("epoch_");
        }
        push_decimal(&mut epoch_id, epoch_num as u64);
        deep.archive_epoch(epoch_id, 0, 0, now);
        EvolutionResult { distinctions_preserved: 0, distinctions_archived: 0 }
    }

    /// Count the fit distinctions as preserved.
    pub fn preserve(&mut self, fit_ids: &[String])
        ensures
            final(self).counters() == (
                old(self).counters().0,
                wrap_add(old(self).counters().1, fit_ids@.len() as u64),
                old(self).counters().2,
            ),
            final(self).spec_config() == old(self).spec_config(),
    {
        self.distinctions_preserved = wrapping_add(self.distinctions_preserved, fit_ids.len() as u64);
    }

    /// Count the unfit distinctions as archived.
    pub fn archive_unfit(&mut self, unfit_ids: &[String])
        ensures
            final(self).counters() == (
                old(self).counters().0,
                old(self).counters().1,
                wrap_add(old(self).counters().2, unfit_ids@.len() as u64),
            ),
            final(self).spec_config() == old(self).spec_config(),
    {
        self.distinctions_archived = wrapping_add(self.distinctions_archived, unfit_ids.len() as u64);
    }

    /// The fitness threshold.
    pub fn fitness_threshold(&self) -> (r: usize)
        ensures
            r == self.spec_config().fitness_threshold,
    {
        self.config.fitness_threshold
    }

    /// How often evolution runs, in seconds.
    pub fn interval(&self) -> (r: u64)
        ensures
            r == self.spec_config().interval_secs,
    {
        self.config.interval_secs
    }

    /// Statistics.
    pub fn stats(&self) -> (s: EvolutionStats)
        ensures
            (s.distinctions_evaluated, s.distinctions_preserved, s.distinctions_archived) == self.counters(),
    {
        EvolutionStats {
            distinctions_evaluated: self.distinctions_evaluated,
            distinctions_preserved: self.distinctions_preserved,
            distinctions_archived: self.distinctions_archived,
        }
    }
}

/// The evolution agent, under its earlier name.
pub type DistillationProcess = EvolutionAgent;

/// Evolution configuration, under its earlier name.
pub type DistillationConfig = EvolutionConfig;

/// Evolution result, under its earlier name.
pub type DistillationResult = EvolutionResult;

/// Evolution statistics, under their earlier name.
pub type DistillationStats = EvolutionStats;

} // verus!
