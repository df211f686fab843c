//! Plans moves between memory tiers from importance scores and tier capacities.
//!
//! Importance values are held as the bit pattern of their `f32` value. Every
//! comparison here is the float one (false against NaN), and rankings go by a
//! key that orders non-NaN patterns exactly as the floats order.

use vstd::prelude::*;
use super::MemoryTier;
use crate::floatbits::{clamp_unit, clamp_unit_spec, f32_ge, f32_lt, ge, is_nan, lt, rank_key, rank_of};
use crate::ordering::{first_below, first_above, sort_desc, sort_asc, lemma_first_below, lemma_first_above, lemma_sort_desc_len, lemma_sort_asc_len, lemma_sort_desc_sorted};

verus! {

/// Bit pattern of `1.0f32`.
pub const SCORE_ONE: u32 = 0x3F80_0000;
/// Bit pattern of `0.5f32`.
pub const SCORE_HALF: u32 = 0x3F00_0000;
/// Bit pattern of `0.6f32`, the default Hot threshold.
pub const HOT_MIN_DEFAULT: u32 = 0x3F19_999A;
/// Bit pattern of `0.3f32`, the default Warm threshold.
pub const WARM_MIN_DEFAULT: u32 = 0x3E99_999A;
/// Bit pattern of `0.1f32`, the default Cold threshold.
pub const COLD_MIN_DEFAULT: u32 = 0x3DCC_CCCD;

/// Importance score for a distinction.
#[derive(Debug)]
pub struct ImportanceScore {
    /// The distinction being scored.
    pub distinction_id: String,
    /// Overall importance (bits of an `f32` in `[0.0, 1.0]`).
    pub score: u32,
    /// Confidence in the score (bits of an `f32` in `[0.0, 1.0]`).
    pub confidence: u32,
    /// Score weighted by confidence, `score * confidence` (bits of the `f32` product).
    pub weighted: u32,
}

impl ImportanceScore {
    /// A copy of this score.
    pub fn duplicate(&self) -> (r: Self)
        ensures
            r == *self,
    {
        ImportanceScore {
            distinction_id: self.distinction_id.clone(),
            score: self.score,
            confidence: self.confidence,
            weighted: self.weighted,
        }
    }

    /// Weighted score considering confidence.
    pub fn weighted_score(&self) -> (r: u32)
        ensures
            r == self.weighted,
    {
        self.weighted
    }

    /// Whether this distinction should stay in Hot memory.
    pub fn should_stay_hot(&self, threshold: u32) -> (r: bool)
        ensures
            r == f32_ge(self.score, threshold),
    {
        ge(self.score, threshold)
    }

    /// Whether this distinction should be promoted to Hot.
    pub fn should_promote_to_hot(&self, threshold: u32) -> (r: bool)
        ensures
            r == (f32_ge(self.score, threshold) && f32_lt(SCORE_HALF, self.confidence)),
    {
        ge(self.score, threshold) && lt(SCORE_HALF, self.confidence)
    }

    /// Whether this distinction can be demoted to Warm.
    pub fn can_demote_to_warm(&self, threshold: u32) -> (r: bool)
        ensures
            r == f32_lt(self.score, threshold),
    {
        lt(self.score, threshold)
    }
}

/// Type of transition.
#[derive(Debug, Clone, Copy, PartialEq, Eq, Structural)]
pub enum TransitionType {
    /// Moving to faster tier
    Promote,
    /// Moving to slower tier
    Demote,
    /// Moving to archival storage
    Archive,
    /// Restoring from archival
    Restore,
    /// Other/unclassified
    Other,
}

/// The type of a move between two tiers.
pub open spec fn transition_type_of(from: MemoryTier, to: MemoryTier) -> TransitionType {
    match (from, to) {
        (MemoryTier::Hot, MemoryTier::Warm) => TransitionType::Demote,
        (MemoryTier::Warm, MemoryTier::Cold) => TransitionType::Demote,
        (MemoryTier::Cold, MemoryTier::Deep) => TransitionType::Archive,
        (MemoryTier::Warm, MemoryTier::Hot) => TransitionType::Promote,
        (MemoryTier::Cold, MemoryTier::Warm) => TransitionType::Promote,
        (MemoryTier::Deep, MemoryTier::Cold) => TransitionType::Restore,
        _ => TransitionType::Other,
    }
}

/// A planned transition between memory tiers.
#[derive(Debug)]
pub struct Transition {
    /// The distinction to move.
    pub distinction_id: String,
    /// Current tier.
    pub from_tier: MemoryTier,
    /// Target tier.
    pub to_tier: MemoryTier,
    /// Importance score that triggered this transition.
    pub importance_score: u32,
    /// Priority for execution (higher = execute first).
    pub priority: u32,
}

impl Transition {
    /// Create a transition whose priority is its score.
    pub fn new(distinction_id: String, from: MemoryTier, to: MemoryTier, score: u32) -> (t: Self)
        ensures
            t.distinction_id == distinction_id,
            t.from_tier == from,
            t.to_tier == to,
            t.importance_score == score,
            t.priority == score,
    {
        Transition { distinction_id, from_tier: from, to_tier: to, importance_score: score, priority: score }
    }

    /// The kind of move this is.
    pub fn transition_type(&self) -> (r: TransitionType)
        ensures
            r == transition_type_of(self.from_tier, self.to_tier),
    {
        match (self.from_tier, self.to_tier) {
            (MemoryTier::Hot, MemoryTier::Warm) => TransitionType::Demote,
            (MemoryTier::Warm, MemoryTier::Cold) => TransitionType::Demote,
            (MemoryTier::Cold, MemoryTier::Deep) => TransitionType::Archive,
            (MemoryTier::Warm, MemoryTier::Hot) => TransitionType::Promote,
            (MemoryTier::Cold, MemoryTier::Warm) => TransitionType::Promote,
            (MemoryTier::Deep, MemoryTier::Cold) => TransitionType::Restore,
            _ => TransitionType::Other,
        }
    }

    /// Whether this moves to a faster tier (a promotion or a restore).
    pub fn is_promotion(&self) -> (r: bool)
        ensures
            r == (transition_type_of(self.from_tier, self.to_tier) == TransitionType::Promote
                || transition_type_of(self.from_tier, self.to_tier) == TransitionType::Restore),
    {
        let t = self.transition_type();
        t == TransitionType::Promote || t == TransitionType::Restore
    }

    /// Whether this moves to a slower tier (a demotion or an archive).
    pub fn is_demotion(&self) -> (r: bool)
        ensures
            r == (transition_type_of(self.from_tier, self.to_tier) == TransitionType::Demote
                || transition_type_of(self.from_tier, self.to_tier) == TransitionType::Archive),
    {
        let t = self.transition_type();
        t == TransitionType::Demote || t == TransitionType::Archive
    }
}

/// Batch of transitions grouped by target tier.
#[derive(Debug)]
pub struct TransitionBatch {
    /// Transitions to Hot tier.
    pub to_hot: Vec<Transition>,
    /// Transitions to Warm tier.
    pub to_warm: Vec<Transition>,
    /// Transitions to Cold tier.
    pub to_cold: Vec<Transition>,
    /// Transitions to Deep tier.
    pub to_deep: Vec<Transition>,
}

impl TransitionBatch {
    /// Create an empty batch.
    pub fn new() -> (b: Self)
        ensures
            b.to_hot@.len() == 0,
            b.to_warm@.len() == 0,
            b.to_cold@.len() == 0,
            b.to_deep@.len() == 0,
    {
        TransitionBatch { to_hot: Vec::new(), to_warm: Vec::new(), to_cold: Vec::new(), to_deep: Vec::new() }
    }

    /// Add a transition to the bucket of its target tier.
    pub fn add(&mut self, transition: Transition)
        ensures
            final(self).to_hot@ == (if transition.to_tier == MemoryTier::Hot { old(self).to_hot@.push(transition) } else { old(self).to_hot@ }),
            final(self).to_warm@ == (if transition.to_tier == MemoryTier::Warm { old(self).to_warm@.push(transition) } else { old(self).to_warm@ }),
            final(self).to_cold@ == (if transition.to_tier == MemoryTier::Cold { old(self).to_cold@.push(transition) } else { old(self).to_cold@ }),
            final(self).to_deep@ == (if transition.to_tier == MemoryTier::Deep { old(self).to_deep@.push(transition) } else { old(self).to_deep@ }),
    {
        match transition.to_tier {
            MemoryTier::Hot => self.to_hot.push(transition),
            MemoryTier::Warm => self.to_warm.push(transition),
            MemoryTier::Cold => self.to_cold.push(transition),
            MemoryTier::Deep => self.to_deep.push(transition),
        }
    }

    /// Total number of transitions.
    pub fn len(&self) -> (r: usize)
        requires
            self.to_hot@.len() + self.to_warm@.len() + self.to_cold@.len() + self.to_deep@.len() <= usize::MAX,
        ensures
            r == self.to_hot@.len() + self.to_warm@.len() + self.to_cold@.len() + self.to_deep@.len(),
    {
        self.to_hot.len() + self.to_warm.len() + self.to_cold.len() + self.to_deep.len()
    }

    /// Whether the batch holds no transition.
    pub fn is_empty(&self) -> (r: bool)
        ensures
            r == (self.to_hot@.len() + self.to_warm@.len() + self.to_cold@.len() + self.to_deep@.len() == 0),
    {
        self.to_hot.len() == 0 && self.to_warm.len() == 0 && self.to_cold.len() == 0 && self.to_deep.len() == 0
    }

    /// Group transitions by target tier, keeping their order within each tier.
    pub fn from_transitions(transitions: Vec<Transition>) -> (b: Self)
        ensures
            b.to_hot@ == transitions@.filter(|t: Transition| t.to_tier == MemoryTier::Hot),
            b.to_warm@ == transitions@.filter(|t: Transition| t.to_tier == MemoryTier::Warm),
            b.to_cold@ == transitions@.filter(|t: Transition| t.to_tier == MemoryTier::Cold),
            b.to_deep@ == transitions@.filter(|t: Transition| t.to_tier == MemoryTier::Deep),
    {
        let ghost all = transitions@;
        let mut rev: Vec<Transition> = Vec::new();
        let mut transitions = transitions;
        while transitions.len() > 0
            invariant
                transitions@.len() + rev@.len() == all.len(),
                transitions@ == all.take(transitions@.len() as int),
                forall|j: int| 0 <= j < rev@.len() ==> #[trigger] rev@[j] == all[all.len() - 1 - j],
            decreases transitions@.len(),
        {
            let t = transitions.pop().unwrap();
            rev.push(t);
        }
        let mut batch = Self::new();
        proof {
            reveal(Seq::filter);
            assert(all.take(0) =~= Seq::<Transition>::empty());
            assert(batch.to_hot@ =~= all.take(0).filter(|t: Transition| t.to_tier == MemoryTier::Hot));
            assert(batch.to_warm@ =~= all.take(0).filter(|t: Transition| t.to_tier == MemoryTier::Warm));
            assert(batch.to_cold@ =~= all.take(0).filter(|t: Transition| t.to_tier == MemoryTier::Cold));
            assert(batch.to_deep@ =~= all.take(0).filter(|t: Transition| t.to_tier == MemoryTier::Deep));
        }
        while rev.len() > 0
            invariant
                rev@.len() <= all.len(),
                forall|j: int| 0 <= j < rev@.len() ==> #[trigger] rev@[j] == all[all.len() - 1 - j],
                batch.to_hot@ == all.take(all.len() - rev@.len()).filter(|t: Transition| t.to_tier == MemoryTier::Hot),
                batch.to_warm@ == all.take(all.len() - rev@.len()).filter(|t: Transition| t.to_tier == MemoryTier::Warm),
                batch.to_cold@ == all.take(all.len() - rev@.len()).filter(|t: Transition| t.to_tier == MemoryTier::Cold),
                batch.to_deep@ == all.take(all.len() - rev@.len()).filter(|t: Transition| t.to_tier == MemoryTier::Deep),
            decreases rev@.len(),
        {
            let ghost k = all.len() - rev@.len();
            let t = rev.pop().unwrap();
            proof {
                reveal(Seq::filter);
                assert(all.take(k + 1).drop_last() =~= all.take(k));
                assert(all.take(k + 1).last() == t);
            }
            batch.add(t);
        }
        proof {
            assert(all.take(all.len() as int) =~= all);
        }
        batch
    }
}

/// The rank of an importance score's score (ordering as the floats do).
pub open spec fn score_key() -> spec_fn(ImportanceScore) -> int {
    |x: ImportanceScore| rank_of(x.score) as int
}

/// The rank of a transition's priority (ordering as the floats do).
pub open spec fn priority_key() -> spec_fn(Transition) -> int {
    |t: Transition| rank_of(t.priority) as int
}

/// Scores ranked by score, highest first, ties in input order.
fn rank_scores_desc(scores: &Vec<ImportanceScore>) -> (r: Vec<ImportanceScore>)
    ensures
        r@ == sort_desc(scores@, score_key()),
{
    let mut r: Vec<ImportanceScore> = Vec::new();
    let mut i: usize = 0;
    assert(scores@.take(0) =~= Seq::<ImportanceScore>::empty());
    while i < scores.len()
        invariant
            i <= scores@.len(),
            r@ == sort_desc(scores@.take(i as int), score_key()),
        decreases scores@.len() - i,
    {
        let x = scores[i].duplicate();
        let xk = rank_key(x.score);
        let mut p: usize = 0;
        while p < r.len() && !(rank_key(r[p].score) < xk)
            invariant
                p <= r@.len(),
                xk == rank_of(x.score),
                forall|q: int| 0 <= q < p ==> !(rank_of((#[trigger] r@[q]).score) < xk),
            decreases r@.len() - p,
        {
            p = p + 1;
        }
        proof {
            lemma_first_below(r@, score_key(), xk as int, p as int);
            assert(scores@.take(i + 1).drop_last() =~= scores@.take(i as int));
            assert(scores@.take(i + 1).last() == x);
        }
        r.insert(p, x);
        i = i + 1;
    }
    assert(scores@.take(scores@.len() as int) =~= scores@);
    r
}

/// Scores ranked by score, lowest first, ties in input order.
fn rank_scores_asc(scores: &Vec<ImportanceScore>) -> (r: Vec<ImportanceScore>)
    ensures
        r@ == sort_asc(scores@, score_key()),
{
    let mut r: Vec<ImportanceScore> = Vec::new();
    let mut i: usize = 0;
    assert(scores@.take(0) =~= Seq::<ImportanceScore>::empty());
    while i < scores.len()
        invariant
            i <= scores@.len(),
            r@ == sort_asc(scores@.take(i as int), score_key()),
        decreases scores@.len() - i,
    {
        let x = scores[i].duplicate();
        let xk = rank_key(x.score);
        let mut p: usize = 0;
        while p < r.len() && !(rank_key(r[p].score) > xk)
            invariant
                p <= r@.len(),
                xk == rank_of(x.score),
                forall|q: int| 0 <= q < p ==> !(rank_of((#[trigger] r@[q]).score) > xk),
            decreases r@.len() - p,
        {
            p = p + 1;
        }
        proof {
            lemma_first_above(r@, score_key(), xk as int, p as int);
            assert(scores@.take(i + 1).drop_last() =~= scores@.take(i as int));
            assert(scores@.take(i + 1).last() == x);
        }
        r.insert(p, x);
        i = i + 1;
    }
    assert(scores@.take(scores@.len() as int) =~= scores@);
    r
}

/// Transitions ordered by priority, highest first, ties in input order.
fn order_by_priority(ts: Vec<Transition>) -> (r: Vec<Transition>)
    ensures
        r@ == sort_desc(ts@, priority_key()),
{
    let ghost all = ts@;
    let mut rev: Vec<Transition> = Vec::new();
    let mut ts = ts;
    while ts.len() > 0
        invariant
            ts@.len() + rev@.len() == all.len(),
            ts@ == all.take(ts@.len() as int),
            forall|j: int| 0 <= j < rev@.len() ==> #[trigger] rev@[j] == all[all.len() - 1 - j],
        decreases ts@.len(),
    {
        let t = ts.pop().unwrap();
        rev.push(t);
    }
    let mut r: Vec<Transition> = Vec::new();
    assert(all.take(0) =~= Seq::<Transition>::empty());
    while rev.len() > 0
        invariant
            rev@.len() <= all.len(),
            forall|j: int| 0 <= j < rev@.len() ==> #[trigger] rev@[j] == all[all.len() - 1 - j],
            r@ == sort_desc(all.take(all.len() - rev@.len()), priority_key()),
        decreases rev@.len(),
    {
        let ghost k = all.len() - rev@.len();
        let x = rev.pop().unwrap();
        let xk = rank_key(x.priority);
        let mut p: usize = 0;
        while p < r.len() && !(rank_key(r[p].priority) < xk)
            invariant
                p <= r@.len(),
                xk == rank_of(x.priority),
                forall|q: int| 0 <= q < p ==> !(rank_of((#[trigger] r@[q]).priority) < xk),
            decreases r@.len() - p,
        {
            p = p + 1;
        }
        proof {
            lemma_first_below(r@, priority_key(), xk as int, p as int);
            assert(all.take(k + 1).drop_last() =~= all.take(k));
            assert(all.take(k + 1).last() == x);
        }
        r.insert(p, x);
    }
    assert(all.take(all.len() as int) =~= all);
    r
}

/// Plans transitions between memory tiers from importance scores.
#[derive(Debug)]
pub struct TransitionPlanner {
    /// Hot tier target capacity.
    hot_capacity: usize,
    /// Warm tier target capacity.
    warm_capacity: usize,
    /// Cold tier target capacity per epoch.
    cold_capacity_per_epoch: usize,
    /// Minimum importance for Hot tier.
    hot_min_importance: u32,
    /// Minimum importance for Warm tier.
    warm_min_importance: u32,
    /// Minimum importance for Cold tier.
    cold_min_importance: u32,
}

/// The tier a distinction with this score is taken to be in now.
pub open spec fn inferred_tier(hot_min: u32, warm_min: u32, cold_min: u32, score: u32) -> MemoryTier {
    if f32_ge(score, hot_min) {
        MemoryTier::Hot
    } else if f32_ge(score, warm_min) {
        MemoryTier::Warm
    } else if f32_ge(score, cold_min) {
        MemoryTier::Cold
    } else {
        MemoryTier::Deep
    }
}

impl TransitionPlanner {
    /// Hot tier target capacity.
    pub closed spec fn hot_cap(&self) -> usize { self.hot_capacity }
    /// Warm tier target capacity.
    pub closed spec fn warm_cap(&self) -> usize { self.warm_capacity }
    /// Cold tier target capacity per epoch.
    pub closed spec fn cold_cap(&self) -> usize { self.cold_capacity_per_epoch }
    /// Minimum importance for Hot.
    pub closed spec fn hot_min(&self) -> u32 { self.hot_min_importance }
    /// Minimum importance for Warm.
    pub closed spec fn warm_min(&self) -> u32 { self.warm_min_importance }
    /// Minimum importance for Cold.
    pub closed spec fn cold_min(&self) -> u32 { self.cold_min_importance }

    /// Transitions for ranked scores, `h`, `w`, `c` slots of Hot, Warm, Cold
    /// being taken already: each score goes to the fastest tier that has room
    /// and whose threshold it meets (Deep otherwise), and a transition is
    /// planned when that differs from the tier its score places it in now.
    pub open spec fn planned(&self, ranked: Seq<ImportanceScore>, h: nat, w: nat, c: nat) -> Seq<Transition>
        decreases ranked.len(),
    {
        if ranked.len() == 0 {
            Seq::empty()
        } else {
            let s = ranked[0];
            let to_hot = h < self.hot_cap() && f32_ge(s.score, self.hot_min());
            let to_warm = !to_hot && w < self.warm_cap() && f32_ge(s.score, self.warm_min());
            let to_cold = !to_hot && !to_warm && c < self.cold_cap() && f32_ge(s.score, self.cold_min());
            let target = if to_hot {
                MemoryTier::Hot
            } else if to_warm {
                MemoryTier::Warm
            } else if to_cold {
                MemoryTier::Cold
            } else {
                MemoryTier::Deep
            };
            let rest = self.planned(
                ranked.drop_first(),
                if to_hot { h + 1 } else { h },
                if to_warm { w + 1 } else { w },
                if to_cold { c + 1 } else { c },
            );
            let current = inferred_tier(self.hot_min(), self.warm_min(), self.cold_min(), s.score);
            if current != target {
                seq![Transition {
                    distinction_id: s.distinction_id,
                    from_tier: current,
                    to_tier: target,
                    importance_score: s.score,
                    priority: s.weighted,
                }] + rest
            } else {
                rest
            }
        }
    }

    /// Create a planner with the default capacities (1000, 10000, 100000) and
    /// thresholds (0.6, 0.3, 0.1).
    pub fn new() -> (p: Self)
        ensures
            p.hot_cap() == 1000,
            p.warm_cap() == 10000,
            p.cold_cap() == 100000,
            p.hot_min() == HOT_MIN_DEFAULT,
            p.warm_min() == WARM_MIN_DEFAULT,
            p.cold_min() == COLD_MIN_DEFAULT,
    {
        Self::with_capacities(1000, 10000, 100000)
    }

    /// Create with custom capacities and the default thresholds.
    pub fn with_capacities(hot: usize, warm: usize, cold_per_epoch: usize) -> (p: Self)
        ensures
            p.hot_cap() == hot,
            p.warm_cap() == warm,
            p.cold_cap() == cold_per_epoch,
            p.hot_min() == HOT_MIN_DEFAULT,
            p.warm_min() == WARM_MIN_DEFAULT,
            p.cold_min() == COLD_MIN_DEFAULT,
    {
        TransitionPlanner {
            hot_capacity: hot,
            warm_capacity: warm,
            cold_capacity_per_epoch: cold_per_epoch,
            hot_min_importance: HOT_MIN_DEFAULT,
            warm_min_importance: WARM_MIN_DEFAULT,
            cold_min_importance: COLD_MIN_DEFAULT,
        }
    }

    /// Hot tier capacity.
    pub fn hot_capacity(&self) -> (r: usize)
        ensures
            r == self.hot_cap(),
    {
        self.hot_capacity
    }

    /// Warm tier capacity.
    pub fn warm_capacity(&self) -> (r: usize)
        ensures
            r == self.warm_cap(),
    {
        self.warm_capacity
    }

    /// The three importance thresholds (Hot, Warm, Cold).
    pub fn thresholds(&self) -> (r: (u32, u32, u32))
        ensures
            r == (self.hot_min(), self.warm_min(), self.cold_min()),
    {
        (self.hot_min_importance, self.warm_min_importance, self.cold_min_importance)
    }

    /// Set importance thresholds, each clamped to `[0.0, 1.0]`.
    pub fn set_thresholds(&mut self, hot: u32, warm: u32, cold: u32)
        ensures
            final(self).hot_min() == clamp_unit_spec(hot),
            final(self).warm_min() == clamp_unit_spec(warm),
            final(self).cold_min() == clamp_unit_spec(cold),
            final(self).hot_cap() == old(self).hot_cap(),
            final(self).warm_cap() == old(self).warm_cap(),
            final(self).cold_cap() == old(self).cold_cap(),
    {
        self.hot_min_importance = clamp_unit(hot);
        self.warm_min_importance = clamp_unit(warm);
        self.cold_min_importance = clamp_unit(cold);
    }

    /// The tier a score places a distinction in now.
    fn infer_current_tier(&self, score: &ImportanceScore) -> (t: MemoryTier)
        ensures
            t == inferred_tier(self.hot_min(), self.warm_min(), self.cold_min(), score.score),
    {
        if ge(score.score, self.hot_min_importance) {
            MemoryTier::Hot
        } else if ge(score.score, self.warm_min_importance) {
            MemoryTier::Warm
        } else if ge(score.score, self.cold_min_importance) {
            MemoryTier::Cold
        } else {
            MemoryTier::Deep
        }
    }

    /// Plan transitions: rank by score (highest first), assign each the fastest
    /// tier with room whose threshold it meets, keep the ones whose tier changes,
    /// and order them by priority (highest first).
    pub fn plan_transitions(&self, scores: &Vec<ImportanceScore>) -> (r: Vec<Transition>)
        requires
            forall|i: int| 0 <= i < scores@.len() ==> !is_nan(#[trigger] scores@[i].score) && !is_nan(scores@[i].weighted),
        ensures
            r@ == sort_desc(self.planned(sort_desc(scores@, score_key()), 0, 0, 0), priority_key()),
    {
        let ranked = rank_scores_desc(scores);
        let mut out: Vec<Transition> = Vec::new();
        let mut hot_count: usize = 0;
        let mut warm_count: usize = 0;
        let mut cold_count: usize = 0;
        let mut i: usize = 0;
        proof {
            assert(ranked@.skip(0) =~= ranked@);
            assert(out@ + self.planned(ranked@, 0, 0, 0) =~= self.planned(ranked@, 0, 0, 0));
        }
        while i < ranked.len()
            invariant
                i <= ranked@.len(),
                hot_count <= self.hot_cap(),
                warm_count <= self.warm_cap(),
                cold_count <= self.cold_cap(),
                self.planned(ranked@, 0, 0, 0) == out@ + self.planned(
                    ranked@.skip(i as int),
                    hot_count as nat,
                    warm_count as nat,
                    cold_count as nat,
                ),
            decreases ranked@.len() - i,
        {
            let score = &ranked[i];
            let ghost rest_before = ranked@.skip(i as int);
            let target = if hot_count < self.hot_capacity && ge(score.score, self.hot_min_importance) {
                hot_count = hot_count + 1;
                MemoryTier::Hot
            } else if warm_count < self.warm_capacity && ge(score.score, self.warm_min_importance) {
                warm_count = warm_count + 1;
                MemoryTier::Warm
            } else if cold_count < self.cold_capacity_per_epoch && ge(score.score, self.cold_min_importance) {
                cold_count = cold_count + 1;
                MemoryTier::Cold
            } else {
                MemoryTier::Deep
            };
            let current = self.infer_current_tier(score);
            proof {
                assert(rest_before[0] == ranked@[i as int]);
                assert(rest_before.drop_first() =~= ranked@.skip(i + 1));
            }
            if current != target {
                let t = Transition {
                    distinction_id: score.distinction_id.clone(),
                    from_tier: current,
                    to_tier: target,
                    importance_score: score.score,
                    priority: score.weighted,
                };
                let ghost before = out@;
                out.push(t);
                proof {
                    assert(out@ + self.planned(ranked@.skip(i + 1), hot_count as nat, warm_count as nat, cold_count as nat)
                        =~= before + (seq![t] + self.planned(ranked@.skip(i + 1), hot_count as nat, warm_count as nat, cold_count as nat)));
                }
            }
            i = i + 1;
        }
        proof {
            assert(ranked@.skip(ranked@.len() as int) =~= Seq::<ImportanceScore>::empty());
            assert(out@ + Seq::<Transition>::empty() =~= out@);
        }
        order_by_priority(out)
    }

    /// Scores to demote in an emergency when Hot overflows: those under the Hot
    /// threshold, lowest score first, at most `hot_overflow` of them. Each is
    /// planned to move from Hot to Warm with priority `1.0 - score`.
    pub fn select_emergency_demotions(&self, scores: &Vec<ImportanceScore>, hot_overflow: usize) -> (r: Vec<ImportanceScore>)
        ensures
            r@ == sort_asc(scores@.filter(|s: ImportanceScore| f32_lt(s.score, self.hot_min())), score_key()).take(
                min_len(hot_overflow as int, scores@.filter(|s: ImportanceScore| f32_lt(s.score, self.hot_min())).len() as int),
            ),
    {
        let candidates = filter_scores_below(scores, self.hot_min_importance);
        proof {
            assert((|s: ImportanceScore| f32_lt(s.score, self.hot_min())) =~= (|s: ImportanceScore| f32_lt(s.score, self.hot_min_importance)));
        }
        let ranked = rank_scores_asc(&candidates);
        proof {
            lemma_sort_asc_len(candidates@, score_key());
        }
        take_scores(ranked, hot_overflow)
    }

    /// The Hot-to-Warm transitions for emergency demotions: one for each chosen
    /// score, in order, with the matching priority (the caller computes `1.0 - score`).
    pub fn emergency_transitions(&self, chosen: &Vec<ImportanceScore>, priorities: &Vec<u32>) -> (r: Vec<Transition>)
        requires
            priorities@.len() == chosen@.len(),
        ensures
            r@.len() == chosen@.len(),
            forall|i: int| 0 <= i < r@.len() ==> #[trigger] r@[i] == (Transition {
                distinction_id: chosen@[i].distinction_id,
                from_tier: MemoryTier::Hot,
                to_tier: MemoryTier::Warm,
                importance_score: chosen@[i].score,
                priority: priorities@[i],
            }),
    {
        let mut out: Vec<Transition> = Vec::new();
        let mut i: usize = 0;
        while i < chosen.len()
            invariant
                i <= chosen@.len(),
                priorities@.len() == chosen@.len(),
                out@.len() == i,
                forall|j: int| 0 <= j < i ==> #[trigger] out@[j] == (Transition {
                    distinction_id: chosen@[j].distinction_id,
                    from_tier: MemoryTier::Hot,
                    to_tier: MemoryTier::Warm,
                    importance_score: chosen@[j].score,
                    priority: priorities@[j],
                }),
            decreases chosen@.len() - i,
        {
            out.push(Transition {
                distinction_id: chosen[i].distinction_id.clone(),
                from_tier: MemoryTier::Hot,
                to_tier: MemoryTier::Warm,
                importance_score: chosen[i].score,
                priority: priorities[i],
            });
            i = i + 1;
        }
        out
    }

    /// Plan promotions from Warm to Hot: scores at or above the Hot threshold with
    /// confidence above 0.5, highest first, at most `hot_available_slots` of them.
    pub fn plan_promotions(&self, scores: &Vec<ImportanceScore>, hot_available_slots: usize) -> (r: Vec<Transition>)
        ensures
            r@ == sort_desc(
                scores@.filter(|s: ImportanceScore| f32_ge(s.score, self.hot_min()) && f32_lt(SCORE_HALF, s.confidence)),
                score_key(),
            ).take(min_len(
                hot_available_slots as int,
                scores@.filter(|s: ImportanceScore| f32_ge(s.score, self.hot_min()) && f32_lt(SCORE_HALF, s.confidence)).len() as int,
            )).map_values(|s: ImportanceScore| Transition {
                distinction_id: s.distinction_id,
                from_tier: MemoryTier::Warm,
                to_tier: MemoryTier::Hot,
                importance_score: s.score,
                priority: s.weighted,
            }),
    {
        let candidates = filter_promotable(scores, self.hot_min_importance);
        proof {
            assert((|s: ImportanceScore| f32_ge(s.score, self.hot_min()) && f32_lt(SCORE_HALF, s.confidence))
                =~= (|s: ImportanceScore| f32_ge(s.score, self.hot_min_importance) && f32_lt(SCORE_HALF, s.confidence)));
        }
        let ranked = rank_scores_desc(&candidates);
        proof {
            lemma_sort_desc_len(candidates@, score_key());
        }
        let chosen = take_scores(ranked, hot_available_slots);
        let mut out: Vec<Transition> = Vec::new();
        let mut i: usize = 0;
        while i < chosen.len()
            invariant
                i <= chosen@.len(),
                out@ == chosen@.take(i as int).map_values(|s: ImportanceScore| Transition {
                    distinction_id: s.distinction_id,
                    from_tier: MemoryTier::Warm,
                    to_tier: MemoryTier::Hot,
                    importance_score: s.score,
                    priority: s.weighted,
                }),
            decreases chosen@.len() - i,
        {
            let s = &chosen[i];
            out.push(Transition {
                distinction_id: s.distinction_id.clone(),
                from_tier: MemoryTier::Warm,
                to_tier: MemoryTier::Hot,
                importance_score: s.score,
                priority: s.weighted,
            });
            proof {
                assert(chosen@.take(i + 1) =~= chosen@.take(i as int).push(chosen@[i as int]));
            }
            i = i + 1;
        }
        proof {
            assert(chosen@.take(chosen@.len() as int) =~= chosen@);
        }
        out
    }
}

/// The number of planned moves when every score meets the Warm threshold but not
/// the Hot one: with `w` Warm slots already taken, the first `warm_cap - w` stay in
/// Warm and each one after that is moved out of Warm.
pub proof fn law_warm_capacity(p: TransitionPlanner, ranked: Seq<ImportanceScore>, h: nat, w: nat, c: nat)
    requires
        w <= p.warm_cap(),
        forall|i: int| 0 <= i < ranked.len() ==> f32_ge((#[trigger] ranked[i]).score, p.warm_min()) && !f32_ge(ranked[i].score, p.hot_min()),
    ensures
        p.planned(ranked, h, w, c).len() == (if ranked.len() > p.warm_cap() - w { ranked.len() - (p.warm_cap() - w) } else { 0 }),
        forall|k: int| 0 <= k < p.planned(ranked, h, w, c).len() ==> (#[trigger] p.planned(ranked, h, w, c)[k]).from_tier == MemoryTier::Warm
            && p.planned(ranked, h, w, c)[k].to_tier != MemoryTier::Warm,
    decreases ranked.len(),
{
    if ranked.len() > 0 {
        let s = ranked[0];
        let rest = ranked.drop_first();
        assert forall|i: int| 0 <= i < rest.len() implies f32_ge((#[trigger] rest[i]).score, p.warm_min()) && !f32_ge(rest[i].score, p.hot_min()) by {
            assert(rest[i] == ranked[i + 1]);
        }
        assert(f32_ge(ranked[0].score, p.warm_min()) && !f32_ge(ranked[0].score, p.hot_min()));
        let to_cold = w >= p.warm_cap() && c < p.cold_cap() && f32_ge(s.score, p.cold_min());
        if w < p.warm_cap() {
            law_warm_capacity(p, rest, h, w + 1, c);
        } else {
            law_warm_capacity(p, rest, h, w, if to_cold { c + 1 } else { c });
            let r = p.planned(rest, h, w, if to_cold { c + 1 } else { c });
            let all = p.planned(ranked, h, w, c);
            assert forall|k: int| 0 <= k < all.len() implies (#[trigger] all[k]).from_tier == MemoryTier::Warm
                && all[k].to_tier != MemoryTier::Warm by {
                if k > 0 {
                    assert(all[k] == r[k - 1]);
                }
            }
        }
    }
}

/// The number of planned moves when every score meets the Hot threshold: with `h`
/// Hot slots already taken, the first `hot_cap - h` stay in Hot and each one after
/// that is moved out of Hot.
pub proof fn law_hot_capacity(p: TransitionPlanner, ranked: Seq<ImportanceScore>, h: nat, w: nat, c: nat)
    requires
        h <= p.hot_cap(),
        forall|i: int| 0 <= i < ranked.len() ==> f32_ge((#[trigger] ranked[i]).score, p.hot_min()),
    ensures
        p.planned(ranked, h, w, c).len() == (if ranked.len() > p.hot_cap() - h { ranked.len() - (p.hot_cap() - h) } else { 0 }),
        forall|k: int| 0 <= k < p.planned(ranked, h, w, c).len() ==> (#[trigger] p.planned(ranked, h, w, c)[k]).from_tier == MemoryTier::Hot
            && p.planned(ranked, h, w, c)[k].to_tier != MemoryTier::Hot,
    decreases ranked.len(),
{
    if ranked.len() > 0 {
        let s = ranked[0];
        let rest = ranked.drop_first();
        assert forall|i: int| 0 <= i < rest.len() implies f32_ge((#[trigger] rest[i]).score, p.hot_min()) by {
            assert(rest[i] == ranked[i + 1]);
        }
        assert(f32_ge(ranked[0].score, p.hot_min()));
        if h < p.hot_cap() {
            law_hot_capacity(p, rest, h + 1, w, c);
        } else {
            let to_warm = w < p.warm_cap() && f32_ge(s.score, p.warm_min());
            let to_cold = !to_warm && c < p.cold_cap() && f32_ge(s.score, p.cold_min());
            let w2 = if to_warm { w + 1 } else { w };
            let c2 = if to_cold { c + 1 } else { c };
            law_hot_capacity(p, rest, h, w2, c2);
            let r = p.planned(rest, h, w2, c2);
            let all = p.planned(ranked, h, w, c);
            assert forall|k: int| 0 <= k < all.len() implies (#[trigger] all[k]).from_tier == MemoryTier::Hot
                && all[k].to_tier != MemoryTier::Hot by {
                if k > 0 {
                    assert(all[k] == r[k - 1]);
                }
            }
        }
    }
}

/// The number of planned moves when every score meets the Cold threshold but
/// neither the Warm nor the Hot one: with `c` Cold slots already taken, the first
/// `cold_cap - c` stay in Cold and each one after that is moved to Deep.
pub proof fn law_cold_capacity(p: TransitionPlanner, ranked: Seq<ImportanceScore>, h: nat, w: nat, c: nat)
    requires
        c <= p.cold_cap(),
        forall|i: int| 0 <= i < ranked.len() ==> f32_ge((#[trigger] ranked[i]).score, p.cold_min())
            && !f32_ge(ranked[i].score, p.warm_min()) && !f32_ge(ranked[i].score, p.hot_min()),
    ensures
        p.planned(ranked, h, w, c).len() == (if ranked.len() > p.cold_cap() - c { ranked.len() - (p.cold_cap() - c) } else { 0 }),
        forall|k: int| 0 <= k < p.planned(ranked, h, w, c).len() ==> (#[trigger] p.planned(ranked, h, w, c)[k]).from_tier == MemoryTier::Cold
            && p.planned(ranked, h, w, c)[k].to_tier == MemoryTier::Deep,
    decreases ranked.len(),
{
    if ranked.len() > 0 {
        let rest = ranked.drop_first();
        assert forall|i: int| 0 <= i < rest.len() implies f32_ge((#[trigger] rest[i]).score, p.cold_min())
            && !f32_ge(rest[i].score, p.warm_min()) && !f32_ge(rest[i].score, p.hot_min()) by {
            assert(rest[i] == ranked[i + 1]);
        }
        assert(f32_ge(ranked[0].score, p.cold_min()) && !f32_ge(ranked[0].score, p.warm_min()) && !f32_ge(ranked[0].score, p.hot_min()));
        if c < p.cold_cap() {
            law_cold_capacity(p, rest, h, w, c + 1);
        } else {
            law_cold_capacity(p, rest, h, w, c);
            let r = p.planned(rest, h, w, c);
            let all = p.planned(ranked, h, w, c);
            assert forall|k: int| 0 <= k < all.len() implies (#[trigger] all[k]).from_tier == MemoryTier::Cold
                && all[k].to_tier == MemoryTier::Deep by {
                if k > 0 {
                    assert(all[k] == r[k - 1]);
                }
            }
        }
    }
}

/// Warm capacity is kept: planning scores that all meet the Warm threshold but
/// not the Hot one moves all but `warm_cap` of them out of Warm (to Cold or
/// Deep), and moves none into Warm.
pub proof fn law_plan_keeps_warm_capacity(p: TransitionPlanner, scores: Seq<ImportanceScore>)
    requires
        forall|i: int| 0 <= i < scores.len() ==> f32_ge((#[trigger] scores[i]).score, p.warm_min()) && !f32_ge(scores[i].score, p.hot_min()),
    ensures
        ({
            let r = sort_desc(p.planned(sort_desc(scores, score_key()), 0, 0, 0), priority_key());
            &&& r.len() == (if scores.len() > p.warm_cap() { scores.len() - p.warm_cap() } else { 0 })
            &&& forall|k: int| 0 <= k < r.len() ==> (#[trigger] r[k]).from_tier == MemoryTier::Warm && r[k].to_tier != MemoryTier::Warm
        }),
{
    broadcast use vstd::seq_lib::group_to_multiset_ensures;
    let ranked = sort_desc(scores, score_key());
    lemma_sort_desc_sorted(scores, score_key());
    assert forall|i: int| 0 <= i < ranked.len() implies f32_ge((#[trigger] ranked[i]).score, p.warm_min()) && !f32_ge(ranked[i].score, p.hot_min()) by {
        assert(ranked.to_multiset().count(ranked[i]) > 0);
        assert(scores.contains(ranked[i]));
        let j = choose|j: int| 0 <= j < scores.len() && scores[j] == ranked[i];
    }
    law_warm_capacity(p, ranked, 0, 0, 0);
    let planned = p.planned(ranked, 0, 0, 0);
    let r = sort_desc(planned, priority_key());
    lemma_sort_desc_sorted(planned, priority_key());
    assert forall|k: int| 0 <= k < r.len() implies (#[trigger] r[k]).from_tier == MemoryTier::Warm && r[k].to_tier != MemoryTier::Warm by {
        assert(r.to_multiset().count(r[k]) > 0);
        assert(planned.contains(r[k]));
        let j = choose|j: int| 0 <= j < planned.len() && planned[j] == r[k];
    }
}

/// The smaller of two lengths.
pub open spec fn min_len(a: int, b: int) -> int {
    if a < b { a } else { b }
}

/// Scores strictly below `threshold`, in order.
fn filter_scores_below(scores: &Vec<ImportanceScore>, threshold: u32) -> (r: Vec<ImportanceScore>)
    ensures
        r@ == scores@.filter(|s: ImportanceScore| f32_lt(s.score, threshold)),
{
    let ghost pred = |s: ImportanceScore| f32_lt(s.score, threshold);
    let mut r: Vec<ImportanceScore> = Vec::new();
    let mut i: usize = 0;
    proof {
        reveal(Seq::filter);
        assert(scores@.take(0) =~= Seq::<ImportanceScore>::empty());
    }
    while i < scores.len()
        invariant
            i <= scores@.len(),
            pred == (|s: ImportanceScore| f32_lt(s.score, threshold)),
            r@ == scores@.take(i as int).filter(pred),
        decreases scores@.len() - i,
    {
        proof {
            reveal(Seq::filter);
            assert(scores@.take(i + 1).drop_last() =~= scores@.take(i as int));
        }
        if lt(scores[i].score, threshold) {
            r.push(scores[i].duplicate());
        }
        i = i + 1;
    }
    assert(scores@.take(scores@.len() as int) =~= scores@);
    r
}

/// Scores at or above `threshold` with confidence above 0.5, in order.
fn filter_promotable(scores: &Vec<ImportanceScore>, threshold: u32) -> (r: Vec<ImportanceScore>)
    ensures
        r@ == scores@.filter(|s: ImportanceScore| f32_ge(s.score, threshold) && f32_lt(SCORE_HALF, s.confidence)),
{
    let ghost pred = |s: ImportanceScore| f32_ge(s.score, threshold) && f32_lt(SCORE_HALF, s.confidence);
    let mut r: Vec<ImportanceScore> = Vec::new();
    let mut i: usize = 0;
    proof {
        reveal(Seq::filter);
        assert(scores@.take(0) =~= Seq::<ImportanceScore>::empty());
    }
    while i < scores.len()
        invariant
            i <= scores@.len(),
            pred == (|s: ImportanceScore| f32_ge(s.score, threshold) && f32_lt(SCORE_HALF, s.confidence)),
            r@ == scores@.take(i as int).filter(pred),
        decreases scores@.len() - i,
    {
        proof {
            reveal(Seq::filter);
            assert(scores@.take(i + 1).drop_last() =~= scores@.take(i as int));
        }
        if ge(scores[i].score, threshold) && lt(SCORE_HALF, scores[i].confidence) {
            r.push(scores[i].duplicate());
        }
        i = i + 1;
    }
    assert(scores@.take(scores@.len() as int) =~= scores@);
    r
}

/// The first `n` scores (all of them if there are fewer).
fn take_scores(v: Vec<ImportanceScore>, n: usize) -> (r: Vec<ImportanceScore>)
    ensures
        r@ == v@.take(min_len(n as int, v@.len() as int)),
{
    let ghost v0 = v@;
    let mut v = v;
    if n < v.len() {
        v.truncate(n);
    }
    proof {
        assert(v@ =~= v0.take(min_len(n as int, v0.len() as int)));
    }
    v
}

} // verus!
