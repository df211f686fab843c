//! Agent memory: episodic, semantic and procedural memories, how they are named
//! and stored, which of them a recall returns and in what order, and the
//! statistics and consolidation counts over them.
//!
//! Times are nanoseconds after the Unix epoch (UTC); importance and relevance are
//! `f32` bit patterns (see `floatbits`). Reading the clock and the database is
//! left to the caller, which hands in what it read.

use vstd::prelude::*;
use crate::floatbits::{clamp_unit, clamp_unit_spec, f32_lt, is_nan, lt, rank_key, rank_of, F32_HALF, F32_POINT_EIGHT, F32_POINT_NINE};
use crate::hashing::{hex_encode, hex_lower, sha256, sha256_of};
use crate::ordering::{index_key, lemma_sort_desc_sorted, sort_desc, sort_indices_desc};
use crate::reconciliation::contains_string;
use crate::strings::{contains_chars, contains_str, is_tally, lowercase_of, tally, to_lowercase, views};
use vstd::string::*;
use vstd::utf8::*;

verus! {

/// Types of agent memory, mirroring human memory systems.
#[derive(Debug, Clone, Copy, PartialEq, Eq, Structural)]
pub enum MemoryType {
    /// Specific events and experiences.
    Episodic,
    /// Facts and knowledge.
    Semantic,
    /// How-to knowledge and skills.
    Procedural,
}

/// The name of a memory type.
pub open spec fn memory_type_name(t: MemoryType) -> Seq<char> {
    match t {
        MemoryType::Episodic => "episodic"@,
        MemoryType::Semantic => "semantic"@,
        MemoryType::Procedural => "procedural"@,
    }
}

impl MemoryType {
    /// The lower-case name of this memory type.
    pub fn as_str(&self) -> (r: &'static str)
        ensures
            r@ == memory_type_name(*self),
    {
        match self {
            MemoryType::Episodic => "episodic",
            MemoryType::Semantic => "semantic",
            MemoryType::Procedural => "procedural",
        }
    }
}

/// A single memory stored by an agent.
#[derive(Debug, Clone)]
pub struct Memory {
    /// Unique memory ID.
    pub id: String,
    /// The memory content.
    pub content: String,
    /// Type of memory.
    pub memory_type: MemoryType,
    /// Importance (bits of an `f32`, normally in `[0.0, 1.0]`).
    pub importance: u32,
    /// When the memory was created (nanoseconds, UTC).
    pub created_at: i64,
    /// When the memory was last accessed (nanoseconds, UTC).
    pub last_accessed: i64,
    /// Number of times the memory was recalled.
    pub access_count: u32,
    /// Tags for categorization.
    pub tags: Vec<String>,
    /// Causal context: what led to this memory.
    pub causal_context: Option<String>,
    /// Source of the memory.
    pub source: Option<String>,
}

impl Memory {
    /// A new memory created at `now`: no ID yet, importance 0.5, never accessed.
    pub fn new(content: String, memory_type: MemoryType, now: i64) -> (m: Self)
        ensures
            m.id@ == Seq::<char>::empty(),
            m.content == content,
            m.memory_type == memory_type,
            m.importance == F32_HALF,
            m.created_at == now,
            m.last_accessed == now,
            m.access_count == 0,
            m.tags@.len() == 0,
            m.causal_context is None,
            m.source is None,
    {
        Memory {
            id: String::new(),
            content,
            memory_type,
            importance: F32_HALF,
            created_at: now,
            last_accessed: now,
            access_count: 0,
            tags: Vec::new(),
            causal_context: None,
            source: None,
        }
    }

    /// Set the importance, clamped to `[0.0, 1.0]`.
    pub fn with_importance(self, importance: u32) -> (m: Self)
        ensures
            m == (Memory { importance: clamp_unit_spec(importance), ..self }),
    {
        Memory { importance: clamp_unit(importance), ..self }
    }

    /// Set the tags.
    pub fn with_tags(self, tags: Vec<String>) -> (m: Self)
        ensures
            m == (Memory { tags, ..self }),
    {
        Memory { tags, ..self }
    }

    /// Set the causal context.
    pub fn with_context(self, context: String) -> (m: Self)
        ensures
            m == (Memory { causal_context: Some(context), ..self }),
    {
        Memory { causal_context: Some(context), ..self }
    }

    /// Set the source.
    pub fn with_source(self, source: String) -> (m: Self)
        ensures
            m == (Memory { source: Some(source), ..self }),
    {
        Memory { source: Some(source), ..self }
    }

    /// Record an access at `now`.
    pub fn mark_accessed(&mut self, now: i64)
        requires
            old(self).access_count < u32::MAX,
        ensures
            *final(self) == (Memory { last_accessed: now, access_count: (old(self).access_count + 1) as u32, ..*old(self) }),
    {
        self.last_accessed = now;
        self.access_count = self.access_count + 1;
    }

    /// Whether this memory, `age_days` whole days old, should be consolidated:
    /// it is at least `threshold_days` old, its importance is not above 0.8, and it
    /// was accessed at most five times.
    pub fn should_consolidate(&self, age_days: i64, threshold_days: i64) -> (r: bool)
        ensures
            r == consolidation_candidate(*self, age_days, threshold_days),
    {
        if age_days < threshold_days {
            return false;
        }
        if lt(F32_POINT_EIGHT, self.importance) {
            return false;
        }
        if self.access_count > 5 {
            return false;
        }
        true
    }
}

/// Whether a memory of the given age is due for consolidation.
pub open spec fn consolidation_candidate(m: Memory, age_days: i64, threshold_days: i64) -> bool {
    age_days >= threshold_days && !f32_lt(F32_POINT_EIGHT, m.importance) && m.access_count <= 5
}

/// Options for memory recall.
#[derive(Debug, Clone)]
pub struct RecallOptions {
    /// Maximum number of memories to return.
    pub limit: usize,
    /// Only memories of this type.
    pub memory_type: Option<MemoryType>,
    /// Only memories carrying all of these tags.
    pub tags: Vec<String>,
    /// Minimum relevance (bits of an `f32`).
    pub min_relevance: u32,
    /// Only memories created at or after this time.
    pub from_time: Option<i64>,
    /// Only memories created at or before this time.
    pub to_time: Option<i64>,
    /// Whether to include causal context.
    pub include_context: bool,
}

impl RecallOptions {
    /// Default options: ten results, no filters, minimum relevance 0.0.
    pub fn new() -> (o: Self)
        ensures
            o.limit == 10,
            o.memory_type is None,
            o.tags@.len() == 0,
            o.min_relevance == 0,
            o.from_time is None,
            o.to_time is None,
            o.include_context,
    {
        RecallOptions {
            limit: 10,
            memory_type: None,
            tags: Vec::new(),
            min_relevance: 0,
            from_time: None,
            to_time: None,
            include_context: true,
        }
    }

    /// Set the limit.
    pub fn limit(self, n: usize) -> (o: Self)
        ensures
            o == (RecallOptions { limit: n, ..self }),
    {
        RecallOptions { limit: n, ..self }
    }

    /// Filter by memory type.
    pub fn memory_type(self, t: MemoryType) -> (o: Self)
        ensures
            o == (RecallOptions { memory_type: Some(t), ..self }),
    {
        RecallOptions { memory_type: Some(t), ..self }
    }

    /// Filter by tags (all must match).
    pub fn with_tags(self, tags: Vec<String>) -> (o: Self)
        ensures
            o == (RecallOptions { tags, ..self }),
    {
        RecallOptions { tags, ..self }
    }

    /// Set the minimum relevance.
    pub fn min_relevance(self, threshold: u32) -> (o: Self)
        ensures
            o == (RecallOptions { min_relevance: threshold, ..self }),
    {
        RecallOptions { min_relevance: threshold, ..self }
    }

    /// Filter by creation time.
    pub fn time_range(self, from: i64, to: i64) -> (o: Self)
        ensures
            o == (RecallOptions { from_time: Some(from), to_time: Some(to), ..self }),
    {
        RecallOptions { from_time: Some(from), to_time: Some(to), ..self }
    }
}

impl Default for RecallOptions {
    fn default() -> (o: Self)
        ensures
            o.limit == 10,
            o.memory_type is None,
            o.tags@.len() == 0,
            o.min_relevance == 0,
            o.from_time is None,
            o.to_time is None,
            o.include_context,
    {
        Self::new()
    }
}

/// Whether every wanted tag is among a memory's tags.
pub open spec fn has_all_tags(tags: Seq<Seq<char>>, wanted: Seq<Seq<char>>) -> bool {
    forall|k: int| 0 <= k < wanted.len() ==> tags.contains(#[trigger] wanted[k])
}

/// Whether a memory with relevance `relevance` passes the recall filters.
pub open spec fn recall_passes(m: Memory, relevance: u32, o: RecallOptions) -> bool {
    &&& (o.memory_type matches Some(t) ==> m.memory_type == t)
    &&& has_all_tags(views(m.tags@), views(o.tags@))
    &&& (o.from_time matches Some(f) ==> f <= m.created_at)
    &&& (o.to_time matches Some(t) ==> m.created_at <= t)
    &&& !f32_lt(relevance, o.min_relevance)
}

/// The positions `0..n`.
pub open spec fn positions(n: nat) -> Seq<usize> {
    Seq::new(n, |i: int| i as usize)
}

/// The first `limit` elements of `s` (all of them if there are fewer).
pub open spec fn truncated<T>(s: Seq<T>, limit: usize) -> Seq<T> {
    if s.len() > limit {
        s.take(limit as int)
    } else {
        s
    }
}

/// The rank keys of a list of relevance values.
pub open spec fn rank_keys(rel: Seq<u32>) -> Seq<u32> {
    rel.map_values(|b: u32| rank_of(b))
}

/// The positions of the memories a recall returns: those passing the filters,
/// most relevant first (ties in stored order), at most `limit` of them.
pub open spec fn recall_order(ms: Seq<Memory>, rel: Seq<u32>, o: RecallOptions) -> Seq<usize> {
    truncated(
        sort_desc(
            positions(ms.len()).filter(|i: usize| recall_passes(ms[i as int], rel[i as int], o)),
            index_key(rank_keys(rel)),
        ),
        o.limit,
    )
}

/// Every position a recall returns is the position of one of the memories.
pub proof fn lemma_recall_order_in_range(ms: Seq<Memory>, rel: Seq<u32>, o: RecallOptions)
    ensures
        forall|j: int| 0 <= j < recall_order(ms, rel, o).len() ==> #[trigger] recall_order(ms, rel, o)[j] < ms.len(),
{
    let f = positions(ms.len()).filter(|i: usize| recall_passes(ms[i as int], rel[i as int], o));
    let key = index_key(rank_keys(rel));
    let s = sort_desc(f, key);
    lemma_sort_desc_sorted(f, key);
    s.to_multiset_ensures();
    f.to_multiset_ensures();
    assert forall|j: int| 0 <= j < recall_order(ms, rel, o).len() implies #[trigger] recall_order(ms, rel, o)[j] < ms.len() by {
        let x = recall_order(ms, rel, o)[j];
        assert(x == s[j]);
        assert(s.contains(x));
        assert(s.to_multiset().count(x) > 0);
        assert(f.to_multiset().count(x) > 0);
        assert(f.contains(x));
        positions(ms.len()).lemma_filter_contains_rev(|i: usize| recall_passes(ms[i as int], rel[i as int], o), x);
        let p = choose|p: int| 0 <= p < positions(ms.len()).len() && positions(ms.len())[p] == x;
    }
}

/// What a recall returns: at most `limit` positions of memories, each of the
/// wanted type, carrying every wanted tag, created within the time range (from
/// `from_time` through `to_time`, when given) and at least as relevant as the
/// minimum; most relevant first. A memory meeting all of these is returned
/// unless `limit` memories already are.
pub proof fn law_recall(ms: Seq<Memory>, rel: Seq<u32>, o: RecallOptions)
    requires
        rel.len() == ms.len(),
        ms.len() <= usize::MAX,
    ensures
        recall_order(ms, rel, o).len() <= o.limit,
        forall|j: int| 0 <= j < recall_order(ms, rel, o).len() ==> {
            let i = #[trigger] recall_order(ms, rel, o)[j] as int;
            &&& 0 <= i < ms.len()
            &&& (o.memory_type matches Some(t) ==> ms[i].memory_type == t)
            &&& (forall|k: int| 0 <= k < o.tags@.len() ==> views(ms[i].tags@).contains(#[trigger] o.tags@[k]@))
            &&& (o.from_time matches Some(f) ==> f <= ms[i].created_at)
            &&& (o.to_time matches Some(t) ==> ms[i].created_at <= t)
            &&& !f32_lt(rel[i], o.min_relevance)
        },
        forall|i: int| 0 <= i < ms.len()
            && (o.memory_type matches Some(t) ==> ms[i].memory_type == t)
            && (forall|k: int| 0 <= k < o.tags@.len() ==> views(ms[i].tags@).contains(#[trigger] o.tags@[k]@))
            && (o.from_time matches Some(f) ==> f <= ms[i].created_at)
            && (o.to_time matches Some(t) ==> ms[i].created_at <= t)
            && !f32_lt(#[trigger] rel[i], o.min_relevance)
            ==> recall_order(ms, rel, o).contains(i as usize) || recall_order(ms, rel, o).len() == o.limit,
        forall|j: int, k: int| 0 <= j < k < recall_order(ms, rel, o).len() ==>
            rank_of(rel[#[trigger] recall_order(ms, rel, o)[j] as int]) >= rank_of(rel[#[trigger] recall_order(ms, rel, o)[k] as int]),
{
    broadcast use vstd::seq_lib::group_to_multiset_ensures;
    broadcast use vstd::seq_lib::group_filter_ensures;
    let pred = |i: usize| recall_passes(ms[i as int], rel[i as int], o);
    let n = ms.len();
    let f = positions(n).filter(pred);
    let key = index_key(rank_keys(rel));
    let sorted = sort_desc(f, key);
    let r = recall_order(ms, rel, o);
    lemma_sort_desc_sorted(f, key);
    lemma_recall_order_in_range(ms, rel, o);
    assert(r == truncated(sorted, o.limit));
    assert forall|j: int| 0 <= j < r.len() implies recall_passes(ms[#[trigger] r[j] as int], rel[r[j] as int], o) by {
        assert(r[j] == sorted[j]);
        assert(sorted.to_multiset().count(sorted[j]) > 0);
        assert(f.contains(sorted[j]));
        let q = choose|q: int| 0 <= q < f.len() && f[q] == sorted[j];
        positions(n).lemma_filter_pred(pred, q);
    }
    assert forall|j: int| 0 <= j < r.len() implies {
        let i = #[trigger] r[j] as int;
        &&& 0 <= i < ms.len()
        &&& (o.memory_type matches Some(t) ==> ms[i].memory_type == t)
        &&& (forall|k: int| 0 <= k < o.tags@.len() ==> views(ms[i].tags@).contains(#[trigger] o.tags@[k]@))
        &&& (o.from_time matches Some(f) ==> f <= ms[i].created_at)
        &&& (o.to_time matches Some(t) ==> ms[i].created_at <= t)
        &&& !f32_lt(rel[i], o.min_relevance)
    } by {
        let i = r[j] as int;
        assert(recall_passes(ms[i], rel[i], o));
        assert forall|k: int| 0 <= k < o.tags@.len() implies views(ms[i].tags@).contains(#[trigger] o.tags@[k]@) by {
            assert(views(o.tags@)[k] == o.tags@[k]@);
        }
    }
    assert forall|i: int| 0 <= i < ms.len()
        && (o.memory_type matches Some(t) ==> ms[i].memory_type == t)
        && (forall|k: int| 0 <= k < o.tags@.len() ==> views(ms[i].tags@).contains(#[trigger] o.tags@[k]@))
        && (o.from_time matches Some(f) ==> f <= ms[i].created_at)
        && (o.to_time matches Some(t) ==> ms[i].created_at <= t)
        && !f32_lt(#[trigger] rel[i], o.min_relevance)
        implies r.contains(i as usize) || r.len() == o.limit by {
        assert forall|k: int| 0 <= k < views(o.tags@).len() implies views(ms[i].tags@).contains(#[trigger] views(o.tags@)[k]) by {
            assert(views(o.tags@)[k] == o.tags@[k]@);
        }
        assert((i as usize) as int == i);
        assert(recall_passes(ms[i], rel[i], o));
        assert(pred(i as usize));
        assert(positions(n)[i] == i as usize);
        positions(n).lemma_filter_contains(pred, i);
        assert(f.to_multiset().count(i as usize) > 0);
        assert(sorted.contains(i as usize));
        if sorted.len() <= o.limit {
            assert(r == sorted);
        }
    }
    assert forall|j: int, k: int| 0 <= j < k < r.len() implies
        rank_of(rel[#[trigger] r[j] as int]) >= rank_of(rel[#[trigger] r[k] as int]) by {
        assert(r[j] == sorted[j]);
        assert(r[k] == sorted[k]);
        assert(key(sorted[j]) >= key(sorted[k]));
        assert(rank_keys(rel)[r[j] as int] == rank_of(rel[r[j] as int]));
        assert(rank_keys(rel)[r[k] as int] == rank_of(rel[r[k] as int]));
    }
}

/// The contents of a list of memories.
pub open spec fn contents_of(ms: Seq<Memory>) -> Seq<Seq<char>> {
    ms.map_values(|m: Memory| m.content@)
}

/// The elements of `s` at the positions `idx`, in that order.
pub open spec fn picked<T>(s: Seq<T>, idx: Seq<usize>) -> Seq<T> {
    idx.map_values(|i: usize| s[i as int])
}

fn has_all_tags_exec(tags: &Vec<String>, wanted: &Vec<String>) -> (r: bool)
    ensures
        r == has_all_tags(views(tags@), views(wanted@)),
{
    let mut k: usize = 0;
    while k < wanted.len()
        invariant
            k <= wanted@.len(),
            forall|j: int| 0 <= j < k ==> views(tags@).contains(#[trigger] views(wanted@)[j]),
        decreases wanted@.len() - k,
    {
        if !contains_string(tags.as_slice(), wanted[k].as_str()) {
            assert(views(wanted@)[k as int] == wanted@[k as int]@);
            return false;
        }
        k = k + 1;
    }
    true
}

fn passes_exec(m: &Memory, relevance: u32, o: &RecallOptions) -> (r: bool)
    ensures
        r == recall_passes(*m, relevance, *o),
{
    match o.memory_type {
        Some(t) => {
            if m.memory_type != t {
                return false;
            }
        },
        None => {},
    }
    if !has_all_tags_exec(&m.tags, &o.tags) {
        return false;
    }
    match o.from_time {
        Some(f) => {
            if m.created_at < f {
                return false;
            }
        },
        None => {},
    }
    match o.to_time {
        Some(t) => {
            if m.created_at > t {
                return false;
            }
        },
        None => {},
    }
    !lt(relevance, o.min_relevance)
}

/// The positions of the memories whose content contains `query`, compared in
/// lower case, in stored order.
pub open spec fn keyword_hits(contents: Seq<Seq<char>>, query: Seq<char>) -> Seq<usize> {
    positions(contents.len()).filter(
        |i: usize| contains_chars(lowercase_of(contents[i as int]), lowercase_of(query)),
    )
}

/// The positions of the memories whose content contains `query`, ignoring case,
/// in stored order.
pub fn scan_memories(contents: &Vec<String>, query: &str) -> (r: Vec<usize>)
    ensures
        r@ == keyword_hits(views(contents@), query@),
{
    let q = to_lowercase(query);
    let ghost pred = |i: usize| contains_chars(lowercase_of(views(contents@)[i as int]), lowercase_of(query@));
    let mut r: Vec<usize> = Vec::new();
    let mut i: usize = 0;
    while i < contents.len()
        invariant
            i <= contents@.len(),
            q@ == lowercase_of(query@),
            r@ == positions(contents@.len()).take(i as int).filter(pred),
            pred == (|i: usize| contains_chars(lowercase_of(views(contents@)[i as int]), lowercase_of(query@))),
        decreases contents@.len() - i,
    {
        proof {
            assert(positions(contents@.len()).take(i + 1) =~= positions(contents@.len()).take(i as int).push(i));
            positions(contents@.len()).take(i as int).lemma_filter_push(i, pred);
        }
        let c = to_lowercase(contents[i].as_str());
        if contains_str(c.as_str(), q.as_str()) {
            r.push(i);
        }
        i = i + 1;
    }
    assert(positions(contents@.len()).take(contents@.len() as int) =~= positions(contents@.len()));
    assert(views(contents@).len() == contents@.len());
    r
}

/// Summary of a consolidation operation.
#[derive(Debug, Clone, Default)]
pub struct ConsolidationSummary {
    /// Total memories scanned.
    pub total_memories: usize,
    /// Memories consolidated.
    pub consolidated_count: usize,
    /// New summaries created.
    pub summaries_created: usize,
    /// Errors encountered.
    pub errors: usize,
}

/// Memory statistics.
#[derive(Debug, Clone)]
pub struct MemoryStats {
    /// Total number of memories.
    pub total_memories: usize,
    /// Episodic memory count.
    pub episodic_count: usize,
    /// Semantic memory count.
    pub semantic_count: usize,
    /// Procedural memory count.
    pub procedural_count: usize,
    /// Count by tag, each tag once.
    pub by_tag: Vec<(String, usize)>,
}

/// How many of `ms` have type `t`.
pub open spec fn count_type(ms: Seq<Memory>, t: MemoryType) -> nat
    decreases ms.len(),
{
    if ms.len() == 0 {
        0
    } else {
        count_type(ms.drop_last(), t) + if ms.last().memory_type == t { 1nat } else { 0nat }
    }
}

/// Every tag of every memory, in order.
pub open spec fn all_tags(ms: Seq<Memory>) -> Seq<Seq<char>>
    decreases ms.len(),
{
    if ms.len() == 0 {
        Seq::empty()
    } else {
        all_tags(ms.drop_last()) + views(ms.last().tags@)
    }
}

/// How many of `ms`, each `ages[i]` days old, are due for consolidation after 30 days.
pub open spec fn count_due(ms: Seq<Memory>, ages: Seq<i64>) -> nat
    decreases ms.len(),
{
    if ms.len() == 0 {
        0
    } else {
        count_due(ms.drop_last(), ages.drop_last()) + if consolidation_candidate(ms.last(), ages.last(), 30) {
            1nat
        } else {
            0nat
        }
    }
}

proof fn lemma_count_type_le(ms: Seq<Memory>, t: MemoryType)
    ensures
        count_type(ms, t) <= ms.len(),
    decreases ms.len(),
{
    if ms.len() > 0 {
        lemma_count_type_le(ms.drop_last(), t);
    }
}

/// An agent's memory manager: the agent whose memories it names and selects.
#[derive(Debug, Clone)]
pub struct AgentMemory {
    /// Unique agent identifier.
    pub agent_id: String,
}

/// The content key whose hash names a memory.
pub open spec fn memory_key_text(agent_id: Seq<char>, content: Seq<char>) -> Seq<char> {
    "agent:"@ + agent_id + "/"@ + content
}

impl AgentMemory {
    /// A memory manager for `agent_id`.
    pub fn new(agent_id: String) -> (a: Self)
        ensures
            a.agent_id == agent_id,
    {
        AgentMemory { agent_id }
    }

    /// The namespace of this agent's memories: `agent_memory:` and the agent ID.
    pub fn memory_namespace(&self) -> (r: String)
        ensures
            r@ == "agent_memory:"@ + self.agent_id@,
    {
        let mut r = String::from_str("agent_memory:");
        r.append(self.agent_id.as_str());
        r
    }

    /// The namespace of this agent's embeddings: `agent_embeddings:` and the agent ID.
    pub fn embedding_namespace(&self) -> (r: String)
        ensures
            r@ == "agent_embeddings:"@ + self.agent_id@,
    {
        let mut r = String::from_str("agent_embeddings:");
        r.append(self.agent_id.as_str());
        r
    }

    /// The content-based ID of a memory: the hex SHA-256 of `agent:{agent_id}/{content}`.
    pub fn generate_memory_id(&self, content: &str) -> (r: String)
        ensures
            r@ == hex_lower(sha256_of(encode_utf8(memory_key_text(self.agent_id@, content@)))),
    {
        let mut key = String::from_str("agent:");
        key.append(self.agent_id.as_str());
        key.append("/");
        key.append(content);
        let digest = sha256(key.as_str().as_bytes());
        hex_encode(digest.as_slice())
    }

    /// The episodic memory recorded by `remember_episode`: importance clamped,
    /// source `agent_experience`, ID from its content.
    pub fn remember_episode(&self, content: String, importance: u32, now: i64) -> (m: Memory)
        ensures
            m.id@ == hex_lower(sha256_of(encode_utf8(memory_key_text(self.agent_id@, content@)))),
            m.content == content,
            m.memory_type == MemoryType::Episodic,
            m.importance == clamp_unit_spec(importance),
            m.created_at == now && m.last_accessed == now && m.access_count == 0,
            m.tags@.len() == 0,
            m.causal_context is None,
            m.source matches Some(s) && s@ == "agent_experience"@,
    {
        let id = self.generate_memory_id(content.as_str());
        let m = Memory::new(content, MemoryType::Episodic, now).with_importance(importance).with_source(
            String::from_str("agent_experience"),
        );
        Memory { id, ..m }
    }

    /// The semantic memory recorded by `remember_fact` under `key`: importance 0.9,
    /// the given tags, source `knowledge_acquisition`.
    pub fn remember_fact(&self, key: String, content: String, tags: Vec<String>, now: i64) -> (m: Memory)
        ensures
            m.id == key,
            m.content == content,
            m.memory_type == MemoryType::Semantic,
            m.importance == F32_POINT_NINE,
            m.created_at == now && m.last_accessed == now && m.access_count == 0,
            m.tags == tags,
            m.causal_context is None,
            m.source matches Some(s) && s@ == "knowledge_acquisition"@,
    {
        let m = Memory::new(content, MemoryType::Semantic, now).with_importance(F32_POINT_NINE).with_tags(
            tags,
        ).with_source(String::from_str("knowledge_acquisition"));
        Memory { id: key, ..m }
    }

    /// The procedural memory recorded by `remember_procedure`: importance the
    /// success rate (0.5 if unknown) clamped, tag `procedure`, source `skill_learning`,
    /// the procedure's name as causal context, ID from its steps.
    pub fn remember_procedure(&self, name: String, steps: String, success_rate: Option<u32>, now: i64) -> (m: Memory)
        ensures
            m.id@ == hex_lower(sha256_of(encode_utf8(memory_key_text(self.agent_id@, steps@)))),
            m.content == steps,
            m.memory_type == MemoryType::Procedural,
            m.importance == clamp_unit_spec(
                match success_rate {
                    Some(x) => x,
                    None => F32_HALF,
                },
            ),
            m.created_at == now && m.last_accessed == now && m.access_count == 0,
            m.tags@.len() == 1 && m.tags@[0]@ == "procedure"@,
            m.causal_context == Some(name),
            m.source matches Some(s) && s@ == "skill_learning"@,
    {
        let id = self.generate_memory_id(steps.as_str());
        let rate = match success_rate {
            Some(x) => x,
            None => F32_HALF,
        };
        let mut tags: Vec<String> = Vec::new();
        tags.push(String::from_str("procedure"));
        let m = Memory::new(steps, MemoryType::Procedural, now).with_importance(rate).with_tags(tags).with_source(
            String::from_str("skill_learning"),
        ).with_context(name);
        Memory { id, ..m }
    }

    /// The positions of the memories a recall returns, given each memory's relevance:
    /// the memories passing the type, tag, time and minimum-relevance filters, most
    /// relevant first (ties in stored order), at most `opts.limit` of them.
    pub fn recall(&self, memories: &Vec<Memory>, relevance: &Vec<u32>, opts: &RecallOptions) -> (r: Vec<usize>)
        requires
            relevance@.len() == memories@.len(),
            forall|i: int| 0 <= i < relevance@.len() ==> !is_nan(#[trigger] relevance@[i]),
        ensures
            r@ == recall_order(memories@, relevance@, *opts),
    {
        let ghost pred = |i: usize| recall_passes(memories@[i as int], relevance@[i as int], *opts);
        let mut passing: Vec<usize> = Vec::new();
        let mut keys: Vec<u32> = Vec::new();
        let mut i: usize = 0;
        while i < memories.len()
            invariant
                relevance@.len() == memories@.len(),
                i <= memories@.len(),
                passing@ == positions(memories@.len()).take(i as int).filter(pred),
                forall|j: int| 0 <= j < passing@.len() ==> passing@[j] < i,
                keys@ == rank_keys(relevance@).take(i as int),
                pred == (|i: usize| recall_passes(memories@[i as int], relevance@[i as int], *opts)),
            decreases memories@.len() - i,
        {
            let ghost before = passing@;
            proof {
                assert(positions(memories@.len()).take(i + 1) =~= positions(memories@.len()).take(i as int).push(i));
                positions(memories@.len()).take(i as int).lemma_filter_push(i, pred);
            }
            if passes_exec(&memories[i], relevance[i], opts) {
                passing.push(i);
            }
            keys.push(rank_key(relevance[i]));
            assert(keys@ =~= rank_keys(relevance@).take(i + 1));
            i = i + 1;
        }
        assert(positions(memories@.len()).take(memories@.len() as int) =~= positions(memories@.len()));
        assert(keys@ =~= rank_keys(relevance@));
        let mut sorted = sort_indices_desc(&passing, &keys);
        if sorted.len() > opts.limit {
            sorted.truncate(opts.limit);
        }
        sorted
    }

    /// The positions of the memories a keyword recall returns for `query`: among
    /// the memories whose content contains the query (ignoring case), those that
    /// `recall` returns given their relevance, mapped back to their positions in
    /// `memories`.
    pub fn recall_matching(
        &self,
        memories: &Vec<Memory>,
        relevance: &Vec<u32>,
        query: &str,
        opts: &RecallOptions,
    ) -> (r: Vec<usize>)
        requires
            relevance@.len() == memories@.len(),
            forall|i: int| 0 <= i < relevance@.len() ==> !is_nan(#[trigger] relevance@[i]),
        ensures
            ({
                let hits = keyword_hits(contents_of(memories@), query@);
                r@ == recall_order(picked(memories@, hits), picked(relevance@, hits), *opts).map_values(
                    |j: usize| hits[j as int],
                )
            }),
            forall|k: int| 0 <= k < r@.len() ==> keyword_hits(contents_of(memories@), query@).contains(#[trigger] r@[k]),
    {
        let mut contents: Vec<String> = Vec::new();
        let mut i: usize = 0;
        while i < memories.len()
            invariant
                i <= memories@.len(),
                views(contents@) == contents_of(memories@).take(i as int),
            decreases memories@.len() - i,
        {
            let ghost before = contents@;
            let c = memories[i].content.clone();
            contents.push(c);
            proof {
                assert(views(contents@) =~= views(before).push(c@));
                assert(views(contents@) =~= contents_of(memories@).take(i + 1));
            }
            i = i + 1;
        }
        proof {
            assert(contents_of(memories@).take(memories@.len() as int) =~= contents_of(memories@));
        }
        let hits = scan_memories(&contents, query);
        let ghost hs = hits@;
        let ghost n = memories@.len();
        proof {
            let cp = |i: usize| contains_chars(lowercase_of(contents_of(memories@)[i as int]), lowercase_of(query@));
            assert(hs == positions(n).filter(cp));
            assert forall|j: int| 0 <= j < hs.len() implies #[trigger] hs[j] < n by {
                assert(hs.contains(hs[j]));
                positions(n).lemma_filter_contains_rev(cp, hs[j]);
                let p = choose|p: int| 0 <= p < positions(n).len() && positions(n)[p] == hs[j];
            }
        }
        let ghost sm = picked(memories@, hs);
        let ghost sr = picked(relevance@, hs);
        let ghost pred = |j: usize| recall_passes(sm[j as int], sr[j as int], *opts);
        let mut passing: Vec<usize> = Vec::new();
        let mut keys: Vec<u32> = Vec::new();
        let mut j: usize = 0;
        while j < hits.len()
            invariant
                relevance@.len() == memories@.len(),
                n == memories@.len(),
                hs == hits@,
                forall|x: int| 0 <= x < hs.len() ==> #[trigger] hs[x] < n,
                sm == picked(memories@, hs),
                sr == picked(relevance@, hs),
                j <= hs.len(),
                passing@ == positions(hs.len()).take(j as int).filter(pred),
                forall|x: int| 0 <= x < passing@.len() ==> passing@[x] < j,
                keys@ == rank_keys(sr).take(j as int),
                pred == (|j: usize| recall_passes(sm[j as int], sr[j as int], *opts)),
            decreases hs.len() - j,
        {
            proof {
                assert(positions(hs.len()).take(j + 1) =~= positions(hs.len()).take(j as int).push(j));
                positions(hs.len()).take(j as int).lemma_filter_push(j, pred);
            }
            let m = hits[j];
            assert(sm[j as int] == memories@[m as int]);
            assert(sr[j as int] == relevance@[m as int]);
            if passes_exec(&memories[m], relevance[m], opts) {
                passing.push(j);
            }
            keys.push(rank_key(relevance[m]));
            assert(keys@ =~= rank_keys(sr).take(j + 1));
            j = j + 1;
        }
        assert(positions(hs.len()).take(hs.len() as int) =~= positions(hs.len()));
        assert(keys@ =~= rank_keys(sr));
        assert(sm.len() == hs.len());
        let mut sorted = sort_indices_desc(&passing, &keys);
        if sorted.len() > opts.limit {
            sorted.truncate(opts.limit);
        }
        assert(sorted@ == recall_order(sm, sr, *opts));
        proof {
            lemma_recall_order_in_range(sm, sr, *opts);
        }
        let mut out: Vec<usize> = Vec::new();
        let mut t: usize = 0;
        while t < sorted.len()
            invariant
                hs == hits@,
                sm.len() == hs.len(),
                sorted@ == recall_order(sm, sr, *opts),
                forall|x: int| 0 <= x < sorted@.len() ==> #[trigger] sorted@[x] < sm.len(),
                t <= sorted@.len(),
                out@ == sorted@.take(t as int).map_values(|j: usize| hs[j as int]),
            decreases sorted@.len() - t,
        {
            let x = sorted[t];
            assert(x < sm.len());
            out.push(hits[x]);
            assert(out@ =~= sorted@.take(t + 1).map_values(|j: usize| hs[j as int]));
            t = t + 1;
        }
        assert(sorted@.take(sorted@.len() as int) =~= sorted@);
        assert forall|k: int| 0 <= k < out@.len() implies hs.contains(#[trigger] out@[k]) by {
            assert(sorted@[k] < hs.len());
            assert(out@[k] == hs[sorted@[k] as int]);
        }
        out
    }

    /// Statistics over the memories that loaded, out of `total_keys` stored keys:
    /// counts by type and by tag.
    pub fn stats(&self, total_keys: usize, memories: &Vec<Memory>) -> (s: MemoryStats)
        ensures
            s.total_memories == total_keys,
            s.episodic_count == count_type(memories@, MemoryType::Episodic),
            s.semantic_count == count_type(memories@, MemoryType::Semantic),
            s.procedural_count == count_type(memories@, MemoryType::Procedural),
            is_tally(s.by_tag@, all_tags(memories@)),
    {
        let mut episodic: usize = 0;
        let mut semantic: usize = 0;
        let mut procedural: usize = 0;
        let mut tags: Vec<String> = Vec::new();
        let mut i: usize = 0;
        while i < memories.len()
            invariant
                i <= memories@.len(),
                episodic == count_type(memories@.take(i as int), MemoryType::Episodic),
                semantic == count_type(memories@.take(i as int), MemoryType::Semantic),
                procedural == count_type(memories@.take(i as int), MemoryType::Procedural),
                views(tags@) == all_tags(memories@.take(i as int)),
            decreases memories@.len() - i,
        {
            proof {
                assert(memories@.take(i + 1).drop_last() =~= memories@.take(i as int));
                assert(memories@.take(i + 1).last() == memories@[i as int]);
                lemma_count_type_le(memories@.take(i as int), MemoryType::Episodic);
                lemma_count_type_le(memories@.take(i as int), MemoryType::Semantic);
                lemma_count_type_le(memories@.take(i as int), MemoryType::Procedural);
            }
            match memories[i].memory_type {
                MemoryType::Episodic => {
                    episodic = episodic + 1;
                },
                MemoryType::Semantic => {
                    semantic = semantic + 1;
                },
                MemoryType::Procedural => {
                    procedural = procedural + 1;
                },
            }
            let mut k: usize = 0;
            let ghost base = views(tags@);
            while k < memories[i].tags.len()
                invariant
                    i < memories@.len(),
                    k <= memories@[i as int].tags@.len(),
                    views(tags@) == base + views(memories@[i as int].tags@).take(k as int),
                decreases memories@[i as int].tags@.len() - k,
            {
                let t = memories[i].tags[k].clone();
                let ghost before = views(tags@);
                tags.push(t);
                proof {
                    let mt = views(memories@[i as int].tags@);
                    assert(views(tags@) =~= before.push(t@));
                    assert(t@ == mt[k as int]);
                    assert(mt.take(k + 1) =~= mt.take(k as int).push(mt[k as int]));
                    assert(views(tags@) =~= base + mt.take(k + 1));
                }
                k = k + 1;
            }
            assert(views(memories@[i as int].tags@).take(k as int) =~= views(memories@[i as int].tags@));
            i = i + 1;
        }
        assert(memories@.take(memories@.len() as int) =~= memories@);
        MemoryStats {
            total_memories: total_keys,
            episodic_count: episodic,
            semantic_count: semantic,
            procedural_count: procedural,
            by_tag: tally(&tags),
        }
    }

    /// The consolidation summary over the memories that loaded (out of
    /// `total_keys` stored keys), memory `i` being `ages_days[i]` days old: those
    /// due after 30 days are counted.
    pub fn consolidate(&self, total_keys: usize, memories: &Vec<Memory>, ages_days: &Vec<i64>) -> (s: ConsolidationSummary)
        requires
            ages_days@.len() == memories@.len(),
        ensures
            s.total_memories == total_keys,
            s.consolidated_count == count_due(memories@, ages_days@),
            s.summaries_created == 0,
            s.errors == 0,
    {
        let mut due: usize = 0;
        let mut i: usize = 0;
        while i < memories.len()
            invariant
                ages_days@.len() == memories@.len(),
                i <= memories@.len(),
                due <= i,
                due == count_due(memories@.take(i as int), ages_days@.take(i as int)),
            decreases memories@.len() - i,
        {
            proof {
                assert(memories@.take(i + 1).drop_last() =~= memories@.take(i as int));
                assert(ages_days@.take(i + 1).drop_last() =~= ages_days@.take(i as int));
                assert(memories@.take(i + 1).last() == memories@[i as int]);
                assert(ages_days@.take(i + 1).last() == ages_days@[i as int]);
            }
            if memories[i].should_consolidate(ages_days[i], 30) {
                due = due + 1;
            }
            i = i + 1;
        }
        assert(memories@.take(memories@.len() as int) =~= memories@);
        assert(ages_days@.take(ages_days@.len() as int) =~= ages_days@);
        ConsolidationSummary { total_memories: total_keys, consolidated_count: due, summaries_created: 0, errors: 0 }
    }
}

} // verus!
