//! Workspaces: isolated item stores with keyword search, and the agent context
//! that names episodic, semantic and procedural items in them.
//!
//! Times are nanoseconds after the Unix epoch (UTC); importance and relevance are
//! `f32` bit patterns (see `floatbits`).

use vstd::prelude::*;
use crate::floatbits::{clamp_unit, clamp_unit_spec, f32_lt, lt, F32_HALF, F32_POINT_EIGHT};
use crate::hashing::{hex_encode, hex_lower, sha256, sha256_of};
use crate::memory::agent::{positions, truncated};
use crate::strings::{contains_chars, contains_str, lowercase_of, to_lowercase, views};
use vstd::string::*;
use vstd::utf8::*;

verus! {

/// Memory patterns for organizing workspace data (conventions, not types).
#[derive(Debug, Clone, Copy, PartialEq, Eq, Structural)]
pub enum MemoryPattern {
    /// Event log: things that happened at specific times.
    Event,
    /// Reference data: facts, knowledge, configuration.
    Reference,
    /// Computable knowledge: procedures, rules, workflows.
    Procedure,
}

/// The name of a memory pattern.
pub open spec fn pattern_name(p: MemoryPattern) -> Seq<char> {
    match p {
        MemoryPattern::Event => "event"@,
        MemoryPattern::Reference => "reference"@,
        MemoryPattern::Procedure => "procedure"@,
    }
}

impl MemoryPattern {
    /// The lower-case name of this pattern.
    pub fn as_str(&self) -> (r: &'static str)
        ensures
            r@ == pattern_name(*self),
    {
        match self {
            MemoryPattern::Event => "event",
            MemoryPattern::Reference => "reference",
            MemoryPattern::Procedure => "procedure",
        }
    }
}

/// A stored item in a workspace.
#[derive(Debug, Clone)]
pub struct WorkspaceItem {
    /// Unique item ID.
    pub id: String,
    /// The item content.
    pub content: String,
    /// Memory pattern.
    pub pattern: MemoryPattern,
    /// Importance (bits of an `f32`, normally in `[0.0, 1.0]`).
    pub importance: u32,
    /// When the item was created (nanoseconds, UTC).
    pub created_at: i64,
    /// When the item was last accessed (nanoseconds, UTC).
    pub last_accessed: i64,
    /// Number of times the item was retrieved.
    pub access_count: u32,
    /// Tags for filtering.
    pub tags: Vec<String>,
    /// What led to this item.
    pub causal_context: Option<String>,
    /// Source of the item.
    pub source: Option<String>,
}

impl WorkspaceItem {
    /// A new item created at `now`: no ID yet, importance 0.5, never accessed.
    pub fn new(content: String, pattern: MemoryPattern, now: i64) -> (m: Self)
        ensures
            m.id@ == Seq::<char>::empty(),
            m.content == content,
            m.pattern == pattern,
            m.importance == F32_HALF,
            m.created_at == now,
            m.last_accessed == now,
            m.access_count == 0,
            m.tags@.len() == 0,
            m.causal_context is None,
            m.source is None,
    {
        WorkspaceItem {
            id: String::new(),
            content,
            pattern,
            importance: F32_HALF,
            created_at: now,
            last_accessed: now,
            access_count: 0,
            tags: Vec::new(),
            causal_context: None,
            source: None,
        }
    }

    /// Set the importance, clamped to `[0.0, 1.0]`.
    pub fn with_importance(self, importance: u32) -> (m: Self)
        ensures
            m == (WorkspaceItem { importance: clamp_unit_spec(importance), ..self }),
    {
        WorkspaceItem { importance: clamp_unit(importance), ..self }
    }

    /// Set the tags.
    pub fn with_tags(self, tags: Vec<String>) -> (m: Self)
        ensures
            m == (WorkspaceItem { tags, ..self }),
    {
        WorkspaceItem { tags, ..self }
    }

    /// Set the causal context.
    pub fn with_context(self, context: String) -> (m: Self)
        ensures
            m == (WorkspaceItem { causal_context: Some(context), ..self }),
    {
        WorkspaceItem { causal_context: Some(context), ..self }
    }

    /// Set the source.
    pub fn with_source(self, source: String) -> (m: Self)
        ensures
            m == (WorkspaceItem { source: Some(source), ..self }),
    {
        WorkspaceItem { source: Some(source), ..self }
    }

    /// Record a retrieval at `now`.
    pub fn mark_accessed(&mut self, now: i64)
        requires
            old(self).access_count < u32::MAX,
        ensures
            *final(self) == (WorkspaceItem { last_accessed: now, access_count: (old(self).access_count + 1) as u32, ..*old(self) }),
    {
        self.last_accessed = now;
        self.access_count = self.access_count + 1;
    }

    /// Whether this item, `age_days` whole days old, should be consolidated: at
    /// least `threshold_days` old, importance not above 0.8, at most five accesses.
    pub fn should_consolidate(&self, age_days: i64, threshold_days: i64) -> (r: bool)
        ensures
            r == (age_days >= threshold_days && !f32_lt(F32_POINT_EIGHT, self.importance) && self.access_count <= 5),
    {
        if age_days < threshold_days {
            return false;
        }
        if lt(F32_POINT_EIGHT, self.importance) {
            return false;
        }
        if self.access_count > 5 {
            return false;
        }
        true
    }
}

/// Result of a workspace search.
#[derive(Debug, Clone)]
pub struct WorkspaceSearchResult {
    /// The matched item.
    pub item: WorkspaceItem,
    /// Relevance (bits of an `f32`).
    pub relevance: u32,
    /// How the item was found.
    pub match_type: String,
}

/// Options for workspace search.
#[derive(Debug, Clone)]
pub struct SearchOptions {
    /// Maximum number of results to return.
    pub limit: usize,
    /// Filter by memory pattern.
    pub pattern: Option<MemoryPattern>,
    /// Filter by tags (all must match).
    pub tags: Vec<String>,
    /// Minimum relevance (bits of an `f32`).
    pub min_relevance: u32,
    /// Earliest creation time.
    pub from_time: Option<i64>,
    /// Latest creation time.
    pub to_time: Option<i64>,
}

impl SearchOptions {
    /// Default options: ten results, no filters.
    pub fn new() -> (o: Self)
        ensures
            o.limit == 10,
            o.pattern is None,
            o.tags@.len() == 0,
            o.min_relevance == 0,
            o.from_time is None,
            o.to_time is None,
    {
        SearchOptions { limit: 10, pattern: None, tags: Vec::new(), min_relevance: 0, from_time: None, to_time: None }
    }

    /// Set the limit.
    pub fn limit(self, n: usize) -> (o: Self)
        ensures
            o == (SearchOptions { limit: n, ..self }),
    {
        SearchOptions { limit: n, ..self }
    }

    /// Filter by memory pattern.
    pub fn pattern(self, p: MemoryPattern) -> (o: Self)
        ensures
            o == (SearchOptions { pattern: Some(p), ..self }),
    {
        SearchOptions { pattern: Some(p), ..self }
    }

    /// Filter by tags.
    pub fn with_tags(self, tags: Vec<String>) -> (o: Self)
        ensures
            o == (SearchOptions { tags, ..self }),
    {
        SearchOptions { tags, ..self }
    }

    /// Set the minimum relevance.
    pub fn min_relevance(self, threshold: u32) -> (o: Self)
        ensures
            o == (SearchOptions { min_relevance: threshold, ..self }),
    {
        SearchOptions { min_relevance: threshold, ..self }
    }
}

impl Default for SearchOptions {
    fn default() -> (o: Self)
        ensures
            o.limit == 10,
            o.pattern is None,
            o.tags@.len() == 0,
            o.min_relevance == 0,
            o.from_time is None,
            o.to_time is None,
    {
        Self::new()
    }
}

/// A stored entry as search sees it: its key, its value as JSON text, and the
/// time it was written.
#[derive(Debug, Clone)]
pub struct StoredEntry {
    /// The key.
    pub key: String,
    /// The value, as compact JSON text.
    pub content: String,
    /// When the value was written (nanoseconds, UTC).
    pub timestamp: i64,
}

/// Whether an entry matches a keyword query: its JSON text or its key contains
/// the query, all compared in lower case.
pub open spec fn keyword_match(e: StoredEntry, query: Seq<char>) -> bool {
    contains_chars(lowercase_of(e.content@), lowercase_of(query)) || contains_chars(
        lowercase_of(e.key@),
        lowercase_of(query),
    )
}

/// The positions of the entries a search returns, in stored order, at most `limit`.
pub open spec fn search_order(entries: Seq<StoredEntry>, query: Seq<char>, limit: usize) -> Seq<usize> {
    truncated(positions(entries.len()).filter(|i: usize| keyword_match(entries[i as int], query)), limit)
}

/// What a search returns: at most `limit` positions of entries whose JSON text or
/// key contains the query, ignoring case; an entry whose text or key contains it
/// is returned unless `limit` entries already are.
pub proof fn law_search(entries: Seq<StoredEntry>, query: Seq<char>, limit: usize)
    requires
        entries.len() <= usize::MAX,
    ensures
        search_order(entries, query, limit).len() <= limit,
        forall|j: int| 0 <= j < search_order(entries, query, limit).len() ==> {
            let i = #[trigger] search_order(entries, query, limit)[j] as int;
            &&& 0 <= i < entries.len()
            &&& (contains_chars(lowercase_of(entries[i].content@), lowercase_of(query))
                || contains_chars(lowercase_of(entries[i].key@), lowercase_of(query)))
        },
        forall|i: int| 0 <= i < entries.len()
            && (contains_chars(lowercase_of((#[trigger] entries[i]).content@), lowercase_of(query))
                || contains_chars(lowercase_of(entries[i].key@), lowercase_of(query)))
            ==> search_order(entries, query, limit).contains(i as usize) || search_order(entries, query, limit).len() == limit,
{
    broadcast use vstd::seq_lib::group_filter_ensures;
    let n = entries.len();
    let pred = |i: usize| keyword_match(entries[i as int], query);
    let f = positions(n).filter(pred);
    let r = search_order(entries, query, limit);
    assert(r == truncated(f, limit));
    assert forall|j: int| 0 <= j < r.len() implies {
        let i = #[trigger] r[j] as int;
        &&& 0 <= i < entries.len()
        &&& (contains_chars(lowercase_of(entries[i].content@), lowercase_of(query))
            || contains_chars(lowercase_of(entries[i].key@), lowercase_of(query)))
    } by {
        assert(r[j] == f[j]);
        positions(n).lemma_filter_pred(pred, j);
        assert(f.contains(f[j]));
        positions(n).lemma_filter_contains_rev(pred, f[j]);
        let p = choose|p: int| 0 <= p < positions(n).len() && positions(n)[p] == f[j];
    }
    assert forall|i: int| 0 <= i < entries.len()
        && (contains_chars(lowercase_of((#[trigger] entries[i]).content@), lowercase_of(query))
            || contains_chars(lowercase_of(entries[i].key@), lowercase_of(query)))
        implies r.contains(i as usize) || r.len() == limit by {
        assert((i as usize) as int == i);
        assert(positions(n)[i] == i as usize);
        assert(pred(i as usize));
        positions(n).lemma_filter_contains(pred, i);
        if f.len() <= limit {
            assert(r == f);
        }
    }
}

/// The result a keyword hit on `e` becomes at time `now`.
pub open spec fn keyword_result(r: WorkspaceSearchResult, e: StoredEntry, now: i64) -> bool {
    &&& r.item.id@ == e.key@
    &&& r.item.content@ == e.content@
    &&& r.item.pattern == MemoryPattern::Event
    &&& r.item.importance == F32_HALF
    &&& r.item.created_at == e.timestamp
    &&& r.item.last_accessed == now
    &&& r.item.access_count == 0
    &&& r.item.tags@.len() == 0
    &&& r.item.causal_context is None
    &&& r.item.source is None
    &&& r.relevance == F32_HALF
    &&& r.match_type@ == "keyword"@
}

/// Summary of a consolidation operation.
#[derive(Debug, Clone, Default)]
pub struct ConsolidationSummary {
    /// Total items scanned.
    pub total_items: usize,
    /// Items consolidated.
    pub consolidated_count: usize,
    /// New summaries created.
    pub summaries_created: usize,
    /// Errors encountered.
    pub errors: usize,
}

/// Workspace statistics.
#[derive(Debug, Clone)]
pub struct WorkspaceStats {
    /// Total number of items.
    pub total_items: usize,
    /// Workspace name.
    pub workspace_name: String,
}

/// A workspace: the name that isolates its items.
#[derive(Debug, Clone)]
pub struct Workspace {
    /// The workspace name (its namespace).
    pub name: String,
}

impl Workspace {
    /// A workspace named `name`.
    pub fn new(name: String) -> (w: Self)
        ensures
            w.name == name,
    {
        Workspace { name }
    }

    /// The workspace name.
    pub fn name(&self) -> (r: &str)
        ensures
            r@ == self.name@,
    {
        self.name.as_str()
    }

    /// Keyword search over the stored entries at time `now`: the entries whose JSON
    /// text or key contains the query (ignoring case), in stored order, at most
    /// `opts.limit` of them, each as an event item of relevance 0.5. All results
    /// share one relevance, so ranking keeps the stored order.
    pub fn search(&self, entries: &Vec<StoredEntry>, query: &str, opts: &SearchOptions, now: i64) -> (r: Vec<WorkspaceSearchResult>)
        ensures
            r@.len() == search_order(entries@, query@, opts.limit).len(),
            forall|k: int| 0 <= k < r@.len() ==> keyword_result(#[trigger] r@[k], entries@[search_order(entries@, query@, opts.limit)[k] as int], now),
    {
        let q = to_lowercase(query);
        let ghost pred = |i: usize| keyword_match(entries@[i as int], query@);
        let mut hits: Vec<usize> = Vec::new();
        let mut i: usize = 0;
        while i < entries.len()
            invariant
                i <= entries@.len(),
                q@ == lowercase_of(query@),
                hits@ == positions(entries@.len()).take(i as int).filter(pred),
                forall|j: int| 0 <= j < hits@.len() ==> hits@[j] < i,
                pred == (|i: usize| keyword_match(entries@[i as int], query@)),
            decreases entries@.len() - i,
        {
            proof {
                assert(positions(entries@.len()).take(i + 1) =~= positions(entries@.len()).take(i as int).push(i));
                positions(entries@.len()).take(i as int).lemma_filter_push(i, pred);
            }
            let c = to_lowercase(entries[i].content.as_str());
            let k = to_lowercase(entries[i].key.as_str());
            if contains_str(c.as_str(), q.as_str()) || contains_str(k.as_str(), q.as_str()) {
                hits.push(i);
            }
            i = i + 1;
        }
        assert(positions(entries@.len()).take(entries@.len() as int) =~= positions(entries@.len()));
        if hits.len() > opts.limit {
            hits.truncate(opts.limit);
        }
        let mut out: Vec<WorkspaceSearchResult> = Vec::new();
        let mut j: usize = 0;
        while j < hits.len()
            invariant
                j <= hits@.len(),
                hits@ == search_order(entries@, query@, opts.limit),
                forall|x: int| 0 <= x < hits@.len() ==> hits@[x] < entries@.len(),
                out@.len() == j,
                forall|k: int| 0 <= k < j ==> keyword_result(#[trigger] out@[k], entries@[hits@[k] as int], now),
            decreases hits@.len() - j,
        {
            let e = &entries[hits[j]];
            let item = WorkspaceItem {
                id: e.key.clone(),
                content: e.content.clone(),
                pattern: MemoryPattern::Event,
                importance: F32_HALF,
                created_at: e.timestamp,
                last_accessed: now,
                access_count: 0,
                tags: Vec::new(),
                causal_context: None,
                source: None,
            };
            out.push(WorkspaceSearchResult { item, relevance: F32_HALF, match_type: String::from_str("keyword") });
            j = j + 1;
        }
        out
    }

    /// The consolidation summary over `total_keys` stored keys (nothing is
    /// consolidated yet).
    pub fn consolidate(&self, total_keys: usize) -> (s: ConsolidationSummary)
        ensures
            s.total_items == total_keys,
            s.consolidated_count == 0,
            s.summaries_created == 0,
            s.errors == 0,
    {
        ConsolidationSummary { total_items: total_keys, consolidated_count: 0, summaries_created: 0, errors: 0 }
    }

    /// Workspace statistics over `total_keys` stored keys.
    pub fn stats(&self, total_keys: usize) -> (s: WorkspaceStats)
        ensures
            s.total_items == total_keys,
            s.workspace_name@ == self.name@,
    {
        WorkspaceStats { total_items: total_keys, workspace_name: self.name.clone() }
    }
}

/// A short ID for content: the hex of the first eight bytes of its SHA-256.
pub fn generate_id(content: &str) -> (r: String)
    ensures
        r@ == hex_lower(sha256_of(encode_utf8(content@)).take(8)),
{
    let digest = sha256(content.as_bytes());
    let mut head: Vec<u8> = Vec::new();
    let mut i: usize = 0;
    while i < 8
        invariant
            digest@.len() == 32,
            i <= 8,
            head@ == digest@.take(i as int),
        decreases 8 - i,
    {
        head.push(digest[i]);
        assert(head@ =~= digest@.take(i + 1));
        i = i + 1;
    }
    hex_encode(head.as_slice())
}

/// AI agent memory context over a workspace.
#[derive(Debug, Clone)]
pub struct AgentContext {
    /// The workspace the context stores into.
    pub workspace: Workspace,
}

impl AgentContext {
    /// A context over `workspace`.
    pub fn new(workspace: Workspace) -> (c: Self)
        ensures
            c.workspace == workspace,
    {
        AgentContext { workspace }
    }

    /// The key an episode is stored under: `episode:` and the short ID of its content.
    pub fn episode_key(&self, content: &str) -> (r: String)
        ensures
            r@ == "episode:"@ + hex_lower(sha256_of(encode_utf8(content@)).take(8)),
    {
        let mut r = String::from_str("episode:");
        r.append(generate_id(content).as_str());
        r
    }

    /// The key a fact is stored under: `fact:` and its key.
    pub fn fact_key(&self, key: &str) -> (r: String)
        ensures
            r@ == "fact:"@ + key@,
    {
        let mut r = String::from_str("fact:");
        r.append(key);
        r
    }

    /// The key a procedure is stored under: `procedure:` and its name.
    pub fn procedure_key(&self, name: &str) -> (r: String)
        ensures
            r@ == "procedure:"@ + name@,
    {
        let mut r = String::from_str("procedure:");
        r.append(name);
        r
    }

    /// The search options `recall` uses: the defaults with `limit` results.
    pub fn recall_options(&self, limit: usize) -> (o: SearchOptions)
        ensures
            o.limit == limit,
            o.pattern is None,
            o.tags@.len() == 0,
            o.min_relevance == 0,
            o.from_time is None,
            o.to_time is None,
    {
        SearchOptions::new().limit(limit)
    }
}

} // verus!
