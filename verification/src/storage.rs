//! The storage engine: the current value of every key, every version ever
//! written, and the causal and reference graphs that writes grow.
//!
//! A value is JSON text; its distinction ID (content hash) is computed by the
//! distinction engine and handed in. Times are nanoseconds after the Unix
//! epoch (UTC).

use vstd::prelude::*;
use crate::causal_graph::{reaches, CausalGraph};
use crate::error::{DeltaError, DeltaResult};
use crate::memory::maps::{has_size, versions_get, versions_insert, versions_len, versions_of};
use crate::numfmt::{push_signed_decimal, signed_decimal};
use crate::ordering::{sort_asc, lemma_first_above};
use crate::reference_graph::ReferenceGraph;
use crate::strings::{chars_leq, sort_strings, str_eq, views};
use crate::types::{key_view, FullKey, VersionedValue};
use dashmap::DashMap;
use vstd::string::*;

verus! {

// ---------------------------------------------------------------------------
// The maps the storage keeps its state in
// ---------------------------------------------------------------------------

/// The current version of each key, by key text.
pub uninterp spec fn states_of(m: DashMap<FullKey, VersionedValue>) -> Map<(Seq<char>, Seq<char>), VersionedValue>;

/// The stored value texts, by distinction ID text.
pub uninterp spec fn texts_of(m: DashMap<String, String>) -> Map<Seq<char>, Seq<char>>;

/// `DashMap::new`: an empty map of current versions.
#[verifier::external_body]
fn states_new() -> (m: DashMap<FullKey, VersionedValue>)
    ensures
        has_size(states_of(m), 0),
{
    DashMap::new()
}

/// `DashMap::get`, cloning the version stored under `k`.
#[verifier::external_body]
fn states_get(m: &DashMap<FullKey, VersionedValue>, k: &FullKey) -> (r: Option<VersionedValue>)
    ensures
        match r {
            Some(v) => states_of(*m).contains_key(key_view(*k)) && v == states_of(*m)[key_view(*k)],
            None => !states_of(*m).contains_key(key_view(*k)),
        },
{
    m.get(k).map(|e| e.value().clone())
}

/// `DashMap::insert`: `k` now maps to `v`.
#[verifier::external_body]
fn states_insert(m: &mut DashMap<FullKey, VersionedValue>, k: FullKey, v: VersionedValue)
    ensures
        states_of(*final(m)) == states_of(*old(m)).insert(key_view(k), v),
{
    m.insert(k, v);
}

/// `DashMap::remove`: `k` no longer has a current version.
#[verifier::external_body]
fn states_remove(m: &mut DashMap<FullKey, VersionedValue>, k: &FullKey)
    ensures
        states_of(*final(m)) == states_of(*old(m)).remove(key_view(*k)),
{
    m.remove(k);
}

/// `DashMap::contains_key`.
#[verifier::external_body]
fn states_contains(m: &DashMap<FullKey, VersionedValue>, k: &FullKey) -> (r: bool)
    ensures
        r == states_of(*m).contains_key(key_view(*k)),
{
    m.contains_key(k)
}

/// `DashMap::len`: the number of keys.
#[verifier::external_body]
fn states_len(m: &DashMap<FullKey, VersionedValue>) -> (r: usize)
    ensures
        has_size(states_of(*m), r as nat),
{
    m.len()
}

/// `DashMap::iter`, collected: every entry once, in the map's iteration order.
#[verifier::external_body]
fn states_entries(m: &DashMap<FullKey, VersionedValue>) -> (r: Vec<(FullKey, VersionedValue)>)
    ensures
        has_size(states_of(*m), r@.len()),
        forall|i: int| 0 <= i < r@.len() ==> states_of(*m).contains_key(key_view((#[trigger] r@[i]).0))
            && states_of(*m)[key_view(r@[i].0)] == r@[i].1,
        forall|i: int, j: int| 0 <= i < j < r@.len() ==> key_view((#[trigger] r@[i]).0) != key_view((#[trigger] r@[j]).0),
        forall|k: (Seq<char>, Seq<char>)| states_of(*m).contains_key(k) ==> exists|i: int| 0 <= i < r@.len() && key_view((#[trigger] r@[i]).0) == k,
{
    m.iter().map(|e| (e.key().clone(), e.value().clone())).collect()
}

/// `DashMap::new`: an empty map of value texts.
#[verifier::external_body]
fn texts_new() -> (m: DashMap<String, String>)
    ensures
        has_size(texts_of(m), 0),
{
    DashMap::new()
}

/// `DashMap::get`, cloning the text stored under `k`.
#[verifier::external_body]
fn texts_get(m: &DashMap<String, String>, k: &str) -> (r: Option<String>)
    ensures
        match r {
            Some(t) => texts_of(*m).contains_key(k@) && t@ == texts_of(*m)[k@],
            None => !texts_of(*m).contains_key(k@),
        },
{
    m.get(k).map(|e| e.value().clone())
}

/// `DashMap::insert`: `k` now maps to `t`.
#[verifier::external_body]
fn texts_insert(m: &mut DashMap<String, String>, k: String, t: String)
    ensures
        texts_of(*final(m)) == texts_of(*old(m)).insert(k@, t@),
{
    m.insert(k, t);
}

/// `DashMap::new`: an empty map of versions.
#[verifier::external_body]
fn versions_new() -> (m: DashMap<String, VersionedValue>)
    ensures
        has_size(versions_of(m), 0),
{
    DashMap::new()
}

// ---------------------------------------------------------------------------
// Specifications
// ---------------------------------------------------------------------------

/// The ID of the write of distinction `did` at `now`: `{did}_{now}`.
pub open spec fn write_id_text(did: Seq<char>, now: i64) -> Seq<char> {
    did + "_"@ + signed_decimal(now as int)
}

/// The text of an optional string.
pub open spec fn opt_view(o: Option<String>) -> Option<Seq<char>> {
    match o {
        Some(s) => Some(s@),
        None => None,
    }
}

/// One version in a key's history.
#[derive(Debug, Clone)]
pub struct HistoryEntry {
    /// The value, as JSON text.
    pub value: String,
    /// When it was written (nanoseconds, UTC).
    pub timestamp: i64,
    /// The ID of the write.
    pub version_id: String,
}

/// The history entry of a version.
pub open spec fn entry_of(v: VersionedValue) -> (Seq<char>, i64, Seq<char>) {
    (v.value@, v.timestamp, v.write_id@)
}

/// The text of a history entry.
pub open spec fn entry_view(h: HistoryEntry) -> (Seq<char>, i64, Seq<char>) {
    (h.value@, h.timestamp, h.version_id@)
}

/// Whether the write `id` is `current` or one of its causal ancestors.
pub open spec fn in_lineage(edges: Seq<(Seq<char>, Seq<char>)>, current: Seq<char>, id: Seq<char>) -> bool {
    id == current || reaches(edges, id, current)
}

/// The time of a version.
pub open spec fn version_time() -> spec_fn(VersionedValue) -> int {
    |v: VersionedValue| v.timestamp as int
}

/// Whole seconds at or before `nanos`.
pub open spec fn floor_secs(nanos: i64) -> int {
    nanos as int / 1_000_000_000
}

/// A sequence with each run of equal neighbours kept once.
pub open spec fn dedup_adjacent(s: Seq<Seq<char>>) -> Seq<Seq<char>>
    decreases s.len(),
{
    if s.len() == 0 {
        s
    } else {
        let r = dedup_adjacent(s.drop_last());
        if r.len() > 0 && r.last() == s.last() { r } else { r.push(s.last()) }
    }
}

/// Whether `e` lists each current entry of `m` once.
pub open spec fn lists_current(e: Seq<(FullKey, VersionedValue)>, m: Map<(Seq<char>, Seq<char>), VersionedValue>) -> bool {
    &&& has_size(m, e.len())
    &&& forall|i: int| 0 <= i < e.len() ==> m.contains_key(key_view((#[trigger] e[i]).0)) && m[key_view(e[i].0)] == e[i].1
    &&& forall|i: int, j: int| 0 <= i < j < e.len() ==> key_view((#[trigger] e[i]).0) != key_view((#[trigger] e[j]).0)
    &&& forall|k: (Seq<char>, Seq<char>)| m.contains_key(k) ==> exists|i: int| 0 <= i < e.len() && key_view((#[trigger] e[i]).0) == k
}

/// The namespaces of an enumeration, in its order.
pub open spec fn namespaces_of(e: Seq<(FullKey, VersionedValue)>) -> Seq<Seq<char>> {
    e.map_values(|p: (FullKey, VersionedValue)| p.0.namespace@)
}

/// The keys of an enumeration that lie in namespace `ns`, in its order.
pub open spec fn keys_in(e: Seq<(FullKey, VersionedValue)>, ns: Seq<char>) -> Seq<Seq<char>> {
    e.filter(|p: (FullKey, VersionedValue)| p.0.namespace@ == ns).map_values(|p: (FullKey, VersionedValue)| p.0.key@)
}

/// `c` holds, once each and in some order, the stored versions of the writes
/// in the lineage of `cur`.
pub open spec fn lineage_versions(c: Seq<VersionedValue>, versions: Map<Seq<char>, VersionedValue>, edges: Seq<(Seq<char>, Seq<char>)>, cur: Seq<char>) -> bool {
    exists|ids: Seq<Seq<char>>| #[trigger] lineage_listed(c, ids, versions, edges, cur)
        && forall|id: Seq<char>| in_lineage(edges, cur, id) && versions.contains_key(id) ==> #[trigger] ids.contains(id)
}

/// `c` holds the stored versions of the distinct lineage writes `ids`, in order.
pub open spec fn lineage_listed(c: Seq<VersionedValue>, ids: Seq<Seq<char>>, versions: Map<Seq<char>, VersionedValue>, edges: Seq<(Seq<char>, Seq<char>)>, cur: Seq<char>) -> bool {
    &&& c.len() == ids.len()
    &&& ids.no_duplicates()
    &&& forall|q: int| 0 <= q < ids.len() ==> versions.contains_key(#[trigger] ids[q]) && versions[ids[q]] == c[q] && in_lineage(edges, cur, ids[q])
}

proof fn lemma_listed_is_lineage(c: Seq<VersionedValue>, ids: Seq<Seq<char>>, versions: Map<Seq<char>, VersionedValue>, edges: Seq<(Seq<char>, Seq<char>)>, cur: Seq<char>, all: Seq<Seq<char>>)
    requires
        lineage_listed(c, ids, versions, edges, cur),
        forall|id: Seq<char>| in_lineage(edges, cur, id) ==> all.contains(id),
        forall|x: Seq<char>| #[trigger] ids.contains(x) <==> (all.contains(x) && versions.contains_key(x)),
    ensures
        lineage_versions(c, versions, edges, cur),
{
    assert forall|id: Seq<char>| in_lineage(edges, cur, id) && versions.contains_key(id) implies #[trigger] ids.contains(id) by {
        assert(all.contains(id));
    }
}

/// `nanos` in whole seconds, rounded down.
fn floor_div_billion(nanos: i64) -> (r: i64)
    ensures
        r == floor_secs(nanos),
{
    let n: i128 = nanos as i128;
    let q: i128 = if n >= 0 { n / 1_000_000_000 } else { 0 - ((0 - n + 999_999_999) / 1_000_000_000) };
    proof {
        if n < 0 {
            assert(q == n / 1_000_000_000) by (nonlinear_arith)
                requires
                    n < 0,
                    q == 0 - ((0 - n + 999_999_999) / 1_000_000_000),
            ;
        }
    }
    q as i64
}

/// Versions ordered by time, oldest first (ties in the given order).
fn sort_versions(v: &Vec<VersionedValue>) -> (r: Vec<VersionedValue>)
    ensures
        r@ == sort_asc(v@, version_time()),
{
    let mut r: Vec<VersionedValue> = Vec::new();
    let mut i: usize = 0;
    assert(v@.take(0) =~= Seq::<VersionedValue>::empty());
    while i < v.len()
        invariant
            i <= v@.len(),
            r@ == sort_asc(v@.take(i as int), version_time()),
        decreases v@.len() - i,
    {
        let x = v[i].duplicate();
        let mut p: usize = 0;
        while p < r.len() && !(r[p].timestamp > x.timestamp)
            invariant
                p <= r@.len(),
                forall|q: int| 0 <= q < p ==> !((#[trigger] r@[q]).timestamp > x.timestamp),
            decreases r@.len() - p,
        {
            p = p + 1;
        }
        proof {
            assert forall|q: int| 0 <= q < p implies !(version_time()(#[trigger] r@[q]) > version_time()(x)) by {}
            lemma_first_above(r@, version_time(), version_time()(x), p as int);
            assert(v@.take(i + 1).drop_last() =~= v@.take(i as int));
            assert(v@.take(i + 1).last() == x);
        }
        r.insert(p, x);
        i = i + 1;
    }
    assert(v@.take(v@.len() as int) =~= v@);
    r
}

impl HistoryEntry {
    /// A history entry.
    pub fn new(value: String, timestamp: i64, version_id: String) -> (h: Self)
        ensures
            h.value == value,
            h.timestamp == timestamp,
            h.version_id == version_id,
    {
        HistoryEntry { value, timestamp, version_id }
    }

    /// The history entry of a version: its value, time and write ID.
    pub fn from_version(v: &VersionedValue) -> (h: Self)
        ensures
            entry_view(h) == entry_of(*v),
    {
        HistoryEntry { value: v.value.clone(), timestamp: v.timestamp, version_id: v.write_id.clone() }
    }
}

// ---------------------------------------------------------------------------
// The storage
// ---------------------------------------------------------------------------

/// The storage engine.
#[derive(Debug)]
pub struct CausalStorage {
    /// How versions derive from one another (write IDs).
    causal_graph: CausalGraph,
    /// What versions reference.
    reference_graph: ReferenceGraph,
    /// The current version of each key.
    current_state: DashMap<FullKey, VersionedValue>,
    /// Every version, by write ID.
    version_store: DashMap<String, VersionedValue>,
    /// Value texts, by distinction ID (one copy per distinct content).
    value_store: DashMap<String, String>,
}

impl CausalStorage {
    /// The current version of each key.
    pub closed spec fn current(&self) -> Map<(Seq<char>, Seq<char>), VersionedValue> {
        states_of(self.current_state)
    }

    /// Every version, by write ID.
    pub closed spec fn versions(&self) -> Map<Seq<char>, VersionedValue> {
        versions_of(self.version_store)
    }

    /// The stored value texts, by distinction ID.
    pub closed spec fn values(&self) -> Map<Seq<char>, Seq<char>> {
        texts_of(self.value_store)
    }

    /// The causal graph of writes.
    pub closed spec fn graph(&self) -> CausalGraph {
        self.causal_graph
    }

    /// The reference graph of writes.
    pub closed spec fn refs(&self) -> ReferenceGraph {
        self.reference_graph
    }

    /// Both graphs are well formed.
    pub open spec fn wf(&self) -> bool {
        self.graph().wf() && self.refs().wf()
    }

    /// Empty storage.
    pub fn new() -> (s: Self)
        ensures
            s.wf(),
            has_size(s.current(), 0),
            has_size(s.versions(), 0),
            has_size(s.values(), 0),
            s.graph().node_ids().len() == 0,
            s.graph().edge_ids().len() == 0,
    {
        CausalStorage {
            causal_graph: CausalGraph::new(),
            reference_graph: ReferenceGraph::new(),
            current_state: states_new(),
            version_store: versions_new(),
            value_store: texts_new(),
        }
    }

    /// Record a new version of `namespace`/`key` holding `value` (JSON text)
    /// whose distinction ID is `distinction_id`, written at `now`. The write
    /// gets the ID `{distinction_id}_{now}`, follows the key's current version
    /// in the causal graph, shares the stored text of any earlier value with
    /// the same distinction ID, and becomes the key's current version.
    pub fn put(&mut self, namespace: String, key: String, value: String, distinction_id: String, now: i64) -> (r: VersionedValue)
        requires
            old(self).wf(),
        ensures
            final(self).wf(),
            r.write_id@ == write_id_text(distinction_id@, now),
            r.timestamp == now,
            r.distinction_id@ == distinction_id@,
            opt_view(r.previous_version) == (if old(self).current().contains_key((namespace@, key@)) {
                Some(old(self).current()[(namespace@, key@)].write_id@)
            } else {
                None
            }),
            r.value@ == (if old(self).values().contains_key(distinction_id@) { old(self).values()[distinction_id@] } else { value@ }),
            final(self).values() == (if old(self).values().contains_key(distinction_id@) {
                old(self).values()
            } else {
                old(self).values().insert(distinction_id@, value@)
            }),
            final(self).versions() == old(self).versions().insert(r.write_id@, r),
            final(self).current() == old(self).current().insert((namespace@, key@), r),
            final(self).graph().node_ids() == (if old(self).graph().node_ids().contains(r.write_id@) {
                old(self).graph().node_ids()
            } else {
                old(self).graph().node_ids().push(r.write_id@)
            }),
            final(self).graph().edge_ids() == (match opt_view(r.previous_version) {
                Some(p) => old(self).graph().edge_ids().push((p, r.write_id@)),
                None => old(self).graph().edge_ids(),
            }),
            final(self).refs().node_set() == old(self).refs().node_set().insert(r.write_id@),
            final(self).refs().out() == old(self).refs().out(),
            final(self).refs().inc() == old(self).refs().inc(),
    {
        let full_key = FullKey::new(namespace, key);
        let previous_version = match states_get(&self.current_state, &full_key) {
            Some(v) => Some(v.write_id),
            None => None,
        };
        let mut write_id = distinction_id.clone();
        write_id.append("_");
        proof {
            reveal_strlit("_");
        }
        push_signed_decimal(&mut write_id, now);
        self.causal_graph.add_node(write_id.clone());
        match &previous_version {
            Some(parent_id) => self.causal_graph.add_edge(parent_id.clone(), write_id.clone()),
            None => {},
        }
        self.reference_graph.add_node(write_id.clone());
        let shared_value = match texts_get(&self.value_store, distinction_id.as_str()) {
            Some(t) => t,
            None => {
                texts_insert(&mut self.value_store, distinction_id.clone(), value.clone());
                value
            },
        };
        let versioned = VersionedValue {
            value: shared_value,
            timestamp: now,
            write_id: write_id.clone(),
            distinction_id,
            previous_version,
        };
        versions_insert(&mut self.version_store, write_id, versioned.duplicate());
        states_insert(&mut self.current_state, full_key, versioned.duplicate());
        versioned
    }

    /// Record a version as it was written before (when replaying a log): its
    /// write ID, distinction ID and previous version are kept.
    pub fn insert_direct(&mut self, namespace: String, key: String, versioned: VersionedValue)
        requires
            old(self).wf(),
        ensures
            final(self).wf(),
            final(self).values() == (if old(self).values().contains_key(versioned.distinction_id@) {
                old(self).values()
            } else {
                old(self).values().insert(versioned.distinction_id@, versioned.value@)
            }),
            final(self).versions() == old(self).versions().insert(versioned.write_id@, versioned),
            final(self).current() == old(self).current().insert((namespace@, key@), versioned),
            final(self).graph().node_ids() == (if old(self).graph().node_ids().contains(versioned.write_id@) {
                old(self).graph().node_ids()
            } else {
                old(self).graph().node_ids().push(versioned.write_id@)
            }),
            final(self).graph().edge_ids() == (match opt_view(versioned.previous_version) {
                Some(p) => old(self).graph().edge_ids().push((p, versioned.write_id@)),
                None => old(self).graph().edge_ids(),
            }),
            final(self).refs().node_set() == old(self).refs().node_set().insert(versioned.write_id@),
            final(self).refs().out() == old(self).refs().out(),
            final(self).refs().inc() == old(self).refs().inc(),
    {
        let full_key = FullKey::new(namespace, key);
        let write_id = versioned.write_id.clone();
        self.causal_graph.add_node(write_id.clone());
        match &versioned.previous_version {
            Some(parent_id) => self.causal_graph.add_edge(parent_id.clone(), write_id.clone()),
            None => {},
        }
        self.reference_graph.add_node(write_id.clone());
        match texts_get(&self.value_store, versioned.distinction_id.as_str()) {
            Some(_) => {},
            None => texts_insert(&mut self.value_store, versioned.distinction_id.clone(), versioned.value.clone()),
        }
        versions_insert(&mut self.version_store, write_id, versioned.duplicate());
        states_insert(&mut self.current_state, full_key, versioned);
    }

    /// The current version of `namespace`/`key`.
    pub fn get(&self, namespace: &str, key: &str) -> (r: DeltaResult<VersionedValue>)
        ensures
            match r {
                Ok(v) => self.current().contains_key((namespace@, key@)) && v == self.current()[(namespace@, key@)],
                Err(e) => !self.current().contains_key((namespace@, key@))
                    && (e matches DeltaError::KeyNotFound { namespace: n, key: k } && n@ == namespace@ && k@ == key@),
            },
    {
        let full_key = FullKey::new(namespace.to_string(), key.to_string());
        match states_get(&self.current_state, &full_key) {
            Some(v) => Ok(v),
            None => Err(DeltaError::KeyNotFound { namespace: full_key.namespace, key: full_key.key }),
        }
    }

    /// The version of `namespace`/`key` current at `timestamp`: among the
    /// key's current version and its causal ancestors, a latest one written at
    /// or before `timestamp`.
    pub fn get_at(&self, namespace: &str, key: &str, timestamp: i64) -> (r: DeltaResult<VersionedValue>)
        ensures
            match r {
                Ok(v) => self.current().contains_key((namespace@, key@)) && {
                    let cur = self.current()[(namespace@, key@)].write_id@;
                    &&& exists|id: Seq<char>| #[trigger] in_lineage(self.graph().edge_ids(), cur, id)
                        && self.versions().contains_key(id) && self.versions()[id] == v
                    &&& v.timestamp <= timestamp
                    &&& forall|id: Seq<char>| #[trigger] in_lineage(self.graph().edge_ids(), cur, id)
                        && self.versions().contains_key(id) && self.versions()[id].timestamp <= timestamp
                        ==> self.versions()[id].timestamp <= v.timestamp
                },
                Err(e) => if self.current().contains_key((namespace@, key@)) {
                    let cur = self.current()[(namespace@, key@)].write_id@;
                    &&& forall|id: Seq<char>| #[trigger] in_lineage(self.graph().edge_ids(), cur, id)
                        && self.versions().contains_key(id) ==> self.versions()[id].timestamp > timestamp
                    &&& e matches DeltaError::NoValueAtTimestamp { namespace: n, key: k, timestamp: t }
                        && n@ == namespace@ && k@ == key@ && t == floor_secs(timestamp)
                } else {
                    e matches DeltaError::KeyNotFound { namespace: n, key: k } && n@ == namespace@ && k@ == key@
                },
            },
    {
        let full_key = FullKey::new(namespace.to_string(), key.to_string());
        let current = match states_get(&self.current_state, &full_key) {
            Some(v) => v,
            None => {
                return Err(DeltaError::KeyNotFound { namespace: full_key.namespace, key: full_key.key });
            },
        };
        let ids = self.lineage(current.write_id.as_str());
        let ghost cur = current.write_id@;
        let ghost edges = self.graph().edge_ids();
        let mut best: Option<VersionedValue> = None;
        let mut i: usize = 0;
        while i < ids.len()
            invariant
                i <= ids@.len(),
                edges == self.graph().edge_ids(),
                forall|q: int| 0 <= q < ids@.len() ==> in_lineage(edges, cur, #[trigger] ids@[q]@),
                forall|id: Seq<char>| #[trigger] in_lineage(edges, cur, id) ==> views(ids@).contains(id),
                match best {
                    Some(v) => {
                        &&& exists|id: Seq<char>| #[trigger] in_lineage(edges, cur, id) && self.versions().contains_key(id) && self.versions()[id] == v
                        &&& v.timestamp <= timestamp
                        &&& forall|q: int| 0 <= q < i && self.versions().contains_key(#[trigger] ids@[q]@)
                            && self.versions()[ids@[q]@].timestamp <= timestamp ==> self.versions()[ids@[q]@].timestamp <= v.timestamp
                    },
                    None => forall|q: int| 0 <= q < i && self.versions().contains_key(#[trigger] ids@[q]@)
                        ==> self.versions()[ids@[q]@].timestamp > timestamp,
                },
            decreases ids@.len() - i,
        {
            match versions_get(&self.version_store, ids[i].as_str()) {
                Some(v) => {
                    if v.timestamp <= timestamp {
                        let better = match &best {
                            Some(b) => v.timestamp > b.timestamp,
                            None => true,
                        };
                        if better {
                            proof {
                                assert(in_lineage(edges, cur, ids@[i as int]@));
                            }
                            best = Some(v);
                        }
                    }
                },
                None => {},
            }
            i = i + 1;
        }
        proof {
            assert forall|id: Seq<char>| #[trigger] in_lineage(edges, cur, id) implies exists|q: int| 0 <= q < ids@.len() && ids@[q]@ == id by {
                assert(views(ids@).contains(id));
                let q = choose|q: int| 0 <= q < views(ids@).len() && views(ids@)[q] == id;
                assert(ids@[q]@ == id);
            }
        }
        match best {
            Some(v) => Ok(v),
            None => {
                let secs: i64 = floor_div_billion(timestamp);
                Err(DeltaError::NoValueAtTimestamp { namespace: full_key.namespace, key: full_key.key, timestamp: secs })
            },
        }
    }

    /// Every version of `namespace`/`key`: its current version and causal
    /// ancestors that are stored, oldest first.
    pub fn history(&self, namespace: &str, key: &str) -> (r: DeltaResult<Vec<HistoryEntry>>)
        ensures
            match r {
                Ok(h) => self.current().contains_key((namespace@, key@))
                    && exists|c: Seq<VersionedValue>| #[trigger] lineage_versions(c, self.versions(), self.graph().edge_ids(), self.current()[(namespace@, key@)].write_id@)
                        && h@.map_values(|x: HistoryEntry| entry_view(x)) == sort_asc(c, version_time()).map_values(|v: VersionedValue| entry_of(v)),
                Err(e) => !self.current().contains_key((namespace@, key@))
                    && (e matches DeltaError::KeyNotFound { namespace: n, key: k } && n@ == namespace@ && k@ == key@),
            },
    {
        let full_key = FullKey::new(namespace.to_string(), key.to_string());
        let current = match states_get(&self.current_state, &full_key) {
            Some(v) => v,
            None => {
                return Err(DeltaError::KeyNotFound { namespace: full_key.namespace, key: full_key.key });
            },
        };
        let sorted = self.lineage_history(current.write_id.as_str());
        let mut h: Vec<HistoryEntry> = Vec::new();
        let mut j: usize = 0;
        while j < sorted.len()
            invariant
                j <= sorted@.len(),
                h@.len() == j,
                forall|q: int| 0 <= q < j ==> entry_view(#[trigger] h@[q]) == entry_of(sorted@[q]),
            decreases sorted@.len() - j,
        {
            h.push(HistoryEntry::from_version(&sorted[j]));
            j = j + 1;
        }
        proof {
            assert(h@.map_values(|x: HistoryEntry| entry_view(x)) =~= sorted@.map_values(|v: VersionedValue| entry_of(v)));
        }
        Ok(h)
    }

    /// Every stored version in the lineage of `write_id` (the write and all it
    /// derives from), oldest first.
    fn lineage_history(&self, write_id: &str) -> (r: Vec<VersionedValue>)
        ensures
            exists|c: Seq<VersionedValue>| #[trigger] lineage_versions(c, self.versions(), self.graph().edge_ids(), write_id@)
                && r@ == sort_asc(c, version_time()),
    {
        let ids = self.lineage(write_id);
        let ghost cur = write_id@;
        let ghost edges = self.graph().edge_ids();
        let mut found: Vec<VersionedValue> = Vec::new();
        let mut found_ids: Vec<String> = Vec::new();
        let mut i: usize = 0;
        while i < ids.len()
            invariant
                i <= ids@.len(),
                edges == self.graph().edge_ids(),
                views(ids@).no_duplicates(),
                forall|q: int| 0 <= q < ids@.len() ==> in_lineage(edges, cur, #[trigger] ids@[q]@),
                found@.len() == found_ids@.len(),
                views(found_ids@).no_duplicates(),
                forall|q: int| 0 <= q < found@.len() ==> self.versions().contains_key(#[trigger] found_ids@[q]@)
                    && self.versions()[found_ids@[q]@] == found@[q] && in_lineage(edges, cur, found_ids@[q]@),
                forall|x: Seq<char>| #[trigger] views(found_ids@).contains(x) <==> (views(ids@).take(i as int).contains(x) && self.versions().contains_key(x)),
            decreases ids@.len() - i,
        {
            let ghost before = views(found_ids@);
            proof {
                assert(views(ids@).take(i + 1) =~= views(ids@).take(i as int).push(ids@[i as int]@));
            }
            match versions_get(&self.version_store, ids[i].as_str()) {
                Some(v) => {
                    found.push(v);
                    found_ids.push(ids[i].clone());
                    proof {
                        assert(views(found_ids@) =~= before.push(ids@[i as int]@));
                        assert(!before.contains(ids@[i as int]@)) by {
                            if before.contains(ids@[i as int]@) {
                                assert(views(ids@).take(i as int).contains(ids@[i as int]@));
                                let q = choose|q: int| 0 <= q < i && views(ids@).take(i as int)[q] == ids@[i as int]@;
                                assert(views(ids@)[q] == views(ids@)[i as int]);
                            }
                        }
                        assert forall|a: int, b: int| 0 <= a < b < views(found_ids@).len() implies views(found_ids@)[a] != views(found_ids@)[b] by {
                            if b == views(found_ids@).len() - 1 {
                                assert(before.contains(views(found_ids@)[a]));
                            }
                        }
                        assert forall|x: Seq<char>| #[trigger] views(found_ids@).contains(x) <==> (views(ids@).take(i + 1).contains(x) && self.versions().contains_key(x)) by {
                            vstd::seq_lib::lemma_seq_contains_after_push(before, ids@[i as int]@, x);
                            vstd::seq_lib::lemma_seq_contains_after_push(views(ids@).take(i as int), ids@[i as int]@, x);
                        }
                    }
                },
                None => {
                    proof {
                        assert forall|x: Seq<char>| #[trigger] views(found_ids@).contains(x) <==> (views(ids@).take(i + 1).contains(x) && self.versions().contains_key(x)) by {
                            vstd::seq_lib::lemma_seq_contains_after_push(views(ids@).take(i as int), ids@[i as int]@, x);
                        }
                    }
                },
            }
            i = i + 1;
        }
        proof {
            assert(views(ids@).take(ids@.len() as int) =~= views(ids@));
            assert(lineage_listed(found@, views(found_ids@), self.versions(), edges, cur));
        }
        let sorted = sort_versions(&found);
        proof {
            assert(lineage_versions(found@, self.versions(), edges, cur)) by {
                lemma_listed_is_lineage(found@, views(found_ids@), self.versions(), edges, cur, views(ids@));
            }
        }
        sorted
    }

    /// A snapshot of the storage: each key with its current version and every
    /// stored version in that version's lineage, oldest first.
    pub fn create_snapshot(&self) -> (r: Vec<(FullKey, VersionedValue, Vec<VersionedValue>)>)
        ensures
            lists_current(r@.map_values(|t: (FullKey, VersionedValue, Vec<VersionedValue>)| (t.0, t.1)), self.current()),
            forall|i: int| 0 <= i < r@.len() ==> exists|c: Seq<VersionedValue>| #[trigger] lineage_versions(c, self.versions(), self.graph().edge_ids(), r@[i].1.write_id@)
                && (#[trigger] r@[i]).2@ == sort_asc(c, version_time()),
    {
        let entries = self.scan_all();
        let ghost e = entries@;
        let mut r: Vec<(FullKey, VersionedValue, Vec<VersionedValue>)> = Vec::new();
        let mut entries = entries;
        let mut rev: Vec<(FullKey, VersionedValue)> = Vec::new();
        while entries.len() > 0
            invariant
                entries@.len() + rev@.len() == e.len(),
                entries@ == e.take(entries@.len() as int),
                forall|j: int| 0 <= j < rev@.len() ==> #[trigger] rev@[j] == e[e.len() - 1 - j],
            decreases entries@.len(),
        {
            let x = entries.pop().unwrap();
            rev.push(x);
        }
        while rev.len() > 0
            invariant
                rev@.len() <= e.len(),
                forall|j: int| 0 <= j < rev@.len() ==> #[trigger] rev@[j] == e[e.len() - 1 - j],
                r@.len() == e.len() - rev@.len(),
                forall|i: int| 0 <= i < r@.len() ==> ((#[trigger] r@[i]).0, r@[i].1) == e[i],
                forall|i: int| 0 <= i < r@.len() ==> exists|c: Seq<VersionedValue>| #[trigger] lineage_versions(c, self.versions(), self.graph().edge_ids(), r@[i].1.write_id@)
                    && (#[trigger] r@[i]).2@ == sort_asc(c, version_time()),
            decreases rev@.len(),
        {
            let ghost k = e.len() - rev@.len();
            let (key, value) = rev.pop().unwrap();
            let hist = self.lineage_history(value.write_id.as_str());
            r.push((key, value, hist));
            proof {
                assert(r@[k] == (key, value, hist));
            }
        }
        proof {
            assert(r@.map_values(|t: (FullKey, VersionedValue, Vec<VersionedValue>)| (t.0, t.1)) =~= e);
        }
        r
    }

    /// The write `current` and every write it derives from, each once.
    fn lineage(&self, current: &str) -> (r: Vec<String>)
        ensures
            views(r@).no_duplicates(),
            forall|id: Seq<char>| #[trigger] views(r@).contains(id) <==> in_lineage(self.graph().edge_ids(), current@, id),
            forall|q: int| 0 <= q < r@.len() ==> in_lineage(self.graph().edge_ids(), current@, #[trigger] r@[q]@),
    {
        let ancestors = self.causal_graph.ancestors(current);
        let mut r: Vec<String> = Vec::new();
        r.push(current.to_string());
        let mut i: usize = 0;
        proof {
            assert(views(r@) =~= seq![current@]);
            assert(views(ancestors@).take(0) =~= Seq::<Seq<char>>::empty());
            assert forall|id: Seq<char>| #[trigger] views(r@).contains(id) <==> (id == current@ || views(ancestors@).take(0).contains(id)) by {
                assert(views(r@)[0] == current@);
            }
        }
        while i < ancestors.len()
            invariant
                i <= ancestors@.len(),
                views(ancestors@).no_duplicates(),
                forall|a: Seq<char>| views(ancestors@).contains(a) <==> reaches(self.graph().edge_ids(), a, current@),
                views(r@).no_duplicates(),
                forall|id: Seq<char>| #[trigger] views(r@).contains(id) <==> (id == current@ || views(ancestors@).take(i as int).contains(id)),
            decreases ancestors@.len() - i,
        {
            let ghost before = views(r@);
            let ghost a = ancestors@[i as int]@;
            proof {
                assert(views(ancestors@).take(i + 1) =~= views(ancestors@).take(i as int).push(a));
                assert forall|x: Seq<char>| views(ancestors@).take(i + 1).contains(x) <==> (views(ancestors@).take(i as int).contains(x) || x == a) by {
                    vstd::seq_lib::lemma_seq_contains_after_push(views(ancestors@).take(i as int), a, x);
                }
            }
            if !str_eq(ancestors[i].as_str(), current) {
                r.push(ancestors[i].clone());
                proof {
                    assert(views(r@) =~= before.push(a));
                    assert(!before.contains(a)) by {
                        if before.contains(a) {
                            assert(views(ancestors@).take(i as int).contains(a));
                            let q = choose|q: int| 0 <= q < i && views(ancestors@).take(i as int)[q] == a;
                            assert(views(ancestors@)[q] == views(ancestors@)[i as int]);
                        }
                    }
                    assert forall|p: int, q: int| 0 <= p < q < views(r@).len() implies views(r@)[p] != views(r@)[q] by {
                        if q == views(r@).len() - 1 {
                            assert(before.contains(views(r@)[p]));
                        }
                    }
                    assert forall|x: Seq<char>| #[trigger] views(r@).contains(x) <==> (x == current@ || views(ancestors@).take(i + 1).contains(x)) by {
                        vstd::seq_lib::lemma_seq_contains_after_push(before, a, x);
                    }
                }
            }
            i = i + 1;
        }
        proof {
            assert(views(ancestors@).take(ancestors@.len() as int) =~= views(ancestors@));
            assert forall|id: Seq<char>| #[trigger] views(r@).contains(id) <==> in_lineage(self.graph().edge_ids(), current@, id) by {
                if id != current@ && reaches(self.graph().edge_ids(), id, current@) {
                    assert(views(ancestors@).contains(id));
                }
            }
            assert forall|q: int| 0 <= q < r@.len() implies in_lineage(self.graph().edge_ids(), current@, #[trigger] r@[q]@) by {
                assert(views(r@)[q] == r@[q]@);
                assert(views(r@).contains(r@[q]@));
            }
        }
        r
    }

    /// The namespaces in use, sorted, each once.
    pub fn list_namespaces(&self) -> (r: Vec<String>)
        ensures
            exists|e: Seq<(FullKey, VersionedValue)>| #[trigger] lists_current(e, self.current())
                && views(r@) == dedup_adjacent(namespaces_of(e).sort_by(chars_leq())),
    {
        let entries = states_entries(&self.current_state);
        let mut names: Vec<String> = Vec::new();
        let mut i: usize = 0;
        while i < entries.len()
            invariant
                i <= entries@.len(),
                views(names@) == namespaces_of(entries@).take(i as int),
            decreases entries@.len() - i,
        {
            let ghost before = views(names@);
            names.push(entries[i].0.namespace.clone());
            proof {
                assert(views(names@) =~= before.push(entries@[i as int].0.namespace@));
                assert(namespaces_of(entries@).take(i + 1) =~= namespaces_of(entries@).take(i as int).push(entries@[i as int].0.namespace@));
            }
            i = i + 1;
        }
        proof {
            assert(namespaces_of(entries@).take(entries@.len() as int) =~= namespaces_of(entries@));
        }
        let sorted = sort_strings(names);
        let mut r: Vec<String> = Vec::new();
        let mut j: usize = 0;
        proof {
            assert(views(sorted@).take(0) =~= Seq::<Seq<char>>::empty());
            assert(views(r@) =~= Seq::<Seq<char>>::empty());
        }
        while j < sorted.len()
            invariant
                j <= sorted@.len(),
                views(r@) == dedup_adjacent(views(sorted@).take(j as int)),
            decreases sorted@.len() - j,
        {
            let ghost before = views(r@);
            proof {
                assert(views(sorted@).take(j + 1).drop_last() =~= views(sorted@).take(j as int));
                assert(views(sorted@).take(j + 1).last() == sorted@[j as int]@);
            }
            let n = r.len();
            if n == 0 || !str_eq(r[n - 1].as_str(), sorted[j].as_str()) {
                r.push(sorted[j].clone());
                proof {
                    assert(views(r@) =~= before.push(sorted@[j as int]@));
                }
            } else {
                proof {
                    assert(before.last() == r@[n - 1]@);
                }
            }
            j = j + 1;
        }
        proof {
            assert(views(sorted@).take(sorted@.len() as int) =~= views(sorted@));
            assert(lists_current(entries@, self.current()));
        }
        r
    }

    /// The keys in `namespace`, sorted.
    pub fn list_keys(&self, namespace: &str) -> (r: Vec<String>)
        ensures
            exists|e: Seq<(FullKey, VersionedValue)>| #[trigger] lists_current(e, self.current())
                && views(r@) == keys_in(e, namespace@).sort_by(chars_leq()),
    {
        let entries = states_entries(&self.current_state);
        let ghost pred = |p: (FullKey, VersionedValue)| p.0.namespace@ == namespace@;
        let mut keys: Vec<String> = Vec::new();
        let mut i: usize = 0;
        proof {
            assert(entries@.take(0).filter(pred) =~= Seq::<(FullKey, VersionedValue)>::empty());
            assert(views(keys@) =~= Seq::<Seq<char>>::empty());
        }
        while i < entries.len()
            invariant
                i <= entries@.len(),
                pred == (|p: (FullKey, VersionedValue)| p.0.namespace@ == namespace@),
                views(keys@) == entries@.take(i as int).filter(pred).map_values(|p: (FullKey, VersionedValue)| p.0.key@),
            decreases entries@.len() - i,
        {
            let ghost before = views(keys@);
            proof {
                reveal(Seq::filter);
                assert(entries@.take(i + 1).drop_last() =~= entries@.take(i as int));
                assert(entries@.take(i + 1).last() == entries@[i as int]);
            }
            if str_eq(entries[i].0.namespace.as_str(), namespace) {
                keys.push(entries[i].0.key.clone());
                proof {
                    assert(views(keys@) =~= before.push(entries@[i as int].0.key@));
                    assert(entries@.take(i + 1).filter(pred) == entries@.take(i as int).filter(pred).push(entries@[i as int]));
                    assert(entries@.take(i + 1).filter(pred).map_values(|p: (FullKey, VersionedValue)| p.0.key@)
                        =~= entries@.take(i as int).filter(pred).map_values(|p: (FullKey, VersionedValue)| p.0.key@).push(entries@[i as int].0.key@));
                }
            }
            i = i + 1;
        }
        proof {
            assert(entries@.take(entries@.len() as int) =~= entries@);
            assert(lists_current(entries@, self.current()));
            assert(keys_in(entries@, namespace@) == entries@.filter(pred).map_values(|p: (FullKey, VersionedValue)| p.0.key@));
        }
        sort_strings(keys)
    }

    /// The current entries of `namespace`, with their keys, in the map's
    /// iteration order.
    pub fn scan_collection(&self, namespace: &str) -> (r: Vec<(String, VersionedValue)>)
        ensures
            exists|e: Seq<(FullKey, VersionedValue)>| #[trigger] lists_current(e, self.current())
                && r@.map_values(|p: (String, VersionedValue)| (p.0@, p.1))
                    == e.filter(|p: (FullKey, VersionedValue)| p.0.namespace@ == namespace@).map_values(|p: (FullKey, VersionedValue)| (p.0.key@, p.1)),
    {
        let entries = states_entries(&self.current_state);
        let ghost pred = |p: (FullKey, VersionedValue)| p.0.namespace@ == namespace@;
        let mut r: Vec<(String, VersionedValue)> = Vec::new();
        let mut i: usize = 0;
        proof {
            assert(entries@.take(0).filter(pred) =~= Seq::<(FullKey, VersionedValue)>::empty());
            assert(r@.map_values(|p: (String, VersionedValue)| (p.0@, p.1)) =~= Seq::<(Seq<char>, VersionedValue)>::empty());
        }
        while i < entries.len()
            invariant
                i <= entries@.len(),
                pred == (|p: (FullKey, VersionedValue)| p.0.namespace@ == namespace@),
                r@.map_values(|p: (String, VersionedValue)| (p.0@, p.1))
                    == entries@.take(i as int).filter(pred).map_values(|p: (FullKey, VersionedValue)| (p.0.key@, p.1)),
            decreases entries@.len() - i,
        {
            let ghost before = r@.map_values(|p: (String, VersionedValue)| (p.0@, p.1));
            proof {
                reveal(Seq::filter);
                assert(entries@.take(i + 1).drop_last() =~= entries@.take(i as int));
                assert(entries@.take(i + 1).last() == entries@[i as int]);
            }
            if str_eq(entries[i].0.namespace.as_str(), namespace) {
                let item = (entries[i].0.key.clone(), entries[i].1.duplicate());
                r.push(item);
                proof {
                    assert(r@.map_values(|p: (String, VersionedValue)| (p.0@, p.1)) =~= before.push((entries@[i as int].0.key@, entries@[i as int].1)));
                    assert(entries@.take(i + 1).filter(pred) == entries@.take(i as int).filter(pred).push(entries@[i as int]));
                    assert(entries@.take(i + 1).filter(pred).map_values(|p: (FullKey, VersionedValue)| (p.0.key@, p.1))
                        =~= entries@.take(i as int).filter(pred).map_values(|p: (FullKey, VersionedValue)| (p.0.key@, p.1)).push((entries@[i as int].0.key@, entries@[i as int].1)));
                }
            }
            i = i + 1;
        }
        proof {
            assert(entries@.take(entries@.len() as int) =~= entries@);
            assert(lists_current(entries@, self.current()));
        }
        r
    }

    /// Every current entry with its key, in the map's iteration order.
    pub fn scan_all(&self) -> (r: Vec<(FullKey, VersionedValue)>)
        ensures
            lists_current(r@, self.current()),
    {
        states_entries(&self.current_state)
    }

    /// Whether `namespace`/`key` has a current version.
    pub fn contains_key(&self, namespace: &str, key: &str) -> (r: bool)
        ensures
            r == self.current().contains_key((namespace@, key@)),
    {
        let full_key = FullKey::new(namespace.to_string(), key.to_string());
        states_contains(&self.current_state, &full_key)
    }

    /// The number of keys with a current version.
    pub fn key_count(&self) -> (r: usize)
        ensures
            has_size(self.current(), r as nat),
    {
        states_len(&self.current_state)
    }

    /// The number of writes recorded (nodes of the causal graph).
    pub fn total_version_count(&self) -> (r: usize)
        ensures
            r == self.graph().node_ids().len(),
    {
        self.causal_graph.node_count()
    }

    /// The version written by `write_id`, if stored.
    pub fn version(&self, write_id: &str) -> (r: Option<VersionedValue>)
        ensures
            match r {
                Some(v) => self.versions().contains_key(write_id@) && v == self.versions()[write_id@],
                None => !self.versions().contains_key(write_id@),
            },
    {
        versions_get(&self.version_store, write_id)
    }

    /// The number of versions stored.
    pub fn version_count(&self) -> (r: usize)
        ensures
            has_size(self.versions(), r as nat),
    {
        versions_len(&self.version_store)
    }

    /// Drop the current version of `namespace`/`key` (its history stays).
    pub fn remove_current(&mut self, namespace: &str, key: &str)
        requires
            old(self).wf(),
        ensures
            final(self).wf(),
            final(self).current() == old(self).current().remove((namespace@, key@)),
            final(self).versions() == old(self).versions(),
            final(self).values() == old(self).values(),
            final(self).graph() == old(self).graph(),
            final(self).refs() == old(self).refs(),
    {
        let full_key = FullKey::new(namespace.to_string(), key.to_string());
        states_remove(&mut self.current_state, &full_key);
    }

    /// The causal graph of writes.
    pub fn causal_graph(&self) -> (g: &CausalGraph)
        ensures
            *g == self.graph(),
    {
        &self.causal_graph
    }

    /// The reference graph of writes.
    pub fn reference_graph(&self) -> (g: &ReferenceGraph)
        ensures
            *g == self.refs(),
    {
        &self.reference_graph
    }
}

} // verus!

verus! {

/// A read gives back what was last written: once `put` of a key has
/// returned `r` (the current versions going from `before` to `after`), `get`
/// of that key gives `r`, and every other key reads as it did before.
pub proof fn law_get_after_put(
    before: Map<(Seq<char>, Seq<char>), VersionedValue>,
    after: Map<(Seq<char>, Seq<char>), VersionedValue>,
    key: (Seq<char>, Seq<char>),
    r: VersionedValue,
)
    requires
        after == before.insert(key, r),
    ensures
        after.contains_key(key),
        after[key] == r,
        forall|k: (Seq<char>, Seq<char>)| k != key ==> (#[trigger] after.contains_key(k) <==> before.contains_key(k)),
        forall|k: (Seq<char>, Seq<char>)| k != key && before.contains_key(k) ==> #[trigger] after[k] == before[k],
{
}

} // verus!
