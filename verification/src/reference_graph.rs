//! The reference graph: which distinction points to which. Reference counts
//! drive garbage collection and the choice of what stays in hot memory.

use vstd::prelude::*;
use crate::causal_graph::{closure_into, frontier_of, is_chain, pair_views, reaches, roots_of, CausalGraph, DistinctionId};
use crate::reconciliation::contains_string;
use crate::memory::deep::enumerates;
use crate::memory::maps::has_size;
use crate::strings::views;
use dashmap::DashMap;

verus! {

// ---------------------------------------------------------------------------
// The maps the graph keeps its nodes and adjacency lists in
// ---------------------------------------------------------------------------

/// The adjacency lists of a map from distinction IDs to lists of IDs, by text.
pub uninterp spec fn lists_of(m: DashMap<String, Vec<String>>) -> Map<Seq<char>, Seq<Seq<char>>>;

/// The keys of a map from distinction IDs to nothing, by text.
pub uninterp spec fn keys_of(m: DashMap<String, ()>) -> Set<Seq<char>>;

/// Whether a set is finite with `n` members.
pub open spec fn set_has_size<A>(s: Set<A>, n: nat) -> bool {
    s.finite() && s.len() == n
}

/// The list stored under `k`, or the empty list.
pub open spec fn list_at(m: Map<Seq<char>, Seq<Seq<char>>>, k: Seq<char>) -> Seq<Seq<char>> {
    if m.contains_key(k) { m[k] } else { Seq::empty() }
}

/// `DashMap::new`: an empty map of lists.
#[verifier::external_body]
fn lists_new() -> (m: DashMap<String, Vec<String>>)
    ensures
        has_size(lists_of(m), 0),
{
    DashMap::new()
}

/// `DashMap::get`, cloning the list stored under `k`.
#[verifier::external_body]
fn lists_lookup(m: &DashMap<String, Vec<String>>, k: &str) -> (r: Option<Vec<String>>)
    ensures
        match r {
            Some(l) => lists_of(*m).contains_key(k@) && views(l@) == lists_of(*m)[k@],
            None => !lists_of(*m).contains_key(k@),
        },
{
    m.get(k).map(|v| v.value().clone())
}

/// The list stored under `k`, empty when there is none.
fn lists_get(m: &DashMap<String, Vec<String>>, k: &str) -> (r: Vec<String>)
    ensures
        views(r@) == list_at(lists_of(*m), k@),
{
    match lists_lookup(m, k) {
        Some(l) => l,
        None => {
            let e: Vec<String> = Vec::new();
            proof {
                assert(views(e@) =~= Seq::<Seq<char>>::empty());
            }
            e
        },
    }
}

/// `DashMap::contains_key`.
#[verifier::external_body]
fn lists_contains(m: &DashMap<String, Vec<String>>, k: &str) -> (r: bool)
    ensures
        r == lists_of(*m).contains_key(k@),
{
    m.contains_key(k)
}

/// `DashMap::entry(..).or_default()` and `Vec::push`: `v` is appended to the
/// list stored under `k`, which starts empty when there is none.
#[verifier::external_body]
fn lists_push(m: &mut DashMap<String, Vec<String>>, k: String, v: String)
    ensures
        lists_of(*final(m)) == lists_of(*old(m)).insert(k@, list_at(lists_of(*old(m)), k@).push(v@)),
{
    m.entry(k).or_default().push(v);
}

/// `DashMap::insert`: `k` now maps to `v`.
#[verifier::external_body]
fn lists_insert(m: &mut DashMap<String, Vec<String>>, k: String, v: Vec<String>)
    ensures
        lists_of(*final(m)) == lists_of(*old(m)).insert(k@, views(v@)),
{
    m.insert(k, v);
}

/// `DashMap::remove`: the list stored under `k`, which is no longer in the map.
#[verifier::external_body]
fn lists_remove(m: &mut DashMap<String, Vec<String>>, k: &str) -> (r: Option<Vec<String>>)
    ensures
        lists_of(*final(m)) == lists_of(*old(m)).remove(k@),
        match r {
            Some(v) => lists_of(*old(m)).contains_key(k@) && views(v@) == lists_of(*old(m))[k@],
            None => !lists_of(*old(m)).contains_key(k@),
        },
{
    m.remove(k).map(|(_, v)| v)
}

/// `DashMap::iter`, collected: every entry once, in the map's iteration order.
#[verifier::external_body]
fn lists_entries(m: &DashMap<String, Vec<String>>) -> (r: Vec<(String, Vec<String>)>)
    ensures
        has_size(lists_of(*m), r@.len()),
        forall|i: int| 0 <= i < r@.len() ==> lists_of(*m).contains_key((#[trigger] r@[i]).0@)
            && lists_of(*m)[r@[i].0@] == views(r@[i].1@),
        forall|i: int, j: int| 0 <= i < j < r@.len() ==> (#[trigger] r@[i]).0@ != (#[trigger] r@[j]).0@,
        forall|k: Seq<char>| lists_of(*m).contains_key(k) ==> exists|i: int| 0 <= i < r@.len() && (#[trigger] r@[i]).0@ == k,
{
    m.iter().map(|e| (e.key().clone(), e.value().clone())).collect()
}

/// `DashMap::new`: an empty set of keys.
#[verifier::external_body]
fn keys_new() -> (m: DashMap<String, ()>)
    ensures
        set_has_size(keys_of(m), 0),
{
    DashMap::new()
}

/// `DashMap::insert`: `k` is now a key.
#[verifier::external_body]
fn keys_insert(m: &mut DashMap<String, ()>, k: String)
    ensures
        keys_of(*final(m)) == keys_of(*old(m)).insert(k@),
{
    m.insert(k, ());
}

/// `DashMap::remove`: `k` is no longer a key.
#[verifier::external_body]
fn keys_remove(m: &mut DashMap<String, ()>, k: &str)
    ensures
        keys_of(*final(m)) == keys_of(*old(m)).remove(k@),
{
    m.remove(k);
}

/// `DashMap::contains_key`.
#[verifier::external_body]
fn keys_contains(m: &DashMap<String, ()>, k: &str) -> (r: bool)
    ensures
        r == keys_of(*m).contains(k@),
{
    m.contains_key(k)
}

/// `DashMap::len`: the number of keys.
#[verifier::external_body]
fn keys_len(m: &DashMap<String, ()>) -> (r: usize)
    ensures
        set_has_size(keys_of(*m), r as nat),
{
    m.len()
}

/// `DashMap::iter`, collected: every key once, in the map's iteration order.
#[verifier::external_body]
fn keys_list(m: &DashMap<String, ()>) -> (r: Vec<String>)
    ensures
        views(r@).no_duplicates(),
        views(r@).to_set() == keys_of(*m),
{
    m.iter().map(|e| e.key().clone()).collect()
}

/// `list` without any occurrence of `id`, in the same order.
pub(crate) fn without_id(list: &Vec<String>, id: &str) -> (r: Vec<String>)
    ensures
        views(r@) == drop_all(views(list@), id@),
{
    let mut r: Vec<String> = Vec::new();
    let mut i: usize = 0;
    proof {
        assert(views(list@).take(0) =~= Seq::<Seq<char>>::empty());
        assert(views(r@) =~= Seq::<Seq<char>>::empty());
    }
    while i < list.len()
        invariant
            i <= list@.len(),
            views(r@) == drop_all(views(list@).take(i as int), id@),
        decreases list@.len() - i,
    {
        let ghost before = views(r@);
        proof {
            reveal(Seq::filter);
            assert(views(list@).take(i + 1).drop_last() =~= views(list@).take(i as int));
            assert(views(list@).take(i + 1).last() == list@[i as int]@);
        }
        if !crate::strings::str_eq(list[i].as_str(), id) {
            r.push(list[i].clone());
            proof {
                assert(views(r@) =~= before.push(list@[i as int]@));
            }
        }
        i = i + 1;
    }
    proof {
        assert(views(list@).take(list@.len() as int) =~= views(list@));
    }
    r
}

/// Drop `id` from the list stored under each of `keys` that the map holds.
fn strip_from_lists(m: &mut DashMap<String, Vec<String>>, keys: &Vec<String>, id: &str)
    ensures
        lists_of(*final(m)).dom() == lists_of(*old(m)).dom(),
        forall|k: Seq<char>| #[trigger] lists_of(*final(m)).contains_key(k) ==> lists_of(*final(m))[k] == (
            if views(keys@).contains(k) { drop_all(lists_of(*old(m))[k], id@) } else { lists_of(*old(m))[k] }),
{
    let ghost start = lists_of(*m);
    let mut i: usize = 0;
    while i < keys.len()
        invariant
            i <= keys@.len(),
            lists_of(*m).dom() == start.dom(),
            start == lists_of(*old(m)),
            forall|k: Seq<char>| #[trigger] lists_of(*m).contains_key(k) ==> lists_of(*m)[k] == (
                if views(keys@).take(i as int).contains(k) { drop_all(start[k], id@) } else { start[k] }),
        decreases keys@.len() - i,
    {
        let key = &keys[i];
        let ghost before = lists_of(*m);
        proof {
            assert(views(keys@).take(i + 1) =~= views(keys@).take(i as int).push(key@));
        }
        if lists_contains(m, key.as_str()) {
            let current = lists_get(m, key.as_str());
            let kept = without_id(&current, id);
            lists_insert(m, key.clone(), kept);
            proof {
                lemma_drop_all_twice(start[key@], id@);
                assert forall|k: Seq<char>| #[trigger] lists_of(*m).contains_key(k) implies lists_of(*m)[k] == (
                    if views(keys@).take(i + 1).contains(k) { drop_all(start[k], id@) } else { start[k] }) by {
                    vstd::seq_lib::lemma_seq_contains_after_push(views(keys@).take(i as int), key@, k);
                }
                assert(lists_of(*m).dom() =~= start.dom());
            }
        } else {
            proof {
                assert forall|k: Seq<char>| #[trigger] lists_of(*m).contains_key(k) implies lists_of(*m)[k] == (
                    if views(keys@).take(i + 1).contains(k) { drop_all(start[k], id@) } else { start[k] }) by {
                    vstd::seq_lib::lemma_seq_contains_after_push(views(keys@).take(i as int), key@, k);
                }
            }
        }
        i = i + 1;
    }
    proof {
        assert(views(keys@).take(keys@.len() as int) =~= views(keys@));
    }
}

// ---------------------------------------------------------------------------
// The graph
// ---------------------------------------------------------------------------

/// Whether `a` references `b` in the outgoing lists `out`.
pub open spec fn points_to(out: Map<Seq<char>, Seq<Seq<char>>>, a: Seq<char>, b: Seq<char>) -> bool {
    list_at(out, a).contains(b)
}

/// Whether `p` is a chain of references: at least one node, each pointing to the next.
pub open spec fn ref_chain(out: Map<Seq<char>, Seq<Seq<char>>>, p: Seq<Seq<char>>) -> bool {
    &&& p.len() >= 1
    &&& forall|k: int| #![trigger points_to(out, p[k], p[k + 1])] 0 <= k < p.len() - 1 ==> points_to(out, p[k], p[k + 1])
}

/// Whether a chain of one or more references leads from `a` to `b`.
pub open spec fn ref_reaches(out: Map<Seq<char>, Seq<Seq<char>>>, a: Seq<char>, b: Seq<char>) -> bool {
    exists|p: Seq<Seq<char>>| #[trigger] ref_chain(out, p) && p.len() >= 2 && p[0] == a && p.last() == b
}

/// A list of edges that holds exactly the references of `out` leads where
/// the references lead.
proof fn lemma_reaches_as_references(edges: Seq<(Seq<char>, Seq<char>)>, out: Map<Seq<char>, Seq<Seq<char>>>, a: Seq<char>, b: Seq<char>)
    requires
        forall|x: Seq<char>, y: Seq<char>| #[trigger] edges.contains((x, y)) <==> points_to(out, x, y),
    ensures
        reaches(edges, a, b) <==> ref_reaches(out, a, b),
{
    if reaches(edges, a, b) {
        let p = choose|p: Seq<Seq<char>>| #[trigger] is_chain(edges, p) && p.len() >= 2 && p[0] == a && p.last() == b;
        assert forall|k: int| #![trigger points_to(out, p[k], p[k + 1])] 0 <= k < p.len() - 1 implies points_to(out, p[k], p[k + 1]) by {
            assert(edges.contains((p[k], p[k + 1])));
        }
        assert(ref_chain(out, p));
    }
    if ref_reaches(out, a, b) {
        let p = choose|p: Seq<Seq<char>>| #[trigger] ref_chain(out, p) && p.len() >= 2 && p[0] == a && p.last() == b;
        assert forall|k: int| 0 <= k < p.len() - 1 implies #[trigger] edges.contains((p[k], p[k + 1])) by {
            assert(points_to(out, p[k], p[k + 1]));
        }
        assert(is_chain(edges, p));
    }
}

/// Whether one of the first `n` entries has key `x` and lists `y`.
pub open spec fn listed_in(e: Seq<(String, Vec<String>)>, n: int, x: Seq<char>, y: Seq<char>) -> bool {
    exists|i: int| 0 <= i < n && (#[trigger] e[i]).0@ == x && views(e[i].1@).contains(y)
}

/// Whether an ID differs from `id`.
pub open spec fn other_than(id: Seq<char>) -> spec_fn(Seq<char>) -> bool {
    |x: Seq<char>| x != id
}

/// `s` with every occurrence of `id` dropped.
pub open spec fn drop_all(s: Seq<Seq<char>>, id: Seq<char>) -> Seq<Seq<char>> {
    s.filter(other_than(id))
}

/// What is left after dropping `id` is what was there, but `id`.
proof fn lemma_drop_all_contains(s: Seq<Seq<char>>, id: Seq<char>, y: Seq<char>)
    ensures
        drop_all(s, id).contains(y) <==> s.contains(y) && y != id,
{
    s.filter_lemma(other_than(id));
    if drop_all(s, id).contains(y) {
        s.lemma_filter_contains_rev(other_than(id), y);
        let w = choose|w: int| 0 <= w < drop_all(s, id).len() && drop_all(s, id)[w] == y;
    }
    if s.contains(y) && y != id {
        let w = choose|w: int| 0 <= w < s.len() && s[w] == y;
    }
}

/// Dropping `id` twice is dropping it once.
pub(crate) proof fn lemma_drop_all_twice(s: Seq<Seq<char>>, id: Seq<char>)
    ensures
        drop_all(drop_all(s, id), id) == drop_all(s, id),
    decreases s.len(),
{
    reveal(Seq::filter);
    if s.len() > 0 {
        lemma_drop_all_twice(s.drop_last(), id);
        let r = drop_all(s.drop_last(), id);
        if s.last() != id {
            assert(drop_all(s, id) == r.push(s.last()));
            assert(r.push(s.last()).drop_last() =~= r);
        }
    }
}

/// The total length of the lists of an enumeration.
pub open spec fn lengths_sum(e: Seq<(Seq<char>, Seq<Seq<char>>)>) -> int
    decreases e.len(),
{
    if e.len() == 0 { 0 } else { lengths_sum(e.drop_last()) + e.last().1.len() }
}

proof fn lemma_lengths_sum_nonneg(e: Seq<(Seq<char>, Seq<Seq<char>>)>)
    ensures
        lengths_sum(e) >= 0,
    decreases e.len(),
{
    if e.len() > 0 {
        lemma_lengths_sum_nonneg(e.drop_last());
    }
}

/// Whether some entry of `c` has key `x`.
pub open spec fn holds_key(c: Seq<(String, usize)>, x: Seq<char>) -> bool {
    exists|q: int| 0 <= q < c.len() && (#[trigger] c[q]).0@ == x
}

/// The reference graph: for each distinction, what it points to and what points to it.
#[derive(Debug)]
pub struct ReferenceGraph {
    /// For each distinction, what it points to (outgoing references).
    outgoing: DashMap<DistinctionId, Vec<DistinctionId>>,
    /// For each distinction, what points to it (incoming references).
    incoming: DashMap<DistinctionId, Vec<DistinctionId>>,
    /// All distinctions in the graph.
    nodes: DashMap<DistinctionId, ()>,
}

impl ReferenceGraph {
    /// For each distinction, the distinctions it references, in the order the
    /// references were added.
    pub closed spec fn out(&self) -> Map<Seq<char>, Seq<Seq<char>>> {
        lists_of(self.outgoing)
    }

    /// For each distinction, the distinctions that reference it, in the order
    /// the references were added.
    pub closed spec fn inc(&self) -> Map<Seq<char>, Seq<Seq<char>>> {
        lists_of(self.incoming)
    }

    /// The distinctions in the graph.
    pub closed spec fn node_set(&self) -> Set<Seq<char>> {
        keys_of(self.nodes)
    }

    /// The incoming lists mirror the outgoing ones: `a` is listed as
    /// referencing `b` exactly when `b` lists `a` among its referrers.
    pub open spec fn wf(&self) -> bool {
        forall|a: Seq<char>, b: Seq<char>|
            #![trigger points_to(self.out(), a, b)]
            #![trigger points_to(self.inc(), b, a)]
            points_to(self.out(), a, b) <==> points_to(self.inc(), b, a)
    }

    /// Create an empty reference graph.
    pub fn new() -> (g: Self)
        ensures
            g.wf(),
            has_size(g.out(), 0),
            has_size(g.inc(), 0),
            set_has_size(g.node_set(), 0),
    {
        ReferenceGraph { outgoing: lists_new(), incoming: lists_new(), nodes: keys_new() }
    }

    /// Add a distinction with no references.
    pub fn add_node(&mut self, id: DistinctionId)
        requires
            old(self).wf(),
        ensures
            final(self).wf(),
            final(self).node_set() == old(self).node_set().insert(id@),
            final(self).out() == old(self).out(),
            final(self).inc() == old(self).inc(),
    {
        keys_insert(&mut self.nodes, id);
        assert(self.out() == old(self).out() && self.inc() == old(self).inc());
    }

    /// Record that `from` references `to`; both are nodes of the graph.
    pub fn add_reference(&mut self, from: DistinctionId, to: DistinctionId)
        requires
            old(self).wf(),
            old(self).node_set().contains(from@),
            old(self).node_set().contains(to@),
        ensures
            final(self).wf(),
            final(self).node_set() == old(self).node_set(),
            final(self).out() == old(self).out().insert(from@, list_at(old(self).out(), from@).push(to@)),
            final(self).inc() == old(self).inc().insert(to@, list_at(old(self).inc(), to@).push(from@)),
    {
        let ghost (f, t) = (from@, to@);
        lists_push(&mut self.outgoing, from.clone(), to.clone());
        lists_push(&mut self.incoming, to, from);
        proof {
            assert forall|a: Seq<char>, b: Seq<char>| points_to(self.out(), a, b) <==> points_to(self.inc(), b, a) by {
                assert(points_to(old(self).out(), a, b) <==> points_to(old(self).inc(), b, a));
                if a == f {
                    assert(list_at(self.out(), a) == list_at(old(self).out(), a).push(t));
                    vstd::seq_lib::lemma_seq_contains_after_push(list_at(old(self).out(), a), t, b);
                } else {
                    assert(list_at(self.out(), a) == list_at(old(self).out(), a));
                }
                if b == t {
                    assert(list_at(self.inc(), b) == list_at(old(self).inc(), b).push(f));
                    vstd::seq_lib::lemma_seq_contains_after_push(list_at(old(self).inc(), b), f, a);
                } else {
                    assert(list_at(self.inc(), b) == list_at(old(self).inc(), b));
                }
            }
        }
    }

    /// The distinctions `id` references.
    pub fn references(&self, id: &str) -> (r: Vec<DistinctionId>)
        ensures
            views(r@) == list_at(self.out(), id@),
    {
        lists_get(&self.outgoing, id)
    }

    /// The distinctions that reference `id`.
    pub fn referrers(&self, id: &str) -> (r: Vec<DistinctionId>)
        ensures
            views(r@) == list_at(self.inc(), id@),
    {
        lists_get(&self.incoming, id)
    }

    /// How many references point to `id` (a distinction referencing it twice
    /// counts twice).
    pub fn reference_count(&self, id: &str) -> (r: usize)
        ensures
            r == list_at(self.inc(), id@).len(),
    {
        let refs = lists_get(&self.incoming, id);
        refs.len()
    }

    /// Every reference as a (from, to) pair.
    fn reference_pairs(&self) -> (r: Vec<(String, String)>)
        ensures
            forall|x: Seq<char>, y: Seq<char>| #[trigger] pair_views(r@).contains((x, y)) <==> points_to(self.out(), x, y),
    {
        let entries = lists_entries(&self.outgoing);
        let mut r: Vec<(String, String)> = Vec::new();
        let mut i: usize = 0;
        while i < entries.len()
            invariant
                i <= entries@.len(),
                forall|x: Seq<char>, y: Seq<char>| #[trigger] pair_views(r@).contains((x, y)) <==> listed_in(entries@, i as int, x, y),
            decreases entries@.len() - i,
        {
            let list = &entries[i].1;
            let mut j: usize = 0;
            while j < list.len()
                invariant
                    i < entries@.len(),
                    *list == entries@[i as int].1,
                    j <= list@.len(),
                    forall|x: Seq<char>, y: Seq<char>| #[trigger] pair_views(r@).contains((x, y)) <==>
                        (listed_in(entries@, i as int, x, y) || (x == entries@[i as int].0@ && views(list@).take(j as int).contains(y))),
                decreases list@.len() - j,
            {
                let ghost before = pair_views(r@);
                let pair = (entries[i].0.clone(), list[j].clone());
                let ghost pv = (pair.0@, pair.1@);
                r.push(pair);
                proof {
                    assert(pair_views(r@) =~= before.push(pv));
                    assert(views(list@).take(j + 1) =~= views(list@).take(j as int).push(list@[j as int]@));
                    assert forall|x: Seq<char>, y: Seq<char>| #[trigger] pair_views(r@).contains((x, y)) <==>
                        (listed_in(entries@, i as int, x, y) || (x == entries@[i as int].0@ && views(list@).take(j + 1).contains(y))) by {
                        vstd::seq_lib::lemma_seq_contains_after_push(before, pv, (x, y));
                        vstd::seq_lib::lemma_seq_contains_after_push(views(list@).take(j as int), list@[j as int]@, y);
                    }
                }
                j = j + 1;
            }
            proof {
                assert(views(list@).take(list@.len() as int) =~= views(list@));
                assert forall|x: Seq<char>, y: Seq<char>| #[trigger] pair_views(r@).contains((x, y)) <==> listed_in(entries@, i + 1, x, y) by {
                    if listed_in(entries@, i + 1, x, y) && !listed_in(entries@, i as int, x, y) {
                        let w = choose|w: int| 0 <= w < i + 1 && (#[trigger] entries@[w]).0@ == x && views(entries@[w].1@).contains(y);
                        assert(w == i);
                    }
                }
            }
            i = i + 1;
        }
        proof {
            assert forall|x: Seq<char>, y: Seq<char>| #[trigger] pair_views(r@).contains((x, y)) <==> points_to(self.out(), x, y) by {
                if points_to(self.out(), x, y) {
                    let w = choose|w: int| 0 <= w < entries@.len() && (#[trigger] entries@[w]).0@ == x;
                    assert(listed_in(entries@, entries@.len() as int, x, y));
                }
                if listed_in(entries@, entries@.len() as int, x, y) {
                    let w = choose|w: int| 0 <= w < entries@.len() && (#[trigger] entries@[w]).0@ == x && views(entries@[w].1@).contains(y);
                    assert(self.out().contains_key(x));
                }
            }
        }
        r
    }

    /// Whether `id` is one of `roots` or a chain of references leads to it from one.
    pub fn is_reachable(&self, id: &str, roots: &[String]) -> (r: bool)
        ensures
            r == (views(roots@).contains(id@)
                || exists|a: Seq<char>| #[trigger] views(roots@).contains(a) && ref_reaches(self.out(), a, id@)),
    {
        if contains_string(roots, id) {
            return true;
        }
        let pairs = self.reference_pairs();
        let sources = closure_into(&pairs, id);
        proof {
            assert forall|a: Seq<char>| views(sources@).contains(a) <==> ref_reaches(self.out(), a, id@) by {
                lemma_reaches_as_references(pair_views(pairs@), self.out(), a, id@);
            }
        }
        let mut i: usize = 0;
        while i < roots.len()
            invariant
                i <= roots@.len(),
                forall|a: Seq<char>| views(sources@).contains(a) <==> ref_reaches(self.out(), a, id@),
                forall|j: int| 0 <= j < i ==> !ref_reaches(self.out(), #[trigger] roots@[j]@, id@),
            decreases roots@.len() - i,
        {
            if contains_string(&sources, roots[i].as_str()) {
                proof {
                    assert(views(roots@)[i as int] == roots@[i as int]@);
                    assert(views(roots@).contains(roots@[i as int]@));
                    assert(ref_reaches(self.out(), roots@[i as int]@, id@));
                }
                return true;
            }
            i = i + 1;
        }
        proof {
            assert forall|a: Seq<char>| #[trigger] views(roots@).contains(a) implies !ref_reaches(self.out(), a, id@) by {
                let w = choose|w: int| 0 <= w < views(roots@).len() && views(roots@)[w] == a;
                assert(roots@[w]@ == a);
            }
        }
        false
    }

    /// The distinctions that can be collected: nodes that nothing references and
    /// that are neither in the causal frontier nor causal roots.
    pub fn find_garbage(&self, causal_graph: &CausalGraph) -> (r: Vec<DistinctionId>)
        ensures
            views(r@).no_duplicates(),
            forall|x: Seq<char>| #[trigger] views(r@).contains(x) <==> {
                &&& self.node_set().contains(x)
                &&& !frontier_of(causal_graph.node_ids(), causal_graph.edge_ids()).contains(x)
                &&& !roots_of(causal_graph.node_ids(), causal_graph.edge_ids()).contains(x)
                &&& list_at(self.inc(), x).len() == 0
            },
    {
        let frontier = causal_graph.frontier();
        let roots = causal_graph.roots();
        let keys = keys_list(&self.nodes);
        let ghost garbage = |x: Seq<char>| {
            &&& !frontier_of(causal_graph.node_ids(), causal_graph.edge_ids()).contains(x)
            &&& !roots_of(causal_graph.node_ids(), causal_graph.edge_ids()).contains(x)
            &&& list_at(self.inc(), x).len() == 0
        };
        let mut r: Vec<DistinctionId> = Vec::new();
        let mut i: usize = 0;
        while i < keys.len()
            invariant
                i <= keys@.len(),
                views(keys@).no_duplicates(),
                views(frontier@) == frontier_of(causal_graph.node_ids(), causal_graph.edge_ids()),
                views(roots@) == roots_of(causal_graph.node_ids(), causal_graph.edge_ids()),
                garbage == (|x: Seq<char>| {
                    &&& !frontier_of(causal_graph.node_ids(), causal_graph.edge_ids()).contains(x)
                    &&& !roots_of(causal_graph.node_ids(), causal_graph.edge_ids()).contains(x)
                    &&& list_at(self.inc(), x).len() == 0
                }),
                views(r@).no_duplicates(),
                forall|x: Seq<char>| #[trigger] views(r@).contains(x) <==> views(keys@).take(i as int).contains(x) && garbage(x),
            decreases keys@.len() - i,
        {
            let k = &keys[i];
            let ghost before = views(r@);
            proof {
                assert(views(keys@).take(i + 1) =~= views(keys@).take(i as int).push(k@));
                assert forall|x: Seq<char>| views(keys@).take(i + 1).contains(x) <==> (views(keys@).take(i as int).contains(x) || x == k@) by {
                    vstd::seq_lib::lemma_seq_contains_after_push(views(keys@).take(i as int), k@, x);
                }
            }
            if !contains_string(&frontier, k.as_str()) && !contains_string(&roots, k.as_str()) && self.reference_count(k.as_str()) == 0 {
                r.push(k.clone());
                proof {
                    assert(views(r@) =~= before.push(k@));
                    assert(!views(keys@).take(i as int).contains(k@)) by {
                        if views(keys@).take(i as int).contains(k@) {
                            let w = choose|w: int| 0 <= w < i && views(keys@).take(i as int)[w] == k@;
                            assert(views(keys@)[w] == views(keys@)[i as int]);
                        }
                    }
                    assert forall|x: Seq<char>| #[trigger] views(r@).contains(x) <==> views(keys@).take(i + 1).contains(x) && garbage(x) by {
                        vstd::seq_lib::lemma_seq_contains_after_push(before, k@, x);
                    }
                    assert forall|a: int, b: int| 0 <= a < b < views(r@).len() implies views(r@)[a] != views(r@)[b] by {
                        if b == views(r@).len() - 1 {
                            assert(before.contains(views(r@)[a]));
                        }
                    }
                }
            }
            i = i + 1;
        }
        proof {
            assert(views(keys@).take(keys@.len() as int) =~= views(keys@));
        }
        r
    }

    /// The nodes referenced at least `threshold` times, most referenced first.
    pub fn find_hot_candidates(&self, threshold: usize) -> (r: Vec<DistinctionId>)
        ensures
            views(r@).no_duplicates(),
            forall|x: Seq<char>| #[trigger] views(r@).contains(x) <==>
                self.node_set().contains(x) && list_at(self.inc(), x).len() >= threshold,
            forall|a: int, b: int| 0 <= a < b < r@.len()
                ==> list_at(self.inc(), #[trigger] r@[a]@).len() >= list_at(self.inc(), #[trigger] r@[b]@).len(),
    {
        let keys = keys_list(&self.nodes);
        let mut cands: Vec<(String, usize)> = Vec::new();
        let mut i: usize = 0;
        while i < keys.len()
            invariant
                i <= keys@.len(),
                views(keys@).no_duplicates(),
                forall|q: int| 0 <= q < cands@.len() ==> (#[trigger] cands@[q]).1 == list_at(self.inc(), cands@[q].0@).len(),
                forall|a: int, b: int| 0 <= a < b < cands@.len() ==> (#[trigger] cands@[a]).1 >= (#[trigger] cands@[b]).1,
                forall|a: int, b: int| 0 <= a < b < cands@.len() ==> (#[trigger] cands@[a]).0@ != (#[trigger] cands@[b]).0@,
                forall|x: Seq<char>| #[trigger] holds_key(cands@, x)
                    <==> views(keys@).take(i as int).contains(x) && list_at(self.inc(), x).len() >= threshold,
            decreases keys@.len() - i,
        {
            let k = &keys[i];
            proof {
                assert(views(keys@).take(i + 1) =~= views(keys@).take(i as int).push(k@));
                assert forall|x: Seq<char>| views(keys@).take(i + 1).contains(x) <==> (views(keys@).take(i as int).contains(x) || x == k@) by {
                    vstd::seq_lib::lemma_seq_contains_after_push(views(keys@).take(i as int), k@, x);
                }
                assert(!views(keys@).take(i as int).contains(k@)) by {
                    if views(keys@).take(i as int).contains(k@) {
                        let w = choose|w: int| 0 <= w < i && views(keys@).take(i as int)[w] == k@;
                        assert(views(keys@)[w] == views(keys@)[i as int]);
                    }
                }
            }
            let c = self.reference_count(k.as_str());
            if c >= threshold {
                let mut p: usize = 0;
                while p < cands.len() && cands[p].1 >= c
                    invariant
                        p <= cands@.len(),
                        forall|q: int| 0 <= q < p ==> (#[trigger] cands@[q]).1 >= c,
                    decreases cands@.len() - p,
                {
                    p = p + 1;
                }
                let ghost before = cands@;
                cands.insert(p, (k.clone(), c));
                proof {
                    assert(cands@ == before.insert(p as int, cands@[p as int]));
                    assert(cands@[p as int].0@ == k@ && cands@[p as int].1 == c);
                    assert forall|a: int, b: int| 0 <= a < b < cands@.len() implies (#[trigger] cands@[a]).1 >= (#[trigger] cands@[b]).1 by {
                        if b == p as int {
                            assert(cands@[a] == before[a]);
                        } else if a == p as int {
                            assert(cands@[b] == before[b - 1]);
                            if p < before.len() {
                                assert(before[p as int].1 < c);
                                if b - 1 > p {
                                    assert(before[p as int].1 >= before[b - 1].1);
                                }
                            }
                        } else {
                            let a2 = if a < p { a } else { a - 1 };
                            let b2 = if b < p { b } else { b - 1 };
                            assert(cands@[a] == before[a2] && cands@[b] == before[b2]);
                        }
                    }
                    assert forall|x: Seq<char>| #[trigger] holds_key(cands@, x)
                        <==> holds_key(before, x) || x == k@ by {
                        if holds_key(cands@, x) {
                            let q = choose|q: int| 0 <= q < cands@.len() && (#[trigger] cands@[q]).0@ == x;
                            if q < p {
                                assert(before[q] == cands@[q]);
                            } else if q > p {
                                assert(before[q - 1] == cands@[q]);
                            }
                        }
                        if holds_key(before, x) {
                            let q = choose|q: int| 0 <= q < before.len() && (#[trigger] before[q]).0@ == x;
                            if q < p {
                                assert(cands@[q] == before[q]);
                            } else {
                                assert(cands@[q + 1] == before[q]);
                            }
                        }
                        if x == k@ {
                            assert(cands@[p as int].0@ == k@);
                        }
                    }
                    assert forall|a: int, b: int| 0 <= a < b < cands@.len() implies (#[trigger] cands@[a]).0@ != (#[trigger] cands@[b]).0@ by {
                        assert(!holds_key(before, k@));
                        if a == p as int {
                            assert(cands@[b] == before[b - 1]);
                            assert(holds_key(before, before[b - 1].0@));
                        } else if b == p as int {
                            assert(cands@[a] == before[a]);
                            assert(holds_key(before, before[a].0@));
                        } else {
                            let a2 = if a < p { a } else { a - 1 };
                            let b2 = if b < p { b } else { b - 1 };
                            assert(cands@[a] == before[a2] && cands@[b] == before[b2]);
                        }
                    }
                    assert forall|q: int| 0 <= q < cands@.len() implies (#[trigger] cands@[q]).1 == list_at(self.inc(), cands@[q].0@).len() by {
                        if q < p {
                            assert(cands@[q] == before[q]);
                        } else if q > p {
                            assert(cands@[q] == before[q - 1]);
                        }
                    }
                }
            }
            i = i + 1;
        }
        proof {
            assert(views(keys@).take(keys@.len() as int) =~= views(keys@));
        }
        let mut r: Vec<DistinctionId> = Vec::new();
        let mut j: usize = 0;
        while j < cands.len()
            invariant
                j <= cands@.len(),
                r@.len() == j,
                forall|q: int| 0 <= q < j ==> (#[trigger] r@[q])@ == cands@[q].0@,
            decreases cands@.len() - j,
        {
            r.push(cands[j].0.clone());
            j = j + 1;
        }
        proof {
            assert forall|x: Seq<char>| #[trigger] views(r@).contains(x) <==> holds_key(cands@, x) by {
                if views(r@).contains(x) {
                    let q = choose|q: int| 0 <= q < views(r@).len() && views(r@)[q] == x;
                    assert(cands@[q].0@ == x);
                }
                if holds_key(cands@, x) {
                    let q = choose|q: int| 0 <= q < cands@.len() && (#[trigger] cands@[q]).0@ == x;
                    assert(views(r@)[q] == x);
                }
            }
            assert forall|a: int, b: int| 0 <= a < b < views(r@).len() implies views(r@)[a] != views(r@)[b] by {
                assert(views(r@)[a] == cands@[a].0@ && views(r@)[b] == cands@[b].0@);
            }
            assert forall|a: int, b: int| 0 <= a < b < r@.len()
                implies list_at(self.inc(), #[trigger] r@[a]@).len() >= list_at(self.inc(), #[trigger] r@[b]@).len() by {
                assert(cands@[a].1 >= cands@[b].1);
            }
        }
        r
    }

    /// Remove `id` and every reference from or to it.
    pub fn remove(&mut self, id: &str)
        requires
            old(self).wf(),
        ensures
            final(self).wf(),
            final(self).node_set() == old(self).node_set().remove(id@),
            final(self).out().dom() == old(self).out().dom().remove(id@),
            forall|k: Seq<char>| #[trigger] final(self).out().contains_key(k) ==> final(self).out()[k] == (
                if list_at(old(self).inc(), id@).contains(k) { drop_all(old(self).out()[k], id@) } else { old(self).out()[k] }),
            final(self).inc().dom() == old(self).inc().dom().remove(id@),
            forall|k: Seq<char>| #[trigger] final(self).inc().contains_key(k) ==> final(self).inc()[k] == (
                if list_at(old(self).out(), id@).contains(k) { drop_all(old(self).inc()[k], id@) } else { old(self).inc()[k] }),
    {
        let ghost o0 = self.out();
        let ghost i0 = self.inc();
        let removed_out = lists_remove(&mut self.outgoing, id);
        match removed_out {
            Some(refs) => strip_from_lists(&mut self.incoming, &refs, id),
            None => {},
        }
        let ghost i1 = self.inc();
        proof {
            assert forall|k: Seq<char>| #[trigger] i1.contains_key(k) implies i1[k] == (
                if list_at(o0, id@).contains(k) { drop_all(i0[k], id@) } else { i0[k] }) by {
            }
        }
        let removed_in = lists_remove(&mut self.incoming, id);
        let ghost o1 = self.out();
        match removed_in {
            Some(refs) => strip_from_lists(&mut self.outgoing, &refs, id),
            None => {},
        }
        keys_remove(&mut self.nodes, id);
        proof {
            // Who referenced `id`, as the second step saw it.
            assert forall|k: Seq<char>| k != id@ implies (list_at(i1, id@).contains(k) <==> list_at(i0, id@).contains(k)) by {
                if i0.contains_key(id@) && list_at(o0, id@).contains(id@) {
                    lemma_drop_all_contains(i0[id@], id@, k);
                }
            }
            assert forall|k: Seq<char>| #[trigger] self.out().contains_key(k) implies self.out()[k] == (
                if list_at(i0, id@).contains(k) { drop_all(o0[k], id@) } else { o0[k] }) by {
                assert(k != id@);
            }
            assert(self.out().dom() =~= o0.dom().remove(id@));
            assert(self.inc().dom() =~= i0.dom().remove(id@));
            assert forall|a: Seq<char>, b: Seq<char>|
                #![trigger points_to(self.out(), a, b)]
                #![trigger points_to(self.inc(), b, a)]
                points_to(self.out(), a, b) <==> points_to(self.inc(), b, a) by {
                assert(points_to(o0, a, b) <==> points_to(i0, b, a));
                if a != id@ && self.out().contains_key(a) {
                    lemma_drop_all_contains(o0[a], id@, b);
                }
                if b != id@ && self.inc().contains_key(b) {
                    lemma_drop_all_contains(i0[b], id@, a);
                }
                if a == id@ {
                    assert(!points_to(self.out(), a, b));
                    if b != id@ && self.inc().contains_key(b) && !list_at(o0, id@).contains(b) {
                        assert(!points_to(i0, b, id@));
                    }
                }
                if b == id@ {
                    assert(!points_to(self.inc(), b, a));
                    if a != id@ && self.out().contains_key(a) && !list_at(i0, id@).contains(a) {
                        assert(!points_to(o0, a, id@));
                    }
                }
            }
        }
    }

    /// The number of references (a distinction referencing another twice
    /// counts twice), held at `usize::MAX`.
    pub fn edge_count(&self) -> (r: usize)
        ensures
            exists|e: Seq<(Seq<char>, Seq<Seq<char>>)>| #[trigger] enumerates(e, self.out())
                && r == (if lengths_sum(e) > usize::MAX { usize::MAX as int } else { lengths_sum(e) }),
    {
        let entries = lists_entries(&self.outgoing);
        let ghost e = entries@.map_values(|p: (String, Vec<String>)| (p.0@, views(p.1@)));
        let mut total: usize = 0;
        let mut i: usize = 0;
        while i < entries.len()
            invariant
                i <= entries@.len(),
                e == entries@.map_values(|p: (String, Vec<String>)| (p.0@, views(p.1@))),
                total == (if lengths_sum(e.take(i as int)) > usize::MAX { usize::MAX as int } else { lengths_sum(e.take(i as int)) }),
            decreases entries@.len() - i,
        {
            proof {
                assert(e.take(i + 1).drop_last() =~= e.take(i as int));
                assert(e.take(i + 1).last() == e[i as int]);
                lemma_lengths_sum_nonneg(e.take(i as int));
            }
            total = total.saturating_add(entries[i].1.len());
            i = i + 1;
        }
        proof {
            assert(e.take(entries@.len() as int) =~= e);
            assert forall|a: int| 0 <= a < e.len() implies self.out().contains_key((#[trigger] e[a]).0) && self.out()[e[a].0] == e[a].1 by {
                assert(e[a] == (entries@[a].0@, views(entries@[a].1@)));
            }
            assert forall|a: int, b: int| 0 <= a < b < e.len() implies (#[trigger] e[a]).0 != (#[trigger] e[b]).0 by {
                assert(e[a].0 == entries@[a].0@ && e[b].0 == entries@[b].0@);
            }
            assert(enumerates(e, self.out()));
        }
        total
    }

    /// The number of nodes.
    pub fn node_count(&self) -> (r: usize)
        ensures
            set_has_size(self.node_set(), r as nat),
    {
        keys_len(&self.nodes)
    }

    /// Whether `id` is a node.
    pub fn contains(&self, id: &str) -> (r: bool)
        ensures
            r == self.node_set().contains(id@),
    {
        keys_contains(&self.nodes, id)
    }
}

impl Default for ReferenceGraph {
    fn default() -> (g: Self)
        ensures
            g.wf(),
            has_size(g.out(), 0),
            has_size(g.inc(), 0),
            set_has_size(g.node_set(), 0),
    {
        Self::new()
    }
}

} // verus!
