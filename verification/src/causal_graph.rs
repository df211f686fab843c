//! The causal graph of distinctions: which distinction was derived from which.

use vstd::prelude::*;
use crate::strings::views;

verus! {

/// Identifier of a distinction (its content hash in hex).
pub type DistinctionId = String;

/// Whether some edge leaves `id` (it is the parent of another distinction).
pub open spec fn has_child(edges: Seq<(Seq<char>, Seq<char>)>, id: Seq<char>) -> bool {
    exists|j: int| 0 <= j < edges.len() && (#[trigger] edges[j]).0 == id
}

/// The frontier: nodes that no edge leaves, in insertion order.
pub open spec fn frontier_of(nodes: Seq<Seq<char>>, edges: Seq<(Seq<char>, Seq<char>)>) -> Seq<Seq<char>> {
    nodes.filter(|n: Seq<char>| !has_child(edges, n))
}

/// A directed graph of distinctions; an edge goes from a parent to a child.
#[derive(Debug)]
pub struct CausalGraph {
    nodes: Vec<DistinctionId>,
    edges: Vec<(DistinctionId, DistinctionId)>,
}

impl CausalGraph {
    /// The nodes, in insertion order.
    pub closed spec fn node_ids(&self) -> Seq<Seq<char>> {
        views(self.nodes@)
    }

    /// The edges as (parent, child) pairs, in insertion order.
    pub closed spec fn edge_ids(&self) -> Seq<(Seq<char>, Seq<char>)> {
        self.edges@.map_values(|e: (String, String)| (e.0@, e.1@))
    }

    /// No node is recorded twice.
    pub open spec fn wf(&self) -> bool {
        self.node_ids().no_duplicates()
    }

    /// Create an empty graph.
    pub fn new() -> (g: Self)
        ensures
            g.wf(),
            g.node_ids() == Seq::<Seq<char>>::empty(),
            g.edge_ids() == Seq::<(Seq<char>, Seq<char>)>::empty(),
    {
        let g = CausalGraph { nodes: Vec::new(), edges: Vec::new() };
        proof {
            assert(g.node_ids() =~= Seq::<Seq<char>>::empty());
            assert(g.edge_ids() =~= Seq::<(Seq<char>, Seq<char>)>::empty());
        }
        g
    }

    /// Whether `id` is a node of the graph.
    pub fn contains(&self, id: &str) -> (r: bool)
        ensures
            r == self.node_ids().contains(id@),
    {
        let mut i: usize = 0;
        while i < self.nodes.len()
            invariant
                i <= self.nodes@.len(),
                forall|j: int| 0 <= j < i ==> (#[trigger] self.nodes@[j])@ != id@,
            decreases self.nodes@.len() - i,
        {
            if crate::strings::str_eq(self.nodes[i].as_str(), id) {
                proof {
                    assert(self.node_ids()[i as int] == id@);
                }
                return true;
            }
            i = i + 1;
        }
        proof {
            assert forall|j: int| 0 <= j < self.node_ids().len() implies self.node_ids()[j] != id@ by {
                assert(self.node_ids()[j] == self.nodes@[j]@);
            }
        }
        false
    }

    /// Add a node; adding a node that is already there changes nothing.
    pub fn add_node(&mut self, id: DistinctionId)
        requires
            old(self).wf(),
        ensures
            final(self).wf(),
            final(self).node_ids() == (if old(self).node_ids().contains(id@) {
                old(self).node_ids()
            } else {
                old(self).node_ids().push(id@)
            }),
            final(self).edge_ids() == old(self).edge_ids(),
    {
        if !self.contains(id.as_str()) {
            let ghost before = self.nodes@;
            self.nodes.push(id);
            proof {
                assert(views(self.nodes@) =~= views(before).push(self.nodes@.last()@));
            }
        }
    }

    /// Add an edge from `parent` to `child`.
    pub fn add_edge(&mut self, parent: DistinctionId, child: DistinctionId)
        requires
            old(self).wf(),
        ensures
            final(self).wf(),
            final(self).node_ids() == old(self).node_ids(),
            final(self).edge_ids() == old(self).edge_ids().push((parent@, child@)),
    {
        let ghost before = self.edges@;
        let ghost p = parent@;
        let ghost c = child@;
        self.edges.push((parent, child));
        proof {
            assert(self.edge_ids() =~= before.map_values(|e: (String, String)| (e.0@, e.1@)).push((p, c)));
        }
    }

    /// The number of nodes.
    pub fn node_count(&self) -> (r: usize)
        ensures
            r == self.node_ids().len(),
    {
        self.nodes.len()
    }

    /// Whether some edge leaves `id`.
    fn is_parent(&self, id: &str) -> (r: bool)
        ensures
            r == has_child(self.edge_ids(), id@),
    {
        let mut i: usize = 0;
        while i < self.edges.len()
            invariant
                i <= self.edges@.len(),
                forall|j: int| 0 <= j < i ==> (#[trigger] self.edges@[j]).0@ != id@,
            decreases self.edges@.len() - i,
        {
            if crate::strings::str_eq(self.edges[i].0.as_str(), id) {
                proof {
                    assert(self.edge_ids()[i as int].0 == id@);
                }
                return true;
            }
            i = i + 1;
        }
        proof {
            assert forall|j: int| 0 <= j < self.edge_ids().len() implies (#[trigger] self.edge_ids()[j]).0 != id@ by {
                assert(self.edge_ids()[j].0 == self.edges@[j].0@);
            }
        }
        false
    }

    /// The frontier: the nodes that are no other distinction's parent, in insertion order.
    pub fn frontier(&self) -> (r: Vec<DistinctionId>)
        ensures
            views(r@) == frontier_of(self.node_ids(), self.edge_ids()),
    {
        let mut r: Vec<DistinctionId> = Vec::new();
        let mut i: usize = 0;
        let ghost pred = |n: Seq<char>| !has_child(self.edge_ids(), n);
        proof {
            assert(self.node_ids().take(0) =~= Seq::<Seq<char>>::empty());
            assert(views(r@) =~= Seq::<Seq<char>>::empty());
        }
        while i < self.nodes.len()
            invariant
                i <= self.nodes@.len(),
                pred == (|n: Seq<char>| !has_child(self.edge_ids(), n)),
                views(r@) == self.node_ids().take(i as int).filter(pred),
            decreases self.nodes@.len() - i,
        {
            let ghost before = r@;
            proof {
                reveal(Seq::filter);
                assert(self.node_ids().take(i + 1).drop_last() =~= self.node_ids().take(i as int));
                assert(self.node_ids().take(i + 1).last() == self.nodes@[i as int]@);
            }
            if !self.is_parent(self.nodes[i].as_str()) {
                r.push(self.nodes[i].clone());
                proof {
                    assert(views(r@) =~= views(before).push(self.nodes@[i as int]@));
                }
            }
            i = i + 1;
        }
        proof {
            assert(self.node_ids().take(self.nodes@.len() as int) =~= self.node_ids());
        }
        r
    }

    /// Every node, in insertion order.
    pub fn all_nodes(&self) -> (r: Vec<DistinctionId>)
        ensures
            views(r@) == self.node_ids(),
    {
        let mut r: Vec<DistinctionId> = Vec::new();
        let mut i: usize = 0;
        while i < self.nodes.len()
            invariant
                i <= self.nodes@.len(),
                views(r@) == self.node_ids().take(i as int),
            decreases self.nodes@.len() - i,
        {
            let ghost before = views(r@);
            let c = self.nodes[i].clone();
            r.push(c);
            proof {
                assert(views(r@) =~= before.push(c@));
                assert(self.node_ids().take(i + 1) =~= self.node_ids().take(i as int).push(self.node_ids()[i as int]));
            }
            i = i + 1;
        }
        assert(self.node_ids().take(self.nodes@.len() as int) =~= self.node_ids());
        r
    }

    /// The roots: nodes that are no distinction's child, in insertion order.
    pub fn roots(&self) -> (r: Vec<DistinctionId>)
        ensures
            views(r@) == roots_of(self.node_ids(), self.edge_ids()),
    {
        let mut r: Vec<DistinctionId> = Vec::new();
        let mut i: usize = 0;
        let ghost pred = |n: Seq<char>| !has_parent(self.edge_ids(), n);
        while i < self.nodes.len()
            invariant
                i <= self.nodes@.len(),
                pred == (|n: Seq<char>| !has_parent(self.edge_ids(), n)),
                views(r@) == self.node_ids().take(i as int).filter(pred),
            decreases self.nodes@.len() - i,
        {
            let ghost before = r@;
            proof {
                assert(self.node_ids().take(i + 1) =~= self.node_ids().take(i as int).push(self.nodes@[i as int]@));
                self.node_ids().take(i as int).lemma_filter_push(self.nodes@[i as int]@, pred);
            }
            if !self.is_child(self.nodes[i].as_str()) {
                r.push(self.nodes[i].clone());
                proof {
                    assert(views(r@) =~= views(before).push(self.nodes@[i as int]@));
                }
            }
            i = i + 1;
        }
        proof {
            assert(self.node_ids().take(self.nodes@.len() as int) =~= self.node_ids());
        }
        r
    }

    /// Whether some edge enters `id`.
    fn is_child(&self, id: &str) -> (r: bool)
        ensures
            r == has_parent(self.edge_ids(), id@),
    {
        let mut i: usize = 0;
        while i < self.edges.len()
            invariant
                i <= self.edges@.len(),
                forall|j: int| 0 <= j < i ==> (#[trigger] self.edges@[j]).1@ != id@,
            decreases self.edges@.len() - i,
        {
            if crate::strings::str_eq(self.edges[i].1.as_str(), id) {
                proof {
                    assert(self.edge_ids()[i as int].1 == id@);
                }
                return true;
            }
            i = i + 1;
        }
        proof {
            assert forall|j: int| 0 <= j < self.edge_ids().len() implies (#[trigger] self.edge_ids()[j]).1 != id@ by {
                assert(self.edge_ids()[j].1 == self.edges@[j].1@);
            }
        }
        false
    }

    /// Every distinction `id` was derived from, directly or through others: each
    /// node from which a chain of edges leads to `id`, once.
    pub fn ancestors(&self, id: &str) -> (r: Vec<DistinctionId>)
        ensures
            views(r@).no_duplicates(),
            forall|a: Seq<char>| views(r@).contains(a) <==> reaches(self.edge_ids(), a, id@),
    {
        let pairs = self.edge_pairs(false);
        closure_into(&pairs, id)
    }

    /// Every distinction derived from `id`, directly or through others: each node a
    /// chain of edges leads to from `id`, once.
    pub fn descendants(&self, id: &str) -> (r: Vec<DistinctionId>)
        ensures
            views(r@).no_duplicates(),
            forall|d: Seq<char>| views(r@).contains(d) <==> reaches(self.edge_ids(), id@, d),
    {
        let pairs = self.edge_pairs(true);
        let r = closure_into(&pairs, id);
        proof {
            assert forall|d: Seq<char>| views(r@).contains(d) <==> reaches(self.edge_ids(), id@, d) by {
                lemma_reaches_flipped(self.edge_ids(), d, id@);
            }
        }
        r
    }

    /// The edges as pairs, each flipped to (child, parent) when `flip` is set.
    fn edge_pairs(&self, flip: bool) -> (r: Vec<(String, String)>)
        ensures
            pair_views(r@) == (if flip { flipped(self.edge_ids()) } else { self.edge_ids() }),
    {
        let mut r: Vec<(String, String)> = Vec::new();
        let mut i: usize = 0;
        while i < self.edges.len()
            invariant
                i <= self.edges@.len(),
                pair_views(r@) == (if flip { flipped(self.edge_ids()) } else { self.edge_ids() }).take(i as int),
            decreases self.edges@.len() - i,
        {
            let e = if flip {
                (self.edges[i].1.clone(), self.edges[i].0.clone())
            } else {
                (self.edges[i].0.clone(), self.edges[i].1.clone())
            };
            let ghost before = pair_views(r@);
            let ghost ev = (e.0@, e.1@);
            r.push(e);
            proof {
                let target = if flip { flipped(self.edge_ids()) } else { self.edge_ids() };
                assert(pair_views(r@) =~= before.push(ev));
                assert(self.edge_ids()[i as int] == (self.edges@[i as int].0@, self.edges@[i as int].1@));
                assert(target.take(i + 1) =~= target.take(i as int).push(target[i as int]));
            }
            i = i + 1;
        }
        assert((if flip { flipped(self.edge_ids()) } else { self.edge_ids() }).take(self.edges@.len() as int)
            =~= (if flip { flipped(self.edge_ids()) } else { self.edge_ids() }));
        r
    }
}

/// Whether some edge enters `id` (it was derived from another distinction).
pub open spec fn has_parent(edges: Seq<(Seq<char>, Seq<char>)>, id: Seq<char>) -> bool {
    exists|j: int| 0 <= j < edges.len() && (#[trigger] edges[j]).1 == id
}

/// The roots: nodes that no edge enters, in insertion order.
pub open spec fn roots_of(nodes: Seq<Seq<char>>, edges: Seq<(Seq<char>, Seq<char>)>) -> Seq<Seq<char>> {
    nodes.filter(|n: Seq<char>| !has_parent(edges, n))
}

/// The text of a list of string pairs.
pub open spec fn pair_views(s: Seq<(String, String)>) -> Seq<(Seq<char>, Seq<char>)> {
    s.map_values(|e: (String, String)| (e.0@, e.1@))
}

/// Every edge turned around.
pub open spec fn flipped(edges: Seq<(Seq<char>, Seq<char>)>) -> Seq<(Seq<char>, Seq<char>)> {
    edges.map_values(|e: (Seq<char>, Seq<char>)| (e.1, e.0))
}

/// Whether `p` is a chain: at least one node, each step along an edge.
pub open spec fn is_chain(edges: Seq<(Seq<char>, Seq<char>)>, p: Seq<Seq<char>>) -> bool {
    &&& p.len() >= 1
    &&& forall|k: int| #![trigger edges.contains((p[k], p[k + 1]))] 0 <= k < p.len() - 1 ==> edges.contains((p[k], p[k + 1]))
}

/// Whether a chain of one or more edges leads from `a` to `b`.
pub open spec fn reaches(edges: Seq<(Seq<char>, Seq<char>)>, a: Seq<char>, b: Seq<char>) -> bool {
    exists|p: Seq<Seq<char>>| #[trigger] is_chain(edges, p) && p.len() >= 2 && p[0] == a && p.last() == b
}

/// An edge and its flipped copy.
proof fn lemma_flip_contains(edges: Seq<(Seq<char>, Seq<char>)>, x: Seq<char>, y: Seq<char>)
    ensures
        edges.contains((x, y)) <==> flipped(edges).contains((y, x)),
{
    if edges.contains((x, y)) {
        let k = choose|k: int| 0 <= k < edges.len() && edges[k] == (x, y);
        assert(flipped(edges)[k] == (y, x));
    }
    if flipped(edges).contains((y, x)) {
        let k = choose|k: int| 0 <= k < flipped(edges).len() && flipped(edges)[k] == (y, x);
        assert(edges[k] == (x, y));
    }
}

/// A chain read backwards along flipped edges.
proof fn lemma_chain_reversed(edges: Seq<(Seq<char>, Seq<char>)>, p: Seq<Seq<char>>)
    requires
        is_chain(flipped(edges), p),
    ensures
        is_chain(edges, p.reverse()),
{
    let q = p.reverse();
    assert forall|k: int| 0 <= k < q.len() - 1 implies #[trigger] edges.contains((q[k], q[k + 1])) by {
        let j = p.len() - 2 - k;
        assert(flipped(edges).contains((p[j], p[j + 1])));
        assert(q[k] == p[j + 1] && q[k + 1] == p[j]);
        lemma_flip_contains(edges, p[j + 1], p[j]);
    }
}

/// A chain read backwards gives a chain of flipped edges.
proof fn lemma_chain_flipped(edges: Seq<(Seq<char>, Seq<char>)>, p: Seq<Seq<char>>)
    requires
        is_chain(edges, p),
    ensures
        is_chain(flipped(edges), p.reverse()),
{
    let q = p.reverse();
    assert forall|k: int| 0 <= k < q.len() - 1 implies #[trigger] flipped(edges).contains((q[k], q[k + 1])) by {
        let j = p.len() - 2 - k;
        assert(edges.contains((p[j], p[j + 1])));
        assert(q[k] == p[j + 1] && q[k + 1] == p[j]);
        lemma_flip_contains(edges, p[j], p[j + 1]);
    }
}

/// A chain of edges read backwards is a chain of flipped edges.
proof fn lemma_reaches_flipped(edges: Seq<(Seq<char>, Seq<char>)>, a: Seq<char>, b: Seq<char>)
    ensures
        reaches(flipped(edges), a, b) <==> reaches(edges, b, a),
{
    if reaches(flipped(edges), a, b) {
        let p = choose|p: Seq<Seq<char>>| #[trigger] is_chain(flipped(edges), p) && p.len() >= 2 && p[0] == a && p.last() == b;
        lemma_chain_reversed(edges, p);
        assert(is_chain(edges, p.reverse()) && p.reverse().len() >= 2 && p.reverse()[0] == b && p.reverse().last() == a);
    }
    if reaches(edges, b, a) {
        let p = choose|p: Seq<Seq<char>>| #[trigger] is_chain(edges, p) && p.len() >= 2 && p[0] == b && p.last() == a;
        lemma_chain_flipped(edges, p);
        assert(is_chain(flipped(edges), p.reverse()) && p.reverse().len() >= 2 && p.reverse()[0] == a && p.reverse().last() == b);
    }
}

/// Whether `x` occurs as the first element of some pair.
pub open spec fn is_source(edges: Seq<(Seq<char>, Seq<char>)>, x: Seq<char>) -> bool {
    exists|k: int| 0 <= k < edges.len() && (#[trigger] edges[k]).0 == x
}

/// Every listed node reaches the target and is a source of some edge.
pub open spec fn all_reach(edges: Seq<(Seq<char>, Seq<char>)>, found: Seq<Seq<char>>, target: Seq<char>) -> bool {
    forall|x: Seq<char>| #[trigger] found.contains(x) ==> reaches(edges, x, target) && is_source(edges, x)
}

/// The sources of the edges into `x` among the first `k` edges are listed.
pub open spec fn preds_listed(edges: Seq<(Seq<char>, Seq<char>)>, found: Seq<Seq<char>>, x: Seq<char>, k: int) -> bool {
    forall|j: int| 0 <= j < k && (#[trigger] edges[j]).1 == x ==> found.contains(edges[j].0)
}

/// The first `i` listed nodes have all their predecessors listed.
pub open spec fn closed_upto(edges: Seq<(Seq<char>, Seq<char>)>, found: Seq<Seq<char>>, i: int) -> bool {
    forall|q: int| 0 <= q < i ==> preds_listed(edges, found, #[trigger] found[q], edges.len() as int)
}

/// One edge step in front of a chain into the target.
proof fn lemma_step_reaches(edges: Seq<(Seq<char>, Seq<char>)>, u: Seq<char>, x: Seq<char>, target: Seq<char>, k: int)
    requires
        0 <= k < edges.len(),
        edges[k] == (u, x),
        x == target || reaches(edges, x, target),
    ensures
        reaches(edges, u, target),
        is_source(edges, u),
{
    assert(edges.contains((u, x)));
    if x == target {
        let p = seq![u, target];
        assert(is_chain(edges, p));
    } else {
        let p = choose|p: Seq<Seq<char>>| #[trigger] is_chain(edges, p) && p.len() >= 2 && p[0] == x && p.last() == target;
        let q = seq![u] + p;
        assert forall|m: int| 0 <= m < q.len() - 1 implies #[trigger] edges.contains((q[m], q[m + 1])) by {
            if m > 0 {
                assert(q[m] == p[m - 1] && q[m + 1] == p[m]);
                assert(edges.contains((p[m - 1], p[(m - 1) + 1])));
            }
        }
        assert(is_chain(edges, q));
    }
    assert(edges[k].0 == u);
}

/// Listing more nodes keeps the listed predecessor facts.
proof fn lemma_listed_grows(edges: Seq<(Seq<char>, Seq<char>)>, before: Seq<Seq<char>>, after: Seq<Seq<char>>, x: Seq<char>, k: int, i: int)
    requires
        forall|y: Seq<char>| before.contains(y) ==> #[trigger] after.contains(y),
        after.len() >= before.len(),
        after.take(before.len() as int) == before,
        0 <= i <= before.len(),
    ensures
        preds_listed(edges, before, x, k) ==> preds_listed(edges, after, x, k),
        closed_upto(edges, before, i) ==> closed_upto(edges, after, i),
{
    if closed_upto(edges, before, i) {
        assert forall|q: int| 0 <= q < i implies preds_listed(edges, after, #[trigger] after[q], edges.len() as int) by {
            assert(after[q] == after.take(before.len() as int)[q]);
            assert(preds_listed(edges, before, before[q], edges.len() as int));
        }
    }
}

/// Every node from which a chain of `pairs` leads to `target`, once, found
/// breadth first.
pub(crate) fn closure_into(pairs: &Vec<(String, String)>, target: &str) -> (r: Vec<String>)
    ensures
        views(r@).no_duplicates(),
        forall|a: Seq<char>| views(r@).contains(a) <==> reaches(pair_views(pairs@), a, target@),
{
    let ghost edges = pair_views(pairs@);
    let mut found: Vec<String> = Vec::new();
    let mut k: usize = 0;
    while k < pairs.len()
        invariant
            edges == pair_views(pairs@),
            k <= pairs@.len(),
            views(found@).no_duplicates(),
            all_reach(edges, views(found@), target@),
            preds_listed(edges, views(found@), target@, k as int),
        decreases pairs@.len() - k,
    {
        let ghost before = views(found@);
        if crate::strings::str_eq(pairs[k].1.as_str(), target) {
            proof {
                lemma_step_reaches(edges, pairs@[k as int].0@, target@, target@, k as int);
            }
            push_new(&mut found, &pairs[k].0, Ghost(edges), Ghost(target@));
            proof {
                lemma_listed_grows(edges, before, views(found@), target@, k as int, 0);
            }
        }
        k = k + 1;
    }
    let mut i: usize = 0;
    while i < found.len()
        invariant
            edges == pair_views(pairs@),
            i <= found@.len(),
            views(found@).no_duplicates(),
            all_reach(edges, views(found@), target@),
            preds_listed(edges, views(found@), target@, edges.len() as int),
            closed_upto(edges, views(found@), i as int),
        decreases pairs@.len() + 1 - i,
    {
        proof {
            lemma_sources_bound(edges, views(found@));
        }
        let x = found[i].clone();
        let mut k: usize = 0;
        while k < pairs.len()
            invariant
                edges == pair_views(pairs@),
                i < found@.len(),
                x@ == views(found@)[i as int],
                k <= pairs@.len(),
                views(found@).no_duplicates(),
                all_reach(edges, views(found@), target@),
                preds_listed(edges, views(found@), target@, edges.len() as int),
                closed_upto(edges, views(found@), i as int),
                preds_listed(edges, views(found@), x@, k as int),
            decreases pairs@.len() - k,
        {
            let ghost before = views(found@);
            if crate::strings::str_eq(pairs[k].1.as_str(), x.as_str()) {
                proof {
                    assert(before.contains(x@));
                    lemma_step_reaches(edges, pairs@[k as int].0@, x@, target@, k as int);
                }
                push_new(&mut found, &pairs[k].0, Ghost(edges), Ghost(target@));
                proof {
                    lemma_listed_grows(edges, before, views(found@), target@, edges.len() as int, i as int);
                    lemma_listed_grows(edges, before, views(found@), x@, k as int, i as int);
                    assert(views(found@)[i as int] == before[i as int]) by {
                        assert(views(found@).take(before.len() as int)[i as int] == views(found@)[i as int]);
                    }
                }
            }
            k = k + 1;
        }
        proof {
            assert(closed_upto(edges, views(found@), i + 1));
        }
        i = i + 1;
    }
    proof {
        assert forall|a: Seq<char>| reaches(edges, a, target@) implies views(found@).contains(a) by {
            let p = choose|p: Seq<Seq<char>>| #[trigger] is_chain(edges, p) && p.len() >= 2 && p[0] == a && p.last() == target@;
            lemma_chain_in_closure(edges, views(found@), target@, p);
        }
    }
    found
}

/// Append `s` unless it is already listed.
fn push_new(found: &mut Vec<String>, s: &String, Ghost(edges): Ghost<Seq<(Seq<char>, Seq<char>)>>, Ghost(target): Ghost<Seq<char>>)
    requires
        views(old(found)@).no_duplicates(),
        reaches(edges, s@, target),
        is_source(edges, s@),
    ensures
        views(final(found)@).no_duplicates(),
        views(final(found)@).contains(s@),
        forall|y: Seq<char>| views(final(found)@).contains(y) <==> (views(old(found)@).contains(y) || y == s@),
        views(final(found)@).take(old(found)@.len() as int) == views(old(found)@),
        final(found)@.len() >= old(found)@.len(),
{
    let ghost orig = found@;
    let mut j: usize = 0;
    while j < found.len()
        invariant
            j <= found@.len(),
            found@ == orig,
            views(orig).no_duplicates(),
            forall|q: int| 0 <= q < j ==> (#[trigger] found@[q])@ != s@,
        decreases found@.len() - j,
    {
        if crate::strings::str_eq(found[j].as_str(), s.as_str()) {
            proof {
                assert(found@ == orig);
                assert(views(found@)[j as int] == s@);
                assert(views(found@).take(found@.len() as int) =~= views(found@));
            }
            return;
        }
        j = j + 1;
    }
    let ghost before = views(found@);
    found.push(s.clone());
    proof {
        assert(views(found@) =~= before.push(s@));
        assert(!before.contains(s@)) by {
            if before.contains(s@) {
                let q = choose|q: int| 0 <= q < before.len() && before[q] == s@;
                assert(found@[q]@ == s@);
            }
        }
        assert(views(found@).take(before.len() as int) =~= before);
        assert forall|y: Seq<char>| views(found@).contains(y) <==> (before.contains(y) || y == s@) by {
            if views(found@).contains(y) && y != s@ {
                let q = choose|q: int| 0 <= q < views(found@).len() && views(found@)[q] == y;
                assert(before[q] == y);
            }
            if before.contains(y) {
                let q = choose|q: int| 0 <= q < before.len() && before[q] == y;
                assert(views(found@)[q] == y);
            }
            if y == s@ {
                assert(views(found@)[before.len() as int] == y);
            }
        }
    }
}

/// A list without repeats whose elements are all sources of `edges` is no longer
/// than `edges`.
proof fn lemma_sources_bound(edges: Seq<(Seq<char>, Seq<char>)>, found: Seq<Seq<char>>)
    requires
        found.no_duplicates(),
        forall|x: Seq<char>| found.contains(x) ==> is_source(edges, x),
    ensures
        found.len() <= edges.len(),
{
    let srcs = edges.map_values(|e: (Seq<char>, Seq<char>)| e.0).to_set();
    assert forall|x: Seq<char>| found.to_set().contains(x) implies srcs.contains(x) by {
        assert(found.contains(x));
        let k = choose|k: int| 0 <= k < edges.len() && (#[trigger] edges[k]).0 == x;
        assert(edges.map_values(|e: (Seq<char>, Seq<char>)| e.0)[k] == x);
    }
    found.unique_seq_to_set();
    edges.map_values(|e: (Seq<char>, Seq<char>)| e.0).lemma_cardinality_of_set();
    vstd::set_lib::lemma_len_subset(found.to_set(), srcs);
}

/// If every listed node has all its predecessors listed, and the target's too,
/// every node of a chain into the target (but the target) is listed.
proof fn lemma_chain_in_closure(edges: Seq<(Seq<char>, Seq<char>)>, found: Seq<Seq<char>>, target: Seq<char>, p: Seq<Seq<char>>)
    requires
        is_chain(edges, p),
        p.len() >= 2,
        p.last() == target,
        preds_listed(edges, found, target, edges.len() as int),
        closed_upto(edges, found, found.len() as int),
    ensures
        found.contains(p[0]),
    decreases p.len(),
{
    let n = p.len();
    assert(edges.contains((p[n - 2], p[(n - 2) + 1])));
    assert(edges.contains((p[n - 2], p[n - 1])));
    let j0 = choose|j: int| 0 <= j < edges.len() && edges[j] == (p[n - 2], p[n - 1]);
    assert(edges[j0].1 == target);
    if n == 2 {
        assert(found.contains(edges[j0].0));
    } else {
        let rest = p.subrange(1, n as int);
        assert forall|k: int| 0 <= k < rest.len() - 1 implies #[trigger] edges.contains((rest[k], rest[k + 1])) by {
            assert(rest[k] == p[k + 1] && rest[k + 1] == p[k + 2]);
            assert(edges.contains((p[k + 1], p[(k + 1) + 1])));
        }
        lemma_chain_in_closure(edges, found, target, rest);
        assert(found.contains(p[1]));
        let q = choose|q: int| 0 <= q < found.len() && found[q] == p[1];
        assert(edges.contains((p[0], p[0int + 1])));
        assert(edges.contains((p[0], p[1])));
        let j = choose|j: int| 0 <= j < edges.len() && edges[j] == (p[0], p[1]);
        assert(preds_listed(edges, found, found[q], edges.len() as int));
        assert(edges[j].1 == found[q]);
    }
}

} // verus!
