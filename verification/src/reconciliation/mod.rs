//! Set reconciliation between nodes: Bloom filters, Merkle trees and causal worlds.

pub mod bloom;
pub mod merkle;
pub mod world;

use vstd::prelude::*;
use crate::causal_graph::CausalGraph;
use crate::reconciliation::bloom::{bits_after_all, filter_of, BloomFilter};
use crate::reconciliation::merkle::{hash_eq, lemma_root_hash_order_independent, tree_root_hash, MerkleNode, MerkleTree};
use crate::strings::{chars_leq, views};

verus! {

/// Reconciliation strategy.
#[derive(Debug, Clone, Copy, PartialEq, Eq, Structural)]
pub enum SyncStrategy {
    /// Merkle tree comparison (exact).
    MerkleTree,
    /// Bloom filter (probabilistic); the false-positive rate is the bits of an `f64`.
    BloomFilter { expected_items: usize, fp_rate: u64 },
    /// Bloom filter first, then Merkle for the differences.
    Hybrid { threshold: usize },
}

/// Whether `s` occurs in `v`.
pub fn contains_string(v: &[String], s: &str) -> (r: bool)
    ensures
        r == views(v@).contains(s@),
{
    let mut i: usize = 0;
    while i < v.len()
        invariant
            i <= v@.len(),
            forall|j: int| 0 <= j < i ==> (#[trigger] v@[j])@ != s@,
        decreases v@.len() - i,
    {
        if crate::strings::str_eq(v[i].as_str(), s) {
            proof {
                assert(views(v@)[i as int] == s@);
            }
            return true;
        }
        i = i + 1;
    }
    proof {
        assert forall|j: int| 0 <= j < views(v@).len() implies views(v@)[j] != s@ by {
            assert(views(v@)[j] == v@[j]@);
        }
    }
    false
}

/// Distinctions in `local` that `remote` lacks, in `local`'s order.
pub fn find_missing(local: &[String], remote: &[String]) -> (r: Vec<String>)
    ensures
        views(r@) == views(local@).filter(|x: Seq<char>| !views(remote@).contains(x)),
{
    let ghost pred = |x: Seq<char>| !views(remote@).contains(x);
    let mut r: Vec<String> = Vec::new();
    let mut i: usize = 0;
    proof {
        assert(views(local@).take(0) =~= Seq::<Seq<char>>::empty());
        assert(views(r@) =~= Seq::<Seq<char>>::empty());
    }
    while i < local.len()
        invariant
            i <= local@.len(),
            pred == (|x: Seq<char>| !views(remote@).contains(x)),
            views(r@) == views(local@).take(i as int).filter(pred),
        decreases local@.len() - i,
    {
        let ghost before = r@;
        proof {
            reveal(Seq::filter);
            assert(views(local@).take(i + 1).drop_last() =~= views(local@).take(i as int));
            assert(views(local@).take(i + 1).last() == local@[i as int]@);
        }
        if !contains_string(remote, local[i].as_str()) {
            r.push(local[i].clone());
            proof {
                assert(views(r@) =~= views(before).push(local@[i as int]@));
            }
        }
        i = i + 1;
    }
    proof {
        assert(views(local@).take(local@.len() as int) =~= views(local@));
    }
    r
}

/// Holds this node's distinctions and compares them with a peer's: by Merkle
/// root, Merkle tree, Bloom filter or causal graph.
#[derive(Debug)]
pub struct ReconciliationAgent {
    /// Local distinction IDs, each once.
    local_distinctions: Vec<String>,
    /// Strategy for sync.
    strategy: SyncStrategy,
    /// The Merkle tree last built over the distinctions.
    cached_tree: Option<MerkleTree>,
    /// Whether the distinctions changed since the tree was built.
    cache_dirty: bool,
}

impl ReconciliationAgent {
    /// The local distinctions, in the order they were added.
    pub closed spec fn ids(&self) -> Seq<Seq<char>> {
        views(self.local_distinctions@)
    }

    /// The set of local distinctions.
    pub open spec fn dset(&self) -> Set<Seq<char>> {
        self.ids().to_set()
    }

    /// The sync strategy.
    pub closed spec fn spec_strategy(&self) -> SyncStrategy {
        self.strategy
    }

    /// The root of the Merkle tree last built over the distinctions.
    pub closed spec fn tree_root(&self) -> MerkleNode {
        match self.cached_tree {
            Some(t) => t.spec_root(),
            None => MerkleNode::Empty,
        }
    }

    /// Whether the tree was built over the current distinctions.
    pub closed spec fn tree_fresh(&self) -> bool {
        !self.cache_dirty
    }

    /// Each distinction is held once, there are few enough to build a tree
    /// over, and a fresh tree is the tree over the current distinctions.
    pub closed spec fn wf(&self) -> bool {
        &&& self.ids().no_duplicates()
        &&& self.ids().len() <= usize::MAX / 2
        &&& !self.cache_dirty ==> self.cached_tree is Some
        &&& !self.cache_dirty ==> tree_over(self.tree_root(), self.ids())
    }

    /// An agent with no distinctions and the Merkle tree strategy.
    pub fn new() -> (a: Self)
        ensures
            a.wf(),
            a.ids() == Seq::<Seq<char>>::empty(),
            a.spec_strategy() == SyncStrategy::MerkleTree,
    {
        Self::with_strategy(SyncStrategy::MerkleTree)
    }

    /// An agent with no distinctions and the given strategy.
    pub fn with_strategy(strategy: SyncStrategy) -> (a: Self)
        ensures
            a.wf(),
            a.ids() == Seq::<Seq<char>>::empty(),
            a.spec_strategy() == strategy,
    {
        let a = ReconciliationAgent { local_distinctions: Vec::new(), strategy, cached_tree: None, cache_dirty: true };
        proof {
            assert(a.ids() =~= Seq::<Seq<char>>::empty());
        }
        a
    }

    /// Add a local distinction (nothing changes if it is already held).
    pub fn add_local_distinction(&mut self, id: String)
        requires
            old(self).wf(),
            old(self).ids().len() < usize::MAX / 2,
        ensures
            final(self).wf(),
            final(self).ids() == (if old(self).ids().contains(id@) { old(self).ids() } else { old(self).ids().push(id@) }),
            final(self).dset() == old(self).dset().insert(id@),
            final(self).spec_strategy() == old(self).spec_strategy(),
    {
        let ghost before = self.ids();
        if !contains_string(&self.local_distinctions, id.as_str()) {
            let ghost v = id@;
            self.local_distinctions.push(id);
            proof {
                assert(self.ids() =~= before.push(v));
                before.lemma_push_to_set_commute(v);
            }
        } else {
            proof {
                assert(before.to_set().insert(id@) =~= before.to_set());
            }
        }
        self.cache_dirty = true;
    }

    /// Add several local distinctions.
    pub fn add_local_distinctions(&mut self, ids: Vec<String>)
        requires
            old(self).wf(),
            old(self).ids().len() + ids@.len() <= usize::MAX / 2,
        ensures
            final(self).wf(),
            final(self).dset() == old(self).dset() + views(ids@).to_set(),
            final(self).spec_strategy() == old(self).spec_strategy(),
    {
        let mut i: usize = 0;
        while i < ids.len()
            invariant
                i <= ids@.len(),
                self.wf(),
                self.ids().len() <= old(self).ids().len() + i,
                old(self).ids().len() + ids@.len() <= usize::MAX / 2,
                self.dset() == old(self).dset() + views(ids@).take(i as int).to_set(),
                self.spec_strategy() == old(self).spec_strategy(),
            decreases ids@.len() - i,
        {
            self.add_local_distinction(ids[i].clone());
            proof {
                assert(views(ids@).take(i + 1) =~= views(ids@).take(i as int).push(ids@[i as int]@));
                views(ids@).take(i as int).lemma_push_to_set_commute(ids@[i as int]@);
            }
            i = i + 1;
        }
        proof {
            assert(views(ids@).take(ids@.len() as int) =~= views(ids@));
        }
        self.cache_dirty = true;
    }

    /// Remove a local distinction; whether it was held.
    pub fn remove_local_distinction(&mut self, id: &str) -> (r: bool)
        requires
            old(self).wf(),
        ensures
            final(self).wf(),
            r == old(self).dset().contains(id@),
            final(self).dset() == old(self).dset().remove(id@),
            final(self).spec_strategy() == old(self).spec_strategy(),
    {
        let ghost before = self.ids();
        let mut i: usize = 0;
        while i < self.local_distinctions.len()
            invariant
                i <= self.local_distinctions@.len(),
                self.ids() == before,
                before == old(self).ids(),
                self.wf(),
                self.spec_strategy() == old(self).spec_strategy(),
                forall|j: int| 0 <= j < i ==> (#[trigger] before[j]) != id@,
            decreases self.local_distinctions@.len() - i,
        {
            if crate::strings::str_eq(self.local_distinctions[i].as_str(), id) {
                self.local_distinctions.remove(i);
                proof {
                    assert(before[i as int] == id@);
                    assert(self.ids() =~= before.remove(i as int));
                    let after = self.ids();
                    assert forall|a: int, b: int| 0 <= a < after.len() && 0 <= b < after.len() && a != b implies after[a] != after[b] by {
                        let a2 = if a < i { a } else { a + 1 };
                        let b2 = if b < i { b } else { b + 1 };
                        assert(after[a] == before[a2] && after[b] == before[b2]);
                    }
                    assert forall|x: Seq<char>| #[trigger] after.contains(x) <==> (before.contains(x) && x != id@) by {
                        if after.contains(x) {
                            let w = choose|w: int| 0 <= w < after.len() && after[w] == x;
                            let w2 = if w < i { w } else { w + 1 };
                            assert(before[w2] == x);
                            assert(w2 != i);
                        }
                        if before.contains(x) && x != id@ {
                            let w = choose|w: int| 0 <= w < before.len() && before[w] == x;
                            assert(w != i);
                            if w < i {
                                assert(after[w] == x);
                            } else {
                                assert(after[w - 1] == x);
                            }
                        }
                    }
                    assert(self.dset() =~= before.to_set().remove(id@));
                }
                self.cache_dirty = true;
                return true;
            }
            i = i + 1;
        }
        proof {
            assert(!before.contains(id@));
            assert(before.to_set().remove(id@) =~= before.to_set());
        }
        false
    }

    /// The number of local distinctions.
    pub fn len(&self) -> (r: usize)
        requires
            self.wf(),
        ensures
            r == self.ids().len(),
            r == self.dset().len(),
    {
        proof {
            self.ids().unique_seq_to_set();
        }
        self.local_distinctions.len()
    }

    /// Whether no distinction is held.
    pub fn is_empty(&self) -> (r: bool)
        ensures
            r == (self.ids().len() == 0),
            r == (self.dset() == Set::<Seq<char>>::empty()),
    {
        proof {
            if self.ids().len() > 0 {
                assert(self.dset().contains(self.ids()[0]));
            } else {
                assert(self.dset() =~= Set::<Seq<char>>::empty());
            }
        }
        self.local_distinctions.len() == 0
    }

    /// Whether `id` is held.
    pub fn has_distinction(&self, id: &str) -> (r: bool)
        ensures
            r == self.dset().contains(id@),
    {
        contains_string(&self.local_distinctions, id)
    }

    /// The local distinctions.
    pub fn distinctions(&self) -> (r: Vec<String>)
        ensures
            views(r@) == self.ids(),
    {
        let mut r: Vec<String> = Vec::new();
        let mut i: usize = 0;
        while i < self.local_distinctions.len()
            invariant
                i <= self.local_distinctions@.len(),
                views(r@) == self.ids().take(i as int),
            decreases self.local_distinctions@.len() - i,
        {
            let c = self.local_distinctions[i].clone();
            let ghost before = views(r@);
            r.push(c);
            proof {
                assert(views(r@) =~= before.push(c@));
                assert(self.ids().take(i + 1) =~= self.ids().take(i as int).push(self.ids()[i as int]));
            }
            i = i + 1;
        }
        proof {
            assert(self.ids().take(self.local_distinctions@.len() as int) =~= self.ids());
        }
        r
    }

    /// Build the Merkle tree over the distinctions if they changed since the
    /// last build.
    fn ensure_cache(&mut self)
        requires
            old(self).wf(),
        ensures
            final(self).wf(),
            final(self).tree_fresh(),
            final(self).ids() == old(self).ids(),
            final(self).spec_strategy() == old(self).spec_strategy(),
            old(self).tree_fresh() ==> final(self).tree_root() == old(self).tree_root(),
    {
        if self.cache_dirty {
            let tree = MerkleTree::from_distinctions(self.local_distinctions.as_slice());
            self.cached_tree = Some(tree);
            self.cache_dirty = false;
        }
    }

    /// The root hash of the Merkle tree over the distinctions: 32 bytes that
    /// stand for the whole set.
    pub fn merkle_root(&mut self) -> (r: [u8; 32])
        requires
            old(self).wf(),
        ensures
            final(self).wf(),
            final(self).tree_fresh(),
            final(self).ids() == old(self).ids(),
            final(self).spec_strategy() == old(self).spec_strategy(),
            r@ == tree_root_hash(old(self).ids()),
    {
        self.ensure_cache();
        match &self.cached_tree {
            Some(t) => t.root_hash(),
            None => [0u8; 32],
        }
    }

    /// A copy of the Merkle tree over the distinctions.
    pub fn merkle_tree(&mut self) -> (r: Option<MerkleTree>)
        requires
            old(self).wf(),
        ensures
            final(self).wf(),
            final(self).tree_fresh(),
            final(self).ids() == old(self).ids(),
            final(self).spec_strategy() == old(self).spec_strategy(),
            r matches Some(t) && t.spec_root() == final(self).tree_root(),
            tree_over(final(self).tree_root(), old(self).ids()),
    {
        self.ensure_cache();
        match &self.cached_tree {
            Some(t) => Some(t.duplicate()),
            None => None,
        }
    }

    /// A Bloom filter with `m` bits and `k` hash functions holding every local
    /// distinction.
    pub fn bloom_filter(&self, m: usize, k: usize) -> (f: BloomFilter)
        requires
            m > 0 || k == 0,
        ensures
            f.wf(),
            f.hash_count() == k,
            f.bit_count() == m,
            f.inserted() == self.ids().len(),
            f.bits() == bits_after_all(Seq::new(m as nat, |j: int| false), k, m, self.ids()),
            forall|id: Seq<char>| #[trigger] self.dset().contains(id) ==> f.contains_spec(id),
    {
        let f = filter_of(self.local_distinctions.as_slice(), m, k);
        proof {
            assert forall|id: Seq<char>| #[trigger] self.dset().contains(id) implies f.contains_spec(id) by {
                let w = choose|w: int| 0 <= w < self.ids().len() && self.ids()[w] == id;
                assert(self.local_distinctions@[w]@ == id);
            }
        }
        f
    }

    /// Compare with a remote Merkle root: `Some` of nothing when the roots
    /// match (the sets are the same), `None` when the remote's tree is needed.
    pub fn compare_merkle_root(&mut self, remote_root: &[u8; 32]) -> (r: Option<Vec<String>>)
        requires
            old(self).wf(),
        ensures
            final(self).wf(),
            final(self).tree_fresh(),
            final(self).ids() == old(self).ids(),
            final(self).spec_strategy() == old(self).spec_strategy(),
            r is Some <==> tree_root_hash(old(self).ids()) == remote_root@,
            r matches Some(v) ==> v@.len() == 0,
    {
        let local_root = self.merkle_root();
        if hash_eq(&local_root, remote_root) {
            Some(Vec::new())
        } else {
            None
        }
    }

    /// Distinctions of ours that the comparison with a remote tree reports as
    /// possibly missing from it, each once.
    pub fn find_missing_with_tree(&mut self, remote_tree: &MerkleTree) -> (r: Vec<String>)
        requires
            old(self).wf(),
        ensures
            final(self).wf(),
            final(self).tree_fresh(),
            final(self).ids() == old(self).ids(),
            final(self).spec_strategy() == old(self).spec_strategy(),
            tree_over(final(self).tree_root(), old(self).ids()),
            views(r@).no_duplicates(),
            views(r@).to_set() == crate::reconciliation::merkle::diff_spec(final(self).tree_root(), remote_tree.spec_root()),
    {
        self.ensure_cache();
        match &self.cached_tree {
            Some(t) => t.diff(remote_tree),
            None => Vec::new(),
        }
    }

    /// Distinctions of ours that are definitely not in the remote filter, in
    /// the order they were added.
    pub fn find_missing_with_bloom(&self, remote_filter: &BloomFilter) -> (r: Vec<String>)
        requires
            remote_filter.wf(),
            remote_filter.can_hash(),
        ensures
            views(r@) == self.ids().filter(|x: Seq<char>| !remote_filter.contains_spec(x)),
    {
        let ghost pred = |x: Seq<char>| !remote_filter.contains_spec(x);
        let mut r: Vec<String> = Vec::new();
        let mut i: usize = 0;
        proof {
            assert(self.ids().take(0) =~= Seq::<Seq<char>>::empty());
            assert(views(r@) =~= Seq::<Seq<char>>::empty());
        }
        while i < self.local_distinctions.len()
            invariant
                i <= self.local_distinctions@.len(),
                remote_filter.wf(),
                remote_filter.can_hash(),
                pred == (|x: Seq<char>| !remote_filter.contains_spec(x)),
                views(r@) == self.ids().take(i as int).filter(pred),
            decreases self.local_distinctions@.len() - i,
        {
            let ghost before = r@;
            proof {
                reveal(Seq::filter);
                assert(self.ids().take(i + 1).drop_last() =~= self.ids().take(i as int));
                assert(self.ids().take(i + 1).last() == self.local_distinctions@[i as int]@);
            }
            if remote_filter.definitely_not_contain(self.local_distinctions[i].as_str()) {
                r.push(self.local_distinctions[i].clone());
                proof {
                    assert(views(r@) =~= views(before).push(self.local_distinctions@[i as int]@));
                }
            }
            i = i + 1;
        }
        proof {
            assert(self.ids().take(self.local_distinctions@.len() as int) =~= self.ids());
        }
        r
    }

    /// Distinctions of ours that are not nodes of the remote causal graph, in
    /// the order they were added.
    pub fn reconcile_with_graph(&self, remote_graph: &CausalGraph) -> (r: Vec<String>)
        ensures
            views(r@) == self.ids().filter(|x: Seq<char>| !remote_graph.node_ids().contains(x)),
    {
        let remote = remote_graph.all_nodes();
        let r = find_missing(self.local_distinctions.as_slice(), remote.as_slice());
        proof {
            assert((|x: Seq<char>| !views(remote@).contains(x)) =~= (|x: Seq<char>| !remote_graph.node_ids().contains(x)));
        }
        r
    }

    /// Forget every distinction.
    pub fn clear(&mut self)
        ensures
            final(self).wf(),
            final(self).ids() == Seq::<Seq<char>>::empty(),
            final(self).spec_strategy() == old(self).spec_strategy(),
    {
        self.local_distinctions = Vec::new();
        self.cached_tree = None;
        self.cache_dirty = true;
        proof {
            assert(self.ids() =~= Seq::<Seq<char>>::empty());
        }
    }
}

impl Default for ReconciliationAgent {
    fn default() -> (a: Self)
        ensures
            a.wf(),
            a.ids() == Seq::<Seq<char>>::empty(),
            a.spec_strategy() == SyncStrategy::MerkleTree,
    {
        Self::new()
    }
}

/// `root` is the root of a Merkle tree built over `ids`: a valid tree whose
/// leaves are the distinctions in sorted order.
pub open spec fn tree_over(root: MerkleNode, ids: Seq<Seq<char>>) -> bool {
    &&& root.valid()
    &&& root.contents() == ids.sort_by(chars_leq())
    &&& root.spec_hash() == tree_root_hash(ids)
}

/// Two agents holding the same distinctions, in whatever order they were
/// added, have the same Merkle root.
pub proof fn lemma_same_distinctions_same_root(a: Seq<Seq<char>>, b: Seq<Seq<char>>)
    requires
        a.no_duplicates(),
        b.no_duplicates(),
        a.to_set() == b.to_set(),
    ensures
        tree_root_hash(a) == tree_root_hash(b),
{
    broadcast use vstd::seq_lib::group_to_multiset_ensures;
    a.lemma_multiset_has_no_duplicates();
    b.lemma_multiset_has_no_duplicates();
    assert forall|x: Seq<char>| a.to_multiset().count(x) == b.to_multiset().count(x) by {
        if a.to_multiset().contains(x) {
            assert(a.contains(x));
            assert(a.to_set().contains(x));
            assert(b.contains(x));
        } else if b.to_multiset().contains(x) {
            assert(b.contains(x));
            assert(b.to_set().contains(x));
            assert(a.contains(x));
        }
    }
    assert(a.to_multiset() =~= b.to_multiset());
    lemma_root_hash_order_independent(a, b);
}

/// A law of the agent: the tree it reports as missing against a remote tree
/// only ever holds distinctions it has.
pub proof fn lemma_missing_with_tree_are_ours(root: MerkleNode, ids: Seq<Seq<char>>, remote: MerkleNode)
    requires
        tree_over(root, ids),
    ensures
        crate::reconciliation::merkle::diff_spec(root, remote).subset_of(ids.to_set()),
{
    crate::reconciliation::merkle::lemma_diff_within(root, remote);
    broadcast use vstd::seq_lib::group_to_multiset_ensures;
    crate::strings::lemma_chars_leq_total_ordering();
    ids.lemma_sort_by_ensures(chars_leq());
    assert forall|x: Seq<char>| root.contents().to_set().contains(x) implies ids.to_set().contains(x) by {
        assert(root.contents().contains(x));
        assert(ids.sort_by(chars_leq()).to_multiset().contains(x));
        assert(ids.to_multiset().contains(x));
        assert(ids.contains(x));
    }
}

} // verus!
