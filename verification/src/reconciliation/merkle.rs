//! Merkle tree over a set of distinction IDs. Two trees built from the same
//! distinctions have the same root hash, and comparing trees finds the
//! distinctions one side has that the other lacks.

use vstd::prelude::*;
use vstd::utf8::encode_utf8;
use crate::hashing::{sha256, sha256_of};
use crate::strings::{chars_leq, views, sort_strings};

verus! {

/// The all-zero hash of an empty node.
pub open spec fn zero_hash() -> Seq<u8> {
    Seq::new(32, |i: int| 0u8)
}

/// Hash of a leaf: SHA-256 of the distinction ID's UTF-8 bytes.
pub open spec fn leaf_hash(id: Seq<char>) -> Seq<u8> {
    sha256_of(encode_utf8(id))
}

/// A node's place in a level: whether it is the padding node, and its hash.
pub type Slot = (bool, Seq<u8>);

/// Hash of a branch over two children: padding children are skipped, and a
/// branch over two padding nodes hashes to zeros.
pub open spec fn combine(l: Slot, r: Slot) -> Seq<u8> {
    if l.0 && r.0 {
        zero_hash()
    } else if l.0 {
        r.1
    } else if r.0 {
        l.1
    } else {
        sha256_of(l.1 + r.1)
    }
}

/// The level above: each pair of neighbours becomes one branch.
pub open spec fn level_up(s: Seq<Slot>) -> Seq<Slot> {
    Seq::new(s.len() / 2, |i: int| (false, combine(s[2 * i], s[2 * i + 1])))
}

/// Hash at the top of a level whose length is a power of two.
pub open spec fn fold_levels(s: Seq<Slot>) -> Seq<u8>
    decreases s.len(),
{
    if s.len() <= 1 {
        if s.len() == 0 {
            zero_hash()
        } else {
            s[0].1
        }
    } else {
        fold_levels(level_up(s))
    }
}

/// The smallest power of two at least `n`, searching upward from `p`.
pub open spec fn pow2_from(n: nat, p: nat) -> nat
    decreases (if p >= n { 0 } else { n - p }),
{
    if p == 0 || p >= n {
        if p == 0 { 1 } else { p }
    } else {
        pow2_from(n, 2 * p)
    }
}

/// The smallest power of two at least `n` (1 for `n == 0`).
pub open spec fn next_pow2(n: nat) -> nat {
    pow2_from(n, 1)
}

/// `s` padded with padding slots up to a power-of-two length.
pub open spec fn pad_slots(s: Seq<Slot>) -> Seq<Slot> {
    s + Seq::new((next_pow2(s.len()) - s.len()) as nat, |i: int| (true, zero_hash()))
}

/// The leaf slots of a sequence of distinction IDs.
pub open spec fn leaf_slots(ids: Seq<Seq<char>>) -> Seq<Slot> {
    ids.map_values(|id: Seq<char>| (false, leaf_hash(id)))
}

/// Root hash of the tree built over `ids` taken in the given order.
pub open spec fn root_hash_over(ids: Seq<Seq<char>>) -> Seq<u8> {
    if ids.len() == 0 {
        zero_hash()
    } else if ids.len() == 1 {
        leaf_hash(ids[0])
    } else {
        fold_levels(pad_slots(leaf_slots(ids)))
    }
}

/// Root hash of the tree over a set of distinctions: they are sorted first.
pub open spec fn tree_root_hash(ids: Seq<Seq<char>>) -> Seq<u8> {
    root_hash_over(ids.sort_by(chars_leq()))
}

/// A node in the Merkle tree.
#[derive(Debug)]
pub enum MerkleNode {
    /// Leaf node containing a distinction hash.
    Leaf {
        /// The distinction ID.
        distinction_id: String,
        /// Hash of the distinction ID.
        hash: [u8; 32],
    },
    /// Internal node with two children.
    Branch {
        /// Hash of (left.hash || right.hash).
        hash: [u8; 32],
        /// Left child.
        left: Box<MerkleNode>,
        /// Right child.
        right: Box<MerkleNode>,
    },
    /// Empty node (for padding).
    Empty,
}

impl MerkleNode {
    /// The node's hash, over the model.
    pub open spec fn spec_hash(self) -> Seq<u8> {
        match self {
            MerkleNode::Leaf { hash, .. } => hash@,
            MerkleNode::Branch { hash, .. } => hash@,
            MerkleNode::Empty => zero_hash(),
        }
    }

    /// The node's slot in its level.
    pub open spec fn slot(self) -> Slot {
        (self is Empty, self.spec_hash())
    }

    /// The distinction IDs under this node, left to right.
    pub open spec fn contents(self) -> Seq<Seq<char>>
        decreases self,
    {
        match self {
            MerkleNode::Leaf { distinction_id, .. } => seq![distinction_id@],
            MerkleNode::Branch { left, right, .. } => (*left).contents() + (*right).contents(),
            MerkleNode::Empty => Seq::empty(),
        }
    }

    /// Every stored hash is the hash its children (or its ID) determine.
    pub open spec fn valid(self) -> bool
        decreases self,
    {
        match self {
            MerkleNode::Leaf { distinction_id, hash } => hash@ == leaf_hash(distinction_id@),
            MerkleNode::Branch { hash, left, right } => {
                &&& hash@ == combine((*left).slot(), (*right).slot())
                &&& (*left).valid()
                &&& (*right).valid()
            },
            MerkleNode::Empty => true,
        }
    }

    /// Get the hash of this node (zeros for an empty node).
    pub fn hash(&self) -> (h: [u8; 32])
        ensures
            h@ == self.spec_hash(),
    {
        match self {
            MerkleNode::Leaf { hash, .. } => *hash,
            MerkleNode::Branch { hash, .. } => *hash,
            MerkleNode::Empty => zero_array(),
        }
    }

    /// A copy of this node and everything under it.
    pub fn duplicate(&self) -> (r: Self)
        ensures
            r == *self,
        decreases self,
    {
        match self {
            MerkleNode::Leaf { distinction_id, hash } => MerkleNode::Leaf { distinction_id: distinction_id.clone(), hash: *hash },
            MerkleNode::Branch { hash, left, right } => {
                let l = (&**left).duplicate();
                let r = (&**right).duplicate();
                MerkleNode::Branch { hash: *hash, left: Box::new(l), right: Box::new(r) }
            },
            MerkleNode::Empty => MerkleNode::Empty,
        }
    }

    /// Check if this is a leaf node.
    pub fn is_leaf(&self) -> (r: bool)
        ensures
            r == (self is Leaf),
    {
        match self {
            MerkleNode::Leaf { .. } => true,
            _ => false,
        }
    }

    /// Check if this is empty.
    pub fn is_empty(&self) -> (r: bool)
        ensures
            r == (self is Empty),
    {
        match self {
            MerkleNode::Empty => true,
            _ => false,
        }
    }
}

/// An all-zero hash value.
fn zero_array() -> (h: [u8; 32])
    ensures
        h@ == zero_hash(),
{
    let h = [0u8; 32];
    assert(h@ =~= zero_hash());
    h
}

/// Whether two hashes are equal.
pub(crate) fn hash_eq(a: &[u8; 32], b: &[u8; 32]) -> (r: bool)
    ensures
        r == (a@ == b@),
{
    let mut i: usize = 0;
    while i < 32
        invariant
            i <= 32,
            a@.len() == 32,
            b@.len() == 32,
            forall|j: int| 0 <= j < i ==> a@[j] == b@[j],
        decreases 32 - i,
    {
        if a[i] != b[i] {
            return false;
        }
        i = i + 1;
    }
    assert(a@ =~= b@);
    true
}

/// Hash a distinction ID using SHA-256.
fn hash_distinction(id: &str) -> (h: [u8; 32])
    ensures
        h@ == leaf_hash(id@),
{
    sha256(id.as_bytes())
}

/// Hash two child hashes together (SHA-256 of their concatenation).
fn hash_children(left: &[u8; 32], right: &[u8; 32]) -> (h: [u8; 32])
    ensures
        h@ == sha256_of(left@ + right@),
{
    let mut data: Vec<u8> = Vec::new();
    let mut i: usize = 0;
    while i < 32
        invariant
            i <= 32,
            left@.len() == 32,
            data@ == left@.subrange(0, i as int),
        decreases 32 - i,
    {
        data.push(left[i]);
        i = i + 1;
    }
    let mut j: usize = 0;
    while j < 32
        invariant
            j <= 32,
            left@.len() == 32,
            right@.len() == 32,
            data@ == left@ + right@.subrange(0, j as int),
        decreases 32 - j,
    {
        data.push(right[j]);
        j = j + 1;
    }
    assert(data@ =~= left@ + right@);
    sha256(data.as_slice())
}

/// Hash of a branch over two nodes, as `combine` states it.
fn branch_hash(left: &MerkleNode, right: &MerkleNode) -> (h: [u8; 32])
    ensures
        h@ == combine(left.slot(), right.slot()),
{
    let le = left.is_empty();
    let re = right.is_empty();
    if le && re {
        zero_array()
    } else if le {
        right.hash()
    } else if re {
        left.hash()
    } else {
        hash_children(&left.hash(), &right.hash())
    }
}

/// The slots of a sequence of nodes.
pub open spec fn slots(s: Seq<MerkleNode>) -> Seq<Slot> {
    s.map_values(|n: MerkleNode| n.slot())
}

/// The distinction IDs under a sequence of nodes, left to right.
pub open spec fn all_contents(s: Seq<MerkleNode>) -> Seq<Seq<char>>
    decreases s.len(),
{
    if s.len() == 0 {
        Seq::empty()
    } else {
        all_contents(s.drop_last()) + s.last().contents()
    }
}

/// Every node of the sequence is valid.
pub open spec fn all_valid(s: Seq<MerkleNode>) -> bool {
    forall|i: int| 0 <= i < s.len() ==> (#[trigger] s[i]).valid()
}

/// Whether `n` is a power of two.
pub open spec fn is_pow2(n: nat) -> bool
    decreases n,
{
    if n == 1 {
        true
    } else if n >= 2 && n % 2 == 0 {
        is_pow2(n / 2)
    } else {
        false
    }
}

proof fn lemma_pow2_from(n: nat, p: nat)
    requires
        is_pow2(p),
    ensures
        is_pow2(pow2_from(n, p)),
        pow2_from(n, p) >= n,
        pow2_from(n, p) >= p,
    decreases (if p >= n { 0 } else { n - p }),
{
    if p < n {
        assert(is_pow2(2 * p)) by {
            assert((2 * p) / 2 == p);
        }
        lemma_pow2_from(n, 2 * p);
    }
}

proof fn lemma_all_contents_push(s: Seq<MerkleNode>, x: MerkleNode)
    ensures
        all_contents(s.push(x)) == all_contents(s) + x.contents(),
{
    assert(s.push(x).drop_last() =~= s);
}

/// The smallest power of two at least `n`.
fn next_power_of_two(n: usize) -> (p: usize)
    requires
        n <= usize::MAX / 2,
    ensures
        p == next_pow2(n as nat),
        is_pow2(p as nat),
        p >= n,
{
    let mut p: usize = 1;
    while p < n
        invariant
            1 <= p,
            n <= usize::MAX / 2,
            is_pow2(p as nat),
            pow2_from(n as nat, p as nat) == pow2_from(n as nat, 1),
        decreases (if p >= n { 0 } else { n - p }),
    {
        assert(is_pow2((2 * p) as nat)) by {
            assert(((2 * p) as nat) / 2 == p as nat);
        }
        p = p * 2;
    }
    p
}

/// A branch over two nodes, with its hash.
fn make_branch(left: MerkleNode, right: MerkleNode) -> (b: MerkleNode)
    ensures
        b is Branch,
        b.slot() == (false, combine(left.slot(), right.slot())),
        b.contents() == left.contents() + right.contents(),
        left.valid() && right.valid() ==> b.valid(),
{
    let hash = branch_hash(&left, &right);
    MerkleNode::Branch { hash, left: Box::new(left), right: Box::new(right) }
}

/// The level above `v`: neighbours paired into branches, in order.
fn pair_up(v: Vec<MerkleNode>) -> (r: Vec<MerkleNode>)
    requires
        v.len() % 2 == 0,
    ensures
        r.len() == v.len() / 2,
        slots(r@) == level_up(slots(v@)),
        all_contents(r@) == all_contents(v@),
        all_valid(v@) ==> all_valid(r@),
{
    let ghost v0 = v@;
    let ghost m: int = (v0.len() / 2) as int;
    let mut v = v;
    let mut rev: Vec<MerkleNode> = Vec::new();
    while v.len() > 0
        invariant
            v0.len() == 2 * m,
            v.len() % 2 == 0,
            v.len() <= v0.len(),
            v@ == v0.subrange(0, v.len() as int),
            rev.len() == m - v.len() / 2,
            forall|j: int| 0 <= j < rev.len() ==> {
                &&& (#[trigger] rev@[j]).slot() == (false, combine(v0[2 * (m - 1 - j)].slot(), v0[2 * (m - 1 - j) + 1].slot()))
                &&& rev@[j].contents() == v0[2 * (m - 1 - j)].contents() + v0[2 * (m - 1 - j) + 1].contents()
                &&& (all_valid(v0) ==> rev@[j].valid())
            },
        decreases v.len(),
    {
        let right = v.pop().unwrap();
        let left = v.pop().unwrap();
        proof {
            if all_valid(v0) {
                assert(v0[v.len() as int].valid());
                assert(v0[v.len() + 1].valid());
            }
        }
        let b = make_branch(left, right);
        rev.push(b);
    }
    let mut out: Vec<MerkleNode> = Vec::new();
    proof {
        assert(v0.subrange(0, 0) =~= Seq::<MerkleNode>::empty());
    }
    while rev.len() > 0
        invariant
            v0.len() == 2 * m,
            out.len() + rev.len() == m,
            forall|j: int| 0 <= j < rev.len() ==> {
                &&& (#[trigger] rev@[j]).slot() == (false, combine(v0[2 * (m - 1 - j)].slot(), v0[2 * (m - 1 - j) + 1].slot()))
                &&& rev@[j].contents() == v0[2 * (m - 1 - j)].contents() + v0[2 * (m - 1 - j) + 1].contents()
                &&& (all_valid(v0) ==> rev@[j].valid())
            },
            forall|j: int| 0 <= j < out.len() ==> {
                &&& (#[trigger] out@[j]).slot() == (false, combine(v0[2 * j].slot(), v0[2 * j + 1].slot()))
                &&& (all_valid(v0) ==> out@[j].valid())
            },
            all_contents(out@) == all_contents(v0.subrange(0, 2 * out.len())),
        decreases rev.len(),
    {
        let ghost k = out.len() as int;
        let b = rev.pop().unwrap();
        let ghost old_out = out@;
        out.push(b);
        proof {
            lemma_all_contents_push(old_out, b);
            let a = v0.subrange(0, 2 * k);
            let a1 = v0.subrange(0, 2 * k + 1);
            let a2 = v0.subrange(0, 2 * k + 2);
            assert(a2.drop_last() =~= a1);
            assert(a1.drop_last() =~= a);
            assert(all_contents(a2) == all_contents(a1) + v0[2 * k + 1].contents());
            assert(all_contents(a1) == all_contents(a) + v0[2 * k].contents());
            assert(all_contents(a2) =~= all_contents(a) + (v0[2 * k].contents() + v0[2 * k + 1].contents()));
        }
    }
    proof {
        assert(v0.subrange(0, 2 * m) =~= v0);
        assert(slots(out@) =~= level_up(slots(v0)));
    }
    out
}

/// Build a tree from nodes: a single node is the root; otherwise the nodes are
/// padded to a power of two and paired up level by level.
fn build_tree(nodes: Vec<MerkleNode>) -> (root: MerkleNode)
    requires
        nodes.len() <= usize::MAX / 2,
    ensures
        root.spec_hash() == (if nodes.len() == 0 {
            zero_hash()
        } else if nodes.len() == 1 {
            nodes@[0].spec_hash()
        } else {
            fold_levels(pad_slots(slots(nodes@)))
        }),
        root.contents() == all_contents(nodes@),
        all_valid(nodes@) ==> root.valid(),
{
    let ghost n0 = nodes@;
    let mut nodes = nodes;
    if nodes.len() == 0 {
        return MerkleNode::Empty;
    }
    if nodes.len() == 1 {
        proof {
            assert(n0.drop_last() =~= Seq::<MerkleNode>::empty());
            assert(all_contents(n0.drop_last()) == Seq::<Seq<char>>::empty());
            assert(all_contents(n0) == all_contents(n0.drop_last()) + n0.last().contents());
            assert(all_contents(n0) =~= n0[0].contents());
        }
        return nodes.pop().unwrap();
    }
    let size = next_power_of_two(nodes.len());
    proof {
        lemma_pow2_from(n0.len(), 1);
    }
    while nodes.len() < size
        invariant
            n0.len() <= nodes.len() <= size,
            slots(nodes@) == slots(n0) + Seq::new((nodes.len() - n0.len()) as nat, |i: int| (true, zero_hash())),
            all_contents(nodes@) == all_contents(n0),
            all_valid(n0) ==> all_valid(nodes@),
            forall|i: int| n0.len() <= i < nodes.len() ==> (#[trigger] nodes@[i]) is Empty,
            forall|i: int| 0 <= i < n0.len() ==> #[trigger] nodes@[i] == n0[i],
        decreases size - nodes.len(),
    {
        let ghost old_nodes = nodes@;
        nodes.push(MerkleNode::Empty);
        proof {
            lemma_all_contents_push(old_nodes, MerkleNode::Empty);
            assert(all_contents(nodes@) =~= all_contents(old_nodes));
            assert(slots(nodes@) =~= slots(n0) + Seq::new((nodes.len() - n0.len()) as nat, |i: int| (true, zero_hash())));
        }
    }
    proof {
        assert(slots(nodes@) =~= pad_slots(slots(n0)));
    }
    let mut current = nodes;
    while current.len() > 1
        invariant
            current.len() >= 1,
            is_pow2(current.len() as nat),
            fold_levels(slots(current@)) == fold_levels(pad_slots(slots(n0))),
            all_contents(current@) == all_contents(n0),
            all_valid(n0) ==> all_valid(current@),
        decreases current.len(),
    {
        let ghost before = current@;
        current = pair_up(current);
        proof {
            assert(is_pow2((before.len() / 2) as nat));
        }
    }
    let root = current.pop().unwrap();
    proof {
        assert(current@ =~= Seq::<MerkleNode>::empty());
        assert(all_contents(seq![root]) == all_contents(Seq::<MerkleNode>::empty()) + root.contents()) by {
            assert(seq![root].drop_last() =~= Seq::<MerkleNode>::empty());
        }
        assert(all_contents(seq![root]) =~= root.contents());
        if all_valid(n0) {
            assert(seq![root][0].valid());
        }
    }
    root
}

/// The distinctions under `a` that a comparison with `b` reports: nothing where
/// the hashes agree; otherwise leaf against leaf reports `a`'s ID when the IDs
/// differ, a leaf against anything else reports the leaf, branches are compared
/// child by child, and a branch against anything else reports all of `a`.
pub open spec fn diff_spec(a: MerkleNode, b: MerkleNode) -> Set<Seq<char>>
    decreases a,
{
    if a.spec_hash() == b.spec_hash() {
        Set::empty()
    } else {
        match a {
            MerkleNode::Leaf { distinction_id, .. } => match b {
                MerkleNode::Leaf { distinction_id: other_id, .. } => {
                    if distinction_id@ != other_id@ {
                        Set::empty().insert(distinction_id@)
                    } else {
                        Set::empty()
                    }
                },
                _ => Set::empty().insert(distinction_id@),
            },
            MerkleNode::Branch { left, right, .. } => match b {
                MerkleNode::Branch { left: other_left, right: other_right, .. } => diff_spec(
                    *left,
                    *other_left,
                ).union(diff_spec(*right, *other_right)),
                _ => a.contents().to_set(),
            },
            MerkleNode::Empty => Set::empty(),
        }
    }
}

/// Adds `s` to `v` unless an equal string is already there.
fn push_unique(v: &mut Vec<String>, s: String)
    requires
        views(old(v)@).no_duplicates(),
    ensures
        views(final(v)@).no_duplicates(),
        views(final(v)@).to_set() == views(old(v)@).to_set().insert(s@),
{
    let mut i: usize = 0;
    while i < v.len()
        invariant
            v@ == old(v)@,
            views(v@).no_duplicates(),
            i <= v.len(),
            forall|j: int| 0 <= j < i ==> (#[trigger] v@[j])@ != s@,
        decreases v.len() - i,
    {
        if v[i] == s {
            proof {
                assert(views(v@)[i as int] == s@);
                assert(views(v@).to_set() =~= views(v@).to_set().insert(s@));
            }
            return;
        }
        i = i + 1;
    }
    let ghost old_v = v@;
    v.push(s);
    proof {
        assert(views(v@) =~= views(old_v).push(s@));
        views(old_v).lemma_push_to_set_commute(s@);
        assert(!views(old_v).contains(s@));
    }
}

/// Adds every distinction under `node` to `result`, skipping ones already there.
fn collect_unique(node: &MerkleNode, result: &mut Vec<String>)
    requires
        views(old(result)@).no_duplicates(),
    ensures
        views(final(result)@).no_duplicates(),
        views(final(result)@).to_set() == views(old(result)@).to_set() + node.contents().to_set(),
    decreases node,
{
    match node {
        MerkleNode::Leaf { distinction_id, .. } => {
            push_unique(result, distinction_id.clone());
            proof {
                crate::strings::lemma_singleton_to_set(distinction_id@);
            }
        },
        MerkleNode::Branch { left, right, .. } => {
            collect_unique(left, result);
            collect_unique(right, result);
            proof {
                assert(node.contents().to_set() =~= (*left).contents().to_set() + (*right).contents().to_set()) by {
                    crate::strings::lemma_concat_to_set((*left).contents(), (*right).contents());
                }
            }
        },
        MerkleNode::Empty => {
            proof {
                assert(node.contents().to_set() =~= Set::<Seq<char>>::empty());
            }
        },
    }
}

/// Adds to `missing` the distinctions `diff_spec(a, b)` reports.
fn diff_nodes(a: &MerkleNode, b: &MerkleNode, missing: &mut Vec<String>)
    requires
        views(old(missing)@).no_duplicates(),
    ensures
        views(final(missing)@).no_duplicates(),
        views(final(missing)@).to_set() == views(old(missing)@).to_set() + diff_spec(*a, *b),
    decreases a,
{
    if hash_eq(&a.hash(), &b.hash()) {
        proof {
            assert(views(missing@).to_set() =~= views(missing@).to_set() + Set::<Seq<char>>::empty());
        }
        return;
    }
    match a {
        MerkleNode::Leaf { distinction_id, .. } => {
            match b {
                MerkleNode::Leaf { distinction_id: other_id, .. } => {
                    if !(*distinction_id == *other_id) {
                        push_unique(missing, distinction_id.clone());
                        proof {
                            assert(views(missing@).to_set() =~= views(old(missing)@).to_set() + Set::empty().insert(distinction_id@));
                        }
                    } else {
                        proof {
                            assert(views(missing@).to_set() =~= views(missing@).to_set() + Set::<Seq<char>>::empty());
                        }
                    }
                },
                _ => {
                    push_unique(missing, distinction_id.clone());
                    proof {
                        assert(views(missing@).to_set() =~= views(old(missing)@).to_set() + Set::empty().insert(distinction_id@));
                    }
                },
            }
        },
        MerkleNode::Branch { left, right, .. } => {
            match b {
                MerkleNode::Branch { left: other_left, right: other_right, .. } => {
                    diff_nodes(left, other_left, missing);
                    diff_nodes(right, other_right, missing);
                    proof {
                        assert(views(missing@).to_set() =~= views(old(missing)@).to_set() + diff_spec(*a, *b));
                    }
                },
                _ => {
                    collect_unique(a, missing);
                },
            }
        },
        MerkleNode::Empty => {
            proof {
                assert(views(missing@).to_set() =~= views(missing@).to_set() + Set::<Seq<char>>::empty());
            }
        },
    }
}

/// Appends the distinctions under `node` to `result`, left to right.
fn collect_distinctions(node: &MerkleNode, result: &mut Vec<String>)
    ensures
        views(final(result)@) == views(old(result)@) + node.contents(),
    decreases node,
{
    match node {
        MerkleNode::Leaf { distinction_id, .. } => {
            let ghost before = result@;
            result.push(distinction_id.clone());
            proof {
                assert(views(result@) =~= views(before) + node.contents());
            }
        },
        MerkleNode::Branch { left, right, .. } => {
            let ghost before = views(result@);
            collect_distinctions(left, result);
            collect_distinctions(right, result);
            proof {
                assert(views(result@) =~= before + node.contents());
            }
        },
        MerkleNode::Empty => {
            proof {
                assert(views(result@) =~= views(result@) + node.contents());
            }
        },
    }
}

/// Whether every hash under `node` is the one its children (or ID) determine.
fn verify_node(node: &MerkleNode) -> (r: bool)
    ensures
        r == node.valid(),
    decreases node,
{
    match node {
        MerkleNode::Leaf { distinction_id, hash } => {
            let expected = hash_distinction(distinction_id.as_str());
            hash_eq(hash, &expected)
        },
        MerkleNode::Branch { hash, left, right } => {
            let expected = branch_hash(left, right);
            if !hash_eq(hash, &expected) {
                return false;
            }
            if !verify_node(left) {
                return false;
            }
            verify_node(right)
        },
        MerkleNode::Empty => true,
    }
}

/// Merkle tree for distinction set reconciliation.
#[derive(Debug)]
pub struct MerkleTree {
    /// Root node of the tree.
    root: MerkleNode,
    /// Number of distinctions in the tree.
    size: usize,
}

impl MerkleTree {
    /// The root node.
    pub closed spec fn spec_root(&self) -> MerkleNode {
        self.root
    }

    /// The number of distinctions the tree was built from.
    pub closed spec fn spec_size(&self) -> usize {
        self.size
    }

    /// Create an empty Merkle tree.
    pub fn empty() -> (t: Self)
        ensures
            t.spec_root() is Empty,
            t.spec_size() == 0,
    {
        MerkleTree { root: MerkleNode::Empty, size: 0 }
    }

    /// Build a Merkle tree from distinction IDs. They are sorted first, so the
    /// structure (and root hash) depends only on which distinctions are given.
    pub fn from_distinctions(distinctions: &[String]) -> (t: Self)
        requires
            distinctions@.len() <= usize::MAX / 2,
        ensures
            t.spec_size() == distinctions@.len(),
            t.spec_root().valid(),
            t.spec_root().contents() == views(distinctions@).sort_by(chars_leq()),
            t.spec_root().spec_hash() == tree_root_hash(views(distinctions@)),
            distinctions@.len() == 0 <==> t.spec_root() is Empty,
    {
        if distinctions.len() == 0 {
            proof {
                assert(views(distinctions@) =~= Seq::<Seq<char>>::empty());
                broadcast use vstd::seq_lib::group_to_multiset_ensures;
                crate::strings::lemma_chars_leq_total_ordering();
                views(distinctions@).lemma_sort_by_ensures(chars_leq());
                assert(views(distinctions@).sort_by(chars_leq()).to_multiset().len() == 0);
                assert(views(distinctions@).sort_by(chars_leq()) =~= Seq::<Seq<char>>::empty());
            }
            return Self::empty();
        }
        let mut copied: Vec<String> = Vec::new();
        let mut i: usize = 0;
        while i < distinctions.len()
            invariant
                i <= distinctions@.len(),
                copied@ == distinctions@.subrange(0, i as int),
            decreases distinctions@.len() - i,
        {
            copied.push(distinctions[i].clone());
            i = i + 1;
        }
        assert(copied@ =~= distinctions@);
        let sorted = sort_strings(copied);
        let ghost ids = views(sorted@);
        proof {
            vstd::seq_lib::to_multiset_len(sorted@);
            vstd::seq_lib::to_multiset_len(distinctions@);
            assert(sorted@.len() == distinctions@.len());
        }
        let mut leaves: Vec<MerkleNode> = Vec::new();
        let mut j: usize = 0;
        while j < sorted.len()
            invariant
                j <= sorted@.len(),
                ids == views(sorted@),
                leaves@.len() == j,
                slots(leaves@) == leaf_slots(ids).subrange(0, j as int),
                all_contents(leaves@) == ids.subrange(0, j as int),
                all_valid(leaves@),
                forall|q: int| 0 <= q < j ==> (#[trigger] leaves@[q]) is Leaf,
            decreases sorted@.len() - j,
        {
            let hash = hash_distinction(sorted[j].as_str());
            let leaf = MerkleNode::Leaf { distinction_id: sorted[j].clone(), hash };
            let ghost before = leaves@;
            leaves.push(leaf);
            proof {
                lemma_all_contents_push(before, leaf);
                assert(ids.subrange(0, j + 1) =~= ids.subrange(0, j as int) + leaf.contents());
                assert(slots(leaves@) =~= leaf_slots(ids).subrange(0, j + 1));
            }
            j = j + 1;
        }
        proof {
            assert(slots(leaves@) =~= leaf_slots(ids));
            assert(ids.subrange(0, ids.len() as int) =~= ids);
        }
        let ghost leaves_seq = leaves@;
        let root = build_tree(leaves);
        proof {
            if leaves_seq.len() == 1 {
                assert(leaf_slots(ids)[0] == leaves_seq[0].slot());
            }
        }
        MerkleTree { root, size: distinctions.len() }
    }

    /// A copy of this tree.
    pub fn duplicate(&self) -> (r: Self)
        ensures
            r.spec_root() == self.spec_root(),
            r.spec_size() == self.spec_size(),
    {
        MerkleTree { root: self.root.duplicate(), size: self.size }
    }

    /// Get the root hash. Trees built from the same distinctions have the same root hash.
    pub fn root_hash(&self) -> (h: [u8; 32])
        ensures
            h@ == self.spec_root().spec_hash(),
    {
        self.root.hash()
    }

    /// Get the number of distinctions.
    pub fn size(&self) -> (r: usize)
        ensures
            r == self.spec_size(),
    {
        self.size
    }

    /// Check if this tree is empty.
    pub fn is_empty(&self) -> (r: bool)
        ensures
            r == (self.spec_size() == 0),
    {
        self.size == 0
    }

    /// Compare with another tree: the distinctions of `self` that the comparison
    /// reports as possibly missing from `other`, each once.
    pub fn diff(&self, other: &MerkleTree) -> (r: Vec<String>)
        ensures
            views(r@).no_duplicates(),
            views(r@).to_set() == diff_spec(self.spec_root(), other.spec_root()),
            forall|d: Seq<char>| #[trigger] views(r@).contains(d) ==> self.spec_root().contents().contains(d),
            hashes_faithful(self.spec_root(), other.spec_root()) ==> forall|d: Seq<char>|
                self.spec_root().contents().contains(d) && !other.spec_root().contents().contains(d) ==> #[trigger] views(r@).contains(d),
    {
        let mut missing: Vec<String> = Vec::new();
        proof {
            assert(views(missing@) =~= Seq::<Seq<char>>::empty());
        }
        diff_nodes(&self.root, &other.root, &mut missing);
        proof {
            assert(views(missing@).to_set() =~= diff_spec(self.root, other.root));
            lemma_diff_within(self.root, other.root);
            assert forall|d: Seq<char>| #[trigger] views(missing@).contains(d) implies self.root.contents().contains(d) by {
                assert(views(missing@).to_set().contains(d));
                assert(self.root.contents().to_set().contains(d));
            }
            if hashes_faithful(self.root, other.root) {
                law_diff_complete(self.root, other.root);
                assert forall|d: Seq<char>| self.root.contents().contains(d) && !other.root.contents().contains(d)
                    implies #[trigger] views(missing@).contains(d) by {
                    assert(diff_spec(self.root, other.root).contains(d));
                    assert(views(missing@).to_set().contains(d));
                }
            }
        }
        missing
    }

    /// Get all distinction IDs in the tree, in sorted order.
    pub fn distinctions(&self) -> (r: Vec<String>)
        ensures
            views(r@) == self.spec_root().contents(),
    {
        let mut result: Vec<String> = Vec::new();
        proof {
            assert(views(result@) =~= Seq::<Seq<char>>::empty());
        }
        collect_distinctions(&self.root, &mut result);
        proof {
            assert(views(result@) =~= self.root.contents());
        }
        result
    }

    /// Verify the tree integrity: every stored hash matches its children.
    pub fn verify(&self) -> (r: bool)
        ensures
            r == self.spec_root().valid(),
    {
        verify_node(&self.root)
    }
}

/// Order does not matter: two collections holding the same distinctions (as a
/// multiset) give trees with the same leaves in the same order and the same root hash.
pub proof fn lemma_root_hash_order_independent(a: Seq<Seq<char>>, b: Seq<Seq<char>>)
    requires
        a.to_multiset() == b.to_multiset(),
    ensures
        a.sort_by(chars_leq()) == b.sort_by(chars_leq()),
        tree_root_hash(a) == tree_root_hash(b),
{
    crate::strings::lemma_chars_leq_total_ordering();
    a.lemma_sort_by_ensures(chars_leq());
    b.lemma_sort_by_ensures(chars_leq());
    vstd::seq_lib::lemma_sorted_unique(a.sort_by(chars_leq()), b.sort_by(chars_leq()), chars_leq());
}

/// A comparison only ever reports distinctions that are under the compared node.
pub proof fn lemma_diff_within(a: MerkleNode, b: MerkleNode)
    ensures
        diff_spec(a, b).subset_of(a.contents().to_set()),
    decreases a,
{
    if a.spec_hash() != b.spec_hash() {
        match a {
            MerkleNode::Leaf { distinction_id, .. } => {
                crate::strings::lemma_singleton_to_set(distinction_id@);
            },
            MerkleNode::Branch { left, right, .. } => {
                crate::strings::lemma_concat_to_set((*left).contents(), (*right).contents());
                match b {
                    MerkleNode::Branch { left: other_left, right: other_right, .. } => {
                        lemma_diff_within(*left, *other_left);
                        lemma_diff_within(*right, *other_right);
                    },
                    _ => {},
                }
            },
            MerkleNode::Empty => {},
        }
    }
}

/// Comparing a node with itself reports nothing.
pub proof fn lemma_diff_identical(a: MerkleNode)
    ensures
        diff_spec(a, a) == Set::<Seq<char>>::empty(),
{
}

/// Trees whose root hashes are those of the same distinctions (in any order)
/// report nothing missing from each other.
pub proof fn lemma_diff_same_distinctions(a: MerkleNode, b: MerkleNode, xs: Seq<Seq<char>>, ys: Seq<Seq<char>>)
    requires
        a.spec_hash() == tree_root_hash(xs),
        b.spec_hash() == tree_root_hash(ys),
        xs.to_multiset() == ys.to_multiset(),
    ensures
        diff_spec(a, b) == Set::<Seq<char>>::empty(),
        diff_spec(b, a) == Set::<Seq<char>>::empty(),
{
    lemma_root_hash_order_independent(xs, ys);
}

/// Whether the hashes of `a` and `b`, and of the child pairs a comparison walks
/// into, are faithful: wherever two compared nodes have the same hash, every
/// distinction under the first is under the second (as a collision-free hash gives).
pub open spec fn hashes_faithful(a: MerkleNode, b: MerkleNode) -> bool
    decreases a,
{
    &&& (a.spec_hash() == b.spec_hash() ==> forall|d: Seq<char>| #[trigger] a.contents().contains(d) ==> b.contents().contains(d))
    &&& match a {
        MerkleNode::Branch { left, right, .. } => match b {
            MerkleNode::Branch { left: other_left, right: other_right, .. } =>
                hashes_faithful(*left, *other_left) && hashes_faithful(*right, *other_right),
            _ => true,
        },
        _ => true,
    }
}

/// Completeness of a comparison: with faithful hashes, every distinction under
/// `a` that is not under `b` is reported.
pub proof fn law_diff_complete(a: MerkleNode, b: MerkleNode)
    requires
        hashes_faithful(a, b),
    ensures
        forall|d: Seq<char>| a.contents().contains(d) && !b.contents().contains(d) ==> #[trigger] diff_spec(a, b).contains(d),
    decreases a,
{
    if a.spec_hash() != b.spec_hash() {
        match a {
            MerkleNode::Leaf { distinction_id, .. } => {
                assert forall|d: Seq<char>| a.contents().contains(d) && !b.contents().contains(d) implies #[trigger] diff_spec(a, b).contains(d) by {
                    assert(a.contents()[0] == distinction_id@);
                    assert(d == distinction_id@);
                    match b {
                        MerkleNode::Leaf { distinction_id: other_id, .. } => {
                            assert(b.contents()[0] == other_id@);
                            assert(b.contents().contains(other_id@));
                        },
                        _ => {},
                    }
                }
            },
            MerkleNode::Branch { left, right, .. } => {
                match b {
                    MerkleNode::Branch { left: other_left, right: other_right, .. } => {
                        law_diff_complete(*left, *other_left);
                        law_diff_complete(*right, *other_right);
                        assert forall|d: Seq<char>| a.contents().contains(d) && !b.contents().contains(d) implies #[trigger] diff_spec(a, b).contains(d) by {
                            let lc = (*left).contents();
                            let rc = (*right).contents();
                            let olc = (*other_left).contents();
                            let orc = (*other_right).contents();
                            if olc.contains(d) {
                                let k = choose|k: int| 0 <= k < olc.len() && olc[k] == d;
                                assert((olc + orc)[k] == d);
                            }
                            if orc.contains(d) {
                                let k = choose|k: int| 0 <= k < orc.len() && orc[k] == d;
                                assert((olc + orc)[olc.len() + k] == d);
                            }
                            assert(b.contents() == olc + orc);
                            assert(a.contents() == lc + rc);
                            let k = choose|k: int| 0 <= k < (lc + rc).len() && (lc + rc)[k] == d;
                            if k < lc.len() {
                                assert(lc[k] == d);
                                assert(lc.contains(d));
                                assert(diff_spec(*left, *other_left).contains(d));
                            } else {
                                assert(rc[k - lc.len()] == d);
                                assert(rc.contains(d));
                                assert(diff_spec(*right, *other_right).contains(d));
                            }
                        }
                    },
                    _ => {
                        assert forall|d: Seq<char>| a.contents().contains(d) && !b.contents().contains(d) implies #[trigger] diff_spec(a, b).contains(d) by {
                            let k = choose|k: int| 0 <= k < a.contents().len() && a.contents()[k] == d;
                        }
                    },
                }
            },
            MerkleNode::Empty => {},
        }
    }
}

/// Completeness for trees: for trees holding `xs` and `ys` (sorted, as built),
/// with faithful hashes, every distinction of `xs` that `ys` lacks is reported.
pub proof fn law_tree_diff_complete(a: MerkleTree, b: MerkleTree, xs: Seq<Seq<char>>, ys: Seq<Seq<char>>)
    requires
        a.spec_root().contents() == xs.sort_by(chars_leq()),
        b.spec_root().contents() == ys.sort_by(chars_leq()),
        hashes_faithful(a.spec_root(), b.spec_root()),
    ensures
        forall|d: Seq<char>| xs.contains(d) && !ys.contains(d) ==> #[trigger] diff_spec(a.spec_root(), b.spec_root()).contains(d),
{
    broadcast use vstd::seq_lib::group_to_multiset_ensures;
    crate::strings::lemma_chars_leq_total_ordering();
    xs.lemma_sort_by_ensures(chars_leq());
    ys.lemma_sort_by_ensures(chars_leq());
    law_diff_complete(a.spec_root(), b.spec_root());
    assert forall|d: Seq<char>| xs.contains(d) && !ys.contains(d) implies #[trigger] diff_spec(a.spec_root(), b.spec_root()).contains(d) by {
        assert(xs.to_multiset().count(d) > 0);
        assert(a.spec_root().contents().contains(d));
        if b.spec_root().contents().contains(d) {
            assert(ys.sort_by(chars_leq()).to_multiset().count(d) > 0);
            assert(ys.contains(d));
        }
    }
}

/// Comparing a node whose hash is not all zeros with the empty node reports
/// every distinction under it.
pub proof fn lemma_diff_against_empty(a: MerkleNode)
    requires
        a.spec_hash() != zero_hash(),
    ensures
        diff_spec(a, MerkleNode::Empty) == a.contents().to_set(),
{
    match a {
        MerkleNode::Leaf { distinction_id, .. } => {
            crate::strings::lemma_singleton_to_set(distinction_id@);
        },
        _ => {},
    }
}

} // verus!
