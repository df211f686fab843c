//! Bloom filter for probabilistic set membership: "definitely not in the set"
//! answers are always right (no false negatives); "maybe in the set" may be a
//! false positive.

use vstd::prelude::*;
use crate::hashing::{default_hash, default_hash_of};
use crate::strings::views;

verus! {

/// Bit index that hash function number `seed` picks for `item` in a filter of `m` bits.
pub open spec fn bit_index(item: Seq<char>, seed: int, m: usize) -> int {
    ((default_hash_of(item, seed as usize) as usize) % m) as int
}

/// Whether all `k` bits that `item` hashes to are set.
pub open spec fn all_bits_set(bits: Seq<bool>, k: usize, m: usize, item: Seq<char>) -> bool {
    forall|i: int| 0 <= i < k ==> #[trigger] bits[bit_index(item, i, m)]
}

/// Whether position `j` is one of the `k` positions that `item` hashes to.
pub open spec fn is_item_bit(k: usize, m: usize, item: Seq<char>, j: int) -> bool {
    exists|i: int| 0 <= i < k && #[trigger] bit_index(item, i, m) == j
}

/// The bit array after inserting `item`: its `k` positions are set, all others kept.
pub open spec fn bits_after_insert(bits: Seq<bool>, k: usize, m: usize, item: Seq<char>) -> Seq<bool> {
    Seq::new(bits.len(), |j: int| bits[j] || is_item_bit(k, m, item, j))
}

/// The bit array after inserting every item of `items`, in order.
pub open spec fn bits_after_all(bits: Seq<bool>, k: usize, m: usize, items: Seq<Seq<char>>) -> Seq<bool>
    decreases items.len(),
{
    if items.len() == 0 {
        bits
    } else {
        bits_after_insert(bits_after_all(bits, k, m, items.drop_last()), k, m, items.last())
    }
}

/// No false negatives: right after `item` is inserted, every bit it hashes to is set.
pub proof fn lemma_no_false_negatives(bits: Seq<bool>, k: usize, m: usize, item: Seq<char>)
    requires
        bits.len() == m,
        m > 0 || k == 0,
    ensures
        all_bits_set(bits_after_insert(bits, k, m, item), k, m, item),
{
    assert forall|i: int| 0 <= i < k implies #[trigger] bits_after_insert(bits, k, m, item)[bit_index(item, i, m)] by {
        assert(is_item_bit(k, m, item, bit_index(item, i, m)));
    }
}

/// Inserting never removes anything: an item that may have been in the set still may be.
pub proof fn lemma_insert_keeps_members(bits: Seq<bool>, k: usize, m: usize, x: Seq<char>, y: Seq<char>)
    requires
        bits.len() == m,
        m > 0 || k == 0,
        all_bits_set(bits, k, m, y),
    ensures
        all_bits_set(bits_after_insert(bits, k, m, x), k, m, y),
{
    assert forall|i: int| 0 <= i < k implies #[trigger] bits_after_insert(bits, k, m, x)[bit_index(y, i, m)] by {
        assert(bits[bit_index(y, i, m)]);
    }
}

/// A filter with every bit clear and at least one hash function contains nothing.
pub proof fn lemma_cleared_contains_nothing(m: usize, k: usize, item: Seq<char>)
    requires
        m > 0,
        k > 0,
    ensures
        !all_bits_set(Seq::new(m as nat, |j: int| false), k, m, item),
{
    assert(!Seq::new(m as nat, |j: int| false)[bit_index(item, 0, m)]);
}

/// Bloom filter for distinction set membership.
#[derive(Debug, Clone)]
pub struct BloomFilter {
    /// Bit array.
    bits: Vec<bool>,
    /// Number of hash functions.
    k: usize,
    /// Size of bit array.
    m: usize,
    /// Number of items inserted.
    n: usize,
}

impl BloomFilter {
    /// The bit array.
    pub closed spec fn bits(&self) -> Seq<bool> {
        self.bits@
    }

    /// Number of hash functions.
    pub closed spec fn hash_count(&self) -> usize {
        self.k
    }

    /// Size of the bit array.
    pub closed spec fn bit_count(&self) -> usize {
        self.m
    }

    /// Number of insertions made.
    pub closed spec fn inserted(&self) -> usize {
        self.n
    }

    /// The bit array has `m` entries.
    pub closed spec fn wf(&self) -> bool {
        self.bits@.len() == self.m
    }

    /// A well-formed filter's bit array has `bit_count()` entries.
    pub proof fn lemma_wf_len(&self)
        requires
            self.wf(),
        ensures
            self.bits().len() == self.bit_count(),
    {
    }

    /// Whether `item` may be in the set, over the model.
    pub open spec fn contains_spec(&self, item: Seq<char>) -> bool {
        all_bits_set(self.bits(), self.hash_count(), self.bit_count(), item)
    }

    /// Whether the filter can hash items: it has a bit, or it uses no hash function.
    pub open spec fn can_hash(&self) -> bool {
        self.bit_count() > 0 || self.hash_count() == 0
    }

    /// Create a Bloom filter with `m` bits and `k` hash functions, all bits clear.
    pub fn with_dimensions(m: usize, k: usize) -> (f: Self)
        ensures
            f.wf(),
            f.bits() == Seq::new(m as nat, |j: int| false),
            f.hash_count() == k,
            f.bit_count() == m,
            f.inserted() == 0,
    {
        let mut bits: Vec<bool> = Vec::new();
        let mut j: usize = 0;
        while j < m
            invariant
                j <= m,
                bits@ == Seq::new(j as nat, |x: int| false),
            decreases m - j,
        {
            bits.push(false);
            j = j + 1;
        }
        BloomFilter { bits, k, m, n: 0 }
    }

    /// Bit index that hash function `seed` picks for `item`.
    fn hash(&self, item: &str, seed: usize) -> (idx: usize)
        requires
            self.bit_count() > 0,
        ensures
            idx == bit_index(item@, seed as int, self.bit_count()),
            idx < self.bit_count(),
    {
        let h = default_hash(item, seed);
        (h as usize) % self.m
    }

    /// Insert an item into the filter: the `k` bits it hashes to are set and the
    /// insertion count grows by one.
    pub fn insert(&mut self, item: &str)
        requires
            old(self).wf(),
            old(self).can_hash(),
            old(self).inserted() < usize::MAX,
        ensures
            final(self).wf(),
            final(self).bits() == bits_after_insert(old(self).bits(), old(self).hash_count(), old(self).bit_count(), item@),
            final(self).hash_count() == old(self).hash_count(),
            final(self).bit_count() == old(self).bit_count(),
            final(self).inserted() == old(self).inserted() + 1,
            final(self).contains_spec(item@),
            forall|y: Seq<char>| #[trigger] old(self).contains_spec(y) ==> final(self).contains_spec(y),
    {
        let ghost k = self.k;
        let ghost m = self.m;
        let ghost old_bits = self.bits@;
        let mut i: usize = 0;
        while i < self.k
            invariant
                self.k == k,
                self.m == m,
                self.n == old(self).n,
                m > 0 || k == 0,
                i <= k,
                self.bits@.len() == m,
                old_bits.len() == m,
                forall|j: int| 0 <= j < m ==> #[trigger] self.bits@[j] == (old_bits[j]
                    || exists|s: int| 0 <= s < i && #[trigger] bit_index(item@, s, m) == j),
            decreases k - i,
        {
            let idx = self.hash(item, i);
            self.bits.set(idx, true);
            proof {
                assert forall|j: int| 0 <= j < m implies #[trigger] self.bits@[j] == (old_bits[j]
                    || exists|s: int| 0 <= s < i + 1 && #[trigger] bit_index(item@, s, m) == j) by {
                    if j == idx as int {
                        assert(bit_index(item@, i as int, m) == j);
                    }
                }
            }
            i = i + 1;
        }
        self.n = self.n + 1;
        proof {
            assert(self.bits@ =~= bits_after_insert(old_bits, k, m, item@));
            lemma_no_false_negatives(old_bits, k, m, item@);
            assert forall|y: Seq<char>| #[trigger] old(self).contains_spec(y) implies self.contains_spec(y) by {
                lemma_insert_keeps_members(old_bits, k, m, item@, y);
            }
        }
    }

    /// Whether `item` might be in the set: `true` when every bit it hashes to is set.
    /// A `false` answer means the item was never inserted.
    pub fn might_contain(&self, item: &str) -> (r: bool)
        requires
            self.wf(),
            self.can_hash(),
        ensures
            r == self.contains_spec(item@),
    {
        let mut i: usize = 0;
        while i < self.k
            invariant
                self.wf(),
                self.can_hash(),
                i <= self.k,
                forall|s: int| 0 <= s < i ==> #[trigger] self.bits@[bit_index(item@, s, self.m)],
            decreases self.k - i,
        {
            let idx = self.hash(item, i);
            if !self.bits[idx] {
                return false;
            }
            i = i + 1;
        }
        true
    }

    /// Whether `item` is definitely not in the set (the negation of `might_contain`).
    pub fn definitely_not_contain(&self, item: &str) -> (r: bool)
        requires
            self.wf(),
            self.can_hash(),
        ensures
            r == !self.contains_spec(item@),
    {
        !self.might_contain(item)
    }

    /// Number of items inserted.
    pub fn len(&self) -> (r: usize)
        ensures
            r == self.inserted(),
    {
        self.n
    }

    /// Whether nothing has been inserted.
    pub fn is_empty(&self) -> (r: bool)
        ensures
            r == (self.inserted() == 0),
    {
        self.n == 0
    }

    /// Size of the bit array in bytes, rounded up.
    pub fn size_in_bytes(&self) -> (r: usize)
        ensures
            r == (self.bit_count() as int + 7) / 8,
    {
        self.m / 8 + if self.m % 8 == 0 { 0 } else { 1 }
    }

    /// Clear all bits and the insertion count.
    pub fn clear(&mut self)
        requires
            old(self).wf(),
        ensures
            final(self).wf(),
            final(self).bits() == Seq::new(old(self).bit_count() as nat, |j: int| false),
            final(self).hash_count() == old(self).hash_count(),
            final(self).bit_count() == old(self).bit_count(),
            final(self).inserted() == 0,
    {
        let mut j: usize = 0;
        while j < self.bits.len()
            invariant
                self.m == old(self).m,
                self.k == old(self).k,
                self.bits@.len() == self.m,
                j <= self.m,
                forall|x: int| 0 <= x < j ==> self.bits@[x] == false,
            decreases self.m - j,
        {
            self.bits.set(j, false);
            j = j + 1;
        }
        self.n = 0;
        proof {
            assert(self.bits@ =~= Seq::new(self.m as nat, |x: int| false));
        }
    }
}

/// A filter with `m` bits and `k` hash functions holding every item of `items`.
pub(crate) fn filter_of(items: &[String], m: usize, k: usize) -> (f: BloomFilter)
    requires
        m > 0 || k == 0,
    ensures
        f.wf(),
        f.hash_count() == k,
        f.bit_count() == m,
        f.inserted() == items@.len(),
        f.bits() == bits_after_all(Seq::new(m as nat, |j: int| false), k, m, views(items@)),
        forall|i: int| 0 <= i < items@.len() ==> f.contains_spec(#[trigger] items@[i]@),
{
    let mut f = BloomFilter::with_dimensions(m, k);
    let ghost zero = Seq::new(m as nat, |j: int| false);
    let mut i: usize = 0;
    proof {
        assert(views(items@).take(0) =~= Seq::<Seq<char>>::empty());
    }
    while i < items.len()
        invariant
            i <= items@.len(),
            f.wf(),
            f.hash_count() == k,
            f.bit_count() == m,
            m > 0 || k == 0,
            f.inserted() == i,
            f.bits() == bits_after_all(zero, k, m, views(items@).take(i as int)),
            forall|j: int| 0 <= j < i ==> f.contains_spec(#[trigger] items@[j]@),
        decreases items@.len() - i,
    {
        let ghost before = f;
        f.insert(items[i].as_str());
        proof {
            assert(views(items@).take(i + 1).drop_last() =~= views(items@).take(i as int));
            assert(views(items@).take(i + 1).last() == items@[i as int]@);
            lemma_no_false_negatives(before.bits(), k, m, items@[i as int]@);
            assert forall|j: int| 0 <= j < i + 1 implies f.contains_spec(#[trigger] items@[j]@) by {
                if j < i {
                    lemma_insert_keeps_members(before.bits(), k, m, items@[i as int]@, items@[j]@);
                }
            }
        }
        i = i + 1;
    }
    proof {
        assert(views(items@).take(items@.len() as int) =~= views(items@));
    }
    f
}

/// A copy of a list of strings.
fn copy_strings(s: &[String]) -> (r: Vec<String>)
    ensures
        views(r@) == views(s@),
{
    let mut r: Vec<String> = Vec::new();
    let mut i: usize = 0;
    while i < s.len()
        invariant
            i <= s@.len(),
            views(r@) == views(s@).take(i as int),
        decreases s@.len() - i,
    {
        let ghost before = r@;
        let c = s[i].clone();
        r.push(c);
        proof {
            assert(r@ == before.push(c));
            assert(views(r@) =~= views(before).push(c@));
            assert(views(r@) =~= views(s@).take(i + 1));
        }
        i = i + 1;
    }
    proof {
        assert(views(s@).take(s@.len() as int) =~= views(s@));
    }
    r
}

/// Bloom filter exchange protocol: our filter, and the remote's once received.
#[derive(Debug)]
pub struct BloomExchange {
    /// Our distinctions, in the order given.
    distinctions: Vec<String>,
    /// Local filter (what we have).
    local: BloomFilter,
    /// Remote filter (what they have).
    remote: Option<BloomFilter>,
}

impl BloomExchange {
    /// Our filter.
    pub closed spec fn local_filter(&self) -> BloomFilter {
        self.local
    }

    /// The remote filter, once received.
    pub closed spec fn remote_filter(&self) -> Option<BloomFilter> {
        self.remote
    }

    /// Our distinctions, in the order given.
    pub closed spec fn local_items(&self) -> Seq<Seq<char>> {
        views(self.distinctions@)
    }

    /// Create an exchange whose local filter has `m` bits and `k` hash functions
    /// and holds all of `distinctions`.
    pub fn with_dimensions(distinctions: &[String], m: usize, k: usize) -> (e: Self)
        requires
            m > 0 || k == 0,
        ensures
            e.local_filter().wf(),
            e.local_filter().hash_count() == k,
            e.local_filter().bit_count() == m,
            e.local_filter().inserted() == distinctions@.len(),
            e.local_filter().bits() == bits_after_all(Seq::new(m as nat, |j: int| false), k, m, views(distinctions@)),
            forall|i: int| 0 <= i < distinctions@.len() ==> e.local_filter().contains_spec(#[trigger] distinctions@[i]@),
            e.remote_filter() is None,
            e.local_items() == views(distinctions@),
    {
        let local = filter_of(distinctions, m, k);
        BloomExchange { distinctions: copy_strings(distinctions), local, remote: None }
    }

    /// Receive the remote filter.
    pub fn receive_remote(&mut self, remote: BloomFilter)
        ensures
            final(self).remote_filter() == Some(remote),
            final(self).local_filter() == old(self).local_filter(),
            final(self).local_items() == old(self).local_items(),
    {
        self.remote = Some(remote);
    }

    /// Distinctions we have that they probably lack: those the remote filter
    /// definitely does not contain, in our order. Nothing before a remote filter
    /// has been received.
    pub fn find_missing_remote(&self) -> (r: Vec<String>)
        requires
            self.remote_filter() matches Some(f) ==> f.wf() && f.can_hash(),
        ensures
            views(r@) == match self.remote_filter() {
                Some(f) => self.local_items().filter(|d: Seq<char>| !f.contains_spec(d)),
                None => Seq::<Seq<char>>::empty(),
            },
    {
        let mut out: Vec<String> = Vec::new();
        match &self.remote {
            None => {
                proof {
                    assert(views(out@) =~= Seq::<Seq<char>>::empty());
                }
                out
            },
            Some(f) => {
                let ghost items = views(self.distinctions@);
                let ghost pred = |d: Seq<char>| !f.contains_spec(d);
                let mut i: usize = 0;
                proof {
                    assert(items.take(0) =~= Seq::<Seq<char>>::empty());
                    assert(views(out@) =~= Seq::<Seq<char>>::empty());
                    reveal(Seq::filter);
                }
                while i < self.distinctions.len()
                    invariant
                        i <= self.distinctions@.len(),
                        items == views(self.distinctions@),
                        f.wf(),
                        f.can_hash(),
                        pred == (|d: Seq<char>| !f.contains_spec(d)),
                        views(out@) == items.take(i as int).filter(pred),
                    decreases self.distinctions@.len() - i,
                {
                    let ghost before = out@;
                    proof {
                        reveal(Seq::filter);
                        assert(items.take(i + 1).drop_last() =~= items.take(i as int));
                        assert(items.take(i + 1).last() == self.distinctions@[i as int]@);
                    }
                    if f.definitely_not_contain(self.distinctions[i].as_str()) {
                        out.push(self.distinctions[i].clone());
                        proof {
                            assert(views(out@) =~= views(before).push(self.distinctions@[i as int]@));
                        }
                    }
                    i = i + 1;
                }
                proof {
                    assert(items.take(self.distinctions@.len() as int) =~= items);
                }
                out
            },
        }
    }

    /// Our filter, to send to the remote.
    pub fn get_local_filter(&self) -> (r: &BloomFilter)
        ensures
            *r == self.local_filter(),
    {
        &self.local
    }
}

} // verus!
