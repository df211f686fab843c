//! Stable insertion-order sorting by an integer key, stated as spec functions.

use vstd::prelude::*;

verus! {

/// Position of the first element whose key is below `k` (the length if none is).
pub open spec fn first_below<T>(s: Seq<T>, key: spec_fn(T) -> int, k: int) -> int
    decreases s.len(),
{
    if s.len() == 0 {
        0
    } else if key(s[0]) < k {
        0
    } else {
        1 + first_below(s.drop_first(), key, k)
    }
}

/// Position of the first element whose key is above `k` (the length if none is).
pub open spec fn first_above<T>(s: Seq<T>, key: spec_fn(T) -> int, k: int) -> int
    decreases s.len(),
{
    if s.len() == 0 {
        0
    } else if key(s[0]) > k {
        0
    } else {
        1 + first_above(s.drop_first(), key, k)
    }
}

/// Stable sort, highest key first: each element goes after every earlier one
/// with a key at least its own.
pub open spec fn sort_desc<T>(s: Seq<T>, key: spec_fn(T) -> int) -> Seq<T>
    decreases s.len(),
{
    if s.len() == 0 {
        s
    } else {
        let r = sort_desc(s.drop_last(), key);
        r.insert(first_below(r, key, key(s.last())), s.last())
    }
}

/// Stable sort, lowest key first.
pub open spec fn sort_asc<T>(s: Seq<T>, key: spec_fn(T) -> int) -> Seq<T>
    decreases s.len(),
{
    if s.len() == 0 {
        s
    } else {
        let r = sort_asc(s.drop_last(), key);
        r.insert(first_above(r, key, key(s.last())), s.last())
    }
}

/// Sorting keeps the length.
pub proof fn lemma_sort_desc_len<T>(s: Seq<T>, key: spec_fn(T) -> int)
    ensures
        sort_desc(s, key).len() == s.len(),
    decreases s.len(),
{
    if s.len() > 0 {
        lemma_sort_desc_len(s.drop_last(), key);
        lemma_first_below_range(sort_desc(s.drop_last(), key), key, key(s.last()));
    }
}

/// Sorting keeps the length.
pub proof fn lemma_sort_asc_len<T>(s: Seq<T>, key: spec_fn(T) -> int)
    ensures
        sort_asc(s, key).len() == s.len(),
    decreases s.len(),
{
    if s.len() > 0 {
        lemma_sort_asc_len(s.drop_last(), key);
        lemma_first_above_range(sort_asc(s.drop_last(), key), key, key(s.last()));
    }
}

proof fn lemma_first_below_range<T>(s: Seq<T>, key: spec_fn(T) -> int, k: int)
    ensures
        0 <= first_below(s, key, k) <= s.len(),
    decreases s.len(),
{
    if s.len() > 0 {
        lemma_first_below_range(s.drop_first(), key, k);
    }
}

proof fn lemma_first_above_range<T>(s: Seq<T>, key: spec_fn(T) -> int, k: int)
    ensures
        0 <= first_above(s, key, k) <= s.len(),
    decreases s.len(),
{
    if s.len() > 0 {
        lemma_first_above_range(s.drop_first(), key, k);
    }
}

pub proof fn lemma_first_below<T>(s: Seq<T>, key: spec_fn(T) -> int, k: int, p: int)
    requires
        0 <= p <= s.len(),
        forall|q: int| 0 <= q < p ==> !(key(#[trigger] s[q]) < k),
        p < s.len() ==> key(s[p]) < k,
    ensures
        first_below(s, key, k) == p,
    decreases p,
{
    if p > 0 {
        assert(!(key(s[0]) < k));
        lemma_first_below(s.drop_first(), key, k, p - 1);
    }
}

pub proof fn lemma_first_above<T>(s: Seq<T>, key: spec_fn(T) -> int, k: int, p: int)
    requires
        0 <= p <= s.len(),
        forall|q: int| 0 <= q < p ==> !(key(#[trigger] s[q]) > k),
        p < s.len() ==> key(s[p]) > k,
    ensures
        first_above(s, key, k) == p,
    decreases p,
{
    if p > 0 {
        assert(!(key(s[0]) > k));
        lemma_first_above(s.drop_first(), key, k, p - 1);
    }
}

} // verus!

verus! {

/// The rank key of an index into `keys`.
pub open spec fn index_key(keys: Seq<u32>) -> spec_fn(usize) -> int {
    |i: usize| keys[i as int] as int
}

/// Indices ordered by their key in `keys`, highest first, ties in the given order.
pub fn sort_indices_desc(idx: &Vec<usize>, keys: &Vec<u32>) -> (r: Vec<usize>)
    requires
        forall|j: int| 0 <= j < idx@.len() ==> idx@[j] < keys@.len(),
    ensures
        r@ == sort_desc(idx@, index_key(keys@)),
{
    let mut r: Vec<usize> = Vec::new();
    let mut i: usize = 0;
    assert(idx@.take(0) =~= Seq::<usize>::empty());
    while i < idx.len()
        invariant
            i <= idx@.len(),
            forall|j: int| 0 <= j < idx@.len() ==> idx@[j] < keys@.len(),
            forall|j: int| 0 <= j < r@.len() ==> r@[j] < keys@.len(),
            r@ == sort_desc(idx@.take(i as int), index_key(keys@)),
        decreases idx@.len() - i,
    {
        let x = idx[i];
        let kx = keys[x];
        let mut p: usize = 0;
        while p < r.len() && !(keys[r[p]] < kx)
            invariant
                p <= r@.len(),
                forall|j: int| 0 <= j < r@.len() ==> r@[j] < keys@.len(),
                kx == keys@[x as int],
                forall|q: int| 0 <= q < p ==> !(keys@[(#[trigger] r@[q]) as int] < kx),
            decreases r@.len() - p,
        {
            p = p + 1;
        }
        proof {
            assert forall|q: int| 0 <= q < p implies !(index_key(keys@)(#[trigger] r@[q]) < index_key(keys@)(x)) by {}
            lemma_first_below(r@, index_key(keys@), index_key(keys@)(x), p as int);
            assert(idx@.take(i + 1).drop_last() =~= idx@.take(i as int));
            assert(idx@.take(i + 1) =~= idx@.take(i as int).push(x));
        }
        let ghost old_r = r@;
        r.insert(p, x);
        proof {
            assert forall|j: int| 0 <= j < r@.len() implies r@[j] < keys@.len() by {
                if j < p {
                    assert(r@[j] == old_r[j]);
                } else if j > p {
                    assert(r@[j] == old_r[j - 1]);
                }
            }
        }
        i = i + 1;
    }
    assert(idx@.take(idx@.len() as int) =~= idx@);
    r
}

} // verus!

verus! {

/// The rank key of an index into signed `keys`.
pub open spec fn index_key_i64(keys: Seq<i64>) -> spec_fn(usize) -> int {
    |i: usize| keys[i as int] as int
}

/// Indices ordered by their key in `keys`, lowest first, ties in the given order.
pub fn sort_indices_asc_i64(idx: &Vec<usize>, keys: &Vec<i64>) -> (r: Vec<usize>)
    requires
        forall|j: int| 0 <= j < idx@.len() ==> idx@[j] < keys@.len(),
    ensures
        r@ == sort_asc(idx@, index_key_i64(keys@)),
        forall|j: int| 0 <= j < r@.len() ==> r@[j] < keys@.len(),
{
    let mut r: Vec<usize> = Vec::new();
    let mut i: usize = 0;
    assert(idx@.take(0) =~= Seq::<usize>::empty());
    while i < idx.len()
        invariant
            i <= idx@.len(),
            forall|j: int| 0 <= j < idx@.len() ==> idx@[j] < keys@.len(),
            forall|j: int| 0 <= j < r@.len() ==> r@[j] < keys@.len(),
            r@ == sort_asc(idx@.take(i as int), index_key_i64(keys@)),
        decreases idx@.len() - i,
    {
        let x = idx[i];
        let kx = keys[x];
        let mut p: usize = 0;
        while p < r.len() && !(keys[r[p]] > kx)
            invariant
                p <= r@.len(),
                forall|j: int| 0 <= j < r@.len() ==> r@[j] < keys@.len(),
                kx == keys@[x as int],
                forall|q: int| 0 <= q < p ==> !(keys@[(#[trigger] r@[q]) as int] > kx),
            decreases r@.len() - p,
        {
            p = p + 1;
        }
        proof {
            assert forall|q: int| 0 <= q < p implies !(index_key_i64(keys@)(#[trigger] r@[q]) > index_key_i64(keys@)(x)) by {}
            lemma_first_above(r@, index_key_i64(keys@), index_key_i64(keys@)(x), p as int);
            assert(idx@.take(i + 1).drop_last() =~= idx@.take(i as int));
            assert(idx@.take(i + 1) =~= idx@.take(i as int).push(x));
        }
        let ghost old_r = r@;
        r.insert(p, x);
        proof {
            assert forall|j: int| 0 <= j < r@.len() implies r@[j] < keys@.len() by {
                if j < p {
                    assert(r@[j] == old_r[j]);
                } else if j > p {
                    assert(r@[j] == old_r[j - 1]);
                }
            }
        }
        i = i + 1;
    }
    assert(idx@.take(idx@.len() as int) =~= idx@);
    r
}

} // verus!

verus! {

/// Every element before `first_above` has a key at most `k`, and the element
/// there (if any) has a key above `k`.
pub proof fn lemma_first_above_props<T>(s: Seq<T>, key: spec_fn(T) -> int, k: int)
    ensures
        0 <= first_above(s, key, k) <= s.len(),
        forall|q: int| 0 <= q < first_above(s, key, k) ==> !(key(#[trigger] s[q]) > k),
        first_above(s, key, k) < s.len() ==> key(s[first_above(s, key, k)]) > k,
    decreases s.len(),
{
    if s.len() > 0 && !(key(s[0]) > k) {
        lemma_first_above_props(s.drop_first(), key, k);
        assert forall|q: int| 0 <= q < first_above(s, key, k) implies !(key(#[trigger] s[q]) > k) by {
            if q > 0 {
                assert(s[q] == s.drop_first()[q - 1]);
            }
        }
        if first_above(s, key, k) < s.len() {
            assert(s[first_above(s, key, k)] == s.drop_first()[first_above(s, key, k) - 1]);
        }
    }
}

/// Every element before `first_below` has a key at least `k`, and the element
/// there (if any) has a key below `k`.
pub proof fn lemma_first_below_props<T>(s: Seq<T>, key: spec_fn(T) -> int, k: int)
    ensures
        0 <= first_below(s, key, k) <= s.len(),
        forall|q: int| 0 <= q < first_below(s, key, k) ==> !(key(#[trigger] s[q]) < k),
        first_below(s, key, k) < s.len() ==> key(s[first_below(s, key, k)]) < k,
    decreases s.len(),
{
    if s.len() > 0 && !(key(s[0]) < k) {
        lemma_first_below_props(s.drop_first(), key, k);
        assert forall|q: int| 0 <= q < first_below(s, key, k) implies !(key(#[trigger] s[q]) < k) by {
            if q > 0 {
                assert(s[q] == s.drop_first()[q - 1]);
            }
        }
        if first_below(s, key, k) < s.len() {
            assert(s[first_below(s, key, k)] == s.drop_first()[first_below(s, key, k) - 1]);
        }
    }
}

/// Sorting lowest first yields a sorted rearrangement of its input.
pub proof fn lemma_sort_asc_sorted<T>(s: Seq<T>, key: spec_fn(T) -> int)
    ensures
        forall|i: int, j: int| 0 <= i < j < sort_asc(s, key).len() ==> key(#[trigger] sort_asc(s, key)[i]) <= key(#[trigger] sort_asc(s, key)[j]),
        sort_asc(s, key).to_multiset() == s.to_multiset(),
        sort_asc(s, key).len() == s.len(),
    decreases s.len(),
{
    broadcast use vstd::seq_lib::to_multiset_insert, vstd::seq_lib::to_multiset_build;
    if s.len() > 0 {
        let r = sort_asc(s.drop_last(), key);
        lemma_sort_asc_sorted(s.drop_last(), key);
        let x = s.last();
        let p = first_above(r, key, key(x));
        lemma_first_above_props(r, key, key(x));
        let out = r.insert(p, x);
        assert(sort_asc(s, key) == out);
        assert forall|i: int, j: int| 0 <= i < j < out.len() implies key(#[trigger] out[i]) <= key(#[trigger] out[j]) by {
            if j < p {
                assert(out[i] == r[i] && out[j] == r[j]);
            } else if j == p {
                assert(out[i] == r[i]);
            } else if i < p {
                assert(out[i] == r[i] && out[j] == r[j - 1]);
                assert(key(r[p]) > key(x));
                if p < j - 1 {
                    assert(key(r[p]) <= key(r[j - 1]));
                }
            } else if i == p {
                assert(out[j] == r[j - 1]);
                assert(key(r[p]) > key(x));
                if p < j - 1 {
                    assert(key(r[p]) <= key(r[j - 1]));
                }
            } else {
                assert(out[i] == r[i - 1] && out[j] == r[j - 1]);
            }
        }
        assert(s =~= s.drop_last().push(x));
    }
}

/// Sorting highest first yields a rearrangement of its input in non-increasing
/// key order.
pub proof fn lemma_sort_desc_sorted<T>(s: Seq<T>, key: spec_fn(T) -> int)
    ensures
        forall|i: int, j: int| 0 <= i < j < sort_desc(s, key).len() ==> key(#[trigger] sort_desc(s, key)[i]) >= key(#[trigger] sort_desc(s, key)[j]),
        sort_desc(s, key).to_multiset() == s.to_multiset(),
        sort_desc(s, key).len() == s.len(),
    decreases s.len(),
{
    broadcast use vstd::seq_lib::to_multiset_insert, vstd::seq_lib::to_multiset_build;
    if s.len() > 0 {
        let r = sort_desc(s.drop_last(), key);
        lemma_sort_desc_sorted(s.drop_last(), key);
        let x = s.last();
        let p = first_below(r, key, key(x));
        lemma_first_below_props(r, key, key(x));
        let out = r.insert(p, x);
        assert(sort_desc(s, key) == out);
        assert forall|i: int, j: int| 0 <= i < j < out.len() implies key(#[trigger] out[i]) >= key(#[trigger] out[j]) by {
            if j < p {
                assert(out[i] == r[i] && out[j] == r[j]);
            } else if j == p {
                assert(out[i] == r[i]);
            } else if i < p {
                assert(out[i] == r[i] && out[j] == r[j - 1]);
                assert(key(r[p]) < key(x));
                if p < j - 1 {
                    assert(key(r[p]) >= key(r[j - 1]));
                }
            } else if i == p {
                assert(out[j] == r[j - 1]);
                assert(key(r[p]) < key(x));
                if p < j - 1 {
                    assert(key(r[p]) >= key(r[j - 1]));
                }
            } else {
                assert(out[i] == r[i - 1] && out[j] == r[j - 1]);
            }
        }
        assert(s =~= s.drop_last().push(x));
    }
}

} // verus!

verus! {

/// Whether some entry of `c` has key `x` and rank `k`.
pub open spec fn has_entry(c: Seq<(String, i128)>, x: Seq<char>, k: i128) -> bool {
    exists|q: int| 0 <= q < c.len() && (#[trigger] c[q]).0@ == x && c[q].1 == k
}

/// Whether the entries of `c` have distinct keys.
pub open spec fn distinct_keys(c: Seq<(String, i128)>) -> bool {
    forall|a: int, b: int| 0 <= a < b < c.len() ==> (#[trigger] c[a]).0@ != (#[trigger] c[b]).0@
}

/// Entries with distinct keys ordered by rank, highest first: the same
/// entries, each once.
pub fn rank_desc(items: &Vec<(String, i128)>) -> (r: Vec<(String, i128)>)
    requires
        distinct_keys(items@),
    ensures
        r@.len() == items@.len(),
        distinct_keys(r@),
        forall|a: int, b: int| 0 <= a < b < r@.len() ==> (#[trigger] r@[a]).1 >= (#[trigger] r@[b]).1,
        forall|x: Seq<char>, k: i128| #[trigger] has_entry(r@, x, k) <==> has_entry(items@, x, k),
{
    let mut r: Vec<(String, i128)> = Vec::new();
    let mut i: usize = 0;
    while i < items.len()
        invariant
            i <= items@.len(),
            distinct_keys(items@),
            r@.len() == i,
            distinct_keys(r@),
            forall|a: int, b: int| 0 <= a < b < r@.len() ==> (#[trigger] r@[a]).1 >= (#[trigger] r@[b]).1,
            forall|x: Seq<char>, k: i128| #[trigger] has_entry(r@, x, k) <==> has_entry(items@.take(i as int), x, k),
        decreases items@.len() - i,
    {
        let k = items[i].1;
        let mut p: usize = 0;
        while p < r.len() && r[p].1 >= k
            invariant
                p <= r@.len(),
                forall|q: int| 0 <= q < p ==> (#[trigger] r@[q]).1 >= k,
            decreases r@.len() - p,
        {
            p = p + 1;
        }
        let ghost before = r@;
        let ghost x = items@[i as int].0@;
        r.insert(p, (items[i].0.clone(), k));
        proof {
            assert(r@ == before.insert(p as int, r@[p as int]));
            assert(r@[p as int].0@ == x && r@[p as int].1 == k);
            assert(items@.take(i + 1) =~= items@.take(i as int).push(items@[i as int]));
            // The new key is not among the earlier ones.
            assert forall|y: Seq<char>, m: i128| has_entry(before, y, m) implies y != x by {
                assert(has_entry(items@.take(i as int), y, m));
                let q = choose|q: int| 0 <= q < i && (#[trigger] items@.take(i as int)[q]).0@ == y && items@.take(i as int)[q].1 == m;
                assert(items@[q].0@ != items@[i as int].0@);
            }
            assert forall|a: int, b: int| 0 <= a < b < r@.len() implies (#[trigger] r@[a]).1 >= (#[trigger] r@[b]).1 by {
                if b == p as int {
                    assert(r@[a] == before[a]);
                } else if a == p as int {
                    assert(r@[b] == before[b - 1]);
                    if p < before.len() {
                        assert(before[p as int].1 < k);
                        if b - 1 > p {
                            assert(before[p as int].1 >= before[b - 1].1);
                        }
                    }
                } else {
                    let a2 = if a < p { a } else { a - 1 };
                    let b2 = if b < p { b } else { b - 1 };
                    assert(r@[a] == before[a2] && r@[b] == before[b2]);
                }
            }
            assert forall|a: int, b: int| 0 <= a < b < r@.len() implies (#[trigger] r@[a]).0@ != (#[trigger] r@[b]).0@ by {
                if a == p as int {
                    assert(r@[b] == before[b - 1]);
                    assert(has_entry(before, before[b - 1].0@, before[b - 1].1));
                } else if b == p as int {
                    assert(r@[a] == before[a]);
                    assert(has_entry(before, before[a].0@, before[a].1));
                } else {
                    let a2 = if a < p { a } else { a - 1 };
                    let b2 = if b < p { b } else { b - 1 };
                    assert(r@[a] == before[a2] && r@[b] == before[b2]);
                }
            }
            assert forall|y: Seq<char>, m: i128| #[trigger] has_entry(r@, y, m) <==> has_entry(items@.take(i + 1), y, m) by {
                if has_entry(r@, y, m) {
                    let q = choose|q: int| 0 <= q < r@.len() && (#[trigger] r@[q]).0@ == y && r@[q].1 == m;
                    if q < p {
                        assert(before[q] == r@[q]);
                        assert(has_entry(before, y, m));
                    } else if q > p {
                        assert(before[q - 1] == r@[q]);
                        assert(has_entry(before, y, m));
                    } else {
                        assert(items@.take(i + 1)[i as int] == items@[i as int]);
                    }
                    if has_entry(before, y, m) {
                        let w = choose|w: int| 0 <= w < i && (#[trigger] items@.take(i as int)[w]).0@ == y && items@.take(i as int)[w].1 == m;
                        assert(items@.take(i + 1)[w] == items@.take(i as int)[w]);
                    }
                }
                if has_entry(items@.take(i + 1), y, m) {
                    let w = choose|w: int| 0 <= w < i + 1 && (#[trigger] items@.take(i + 1)[w]).0@ == y && items@.take(i + 1)[w].1 == m;
                    if w < i {
                        assert(items@.take(i as int)[w] == items@.take(i + 1)[w]);
                        assert(has_entry(items@.take(i as int), y, m));
                        assert(has_entry(before, y, m));
                        let q = choose|q: int| 0 <= q < before.len() && (#[trigger] before[q]).0@ == y && before[q].1 == m;
                        if q < p {
                            assert(r@[q] == before[q]);
                        } else {
                            assert(r@[q + 1] == before[q]);
                        }
                    } else {
                        assert(r@[p as int].0@ == y && r@[p as int].1 == m);
                    }
                }
            }
        }
        i = i + 1;
    }
    proof {
        assert(items@.take(items@.len() as int) =~= items@);
    }
    r
}

} // verus!
