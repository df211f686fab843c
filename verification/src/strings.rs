//! Text ordering and sorting helpers shared by the reconciliation structures.
//! Strings are ordered the way `str`'s `Ord` orders them: lexicographically by
//! character (UTF-8 byte order and code-point order agree).

use vstd::prelude::*;
use vstd::relations::*;
use vstd::string::*;

verus! {

/// Lexicographic order on character sequences (a prefix comes first).
pub open spec fn chars_le(a: Seq<char>, b: Seq<char>) -> bool
    decreases a.len(),
{
    if a.len() == 0 {
        true
    } else if b.len() == 0 {
        false
    } else if a[0] < b[0] {
        true
    } else if a[0] > b[0] {
        false
    } else {
        chars_le(a.drop_first(), b.drop_first())
    }
}

/// `chars_le` as a closure value, for the sorting library.
pub open spec fn chars_leq() -> spec_fn(Seq<char>, Seq<char>) -> bool {
    |a: Seq<char>, b: Seq<char>| chars_le(a, b)
}

/// The views of a sequence of strings.
pub open spec fn views(s: Seq<String>) -> Seq<Seq<char>> {
    s.map_values(|x: String| x@)
}

pub(crate) proof fn lemma_chars_le_reflexive(a: Seq<char>)
    ensures
        chars_le(a, a),
    decreases a.len(),
{
    if a.len() > 0 {
        lemma_chars_le_reflexive(a.drop_first());
    }
}

pub(crate) proof fn lemma_chars_le_antisymmetric(a: Seq<char>, b: Seq<char>)
    requires
        chars_le(a, b),
        chars_le(b, a),
    ensures
        a == b,
    decreases a.len(),
{
    if a.len() > 0 && b.len() > 0 {
        lemma_chars_le_antisymmetric(a.drop_first(), b.drop_first());
        assert(a =~= seq![a[0]] + a.drop_first());
        assert(b =~= seq![b[0]] + b.drop_first());
    }
}

pub(crate) proof fn lemma_chars_le_transitive(a: Seq<char>, b: Seq<char>, c: Seq<char>)
    requires
        chars_le(a, b),
        chars_le(b, c),
    ensures
        chars_le(a, c),
    decreases a.len(),
{
    if a.len() > 0 && b.len() > 0 && c.len() > 0 {
        if a[0] == b[0] && b[0] == c[0] {
            lemma_chars_le_transitive(a.drop_first(), b.drop_first(), c.drop_first());
        }
    }
}

pub(crate) proof fn lemma_chars_le_total(a: Seq<char>, b: Seq<char>)
    ensures
        chars_le(a, b) || chars_le(b, a),
    decreases a.len(),
{
    if a.len() > 0 && b.len() > 0 {
        lemma_chars_le_total(a.drop_first(), b.drop_first());
    }
}

/// `chars_le` is a total order.
pub proof fn lemma_chars_leq_total_ordering()
    ensures
        total_ordering(chars_leq()),
{
    assert forall|a: Seq<char>| #[trigger] chars_leq()(a, a) by {
        lemma_chars_le_reflexive(a);
    }
    assert forall|a: Seq<char>, b: Seq<char>| #[trigger] chars_leq()(a, b) && #[trigger] chars_leq()(b, a) implies a == b by {
        lemma_chars_le_antisymmetric(a, b);
    }
    assert forall|a: Seq<char>, b: Seq<char>, c: Seq<char>| #[trigger] chars_leq()(a, b) && #[trigger] chars_leq()(b, c) implies chars_leq()(a, c) by {
        lemma_chars_le_transitive(a, b, c);
    }
    assert forall|a: Seq<char>, b: Seq<char>| #[trigger] chars_leq()(a, b) || #[trigger] chars_leq()(b, a) by {
        lemma_chars_le_total(a, b);
    }
}

/// The characters of `s`.
pub fn chars_of(s: &str) -> (v: Vec<char>)
    ensures
        v@ == s@,
{
    let mut v: Vec<char> = Vec::new();
    for c in it: s.chars()
        invariant
            v@ == it.seq().take(it.index() as int),
    {
        v.push(c);
    }
    v
}

/// Whether `a` orders at or before `b`, over character vectors.
fn char_vec_le(a: &Vec<char>, b: &Vec<char>) -> (r: bool)
    ensures
        r == chars_le(a@, b@),
{
    let mut i: usize = 0;
    assert(a@.skip(0) =~= a@);
    assert(b@.skip(0) =~= b@);
    while i < a.len() && i < b.len()
        invariant
            i <= a.len(),
            i <= b.len(),
            chars_le(a@, b@) == chars_le(a@.skip(i as int), b@.skip(i as int)),
        decreases a.len() - i,
    {
        let ca = a[i];
        let cb = b[i];
        if ca < cb {
            return true;
        }
        if ca > cb {
            return false;
        }
        proof {
            assert(a@.skip(i as int).drop_first() =~= a@.skip(i + 1));
            assert(b@.skip(i as int).drop_first() =~= b@.skip(i + 1));
        }
        i = i + 1;
    }
    i == a.len()
}

/// Whether two strings have the same characters.
pub fn str_eq(a: &str, b: &str) -> (r: bool)
    ensures
        r == (a@ == b@),
{
    let x: String = a.to_owned();
    let y: String = b.to_owned();
    x == y
}

/// Whether `a` orders at or before `b` (the order of `str`'s `Ord`).
pub fn str_le(a: &str, b: &str) -> (r: bool)
    ensures
        r == chars_le(a@, b@),
{
    let ca = chars_of(a);
    let cb = chars_of(b);
    char_vec_le(&ca, &cb)
}

/// Inserting `x` at the first position whose element orders after `x` keeps a sequence sorted.
proof fn lemma_insert_keeps_sorted(s: Seq<Seq<char>>, p: int, x: Seq<char>)
    requires
        0 <= p <= s.len(),
        sorted_by(s, chars_leq()),
        forall|q: int| 0 <= q < p ==> chars_le(#[trigger] s[q], x),
        p < s.len() ==> !chars_le(s[p], x),
    ensures
        sorted_by(s.insert(p, x), chars_leq()),
{
    lemma_chars_leq_total_ordering();
    let t = s.insert(p, x);
    s.insert_ensures(p, x);
    assert forall|a: int, b: int| 0 <= a < b < t.len() implies #[trigger] chars_leq()(t[a], t[b]) by {
        if b < p {
            assert(chars_leq()(s[a], s[b]));
        } else if b == p {
            assert(chars_le(s[a], x));
        } else if a == p {
            assert(t[b] == s[b - 1]);
            lemma_chars_le_total(x, s[p]);
            assert(chars_le(x, s[p]));
            if b - 1 > p {
                assert(chars_leq()(s[p], s[b - 1]));
                lemma_chars_le_transitive(x, s[p], s[b - 1]);
            }
            assert(t[a] == x);
            assert(chars_le(t[a], t[b]));
        } else if a < p {
            assert(t[b] == s[b - 1]);
            assert(chars_leq()(s[a], s[b - 1]));
        } else {
            assert(t[a] == s[a - 1]);
            assert(t[b] == s[b - 1]);
            assert(chars_leq()(s[a - 1], s[b - 1]));
        }
    }
}

/// Sorts strings in ascending order. The result holds the same strings
/// (as a multiset) and its views are the unique sorted arrangement of the input's views.
pub fn sort_strings(v: Vec<String>) -> (r: Vec<String>)
    ensures
        views(r@) == views(v@).sort_by(chars_leq()),
        r@.to_multiset() == v@.to_multiset(),
{
    let mut r: Vec<String> = Vec::new();
    let mut keys: Vec<Vec<char>> = Vec::new();
    let mut i: usize = 0;
    proof {
        broadcast use vstd::seq_lib::group_to_multiset_ensures;
        assert(v@.subrange(0, 0) =~= Seq::<String>::empty());
        assert(views(v@.subrange(0, 0)) =~= Seq::<Seq<char>>::empty());
        assert(views(r@) =~= Seq::<Seq<char>>::empty());
    }
    while i < v.len()
        invariant
            i <= v.len(),
            keys@.len() == r@.len(),
            forall|q: int| 0 <= q < keys@.len() ==> (#[trigger] keys@[q])@ == r@[q]@,
            sorted_by(views(r@), chars_leq()),
            r@.to_multiset() == v@.subrange(0, i as int).to_multiset(),
            views(r@).to_multiset() == views(v@.subrange(0, i as int)).to_multiset(),
        decreases v.len() - i,
    {
        let x = v[i].clone();
        let xk = chars_of(x.as_str());
        let mut p: usize = 0;
        while p < r.len() && char_vec_le(&keys[p], &xk)
            invariant
                p <= r.len(),
                keys@.len() == r@.len(),
                forall|q: int| 0 <= q < keys@.len() ==> (#[trigger] keys@[q])@ == r@[q]@,
                xk@ == x@,
                forall|q: int| 0 <= q < p ==> chars_le(#[trigger] r@[q]@, x@),
            decreases r.len() - p,
        {
            p = p + 1;
        }
        let ghost old_r = r@;
        let ghost old_keys = keys@;
        r.insert(p, x);
        keys.insert(p, xk);
        proof {
            assert forall|q: int| 0 <= q < keys@.len() implies (#[trigger] keys@[q])@ == r@[q]@ by {
                if q < p as int {
                    assert(keys@[q] == old_keys[q]);
                } else if q > p as int {
                    assert(keys@[q] == old_keys[q - 1]);
                }
            }
        }
        proof {
            broadcast use vstd::seq_lib::to_multiset_build;
            broadcast use vstd::seq_lib::to_multiset_insert;
            assert(views(r@) =~= views(old_r).insert(p as int, x@));
            lemma_insert_keeps_sorted(views(old_r), p as int, x@);
            assert(v@.subrange(0, i + 1) =~= v@.subrange(0, i as int).push(v@[i as int]));
            assert(views(v@.subrange(0, i + 1)) =~= views(v@.subrange(0, i as int)).push(v@[i as int]@));
        }
        i = i + 1;
    }
    proof {
        assert(v@.subrange(0, v@.len() as int) =~= v@);
        lemma_chars_leq_total_ordering();
        views(v@).lemma_sort_by_ensures(chars_leq());
        vstd::seq_lib::lemma_sorted_unique(views(r@), views(v@).sort_by(chars_leq()), chars_leq());
    }
    r
}

/// The set of a concatenation is the union of the sets.
pub proof fn lemma_concat_to_set<A>(l: Seq<A>, r: Seq<A>)
    ensures
        (l + r).to_set() == l.to_set() + r.to_set(),
{
    assert forall|x: A| (l + r).contains(x) <==> (l.contains(x) || r.contains(x)) by {
        if (l + r).contains(x) {
            let i = choose|i: int| 0 <= i < (l + r).len() && (l + r)[i] == x;
            if i < l.len() {
                assert(l[i] == x);
            } else {
                assert(r[i - l.len()] == x);
            }
        }
        if l.contains(x) {
            let i = choose|i: int| 0 <= i < l.len() && l[i] == x;
            assert((l + r)[i] == x);
        }
        if r.contains(x) {
            let i = choose|i: int| 0 <= i < r.len() && r[i] == x;
            assert((l + r)[i + l.len()] == x);
        }
    }
    assert((l + r).to_set() =~= l.to_set() + r.to_set());
}

/// The set of a one-element sequence.
pub proof fn lemma_singleton_to_set<A>(x: A)
    ensures
        seq![x].to_set() == Set::empty().insert(x),
{
    assert(seq![x][0] == x);
    assert(seq![x].to_set() =~= Set::empty().insert(x));
}

} // verus!

verus! {

/// Whether `c` has the Unicode `White_Space` property (what `char::is_whitespace` tests).
pub open spec fn is_white(c: char) -> bool {
    ||| ('\u{9}' <= c && c <= '\u{d}')
    ||| c == ' '
    ||| c == '\u{85}'
    ||| c == '\u{a0}'
    ||| c == '\u{1680}'
    ||| ('\u{2000}' <= c && c <= '\u{200a}')
    ||| c == '\u{2028}'
    ||| c == '\u{2029}'
    ||| c == '\u{202f}'
    ||| c == '\u{205f}'
    ||| c == '\u{3000}'
}

/// `s` without its leading white space.
pub open spec fn trim_start_chars(s: Seq<char>) -> Seq<char>
    decreases s.len(),
{
    if s.len() > 0 && is_white(s[0]) {
        trim_start_chars(s.drop_first())
    } else {
        s
    }
}

/// `s` without its trailing white space.
pub open spec fn trim_end_chars(s: Seq<char>) -> Seq<char>
    decreases s.len(),
{
    if s.len() > 0 && is_white(s.last()) {
        trim_end_chars(s.drop_last())
    } else {
        s
    }
}

/// `s` without leading and trailing white space (what `str::trim` returns).
pub open spec fn trim_chars(s: Seq<char>) -> Seq<char> {
    trim_end_chars(trim_start_chars(s))
}

fn is_white_char(c: char) -> (r: bool)
    ensures
        r == is_white(c),
{
    ('\u{9}' <= c && c <= '\u{d}') || c == ' ' || c == '\u{85}' || c == '\u{a0}' || c == '\u{1680}'
        || ('\u{2000}' <= c && c <= '\u{200a}') || c == '\u{2028}' || c == '\u{2029}'
        || c == '\u{202f}' || c == '\u{205f}' || c == '\u{3000}'
}

/// The characters of `s` with leading and trailing white space removed.
pub fn trimmed_chars(s: &str) -> (r: Vec<char>)
    ensures
        r@ == trim_chars(s@),
{
    let cs = chars_of(s);
    let mut lo: usize = 0;
    assert(cs@.subrange(0, cs@.len() as int) =~= cs@);
    while lo < cs.len() && is_white_char(cs[lo])
        invariant
            lo <= cs@.len(),
            trim_start_chars(cs@) == trim_start_chars(cs@.subrange(lo as int, cs@.len() as int)),
        decreases cs@.len() - lo,
    {
        assert(cs@.subrange(lo as int, cs@.len() as int).drop_first() =~= cs@.subrange(lo + 1, cs@.len() as int));
        lo = lo + 1;
    }
    let ghost front = cs@.subrange(lo as int, cs@.len() as int);
    assert(trim_start_chars(cs@) == front);
    let mut hi: usize = cs.len();
    assert(front.subrange(0, front.len() as int) =~= front);
    while hi > lo && is_white_char(cs[hi - 1])
        invariant
            lo <= hi <= cs@.len(),
            front == cs@.subrange(lo as int, cs@.len() as int),
            trim_end_chars(front) == trim_end_chars(cs@.subrange(lo as int, hi as int)),
        decreases hi - lo,
    {
        assert(cs@.subrange(lo as int, hi as int).drop_last() =~= cs@.subrange(lo as int, hi - 1));
        hi = hi - 1;
    }
    let mut r: Vec<char> = Vec::new();
    let mut i: usize = lo;
    while i < hi
        invariant
            lo <= i <= hi <= cs@.len(),
            r@ == cs@.subrange(lo as int, i as int),
        decreases hi - i,
    {
        r.push(cs[i]);
        assert(r@ =~= cs@.subrange(lo as int, i + 1));
        i = i + 1;
    }
    r
}

/// Whether the characters of `a` are exactly those of `b`.
pub fn char_vec_eq(a: &Vec<char>, b: &Vec<char>) -> (r: bool)
    ensures
        r == (a@ == b@),
{
    if a.len() != b.len() {
        return false;
    }
    let mut i: usize = 0;
    while i < a.len()
        invariant
            a@.len() == b@.len(),
            i <= a@.len(),
            forall|j: int| 0 <= j < i ==> a@[j] == b@[j],
        decreases a@.len() - i,
    {
        if a[i] != b[i] {
            return false;
        }
        i = i + 1;
    }
    assert(a@ =~= b@);
    true
}

/// Whether `s` ends with `suffix`.
pub open spec fn ends_with_chars(s: Seq<char>, suffix: Seq<char>) -> bool {
    s.len() >= suffix.len() && s.subrange(s.len() - suffix.len(), s.len() as int) == suffix
}

/// Whether `s` ends with `suffix` (what `str::ends_with` tests for a string pattern).
pub fn ends_with(s: &str, suffix: &str) -> (r: bool)
    ensures
        r == ends_with_chars(s@, suffix@),
{
    let a = chars_of(s);
    let b = chars_of(suffix);
    if a.len() < b.len() {
        return false;
    }
    let off = a.len() - b.len();
    let mut i: usize = 0;
    while i < b.len()
        invariant
            a@ == s@,
            b@ == suffix@,
            off == a@.len() - b@.len(),
            a@.len() >= b@.len(),
            i <= b@.len(),
            forall|j: int| 0 <= j < i ==> a@[off + j] == b@[j],
        decreases b@.len() - i,
    {
        assert(off + i < a.len());
        if a[off + i] != b[i] {
            return false;
        }
        i = i + 1;
    }
    assert(a@.subrange(off as int, a@.len() as int) =~= b@);
    true
}

} // verus!

verus! {

/// The Unicode lower-case form of a character sequence, as `str::to_lowercase` gives it.
pub uninterp spec fn lowercase_of(s: Seq<char>) -> Seq<char>;

/// `str::to_lowercase`: the Unicode lower-case mapping of `s`. It depends on `s`
/// alone; the mapping tables are left unsaid.
#[verifier::external_body]
pub fn to_lowercase(s: &str) -> (r: String)
    ensures
        r@ == lowercase_of(s@),
{
    s.to_lowercase()
}

/// The Unicode upper-case form of a character sequence, as `str::to_uppercase` gives it.
pub uninterp spec fn uppercase_of(s: Seq<char>) -> Seq<char>;

/// `str::to_uppercase`: the Unicode upper-case mapping of `s`. It depends on `s`
/// alone; the mapping tables are left unsaid.
#[verifier::external_body]
pub fn to_uppercase(s: &str) -> (r: String)
    ensures
        r@ == uppercase_of(s@),
{
    s.to_uppercase()
}

/// Whether `needle` occurs in `hay` as a contiguous run of characters.
pub open spec fn contains_chars(hay: Seq<char>, needle: Seq<char>) -> bool {
    exists|i: int| 0 <= i && i + needle.len() <= hay.len() && #[trigger] hay.subrange(i, i + needle.len()) == needle
}

/// Whether `needle` occurs at position `i` of `hay`.
fn occurs_at(hay: &Vec<char>, needle: &Vec<char>, i: usize) -> (r: bool)
    requires
        i + needle.len() <= hay.len(),
    ensures
        r == (hay@.subrange(i as int, i + needle@.len()) == needle@),
{
    let mut j: usize = 0;
    while j < needle.len()
        invariant
            i + needle.len() <= hay.len(),
            j <= needle@.len(),
            forall|k: int| 0 <= k < j ==> hay@[i + k] == needle@[k],
        decreases needle@.len() - j,
    {
        if hay[i + j] != needle[j] {
            assert(hay@.subrange(i as int, i + needle@.len())[j as int] != needle@[j as int]);
            return false;
        }
        j = j + 1;
    }
    assert(hay@.subrange(i as int, i + needle@.len()) =~= needle@);
    true
}

/// Whether `needle` occurs in `hay` (what `str::contains` tests for a string pattern;
/// a byte match of valid UTF-8 always falls on character boundaries).
pub fn contains_str(hay: &str, needle: &str) -> (r: bool)
    ensures
        r == contains_chars(hay@, needle@),
{
    let h = chars_of(hay);
    let n = chars_of(needle);
    if n.len() > h.len() {
        return false;
    }
    if n.len() == 0 {
        assert(hay@.subrange(0int, 0int + needle@.len()) =~= needle@);
        return true;
    }
    let mut i: usize = 0;
    while i <= h.len() - n.len()
        invariant
            h@ == hay@,
            n@ == needle@,
            0 < n.len() <= h.len(),
            i <= h.len() - n.len() + 1,
            forall|k: int| 0 <= k < i ==> #[trigger] hay@.subrange(k, k + needle@.len()) != needle@,
        decreases h@.len() - n@.len() + 1 - i,
    {
        if occurs_at(&h, &n, i) {
            return true;
        }
        i = i + 1;
    }
    assert forall|k: int| 0 <= k && k + needle@.len() <= hay@.len() implies #[trigger] hay@.subrange(k, k + needle@.len()) != needle@ by {
        assert(k < i);
    }
    false
}

} // verus!

verus! {

/// How many times `t` occurs in `s`.
pub open spec fn occurrences(s: Seq<Seq<char>>, t: Seq<char>) -> nat
    decreases s.len(),
{
    if s.len() == 0 {
        0
    } else {
        occurrences(s.drop_last(), t) + if s.last() == t { 1nat } else { 0nat }
    }
}

/// A tally of `items`: each distinct item once, with the number of its occurrences.
pub open spec fn is_tally(r: Seq<(String, usize)>, items: Seq<Seq<char>>) -> bool {
    &&& forall|i: int, j: int| 0 <= i < j < r.len() ==> (#[trigger] r[i]).0@ != (#[trigger] r[j]).0@
    &&& forall|i: int| 0 <= i < r.len() ==> (#[trigger] r[i]).1 == occurrences(items, r[i].0@)
    &&& forall|i: int| 0 <= i < r.len() ==> items.contains((#[trigger] r[i]).0@)
    &&& forall|k: int| 0 <= k < items.len() ==> exists|i: int| 0 <= i < r.len() && (#[trigger] r[i]).0@ == #[trigger] items[k]
}

proof fn lemma_occurrences_absent(s: Seq<Seq<char>>, t: Seq<char>)
    requires
        !s.contains(t),
    ensures
        occurrences(s, t) == 0,
    decreases s.len(),
{
    if s.len() > 0 {
        assert(!s.drop_last().contains(t)) by {
            if s.drop_last().contains(t) {
                let k = choose|k: int| 0 <= k < s.drop_last().len() && s.drop_last()[k] == t;
                assert(s[k] == t);
            }
        }
        lemma_occurrences_absent(s.drop_last(), t);
        assert(s.last() == s[s.len() - 1]);
    }
}

/// Count the occurrences of each distinct string, in order of first appearance.
pub fn tally(items: &Vec<String>) -> (r: Vec<(String, usize)>)
    ensures
        is_tally(r@, views(items@)),
{
    let mut r: Vec<(String, usize)> = Vec::new();
    let mut i: usize = 0;
    while i < items.len()
        invariant
            i <= items@.len(),
            r@.len() <= i,
            is_tally(r@, views(items@).take(i as int)),
        decreases items@.len() - i,
    {
        let ghost prefix = views(items@).take(i as int);
        let ghost next = views(items@).take(i + 1);
        assert(next =~= prefix.push(items@[i as int]@));
        assert(next.drop_last() =~= prefix);
        let mut p: usize = 0;
        while p < r.len()
            invariant
                i < items@.len(),
                p <= r@.len(),
                forall|q: int| 0 <= q < p ==> (#[trigger] r@[q]).0@ != items@[i as int]@,
            ensures
                p <= r@.len(),
                forall|q: int| 0 <= q < p ==> (#[trigger] r@[q]).0@ != items@[i as int]@,
                p < r@.len() ==> r@[p as int].0@ == items@[i as int]@,
            decreases r@.len() - p,
        {
            if str_eq(r[p].0.as_str(), items[i].as_str()) {
                break;
            }
            p = p + 1;
        }
        let found = p < r.len();
        let ghost old_r = r@;
        if found {
            let c = r[p].1;
            assert(c == occurrences(prefix, old_r[p as int].0@));
            assert(c < i + 1) by {
                lemma_occurrences_le(prefix, old_r[p as int].0@);
            }
            let name = r[p].0.clone();
            r.set(p, (name, c + 1));
            proof {
                assert forall|a: int| 0 <= a < r@.len() implies (#[trigger] r@[a]).1 == occurrences(next, r@[a].0@) by {
                    assert(r@[a].0@ == old_r[a].0@);
                }
                assert forall|a: int| 0 <= a < r@.len() implies next.contains((#[trigger] r@[a]).0@) by {
                    let w = choose|w: int| 0 <= w < prefix.len() && prefix[w] == old_r[a].0@;
                    assert(next[w] == prefix[w]);
                }
                assert forall|k: int| 0 <= k < next.len() implies exists|a: int| 0 <= a < r@.len() && (#[trigger] r@[a]).0@ == #[trigger] next[k] by {
                    if k < prefix.len() {
                        assert(next[k] == prefix[k]);
                        let a = choose|a: int| 0 <= a < old_r.len() && (#[trigger] old_r[a]).0@ == prefix[k];
                        assert(r@[a].0@ == old_r[a].0@);
                    } else {
                        assert(r@[p as int].0@ == next[k]);
                    }
                }
            }
        } else {
            proof {
                assert(!prefix.contains(items@[i as int]@)) by {
                    if prefix.contains(items@[i as int]@) {
                        let w = choose|w: int| 0 <= w < prefix.len() && prefix[w] == items@[i as int]@;
                        let a = choose|a: int| 0 <= a < old_r.len() && (#[trigger] old_r[a]).0@ == prefix[w];
                        assert(old_r[a].0@ == items@[i as int]@);
                    }
                }
                lemma_occurrences_absent(prefix, items@[i as int]@);
            }
            r.push((items[i].clone(), 1));
            proof {
                assert forall|a: int| 0 <= a < r@.len() implies (#[trigger] r@[a]).1 == occurrences(next, r@[a].0@) by {
                    if a < old_r.len() {
                        assert(r@[a] == old_r[a]);
                    }
                }
                assert forall|a: int| 0 <= a < r@.len() implies next.contains((#[trigger] r@[a]).0@) by {
                    if a < old_r.len() {
                        assert(r@[a] == old_r[a]);
                        let w = choose|w: int| 0 <= w < prefix.len() && prefix[w] == old_r[a].0@;
                        assert(next[w] == prefix[w]);
                    } else {
                        assert(next[i as int] == items@[i as int]@);
                    }
                }
                assert forall|k: int| 0 <= k < next.len() implies exists|a: int| 0 <= a < r@.len() && (#[trigger] r@[a]).0@ == #[trigger] next[k] by {
                    if k < prefix.len() {
                        assert(next[k] == prefix[k]);
                        let a = choose|a: int| 0 <= a < old_r.len() && (#[trigger] old_r[a]).0@ == prefix[k];
                        assert(r@[a] == old_r[a]);
                    } else {
                        assert(r@[old_r.len() as int].0@ == next[k]);
                    }
                }
                assert forall|x: int, y: int| 0 <= x < y < r@.len() implies (#[trigger] r@[x]).0@ != (#[trigger] r@[y]).0@ by {
                    if y == old_r.len() {
                        assert(r@[x] == old_r[x]);
                    } else {
                        assert(r@[x] == old_r[x]);
                        assert(r@[y] == old_r[y]);
                    }
                }
            }
        }
        i = i + 1;
    }
    assert(views(items@).take(items@.len() as int) =~= views(items@));
    r
}

proof fn lemma_occurrences_le(s: Seq<Seq<char>>, t: Seq<char>)
    ensures
        occurrences(s, t) <= s.len(),
    decreases s.len(),
{
    if s.len() > 0 {
        lemma_occurrences_le(s.drop_last(), t);
    }
}

} // verus!
