//! JSON values as the query engine reads them: a tree of nulls, booleans,
//! numbers, strings, arrays and objects, with the equality, the ordering and
//! the dotted-path lookup that queries use.
//!
//! A number keeps what it was written as (a non-negative integer, a negative
//! integer or a float) and the bit pattern of its nearest `f64`, by which
//! numbers are ordered. An object holds its pairs in ascending key order, as
//! the map it stands for lists them.

use vstd::prelude::*;
use crate::strings::{chars_le, chars_of, char_vec_eq, contains_str, contains_chars, str_eq, str_le};

verus! {

/// A JSON number.
#[derive(Debug, Clone, Copy, PartialEq, Eq, Structural)]
pub enum JsonNumber {
    /// A non-negative integer, with the bit pattern of its nearest `f64`.
    PosInt(u64, u64),
    /// A negative integer, with the bit pattern of its nearest `f64`.
    NegInt(i64, u64),
    /// A float, by its bit pattern.
    Float(u64),
}

/// A JSON value.
#[derive(Debug, PartialEq)]
pub enum Json {
    Null,
    Bool(bool),
    Number(JsonNumber),
    String(String),
    Array(Vec<Json>),
    /// Key-value pairs in ascending key order.
    Object(Vec<(String, Json)>),
}

/// A JSON value as mathematics: strings as character sequences, arrays and
/// objects as sequences.
pub enum JsonView {
    Null,
    Bool(bool),
    Number(JsonNumber),
    Str(Seq<char>),
    Array(Seq<JsonView>),
    /// Keys and values, position by position.
    Object(Seq<Seq<char>>, Seq<JsonView>),
}

/// Three-way comparison outcome.
#[derive(Debug, Clone, Copy, PartialEq, Eq, Structural)]
pub enum JsonOrder {
    Less,
    Equal,
    Greater,
}

/// The view of a value.
pub open spec fn jv(j: Json) -> JsonView
    decreases j, 0int,
{
    match j {
        Json::Null => JsonView::Null,
        Json::Bool(b) => JsonView::Bool(b),
        Json::Number(n) => JsonView::Number(n),
        Json::String(s) => JsonView::Str(s@),
        Json::Array(v) => JsonView::Array(jvs(v@)),
        Json::Object(p) => JsonView::Object(pair_keys(p@), jpv(p@)),
    }
}

/// The views of a sequence of values.
pub open spec fn jvs(s: Seq<Json>) -> Seq<JsonView>
    decreases s, 1int,
{
    if s.len() == 0 {
        Seq::empty()
    } else {
        jvs(s.drop_last()).push(jv(s.last()))
    }
}

/// The keys of a sequence of pairs.
pub open spec fn pair_keys(s: Seq<(String, Json)>) -> Seq<Seq<char>> {
    s.map_values(|p: (String, Json)| p.0@)
}

/// The views of the values of a sequence of pairs.
pub open spec fn jpv(s: Seq<(String, Json)>) -> Seq<JsonView>
    decreases s, 1int,
{
    if s.len() == 0 {
        Seq::empty()
    } else {
        jpv(s.drop_last()).push(jv(s.last().1))
    }
}

impl View for Json {
    type V = JsonView;

    open spec fn view(&self) -> JsonView {
        jv(*self)
    }
}

/// `jvs` keeps the length and views each element.
pub proof fn lemma_jvs(s: Seq<Json>)
    ensures
        jvs(s).len() == s.len(),
        forall|i: int| 0 <= i < s.len() ==> #[trigger] jvs(s)[i] == jv(s[i]),
    decreases s.len(),
{
    if s.len() > 0 {
        lemma_jvs(s.drop_last());
        assert forall|i: int| 0 <= i < s.len() implies #[trigger] jvs(s)[i] == jv(s[i]) by {
            if i < s.len() - 1 {
                assert(s.drop_last()[i] == s[i]);
            }
        }
    }
}

/// `jpv` keeps the length and views each value.
pub proof fn lemma_jpv(s: Seq<(String, Json)>)
    ensures
        jpv(s).len() == s.len(),
        forall|i: int| 0 <= i < s.len() ==> #[trigger] jpv(s)[i] == jv(s[i].1),
    decreases s.len(),
{
    if s.len() > 0 {
        lemma_jpv(s.drop_last());
        assert forall|i: int| 0 <= i < s.len() implies #[trigger] jpv(s)[i] == jv(s[i].1) by {
            if i < s.len() - 1 {
                assert(s.drop_last()[i] == s[i]);
            }
        }
    }
}

/// The bit pattern of a number's nearest `f64`.
pub open spec fn f64_bits(n: JsonNumber) -> u64 {
    match n {
        JsonNumber::PosInt(_, b) => b,
        JsonNumber::NegInt(_, b) => b,
        JsonNumber::Float(b) => b,
    }
}

/// The magnitude bits of an `f64` pattern (all but the sign).
pub open spec fn f64_magnitude(b: u64) -> u64 {
    (b % 0x8000_0000_0000_0000) as u64
}

/// Whether an `f64` pattern is NaN.
pub open spec fn f64_is_nan(b: u64) -> bool {
    f64_magnitude(b) > 0x7FF0_0000_0000_0000
}

/// Float equality on `f64` patterns: never for NaN, and `-0.0 == 0.0`.
pub open spec fn f64_eq(a: u64, b: u64) -> bool {
    !f64_is_nan(a) && !f64_is_nan(b) && (a == b || (f64_magnitude(a) == 0 && f64_magnitude(b) == 0))
}

/// Float `<` on `f64` patterns.
pub open spec fn f64_lt(a: u64, b: u64) -> bool {
    &&& !f64_is_nan(a)
    &&& !f64_is_nan(b)
    &&& !(f64_magnitude(a) == 0 && f64_magnitude(b) == 0)
    &&& if a >= 0x8000_0000_0000_0000 && b < 0x8000_0000_0000_0000 {
        true
    } else if a < 0x8000_0000_0000_0000 && b >= 0x8000_0000_0000_0000 {
        false
    } else if a < 0x8000_0000_0000_0000 {
        f64_magnitude(a) < f64_magnitude(b)
    } else {
        f64_magnitude(a) > f64_magnitude(b)
    }
}

/// `partial_cmp` of two `f64` patterns.
pub open spec fn f64_cmp(a: u64, b: u64) -> Option<JsonOrder> {
    if f64_is_nan(a) || f64_is_nan(b) {
        None
    } else if f64_eq(a, b) {
        Some(JsonOrder::Equal)
    } else if f64_lt(a, b) {
        Some(JsonOrder::Less)
    } else {
        Some(JsonOrder::Greater)
    }
}

/// `partial_cmp` of two `f64` patterns.
pub fn f64_compare(a: u64, b: u64) -> (r: Option<JsonOrder>)
    ensures
        r == f64_cmp(a, b),
{
    let ma = a % 0x8000_0000_0000_0000;
    let mb = b % 0x8000_0000_0000_0000;
    if ma > 0x7FF0_0000_0000_0000 || mb > 0x7FF0_0000_0000_0000 {
        return None;
    }
    if a == b || (ma == 0 && mb == 0) {
        return Some(JsonOrder::Equal);
    }
    let na = a >= 0x8000_0000_0000_0000;
    let nb = b >= 0x8000_0000_0000_0000;
    let less = if na && !nb {
        true
    } else if !na && nb {
        false
    } else if !na {
        ma < mb
    } else {
        ma > mb
    };
    if less {
        Some(JsonOrder::Less)
    } else {
        Some(JsonOrder::Greater)
    }
}

/// Number equality: the same kind and the same value (floats as floats).
pub open spec fn num_eq(a: JsonNumber, b: JsonNumber) -> bool {
    match (a, b) {
        (JsonNumber::PosInt(x, _), JsonNumber::PosInt(y, _)) => x == y,
        (JsonNumber::NegInt(x, _), JsonNumber::NegInt(y, _)) => x == y,
        (JsonNumber::Float(x), JsonNumber::Float(y)) => f64_eq(x, y),
        _ => false,
    }
}

/// Value equality: the same variant, with equal contents; arrays element by
/// element, objects pair by pair.
pub open spec fn jeq(a: JsonView, b: JsonView) -> bool
    decreases a, 1int,
{
    match a {
        JsonView::Null => b is Null,
        JsonView::Bool(x) => match b {
            JsonView::Bool(y) => x == y,
            _ => false,
        },
        JsonView::Number(x) => match b {
            JsonView::Number(y) => num_eq(x, y),
            _ => false,
        },
        JsonView::Str(x) => match b {
            JsonView::Str(y) => x == y,
            _ => false,
        },
        JsonView::Array(xs) => match b {
            JsonView::Array(ys) => jeqs(xs, ys),
            _ => false,
        },
        JsonView::Object(ks, vs) => match b {
            JsonView::Object(ks2, vs2) => ks == ks2 && jeqs(vs, vs2),
            _ => false,
        },
    }
}

/// Element-wise equality of two sequences of values.
pub open spec fn jeqs(xs: Seq<JsonView>, ys: Seq<JsonView>) -> bool
    decreases xs, 0int,
{
    xs.len() == ys.len() && (xs.len() == 0 || (jeqs(xs.drop_last(), ys.drop_last()) && jeq(xs.last(), ys.last())))
}

/// `jeqs` is equal length and equal elements.
pub proof fn lemma_jeqs(xs: Seq<JsonView>, ys: Seq<JsonView>)
    ensures
        jeqs(xs, ys) <==> (xs.len() == ys.len() && forall|i: int| 0 <= i < xs.len() ==> #[trigger] jeq(xs[i], ys[i])),
    decreases xs.len(),
{
    if xs.len() > 0 && xs.len() == ys.len() {
        lemma_jeqs(xs.drop_last(), ys.drop_last());
        if jeqs(xs, ys) {
            assert forall|i: int| 0 <= i < xs.len() implies #[trigger] jeq(xs[i], ys[i]) by {
                if i < xs.len() - 1 {
                    assert(xs.drop_last()[i] == xs[i] && ys.drop_last()[i] == ys[i]);
                }
            }
        }
        if forall|i: int| 0 <= i < xs.len() ==> #[trigger] jeq(xs[i], ys[i]) {
            assert forall|i: int| 0 <= i < xs.drop_last().len() implies #[trigger] jeq(xs.drop_last()[i], ys.drop_last()[i]) by {
                assert(jeq(xs[i], ys[i]));
            }
            assert(jeq(xs[xs.len() - 1], ys[ys.len() - 1]));
        }
    }
}

/// Two arrays are equal when they have equal lengths and equal elements.
pub proof fn lemma_jeq_arrays(xs: Seq<JsonView>, ys: Seq<JsonView>)
    ensures
        jeq(JsonView::Array(xs), JsonView::Array(ys))
            <==> (xs.len() == ys.len() && forall|i: int| 0 <= i < xs.len() ==> #[trigger] jeq(xs[i], ys[i])),
{
    lemma_jeqs(xs, ys);
}

/// Two objects are equal when they have the same keys and equal values.
pub proof fn lemma_jeq_objects(ks: Seq<Seq<char>>, xs: Seq<JsonView>, ks2: Seq<Seq<char>>, ys: Seq<JsonView>)
    ensures
        jeq(JsonView::Object(ks, xs), JsonView::Object(ks2, ys))
            <==> (ks == ks2 && xs.len() == ys.len() && forall|i: int| 0 <= i < xs.len() ==> #[trigger] jeq(xs[i], ys[i])),
{
    lemma_jeqs(xs, ys);
}

/// An element equal to `item` puts it in an array.
pub proof fn lemma_jcontains_array(xs: Seq<JsonView>, item: JsonView, i: int)
    requires
        0 <= i < xs.len(),
        jeq(xs[i], item),
    ensures
        jcontains(JsonView::Array(xs), item),
{
    assert(exists|k: int| 0 <= k < xs.len() && #[trigger] jeq(xs[k], item));
    let c = JsonView::Array(xs);
    assert(c->Array_0 == xs);
    assert(jcontains(c, item) == exists|k: int| 0 <= k < xs.len() && #[trigger] jeq(xs[k], item));
}

/// `partial_cmp` of two values as queries order them: null before anything,
/// numbers by their `f64`, strings by characters, `false` before `true`, and
/// no order between other kinds.
pub open spec fn jcmp(a: JsonView, b: JsonView) -> Option<JsonOrder> {
    match (a, b) {
        (JsonView::Null, JsonView::Null) => Some(JsonOrder::Equal),
        (JsonView::Null, _) => Some(JsonOrder::Less),
        (_, JsonView::Null) => Some(JsonOrder::Greater),
        (JsonView::Number(x), JsonView::Number(y)) => f64_cmp(f64_bits(x), f64_bits(y)),
        (JsonView::Str(x), JsonView::Str(y)) => Some(
            if x == y {
                JsonOrder::Equal
            } else if chars_le(x, y) {
                JsonOrder::Less
            } else {
                JsonOrder::Greater
            },
        ),
        (JsonView::Bool(x), JsonView::Bool(y)) => Some(
            if x == y {
                JsonOrder::Equal
            } else if !x {
                JsonOrder::Less
            } else {
                JsonOrder::Greater
            },
        ),
        _ => None,
    }
}

/// Whether `item` is in `container`: a substring of a string, an element of
/// an array, a key of an object.
pub open spec fn jcontains(container: JsonView, item: JsonView) -> bool {
    match container {
        JsonView::Str(s) => match item {
            JsonView::Str(t) => contains_chars(s, t),
            _ => false,
        },
        JsonView::Array(xs) => exists|i: int| 0 <= i < xs.len() && #[trigger] jeq(xs[i], item),
        JsonView::Object(ks, _) => match item {
            JsonView::Str(k) => ks.contains(k),
            _ => false,
        },
        _ => false,
    }
}

/// `s` split at each `.` (an empty string gives one empty part).
pub open spec fn split_dots(s: Seq<char>) -> Seq<Seq<char>>
    decreases s.len(),
{
    if s.len() == 0 {
        seq![Seq::empty()]
    } else {
        let rest = split_dots(s.drop_first());
        if s[0] == '.' {
            seq![Seq::<char>::empty()] + rest
        } else {
            rest.update(0, seq![s[0]] + rest[0])
        }
    }
}

/// Whether every character is an ASCII digit.
pub open spec fn all_digits(d: Seq<char>) -> bool {
    forall|i: int| 0 <= i < d.len() ==> '0' <= #[trigger] d[i] && d[i] <= '9'
}

/// The number that the decimal digits `d` write.
pub open spec fn digits_value(d: Seq<char>) -> nat
    decreases d.len(),
{
    if d.len() == 0 {
        0
    } else {
        (digits_value(d.drop_last()) * 10 + (d.last() as int - 48)) as nat
    }
}

/// The index that an array path part writes: one or more decimal digits,
/// after an optional `+`.
pub open spec fn index_of_part(p: Seq<char>) -> Option<nat> {
    let d = if p.len() > 0 && p[0] == '+' { p.drop_first() } else { p };
    if d.len() > 0 && all_digits(d) {
        Some(digits_value(d))
    } else {
        None
    }
}

/// The value under the first occurrence of key `k`.
pub open spec fn obj_get(ks: Seq<Seq<char>>, vs: Seq<JsonView>, k: Seq<char>) -> Option<JsonView>
    decreases ks.len(),
{
    if ks.len() == 0 || vs.len() == 0 {
        None
    } else if ks[0] == k {
        Some(vs[0])
    } else {
        obj_get(ks.drop_first(), vs.drop_first(), k)
    }
}

/// One step of a path: a key of an object, or an index of an array.
pub open spec fn path_step(v: JsonView, part: Seq<char>) -> Option<JsonView> {
    match v {
        JsonView::Object(ks, vs) => obj_get(ks, vs, part),
        JsonView::Array(xs) => match index_of_part(part) {
            Some(n) => if n < xs.len() { Some(xs[n as int]) } else { None },
            None => None,
        },
        _ => None,
    }
}

/// The value reached by following `parts` from `v`.
pub open spec fn jget(v: JsonView, parts: Seq<Seq<char>>) -> Option<JsonView>
    decreases parts.len(),
{
    if parts.len() == 0 {
        Some(v)
    } else {
        match path_step(v, parts[0]) {
            Some(w) => jget(w, parts.drop_first()),
            None => None,
        }
    }
}

/// The value at the dotted path `field`.
pub open spec fn field_of(v: JsonView, field: Seq<char>) -> Option<JsonView> {
    jget(v, split_dots(field))
}

/// The view of an optional value.
pub open spec fn opt_view(o: Option<Json>) -> Option<JsonView> {
    match o {
        Some(j) => Some(jv(j)),
        None => None,
    }
}

impl Json {
    /// A copy of this value.
    pub fn duplicate(&self) -> (r: Json)
        ensures
            r@ == self@,
        decreases self,
    {
        match self {
            Json::Null => Json::Null,
            Json::Bool(b) => Json::Bool(*b),
            Json::Number(n) => Json::Number(*n),
            Json::String(s) => Json::String(s.clone()),
            Json::Array(xs) => {
                let mut out: Vec<Json> = Vec::new();
                let mut i: usize = 0;
                while i < xs.len()
                    invariant
                        *self == Json::Array(*xs),
                        i <= xs@.len(),
                        jvs(out@) == jvs(xs@.take(i as int)),
                    decreases xs@.len() - i,
                {
                    proof {
                        assert(decreases_to!(*self => self->Array_0));
                        assert(decreases_to!(*xs => xs@));
                        assert(decreases_to!(xs@ => xs@[i as int]));
                    }
                    let d = xs[i].duplicate();
                    let ghost before = out@;
                    out.push(d);
                    proof {
                        assert(out@.drop_last() =~= before);
                        assert(xs@.take(i + 1).drop_last() =~= xs@.take(i as int));
                    }
                    i = i + 1;
                }
                proof {
                    assert(xs@.take(xs@.len() as int) =~= xs@);
                }
                Json::Array(out)
            },
            Json::Object(ps) => {
                let mut out: Vec<(String, Json)> = Vec::new();
                let mut i: usize = 0;
                while i < ps.len()
                    invariant
                        *self == Json::Object(*ps),
                        i <= ps@.len(),
                        pair_keys(out@) == pair_keys(ps@.take(i as int)),
                        jpv(out@) == jpv(ps@.take(i as int)),
                    decreases ps@.len() - i,
                {
                    proof {
                        assert(decreases_to!(*self => self->Object_0));
                        assert(decreases_to!(*ps => ps@));
                        assert(decreases_to!(ps@ => ps@[i as int]));
                        assert(decreases_to!(ps@[i as int] => ps@[i as int].1));
                    }
                    let d = ps[i].1.duplicate();
                    let ghost before = out@;
                    out.push((ps[i].0.clone(), d));
                    proof {
                        assert(out@.drop_last() =~= before);
                        assert(ps@.take(i + 1).drop_last() =~= ps@.take(i as int));
                        assert(pair_keys(out@) =~= pair_keys(before).push(ps@[i as int].0@));
                        assert(pair_keys(ps@.take(i + 1)) =~= pair_keys(ps@.take(i as int)).push(ps@[i as int].0@));
                    }
                    i = i + 1;
                }
                proof {
                    assert(ps@.take(ps@.len() as int) =~= ps@);
                }
                Json::Object(out)
            },
        }
    }

    /// Whether this value is null.
    pub fn is_null(&self) -> (r: bool)
        ensures
            r == (self@ is Null),
    {
        match self {
            Json::Null => true,
            _ => false,
        }
    }
}

/// Number equality.
pub fn num_equal(a: &JsonNumber, b: &JsonNumber) -> (r: bool)
    ensures
        r == num_eq(*a, *b),
{
    match (a, b) {
        (JsonNumber::PosInt(x, _), JsonNumber::PosInt(y, _)) => *x == *y,
        (JsonNumber::NegInt(x, _), JsonNumber::NegInt(y, _)) => *x == *y,
        (JsonNumber::Float(x), JsonNumber::Float(y)) => match f64_compare(*x, *y) {
            Some(JsonOrder::Equal) => true,
            _ => false,
        },
        _ => false,
    }
}

/// Value equality.
pub fn json_equal(a: &Json, b: &Json) -> (r: bool)
    ensures
        r == jeq(a@, b@),
    decreases a,
{
    match (a, b) {
        (Json::Null, Json::Null) => true,
        (Json::Bool(x), Json::Bool(y)) => *x == *y,
        (Json::Number(x), Json::Number(y)) => num_equal(x, y),
        (Json::String(x), Json::String(y)) => str_eq(x.as_str(), y.as_str()),
        (Json::Array(xs), Json::Array(ys)) => {
            proof {
                lemma_jvs(xs@);
                lemma_jvs(ys@);
                lemma_jeq_arrays(jvs(xs@), jvs(ys@));
            }
            if xs.len() != ys.len() {
                return false;
            }
            let mut i: usize = 0;
            while i < xs.len()
                invariant
                    *a == Json::Array(*xs),
                    *b == Json::Array(*ys),
                    i <= xs@.len(),
                    xs@.len() == ys@.len(),
                    jvs(xs@).len() == xs@.len(),
                    jvs(ys@).len() == ys@.len(),
                    forall|k: int| 0 <= k < xs@.len() ==> #[trigger] jvs(xs@)[k] == jv(xs@[k]),
                    forall|k: int| 0 <= k < ys@.len() ==> #[trigger] jvs(ys@)[k] == jv(ys@[k]),
                    forall|k: int| 0 <= k < i ==> #[trigger] jeq(jvs(xs@)[k], jvs(ys@)[k]),
                decreases xs@.len() - i,
            {
                proof {
                    assert(decreases_to!(*a => a->Array_0));
                    assert(decreases_to!(*xs => xs@));
                    assert(decreases_to!(xs@ => xs@[i as int]));
                }
                if !json_equal(&xs[i], &ys[i]) {
                    proof {
                        assert(!jeq(jvs(xs@)[i as int], jvs(ys@)[i as int]));
                        lemma_jeq_arrays(jvs(xs@), jvs(ys@));
                    }
                    return false;
                }
                i = i + 1;
            }
            true
        },
        (Json::Object(xs), Json::Object(ys)) => {
            proof {
                lemma_jpv(xs@);
                lemma_jpv(ys@);
                lemma_jeq_objects(pair_keys(xs@), jpv(xs@), pair_keys(ys@), jpv(ys@));
            }
            if xs.len() != ys.len() {
                proof {
                    assert(pair_keys(xs@).len() != pair_keys(ys@).len());
                }
                return false;
            }
            let mut i: usize = 0;
            while i < xs.len()
                invariant
                    *a == Json::Object(*xs),
                    *b == Json::Object(*ys),
                    i <= xs@.len(),
                    xs@.len() == ys@.len(),
                    jpv(xs@).len() == xs@.len(),
                    jpv(ys@).len() == ys@.len(),
                    forall|k: int| 0 <= k < xs@.len() ==> #[trigger] jpv(xs@)[k] == jv(xs@[k].1),
                    forall|k: int| 0 <= k < ys@.len() ==> #[trigger] jpv(ys@)[k] == jv(ys@[k].1),
                    forall|k: int| 0 <= k < i ==> (#[trigger] xs@[k]).0@ == ys@[k].0@,
                    forall|k: int| 0 <= k < i ==> #[trigger] jeq(jpv(xs@)[k], jpv(ys@)[k]),
                decreases xs@.len() - i,
            {
                if !str_eq(xs[i].0.as_str(), ys[i].0.as_str()) {
                    proof {
                        assert(pair_keys(xs@)[i as int] != pair_keys(ys@)[i as int]);
                        lemma_jeq_objects(pair_keys(xs@), jpv(xs@), pair_keys(ys@), jpv(ys@));
                    }
                    return false;
                }
                proof {
                    assert(decreases_to!(*a => a->Object_0));
                    assert(decreases_to!(*xs => xs@));
                    assert(decreases_to!(xs@ => xs@[i as int]));
                    assert(decreases_to!(xs@[i as int] => xs@[i as int].1));
                }
                if !json_equal(&xs[i].1, &ys[i].1) {
                    proof {
                        assert(!jeq(jpv(xs@)[i as int], jpv(ys@)[i as int]));
                        lemma_jeq_objects(pair_keys(xs@), jpv(xs@), pair_keys(ys@), jpv(ys@));
                    }
                    return false;
                }
                i = i + 1;
            }
            proof {
                assert(pair_keys(xs@) =~= pair_keys(ys@));
                lemma_jeq_objects(pair_keys(xs@), jpv(xs@), pair_keys(ys@), jpv(ys@));
            }
            true
        },
        _ => false,
    }
}

/// Compare two values as queries order them.
pub fn compare_json(a: &Json, b: &Json) -> (r: Option<JsonOrder>)
    ensures
        r == jcmp(a@, b@),
{
    match (a, b) {
        (Json::Null, Json::Null) => Some(JsonOrder::Equal),
        (Json::Null, _) => Some(JsonOrder::Less),
        (_, Json::Null) => Some(JsonOrder::Greater),
        (Json::Number(x), Json::Number(y)) => {
            let bx = match x {
                JsonNumber::PosInt(_, b) => *b,
                JsonNumber::NegInt(_, b) => *b,
                JsonNumber::Float(b) => *b,
            };
            let by = match y {
                JsonNumber::PosInt(_, b) => *b,
                JsonNumber::NegInt(_, b) => *b,
                JsonNumber::Float(b) => *b,
            };
            f64_compare(bx, by)
        },
        (Json::String(x), Json::String(y)) => {
            if str_eq(x.as_str(), y.as_str()) {
                Some(JsonOrder::Equal)
            } else if str_le(x.as_str(), y.as_str()) {
                Some(JsonOrder::Less)
            } else {
                Some(JsonOrder::Greater)
            }
        },
        (Json::Bool(x), Json::Bool(y)) => {
            if *x == *y {
                Some(JsonOrder::Equal)
            } else if !*x {
                Some(JsonOrder::Less)
            } else {
                Some(JsonOrder::Greater)
            }
        },
        _ => None,
    }
}

/// Whether `item` is in `container` (substring, element or key).
pub fn json_contains(container: &Json, item: &Json) -> (r: bool)
    ensures
        r == jcontains(container@, item@),
{
    match container {
        Json::String(s) => match item {
            Json::String(t) => contains_str(s.as_str(), t.as_str()),
            _ => false,
        },
        Json::Array(xs) => {
            proof {
                lemma_jvs(xs@);
            }
            let mut i: usize = 0;
            while i < xs.len()
                invariant
                    container@ == JsonView::Array(jvs(xs@)),
                    i <= xs@.len(),
                    jvs(xs@).len() == xs@.len(),
                    forall|k: int| 0 <= k < xs@.len() ==> #[trigger] jvs(xs@)[k] == jv(xs@[k]),
                    forall|k: int| 0 <= k < i ==> !#[trigger] jeq(jvs(xs@)[k], item@),
                decreases xs@.len() - i,
            {
                if json_equal(&xs[i], item) {
                    proof {
                        lemma_jcontains_array(jvs(xs@), item@, i as int);
                    }
                    return true;
                }
                i = i + 1;
            }
            false
        },
        Json::Object(ps) => match item {
            Json::String(k) => {
                let mut i: usize = 0;
                while i < ps.len()
                    invariant
                        container@ == JsonView::Object(pair_keys(ps@), jpv(ps@)),
                        item@ == JsonView::Str(k@),
                        i <= ps@.len(),
                        forall|q: int| 0 <= q < i ==> (#[trigger] ps@[q]).0@ != k@,
                    decreases ps@.len() - i,
                {
                    if str_eq(ps[i].0.as_str(), k.as_str()) {
                        proof {
                            assert(pair_keys(ps@)[i as int] == k@);
                        }
                        return true;
                    }
                    i = i + 1;
                }
                proof {
                    if pair_keys(ps@).contains(k@) {
                        let q = choose|q: int| 0 <= q < pair_keys(ps@).len() && pair_keys(ps@)[q] == k@;
                        assert(ps@[q].0@ == k@);
                    }
                }
                false
            },
            _ => false,
        },
        _ => false,
    }
}

/// The character sequences of a sequence of character vectors.
pub open spec fn char_segments(v: Seq<Vec<char>>) -> Seq<Seq<char>> {
    v.map_values(|x: Vec<char>| x@)
}

/// Split `s` at each `.`.
pub fn split_dots_exec(s: &Vec<char>) -> (r: Vec<Vec<char>>)
    ensures
        char_segments(r@) == split_dots(s@),
{
    let mut segs: Vec<Vec<char>> = Vec::new();
    let mut cur: Vec<char> = Vec::new();
    let mut i: usize = s.len();
    proof {
        assert(s@.subrange(i as int, s@.len() as int) =~= Seq::<char>::empty());
        assert(seq![cur@] + char_segments(segs@) =~= seq![Seq::<char>::empty()]);
    }
    while i > 0
        invariant
            i <= s@.len(),
            split_dots(s@.subrange(i as int, s@.len() as int)) == seq![cur@] + char_segments(segs@),
        decreases i,
    {
        let c = s[i - 1];
        let ghost t = s@.subrange(i - 1, s@.len() as int);
        let ghost rest = split_dots(s@.subrange(i as int, s@.len() as int));
        proof {
            assert(t.drop_first() =~= s@.subrange(i as int, s@.len() as int));
            assert(t[0] == c);
        }
        if c == '.' {
            let ghost before = segs@;
            let done = cur;
            segs.insert(0, done);
            cur = Vec::new();
            proof {
                assert(segs@ =~= seq![done] + before);
                assert(char_segments(segs@) =~= seq![done@] + char_segments(before));
                assert(seq![Seq::<char>::empty()] + rest =~= seq![cur@] + char_segments(segs@));
            }
        } else {
            let ghost before = cur@;
            cur.insert(0, c);
            proof {
                assert(cur@ =~= seq![c] + before);
                assert(rest.update(0, seq![c] + rest[0]) =~= seq![cur@] + char_segments(segs@));
            }
        }
        i = i - 1;
    }
    proof {
        assert(s@.subrange(0, s@.len() as int) =~= s@);
    }
    let ghost before = segs@;
    let last = cur;
    segs.insert(0, last);
    proof {
        assert(segs@ =~= seq![last] + before);
        assert(char_segments(segs@) =~= seq![last@] + char_segments(before));
    }
    segs
}

/// A prefix of digits writes no more than the whole.
proof fn lemma_digits_prefix(d: Seq<char>, k: int)
    requires
        all_digits(d),
        0 <= k <= d.len(),
    ensures
        digits_value(d.subrange(0, k)) <= digits_value(d),
    decreases d.len(),
{
    if k < d.len() {
        let e = d.drop_last();
        assert(all_digits(e)) by {
            assert forall|i: int| 0 <= i < e.len() implies '0' <= #[trigger] e[i] && e[i] <= '9' by {
                assert(e[i] == d[i]);
            }
        }
        lemma_digits_prefix(e, k);
        assert(e.subrange(0, k) =~= d.subrange(0, k));
        assert('0' <= d[d.len() - 1]);
    } else {
        assert(d.subrange(0, k) =~= d);
    }
}

/// The array index that a path part writes, if it is below `len`.
pub fn parse_index(part: &Vec<char>, len: usize) -> (r: Option<usize>)
    ensures
        r == match index_of_part(part@) {
            Some(n) => if n < len { Some(n as usize) } else { None },
            None => None,
        },
{
    let mut start: usize = 0;
    if part.len() > 0 && part[0] == '+' {
        start = 1;
    }
    let ghost d = part@.subrange(start as int, part@.len() as int);
    proof {
        if start == 1 {
            assert(d =~= part@.drop_first());
        } else {
            assert(d =~= part@);
        }
    }
    if start == part.len() || len == 0 {
        return None;
    }
    let mut acc: u128 = 0;
    let mut j: usize = start;
    proof {
        assert(part@.subrange(start as int, j as int) =~= Seq::<char>::empty());
    }
    while j < part.len()
        invariant
            start <= j <= part@.len(),
            start < part@.len(),
            d == part@.subrange(start as int, part@.len() as int),
            index_of_part(part@) == (if d.len() > 0 && all_digits(d) { Some(digits_value(d)) } else { None::<nat> }),
            all_digits(part@.subrange(start as int, j as int)),
            acc == digits_value(part@.subrange(start as int, j as int)),
            acc < len,
        decreases part@.len() - j,
    {
        let c = part[j];
        let ghost pre = part@.subrange(start as int, j as int);
        let ghost next = part@.subrange(start as int, j + 1);
        proof {
            assert(next.drop_last() =~= pre);
            assert(next.last() == c);
            assert(d[j - start] == c);
        }
        if c < '0' || c > '9' {
            return None;
        }
        let digit: u32 = (c as u32) - 48;
        acc = acc * 10 + (digit as u128);
        proof {
            assert(all_digits(next)) by {
                assert forall|q: int| 0 <= q < next.len() implies '0' <= #[trigger] next[q] && next[q] <= '9' by {
                    if q < pre.len() {
                        assert(next[q] == pre[q]);
                    }
                }
            }
        }
        if acc >= len as u128 {
            proof {
                if all_digits(d) {
                    assert(d.subrange(0, j + 1 - start) =~= next);
                    lemma_digits_prefix(d, j + 1 - start);
                }
            }
            return None;
        }
        j = j + 1;
    }
    proof {
        assert(part@.subrange(start as int, j as int) =~= d);
    }
    Some(acc as usize)
}

/// Dropping pairs of other keys from the front keeps the first value of a key.
proof fn lemma_obj_get_skip(ks: Seq<Seq<char>>, vs: Seq<JsonView>, k: Seq<char>, n: int)
    requires
        ks.len() == vs.len(),
        0 <= n <= ks.len(),
        forall|q: int| 0 <= q < n ==> ks[q] != k,
    ensures
        obj_get(ks, vs, k) == obj_get(ks.skip(n), vs.skip(n), k),
    decreases n,
{
    if n > 0 {
        assert(ks[0] != k);
        lemma_obj_get_skip(ks.drop_first(), vs.drop_first(), k, n - 1);
        assert(ks.drop_first().skip(n - 1) =~= ks.skip(n));
        assert(vs.drop_first().skip(n - 1) =~= vs.skip(n));
    } else {
        assert(ks.skip(0) =~= ks);
        assert(vs.skip(0) =~= vs);
    }
}

/// The position of the first pair with key `key`.
fn find_key(pairs: &Vec<(String, Json)>, key: &Vec<char>) -> (r: Option<usize>)
    ensures
        match r {
            Some(k) => k < pairs@.len() && obj_get(pair_keys(pairs@), jpv(pairs@), key@) == Some(jv(pairs@[k as int].1)),
            None => obj_get(pair_keys(pairs@), jpv(pairs@), key@) is None,
        },
{
    proof {
        lemma_jpv(pairs@);
    }
    let ghost ks = pair_keys(pairs@);
    let ghost vs = jpv(pairs@);
    let mut k: usize = 0;
    while k < pairs.len()
        invariant
            ks == pair_keys(pairs@),
            vs == jpv(pairs@),
            vs.len() == pairs@.len(),
            forall|q: int| 0 <= q < pairs@.len() ==> #[trigger] vs[q] == jv(pairs@[q].1),
            k <= pairs@.len(),
            forall|q: int| 0 <= q < k ==> ks[q] != key@,
        decreases pairs@.len() - k,
    {
        let name = chars_of(pairs[k].0.as_str());
        if char_vec_eq(&name, key) {
            proof {
                lemma_obj_get_skip(ks, vs, key@, k as int);
                assert(ks.skip(k as int)[0] == key@);
                assert(vs.skip(k as int)[0] == vs[k as int]);
            }
            return Some(k);
        }
        k = k + 1;
    }
    proof {
        lemma_obj_get_skip(ks, vs, key@, k as int);
    }
    None
}

/// The value at the dotted path `field` of `value`: object keys and array
/// indexes, one per part.
pub fn get_field(value: &Json, field: &str) -> (r: Option<Json>)
    ensures
        opt_view(r) == field_of(value@, field@),
{
    let chars = chars_of(field);
    let parts = split_dots_exec(&chars);
    let ghost ps = split_dots(field@);
    let mut cur: &Json = value;
    let mut i: usize = 0;
    proof {
        assert(ps.skip(0) =~= ps);
        assert(char_segments(parts@).len() == parts@.len());
    }
    while i < parts.len()
        invariant
            i <= parts@.len(),
            ps == split_dots(field@),
            char_segments(parts@) == ps,
            ps.len() == parts@.len(),
            jget(value@, ps) == jget(cur@, ps.skip(i as int)),
        decreases parts@.len() - i,
    {
        let ghost here = ps.skip(i as int);
        proof {
            assert(here[0] == parts@[i as int]@);
            assert(here.drop_first() =~= ps.skip(i + 1));
        }
        match cur {
            Json::Object(pairs) => {
                match find_key(pairs, &parts[i]) {
                    Some(k) => {
                        cur = &pairs[k].1;
                    },
                    None => {
                        proof {
                            assert(cur@ == JsonView::Object(pair_keys(pairs@), jpv(pairs@)));
                            assert(path_step(cur@, here[0]) is None);
                        }
                        return None;
                    },
                }
            },
            Json::Array(xs) => {
                proof {
                    lemma_jvs(xs@);
                }
                match parse_index(&parts[i], xs.len()) {
                    Some(n) => {
                        cur = &xs[n];
                    },
                    None => {
                        proof {
                            assert(cur@ == JsonView::Array(jvs(xs@)));
                            assert(path_step(cur@, here[0]) is None);
                        }
                        return None;
                    },
                }
            },
            _ => {
                return None;
            },
        }
        i = i + 1;
    }
    proof {
        assert(ps.skip(i as int) =~= Seq::<Seq<char>>::empty());
    }
    Some(cur.duplicate())
}

/// The opposite outcome.
pub open spec fn flip(o: JsonOrder) -> JsonOrder {
    match o {
        JsonOrder::Less => JsonOrder::Greater,
        JsonOrder::Equal => JsonOrder::Equal,
        JsonOrder::Greater => JsonOrder::Less,
    }
}

/// Comparing the other way round gives the opposite outcome.
pub proof fn lemma_jcmp_flip(a: JsonView, b: JsonView)
    ensures
        jcmp(b, a) == match jcmp(a, b) {
            Some(o) => Some(flip(o)),
            None => None::<JsonOrder>,
        },
{
    match (a, b) {
        (JsonView::Str(x), JsonView::Str(y)) => {
            crate::strings::lemma_chars_le_total(x, y);
            if chars_le(x, y) && chars_le(y, x) {
                crate::strings::lemma_chars_le_antisymmetric(x, y);
            }
        },
        _ => {},
    }
}

} // verus!
