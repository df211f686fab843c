//! The query engine: filters over JSON values, projections, sorting, limits,
//! aggregations, and queries over the versions of a key.

use vstd::prelude::*;
use crate::json::{
    field_of, flip, get_field, jcmp, jcontains, jeq, jv, jvs, json_contains, json_equal, compare_json, f64_bits,
    lemma_jcmp_flip, lemma_jvs, pair_keys, jpv, lemma_jpv, Json, JsonNumber, JsonOrder, JsonView,
};
use crate::storage::{entry_view, HistoryEntry};
use crate::strings::{chars_le, str_eq, str_le, views};

verus! {

/// What `regex::Regex::new(pattern)` and then `is_match(text)` answer: whether
/// the pattern compiles and matches somewhere in `text`.
pub uninterp spec fn regex_accepts(pattern: Seq<char>, text: Seq<char>) -> bool;

/// `regex::Regex::new(pattern)`, then `Regex::is_match(text)`: true if and only
/// if the pattern compiles and there is a match for it anywhere in `text`;
/// false for a pattern that does not compile. The outcome depends on the two
/// strings alone; the regular-expression language itself is left unsaid.
#[verifier::external_body]
fn regex_matches(pattern: &str, text: &str) -> (r: bool)
    ensures
        r == regex_accepts(pattern@, text@),
{
    match regex::Regex::new(pattern) {
        Ok(re) => re.is_match(text),
        Err(_) => false,
    }
}

/// A filter condition for querying data.
#[derive(Debug)]
pub enum Filter {
    /// Field equals value.
    Eq { field: String, value: Json },
    /// Field not equals value (or is missing).
    Ne { field: String, value: Json },
    /// Field greater than value.
    Gt { field: String, value: Json },
    /// Field greater than or equal to value.
    Gte { field: String, value: Json },
    /// Field less than value.
    Lt { field: String, value: Json },
    /// Field less than or equal to value.
    Lte { field: String, value: Json },
    /// Field contains substring (for strings), element (for arrays) or key (for objects).
    Contains { field: String, value: Json },
    /// Field exists (is present and not null).
    Exists { field: String },
    /// Field is a string that the regex pattern matches.
    Matches { field: String, pattern: String },
    /// Logical AND of multiple filters.
    And(Vec<Filter>),
    /// Logical OR of multiple filters.
    Or(Vec<Filter>),
    /// Logical NOT of a filter.
    Not(Box<Filter>),
}

/// Whether the value at `field` of `v` is present and compares as `pred` asks.
pub open spec fn compares(v: JsonView, field: Seq<char>, value: JsonView, less: bool, equal: bool, greater: bool) -> bool {
    match field_of(v, field) {
        Some(x) => match jcmp(x, value) {
            Some(JsonOrder::Less) => less,
            Some(JsonOrder::Equal) => equal,
            Some(JsonOrder::Greater) => greater,
            None => false,
        },
        None => false,
    }
}

/// Whether filter `f` holds of value `v`.
pub open spec fn filter_holds(f: Filter, v: JsonView) -> bool
    decreases f, 1int,
{
    match f {
        Filter::Eq { field, value } => match field_of(v, field@) {
            Some(x) => jeq(x, value@),
            None => false,
        },
        Filter::Ne { field, value } => match field_of(v, field@) {
            Some(x) => !jeq(x, value@),
            None => true,
        },
        Filter::Gt { field, value } => compares(v, field@, value@, false, false, true),
        Filter::Gte { field, value } => compares(v, field@, value@, false, true, true),
        Filter::Lt { field, value } => compares(v, field@, value@, true, false, false),
        Filter::Lte { field, value } => compares(v, field@, value@, true, true, false),
        Filter::Contains { field, value } => match field_of(v, field@) {
            Some(x) => jcontains(x, value@),
            None => false,
        },
        Filter::Exists { field } => match field_of(v, field@) {
            Some(x) => !(x is Null),
            None => false,
        },
        Filter::Matches { field, pattern } => match field_of(v, field@) {
            Some(x) => match x {
                JsonView::Str(s) => regex_accepts(pattern@, s),
                _ => false,
            },
            None => false,
        },
        Filter::And(fs) => all_hold(fs@, v),
        Filter::Or(fs) => any_holds(fs@, v),
        Filter::Not(g) => !filter_holds(*g, v),
    }
}

/// Whether every filter of `fs` holds of `v`.
pub open spec fn all_hold(fs: Seq<Filter>, v: JsonView) -> bool
    decreases fs, 0int,
{
    fs.len() == 0 || (all_hold(fs.drop_last(), v) && filter_holds(fs.last(), v))
}

/// Whether some filter of `fs` holds of `v`.
pub open spec fn any_holds(fs: Seq<Filter>, v: JsonView) -> bool
    decreases fs, 0int,
{
    fs.len() > 0 && (any_holds(fs.drop_last(), v) || filter_holds(fs.last(), v))
}

/// `all_hold` is "each holds".
pub proof fn lemma_all_hold(fs: Seq<Filter>, v: JsonView)
    ensures
        all_hold(fs, v) <==> forall|i: int| 0 <= i < fs.len() ==> #[trigger] filter_holds(fs[i], v),
    decreases fs.len(),
{
    if fs.len() > 0 {
        lemma_all_hold(fs.drop_last(), v);
        if forall|i: int| 0 <= i < fs.len() ==> #[trigger] filter_holds(fs[i], v) {
            assert forall|i: int| 0 <= i < fs.drop_last().len() implies #[trigger] filter_holds(fs.drop_last()[i], v) by {
                assert(filter_holds(fs[i], v));
            }
            assert(filter_holds(fs[fs.len() - 1], v));
        }
        if all_hold(fs, v) {
            assert forall|i: int| 0 <= i < fs.len() implies #[trigger] filter_holds(fs[i], v) by {
                if i < fs.len() - 1 {
                    assert(filter_holds(fs.drop_last()[i], v));
                }
            }
        }
    }
}

/// `any_holds` is "one holds".
pub proof fn lemma_any_holds(fs: Seq<Filter>, v: JsonView)
    ensures
        any_holds(fs, v) <==> exists|i: int| 0 <= i < fs.len() && #[trigger] filter_holds(fs[i], v),
    decreases fs.len(),
{
    if fs.len() > 0 {
        lemma_any_holds(fs.drop_last(), v);
        if exists|i: int| 0 <= i < fs.len() && #[trigger] filter_holds(fs[i], v) {
            let i = choose|i: int| 0 <= i < fs.len() && #[trigger] filter_holds(fs[i], v);
            if i < fs.len() - 1 {
                assert(filter_holds(fs.drop_last()[i], v));
            }
        }
        if any_holds(fs.drop_last(), v) {
            let i = choose|i: int| 0 <= i < fs.drop_last().len() && #[trigger] filter_holds(fs.drop_last()[i], v);
            assert(filter_holds(fs[i], v));
        }
        if filter_holds(fs.last(), v) {
            assert(filter_holds(fs[fs.len() - 1], v));
        }
    }
}

/// The ordering filters compare the field's value with the given one: `lt` holds
/// when it orders before, `lte` when before or equal, `gt` when after, `gte` when
/// after or equal; a missing field or incomparable values satisfy none of them.
/// So `lte` is `lt` or equal, and `gte` is `gt` or equal.
pub proof fn law_ordering_filters(field: String, c: Json, v: JsonView)
    ensures
        filter_holds((Filter::Lt { field, value: c }), v) <==> (field_of(v, field@) matches Some(x) && jcmp(x, c@) == Some(JsonOrder::Less)),
        filter_holds((Filter::Lte { field, value: c }), v) <==> (field_of(v, field@) matches Some(x)
            && (jcmp(x, c@) == Some(JsonOrder::Less) || jcmp(x, c@) == Some(JsonOrder::Equal))),
        filter_holds((Filter::Gt { field, value: c }), v) <==> (field_of(v, field@) matches Some(x) && jcmp(x, c@) == Some(JsonOrder::Greater)),
        filter_holds((Filter::Gte { field, value: c }), v) <==> (field_of(v, field@) matches Some(x)
            && (jcmp(x, c@) == Some(JsonOrder::Greater) || jcmp(x, c@) == Some(JsonOrder::Equal))),
        filter_holds((Filter::Lte { field, value: c }), v) <==> (filter_holds((Filter::Lt { field, value: c }), v)
            || (field_of(v, field@) matches Some(x) && jcmp(x, c@) == Some(JsonOrder::Equal))),
        filter_holds((Filter::Gte { field, value: c }), v) <==> (filter_holds((Filter::Gt { field, value: c }), v)
            || (field_of(v, field@) matches Some(x) && jcmp(x, c@) == Some(JsonOrder::Equal))),
        !(filter_holds((Filter::Lt { field, value: c }), v) && filter_holds((Filter::Gte { field, value: c }), v)),
        !(filter_holds((Filter::Gt { field, value: c }), v) && filter_holds((Filter::Lte { field, value: c }), v)),
{
}

/// Equality filters: `eq` holds when the field is present and equal to the value;
/// `ne` when it is missing or differs; `exists` when it is present and not null;
/// `contains` when it is present and contains the value.
pub proof fn law_presence_filters(field: String, c: Json, v: JsonView)
    ensures
        filter_holds((Filter::Eq { field, value: c }), v) <==> (field_of(v, field@) matches Some(x) && jeq(x, c@)),
        filter_holds((Filter::Ne { field, value: c }), v) <==> !filter_holds((Filter::Eq { field, value: c }), v),
        filter_holds((Filter::Exists { field }), v) <==> (field_of(v, field@) matches Some(x) && x != JsonView::Null),
        filter_holds((Filter::Contains { field, value: c }), v) <==> (field_of(v, field@) matches Some(x) && jcontains(x, c@)),
        field_of(v, field@) is None ==> !filter_holds((Filter::Eq { field, value: c }), v)
            && !filter_holds((Filter::Lt { field, value: c }), v) && !filter_holds((Filter::Gt { field, value: c }), v)
            && !filter_holds((Filter::Exists { field }), v),
{
}

/// Combinators: `and` holds when every part holds, `or` when some part holds,
/// `not` when its part does not.
pub proof fn law_combined_filters(fs: Vec<Filter>, g: Box<Filter>, v: JsonView)
    ensures
        filter_holds(Filter::And(fs), v) <==> forall|i: int| 0 <= i < fs@.len() ==> #[trigger] filter_holds(fs@[i], v),
        filter_holds(Filter::Or(fs), v) <==> exists|i: int| 0 <= i < fs@.len() && #[trigger] filter_holds(fs@[i], v),
        filter_holds(Filter::Not(g), v) <==> !filter_holds(*g, v),
{
    lemma_all_hold(fs@, v);
    lemma_any_holds(fs@, v);
}

/// Whether the value at `field` is present and compares as wanted.
fn compares_exec(value: &Json, field: &String, expected: &Json, less: bool, equal: bool, greater: bool) -> (r: bool)
    ensures
        r == compares(value@, field@, expected@, less, equal, greater),
{
    match get_field(value, field.as_str()) {
        Some(x) => match compare_json(&x, expected) {
            Some(JsonOrder::Less) => less,
            Some(JsonOrder::Equal) => equal,
            Some(JsonOrder::Greater) => greater,
            None => false,
        },
        None => false,
    }
}

impl Filter {
    /// Create an equality filter.
    pub fn eq(field: String, value: Json) -> (f: Self)
        ensures
            f == (Filter::Eq { field, value }),
    {
        Filter::Eq { field, value }
    }

    /// Create a not-equals filter.
    pub fn ne(field: String, value: Json) -> (f: Self)
        ensures
            f == (Filter::Ne { field, value }),
    {
        Filter::Ne { field, value }
    }

    /// Create a greater-than filter.
    pub fn gt(field: String, value: Json) -> (f: Self)
        ensures
            f == (Filter::Gt { field, value }),
    {
        Filter::Gt { field, value }
    }

    /// Create a greater-than-or-equal filter.
    pub fn gte(field: String, value: Json) -> (f: Self)
        ensures
            f == (Filter::Gte { field, value }),
    {
        Filter::Gte { field, value }
    }

    /// Create a less-than filter.
    pub fn lt(field: String, value: Json) -> (f: Self)
        ensures
            f == (Filter::Lt { field, value }),
    {
        Filter::Lt { field, value }
    }

    /// Create a less-than-or-equal filter.
    pub fn lte(field: String, value: Json) -> (f: Self)
        ensures
            f == (Filter::Lte { field, value }),
    {
        Filter::Lte { field, value }
    }

    /// Create a contains filter.
    pub fn contains(field: String, value: Json) -> (f: Self)
        ensures
            f == (Filter::Contains { field, value }),
    {
        Filter::Contains { field, value }
    }

    /// Create an exists filter.
    pub fn field_exists(field: String) -> (f: Self)
        ensures
            f == (Filter::Exists { field }),
    {
        Filter::Exists { field }
    }

    /// Create a regex match filter.
    pub fn matches(field: String, pattern: String) -> (f: Self)
        ensures
            f == (Filter::Matches { field, pattern }),
    {
        Filter::Matches { field, pattern }
    }

    /// Combine filters with AND.
    pub fn and(filters: Vec<Filter>) -> (f: Self)
        ensures
            f == Filter::And(filters),
    {
        Filter::And(filters)
    }

    /// Combine filters with OR.
    pub fn or(filters: Vec<Filter>) -> (f: Self)
        ensures
            f == Filter::Or(filters),
    {
        Filter::Or(filters)
    }

    /// Negate a filter.
    pub fn not(filter: Filter) -> (f: Self)
        ensures
            f == Filter::Not(Box::new(filter)),
    {
        Filter::Not(Box::new(filter))
    }

    /// Evaluate this filter against a value.
    pub fn matches_value(&self, value: &Json) -> (r: bool)
        ensures
            r == filter_holds(*self, value@),
        decreases self,
    {
        match self {
            Filter::Eq { field, value: expected } => match get_field(value, field.as_str()) {
                Some(x) => json_equal(&x, expected),
                None => false,
            },
            Filter::Ne { field, value: expected } => match get_field(value, field.as_str()) {
                Some(x) => !json_equal(&x, expected),
                None => true,
            },
            Filter::Gt { field, value: expected } => compares_exec(value, field, expected, false, false, true),
            Filter::Gte { field, value: expected } => compares_exec(value, field, expected, false, true, true),
            Filter::Lt { field, value: expected } => compares_exec(value, field, expected, true, false, false),
            Filter::Lte { field, value: expected } => compares_exec(value, field, expected, true, true, false),
            Filter::Contains { field, value: expected } => match get_field(value, field.as_str()) {
                Some(x) => json_contains(&x, expected),
                None => false,
            },
            Filter::Exists { field } => match get_field(value, field.as_str()) {
                Some(x) => !x.is_null(),
                None => false,
            },
            Filter::Matches { field, pattern } => match get_field(value, field.as_str()) {
                Some(x) => match &x {
                    Json::String(s) => regex_matches(pattern.as_str(), s.as_str()),
                    _ => false,
                },
                None => false,
            },
            Filter::And(fs) => {
                proof {
                    lemma_all_hold(fs@, value@);
                }
                let mut i: usize = 0;
                while i < fs.len()
                    invariant
                        *self == Filter::And(*fs),
                        i <= fs@.len(),
                        all_hold(fs@, value@) <==> forall|k: int| 0 <= k < fs@.len() ==> #[trigger] filter_holds(fs@[k], value@),
                        forall|k: int| 0 <= k < i ==> #[trigger] filter_holds(fs@[k], value@),
                    decreases fs@.len() - i,
                {
                    proof {
                        assert(decreases_to!(*self => self->And_0));
                        assert(decreases_to!(*fs => fs@));
                        assert(decreases_to!(fs@ => fs@[i as int]));
                    }
                    if !fs[i].matches_value(value) {
                        return false;
                    }
                    i = i + 1;
                }
                true
            },
            Filter::Or(fs) => {
                proof {
                    lemma_any_holds(fs@, value@);
                }
                let mut i: usize = 0;
                while i < fs.len()
                    invariant
                        *self == Filter::Or(*fs),
                        i <= fs@.len(),
                        any_holds(fs@, value@) <==> exists|k: int| 0 <= k < fs@.len() && #[trigger] filter_holds(fs@[k], value@),
                        forall|k: int| 0 <= k < i ==> !#[trigger] filter_holds(fs@[k], value@),
                    decreases fs@.len() - i,
                {
                    proof {
                        assert(decreases_to!(*self => self->Or_0));
                        assert(decreases_to!(*fs => fs@));
                        assert(decreases_to!(fs@ => fs@[i as int]));
                    }
                    if fs[i].matches_value(value) {
                        return true;
                    }
                    i = i + 1;
                }
                false
            },
            Filter::Not(g) => {
                proof {
                    assert(decreases_to!(*self => self->Not_0));
                }
                !g.matches_value(value)
            },
        }
    }
}

/// Aggregation operation.
#[derive(Debug)]
pub enum Aggregation {
    /// Count of matching records.
    Count,
    /// Sum of a numeric field.
    Sum { field: String },
    /// Average of a numeric field.
    Avg { field: String },
    /// Minimum value of a field.
    Min { field: String },
    /// Maximum value of a field.
    Max { field: String },
    /// Collect unique values of a field.
    Distinct { field: String },
    /// Group by a field and apply sub-aggregations.
    GroupBy { field: String, aggregations: Vec<(String, Aggregation)> },
}

impl Aggregation {
    /// Create a count aggregation.
    pub fn count() -> (a: Self)
        ensures
            a is Count,
    {
        Aggregation::Count
    }

    /// Create a sum aggregation.
    pub fn sum(field: String) -> (a: Self)
        ensures
            a == (Aggregation::Sum { field }),
    {
        Aggregation::Sum { field }
    }

    /// Create an average aggregation.
    pub fn avg(field: String) -> (a: Self)
        ensures
            a == (Aggregation::Avg { field }),
    {
        Aggregation::Avg { field }
    }

    /// Create a minimum aggregation.
    pub fn min(field: String) -> (a: Self)
        ensures
            a == (Aggregation::Min { field }),
    {
        Aggregation::Min { field }
    }

    /// Create a maximum aggregation.
    pub fn max(field: String) -> (a: Self)
        ensures
            a == (Aggregation::Max { field }),
    {
        Aggregation::Max { field }
    }

    /// Create a distinct values aggregation.
    pub fn distinct(field: String) -> (a: Self)
        ensures
            a == (Aggregation::Distinct { field }),
    {
        Aggregation::Distinct { field }
    }
}

/// Sort direction.
#[derive(Debug, Clone, Copy, PartialEq, Eq, Structural)]
pub enum SortOrder {
    /// Ascending order (smallest first).
    Asc,
    /// Descending order (largest first).
    Desc,
}

/// Sort specification.
#[derive(Debug)]
pub struct SortBy {
    /// Field to sort by.
    pub field: String,
    /// Sort order.
    pub order: SortOrder,
}

impl SortBy {
    /// Create a new sort specification.
    pub fn new(field: String, order: SortOrder) -> (s: Self)
        ensures
            s.field == field,
            s.order == order,
    {
        SortBy { field, order }
    }

    /// Sort ascending.
    pub fn asc(field: String) -> (s: Self)
        ensures
            s.field == field,
            s.order == SortOrder::Asc,
    {
        Self::new(field, SortOrder::Asc)
    }

    /// Sort descending.
    pub fn desc(field: String) -> (s: Self)
        ensures
            s.field == field,
            s.order == SortOrder::Desc,
    {
        Self::new(field, SortOrder::Desc)
    }
}

/// `(ks, vs)` with `k` set to `v`: the value of an existing key is replaced in
/// place; a new key goes before the first key above it, as in a map that keeps
/// its keys in order.
pub open spec fn obj_insert(ks: Seq<Seq<char>>, vs: Seq<JsonView>, k: Seq<char>, v: JsonView) -> (Seq<Seq<char>>, Seq<JsonView>)
    decreases ks.len(),
{
    if ks.len() == 0 {
        (seq![k], seq![v])
    } else if ks[0] == k {
        (ks, vs.update(0, v))
    } else if chars_le(k, ks[0]) {
        (seq![k] + ks, seq![v] + vs)
    } else {
        let rest = obj_insert(ks.drop_first(), vs.drop_first(), k, v);
        (seq![ks[0]] + rest.0, seq![vs[0]] + rest.1)
    }
}

/// The pairs that projecting `v` on `fields` gathers: each field present in
/// `v`, inserted in turn.
pub open spec fn proj_pairs(v: JsonView, fields: Seq<Seq<char>>) -> (Seq<Seq<char>>, Seq<JsonView>)
    decreases fields.len(),
{
    if fields.len() == 0 {
        (Seq::empty(), Seq::empty())
    } else {
        let acc = proj_pairs(v, fields.drop_last());
        match field_of(v, fields.last()) {
            Some(x) => obj_insert(acc.0, acc.1, fields.last(), x),
            None => acc,
        }
    }
}

/// `v` projected on `fields`: `v` itself when there are none, else the object
/// of the fields that `v` has.
pub open spec fn project_view(v: JsonView, fields: Seq<Seq<char>>) -> JsonView {
    if fields.len() == 0 {
        v
    } else {
        JsonView::Object(proj_pairs(v, fields).0, proj_pairs(v, fields).1)
    }
}

/// Skipping keys below `k` skips them in the insertion too.
proof fn lemma_obj_insert_skip(ks: Seq<Seq<char>>, vs: Seq<JsonView>, k: Seq<char>, v: JsonView, p: int)
    requires
        ks.len() == vs.len(),
        0 <= p <= ks.len(),
        forall|q: int| 0 <= q < p ==> !chars_le(k, #[trigger] ks[q]),
    ensures
        obj_insert(ks, vs, k, v) == (ks.take(p) + obj_insert(ks.skip(p), vs.skip(p), k, v).0,
            vs.take(p) + obj_insert(ks.skip(p), vs.skip(p), k, v).1),
    decreases p,
{
    if p > 0 {
        assert(!chars_le(k, ks[0]));
        if ks[0] == k {
            crate::strings::lemma_chars_le_reflexive(k);
        }
        assert forall|q: int| 0 <= q < p - 1 implies !chars_le(k, #[trigger] ks.drop_first()[q]) by {
            assert(ks.drop_first()[q] == ks[q + 1]);
        }
        lemma_obj_insert_skip(ks.drop_first(), vs.drop_first(), k, v, p - 1);
        assert(ks.drop_first().skip(p - 1) =~= ks.skip(p));
        assert(vs.drop_first().skip(p - 1) =~= vs.skip(p));
        let r = obj_insert(ks.skip(p), vs.skip(p), k, v);
        assert(seq![ks[0]] + (ks.drop_first().take(p - 1) + r.0) =~= ks.take(p) + r.0);
        assert(seq![vs[0]] + (vs.drop_first().take(p - 1) + r.1) =~= vs.take(p) + r.1);
    } else {
        assert(ks.skip(0) =~= ks);
        assert(vs.skip(0) =~= vs);
        let r = obj_insert(ks, vs, k, v);
        assert(ks.take(0) + r.0 =~= r.0);
        assert(vs.take(0) + r.1 =~= r.1);
    }
}

/// Set `key` to `value` in the ordered pairs `pairs`.
fn pairs_insert(pairs: &mut Vec<(String, Json)>, key: String, value: Json)
    ensures
        (pair_keys(final(pairs)@), jpv(final(pairs)@)) == obj_insert(pair_keys(old(pairs)@), jpv(old(pairs)@), key@, value@),
{
    proof {
        lemma_jpv(pairs@);
    }
    let ghost ks = pair_keys(pairs@);
    let ghost vs = jpv(pairs@);
    let mut p: usize = 0;
    while p < pairs.len() && !str_le(key.as_str(), pairs[p].0.as_str())
        invariant
            ks == pair_keys(pairs@),
            vs == jpv(pairs@),
            ks.len() == vs.len(),
            p <= pairs@.len(),
            forall|q: int| 0 <= q < p ==> !chars_le(key@, #[trigger] ks[q]),
        decreases pairs@.len() - p,
    {
        p = p + 1;
    }
    proof {
        lemma_obj_insert_skip(ks, vs, key@, value@, p as int);
    }
    let ghost old_pairs = pairs@;
    if p < pairs.len() && str_eq(key.as_str(), pairs[p].0.as_str()) {
        proof {
            assert(ks.skip(p as int)[0] == key@);
        }
        pairs.set(p, (key, value));
        proof {
            lemma_jpv(pairs@);
            assert(pair_keys(pairs@) =~= ks);
            assert(jpv(pairs@) =~= vs.take(p as int) + vs.skip(p as int).update(0, value@));
        }
    } else {
        proof {
            if p < old_pairs.len() {
                assert(ks.skip(p as int)[0] == old_pairs[p as int].0@);
            }
        }
        pairs.insert(p, (key, value));
        proof {
            lemma_jpv(pairs@);
            assert(pair_keys(pairs@) =~= ks.take(p as int) + (seq![key@] + ks.skip(p as int)));
            assert(jpv(pairs@) =~= vs.take(p as int) + (seq![value@] + vs.skip(p as int)));
            if p == old_pairs.len() {
                assert(ks.skip(p as int) =~= Seq::<Seq<char>>::empty());
                assert(seq![key@] + ks.skip(p as int) =~= seq![key@]);
                assert(seq![value@] + vs.skip(p as int) =~= seq![value@]);
            }
        }
    }
}

/// A query: filters, a projection, sort keys, an offset and a limit, and an
/// aggregation.
#[derive(Debug)]
pub struct Query {
    /// Filter conditions (all must hold).
    pub filters: Vec<Filter>,
    /// Fields to project (empty = all fields).
    pub projection: Vec<String>,
    /// Sort specifications, the first deciding first.
    pub sort: Vec<SortBy>,
    /// Maximum number of results.
    pub limit: Option<usize>,
    /// Number of results to skip.
    pub offset: Option<usize>,
    /// Aggregation to perform.
    pub aggregation: Option<Aggregation>,
}

impl Query {
    /// An empty query.
    pub fn new() -> (q: Self)
        ensures
            q.filters@.len() == 0,
            q.projection@.len() == 0,
            q.sort@.len() == 0,
            q.limit is None,
            q.offset is None,
            q.aggregation is None,
    {
        Query {
            filters: Vec::new(),
            projection: Vec::new(),
            sort: Vec::new(),
            limit: None,
            offset: None,
            aggregation: None,
        }
    }

    /// Add a filter condition.
    pub fn filter(self, filter: Filter) -> (q: Self)
        ensures
            q.filters@ == self.filters@.push(filter),
            q.projection@ == self.projection@,
            q.sort@ == self.sort@,
            q.limit == self.limit,
            q.offset == self.offset,
            q.aggregation == self.aggregation,
    {
        let mut q = self;
        q.filters.push(filter);
        q
    }

    /// Add several filter conditions (all must hold).
    pub fn filters(self, filters: Vec<Filter>) -> (q: Self)
        ensures
            q.filters@ == self.filters@ + filters@,
            q.projection@ == self.projection@,
            q.sort@ == self.sort@,
            q.limit == self.limit,
            q.offset == self.offset,
            q.aggregation == self.aggregation,
    {
        let mut q = self;
        let mut more = filters;
        q.filters.append(&mut more);
        q
    }

    /// Set the fields to project.
    pub fn project(self, fields: &[&str]) -> (q: Self)
        ensures
            views(q.projection@) == fields@.map_values(|f: &str| f@),
            q.filters@ == self.filters@,
            q.sort@ == self.sort@,
            q.limit == self.limit,
            q.offset == self.offset,
            q.aggregation == self.aggregation,
    {
        let mut q = self;
        let mut names: Vec<String> = Vec::new();
        let mut i: usize = 0;
        while i < fields.len()
            invariant
                i <= fields@.len(),
                views(names@) == fields@.take(i as int).map_values(|f: &str| f@),
            decreases fields@.len() - i,
        {
            let ghost before = names@;
            let name = fields[i].to_owned();
            names.push(name);
            proof {
                assert(names@ == before.push(name));
                let want = fields@.take(i + 1).map_values(|f: &str| f@);
                assert(views(before).len() == i);
                assert(names@.len() == i + 1);
                assert(fields@.take(i + 1).len() == i + 1);
                assert(views(names@).len() == want.len());
                assert forall|k: int| 0 <= k < want.len() implies #[trigger] views(names@)[k] == want[k] by {
                    if k < i {
                        assert(views(before)[k] == fields@.take(i as int).map_values(|f: &str| f@)[k]);
                    }
                }
                assert(views(names@) =~= want);
            }
            i = i + 1;
        }
        proof {
            assert(fields@.take(fields@.len() as int) =~= fields@);
        }
        q.projection = names;
        q
    }

    /// Add a sort key, ascending or descending.
    pub fn sort_by(self, field: String, ascending: bool) -> (q: Self)
        ensures
            q.sort@.len() == self.sort@.len() + 1,
            q.sort@.drop_last() == self.sort@,
            q.sort@.last().field == field,
            q.sort@.last().order == (if ascending { SortOrder::Asc } else { SortOrder::Desc }),
            q.filters@ == self.filters@,
            q.projection@ == self.projection@,
            q.limit == self.limit,
            q.offset == self.offset,
            q.aggregation == self.aggregation,
    {
        let mut q = self;
        let order = if ascending { SortOrder::Asc } else { SortOrder::Desc };
        let ghost before = q.sort@;
        q.sort.push(SortBy::new(field, order));
        proof {
            assert(q.sort@.drop_last() =~= before);
        }
        q
    }

    /// Set the maximum number of results.
    pub fn limit(self, limit: usize) -> (q: Self)
        ensures
            q.limit == Some(limit),
            q.filters@ == self.filters@,
            q.projection@ == self.projection@,
            q.sort@ == self.sort@,
            q.offset == self.offset,
            q.aggregation == self.aggregation,
    {
        let mut q = self;
        q.limit = Some(limit);
        q
    }

    /// Set the number of results to skip.
    pub fn offset(self, offset: usize) -> (q: Self)
        ensures
            q.offset == Some(offset),
            q.filters@ == self.filters@,
            q.projection@ == self.projection@,
            q.sort@ == self.sort@,
            q.limit == self.limit,
            q.aggregation == self.aggregation,
    {
        let mut q = self;
        q.offset = Some(offset);
        q
    }

    /// Set the aggregation to perform.
    pub fn aggregate(self, aggregation: Aggregation) -> (q: Self)
        ensures
            q.aggregation == Some(aggregation),
            q.filters@ == self.filters@,
            q.projection@ == self.projection@,
            q.sort@ == self.sort@,
            q.limit == self.limit,
            q.offset == self.offset,
    {
        let mut q = self;
        q.aggregation = Some(aggregation);
        q
    }

    /// Whether a value passes all the filters.
    pub fn matches(&self, value: &Json) -> (r: bool)
        ensures
            r == all_hold(self.filters@, value@),
    {
        proof {
            lemma_all_hold(self.filters@, value@);
        }
        let mut i: usize = 0;
        while i < self.filters.len()
            invariant
                i <= self.filters@.len(),
                all_hold(self.filters@, value@) <==> forall|k: int| 0 <= k < self.filters@.len()
                    ==> #[trigger] filter_holds(self.filters@[k], value@),
                forall|k: int| 0 <= k < i ==> #[trigger] filter_holds(self.filters@[k], value@),
            decreases self.filters@.len() - i,
        {
            if !self.filters[i].matches_value(value) {
                return false;
            }
            i = i + 1;
        }
        true
    }

    /// The value projected on the query's fields.
    pub fn apply_projection(&self, value: &Json) -> (r: Json)
        ensures
            r@ == project_view(value@, views(self.projection@)),
    {
        if self.projection.len() == 0 {
            return value.duplicate();
        }
        let ghost fields = views(self.projection@);
        let mut pairs: Vec<(String, Json)> = Vec::new();
        let mut i: usize = 0;
        proof {
            assert(fields.take(0) =~= Seq::<Seq<char>>::empty());
            assert(pair_keys(pairs@) =~= Seq::<Seq<char>>::empty());
            assert(jpv(pairs@) =~= Seq::<JsonView>::empty());
        }
        while i < self.projection.len()
            invariant
                fields == views(self.projection@),
                i <= self.projection@.len(),
                (pair_keys(pairs@), jpv(pairs@)) == proj_pairs(value@, fields.take(i as int)),
            decreases self.projection@.len() - i,
        {
            proof {
                assert(fields.take(i + 1).drop_last() =~= fields.take(i as int));
                assert(fields.take(i + 1).last() == self.projection@[i as int]@);
            }
            match get_field(value, self.projection[i].as_str()) {
                Some(x) => {
                    pairs_insert(&mut pairs, self.projection[i].clone(), x);
                },
                None => {},
            }
            i = i + 1;
        }
        proof {
            assert(fields.take(fields.len() as int) =~= fields);
        }
        Json::Object(pairs)
    }
}

impl Default for Query {
    fn default() -> (q: Self)
        ensures
            q.filters@.len() == 0,
            q.projection@.len() == 0,
            q.sort@.len() == 0,
            q.limit is None,
            q.offset is None,
            q.aggregation is None,
    {
        Query::new()
    }
}

/// How two optional sort-key values order: present before missing, and values
/// that do not compare count as equal.
pub open spec fn key_order(a: Option<JsonView>, b: Option<JsonView>) -> JsonOrder {
    match a {
        Some(x) => match b {
            Some(y) => match jcmp(x, y) {
                Some(o) => o,
                None => JsonOrder::Equal,
            },
            None => JsonOrder::Less,
        },
        None => match b {
            Some(_) => JsonOrder::Greater,
            None => JsonOrder::Equal,
        },
    }
}

/// How two values order under the sort keys `sort`: the first key that tells
/// them apart decides, a descending key the other way round.
pub open spec fn record_order(a: JsonView, b: JsonView, sort: Seq<SortBy>) -> JsonOrder
    decreases sort.len(),
{
    if sort.len() == 0 {
        JsonOrder::Equal
    } else {
        let c0 = key_order(field_of(a, sort[0].field@), field_of(b, sort[0].field@));
        let c = match sort[0].order {
            SortOrder::Asc => c0,
            SortOrder::Desc => flip(c0),
        };
        if c != JsonOrder::Equal {
            c
        } else {
            record_order(a, b, sort.drop_first())
        }
    }
}

/// Ordering the other way round gives the opposite outcome.
pub proof fn lemma_record_order_flip(a: JsonView, b: JsonView, sort: Seq<SortBy>)
    ensures
        record_order(b, a, sort) == flip(record_order(a, b, sort)),
    decreases sort.len(),
{
    if sort.len() > 0 {
        let fa = field_of(a, sort[0].field@);
        let fb = field_of(b, sort[0].field@);
        match (fa, fb) {
            (Some(x), Some(y)) => lemma_jcmp_flip(x, y),
            _ => {},
        }
        lemma_record_order_flip(a, b, sort.drop_first());
    }
}

/// Whether the value at position `p` may come just before the one at `q`: it
/// is not after it, and if the two order equal, `p` came first.
pub open spec fn in_order(vals: Seq<JsonView>, sort: Seq<SortBy>, p: int, q: int) -> bool {
    let c = record_order(vals[q], vals[p], sort);
    c == JsonOrder::Greater || (c == JsonOrder::Equal && p < q)
}

/// `o` lists each position of `vals` once, in a stable sorted order.
pub open spec fn stable_sorted(o: Seq<usize>, vals: Seq<JsonView>, sort: Seq<SortBy>) -> bool {
    &&& o.len() == vals.len()
    &&& forall|i: int| 0 <= i < o.len() ==> #[trigger] o[i] < vals.len()
    &&& forall|i: int, j: int| 0 <= i < j < o.len() ==> #[trigger] o[i] != #[trigger] o[j]
    &&& forall|i: int| 0 <= i < o.len() - 1 ==> #[trigger] in_order(vals, sort, o[i] as int, o[i + 1] as int)
}

/// How two values order under the sort keys.
pub fn compare_records(a: &Json, b: &Json, sort: &Vec<SortBy>) -> (r: JsonOrder)
    ensures
        r == record_order(a@, b@, sort@),
{
    let mut k: usize = 0;
    proof {
        assert(sort@.skip(0) =~= sort@);
    }
    while k < sort.len()
        invariant
            k <= sort@.len(),
            record_order(a@, b@, sort@) == record_order(a@, b@, sort@.skip(k as int)),
        decreases sort@.len() - k,
    {
        let ghost rest = sort@.skip(k as int);
        proof {
            assert(rest[0] == sort@[k as int]);
            assert(rest.drop_first() =~= sort@.skip(k + 1));
        }
        let fa = get_field(a, sort[k].field.as_str());
        let fb = get_field(b, sort[k].field.as_str());
        let c0 = match (&fa, &fb) {
            (Some(x), Some(y)) => match compare_json(x, y) {
                Some(o) => o,
                None => JsonOrder::Equal,
            },
            (Some(_), None) => JsonOrder::Less,
            (None, Some(_)) => JsonOrder::Greater,
            (None, None) => JsonOrder::Equal,
        };
        let c = match sort[k].order {
            SortOrder::Asc => c0,
            SortOrder::Desc => match c0 {
                JsonOrder::Less => JsonOrder::Greater,
                JsonOrder::Equal => JsonOrder::Equal,
                JsonOrder::Greater => JsonOrder::Less,
            },
        };
        match c {
            JsonOrder::Equal => {},
            _ => {
                return c;
            },
        }
        k = k + 1;
    }
    proof {
        assert(sort@.skip(k as int).len() == 0);
    }
    JsonOrder::Equal
}

/// The values behind references.
pub open spec fn ref_views(s: Seq<&Json>) -> Seq<JsonView> {
    s.map_values(|j: &Json| j@)
}

/// The positions of `vals` in a stable sorted order under the sort keys.
pub fn sort_order(vals: &Vec<&Json>, sort: &Vec<SortBy>) -> (o: Vec<usize>)
    ensures
        stable_sorted(o@, ref_views(vals@), sort@),
{
    let ghost vs = ref_views(vals@);
    let mut o: Vec<usize> = Vec::new();
    let mut i: usize = 0;
    while i < vals.len()
        invariant
            vs == ref_views(vals@),
            i <= vals@.len(),
            o@.len() == i,
            forall|k: int| 0 <= k < o@.len() ==> #[trigger] o@[k] < i,
            forall|a: int, b: int| 0 <= a < b < o@.len() ==> #[trigger] o@[a] != #[trigger] o@[b],
            forall|k: int| 0 <= k < o@.len() - 1 ==> #[trigger] in_order(vs, sort@, o@[k] as int, o@[k + 1] as int),
        decreases vals@.len() - i,
    {
        let mut p: usize = o.len();
        while p > 0 && compare_records(vals[i], vals[o[p - 1]], sort) == JsonOrder::Less
            invariant
                vs == ref_views(vals@),
                i < vals@.len(),
                p <= o@.len(),
                o@.len() == i,
                forall|k: int| 0 <= k < o@.len() ==> #[trigger] o@[k] < i,
                p < o@.len() ==> record_order(vs[i as int], vs[o@[p as int] as int], sort@) == JsonOrder::Less,
            decreases p,
        {
            p = p - 1;
        }
        let ghost before = o@;
        proof {
            if p < before.len() {
                lemma_record_order_flip(vs[i as int], vs[before[p as int] as int], sort@);
            }
            if p > 0 {
                assert(record_order(vs[i as int], vs[before[p - 1] as int], sort@) != JsonOrder::Less);
                assert(before[p - 1] < i);
            }
        }
        o.insert(p, i);
        proof {
            assert(o@ == before.insert(p as int, i));
            assert forall|k: int| 0 <= k < o@.len() implies #[trigger] o@[k] < i + 1 by {
                if k < p {
                    assert(o@[k] == before[k]);
                } else if k > p {
                    assert(o@[k] == before[k - 1]);
                }
            }
            assert forall|a: int, b: int| 0 <= a < b < o@.len() implies #[trigger] o@[a] != #[trigger] o@[b] by {
                let a2 = if a < p { a } else { a - 1 };
                let b2 = if b < p { b } else { b - 1 };
                if a != p as int && b != p as int {
                    assert(o@[a] == before[a2] && o@[b] == before[b2]);
                } else if a == p as int {
                    assert(o@[b] == before[b2]);
                } else {
                    assert(o@[a] == before[a2]);
                }
            }
            assert forall|k: int| 0 <= k < o@.len() - 1 implies #[trigger] in_order(vs, sort@, o@[k] as int, o@[k + 1] as int) by {
                if k + 1 < p {
                    assert(o@[k] == before[k] && o@[k + 1] == before[k + 1]);
                    assert(in_order(vs, sort@, before[k] as int, before[k + 1] as int));
                } else if k + 1 == p {
                    assert(o@[k] == before[k] && o@[k + 1] == i);
                } else if k == p {
                    assert(o@[k] == i && o@[k + 1] == before[k]);
                } else {
                    let j = k - 1;
                    assert(o@[k] == before[j] && o@[k + 1] == before[j + 1]);
                    assert(in_order(vs, sort@, before[j] as int, before[j + 1] as int));
                }
            }
        }
        i = i + 1;
    }
    o
}

/// The values at `field` of the records that have it, in order.
pub open spec fn found(values: Seq<JsonView>, field: Seq<char>) -> Seq<JsonView>
    decreases values.len(),
{
    if values.len() == 0 {
        Seq::empty()
    } else {
        let rest = found(values.drop_last(), field);
        match field_of(values.last(), field) {
            Some(x) => rest.push(x),
            None => rest,
        }
    }
}

/// The `f64` patterns of the numbers among `s`, in order.
pub open spec fn number_bits(s: Seq<JsonView>) -> Seq<u64>
    decreases s.len(),
{
    if s.len() == 0 {
        Seq::empty()
    } else {
        let rest = number_bits(s.drop_last());
        match s.last() {
            JsonView::Number(n) => rest.push(f64_bits(n)),
            _ => rest,
        }
    }
}

/// How two values order for a minimum or a maximum: values that do not
/// compare count as equal.
pub open spec fn value_order(a: JsonView, b: JsonView) -> JsonOrder {
    match jcmp(a, b) {
        Some(o) => o,
        None => JsonOrder::Equal,
    }
}

/// The minimum of `s`, the first of equal ones (null when `s` is empty).
pub open spec fn min_fold(s: Seq<JsonView>) -> JsonView
    decreases s.len(),
{
    if s.len() == 0 {
        JsonView::Null
    } else if s.len() == 1 {
        s[0]
    } else {
        let m = min_fold(s.drop_last());
        if value_order(m, s.last()) == JsonOrder::Greater { s.last() } else { m }
    }
}

/// The maximum of `s`, the last of equal ones (null when `s` is empty).
pub open spec fn max_fold(s: Seq<JsonView>) -> JsonView
    decreases s.len(),
{
    if s.len() == 0 {
        JsonView::Null
    } else if s.len() == 1 {
        s[0]
    } else {
        let m = max_fold(s.drop_last());
        if value_order(m, s.last()) == JsonOrder::Greater { m } else { s.last() }
    }
}

/// Whether some value of `s` equals `x`.
pub open spec fn has_equal(s: Seq<JsonView>, x: JsonView) -> bool {
    exists|i: int| 0 <= i < s.len() && #[trigger] jeq(s[i], x)
}

/// The distinct values of `s`: each value at its first appearance, in order; a
/// later value equal to an earlier one is left out.
pub open spec fn unique_values(s: Seq<JsonView>) -> Seq<JsonView>
    decreases s.len(),
{
    if s.len() == 0 {
        Seq::empty()
    } else {
        let d = unique_values(s.drop_last());
        if has_equal(d, s.last()) { d } else { d.push(s.last()) }
    }
}

/// The distinct values hold no two equal values, and every value of `s` is one
/// of them or equal to one of them.
pub proof fn lemma_unique_values(s: Seq<JsonView>)
    ensures
        forall|i: int, j: int| 0 <= i < j < unique_values(s).len() ==> !jeq(#[trigger] unique_values(s)[i], #[trigger] unique_values(s)[j]),
        forall|k: int| 0 <= k < s.len() ==> exists|i: int| 0 <= i < unique_values(s).len()
            && (unique_values(s)[i] == #[trigger] s[k] || jeq(unique_values(s)[i], s[k])),
        unique_values(s).len() <= s.len(),
    decreases s.len(),
{
    if s.len() > 0 {
        let t = s.drop_last();
        lemma_unique_values(t);
        let d = unique_values(t);
        let u = unique_values(s);
        assert forall|k: int| 0 <= k < s.len() implies exists|i: int| 0 <= i < u.len()
            && (u[i] == #[trigger] s[k] || jeq(u[i], s[k])) by {
            if k < s.len() - 1 {
                assert(t[k] == s[k]);
                let i = choose|i: int| 0 <= i < d.len() && (d[i] == #[trigger] t[k] || jeq(d[i], t[k]));
                assert(u[i] == d[i]);
            } else if has_equal(d, s.last()) {
                let i = choose|i: int| 0 <= i < d.len() && #[trigger] jeq(d[i], s.last());
                assert(u[i] == d[i]);
            } else {
                assert(u[d.len() as int] == s[k]);
            }
        }
    }
}

/// The outcome of an aggregation over the result records.
#[derive(Debug)]
pub enum AggregateValue {
    /// The number of records.
    Count(usize),
    /// The numbers to add up (`average` false) or to average (`average` true):
    /// the `f64` bit patterns of the numeric values found, in record order.
    /// The float arithmetic is left to the caller.
    Numbers { average: bool, bits: Vec<u64> },
    /// A minimum or a maximum (null when no record has the field).
    Value(Json),
    /// The distinct values found, each at its first appearance.
    Distinct(Vec<Json>),
    /// A group-by: grouping goes by the serialized text of the values, which
    /// the caller produces.
    GroupBy,
}

/// Whether `r` is what aggregation `agg` gives over the record values `values`.
pub open spec fn aggregate_ok(agg: Aggregation, values: Seq<JsonView>, r: AggregateValue) -> bool {
    match agg {
        Aggregation::Count => match r {
            AggregateValue::Count(n) => n == values.len(),
            _ => false,
        },
        Aggregation::Sum { field } => match r {
            AggregateValue::Numbers { average, bits } => !average && bits@ == number_bits(found(values, field@)),
            _ => false,
        },
        Aggregation::Avg { field } => match r {
            AggregateValue::Numbers { average, bits } => average && bits@ == number_bits(found(values, field@)),
            _ => false,
        },
        Aggregation::Min { field } => match r {
            AggregateValue::Value(j) => j@ == min_fold(found(values, field@)),
            _ => false,
        },
        Aggregation::Max { field } => match r {
            AggregateValue::Value(j) => j@ == max_fold(found(values, field@)),
            _ => false,
        },
        Aggregation::Distinct { field } => match r {
            AggregateValue::Distinct(vs) => jvs(vs@) == unique_values(found(values, field@)),
            _ => false,
        },
        Aggregation::GroupBy { .. } => r is GroupBy,
    }
}

/// A single record in query results.
#[derive(Debug)]
pub struct QueryRecord {
    /// The key of the record.
    pub key: String,
    /// The value (possibly projected).
    pub value: Json,
    /// When this version was written (nanoseconds, UTC).
    pub timestamp: i64,
    /// Version ID.
    pub version_id: String,
}

/// A record by plain values.
pub open spec fn rec_view(r: QueryRecord) -> (Seq<char>, JsonView, i64, Seq<char>) {
    (r.key@, r.value@, r.timestamp, r.version_id@)
}

/// Records by plain values.
pub open spec fn recs_view(rs: Seq<QueryRecord>) -> Seq<(Seq<char>, JsonView, i64, Seq<char>)> {
    rs.map_values(|r: QueryRecord| rec_view(r))
}

/// The values of records.
pub open spec fn record_values(rs: Seq<QueryRecord>) -> Seq<JsonView> {
    rs.map_values(|r: QueryRecord| r.value@)
}

impl QueryRecord {
    /// A copy of this record.
    pub fn duplicate(&self) -> (r: Self)
        ensures
            rec_view(r) == rec_view(*self),
    {
        QueryRecord {
            key: self.key.clone(),
            value: self.value.duplicate(),
            timestamp: self.timestamp,
            version_id: self.version_id.clone(),
        }
    }
}

/// Result of a query execution.
#[derive(Debug)]
pub struct QueryResult {
    /// Matching records, sorted and windowed.
    pub records: Vec<QueryRecord>,
    /// Count of matching records before offset and limit.
    pub total_count: usize,
    /// Aggregation result (if one was requested).
    pub aggregation: Option<AggregateValue>,
}

/// The values at `field` of the records, where present.
fn found_values(records: &Vec<QueryRecord>, field: &String) -> (r: Vec<Json>)
    ensures
        jvs(r@) == found(record_values(records@), field@),
{
    let ghost vals = record_values(records@);
    let mut r: Vec<Json> = Vec::new();
    let mut i: usize = 0;
    proof {
        assert(vals.take(0) =~= Seq::<JsonView>::empty());
    }
    while i < records.len()
        invariant
            vals == record_values(records@),
            i <= records@.len(),
            jvs(r@) == found(vals.take(i as int), field@),
        decreases records@.len() - i,
    {
        proof {
            assert(vals.take(i + 1).drop_last() =~= vals.take(i as int));
            assert(vals.take(i + 1).last() == records@[i as int].value@);
        }
        match get_field(&records[i].value, field.as_str()) {
            Some(x) => {
                let ghost before = r@;
                r.push(x);
                proof {
                    assert(r@.drop_last() =~= before);
                }
            },
            None => {},
        }
        i = i + 1;
    }
    proof {
        assert(vals.take(records@.len() as int) =~= vals);
    }
    r
}

/// Compute aggregation `agg` over the records.
pub fn compute_aggregation(agg: &Aggregation, records: &Vec<QueryRecord>) -> (r: AggregateValue)
    ensures
        aggregate_ok(*agg, record_values(records@), r),
{
    match agg {
        Aggregation::Count => AggregateValue::Count(records.len()),
        Aggregation::Sum { field } => {
            let vals = found_values(records, field);
            AggregateValue::Numbers { average: false, bits: numbers_of(&vals) }
        },
        Aggregation::Avg { field } => {
            let vals = found_values(records, field);
            AggregateValue::Numbers { average: true, bits: numbers_of(&vals) }
        },
        Aggregation::Min { field } => {
            let vals = found_values(records, field);
            AggregateValue::Value(fold_extreme(&vals, false))
        },
        Aggregation::Max { field } => {
            let vals = found_values(records, field);
            AggregateValue::Value(fold_extreme(&vals, true))
        },
        Aggregation::Distinct { field } => {
            let vals = found_values(records, field);
            AggregateValue::Distinct(dedup_json(&vals))
        },
        Aggregation::GroupBy { .. } => AggregateValue::GroupBy,
    }
}

/// The `f64` patterns of the numbers among `vals`.
fn numbers_of(vals: &Vec<Json>) -> (r: Vec<u64>)
    ensures
        r@ == number_bits(jvs(vals@)),
{
    proof {
        lemma_jvs(vals@);
    }
    let ghost vs = jvs(vals@);
    let mut r: Vec<u64> = Vec::new();
    let mut i: usize = 0;
    proof {
        assert(vs.take(0) =~= Seq::<JsonView>::empty());
    }
    while i < vals.len()
        invariant
            vs == jvs(vals@),
            vs.len() == vals@.len(),
            forall|k: int| 0 <= k < vals@.len() ==> #[trigger] vs[k] == jv(vals@[k]),
            i <= vals@.len(),
            r@ == number_bits(vs.take(i as int)),
        decreases vals@.len() - i,
    {
        proof {
            assert(vs.take(i + 1).drop_last() =~= vs.take(i as int));
            assert(vs.take(i + 1).last() == vs[i as int]);
        }
        match &vals[i] {
            Json::Number(n) => {
                let b = match n {
                    JsonNumber::PosInt(_, b) => *b,
                    JsonNumber::NegInt(_, b) => *b,
                    JsonNumber::Float(b) => *b,
                };
                r.push(b);
            },
            _ => {},
        }
        i = i + 1;
    }
    proof {
        assert(vs.take(vals@.len() as int) =~= vs);
    }
    r
}

/// The minimum (first of equals) or, with `maximum`, the maximum (last of
/// equals) of `vals`; null for none.
fn fold_extreme(vals: &Vec<Json>, maximum: bool) -> (r: Json)
    ensures
        r@ == if maximum { max_fold(jvs(vals@)) } else { min_fold(jvs(vals@)) },
{
    proof {
        lemma_jvs(vals@);
    }
    let ghost vs = jvs(vals@);
    if vals.len() == 0 {
        return Json::Null;
    }
    let mut m = vals[0].duplicate();
    let mut i: usize = 1;
    proof {
        assert(vs.take(1).len() == 1);
        assert(vs.take(1)[0] == vs[0]);
    }
    while i < vals.len()
        invariant
            vs == jvs(vals@),
            vs.len() == vals@.len(),
            forall|k: int| 0 <= k < vals@.len() ==> #[trigger] vs[k] == jv(vals@[k]),
            1 <= i <= vals@.len(),
            m@ == if maximum { max_fold(vs.take(i as int)) } else { min_fold(vs.take(i as int)) },
        decreases vals@.len() - i,
    {
        proof {
            assert(vs.take(i + 1).drop_last() =~= vs.take(i as int));
            assert(vs.take(i + 1).last() == vs[i as int]);
        }
        let c = match compare_json(&m, &vals[i]) {
            Some(o) => o,
            None => JsonOrder::Equal,
        };
        let greater = match c {
            JsonOrder::Greater => true,
            _ => false,
        };
        if greater != maximum {
            m = vals[i].duplicate();
        }
        i = i + 1;
    }
    proof {
        assert(vs.take(vals@.len() as int) =~= vs);
    }
    m
}

/// The distinct values of `vals`, each at its first appearance, in order.
fn dedup_json(vals: &Vec<Json>) -> (r: Vec<Json>)
    ensures
        jvs(r@) == unique_values(jvs(vals@)),
{
    proof {
        lemma_jvs(vals@);
    }
    let ghost vs = jvs(vals@);
    let mut r: Vec<Json> = Vec::new();
    let mut i: usize = 0;
    proof {
        assert(vs.take(0) =~= Seq::<JsonView>::empty());
    }
    while i < vals.len()
        invariant
            vs == jvs(vals@),
            vs.len() == vals@.len(),
            forall|k: int| 0 <= k < vals@.len() ==> #[trigger] vs[k] == jv(vals@[k]),
            i <= vals@.len(),
            jvs(r@) == unique_values(vs.take(i as int)),
        decreases vals@.len() - i,
    {
        proof {
            assert(vs.take(i + 1).drop_last() =~= vs.take(i as int));
            assert(vs.take(i + 1).last() == vs[i as int]);
            lemma_jvs(r@);
        }
        let mut seen = false;
        let mut k: usize = 0;
        while k < r.len()
            invariant
                k <= r@.len(),
                i < vals@.len(),
                jvs(r@).len() == r@.len(),
                forall|x: int| 0 <= x < r@.len() ==> #[trigger] jvs(r@)[x] == jv(r@[x]),
                seen == exists|x: int| 0 <= x < k && #[trigger] jeq(jvs(r@)[x], jv(vals@[i as int])),
            decreases r@.len() - k,
        {
            if json_equal(&r[k], &vals[i]) {
                seen = true;
                proof {
                    assert(jeq(jvs(r@)[k as int], jv(vals@[i as int])));
                }
            }
            k = k + 1;
        }
        proof {
            assert(seen == has_equal(jvs(r@), vs[i as int]));
        }
        if !seen {
            let ghost before = r@;
            r.push(vals[i].duplicate());
            proof {
                assert(r@.drop_last() =~= before);
            }
        }
        i = i + 1;
    }
    proof {
        assert(vs.take(vals@.len() as int) =~= vs);
    }
    r
}

/// The records that a query selects from `items`, in order: the items whose
/// value passes the filters, each with its value projected.
pub open spec fn selected(items: Seq<(String, Json, i64, String)>, q: Query) -> Seq<(Seq<char>, JsonView, i64, Seq<char>)>
    decreases items.len(),
{
    if items.len() == 0 {
        Seq::empty()
    } else {
        let rest = selected(items.drop_last(), q);
        let t = items.last();
        if all_hold(q.filters@, t.1@) {
            rest.push((t.0@, project_view(t.1@, views(q.projection@)), t.2, t.3@))
        } else {
            rest
        }
    }
}

/// `s` after skipping `offset` and keeping at most `limit`.
pub open spec fn window<A>(s: Seq<A>, offset: Option<usize>, limit: Option<usize>) -> Seq<A> {
    let a = match offset {
        Some(k) => if k <= s.len() { s.skip(k as int) } else { Seq::empty() },
        None => s,
    };
    match limit {
        Some(l) => if l < a.len() { a.take(l as int) } else { a },
        None => a,
    }
}

/// `s` arranged in the order `o`.
pub open spec fn arranged<A>(s: Seq<A>, o: Seq<usize>) -> Seq<A> {
    o.map_values(|i: usize| s[i as int])
}

/// The values of selected records.
pub open spec fn sel_values(s: Seq<(Seq<char>, JsonView, i64, Seq<char>)>) -> Seq<JsonView> {
    s.map_values(|t: (Seq<char>, JsonView, i64, Seq<char>)| t.1)
}

/// The first and the past-the-end positions of a window over `n` items.
fn window_bounds(n: usize, offset: Option<usize>, limit: Option<usize>) -> (r: (usize, usize))
    ensures
        r.0 <= r.1 <= n,
        forall|s: Seq<int>| s.len() == n ==> #[trigger] window(s, offset, limit) == s.subrange(r.0 as int, r.1 as int),
{
    let start = match offset {
        Some(k) => if k <= n { k } else { n },
        None => 0,
    };
    let end = match limit {
        Some(l) => if l < n - start { start + l } else { n },
        None => n,
    };
    proof {
        assert forall|s: Seq<int>| s.len() == n implies #[trigger] window(s, offset, limit) == s.subrange(start as int, end as int) by {
            let a = match offset {
                Some(k) => if k <= s.len() { s.skip(k as int) } else { Seq::empty() },
                None => s,
            };
            assert(a =~= s.subrange(start as int, n as int));
            match limit {
                Some(l) => {
                    if l < a.len() {
                        assert(a.take(l as int) =~= s.subrange(start as int, end as int));
                    } else {
                        assert(a =~= s.subrange(start as int, end as int));
                    }
                },
                None => {
                    assert(a =~= s.subrange(start as int, end as int));
                },
            }
        }
    }
    (start, end)
}

/// A window is the same stretch of positions whatever the items are.
proof fn lemma_window_positions<A>(s: Seq<A>, offset: Option<usize>, limit: Option<usize>, b0: int, b1: int)
    requires
        0 <= b0 <= b1 <= s.len(),
        window(Seq::new(s.len(), |i: int| i), offset, limit) == Seq::new(s.len(), |i: int| i).subrange(b0, b1),
    ensures
        window(s, offset, limit) == s.subrange(b0, b1),
{
    let ix = Seq::new(s.len(), |i: int| i);
    let a = match offset {
        Some(k) => if k <= s.len() { s.skip(k as int) } else { Seq::empty() },
        None => s,
    };
    let ai = match offset {
        Some(k) => if k <= ix.len() { ix.skip(k as int) } else { Seq::empty() },
        None => ix,
    };
    let start: int = match offset {
        Some(k) => if k <= s.len() { k as int } else { s.len() as int },
        None => 0,
    };
    assert(a =~= s.subrange(start, s.len() as int));
    assert(ai =~= ix.subrange(start, s.len() as int));
    let w = window(s, offset, limit);
    let wi = window(ix, offset, limit);
    assert(w.len() == wi.len());
    assert(wi.len() == b1 - b0);
    assert forall|k: int| 0 <= k < w.len() implies w[k] == s.subrange(b0, b1)[k] by {
        assert(wi[k] == b0 + k);
        assert(ai[wi[k] - start] == wi[k]);
        assert(w[k] == a[wi[k] - start]);
    }
    assert(w =~= s.subrange(b0, b1));
}

/// Query executor for running queries against stored values.
#[derive(Debug)]
pub struct QueryExecutor;

impl QueryExecutor {
    /// Run `query` over `items` (key, value, write time, version ID): keep the
    /// items whose value passes the filters, project their values, sort them
    /// stably by the sort keys, skip `offset`, keep `limit`, and aggregate what
    /// is left. The total count is that of the matching items.
    pub fn execute(query: &Query, items: Vec<(String, Json, i64, String)>) -> (r: QueryResult)
        ensures
            r.total_count == selected(items@, *query).len(),
            exists|o: Seq<usize>| #[trigger] stable_sorted(o, sel_values(selected(items@, *query)), query.sort@)
                && recs_view(r.records@) == window(arranged(selected(items@, *query), o), query.offset, query.limit),
            match query.aggregation {
                Some(agg) => match r.aggregation {
                    Some(a) => aggregate_ok(agg, record_values(r.records@), a),
                    None => false,
                },
                None => r.aggregation is None,
            },
    {
        let ghost sel = selected(items@, *query);
        let mut chosen: Vec<QueryRecord> = Vec::new();
        let mut i: usize = 0;
        proof {
            assert(items@.take(0) =~= Seq::<(String, Json, i64, String)>::empty());
            assert(recs_view(chosen@) =~= Seq::<(Seq<char>, JsonView, i64, Seq<char>)>::empty());
        }
        while i < items.len()
            invariant
                i <= items@.len(),
                recs_view(chosen@) == selected(items@.take(i as int), *query),
            decreases items@.len() - i,
        {
            proof {
                assert(items@.take(i + 1).drop_last() =~= items@.take(i as int));
                assert(items@.take(i + 1).last() == items@[i as int]);
            }
            let item = &items[i];
            if query.matches(&item.1) {
                let rec = QueryRecord {
                    key: item.0.clone(),
                    value: query.apply_projection(&item.1),
                    timestamp: item.2,
                    version_id: item.3.clone(),
                };
                let ghost before = chosen@;
                chosen.push(rec);
                proof {
                    assert(recs_view(chosen@) =~= recs_view(before).push(rec_view(rec)));
                }
            }
            i = i + 1;
        }
        proof {
            assert(items@.take(items@.len() as int) =~= items@);
        }
        let total_count = chosen.len();
        let mut refs: Vec<&Json> = Vec::new();
        let mut k: usize = 0;
        while k < chosen.len()
            invariant
                k <= chosen@.len(),
                refs@.len() == k,
                forall|j: int| 0 <= j < k ==> *(#[trigger] refs@[j]) == chosen@[j].value,
            decreases chosen@.len() - k,
        {
            refs.push(&chosen[k].value);
            k = k + 1;
        }
        let order = sort_order(&refs, &query.sort);
        proof {
            assert(ref_views(refs@) =~= sel_values(sel)) by {
                assert forall|j: int| 0 <= j < sel.len() implies #[trigger] ref_views(refs@)[j] == sel_values(sel)[j] by {
                    assert(recs_view(chosen@)[j] == rec_view(chosen@[j]));
                }
            }
        }
        let bounds = window_bounds(order.len(), query.offset, query.limit);
        let mut records: Vec<QueryRecord> = Vec::new();
        let mut p: usize = bounds.0;
        while p < bounds.1
            invariant
                bounds.0 <= p <= bounds.1 <= order@.len(),
                order@.len() == chosen@.len(),
                forall|j: int| 0 <= j < order@.len() ==> #[trigger] order@[j] < chosen@.len(),
                recs_view(records@) == arranged(recs_view(chosen@), order@).subrange(bounds.0 as int, p as int),
            decreases bounds.1 - p,
        {
            let rec = chosen[order[p]].duplicate();
            let ghost before = records@;
            records.push(rec);
            proof {
                let ar = arranged(recs_view(chosen@), order@);
                assert(recs_view(records@) =~= recs_view(before).push(rec_view(rec)));
                assert(ar[p as int] == recs_view(chosen@)[order@[p as int] as int]);
                assert(recs_view(chosen@)[order@[p as int] as int] == rec_view(chosen@[order@[p as int] as int]));
                assert(ar.subrange(bounds.0 as int, p + 1) =~= ar.subrange(bounds.0 as int, p as int).push(ar[p as int]));
            }
            p = p + 1;
        }
        proof {
            let ix = Seq::new(order@.len() as nat, |j: int| j);
            assert(window(ix, query.offset, query.limit) == ix.subrange(bounds.0 as int, bounds.1 as int));
            lemma_window_positions(arranged(sel, order@), query.offset, query.limit, bounds.0 as int, bounds.1 as int);
        }
        let aggregation = match &query.aggregation {
            Some(agg) => Some(compute_aggregation(agg, &records)),
            None => None,
        };
        QueryResult { records, total_count, aggregation }
    }
}

/// A query over the versions of a key: a base query for the values, a time
/// range, and a number of latest versions to keep.
#[derive(Debug)]
pub struct HistoryQuery {
    /// Base query for filtering versions.
    pub query: Query,
    /// Earliest write time kept (nanoseconds, UTC).
    pub from_time: Option<i64>,
    /// Latest write time kept (nanoseconds, UTC).
    pub to_time: Option<i64>,
    /// Keep only the latest N versions.
    pub latest: Option<usize>,
}

/// Whether a version written at `timestamp` with value `v` passes the history
/// query: within the time range, and passing the base query's filters.
pub open spec fn entry_holds(q: HistoryQuery, timestamp: i64, v: JsonView) -> bool {
    &&& match q.from_time {
        Some(from) => timestamp >= from,
        None => true,
    }
    &&& match q.to_time {
        Some(to) => timestamp <= to,
        None => true,
    }
    &&& all_hold(q.query.filters@, v)
}

/// The versions that pass the history query, in order.
pub open spec fn kept_entries(history: Seq<(HistoryEntry, Json)>, q: HistoryQuery) -> Seq<(HistoryEntry, Json)>
    decreases history.len(),
{
    if history.len() == 0 {
        Seq::empty()
    } else {
        let rest = kept_entries(history.drop_last(), q);
        let h = history.last();
        if entry_holds(q, h.0.timestamp, h.1@) { rest.push(h) } else { rest }
    }
}

/// `s` cut to its last `latest` items, then to its first `limit`.
pub open spec fn latest_window<A>(s: Seq<A>, latest: Option<usize>, limit: Option<usize>) -> Seq<A> {
    let a = match latest {
        Some(n) => if s.len() > n { s.skip(s.len() - n) } else { s },
        None => s,
    };
    match limit {
        Some(l) => if l < a.len() { a.take(l as int) } else { a },
        None => a,
    }
}

impl HistoryQuery {
    /// A history query with an empty base query and no bounds.
    pub fn new() -> (h: Self)
        ensures
            h.query.filters@.len() == 0,
            h.query.projection@.len() == 0,
            h.query.sort@.len() == 0,
            h.query.limit is None,
            h.query.offset is None,
            h.query.aggregation is None,
            h.from_time is None,
            h.to_time is None,
            h.latest is None,
    {
        HistoryQuery { query: Query::new(), from_time: None, to_time: None, latest: None }
    }

    /// Set the base query.
    pub fn with_query(self, query: Query) -> (h: Self)
        ensures
            h.query == query,
            h.from_time == self.from_time,
            h.to_time == self.to_time,
            h.latest == self.latest,
    {
        HistoryQuery { query, from_time: self.from_time, to_time: self.to_time, latest: self.latest }
    }

    /// Keep versions written at or after `time`.
    pub fn from(self, time: i64) -> (h: Self)
        ensures
            h.query == self.query,
            h.from_time == Some(time),
            h.to_time == self.to_time,
            h.latest == self.latest,
    {
        HistoryQuery { query: self.query, from_time: Some(time), to_time: self.to_time, latest: self.latest }
    }

    /// Keep versions written at or before `time`.
    pub fn to(self, time: i64) -> (h: Self)
        ensures
            h.query == self.query,
            h.from_time == self.from_time,
            h.to_time == Some(time),
            h.latest == self.latest,
    {
        HistoryQuery { query: self.query, from_time: self.from_time, to_time: Some(time), latest: self.latest }
    }

    /// Keep only the latest `n` versions.
    pub fn latest(self, n: usize) -> (h: Self)
        ensures
            h.query == self.query,
            h.from_time == self.from_time,
            h.to_time == self.to_time,
            h.latest == Some(n),
    {
        HistoryQuery { query: self.query, from_time: self.from_time, to_time: self.to_time, latest: Some(n) }
    }

    /// Whether a version (its entry, and its value read as JSON) passes.
    pub fn matches_entry(&self, entry: &HistoryEntry, value: &Json) -> (r: bool)
        ensures
            r == entry_holds(*self, entry.timestamp, value@),
    {
        match self.from_time {
            Some(from) => {
                if entry.timestamp < from {
                    return false;
                }
            },
            None => {},
        }
        match self.to_time {
            Some(to) => {
                if entry.timestamp > to {
                    return false;
                }
            },
            None => {},
        }
        self.query.matches(value)
    }
}

impl Default for HistoryQuery {
    fn default() -> (h: Self)
        ensures
            h.query.filters@.len() == 0,
            h.query.sort@.len() == 0,
            h.from_time is None,
            h.to_time is None,
            h.latest is None,
    {
        HistoryQuery::new()
    }
}

/// The entries of versions.
pub open spec fn entry_views(s: Seq<(HistoryEntry, Json)>) -> Seq<(Seq<char>, i64, Seq<char>)> {
    s.map_values(|h: (HistoryEntry, Json)| entry_view(h.0))
}

/// The values of versions.
pub open spec fn version_values(s: Seq<(HistoryEntry, Json)>) -> Seq<JsonView> {
    s.map_values(|h: (HistoryEntry, Json)| h.1@)
}

/// A copy of a history entry.
fn copy_entry(e: &HistoryEntry) -> (r: HistoryEntry)
    ensures
        entry_view(r) == entry_view(*e),
{
    HistoryEntry { value: e.value.clone(), timestamp: e.timestamp, version_id: e.version_id.clone() }
}

impl QueryExecutor {
    /// Run a history query over the versions of a key, each given with its
    /// value read as JSON: keep the versions in the time range whose value
    /// passes the filters, sort them stably by the base query's sort keys,
    /// keep the latest `latest` of them, then at most the base query's limit.
    pub fn execute_history(query: &HistoryQuery, history: Vec<(HistoryEntry, Json)>) -> (r: Vec<HistoryEntry>)
        ensures
            exists|o: Seq<usize>| #[trigger] stable_sorted(o, version_values(kept_entries(history@, *query)), query.query.sort@)
                && r@.map_values(|e: HistoryEntry| entry_view(e))
                    == latest_window(arranged(entry_views(kept_entries(history@, *query)), o), query.latest, query.query.limit),
    {
        let ghost kept = kept_entries(history@, *query);
        let mut idx: Vec<usize> = Vec::new();
        let mut i: usize = 0;
        proof {
            assert(history@.take(0) =~= Seq::<(HistoryEntry, Json)>::empty());
            assert(idx@.map_values(|k: usize| history@[k as int]) =~= Seq::<(HistoryEntry, Json)>::empty());
        }
        while i < history.len()
            invariant
                i <= history@.len(),
                forall|j: int| 0 <= j < idx@.len() ==> #[trigger] idx@[j] < i,
                idx@.map_values(|k: usize| history@[k as int]) == kept_entries(history@.take(i as int), *query),
            decreases history@.len() - i,
        {
            proof {
                assert(history@.take(i + 1).drop_last() =~= history@.take(i as int));
                assert(history@.take(i + 1).last() == history@[i as int]);
            }
            if query.matches_entry(&history[i].0, &history[i].1) {
                let ghost before = idx@;
                idx.push(i);
                proof {
                    assert(idx@.map_values(|k: usize| history@[k as int])
                        =~= before.map_values(|k: usize| history@[k as int]).push(history@[i as int]));
                }
            }
            i = i + 1;
        }
        proof {
            assert(history@.take(history@.len() as int) =~= history@);
        }
        let mut refs: Vec<&Json> = Vec::new();
        let mut k: usize = 0;
        while k < idx.len()
            invariant
                k <= idx@.len(),
                forall|j: int| 0 <= j < idx@.len() ==> #[trigger] idx@[j] < history@.len(),
                refs@.len() == k,
                forall|j: int| 0 <= j < k ==> *(#[trigger] refs@[j]) == history@[idx@[j] as int].1,
            decreases idx@.len() - k,
        {
            refs.push(&history[idx[k]].1);
            k = k + 1;
        }
        let order = sort_order(&refs, &query.query.sort);
        proof {
            assert(ref_views(refs@) =~= version_values(kept)) by {
                assert forall|j: int| 0 <= j < kept.len() implies #[trigger] ref_views(refs@)[j] == version_values(kept)[j] by {
                    assert(kept[j] == history@[idx@[j] as int]);
                }
            }
        }
        let n = order.len();
        let mut start: usize = 0;
        match query.latest {
            Some(m) => {
                if n > m {
                    start = n - m;
                }
            },
            None => {},
        }
        let mut end: usize = n;
        match query.query.limit {
            Some(l) => {
                if l < n - start {
                    end = start + l;
                }
            },
            None => {},
        }
        let ghost all = arranged(entry_views(kept), order@);
        let mut r: Vec<HistoryEntry> = Vec::new();
        let mut p: usize = start;
        proof {
            assert(r@.map_values(|e: HistoryEntry| entry_view(e)) =~= all.subrange(start as int, start as int));
        }
        while p < end
            invariant
                start <= p <= end <= n,
                n == order@.len(),
                order@.len() == kept.len(),
                kept.len() == idx@.len(),
                forall|j: int| 0 <= j < order@.len() ==> #[trigger] order@[j] < kept.len(),
                forall|j: int| 0 <= j < idx@.len() ==> #[trigger] idx@[j] < history@.len(),
                forall|j: int| 0 <= j < kept.len() ==> #[trigger] kept[j] == history@[idx@[j] as int],
                all == arranged(entry_views(kept), order@),
                r@.map_values(|e: HistoryEntry| entry_view(e)) == all.subrange(start as int, p as int),
            decreases end - p,
        {
            let e = copy_entry(&history[idx[order[p]]].0);
            let ghost before = r@;
            r.push(e);
            proof {
                let j = order@[p as int] as int;
                assert(kept[j] == history@[idx@[j] as int]);
                assert(all[p as int] == entry_views(kept)[j]);
                assert(r@.map_values(|e: HistoryEntry| entry_view(e))
                    =~= before.map_values(|e: HistoryEntry| entry_view(e)).push(entry_view(e)));
                assert(all.subrange(start as int, p + 1) =~= all.subrange(start as int, p as int).push(all[p as int]));
            }
            p = p + 1;
        }
        proof {
            let a = match query.latest {
                Some(m) => if all.len() > m { all.skip(all.len() - m) } else { all },
                None => all,
            };
            assert(a =~= all.subrange(start as int, n as int));
            match query.query.limit {
                Some(l) => {
                    if l < a.len() {
                        assert(a.take(l as int) =~= all.subrange(start as int, end as int));
                    } else {
                        assert(a =~= all.subrange(start as int, end as int));
                    }
                },
                None => {
                    assert(a =~= all.subrange(start as int, end as int));
                },
            }
        }
        r
    }
}

/// The positions of `keys` that hold `k`, in ascending order.
pub open spec fn positions_of(keys: Seq<Seq<char>>, k: Seq<char>) -> Seq<usize>
    decreases keys.len(),
{
    if keys.len() == 0 {
        Seq::empty()
    } else {
        let rest = positions_of(keys.drop_last(), k);
        if keys.last() == k { rest.push((keys.len() - 1) as usize) } else { rest }
    }
}

/// Whether `a` comes strictly before `b` in character order.
pub open spec fn chars_lt(a: Seq<char>, b: Seq<char>) -> bool {
    chars_le(a, b) && a != b
}

/// Whether `groups` groups the positions of `keys` by key: keys strictly
/// ascending, each group the positions holding its key, every key present.
pub open spec fn grouped(keys: Seq<Seq<char>>, groups: Seq<(Seq<char>, Seq<usize>)>) -> bool {
    &&& forall|a: int, b: int| 0 <= a < b < groups.len() ==> chars_lt(#[trigger] groups[a].0, #[trigger] groups[b].0)
    &&& forall|j: int| 0 <= j < groups.len() ==> (#[trigger] groups[j]).1 == positions_of(keys, groups[j].0)
        && groups[j].1.len() > 0
    &&& forall|i: int| 0 <= i < keys.len() ==> exists|j: int| 0 <= j < groups.len() && (#[trigger] groups[j]).0 == #[trigger] keys[i]
}

/// Groups by plain values.
pub open spec fn groups_view(g: Seq<(String, Vec<usize>)>) -> Seq<(Seq<char>, Seq<usize>)> {
    g.map_values(|x: (String, Vec<usize>)| (x.0@, x.1@))
}

/// A key that is not in `keys` has no positions.
proof fn lemma_positions_absent(keys: Seq<Seq<char>>, k: Seq<char>)
    requires
        forall|i: int| 0 <= i < keys.len() ==> keys[i] != k,
    ensures
        positions_of(keys, k).len() == 0,
    decreases keys.len(),
{
    if keys.len() > 0 {
        lemma_positions_absent(keys.drop_last(), k);
    }
}

/// Group the positions `0..keys.len()` by equal key, groups in ascending key order.
pub fn group_by_key(keys: &Vec<String>) -> (r: Vec<(String, Vec<usize>)>)
    ensures
        grouped(views(keys@), groups_view(r@)),
{
    let ghost ks = views(keys@);
    let mut r: Vec<(String, Vec<usize>)> = Vec::new();
    let mut i: usize = 0;
    proof {
        assert(ks.take(0) =~= Seq::<Seq<char>>::empty());
        assert(groups_view(r@) =~= Seq::<(Seq<char>, Seq<usize>)>::empty());
    }
    while i < keys.len()
        invariant
            ks == views(keys@),
            i <= keys@.len(),
            grouped(ks.take(i as int), groups_view(r@)),
        decreases keys@.len() - i,
    {
        let ghost pre = ks.take(i as int);
        let ghost post = ks.take(i + 1);
        let ghost g = groups_view(r@);
        let ghost k = keys@[i as int]@;
        proof {
            assert(post.drop_last() =~= pre);
            assert(post.last() == k);
        }
        let mut p: usize = 0;
        while p < r.len() && !str_le(keys[i].as_str(), r[p].0.as_str())
            invariant
                i < keys@.len(),
                g == groups_view(r@),
                k == keys@[i as int]@,
                p <= r@.len(),
                forall|q: int| 0 <= q < p ==> !chars_le(k, #[trigger] g[q].0),
            decreases r@.len() - p,
        {
            p = p + 1;
        }
        proof {
            assert forall|q: int| 0 <= q < p implies chars_lt(#[trigger] g[q].0, k) by {
                crate::strings::lemma_chars_le_total(k, g[q].0);
                if g[q].0 == k {
                    crate::strings::lemma_chars_le_reflexive(k);
                }
            }
        }
        if p < r.len() && str_eq(keys[i].as_str(), r[p].0.as_str()) {
            let mut entry = r.remove(p);
            entry.1.push(i);
            r.insert(p, entry);
            proof {
                let g2 = groups_view(r@);
                assert(g2 =~= g.update(p as int, (k, g[p as int].1.push(i))));
                assert forall|a: int, b: int| 0 <= a < b < g2.len() implies chars_lt(#[trigger] g2[a].0, #[trigger] g2[b].0) by {
                    assert(g2[a].0 == g[a].0 && g2[b].0 == g[b].0);
                }
                assert forall|j: int| 0 <= j < g2.len() implies (#[trigger] g2[j]).1 == positions_of(post, g2[j].0)
                    && g2[j].1.len() > 0 by {
                    if j != p {
                        assert(g2[j] == g[j]);
                        assert(g[j].0 != k) by {
                            if g[j].0 == k {
                                if j < p {
                                    assert(chars_lt(g[j].0, g[p as int].0));
                                } else {
                                    assert(chars_lt(g[p as int].0, g[j].0));
                                }
                            }
                        }
                    }
                }
                assert forall|x: int| 0 <= x < post.len() implies exists|j: int| 0 <= j < g2.len() && (#[trigger] g2[j]).0 == #[trigger] post[x] by {
                    if x < i {
                        assert(post[x] == pre[x]);
                        let j = choose|j: int| 0 <= j < g.len() && (#[trigger] g[j]).0 == #[trigger] pre[x];
                        assert(g2[j].0 == g[j].0);
                    } else {
                        assert(g2[p as int].0 == post[x]);
                    }
                }
            }
        } else {
            let mut list: Vec<usize> = Vec::new();
            list.push(i);
            let name = keys[i].clone();
            r.insert(p, (name, list));
            proof {
                let g2 = groups_view(r@);
                assert(g2 =~= g.insert(p as int, (k, seq![i])));
                assert forall|q: int| 0 <= q < pre.len() implies pre[q] != k by {
                    let j = choose|j: int| 0 <= j < g.len() && (#[trigger] g[j]).0 == #[trigger] pre[q];
                    if j < p {
                        assert(chars_lt(g[j].0, k));
                    } else {
                        assert(chars_le(k, g[p as int].0));
                        assert(g[p as int].0 != k);
                        if j > p {
                            assert(chars_lt(g[p as int].0, g[j].0));
                            crate::strings::lemma_chars_le_transitive(k, g[p as int].0, g[j].0);
                            if g[j].0 == k {
                                crate::strings::lemma_chars_le_antisymmetric(k, g[p as int].0);
                            }
                        }
                    }
                }
                lemma_positions_absent(pre, k);
                assert(positions_of(post, k) =~= seq![i]);
                assert forall|a: int, b: int| 0 <= a < b < g2.len() implies chars_lt(#[trigger] g2[a].0, #[trigger] g2[b].0) by {
                    if b < p {
                        assert(g2[a] == g[a] && g2[b] == g[b]);
                    } else if b == p {
                        assert(g2[a] == g[a]);
                    } else if a == p {
                        assert(g2[b] == g[b - 1]);
                        if p < g.len() {
                            assert(chars_le(k, g[p as int].0));
                            if b - 1 > p {
                                assert(chars_lt(g[p as int].0, g[b - 1].0));
                                crate::strings::lemma_chars_le_transitive(k, g[p as int].0, g[b - 1].0);
                                if g[b - 1].0 == k {
                                    crate::strings::lemma_chars_le_antisymmetric(k, g[p as int].0);
                                }
                            }
                        }
                    } else if a < p {
                        assert(g2[a] == g[a] && g2[b] == g[b - 1]);
                    } else {
                        assert(g2[a] == g[a - 1] && g2[b] == g[b - 1]);
                    }
                }
                assert forall|j: int| 0 <= j < g2.len() implies (#[trigger] g2[j]).1 == positions_of(post, g2[j].0)
                    && g2[j].1.len() > 0 by {
                    if j != p {
                        let j2 = if j < p { j } else { j - 1 };
                        assert(g2[j] == g[j2]);
                        assert(g[j2].1.len() > 0);
                        assert(g[j2].0 != k) by {
                            if g[j2].0 == k {
                                assert(g[j2].1 == positions_of(pre, k));
                            }
                        }
                    }
                }
                assert forall|x: int| 0 <= x < post.len() implies exists|j: int| 0 <= j < g2.len() && (#[trigger] g2[j]).0 == #[trigger] post[x] by {
                    if x < i {
                        assert(post[x] == pre[x]);
                        let j = choose|j: int| 0 <= j < g.len() && (#[trigger] g[j]).0 == #[trigger] pre[x];
                        let j2 = if j < p { j } else { j + 1 };
                        assert(g2[j2] == g[j]);
                    } else {
                        assert(g2[p as int].0 == post[x]);
                    }
                }
            }
        }
        i = i + 1;
    }
    proof {
        assert(ks.take(keys@.len() as int) =~= ks);
    }
    r
}

} // verus!
