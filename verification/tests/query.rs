use koru_delta::json::{get_field, Json, JsonNumber};
use koru_delta::query::{
    group_by_key, AggregateValue, Aggregation, Filter, HistoryQuery, Query, QueryExecutor, SortBy, SortOrder,
};
use koru_delta::storage::HistoryEntry;

fn s(x: &str) -> Json {
    Json::String(x.to_string())
}

fn n(x: i64) -> Json {
    let bits = (x as f64).to_bits();
    if x >= 0 {
        Json::Number(JsonNumber::PosInt(x as u64, bits))
    } else {
        Json::Number(JsonNumber::NegInt(x, bits))
    }
}

fn f(x: f64) -> Json {
    Json::Number(JsonNumber::Float(x.to_bits()))
}

fn obj(pairs: Vec<(&str, Json)>) -> Json {
    let mut v: Vec<(String, Json)> = pairs.into_iter().map(|(k, x)| (k.to_string(), x)).collect();
    v.sort_by(|a, b| a.0.cmp(&b.0));
    Json::Object(v)
}

fn item(key: &str, value: Json, t: i64, version: &str) -> (String, Json, i64, String) {
    (key.to_string(), value, t, version.to_string())
}

fn sum_of(bits: &[u64]) -> f64 {
    bits.iter().map(|b| f64::from_bits(*b)).sum()
}

#[test]
fn test_filter_eq() {
    let filter = Filter::eq("name".to_string(), s("Alice"));
    assert!(filter.matches_value(&obj(vec![("name", s("Alice"))])));
    assert!(!filter.matches_value(&obj(vec![("name", s("Bob"))])));
}

#[test]
fn test_filter_gt() {
    let filter = Filter::gt("age".to_string(), n(30));
    assert!(filter.matches_value(&obj(vec![("age", n(35))])));
    assert!(!filter.matches_value(&obj(vec![("age", n(30))])));
    assert!(!filter.matches_value(&obj(vec![("age", n(25))])));
}

#[test]
fn test_filter_contains_string() {
    let filter = Filter::contains("name".to_string(), s("ice"));
    assert!(filter.matches_value(&obj(vec![("name", s("Alice"))])));
    assert!(!filter.matches_value(&obj(vec![("name", s("Bob"))])));
}

#[test]
fn test_filter_contains_array() {
    let filter = Filter::contains("tags".to_string(), s("admin"));
    assert!(filter.matches_value(&obj(vec![("tags", Json::Array(vec![s("admin"), s("user")]))])));
    assert!(!filter.matches_value(&obj(vec![("tags", Json::Array(vec![s("user")]))])));
}

#[test]
fn test_filter_and() {
    let filter = Filter::and(vec![Filter::gt("age".to_string(), n(18)), Filter::lt("age".to_string(), n(65))]);
    assert!(filter.matches_value(&obj(vec![("age", n(30))])));
    assert!(!filter.matches_value(&obj(vec![("age", n(10))])));
    assert!(!filter.matches_value(&obj(vec![("age", n(70))])));
}

#[test]
fn test_filter_or() {
    let filter = Filter::or(vec![
        Filter::eq("status".to_string(), s("active")),
        Filter::eq("status".to_string(), s("pending")),
    ]);
    assert!(filter.matches_value(&obj(vec![("status", s("active"))])));
    assert!(filter.matches_value(&obj(vec![("status", s("pending"))])));
    assert!(!filter.matches_value(&obj(vec![("status", s("inactive"))])));
}

#[test]
fn test_filter_nested_field() {
    let filter = Filter::eq("user.name".to_string(), s("Alice"));
    assert!(filter.matches_value(&obj(vec![("user", obj(vec![("name", s("Alice"))]))])));
    assert!(!filter.matches_value(&obj(vec![("user", obj(vec![("name", s("Bob"))]))])));
}

#[test]
fn test_query_projection() {
    let query = Query::new().project(&["name", "email"]);
    let value = obj(vec![("name", s("Alice")), ("email", s("alice@example.com")), ("age", n(30))]);
    let projected = query.apply_projection(&value);
    assert_eq!(projected, obj(vec![("name", s("Alice")), ("email", s("alice@example.com"))]));
}

#[test]
fn test_query_execution() {
    let query = Query::new().filter(Filter::gt("age".to_string(), n(25))).sort_by("age".to_string(), true).limit(2);
    let items = vec![
        item("alice", obj(vec![("name", s("Alice")), ("age", n(30))]), 1, "v1"),
        item("bob", obj(vec![("name", s("Bob")), ("age", n(20))]), 2, "v2"),
        item("charlie", obj(vec![("name", s("Charlie")), ("age", n(35))]), 3, "v3"),
        item("dave", obj(vec![("name", s("Dave")), ("age", n(28))]), 4, "v4"),
    ];
    let result = QueryExecutor::execute(&query, items);
    assert_eq!(result.total_count, 3);
    assert_eq!(result.records.len(), 2);
    assert_eq!(result.records[0].key, "dave");
    assert_eq!(result.records[1].key, "alice");
}

#[test]
fn test_aggregation_count() {
    let query = Query::new().aggregate(Aggregation::count());
    let items = vec![
        item("a", obj(vec![("x", n(1))]), 1, "v1"),
        item("b", obj(vec![("x", n(2))]), 2, "v2"),
        item("c", obj(vec![("x", n(3))]), 3, "v3"),
    ];
    let result = QueryExecutor::execute(&query, items);
    assert!(matches!(result.aggregation, Some(AggregateValue::Count(3))));
}

#[test]
fn test_aggregation_sum() {
    let query = Query::new().aggregate(Aggregation::sum("value".to_string()));
    let items = vec![
        item("a", obj(vec![("value", n(10))]), 1, "v1"),
        item("b", obj(vec![("value", n(20))]), 2, "v2"),
        item("c", obj(vec![("value", n(30))]), 3, "v3"),
    ];
    let result = QueryExecutor::execute(&query, items);
    match result.aggregation {
        Some(AggregateValue::Numbers { average, bits }) => {
            assert!(!average);
            assert_eq!(sum_of(&bits), 60.0);
        }
        other => panic!("unexpected aggregation {:?}", other),
    }
}

#[test]
fn test_aggregation_avg() {
    let query = Query::new().aggregate(Aggregation::avg("score".to_string()));
    let items = vec![
        item("a", obj(vec![("score", n(80))]), 1, "v1"),
        item("b", obj(vec![("score", n(90))]), 2, "v2"),
        item("c", obj(vec![("score", n(100))]), 3, "v3"),
    ];
    let result = QueryExecutor::execute(&query, items);
    match result.aggregation {
        Some(AggregateValue::Numbers { average, bits }) => {
            assert!(average);
            assert_eq!(sum_of(&bits) / bits.len() as f64, 90.0);
        }
        other => panic!("unexpected aggregation {:?}", other),
    }
}

#[test]
fn test_history_query() {
    let now: i64 = 1_700_000_000_000_000_000;
    let hour: i64 = 3_600_000_000_000;
    let query = HistoryQuery::new()
        .from(now - hour)
        .with_query(Query::new().filter(Filter::gt("count".to_string(), n(5))));
    let history = vec![
        (HistoryEntry::new("{\"count\":3}".to_string(), now - 2 * hour, "v1".to_string()), obj(vec![("count", n(3))])),
        (HistoryEntry::new("{\"count\":7}".to_string(), now - hour, "v2".to_string()), obj(vec![("count", n(7))])),
        (HistoryEntry::new("{\"count\":10}".to_string(), now, "v3".to_string()), obj(vec![("count", n(10))])),
    ];
    let results = QueryExecutor::execute_history(&query, history);
    assert_eq!(results.len(), 2);
}

#[test]
fn missing_fields_and_nulls_for_ne_and_exists() {
    let ne = Filter::ne("status".to_string(), s("active"));
    assert!(ne.matches_value(&obj(vec![("name", s("x"))])));
    assert!(!ne.matches_value(&obj(vec![("status", s("active"))])));
    let ex = Filter::field_exists("status".to_string());
    assert!(!ex.matches_value(&obj(vec![("status", Json::Null)])));
    assert!(ex.matches_value(&obj(vec![("status", n(0))])));
    assert!(Filter::not(ex).matches_value(&obj(vec![])));
}

#[test]
fn regex_filter_matches_strings_only() {
    let m = Filter::matches("email".to_string(), "^[a-z]+@example\\.com$".to_string());
    assert!(m.matches_value(&obj(vec![("email", s("alice@example.com"))])));
    assert!(!m.matches_value(&obj(vec![("email", s("Alice@other.org"))])));
    assert!(!m.matches_value(&obj(vec![("email", n(3))])));
    let bad = Filter::matches("email".to_string(), "([".to_string());
    assert!(!bad.matches_value(&obj(vec![("email", s("x"))])));
}

#[test]
fn paths_index_arrays_and_integers_equal_by_kind() {
    let v = obj(vec![("items", Json::Array(vec![obj(vec![("id", n(7))]), obj(vec![("id", n(9))])]))]);
    assert_eq!(get_field(&v, "items.1.id"), Some(n(9)));
    assert_eq!(get_field(&v, "items.+0.id"), Some(n(7)));
    assert_eq!(get_field(&v, "items.2.id"), None);
    assert_eq!(get_field(&v, "items.-1"), None);
    assert_eq!(get_field(&v, "items..id"), None);
    // An integer and a float of the same value are not equal, but order as equal.
    assert!(!Filter::eq("x".to_string(), f(1.0)).matches_value(&obj(vec![("x", n(1))])));
    assert!(Filter::gte("x".to_string(), f(1.0)).matches_value(&obj(vec![("x", n(1))])));
    // Values of different kinds do not compare.
    assert!(!Filter::lt("x".to_string(), s("a")).matches_value(&obj(vec![("x", n(1))])));
}

#[test]
fn sorting_is_stable_puts_missing_last_and_windows() {
    let query = Query::new().sort_by("rank".to_string(), false).offset(1).limit(2);
    let items = vec![
        item("a", obj(vec![("rank", n(1))]), 1, "v1"),
        item("b", obj(vec![]), 2, "v2"),
        item("c", obj(vec![("rank", n(5))]), 3, "v3"),
        item("d", obj(vec![("rank", n(1))]), 4, "v4"),
    ];
    let result = QueryExecutor::execute(&query, items);
    assert_eq!(result.total_count, 4);
    let keys: Vec<&str> = result.records.iter().map(|r| r.key.as_str()).collect();
    // Descending flips the whole comparison, missing-last included: b (missing),
    // c (5), then a and d (equal, in input order); the window skips b.
    assert_eq!(keys, vec!["c", "a"]);
    let far = Query::new().offset(10);
    assert!(QueryExecutor::execute(&far, vec![item("a", n(1), 1, "v1")]).records.is_empty());
}

#[test]
fn min_max_and_distinct() {
    let items = || {
        vec![
            item("a", obj(vec![("v", n(3))]), 1, "v1"),
            item("b", obj(vec![("v", n(1))]), 2, "v2"),
            item("c", obj(vec![("v", n(1))]), 3, "v3"),
            item("d", obj(vec![("w", n(0))]), 4, "v4"),
            item("e", obj(vec![("v", n(7))]), 5, "v5"),
        ]
    };
    let min = QueryExecutor::execute(&Query::new().aggregate(Aggregation::min("v".to_string())), items());
    assert!(matches!(min.aggregation, Some(AggregateValue::Value(ref j)) if *j == n(1)));
    let max = QueryExecutor::execute(&Query::new().aggregate(Aggregation::max("v".to_string())), items());
    assert!(matches!(max.aggregation, Some(AggregateValue::Value(ref j)) if *j == n(7)));
    let none = QueryExecutor::execute(&Query::new().aggregate(Aggregation::min("zz".to_string())), items());
    assert!(matches!(none.aggregation, Some(AggregateValue::Value(Json::Null))));
    let d = QueryExecutor::execute(&Query::new().aggregate(Aggregation::distinct("v".to_string())), items());
    match d.aggregation {
        Some(AggregateValue::Distinct(vs)) => assert_eq!(vs, vec![n(3), n(1), n(7)]),
        other => panic!("unexpected aggregation {:?}", other),
    }
}

#[test]
fn distinct_removes_non_adjacent_repeats() {
    let items = vec![
        item("a", obj(vec![("x", n(1))]), 1, "v1"),
        item("b", obj(vec![("x", n(2))]), 1, "v2"),
        item("c", obj(vec![("x", n(1))]), 1, "v3"),
    ];
    let d = QueryExecutor::execute(&Query::new().aggregate(Aggregation::distinct("x".to_string())), items);
    match d.aggregation {
        Some(AggregateValue::Distinct(vs)) => assert_eq!(vs, vec![n(1), n(2)]),
        other => panic!("unexpected aggregation {:?}", other),
    }
}

#[test]
fn history_keeps_latest_then_limit() {
    let entry = |i: i64| {
        (HistoryEntry::new(format!("{{\"n\":{}}}", i), i, format!("v{}", i)), obj(vec![("n", n(i))]))
    };
    let history: Vec<_> = (1..=5).map(entry).collect();
    let q = HistoryQuery::new().latest(3).to(4).with_query(Query::new().limit(2));
    let out = QueryExecutor::execute_history(&q, history);
    let ids: Vec<&str> = out.iter().map(|e| e.version_id.as_str()).collect();
    assert_eq!(ids, vec!["v2", "v3"]);
    let _ = SortBy::new("n".to_string(), SortOrder::Asc);
}

#[test]
fn grouping_orders_keys_and_keeps_positions() {
    let keys: Vec<String> = vec!["b", "a", "b", "c", "a"].into_iter().map(|k| k.to_string()).collect();
    let groups = group_by_key(&keys);
    let shape: Vec<(&str, Vec<usize>)> = groups.iter().map(|(k, p)| (k.as_str(), p.clone())).collect();
    assert_eq!(shape, vec![("a", vec![1, 4]), ("b", vec![0, 2]), ("c", vec![3])]);
    assert!(group_by_key(&Vec::new()).is_empty());
}
