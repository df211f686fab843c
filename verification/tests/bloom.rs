use koru_delta::reconciliation::bloom::{BloomExchange, BloomFilter};

/// A filter sized for `expected_items` at `false_positive_rate`, with the
/// standard optimal-size formulas (the float part of sizing).
fn sized_filter(expected_items: usize, false_positive_rate: f64) -> BloomFilter {
    let m = ((-1.0 * expected_items as f64 * false_positive_rate.ln()) / (2.0_f64.ln().powi(2)))
        .ceil() as usize;
    let k = ((m as f64 / expected_items as f64) * 2.0_f64.ln()).ceil() as usize;
    BloomFilter::with_dimensions(m.max(1), k.max(1))
}

#[test]
fn test_empty_filter() {
    let filter = sized_filter(100, 0.01);
    assert!(filter.is_empty());
    assert_eq!(filter.len(), 0);
    assert!(!filter.might_contain("anything"));
}

#[test]
fn test_insert_and_query() {
    let mut filter = sized_filter(100, 0.01);
    filter.insert("distinction_1");
    filter.insert("distinction_2");

    assert!(filter.might_contain("distinction_1"));
    assert!(filter.might_contain("distinction_2"));
    assert!(!filter.might_contain("distinction_3"));
}

#[test]
fn test_definitely_not_contain() {
    let mut filter = sized_filter(100, 0.01);
    filter.insert("present");

    assert!(filter.definitely_not_contain("absent"));
    assert!(!filter.definitely_not_contain("present"));
}

#[test]
fn test_no_false_negatives() {
    let mut filter = sized_filter(1000, 0.01);
    for i in 0..100 {
        filter.insert(&format!("item_{}", i));
    }
    for i in 0..100 {
        assert!(filter.might_contain(&format!("item_{}", i)), "False negative for item_{}", i);
    }
}

#[test]
fn test_false_positive_rate() {
    let mut filter = sized_filter(10000, 0.01);
    for i in 0..1000 {
        filter.insert(&format!("item_{}", i));
    }
    let mut false_positives = 0;
    for i in 1000..2000 {
        if filter.might_contain(&format!("item_{}", i)) {
            false_positives += 1;
        }
    }
    let fp_rate = false_positives as f64 / 1000.0;
    assert!(fp_rate < 0.05, "False positive rate too high: {}", fp_rate);
}

#[test]
fn bloom_test_clear() {
    let mut filter = sized_filter(100, 0.01);
    filter.insert("item");
    assert!(filter.might_contain("item"));

    filter.clear();
    assert!(filter.is_empty());
    assert!(!filter.might_contain("item"));
}

#[test]
fn test_size_calculation() {
    let filter = sized_filter(1000, 0.01);
    let size = filter.size_in_bytes();
    assert!(size > 1000, "Filter should be ~1KB, got {} bytes", size);
    assert!(size < 2000, "Filter should be <2KB, got {} bytes", size);
}

#[test]
fn bloom_with_dimensions_exact_sizes() {
    let filter = BloomFilter::with_dimensions(9, 3);
    assert_eq!(filter.size_in_bytes(), 2);
    let filter = BloomFilter::with_dimensions(8, 3);
    assert_eq!(filter.size_in_bytes(), 1);
    let filter = BloomFilter::with_dimensions(0, 0);
    assert_eq!(filter.size_in_bytes(), 0);
    // With no hash functions every item "might" be present.
    assert!(filter.might_contain("x"));
}

#[test]
fn bloom_insert_counts_and_keeps_members() {
    let mut filter = BloomFilter::with_dimensions(64, 4);
    filter.insert("a");
    filter.insert("b");
    filter.insert("a");
    assert_eq!(filter.len(), 3);
    assert!(filter.might_contain("a"));
    assert!(filter.might_contain("b"));
}

#[test]
fn bloom_single_bit_filter_contains_everything_after_insert() {
    let mut filter = BloomFilter::with_dimensions(1, 2);
    assert!(filter.definitely_not_contain("zzz"));
    filter.insert("a");
    assert!(filter.might_contain("zzz"));
}

#[test]
fn bloom_exchange_holds_all_distinctions() {
    let ds: Vec<String> = (0..50).map(|i| format!("d{}", i)).collect();
    let mut ex = BloomExchange::with_dimensions(&ds, 512, 3);
    for d in &ds {
        assert!(ex.get_local_filter().might_contain(d));
    }
    assert_eq!(ex.get_local_filter().len(), 50);
    assert!(ex.find_missing_remote().is_empty());
    ex.receive_remote(BloomFilter::with_dimensions(8, 1));
    assert_eq!(ex.get_local_filter().len(), 50);
    // An empty remote filter lacks every one of our distinctions.
    assert_eq!(ex.find_missing_remote(), ds);
}

#[test]
fn bloom_exchange_finds_what_remote_lacks() {
    let ds: Vec<String> = vec!["a".to_string(), "b".to_string(), "c".to_string()];
    let mut ex = BloomExchange::with_dimensions(&ds, 4096, 3);
    let mut remote = BloomFilter::with_dimensions(4096, 3);
    remote.insert("a");
    remote.insert("c");
    ex.receive_remote(remote.clone());
    let missing = ex.find_missing_remote();
    assert!(missing.contains(&"b".to_string()));
    for d in &missing {
        assert!(ds.contains(d));
        assert!(remote.definitely_not_contain(d));
    }
    // Everything the remote holds is never reported.
    assert!(!missing.contains(&"a".to_string()));
    assert!(!missing.contains(&"c".to_string()));
}

#[test]
fn bloom_insert_keeps_earlier_members() {
    let mut f = BloomFilter::with_dimensions(64, 2);
    f.insert("x");
    f.insert("y");
    assert!(f.might_contain("x"));
    assert!(f.might_contain("y"));
}
