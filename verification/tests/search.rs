use fabric::search::algorithms::Score;
use fabric::search::metrics::{SearchMetrics, WINDOW_SIZE};
use fabric::search::SearchIndex;
use std::collections::HashMap;

#[test]
fn test_metrics_recording() {
    let mut metrics = SearchMetrics::new();

    metrics.record_search(100_000);
    metrics.record_search_with_details("test", 200_000, 5);

    assert_eq!(metrics.total_searches(), 2);

    if let Some(avg) = metrics.get_average_search_time() {
        assert!(avg >= 100_000 && avg <= 200_000);
    } else {
        panic!("Expected average search time");
    }

    let recent = metrics.get_recent_searches(1);
    assert_eq!(recent.len(), 1);
    assert_eq!(recent[0].query, "test");
    assert_eq!(recent[0].result_count, 5);
}

#[test]
fn metrics_mean_is_exact_and_rounded_down() {
    let mut metrics = SearchMetrics::default();
    assert_eq!(metrics.get_average_search_time(), None);
    assert_eq!(metrics.record_search(100_000), 1);
    assert_eq!(metrics.record_search(200_000), 2);
    assert_eq!(metrics.get_average_search_time(), Some(150_000));
    assert_eq!(metrics.record_search(1), 3);
    assert_eq!(metrics.total_search_time(), 300_001);
    assert_eq!(metrics.get_average_search_time(), Some(100_000));
    assert!(metrics.get_recent_searches(10).is_empty());
}

#[test]
fn metrics_counters_wrap() {
    let mut metrics = SearchMetrics::new();
    metrics.record_search(u64::MAX);
    metrics.record_search(2);
    assert_eq!(metrics.total_search_time(), 1);
    assert_eq!(metrics.total_searches(), 2);
}

#[test]
fn metrics_window_keeps_the_latest_hundred() {
    let mut metrics = SearchMetrics::new();
    for i in 0..(WINDOW_SIZE + 5) {
        metrics.record_search_with_details(&format!("q{}", i), i as u64, i);
    }
    assert_eq!(metrics.total_searches(), 105);
    let all = metrics.get_recent_searches(1000);
    assert_eq!(all.len(), WINDOW_SIZE);
    assert_eq!(all[0].query, "q104");
    assert_eq!(all[0].duration_micros, 104);
    assert_eq!(all[99].query, "q5");
    let three = metrics.get_recent_searches(3);
    let queries: Vec<&str> = three.iter().map(|s| s.query.as_str()).collect();
    assert_eq!(queries, vec!["q104", "q103", "q102"]);
    assert!(metrics.get_recent_searches(0).is_empty());
}

#[test]
fn search_ranks_by_score_and_keeps_index_order_on_ties() {
    let mut index = SearchIndex::new();
    assert!(index.index_data("elsewhere", b"1", None));
    assert!(index.index_data("HelloWorld", b"2", None));
    assert!(index.index_data("hello", b"3", None));
    assert!(index.index_data("hullo", b"4", None));
    assert_eq!(index.len(), 4);
    let hits = index.search("hl", 10);
    let keys: Vec<&str> = hits.iter().map(|h| h.key.as_str()).collect();
    // "hello" and "hullo" both score 4/10, "HelloWorld" 9/20; no 'h' in "elsewhere".
    assert_eq!(keys, vec!["HelloWorld", "hello", "hullo"]);
    assert_eq!(hits[0].score, Score { numerator: 9, denominator: 20 });
    assert_eq!(hits[1].score, Score { numerator: 4, denominator: 10 });
    assert_eq!(hits[2].score, Score { numerator: 4, denominator: 10 });
    for pair in hits.windows(2) {
        assert!(pair[0].score.is_at_least(&pair[1].score));
    }
}

#[test]
fn search_truncates_to_the_limit() {
    let mut index = SearchIndex::new();
    for key in ["abc", "abd", "abe", "xyz"] {
        index.index_data(key, b"", None);
    }
    assert_eq!(index.search("ab", 10).len(), 3);
    let two = index.search("ab", 2);
    let keys: Vec<&str> = two.iter().map(|h| h.key.as_str()).collect();
    assert_eq!(keys, vec!["abc", "abd"]);
    assert!(index.search("ab", 0).is_empty());
    assert!(index.search("q", 10).is_empty());
    // The empty query matches every key with the perfect score.
    let all = index.search("", 10);
    assert_eq!(all.len(), 4);
    assert!(all.iter().all(|h| h.score == Score { numerator: 1, denominator: 1 }));
}

#[test]
fn search_is_counted_in_the_metrics() {
    let mut index = SearchIndex::new();
    index.index_data("abc", b"", None);
    assert_eq!(index.metrics().total_searches(), 0);
    assert_eq!(index.metrics().get_average_search_time(), None);
    index.search("a", 10);
    index.search("zzz", 10);
    assert_eq!(index.metrics().total_searches(), 2);
    assert!(index.metrics().get_average_search_time().is_some());
    assert!(index.metrics().get_recent_searches(10).is_empty());
}

#[test]
fn index_data_is_an_upsert() {
    let mut index = SearchIndex::new();
    let mut meta = HashMap::new();
    meta.insert("kind".to_string(), "note".to_string());
    index.index_data("doc", b"first", Some(meta.clone()));
    index.index_data("other", b"x", None);
    // New data without metadata: the old metadata stays.
    index.index_data("doc", b"second", None);
    assert_eq!(index.len(), 2);
    let hits = index.search("doc", 10);
    assert_eq!(hits.len(), 1);
    assert_eq!(hits[0].metadata, Some(meta));
    // New metadata takes the place of the old.
    let mut newer = HashMap::new();
    newer.insert("kind".to_string(), "memo".to_string());
    index.index_data("doc", b"third", Some(newer.clone()));
    let hits = index.search("doc", 10);
    assert_eq!(hits[0].metadata, Some(newer));
    assert_eq!(index.search("other", 10)[0].metadata, None);
    assert_eq!(index.len(), 2);
}
