use response_cache::entries::EntryRow;
use response_cache::overview::TotalOverflow;
use response_cache::{
    query_cache_entry_detail, query_cache_overview, CacheEntrySummary, CacheOverview,
};
use serde_json::Value;

fn entry(model: &str, tokens: i64, hits: i64) -> CacheEntrySummary {
    CacheEntrySummary {
        request_hash: format!("{}/{}/{}", model, tokens, hits),
        provider: model.to_string(),
        model: model.to_string(),
        context: String::new(),
        tokens_saved: tokens,
        hit_count: hits,
        created_at: 0,
        last_accessed_at: 0,
    }
}

fn overview(entries: &Vec<CacheEntrySummary>) -> CacheOverview {
    query_cache_overview(entries, 4096, 10, 20).unwrap()
}

fn models(o: &CacheOverview) -> Vec<(&str, u64)> {
    o.entries_by_model.iter().map(|m| (m.model.as_str(), m.count)).collect()
}

fn buckets(o: &CacheOverview) -> Vec<(&str, u64)> {
    o.hit_distribution.iter().map(|b| (b.bucket.as_str(), b.count)).collect()
}

#[test]
fn an_empty_cache_sums_up_to_nothing() {
    let o = overview(&vec![]);
    assert_eq!(o.total_entries, 0);
    assert_eq!(o.lifetime_tokens_saved, 0);
    assert_eq!(o.tokens_stored, 0);
    assert_eq!(o.lifetime_hits, 0);
    assert_eq!(o.db_size_bytes, 4096);
    assert_eq!(o.max_entries, 10);
    assert_eq!(o.max_size_mb, 20);
    assert!(models(&o).is_empty());
    assert!(buckets(&o).is_empty());
}

#[test]
fn totals_are_summed_up() {
    let o = overview(&vec![entry("a", 100, 3), entry("b", 50, 0), entry("a", 7, 10)]);
    assert_eq!(o.total_entries, 3);
    assert_eq!(o.tokens_stored, 157);
    assert_eq!(o.lifetime_hits, 13);
    assert_eq!(o.lifetime_tokens_saved, 370);
    assert_eq!(models(&o), vec![("a", 2), ("b", 1)]);
}

#[test]
fn the_model_with_the_most_entries_comes_first() {
    let o = overview(&vec![
        entry("one", 1, 0),
        entry("three", 1, 0),
        entry("other", 1, 0),
        entry("three", 2, 0),
        entry("three", 3, 0),
    ]);
    assert_eq!(models(&o), vec![("three", 3), ("one", 1), ("other", 1)]);
    assert_eq!(o.entries_by_model.iter().map(|m| m.count).sum::<u64>(), o.total_entries);
}

#[test]
fn hits_are_distributed_over_ranges() {
    let hits = [0, 0, 1, 5, 6, 20, 21, 1000];
    let entries: Vec<CacheEntrySummary> = hits.iter().map(|h| entry("m", 1, *h)).collect();
    let o = overview(&entries);
    assert_eq!(buckets(&o), vec![("0", 2), ("1-5", 2), ("6-20", 2), ("21+", 2)]);
    assert_eq!(o.hit_distribution.iter().map(|b| b.count).sum::<u64>(), o.total_entries);

    let o = overview(&vec![entry("m", 1, 7), entry("m", 1, 25)]);
    assert_eq!(buckets(&o), vec![("6-20", 1), ("21+", 1)]);

    // Counts below zero fall into the last range, which then reaches lowest.
    let o = overview(&vec![entry("m", 1, 7), entry("m", 1, -1), entry("m", 1, 30)]);
    assert_eq!(buckets(&o), vec![("21+", 2), ("6-20", 1)]);
}

#[test]
fn totals_out_of_range_are_an_error() {
    let over = vec![entry("m", i64::MAX, 0), entry("m", 1, 0)];
    assert_eq!(query_cache_overview(&over, 0, 0, 0).err(), Some(TotalOverflow));
    let over = vec![entry("m", 0, i64::MAX), entry("m", 0, 1)];
    assert_eq!(query_cache_overview(&over, 0, 0, 0).err(), Some(TotalOverflow));
    let over = vec![entry("m", 1 << 62, 1), entry("m", 1 << 61, 2)];
    assert_eq!(query_cache_overview(&over, 0, 0, 0).err(), Some(TotalOverflow));
    // A total that only leaves the range on the way counts too.
    let over = vec![entry("m", i64::MAX, 0), entry("m", 1, 0), entry("m", -1, 0)];
    assert_eq!(query_cache_overview(&over, 0, 0, 0).err(), Some(TotalOverflow));

    let most = vec![entry("m", i64::MAX, 1)];
    assert_eq!(overview(&most).lifetime_tokens_saved, i64::MAX as u64);
}

#[test]
fn totals_below_zero_show_their_bits() {
    let o = overview(&vec![entry("m", -1, 2)]);
    assert_eq!(o.tokens_stored, u64::MAX);
    assert_eq!(o.lifetime_tokens_saved, u64::MAX - 1);
}

fn row() -> EntryRow {
    EntryRow {
        request_hash: Some("h".to_string()),
        provider: None,
        model: Some("m".to_string()),
        context: Some("c".to_string()),
        tokens_saved: Some(1),
        hit_count: Some(2),
        created_at: None,
        last_accessed_at: Some(4),
    }
}

#[test]
fn details_hold_the_parsed_texts() {
    let request = r#"{"a":[1,2.5,"x"]}"#;
    let detail = query_cache_entry_detail(Some((
        row(),
        request.to_string(),
        "{not json".to_string(),
    )))
    .unwrap();
    assert_eq!(detail.request_hash, "h");
    assert_eq!(detail.provider, "");
    assert_eq!(detail.model, "m");
    assert_eq!(detail.context, "c");
    assert_eq!(detail.tokens_saved, 1);
    assert_eq!(detail.hit_count, 2);
    assert_eq!(detail.created_at, 0);
    assert_eq!(detail.last_accessed_at, 4);
    assert_eq!(detail.request_json, serde_json::from_str::<Value>(request).unwrap());
    assert_eq!(detail.response_json, Value::Null);
}

#[test]
fn no_row_has_no_details() {
    assert!(query_cache_entry_detail(None).is_none());
}

#[test]
fn overviews_can_be_copied() {
    let first = overview(&vec![entry("a", 100, 3), entry("b", 50, 0)]);
    let second = first.clone();
    assert_eq!(second.tokens_stored, first.tokens_stored);
    assert_eq!(models(&second), models(&first));
    assert_eq!(buckets(&second), buckets(&first));
}
