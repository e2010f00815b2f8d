use response_cache::entries::{victims, EntryRow};
use response_cache::provider::EvictionCause;
use response_cache::{query_cache_entries, CacheEntrySummary, CachingAiProvider};

fn entry(hash: &str, model: &str, tokens: i64, hits: i64, accessed: i64) -> CacheEntrySummary {
    CacheEntrySummary {
        request_hash: hash.to_string(),
        provider: model.to_string(),
        model: model.to_string(),
        context: String::new(),
        tokens_saved: tokens,
        hit_count: hits,
        created_at: 1000,
        last_accessed_at: accessed,
    }
}

fn provider(max_entries: u64, max_size_mb: u64) -> CachingAiProvider {
    CachingAiProvider::new("cache.db", max_entries, max_size_mb, 0)
}

fn without(entries: &[CacheEntrySummary], gone: &[String]) -> Vec<CacheEntrySummary> {
    entries
        .iter()
        .filter(|e| !gone.contains(&e.request_hash))
        .cloned()
        .collect()
}

fn hashes(entries: &[CacheEntrySummary]) -> Vec<&str> {
    entries.iter().map(|e| e.request_hash.as_str()).collect()
}

#[test]
fn test_eviction_by_max_entries() {
    // Seven entries with varying hit counts
    let mut entries = Vec::new();
    for i in 0..7 {
        entries.push(entry(&format!("hash_{}", i), "model", 100, i, 1000 + i));
    }

    // Evict down to 5: the 2 with the lowest hit_count (0 and 1) go
    let gone = provider(5, 0).maybe_evict(EvictionCause::EntryLimit, &entries);
    let left = without(&entries, &gone);
    assert_eq!(left.len(), 5);

    let (sorted, count) = query_cache_entries(&left, 1, 10, "hit_count", "asc");
    assert_eq!(count, 5);
    assert_eq!(
        hashes(&sorted),
        vec!["hash_2", "hash_3", "hash_4", "hash_5", "hash_6"]
    );
}

#[test]
fn test_eviction_tiebreak_by_last_accessed() {
    // All same hit_count, different last_accessed_at
    let entries = vec![
        entry("old", "model", 100, 5, 1000),
        entry("mid", "model", 100, 5, 2000),
        entry("new", "model", 100, 5, 3000),
    ];

    // Evict 1: "old" goes (same hit_count, oldest access)
    let gone = victims(&entries, 1);
    let left = without(&entries, &gone);
    let (sorted, _) = query_cache_entries(&left, 1, 10, "last_accessed_at", "asc");
    assert_eq!(hashes(&sorted), vec!["mid", "new"]);
}

#[test]
fn the_least_valuable_go_first() {
    let entries = vec![
        entry("a", "m", 1, 2, 10),
        entry("b", "m", 1, 1, 30),
        entry("c", "m", 1, 1, 20),
        entry("d", "m", 1, -1, 99),
        entry("e", "m", 1, 1, 20),
    ];
    assert_eq!(victims(&entries, 3), vec!["d", "c", "e"]);
    assert_eq!(victims(&entries, 0), Vec::<String>::new());
    assert_eq!(victims(&entries, 5), vec!["d", "c", "e", "b", "a"]);
    assert_eq!(victims(&entries, u64::MAX), vec!["d", "c", "e", "b", "a"]);
}

#[test]
fn limits_say_how_many_go() {
    let by_entries = |max: u64, count: Option<u64>| {
        provider(max, 0).eviction_size(EvictionCause::EntryLimit, count)
    };
    assert_eq!(by_entries(5, Some(7)), 2);
    assert_eq!(by_entries(5, Some(5)), 0);
    assert_eq!(by_entries(5, Some(0)), 0);
    assert_eq!(by_entries(0, Some(7)), 0);
    assert_eq!(by_entries(5, None), 0);

    let by_size = |max: u64, bytes: u64, count: Option<u64>| {
        provider(0, max).eviction_size(EvictionCause::FileSize { bytes }, count)
    };
    assert_eq!(by_size(1, 1_048_576, Some(50)), 0);
    assert_eq!(by_size(1, 1_048_577, Some(50)), 5);
    assert_eq!(by_size(1, 1_048_577, Some(59)), 5);
    assert_eq!(by_size(1, 1_048_577, Some(10)), 1);
    assert_eq!(by_size(1, 1_048_577, Some(9)), 1);
    assert_eq!(by_size(1, 1_048_577, Some(0)), 1);
    assert_eq!(by_size(1, 1_048_577, None), 1);
    assert_eq!(by_size(0, u64::MAX, Some(50)), 0);
}

#[test]
fn a_large_file_costs_a_tenth() {
    let entries: Vec<CacheEntrySummary> =
        (0..25).map(|i| entry(&format!("h{}", i), "m", 1, i, 0)).collect();
    let gone = provider(0, 2).maybe_evict(EvictionCause::FileSize { bytes: 3_000_000 }, &entries);
    assert_eq!(gone, vec!["h0", "h1"]);
    let gone = provider(0, 3).maybe_evict(EvictionCause::FileSize { bytes: 3_000_000 }, &entries);
    assert!(gone.is_empty());
    let gone = provider(0, 2).maybe_evict(EvictionCause::FileSize { bytes: 3_000_000 }, &vec![]);
    assert!(gone.is_empty());
}

fn listing() -> Vec<CacheEntrySummary> {
    let mut entries = vec![
        entry("a", "m", 30, 1, 300),
        entry("b", "m", 10, 3, 100),
        entry("c", "m", 20, 2, 400),
        entry("d", "m", 40, 2, 200),
    ];
    entries[0].created_at = 4;
    entries[1].created_at = 3;
    entries[2].created_at = 2;
    entries[3].created_at = 1;
    entries
}

fn listed(page: u32, per_page: u32, by: &str, order: &str) -> String {
    let entries = listing();
    let (page, total) = query_cache_entries(&entries, page, per_page, by, order);
    assert_eq!(total, 4);
    hashes(&page).concat()
}

#[test]
fn listings_sort_by_the_named_column() {
    assert_eq!(listed(1, 10, "tokens_saved", "asc"), "bcad");
    assert_eq!(listed(1, 10, "tokens_saved", "desc"), "dacb");
    assert_eq!(listed(1, 10, "last_accessed_at", "asc"), "bdac");
    assert_eq!(listed(1, 10, "created_at", "asc"), "dcba");
    assert_eq!(listed(1, 10, "hit_count", "asc"), "acdb");
    assert_eq!(listed(1, 10, "hit_count", "desc"), "bcda");
}

#[test]
fn unknown_names_sort_by_hits_downwards() {
    assert_eq!(listed(1, 10, "request_hash; DROP TABLE", "asc"), "acdb");
    assert_eq!(listed(1, 10, "", ""), "bcda");
    assert_eq!(listed(1, 10, "Tokens_Saved", "ASC"), "bcda");
}

#[test]
fn pages_cut_the_listing() {
    assert_eq!(listed(1, 3, "tokens_saved", "asc"), "bca");
    assert_eq!(listed(2, 3, "tokens_saved", "asc"), "d");
    assert_eq!(listed(3, 3, "tokens_saved", "asc"), "");
    assert_eq!(listed(0, 3, "tokens_saved", "asc"), "bca");
    assert_eq!(listed(2, 1, "tokens_saved", "asc"), "c");
    assert_eq!(listed(1, 0, "tokens_saved", "asc"), "");
    assert_eq!(listed(2, u32::MAX, "tokens_saved", "asc"), "");
    let (none, total) = query_cache_entries(&vec![], 1, 10, "", "");
    assert!(none.is_empty());
    assert_eq!(total, 0);
}

#[test]
fn long_listings_stay_sorted() {
    let mut x: u64 = 7;
    let mut entries = Vec::new();
    for i in 0..500 {
        x = x.wrapping_mul(6364136223846793005).wrapping_add(1442695040888963407);
        entries.push(entry(&format!("h{}", i), "m", (x >> 58) as i64 - 30, 0, 0));
    }
    let mut expected = entries.clone();
    expected.sort_by(|a, b| b.tokens_saved.cmp(&a.tokens_saved));
    let mut found = Vec::new();
    for page in 1..=8 {
        found.extend(query_cache_entries(&entries, page, 70, "tokens_saved", "desc").0);
    }
    assert_eq!(hashes(&found), hashes(&expected));
}

#[test]
fn unreadable_columns_are_empty_or_zero() {
    let full = EntryRow {
        request_hash: Some("h".to_string()),
        provider: Some("p".to_string()),
        model: Some("m".to_string()),
        context: Some("c".to_string()),
        tokens_saved: Some(1),
        hit_count: Some(2),
        created_at: Some(3),
        last_accessed_at: Some(4),
    }
    .summary();
    assert_eq!(full.request_hash, "h");
    assert_eq!(full.provider, "p");
    assert_eq!(full.model, "m");
    assert_eq!(full.context, "c");
    assert_eq!(
        (full.tokens_saved, full.hit_count, full.created_at, full.last_accessed_at),
        (1, 2, 3, 4)
    );
    let empty = EntryRow {
        request_hash: None,
        provider: None,
        model: None,
        context: None,
        tokens_saved: None,
        hit_count: None,
        created_at: None,
        last_accessed_at: None,
    }
    .summary();
    assert_eq!(empty.request_hash, "");
    assert_eq!(empty.provider, "");
    assert_eq!(empty.model, "");
    assert_eq!(empty.context, "");
    assert_eq!(
        (empty.tokens_saved, empty.hit_count, empty.created_at, empty.last_accessed_at),
        (0, 0, 0, 0)
    );
}
