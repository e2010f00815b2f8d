use response_cache::entries::CacheEntrySummary;
use response_cache::provider::{Lookup, StoredResponse};
use response_cache::response::{AiUsage, ToolCall};
use response_cache::store::{CacheRow, StoreWrite};
use response_cache::{AiResponse, CacheStats, CachingAiProvider};

// A table in memory, changed the way the database is.
struct Table {
    rows: Vec<CacheRow>,
}

impl Table {
    fn new() -> Table {
        Table { rows: Vec::new() }
    }

    fn apply(&mut self, write: StoreWrite) {
        match write {
            StoreWrite::Put(row) => {
                self.rows.retain(|r| r.request_hash != row.request_hash);
                self.rows.push(row);
            }
            StoreWrite::RecordHit { request_hash, at } => {
                for row in self.rows.iter_mut().filter(|r| r.request_hash == request_hash) {
                    row.hit_count += 1;
                    row.last_accessed_at = at;
                }
            }
            StoreWrite::SetLastAccess { request_hash, at } => {
                for row in self.rows.iter_mut().filter(|r| r.request_hash == request_hash) {
                    row.last_accessed_at = at;
                }
            }
            StoreWrite::Delete { request_hash } => {
                self.rows.retain(|r| r.request_hash != request_hash);
            }
        }
    }

    fn count(&self, hash: &str) -> usize {
        self.rows.iter().filter(|r| r.request_hash == hash).count()
    }

    fn entries(&self) -> Vec<CacheEntrySummary> {
        self.rows
            .iter()
            .map(|r| CacheEntrySummary {
                request_hash: r.request_hash.clone(),
                provider: r.provider.clone(),
                model: r.model.clone(),
                context: String::new(),
                tokens_saved: r.tokens_saved,
                hit_count: r.hit_count,
                created_at: r.created_at,
                last_accessed_at: r.last_accessed_at,
            })
            .collect()
    }
}

fn row(hash: &str, model: &str, tokens: i64, created: i64, hits: i64, accessed: i64) -> CacheRow {
    CacheRow {
        request_hash: hash.to_string(),
        provider: model.to_string(),
        model: model.to_string(),
        request_json: "{}".to_string(),
        response_json: "{}".to_string(),
        tokens_saved: tokens,
        created_at: created,
        hit_count: hits,
        last_accessed_at: accessed,
    }
}

fn response(content: Option<&str>, usage: Option<(usize, usize)>) -> AiResponse {
    AiResponse {
        content: content.map(|c| c.to_string()),
        thought: None,
        thought_signature: None,
        tool_calls: None,
        usage: usage.map(|(prompt, completion)| AiUsage {
            prompt_tokens: prompt,
            completion_tokens: completion,
            total_tokens: prompt + completion,
            cached_tokens: None,
        }),
        truncated: false,
        cache_key: None,
    }
}

fn call() -> ToolCall {
    ToolCall {
        id: "1".to_string(),
        function_name: "read".to_string(),
        arguments: serde_json::Value::Null,
        thought_signature: None,
    }
}

fn stored(response: Option<AiResponse>, tokens_saved: i64, created_at: i64) -> StoredResponse {
    StoredResponse { response, tokens_saved, created_at }
}

fn session(start: i64) -> CachingAiProvider {
    CachingAiProvider::new("cache.db", 0, 0, start)
}

fn stats(provider: &CachingAiProvider) -> CacheStats {
    provider.cache_stats().unwrap()
}

#[test]
fn test_poisoned_empty_response_evicted_on_read() {
    let mut table = Table::new();
    table.apply(StoreWrite::Put(row("poisoned", "test", 100, 1000, 0, 0)));
    assert_eq!(table.count("poisoned"), 1);

    let empty = response(None, Some((100, 0)));
    assert!(!empty.worth_caching(), "empty response should trigger eviction");

    let mut provider = session(0);
    let found = Some(stored(Some(empty), 100, 1000));
    match provider.look_up(&"poisoned".to_string(), found, 2000) {
        Lookup::Miss { cleanup } => table.apply(cleanup.unwrap()),
        Lookup::Hit { .. } => panic!("an empty response was served"),
    }
    assert_eq!(table.count("poisoned"), 0);

    let good = response(
        Some("{\"concerns\": [], \"dismissed_concerns\": []}"),
        Some((100, 50)),
    );
    assert_eq!(good.usage.unwrap().total_tokens, 150);
    assert!(good.worth_caching(), "non-empty response should pass the guard");
}

#[test]
fn test_invalidate_cache_entry() {
    let mut table = Table::new();
    table.apply(StoreWrite::Put(row("bad_entry", "test", 100, 1000, 0, 0)));
    table.apply(StoreWrite::Put(row("other", "test", 100, 1000, 0, 0)));
    assert_eq!(table.count("bad_entry"), 1);

    table.apply(session(0).invalidate_cache_entry("bad_entry"));
    assert_eq!(table.count("bad_entry"), 0);
    assert_eq!(table.count("other"), 1);
}

#[test]
fn test_hit_count_increments() {
    let mut table = Table::new();
    table.apply(StoreWrite::Put(row("abc", "test-model", 100, 1000, 0, 1000)));
    table.apply(StoreWrite::Put(row("def", "test-model", 100, 1000, 0, 1000)));

    // 3 cache hits
    let mut provider = session(0);
    for ts in [2000, 3000, 4000] {
        let found = Some(stored(Some(response(Some("x"), None)), 100, 1000));
        match provider.look_up(&"abc".to_string(), found, ts) {
            Lookup::Hit { write, .. } => table.apply(write),
            Lookup::Miss { .. } => panic!("the entry was not served"),
        }
    }

    assert_eq!(table.rows[0].hit_count, 3);
    assert_eq!(table.rows[0].last_accessed_at, 4000);
    assert_eq!(table.rows[1].hit_count, 0);
    assert_eq!(table.rows[1].last_accessed_at, 1000);
    assert_eq!(stats(&provider).hits_this_session, 3);
}

#[test]
fn white_space_is_no_content() {
    for blank in ["", " ", "\n\t\r\u{b}\u{c}", "\u{a0}\u{2003}\u{3000}\u{85}"] {
        assert!(!response(Some(blank), None).worth_caching());
    }
    for text in ["x", " x ", "\u{200b}", "0"] {
        assert!(response(Some(text), None).worth_caching());
    }
    for c in 0..0x11_0000u32 {
        if let Some(c) = char::from_u32(c) {
            let text = c.to_string();
            assert_eq!(
                response(Some(&text), None).worth_caching(),
                !text.trim().is_empty()
            );
        }
    }
}

#[test]
fn tool_calls_are_worth_caching() {
    let mut asks = response(None, None);
    asks.tool_calls = Some(vec![call()]);
    assert!(asks.worth_caching());
    let mut asks = response(Some(" "), None);
    asks.tool_calls = Some(vec![]);
    assert!(!asks.worth_caching());
}

#[test]
fn a_hit_is_credited_and_marked() {
    let mut provider = session(1000);
    let mut kept = response(Some("x"), Some((70, 30)));
    kept.thought = Some("t".to_string());
    kept.thought_signature = Some("s".to_string());
    kept.tool_calls = Some(vec![call()]);
    kept.truncated = true;
    if let Some(usage) = kept.usage.as_mut() {
        usage.cached_tokens = Some(5);
    }
    let found = Some(stored(Some(kept), 100, 1000));
    match provider.look_up(&"key".to_string(), found, 1234) {
        Lookup::Hit { response, write } => {
            assert_eq!(response.content.as_deref(), Some("x"));
            assert_eq!(response.thought.as_deref(), Some("t"));
            assert_eq!(response.thought_signature.as_deref(), Some("s"));
            assert_eq!(response.tool_calls.unwrap()[0].function_name, "read");
            assert!(response.truncated);
            assert_eq!(
                response.usage,
                Some(AiUsage {
                    prompt_tokens: 70,
                    completion_tokens: 30,
                    total_tokens: 100,
                    cached_tokens: Some(75),
                })
            );
            assert_eq!(response.cache_key.as_deref(), Some("key"));
            match write {
                StoreWrite::RecordHit { request_hash, at } => {
                    assert_eq!(request_hash, "key");
                    assert_eq!(at, 1234);
                }
                other => panic!("unexpected change {:?}", other),
            }
        }
        Lookup::Miss { .. } => panic!("the entry was not served"),
    }
}

#[test]
fn hits_and_misses_are_counted() {
    let mut provider = session(1000);
    let key = "key".to_string();
    provider.look_up(&key, Some(stored(Some(response(Some("x"), None)), 10, 1000)), 0);
    provider.look_up(&key, Some(stored(Some(response(Some("x"), None)), 20, 999)), 0);
    provider.look_up(&key, Some(stored(Some(response(Some("x"), None)), 30, 999)), 0);
    provider.look_up(&key, None, 0);
    provider.look_up(&key, Some(stored(Some(response(None, None)), 40, 1000)), 0);
    provider.look_up(&key, Some(stored(None, 50, 1000)), 0);
    assert_eq!(
        stats(&provider),
        CacheStats {
            hits_this_session: 1,
            hits_prev_session: 2,
            tokens_saved_this_session: 10,
            tokens_saved_prev_session: 50,
            misses: 3,
            tokens_stored: 0,
        }
    );
}

#[test]
fn an_unreadable_response_is_missed_but_stays() {
    let mut provider = session(0);
    match provider.look_up(&"key".to_string(), Some(stored(None, 1, 1)), 0) {
        Lookup::Miss { cleanup } => assert!(cleanup.is_none()),
        Lookup::Hit { .. } => panic!("nothing was there to serve"),
    }
    match provider.look_up(&"key".to_string(), None, 0) {
        Lookup::Miss { cleanup } => assert!(cleanup.is_none()),
        Lookup::Hit { .. } => panic!("nothing was there to serve"),
    }
}

#[test]
fn a_recorded_response_is_served() {
    let mut table = Table::new();
    let mut provider = session(1000);
    let key = "key".to_string();
    let model = "model".to_string();
    let (marked, write) = provider.record_response(
        &key,
        response(Some("answer"), Some((70, 30))),
        "request".to_string(),
        "response".to_string(),
        &model,
        1500,
    );
    assert_eq!(marked.cache_key.as_deref(), Some("key"));
    assert_eq!(marked.content.as_deref(), Some("answer"));
    assert_eq!(marked.usage.unwrap().cached_tokens, None);
    table.apply(write.unwrap());
    let row = &table.rows[0];
    assert_eq!(row.request_hash, "key");
    assert_eq!(row.provider, "model");
    assert_eq!(row.model, "model");
    assert_eq!(row.request_json, "request");
    assert_eq!(row.response_json, "response");
    assert_eq!(
        (row.tokens_saved, row.created_at, row.hit_count, row.last_accessed_at),
        (100, 1500, 0, 1500)
    );
    let found = stored(
        Some(response(Some("answer"), Some((70, 30)))),
        row.tokens_saved,
        row.created_at,
    );
    match provider.look_up(&key, Some(found), 1600) {
        Lookup::Hit { response, .. } => {
            assert_eq!(response.content.as_deref(), Some("answer"));
            assert_eq!(response.usage.unwrap().cached_tokens, Some(70));
        }
        Lookup::Miss { .. } => panic!("the entry was not served"),
    }
    assert_eq!(stats(&provider).tokens_stored, 100);
    assert_eq!(stats(&provider).tokens_saved_this_session, 100);
}

#[test]
fn an_empty_response_is_not_kept() {
    let mut provider = session(0);
    let (same, write) = provider.record_response(
        &"key".to_string(),
        response(Some("\n"), Some((70, 30))),
        String::new(),
        String::new(),
        &String::new(),
        0,
    );
    assert!(write.is_none());
    assert!(same.cache_key.is_none());
    assert_eq!(stats(&provider).tokens_stored, 0);
}

#[test]
fn opening_fills_in_and_reaps() {
    let mut table = Table::new();
    table.apply(StoreWrite::Put(row("expired", "m", 1, 99, 5, 500)));
    table.apply(StoreWrite::Put(row("kept", "m", 1, 100, 0, 0)));
    table.apply(StoreWrite::Put(row("seen", "m", 1, 300, 2, 400)));
    table.apply(StoreWrite::Put(row("both", "m", 1, 98, 0, 0)));
    let writes = CachingAiProvider::opening_writes(&table.entries(), 100);
    assert_eq!(writes.len(), 4);
    for write in writes {
        table.apply(write);
    }
    let left: Vec<(&str, i64)> = table
        .rows
        .iter()
        .map(|r| (r.request_hash.as_str(), r.last_accessed_at))
        .collect();
    assert_eq!(left, vec![("kept", 100), ("seen", 400)]);
}

#[test]
fn entries_expire_after_whole_days() {
    assert_eq!(CachingAiProvider::expiry_cutoff(1_000_000, 2), 827_200);
    assert_eq!(CachingAiProvider::expiry_cutoff(5, 0), 5);
    assert_eq!(CachingAiProvider::expiry_cutoff(0, 1), -86_400);
}

#[test]
fn a_new_session_has_done_nothing() {
    let provider = CachingAiProvider::new("path", 3, 4, 5);
    assert_eq!(provider.cache_path, "path");
    assert_eq!(provider.max_entries, 3);
    assert_eq!(provider.max_size_mb, 4);
    assert_eq!(provider.session_start, 5);
    assert_eq!(
        stats(&provider),
        CacheStats {
            hits_this_session: 0,
            hits_prev_session: 0,
            tokens_saved_this_session: 0,
            tokens_saved_prev_session: 0,
            misses: 0,
            tokens_stored: 0,
        }
    );
}

#[test]
fn counters_wrap_around() {
    let mut provider = session(0);
    provider.hits_this = u64::MAX;
    provider.tokens_saved_this = 1;
    let found = stored(Some(response(Some("x"), None)), -1, 0);
    provider.look_up(&"key".to_string(), Some(found), 0);
    assert_eq!(provider.hits_this, 0);
    assert_eq!(provider.tokens_saved_this, 0);
}

#[test]
fn an_entry_stays_until_it_is_replaced_or_removed() {
    let mut table = Table::new();
    table.apply(StoreWrite::Put(row("kept", "m", 7, 1000, 0, 1000)));
    table.apply(StoreWrite::Put(row("other", "m", 8, 1000, 0, 1000)));
    table.apply(StoreWrite::RecordHit { request_hash: "kept".to_string(), at: 1100 });
    table.apply(StoreWrite::SetLastAccess { request_hash: "kept".to_string(), at: 1200 });
    table.apply(StoreWrite::Delete { request_hash: "other".to_string() });
    assert_eq!(table.count("kept"), 1);
    assert_eq!(table.rows[0].tokens_saved, 7);
    assert_eq!(table.rows[0].created_at, 1000);
    assert_eq!(table.rows[0].hit_count, 1);
    assert_eq!(table.rows[0].last_accessed_at, 1200);
    table.apply(StoreWrite::Put(row("kept", "m", 9, 1300, 0, 1300)));
    assert_eq!(table.count("kept"), 1);
    assert_eq!(table.rows[0].tokens_saved, 9);
}

#[test]
fn the_tokens_of_an_empty_response_are_not_added_up() {
    let mut provider = session(0);
    let mut empty = response(None, None);
    empty.usage = Some(AiUsage {
        prompt_tokens: usize::MAX,
        completion_tokens: 1,
        total_tokens: 0,
        cached_tokens: None,
    });
    let (same, write) = provider.record_response(
        &"key".to_string(),
        empty,
        String::new(),
        String::new(),
        &String::new(),
        0,
    );
    assert!(write.is_none());
    assert_eq!(same.usage.unwrap().prompt_tokens, usize::MAX);
}
