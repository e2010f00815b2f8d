//! One entry with all that it holds.

use vstd::prelude::*;
use crate::entries::{CacheEntrySummary, EntryRow};

verus! {

/// An entry with its request and its response.
#[derive(Debug)]
pub struct CacheEntryDetail {
    pub request_hash: String,
    pub provider: String,
    pub model: String,
    pub context: String,
    pub tokens_saved: i64,
    pub hit_count: i64,
    pub created_at: i64,
    pub last_accessed_at: i64,
    pub request_json: serde_json::Value,
    pub response_json: serde_json::Value,
}

/// The JSON value that a text reads as, or null if it reads as none.
pub uninterp spec fn parsed_or_null(text: Seq<char>) -> serde_json::Value;

/// `serde_json::from_str`: the value in the given text. `Value`'s default, null,
/// stands for a text that is not JSON.
#[verifier::external_body]
fn parse_or_null(text: &str) -> (v: serde_json::Value)
    ensures
        v == parsed_or_null(text@),
{
    serde_json::from_str(text).unwrap_or_default()
}

/// Puts an entry together from its row and from the texts of its request and its
/// response.
pub fn query_cache_entry_detail(found: Option<(EntryRow, String, String)>) -> (r: Option<
    CacheEntryDetail,
>)
    ensures
        r is Some <==> found is Some,
        r matches Some(d) ==> ({
            let (row, request_text, response_text) = found->0;
            &&& d.request_hash@ == crate::entries::text_or_empty(row.request_hash)
            &&& d.provider@ == crate::entries::text_or_empty(row.provider)
            &&& d.model@ == crate::entries::text_or_empty(row.model)
            &&& d.context@ == crate::entries::text_or_empty(row.context)
            &&& d.tokens_saved == crate::entries::number_or_zero(row.tokens_saved)
            &&& d.hit_count == crate::entries::number_or_zero(row.hit_count)
            &&& d.created_at == crate::entries::number_or_zero(row.created_at)
            &&& d.last_accessed_at == crate::entries::number_or_zero(row.last_accessed_at)
            &&& d.request_json == parsed_or_null(request_text@)
            &&& d.response_json == parsed_or_null(response_text@)
            &&& row.request_hash matches Some(text) ==> d.request_hash@ == text@
            &&& row.request_hash is None ==> d.request_hash@.len() == 0
            &&& row.provider matches Some(text) ==> d.provider@ == text@
            &&& row.provider is None ==> d.provider@.len() == 0
            &&& row.model matches Some(text) ==> d.model@ == text@
            &&& row.model is None ==> d.model@.len() == 0
            &&& row.context matches Some(text) ==> d.context@ == text@
            &&& row.context is None ==> d.context@.len() == 0
            &&& row.tokens_saved matches Some(n) ==> d.tokens_saved == n
            &&& row.tokens_saved is None ==> d.tokens_saved == 0
            &&& row.hit_count matches Some(n) ==> d.hit_count == n
            &&& row.hit_count is None ==> d.hit_count == 0
            &&& row.created_at matches Some(n) ==> d.created_at == n
            &&& row.created_at is None ==> d.created_at == 0
            &&& row.last_accessed_at matches Some(n) ==> d.last_accessed_at == n
            &&& row.last_accessed_at is None ==> d.last_accessed_at == 0
        }),
{
    match found {
        Some((row, request_text, response_text)) => {
            let entry: CacheEntrySummary = row.summary();
            Some(
                CacheEntryDetail {
                    request_hash: entry.request_hash,
                    provider: entry.provider,
                    model: entry.model,
                    context: entry.context,
                    tokens_saved: entry.tokens_saved,
                    hit_count: entry.hit_count,
                    created_at: entry.created_at,
                    last_accessed_at: entry.last_accessed_at,
                    request_json: parse_or_null(request_text.as_str()),
                    response_json: parse_or_null(response_text.as_str()),
                },
            )
        },
        None => None,
    }
}

} // verus!
