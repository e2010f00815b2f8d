//! The cache in front of a model: what it answers, keeps, counts and drops.
//!
//! The cache itself talks to nobody. Its caller looks entries up, asks the model,
//! reads clocks and file sizes, hands the results in, and makes the changes of
//! the table that come out.

use vstd::prelude::*;
use crate::entries::{victims, CacheEntrySummary};
use crate::response::{AiResponse, AiUsage};
use crate::store::{CacheRow, StoreWrite};

verus! {

/// The state of the cache during one session.
#[derive(Debug)]
pub struct CachingAiProvider {
    pub cache_path: String,
    /// How many entries may be kept; zero for any number.
    pub max_entries: u64,
    /// How many mebibytes the file may fill; zero for any size.
    pub max_size_mb: u64,
    /// When the session began, in seconds since the epoch.
    pub session_start: i64,
    pub hits_this: u64,
    pub hits_prev: u64,
    pub tokens_saved_this: u64,
    pub tokens_saved_prev: u64,
    pub misses: u64,
    pub tokens_stored: u64,
}

/// What the cache did since the session began.
#[derive(Clone, Copy, Debug, PartialEq, Eq, Structural)]
pub struct CacheStats {
    /// Hits on entries that this session wrote.
    pub hits_this_session: u64,
    /// Hits on entries from before.
    pub hits_prev_session: u64,
    pub tokens_saved_this_session: u64,
    pub tokens_saved_prev_session: u64,
    pub misses: u64,
    pub tokens_stored: u64,
}

/// An entry that was found under the key of a request.
#[derive(Debug)]
pub struct StoredResponse {
    /// The response, unless its text cannot be read as one.
    pub response: Option<AiResponse>,
    pub tokens_saved: i64,
    pub created_at: i64,
}

/// What to do after looking a request up.
#[derive(Debug)]
pub enum Lookup {
    /// Answer with this response, and make this change.
    Hit { response: AiResponse, write: StoreWrite },
    /// Ask the model, after making this change if there is one.
    Miss { cleanup: Option<StoreWrite> },
}

/// The bits of an unsigned number, read as a signed one.
pub open spec fn signed(n: u64) -> int {
    if n <= i64::MAX {
        n as int
    } else {
        n - 0x1_0000_0000_0000_0000
    }
}

/// The bits of a signed number, read as an unsigned one.
pub open spec fn unsigned(n: i64) -> int {
    if n >= 0 {
        n as int
    } else {
        n + 0x1_0000_0000_0000_0000
    }
}

/// A sum as a 64-bit counter shows it.
pub open spec fn counted(counter: u64, more: int) -> int {
    (counter + more) % 0x1_0000_0000_0000_0000
}

fn as_signed(n: u64) -> (r: i64)
    ensures
        r == signed(n),
{
    let r: i64 = n as i64;
    assert(n <= 0x7fff_ffff_ffff_ffff ==> n as i64 == n) by (bit_vector);
    assert(n > 0x7fff_ffff_ffff_ffff ==> n as i64 == n - 0x1_0000_0000_0000_0000) by (bit_vector);
    r
}

pub(crate) fn as_unsigned(n: i64) -> (r: u64)
    ensures
        r == unsigned(n),
{
    let r: u64 = n as u64;
    assert(n >= 0 ==> n as u64 == n) by (bit_vector);
    assert(n < 0 ==> n as u64 == n + 0x1_0000_0000_0000_0000) by (bit_vector);
    r
}

/// Whether what was found answers the request.
pub open spec fn is_served(found: Option<StoredResponse>) -> bool {
    found matches Some(stored) && stored.response matches Some(response)
        && crate::response::has_payload(response)
}

/// Whether what was found is an empty response, which would be found again on
/// every retry.
pub open spec fn is_poisoned(found: Option<StoredResponse>) -> bool {
    found matches Some(stored) && stored.response matches Some(response)
        && !crate::response::has_payload(response)
}

/// The cached tokens of a response once its whole prompt counts as cached.
pub open spec fn credited_tokens(usage: AiUsage) -> int {
    (match usage.cached_tokens {
        Some(n) => n as int,
        None => 0,
    }) + usage.prompt_tokens
}

/// The usage of a response that comes out of the cache.
pub open spec fn credited(usage: Option<AiUsage>) -> Option<AiUsage> {
    match usage {
        Some(u) => Some(AiUsage { cached_tokens: Some(credited_tokens(u) as usize), ..u }),
        None => None,
    }
}

/// `served` is `stored`, credited and marked with its key.
pub open spec fn is_response_from_cache(
    stored: AiResponse,
    key: Seq<char>,
    served: AiResponse,
) -> bool {
    &&& served.content == stored.content
    &&& served.thought == stored.thought
    &&& served.thought_signature == stored.thought_signature
    &&& served.tool_calls == stored.tool_calls
    &&& served.truncated == stored.truncated
    &&& served.usage == credited(stored.usage)
    &&& served.cache_key matches Some(k) && k@ == key
}

/// `kept` is `fresh`, marked with its key.
pub open spec fn is_marked(fresh: AiResponse, key: Seq<char>, kept: AiResponse) -> bool {
    &&& kept.content == fresh.content
    &&& kept.thought == fresh.thought
    &&& kept.thought_signature == fresh.thought_signature
    &&& kept.tool_calls == fresh.tool_calls
    &&& kept.truncated == fresh.truncated
    &&& kept.usage == fresh.usage
    &&& kept.cache_key matches Some(k) && k@ == key
}

/// The counters after an entry was served.
pub open spec fn after_hit(
    provider: CachingAiProvider,
    tokens_saved: i64,
    created_at: i64,
) -> CachingAiProvider {
    if created_at >= provider.session_start {
        CachingAiProvider {
            hits_this: counted(provider.hits_this, 1) as u64,
            tokens_saved_this: counted(provider.tokens_saved_this, unsigned(tokens_saved)) as u64,
            ..provider
        }
    } else {
        CachingAiProvider {
            hits_prev: counted(provider.hits_prev, 1) as u64,
            tokens_saved_prev: counted(provider.tokens_saved_prev, unsigned(tokens_saved)) as u64,
            ..provider
        }
    }
}

/// The tokens that serving a response from the cache will save.
pub open spec fn tokens_of(usage: Option<AiUsage>) -> int {
    match usage {
        Some(u) => u.prompt_tokens + u.completion_tokens,
        None => 0,
    }
}

/// What comes of looking a request up. An entry that answers it is served, with
/// a change that counts the hit; an empty one is removed; and whatever does not
/// answer it counts as a miss.
pub open spec fn is_lookup_outcome(
    before: CachingAiProvider,
    key: Seq<char>,
    found: Option<StoredResponse>,
    now: i64,
    outcome: Lookup,
    after: CachingAiProvider,
) -> bool {
    if is_served(found) {
        &&& outcome matches Lookup::Hit { response, write }
        &&& is_response_from_cache(found->0.response->0, key, response)
        &&& write matches StoreWrite::RecordHit { request_hash, at }
        &&& request_hash@ == key
        &&& at == now
        &&& after == after_hit(before, found->0.tokens_saved, found->0.created_at)
    } else {
        &&& outcome matches Lookup::Miss { cleanup }
        &&& if is_poisoned(found) {
            &&& cleanup matches Some(StoreWrite::Delete { request_hash })
            &&& request_hash@ == key
        } else {
            cleanup is None
        }
        &&& after == (CachingAiProvider { misses: counted(before.misses, 1) as u64, ..before })
    }
}

/// A row holds a fresh response.
pub open spec fn is_fresh_row(
    row: CacheRow,
    key: Seq<char>,
    request_json: Seq<char>,
    response_json: Seq<char>,
    model_name: Seq<char>,
    tokens: int,
    now: i64,
) -> bool {
    &&& row.request_hash@ == key
    &&& row.provider@ == model_name
    &&& row.model@ == model_name
    &&& row.request_json@ == request_json
    &&& row.response_json@ == response_json
    &&& row.tokens_saved == signed(tokens as u64)
    &&& row.created_at == now
    &&& row.hit_count == 0
    &&& row.last_accessed_at == now
}

/// What comes of a fresh response. One that says or asks something is written
/// and handed on with its key; any other is handed on as it is.
pub open spec fn is_recording_outcome(
    before: CachingAiProvider,
    key: Seq<char>,
    response: AiResponse,
    request_json: Seq<char>,
    response_json: Seq<char>,
    model_name: Seq<char>,
    now: i64,
    outcome: (AiResponse, Option<StoreWrite>),
    after: CachingAiProvider,
) -> bool {
    let tokens = tokens_of(response.usage);
    if crate::response::has_payload(response) {
        &&& is_marked(response, key, outcome.0)
        &&& outcome.1 matches Some(StoreWrite::Put(row))
        &&& is_fresh_row(row, key, request_json, response_json, model_name, tokens, now)
        &&& after == (CachingAiProvider {
            tokens_stored: counted(before.tokens_stored, tokens) as u64,
            ..before
        })
    } else {
        outcome == (response, None::<StoreWrite>) && after == before
    }
}

/// What may make entries go. The two are looked into one after the other, each
/// time with the entries that are there by then.
#[derive(Clone, Copy, Debug, PartialEq, Eq, Structural)]
pub enum EvictionCause {
    /// There are more entries than the limit allows.
    EntryLimit,
    /// The file, of this many bytes, is larger than the limit allows.
    FileSize { bytes: u64 },
}

/// How many entries are to go, out of `count`: for the limit on entries those
/// over it, and for a file that is too large a tenth of them, but at least one.
/// The count is missing if it could not be read.
pub open spec fn eviction_count(
    max_entries: u64,
    max_size_mb: u64,
    cause: EvictionCause,
    count: Option<u64>,
) -> int {
    match cause {
        EvictionCause::EntryLimit => match count {
            Some(n) => if max_entries > 0 && n > max_entries {
                n - max_entries
            } else {
                0
            },
            None => 0,
        },
        EvictionCause::FileSize { bytes } => if max_size_mb > 0 && bytes > max_size_mb * 1_048_576 {
            match count {
                Some(n) => if n >= 10 {
                    n as int / 10
                } else {
                    1
                },
                None => 1,
            }
        } else {
            0
        },
    }
}

/// The entries without a time of last access.
pub open spec fn never_accessed(entries: Seq<CacheEntrySummary>) -> Seq<CacheEntrySummary> {
    entries.filter(|e: CacheEntrySummary| e.last_accessed_at == 0)
}

/// The entries written before `cutoff`.
pub open spec fn expired(entries: Seq<CacheEntrySummary>, cutoff: i64) -> Seq<CacheEntrySummary> {
    entries.filter(|e: CacheEntrySummary| e.created_at < cutoff)
}

/// The change notes that an entry was last accessed when it was written.
pub open spec fn notes_access(write: StoreWrite, entry: CacheEntrySummary) -> bool {
    write matches StoreWrite::SetLastAccess { request_hash, at } && request_hash@
        == entry.request_hash@ && at == entry.created_at
}

/// The change removes an entry.
pub open spec fn removes(write: StoreWrite, entry: CacheEntrySummary) -> bool {
    write matches StoreWrite::Delete { request_hash } && request_hash@ == entry.request_hash@
}

/// The changes that opening the cache asks for.
pub open spec fn are_opening_writes(
    entries: Seq<CacheEntrySummary>,
    cutoff: i64,
    writes: Seq<StoreWrite>,
) -> bool {
    let never = never_accessed(entries);
    let gone = expired(entries, cutoff);
    &&& writes.len() == never.len() + gone.len()
    &&& forall|k: int| 0 <= k < never.len() ==> notes_access(#[trigger] writes[k], never[k])
    &&& forall|k: int|
        never.len() <= k < writes.len() ==> removes(#[trigger] writes[k], gone[k - never.len()])
}

impl CachingAiProvider {
    /// A cache that has done nothing yet.
    pub fn new(cache_path: &str, max_entries: u64, max_size_mb: u64, session_start: i64) -> (r: Self)
        ensures
            r.cache_path@ == cache_path@,
            r.max_entries == max_entries,
            r.max_size_mb == max_size_mb,
            r.session_start == session_start,
            r.hits_this == 0,
            r.hits_prev == 0,
            r.tokens_saved_this == 0,
            r.tokens_saved_prev == 0,
            r.misses == 0,
            r.tokens_stored == 0,
    {
        CachingAiProvider {
            cache_path: cache_path.to_owned(),
            max_entries,
            max_size_mb,
            session_start,
            hits_this: 0,
            hits_prev: 0,
            tokens_saved_this: 0,
            tokens_saved_prev: 0,
            misses: 0,
            tokens_stored: 0,
        }
    }

    /// The time before which an entry counts as expired, `ttl_days` days ago.
    pub fn expiry_cutoff(now: i64, ttl_days: u64) -> (cutoff: i64)
        requires
            i64::MIN <= signed(ttl_days) * 86400 <= i64::MAX,
            i64::MIN <= now - signed(ttl_days) * 86400 <= i64::MAX,
        ensures
            cutoff == now - signed(ttl_days) * 86400,
            ttl_days <= i64::MAX ==> cutoff == now - ttl_days * 86400,
            ttl_days > i64::MAX ==> cutoff == now + (0x1_0000_0000_0000_0000 - ttl_days) * 86400,
    {
        now - as_signed(ttl_days) * 86400
    }

    /// The changes to make when the cache is opened: entries that were never
    /// accessed count as accessed when they were written, and then the expired
    /// ones go.
    pub fn opening_writes(entries: &Vec<CacheEntrySummary>, cutoff: i64) -> (writes: Vec<StoreWrite>)
        ensures
            are_opening_writes(entries@, cutoff, writes@),
    {
        let ghost never = never_accessed(entries@);
        let mut writes: Vec<StoreWrite> = Vec::new();
        let mut i: usize = 0;
        while i < entries.len()
            invariant
                i <= entries@.len(),
                writes@.len() == never_accessed(entries@.take(i as int)).len(),
                forall|k: int|
                    0 <= k < writes@.len() ==> notes_access(
                        #[trigger] writes@[k],
                        never_accessed(entries@.take(i as int))[k],
                    ),
            decreases entries@.len() - i,
        {
            proof {
                assert(entries@.take(i + 1).drop_last() =~= entries@.take(i as int));
                assert(entries@.take(i + 1).last() == entries@[i as int]);
                reveal(Seq::filter);
            }
            let e = &entries[i];
            if e.last_accessed_at == 0 {
                writes.push(
                    StoreWrite::SetLastAccess {
                        request_hash: e.request_hash.clone(),
                        at: e.created_at,
                    },
                );
            }
            i = i + 1;
        }
        assert(entries@.take(i as int) =~= entries@);
        let ghost first = writes@;
        i = 0;
        while i < entries.len()
            invariant
                i <= entries@.len(),
                never == never_accessed(entries@),
                first.len() == never.len(),
                forall|k: int| 0 <= k < first.len() ==> notes_access(#[trigger] first[k], never[k]),
                writes@.len() == first.len() + expired(entries@.take(i as int), cutoff).len(),
                forall|k: int| 0 <= k < first.len() ==> #[trigger] writes@[k] == first[k],
                forall|k: int|
                    first.len() <= k < writes@.len() ==> removes(
                        #[trigger] writes@[k],
                        expired(entries@.take(i as int), cutoff)[k - first.len()],
                    ),
            decreases entries@.len() - i,
        {
            proof {
                assert(entries@.take(i + 1).drop_last() =~= entries@.take(i as int));
                assert(entries@.take(i + 1).last() == entries@[i as int]);
                reveal(Seq::filter);
            }
            let e = &entries[i];
            if e.created_at < cutoff {
                writes.push(StoreWrite::Delete { request_hash: e.request_hash.clone() });
            }
            i = i + 1;
        }
        assert(entries@.take(i as int) =~= entries@);
        writes
    }

    /// Decides what an entry that was found, or not found, under the key of a
    /// request means for it.
    pub fn look_up(&mut self, request_hash: &String, found: Option<StoredResponse>, now: i64) -> (r:
        Lookup)
        requires
            is_served(found) ==> (found->0.response->0.usage matches Some(u) ==> credited_tokens(u)
                <= usize::MAX),
        ensures
            is_lookup_outcome(*old(self), request_hash@, found, now, r, *final(self)),
            // An entry is served if and only if its response says or asks something.
            r is Hit <==> (found matches Some(stored) && stored.response matches Some(response) && {
                ||| response.content matches Some(text) && exists|i: int|
                    0 <= i < text@.len() && !crate::noise::is_space(#[trigger] text@[i])
                ||| response.tool_calls matches Some(calls) && calls@.len() > 0
            }),
            // It comes out as it was stored, with its prompt credited and its key.
            r matches Lookup::Hit { response: served, write } ==> {
                let stored = found->0;
                let response = stored.response->0;
                &&& served.content == response.content
                &&& served.thought == response.thought
                &&& served.thought_signature == response.thought_signature
                &&& served.tool_calls == response.tool_calls
                &&& served.truncated == response.truncated
                &&& served.usage is Some <==> response.usage is Some
                &&& response.usage matches Some(u) ==> {
                    &&& served.usage->0.prompt_tokens == u.prompt_tokens
                    &&& served.usage->0.completion_tokens == u.completion_tokens
                    &&& served.usage->0.total_tokens == u.total_tokens
                    &&& served.usage->0.cached_tokens matches Some(n) && n == u.prompt_tokens + (
                    match u.cached_tokens {
                        Some(c) => c as int,
                        None => 0,
                    })
                }
                &&& served.cache_key matches Some(key) && key@ == request_hash@
                &&& write matches StoreWrite::RecordHit { request_hash: hash, at } && hash@
                    == request_hash@ && at == now
            },
            // A response that was found empty is removed, and nothing else is.
            r matches Lookup::Miss { cleanup } ==> {
                &&& cleanup is Some <==> (found is Some && found->0.response is Some)
                &&& cleanup matches Some(write) ==> (write matches StoreWrite::Delete {
                    request_hash: hash,
                } && hash@ == request_hash@)
            },
            // Each lookup adds one to one counter, and a hit its tokens to one total.
            final(self).misses == if r is Hit {
                old(self).misses as int
            } else {
                (old(self).misses + 1) % 0x1_0000_0000_0000_0000
            },
            final(self).hits_this == if r is Hit && found->0.created_at >= old(self).session_start {
                (old(self).hits_this + 1) % 0x1_0000_0000_0000_0000
            } else {
                old(self).hits_this as int
            },
            final(self).hits_prev == if r is Hit && found->0.created_at < old(self).session_start {
                (old(self).hits_prev + 1) % 0x1_0000_0000_0000_0000
            } else {
                old(self).hits_prev as int
            },
            final(self).tokens_saved_this == if r is Hit && found->0.created_at >= old(
                self,
            ).session_start {
                (old(self).tokens_saved_this + found->0.tokens_saved) % 0x1_0000_0000_0000_0000
            } else {
                old(self).tokens_saved_this as int
            },
            final(self).tokens_saved_prev == if r is Hit && found->0.created_at < old(
                self,
            ).session_start {
                (old(self).tokens_saved_prev + found->0.tokens_saved) % 0x1_0000_0000_0000_0000
            } else {
                old(self).tokens_saved_prev as int
            },
            final(self).tokens_stored == old(self).tokens_stored,
            final(self).cache_path == old(self).cache_path,
            final(self).max_entries == old(self).max_entries,
            final(self).max_size_mb == old(self).max_size_mb,
            final(self).session_start == old(self).session_start,
    {
        let mut cleanup: Option<StoreWrite> = None;
        if let Some(stored) = found {
            if let Some(response) = stored.response {
                if response.worth_caching() {
                    let saved: u64 = as_unsigned(stored.tokens_saved);
                    if stored.created_at >= self.session_start {
                        self.hits_this = self.hits_this.wrapping_add(1);
                        self.tokens_saved_this = self.tokens_saved_this.wrapping_add(saved);
                    } else {
                        self.hits_prev = self.hits_prev.wrapping_add(1);
                        self.tokens_saved_prev = self.tokens_saved_prev.wrapping_add(saved);
                    }
                    let usage = match response.usage {
                        Some(u) => {
                            let cached: usize = match u.cached_tokens {
                                Some(n) => n,
                                None => 0,
                            };
                            Some(
                                AiUsage {
                                    prompt_tokens: u.prompt_tokens,
                                    completion_tokens: u.completion_tokens,
                                    total_tokens: u.total_tokens,
                                    cached_tokens: Some(cached + u.prompt_tokens),
                                },
                            )
                        },
                        None => None,
                    };
                    let served = AiResponse {
                        content: response.content,
                        thought: response.thought,
                        thought_signature: response.thought_signature,
                        tool_calls: response.tool_calls,
                        usage,
                        truncated: response.truncated,
                        cache_key: Some(request_hash.clone()),
                    };
                    return Lookup::Hit {
                        response: served,
                        write: StoreWrite::RecordHit { request_hash: request_hash.clone(), at: now },
                    };
                }
                cleanup = Some(StoreWrite::Delete { request_hash: request_hash.clone() });
            }
        }
        self.misses = self.misses.wrapping_add(1);
        Lookup::Miss { cleanup }
    }

    /// Takes in a fresh response of the model. One that is worth caching comes
    /// back marked with its key, with the row to write; an empty one comes back
    /// as it is, and nothing is written.
    pub fn record_response(
        &mut self,
        request_hash: &String,
        response: AiResponse,
        request_json: String,
        response_json: String,
        model_name: &String,
        now: i64,
    ) -> (r: (AiResponse, Option<StoreWrite>))
        requires
            crate::response::has_payload(response) ==> tokens_of(response.usage) <= usize::MAX,
        ensures
            is_recording_outcome(
                *old(self),
                request_hash@,
                response,
                request_json@,
                response_json@,
                model_name@,
                now,
                r,
                *final(self),
            ),
            // A row is written if and only if the response says or asks something.
            r.1 is Some <==> {
                ||| response.content matches Some(text) && exists|i: int|
                    0 <= i < text@.len() && !crate::noise::is_space(#[trigger] text@[i])
                ||| response.tool_calls matches Some(calls) && calls@.len() > 0
            },
            // The response is handed on as it came, but for its key.
            r.0.content == response.content,
            r.0.thought == response.thought,
            r.0.thought_signature == response.thought_signature,
            r.0.tool_calls == response.tool_calls,
            r.0.usage == response.usage,
            r.0.truncated == response.truncated,
            r.1 is None ==> r.0.cache_key == response.cache_key,
            r.1 is Some ==> (r.0.cache_key matches Some(key) && key@ == request_hash@),
            // The row holds what was asked and answered.
            r.1 matches Some(write) ==> (write matches StoreWrite::Put(row) && {
                &&& row.request_hash@ == request_hash@
                &&& row.provider@ == model_name@
                &&& row.model@ == model_name@
                &&& row.request_json@ == request_json@
                &&& row.response_json@ == response_json@
                &&& row.created_at == now
                &&& row.last_accessed_at == now
                &&& row.hit_count == 0
                &&& response.usage is None ==> row.tokens_saved == 0
                &&& response.usage matches Some(u) ==> row.tokens_saved == if u.prompt_tokens
                    + u.completion_tokens <= i64::MAX {
                    u.prompt_tokens + u.completion_tokens
                } else {
                    u.prompt_tokens + u.completion_tokens - 0x1_0000_0000_0000_0000
                }
            }),
            final(self).tokens_stored == if r.1 is Some && response.usage is Some {
                (old(self).tokens_stored + response.usage->0.prompt_tokens
                    + response.usage->0.completion_tokens) % 0x1_0000_0000_0000_0000
            } else {
                old(self).tokens_stored as int
            },
            final(self).hits_this == old(self).hits_this,
            final(self).hits_prev == old(self).hits_prev,
            final(self).tokens_saved_this == old(self).tokens_saved_this,
            final(self).tokens_saved_prev == old(self).tokens_saved_prev,
            final(self).misses == old(self).misses,
            final(self).cache_path == old(self).cache_path,
            final(self).max_entries == old(self).max_entries,
            final(self).max_size_mb == old(self).max_size_mb,
            final(self).session_start == old(self).session_start,
    {
        if !response.worth_caching() {
            return (response, None);
        }
        let tokens: usize = match response.usage {
            Some(u) => u.prompt_tokens + u.completion_tokens,
            None => 0,
        };
        let row = CacheRow {
            request_hash: request_hash.clone(),
            provider: model_name.clone(),
            model: model_name.clone(),
            request_json,
            response_json,
            tokens_saved: as_signed(tokens as u64),
            created_at: now,
            hit_count: 0,
            last_accessed_at: now,
        };
        self.tokens_stored = self.tokens_stored.wrapping_add(tokens as u64);
        let marked = AiResponse {
            content: response.content,
            thought: response.thought,
            thought_signature: response.thought_signature,
            tool_calls: response.tool_calls,
            usage: response.usage,
            truncated: response.truncated,
            cache_key: Some(request_hash.clone()),
        };
        (marked, Some(StoreWrite::Put(row)))
    }

    /// The change that drops an entry whose response turned out to be of no use.
    pub fn invalidate_cache_entry(&self, key: &str) -> (r: StoreWrite)
        ensures
            r matches StoreWrite::Delete { request_hash } && request_hash@ == key@,
    {
        StoreWrite::Delete { request_hash: key.to_owned() }
    }

    /// How many entries have to go, given how many there are, if that could be
    /// read.
    pub fn eviction_size(&self, cause: EvictionCause, count: Option<u64>) -> (n: u64)
        requires
            cause is FileSize ==> self.max_size_mb * 1_048_576 <= u64::MAX,
        ensures
            n == eviction_count(self.max_entries, self.max_size_mb, cause, count),
            cause is EntryLimit ==> n == if self.max_entries > 0 && count is Some && count->0
                > self.max_entries {
                count->0 - self.max_entries
            } else {
                0
            },
            cause matches EvictionCause::FileSize { bytes } ==> {
                &&& n > 0 <==> self.max_size_mb > 0 && bytes > self.max_size_mb * 1_048_576
                &&& n > 1 ==> (count matches Some(c) && 10 * n <= c < 10 * n + 10)
                &&& n == 1 ==> (count matches Some(c) ==> c < 20)
            },
    {
        let total: u64 = match count {
            Some(n) => n,
            None => 0,
        };
        match cause {
            EvictionCause::EntryLimit => {
                if self.max_entries > 0 && total > self.max_entries {
                    total - self.max_entries
                } else {
                    0
                }
            },
            EvictionCause::FileSize { bytes } => {
                if self.max_size_mb > 0 && bytes > self.max_size_mb * 1_048_576 {
                    if total / 10 >= 1 {
                        total / 10
                    } else {
                        1
                    }
                } else {
                    0
                }
            },
        }
    }

    /// The hashes of the entries that have to go, the least valuable first.
    pub fn maybe_evict(&self, cause: EvictionCause, entries: &Vec<CacheEntrySummary>) -> (r: Vec<
        String,
    >)
        requires
            cause is FileSize ==> self.max_size_mb * 1_048_576 <= u64::MAX,
        ensures
            crate::entries::are_victims(
                entries@,
                eviction_count(
                    self.max_entries,
                    self.max_size_mb,
                    cause,
                    Some(entries@.len() as u64),
                ),
                r@,
            ),
            // As many go as are over the limit on entries.
            cause is EntryLimit ==> r@.len() == if self.max_entries > 0 && entries@.len()
                > self.max_entries {
                entries@.len() - self.max_entries
            } else {
                0
            },
            // A file that is too large costs a tenth, and at least one.
            cause matches EvictionCause::FileSize { bytes } ==> r@.len() == if self.max_size_mb == 0
                || bytes <= self.max_size_mb * 1_048_576 || entries@.len() == 0 {
                0
            } else if entries@.len() < 20 {
                1
            } else {
                entries@.len() as int / 10
            },
    {
        let n: u64 = self.eviction_size(cause, Some(entries.len() as u64));
        victims(entries, n)
    }

    /// What the cache did since the session began.
    pub fn cache_stats(&self) -> (r: Option<CacheStats>)
        ensures
            r == Some(
                CacheStats {
                    hits_this_session: self.hits_this,
                    hits_prev_session: self.hits_prev,
                    tokens_saved_this_session: self.tokens_saved_this,
                    tokens_saved_prev_session: self.tokens_saved_prev,
                    misses: self.misses,
                    tokens_stored: self.tokens_stored,
                },
            ),
    {
        Some(
            CacheStats {
                hits_this_session: self.hits_this,
                hits_prev_session: self.hits_prev,
                tokens_saved_this_session: self.tokens_saved_this,
                tokens_saved_prev_session: self.tokens_saved_prev,
                misses: self.misses,
                tokens_stored: self.tokens_stored,
            },
        )
    }
}

} // verus!
