//! The decisions behind a persistent cache of model responses.
//!
//! A request is known by a key that leaves out what changes from day to day
//! ([`key`]). The response to it is kept in a table ([`store`]), served again
//! ([`provider`]), listed and summed up ([`entries`], [`overview`], [`detail`]),
//! and dropped when it expires or is worth the least.

pub mod asked;
pub mod calls;
pub mod canonical;
pub mod detail;
pub mod entries;
pub mod format;
pub mod json;
pub mod key;
pub mod laws;
pub mod lines;
pub mod noise;
pub mod order;
pub mod overview;
pub mod provider;
pub mod response;
pub mod settled;
pub mod shown;
pub mod store;
pub mod syntax;

pub use detail::{query_cache_entry_detail, CacheEntryDetail};
pub use entries::{query_cache_entries, CacheEntrySummary};
pub use format::{fmt_bytes, fmt_thousands, fmt_tokens};
pub use noise::scrub_nondeterministic_content;
pub use overview::{query_cache_overview, CacheOverview, HitBucket, ModelCount};
pub use provider::{CacheStats, CachingAiProvider};
pub use response::AiResponse;
