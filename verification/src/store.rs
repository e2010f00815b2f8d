//! The table that holds the entries, and the changes that the cache asks for.

use vstd::prelude::*;

verus! {

/// A row of the table.
#[derive(Debug)]
pub struct CacheRow {
    pub request_hash: String,
    pub provider: String,
    pub model: String,
    pub request_json: String,
    pub response_json: String,
    pub tokens_saved: i64,
    pub created_at: i64,
    pub hit_count: i64,
    pub last_accessed_at: i64,
}

/// A change of the table.
#[derive(Debug)]
pub enum StoreWrite {
    /// Write a row, in place of the one with the same hash if there is one.
    Put(CacheRow),
    /// Count a hit, and note when it was.
    RecordHit { request_hash: String, at: i64 },
    /// Note a time of last access.
    SetLastAccess { request_hash: String, at: i64 },
    /// Remove the row with this hash, if there is one.
    Delete { request_hash: String },
}

/// A row after a hit. The count is exact as long as it fits its column.
pub open spec fn row_after_hit(row: CacheRow, at: i64) -> CacheRow {
    CacheRow { hit_count: (row.hit_count + 1) as i64, last_accessed_at: at, ..row }
}

/// The table after a change, as a map from hashes to rows.
pub open spec fn after_write(table: Map<Seq<char>, CacheRow>, write: StoreWrite) -> Map<
    Seq<char>,
    CacheRow,
> {
    match write {
        StoreWrite::Put(row) => table.insert(row.request_hash@, row),
        StoreWrite::RecordHit { request_hash, at } => if table.contains_key(request_hash@) {
            table.insert(request_hash@, row_after_hit(table[request_hash@], at))
        } else {
            table
        },
        StoreWrite::SetLastAccess { request_hash, at } => if table.contains_key(request_hash@) {
            table.insert(
                request_hash@,
                CacheRow { last_accessed_at: at, ..table[request_hash@] },
            )
        } else {
            table
        },
        StoreWrite::Delete { request_hash } => table.remove(request_hash@),
    }
}

/// The table after a list of changes, made in order.
pub open spec fn after_writes(table: Map<Seq<char>, CacheRow>, writes: Seq<StoreWrite>) -> Map<
    Seq<char>,
    CacheRow,
>
    decreases writes.len(),
{
    if writes.len() == 0 {
        table
    } else {
        after_write(after_writes(table, writes.drop_last()), writes.last())
    }
}

} // verus!
