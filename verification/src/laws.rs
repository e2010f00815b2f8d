//! What holds of the cache from one call to the next.

use vstd::prelude::*;
use crate::entries::CacheEntrySummary;
use crate::provider::{CachingAiProvider, EvictionCause, Lookup, StoredResponse};
use crate::response::AiResponse;
use crate::store::{CacheRow, StoreWrite};

verus! {

/// An entry says what its row says.
pub open spec fn summarizes(entry: CacheEntrySummary, row: CacheRow) -> bool {
    &&& entry.model@ == row.model@
    &&& entry.tokens_saved == row.tokens_saved
    &&& entry.hit_count == row.hit_count
    &&& entry.created_at == row.created_at
    &&& entry.last_accessed_at == row.last_accessed_at
}

/// An entry with this hash is in the list.
pub open spec fn lists_hash(entries: Seq<CacheEntrySummary>, hash: Seq<char>) -> bool {
    exists|i: int| 0 <= i < entries.len() && (#[trigger] entries[i]).request_hash@ == hash
}

/// `entries` lists the rows of `table`, each once.
pub open spec fn lists_table(
    table: Map<Seq<char>, CacheRow>,
    entries: Seq<CacheEntrySummary>,
) -> bool {
    &&& forall|i: int|
        0 <= i < entries.len() ==> table.contains_key((#[trigger] entries[i]).request_hash@)
            && summarizes(entries[i], table[entries[i].request_hash@])
    &&& forall|hash: Seq<char>| #[trigger] table.contains_key(hash) ==> lists_hash(entries, hash)
    &&& forall|i: int, j: int|
        #![trigger entries[i], entries[j]]
        0 <= i < j < entries.len() ==> entries[i].request_hash@ != entries[j].request_hash@
}

/// The table without the rows that `hashes` names.
pub open spec fn after_deletes(table: Map<Seq<char>, CacheRow>, hashes: Seq<String>) -> Map<
    Seq<char>,
    CacheRow,
>
    decreases hashes.len(),
{
    if hashes.len() == 0 {
        table
    } else {
        after_deletes(table, hashes.drop_last()).remove(hashes.last()@)
    }
}

/// A hash is among those named.
pub open spec fn names_hash(hashes: Seq<String>, hash: Seq<char>) -> bool {
    exists|k: int| 0 <= k < hashes.len() && (#[trigger] hashes[k])@ == hash
}

/// A row is worth less than another: it was hit less often or, if equally often,
/// not as lately.
pub open spec fn less_valuable(row: CacheRow, other: CacheRow) -> bool {
    row.hit_count < other.hit_count || (row.hit_count == other.hit_count && row.last_accessed_at
        < other.last_accessed_at)
}

/// Deleting by hash takes away the named rows and no others.
pub proof fn deleting_removes_the_named_rows(table: Map<Seq<char>, CacheRow>, hashes: Seq<String>)
    ensures
        forall|hash: Seq<char>| #[trigger]
            after_deletes(table, hashes).contains_key(hash) <==> table.contains_key(hash)
                && !names_hash(hashes, hash),
        forall|hash: Seq<char>| #[trigger]
            after_deletes(table, hashes).contains_key(hash) ==> after_deletes(table, hashes)[hash]
                == table[hash],
    decreases hashes.len(),
{
    if hashes.len() > 0 {
        let front = hashes.drop_last();
        deleting_removes_the_named_rows(table, front);
        assert forall|hash: Seq<char>| names_hash(hashes, hash) == (names_hash(front, hash) || hash
            == hashes.last()@) by {
            lemma_names_hash_last(hashes, hash);
        }
        let left = after_deletes(table, hashes);
        let before = after_deletes(table, front);
        assert forall|hash: Seq<char>| #[trigger] left.contains_key(hash) <==> table.contains_key(
            hash,
        ) && !names_hash(hashes, hash) by {
            assert(before.contains_key(hash) <==> table.contains_key(hash) && !names_hash(
                front,
                hash,
            ));
        }
        assert forall|hash: Seq<char>| #[trigger] left.contains_key(hash) implies left[hash]
            == table[hash] by {
            assert(before.contains_key(hash));
        }
    }
}

proof fn lemma_names_hash_last(hashes: Seq<String>, hash: Seq<char>)
    requires
        hashes.len() > 0,
    ensures
        names_hash(hashes, hash) == (names_hash(hashes.drop_last(), hash) || hash
            == hashes.last()@),
{
    let front = hashes.drop_last();
    if names_hash(front, hash) {
        let k = choose|k: int| 0 <= k < front.len() && (#[trigger] front[k])@ == hash;
        assert(hashes[k]@ == hash);
    }
    if names_hash(hashes, hash) {
        let k = choose|k: int| 0 <= k < hashes.len() && (#[trigger] hashes[k])@ == hash;
        if k < front.len() {
            assert(front[k]@ == hash);
        }
    }
    if hash == hashes.last()@ {
        assert(hashes[hashes.len() - 1]@ == hash);
    }
}

/// The hashes of the entries that are left when the first `n` in the order of
/// eviction are gone.
spec fn kept_hashes(entries: Seq<CacheEntrySummary>, n: int) -> Seq<Seq<char>> {
    let order = crate::entries::eviction_order(entries);
    Seq::new(
        (entries.len() - n) as nat,
        |k: int| entries[order[n + k] as int].request_hash@,
    )
}

/// Eviction removes as many entries as it was asked to, or all, leaves the rest
/// as they are, and keeps none that is less valuable than one that goes.
pub proof fn eviction_keeps_the_more_valuable(
    table: Map<Seq<char>, CacheRow>,
    entries: Seq<CacheEntrySummary>,
    n: int,
    hashes: Seq<String>,
)
    requires
        lists_table(table, entries),
        entries.len() <= usize::MAX,
        n >= 0,
        crate::entries::are_victims(entries, n, hashes),
    ensures
        after_deletes(table, hashes).dom().finite(),
        after_deletes(table, hashes).dom().len() == if n < entries.len() {
            entries.len() - n
        } else {
            0
        },
        forall|hash: Seq<char>| #[trigger]
            after_deletes(table, hashes).contains_key(hash) ==> table.contains_key(hash)
                && after_deletes(table, hashes)[hash] == table[hash],
        forall|gone: Seq<char>, kept: Seq<char>|
            #![trigger table.contains_key(gone), after_deletes(table, hashes).contains_key(kept)]
            table.contains_key(gone) && !after_deletes(table, hashes).contains_key(gone)
                && after_deletes(table, hashes).contains_key(kept) ==> !less_valuable(
                table[kept],
                table[gone],
            ),
{
    let left = after_deletes(table, hashes);
    let order = crate::entries::eviction_order(entries);
    let keys = crate::entries::value_keys(entries);
    let m = hashes.len() as int;
    let kept = kept_hashes(entries, m);
    deleting_removes_the_named_rows(table, hashes);
    assert forall|a: int, b: int|
        #![trigger order[a], order[b]]
        0 <= a < b < order.len() implies entries[order[a] as int].request_hash@
        != entries[order[b] as int].request_hash@ by {
        let i = order[a] as int;
        let j = order[b] as int;
        assert(crate::order::precedes(keys, true, i, j));
        if i < j {
            assert(entries[i].request_hash@ != entries[j].request_hash@);
        } else {
            assert(entries[j].request_hash@ != entries[i].request_hash@);
        }
    }
    assert forall|hash: Seq<char>| left.contains_key(hash) implies kept.contains(hash) by {
        assert(lists_hash(entries, hash));
        let i = choose|i: int|
            0 <= i < entries.len() && (#[trigger] entries[i]).request_hash@ == hash;
        assert(order.contains(i as usize));
        let a = choose|a: int| 0 <= a < order.len() && order[a] == i as usize;
        if a < m {
            assert(hashes[a]@ == hash);
            assert(names_hash(hashes, hash));
        }
        assert(kept[a - m] == hash);
    }
    assert forall|hash: Seq<char>| kept.contains(hash) implies left.contains_key(hash) by {
        let k = choose|k: int| 0 <= k < kept.len() && kept[k] == hash;
        let i = order[m + k] as int;
        assert(entries[i].request_hash@ == hash);
        if names_hash(hashes, hash) {
            let b = choose|b: int| 0 <= b < hashes.len() && (#[trigger] hashes[b])@ == hash;
            assert(order[b] < entries.len());
        }
    }
    assert(left.dom() =~= kept.to_set());
    assert(kept.no_duplicates()) by {
        assert forall|a: int, b: int|
            0 <= a < kept.len() && 0 <= b < kept.len() && a != b implies kept[a] != kept[b] by {
            if a < b {
                assert(order[m + a] < entries.len() && order[m + b] < entries.len());
            } else {
                assert(order[m + b] < entries.len() && order[m + a] < entries.len());
            }
        }
    }
    kept.unique_seq_to_set();
    assert forall|gone: Seq<char>, kept_hash: Seq<char>|
        #![trigger table.contains_key(gone), left.contains_key(kept_hash)]
        table.contains_key(gone) && !left.contains_key(gone) && left.contains_key(
            kept_hash,
        ) implies !less_valuable(table[kept_hash], table[gone]) by {
        assert(names_hash(hashes, gone));
        let b = choose|b: int| 0 <= b < hashes.len() && (#[trigger] hashes[b])@ == gone;
        assert(kept.contains(kept_hash));
        let k = choose|k: int| 0 <= k < kept.len() && kept[k] == kept_hash;
        let i = order[b] as int;
        let j = order[m + k] as int;
        assert(crate::order::precedes(keys, true, i, j));
        assert(keys[i] == crate::entries::value_key(entries[i]));
        assert(keys[j] == crate::entries::value_key(entries[j]));
        assert(summarizes(entries[i], table[gone]));
        assert(summarizes(entries[j], table[kept_hash]));
    }
}

/// With a limit on the number of entries, no more than that are left, and
/// nothing goes as long as it is kept.
pub proof fn eviction_meets_the_entry_limit(
    provider: CachingAiProvider,
    table: Map<Seq<char>, CacheRow>,
    entries: Seq<CacheEntrySummary>,
    hashes: Seq<String>,
)
    requires
        provider.max_entries > 0,
        lists_table(table, entries),
        entries.len() <= usize::MAX,
        crate::entries::are_victims(
            entries,
            crate::provider::eviction_count(
                provider.max_entries,
                provider.max_size_mb,
                EvictionCause::EntryLimit,
                Some(entries.len() as u64),
            ),
            hashes,
        ),
    ensures
        after_deletes(table, hashes).dom().len() == if entries.len() > provider.max_entries {
            provider.max_entries as nat
        } else {
            entries.len()
        },
        entries.len() <= provider.max_entries ==> after_deletes(table, hashes) == table,
{
    let n = crate::provider::eviction_count(
        provider.max_entries,
        provider.max_size_mb,
        EvictionCause::EntryLimit,
        Some(entries.len() as u64),
    );
    eviction_keeps_the_more_valuable(table, entries, n, hashes);
}

/// A file over its limit costs a tenth of the entries, and at least one if there
/// is any; a file within it costs none.
pub proof fn eviction_answers_the_file_size(
    provider: CachingAiProvider,
    table: Map<Seq<char>, CacheRow>,
    entries: Seq<CacheEntrySummary>,
    bytes: u64,
    hashes: Seq<String>,
)
    requires
        lists_table(table, entries),
        entries.len() <= usize::MAX,
        crate::entries::are_victims(
            entries,
            crate::provider::eviction_count(
                provider.max_entries,
                provider.max_size_mb,
                EvictionCause::FileSize { bytes },
                Some(entries.len() as u64),
            ),
            hashes,
        ),
    ensures
        provider.max_size_mb == 0 || bytes <= provider.max_size_mb * 1_048_576
            ==> after_deletes(table, hashes) == table,
        provider.max_size_mb > 0 && bytes > provider.max_size_mb * 1_048_576 && entries.len() > 0
            ==> after_deletes(table, hashes).dom().len() == entries.len() - (if entries.len() < 10 {
            1
        } else {
            entries.len() as int / 10
        }),
{
    let n = crate::provider::eviction_count(
        provider.max_entries,
        provider.max_size_mb,
        EvictionCause::FileSize { bytes },
        Some(entries.len() as u64),
    );
    eviction_keeps_the_more_valuable(table, entries, n, hashes);
}

/// A row once its time of last access is filled in.
pub open spec fn opened_row(row: CacheRow) -> CacheRow {
    if row.last_accessed_at == 0 {
        CacheRow { last_accessed_at: row.created_at, ..row }
    } else {
        row
    }
}

/// The rows after changes that note a time of last access.
proof fn lemma_access_noted(
    table: Map<Seq<char>, CacheRow>,
    noted: Seq<CacheEntrySummary>,
    writes: Seq<StoreWrite>,
)
    requires
        writes.len() == noted.len(),
        forall|i: int|
            0 <= i < noted.len() ==> table.contains_key((#[trigger] noted[i]).request_hash@)
                && noted[i].created_at == table[noted[i].request_hash@].created_at,
        forall|k: int|
            0 <= k < writes.len() ==> crate::provider::notes_access(
                #[trigger] writes[k],
                noted[k],
            ),
    ensures
        forall|hash: Seq<char>| #[trigger]
            crate::store::after_writes(table, writes).contains_key(hash) == table.contains_key(
                hash,
            ),
        forall|hash: Seq<char>|
            #![trigger crate::store::after_writes(table, writes)[hash]]
            table.contains_key(hash) ==> crate::store::after_writes(table, writes)[hash]
                == if lists_hash(noted, hash) {
                CacheRow { last_accessed_at: table[hash].created_at, ..table[hash] }
            } else {
                table[hash]
            },
    decreases writes.len(),
{
    if writes.len() > 0 {
        let writes0 = writes.drop_last();
        let noted0 = noted.drop_last();
        lemma_access_noted(table, noted0, writes0);
        let before = crate::store::after_writes(table, writes0);
        let after = crate::store::after_writes(table, writes);
        let last = noted.last();
        let n = noted.len() - 1;
        assert(crate::provider::notes_access(writes[n], noted[n]));
        assert(table.contains_key(noted[n].request_hash@));
        assert(before.contains_key(last.request_hash@));
        assert forall|hash: Seq<char>|
            #![trigger after[hash]]
            table.contains_key(hash) implies after[hash] == if lists_hash(noted, hash) {
            CacheRow { last_accessed_at: table[hash].created_at, ..table[hash] }
        } else {
            table[hash]
        } by {
            assert(before[hash] == if lists_hash(noted0, hash) {
                CacheRow { last_accessed_at: table[hash].created_at, ..table[hash] }
            } else {
                table[hash]
            });
            lemma_lists_hash_last(noted, hash);
        }
    }
}

proof fn lemma_lists_hash_last(entries: Seq<CacheEntrySummary>, hash: Seq<char>)
    requires
        entries.len() > 0,
    ensures
        lists_hash(entries, hash) == (lists_hash(entries.drop_last(), hash)
            || entries.last().request_hash@ == hash),
{
    let front = entries.drop_last();
    if lists_hash(front, hash) {
        let k = choose|k: int|
            0 <= k < front.len() && (#[trigger] front[k]).request_hash@ == hash;
        assert(entries[k].request_hash@ == hash);
    }
    if lists_hash(entries, hash) {
        let k = choose|k: int|
            0 <= k < entries.len() && (#[trigger] entries[k]).request_hash@ == hash;
        if k < front.len() {
            assert(front[k].request_hash@ == hash);
        }
    }
    if entries.last().request_hash@ == hash {
        assert(entries[entries.len() - 1].request_hash@ == hash);
    }
}

/// The rows after changes that remove entries, which come after other changes.
proof fn lemma_removed(
    table: Map<Seq<char>, CacheRow>,
    first: Seq<StoreWrite>,
    gone: Seq<CacheEntrySummary>,
    writes: Seq<StoreWrite>,
)
    requires
        writes.len() == first.len() + gone.len(),
        writes.take(first.len() as int) == first,
        forall|k: int|
            first.len() <= k < writes.len() ==> crate::provider::removes(
                #[trigger] writes[k],
                gone[k - first.len()],
            ),
    ensures
        forall|hash: Seq<char>| #[trigger]
            crate::store::after_writes(table, writes).contains_key(hash) == (
            crate::store::after_writes(table, first).contains_key(hash) && !lists_hash(gone, hash)),
        forall|hash: Seq<char>|
            #![trigger crate::store::after_writes(table, writes)[hash]]
            crate::store::after_writes(table, writes).contains_key(hash)
                ==> crate::store::after_writes(table, writes)[hash] == crate::store::after_writes(
                table,
                first,
            )[hash],
    decreases gone.len(),
{
    let after = crate::store::after_writes(table, writes);
    let middle = crate::store::after_writes(table, first);
    if gone.len() == 0 {
        assert(writes =~= first);
    } else {
        let writes0 = writes.drop_last();
        let gone0 = gone.drop_last();
        assert(writes0.take(first.len() as int) =~= writes.take(first.len() as int));
        lemma_removed(table, first, gone0, writes0);
        let before = crate::store::after_writes(table, writes0);
        assert(crate::provider::removes(writes[writes.len() - 1], gone[gone.len() - 1]));
        assert forall|hash: Seq<char>| #[trigger] after.contains_key(hash) == (
        middle.contains_key(hash) && !lists_hash(gone, hash)) by {
            assert(before.contains_key(hash) == (middle.contains_key(hash) && !lists_hash(
                gone0,
                hash,
            )));
            lemma_lists_hash_last(gone, hash);
        }
        assert forall|hash: Seq<char>|
            #![trigger after[hash]]
            after.contains_key(hash) implies after[hash] == middle[hash] by {
            assert(before.contains_key(hash));
            assert(before[hash] == middle[hash]);
        }
    }
}

/// A filtered list holds an entry if and only if the list does and the filter
/// lets it through.
proof fn lemma_filtered_hash(
    table: Map<Seq<char>, CacheRow>,
    entries: Seq<CacheEntrySummary>,
    keeps: spec_fn(CacheEntrySummary) -> bool,
    holds: spec_fn(CacheRow) -> bool,
    hash: Seq<char>,
)
    requires
        lists_table(table, entries),
        table.contains_key(hash),
        forall|e: CacheEntrySummary, row: CacheRow|
            #![trigger keeps(e), holds(row)]
            summarizes(e, row) ==> keeps(e) == holds(row),
    ensures
        lists_hash(entries.filter(keeps), hash) == holds(table[hash]),
{
    broadcast use vstd::seq_lib::group_filter_ensures;

    let kept = entries.filter(keeps);
    if lists_hash(kept, hash) {
        let k = choose|k: int| 0 <= k < kept.len() && (#[trigger] kept[k]).request_hash@ == hash;
        assert(keeps(kept[k]));
        entries.lemma_filter_contains_rev(keeps, kept[k]);
        let i = choose|i: int| 0 <= i < entries.len() && entries[i] == kept[k];
        assert(summarizes(entries[i], table[entries[i].request_hash@]));
        assert(holds(table[hash]));
    }
    if holds(table[hash]) {
        assert(lists_hash(entries, hash));
        let i = choose|i: int|
            0 <= i < entries.len() && (#[trigger] entries[i]).request_hash@ == hash;
        assert(summarizes(entries[i], table[hash]));
        assert(keeps(entries[i]));
        assert(kept.contains(entries[i]));
        let k = choose|k: int| 0 <= k < kept.len() && kept[k] == entries[i];
        assert(kept[k].request_hash@ == hash);
    }
}

/// Opening the cache removes the rows written before the cutoff and no others,
/// and fills in the time of last access where it is missing.
pub proof fn opening_removes_the_expired(
    table: Map<Seq<char>, CacheRow>,
    entries: Seq<CacheEntrySummary>,
    cutoff: i64,
    writes: Seq<StoreWrite>,
)
    requires
        lists_table(table, entries),
        crate::provider::are_opening_writes(entries, cutoff, writes),
    ensures
        forall|hash: Seq<char>| #[trigger]
            crate::store::after_writes(table, writes).contains_key(hash) <==> table.contains_key(
                hash,
            ) && table[hash].created_at >= cutoff,
        forall|hash: Seq<char>|
            #![trigger crate::store::after_writes(table, writes)[hash]]
            crate::store::after_writes(table, writes).contains_key(hash)
                ==> crate::store::after_writes(table, writes)[hash] == opened_row(table[hash]),
        forall|hash: Seq<char>|
            #![trigger crate::store::after_writes(table, writes)[hash]]
            crate::store::after_writes(table, writes).contains_key(hash) ==> {
                let row = crate::store::after_writes(table, writes)[hash];
                &&& row == (CacheRow { last_accessed_at: row.last_accessed_at, ..table[hash] })
                &&& row.last_accessed_at == if table[hash].last_accessed_at == 0 {
                    table[hash].created_at
                } else {
                    table[hash].last_accessed_at
                }
            },
{
    broadcast use vstd::seq_lib::group_filter_ensures;

    let never = crate::provider::never_accessed(entries);
    let gone = crate::provider::expired(entries, cutoff);
    let is_never = |e: CacheEntrySummary| e.last_accessed_at == 0;
    let is_gone = |e: CacheEntrySummary| e.created_at < cutoff;
    let first = writes.take(never.len() as int);
    assert forall|i: int| 0 <= i < never.len() implies table.contains_key(
        (#[trigger] never[i]).request_hash@,
    ) && never[i].created_at == table[never[i].request_hash@].created_at by {
        entries.lemma_filter_contains_rev(is_never, never[i]);
        let j = choose|j: int| 0 <= j < entries.len() && entries[j] == never[i];
        assert(summarizes(entries[j], table[entries[j].request_hash@]));
    }
    assert forall|k: int| 0 <= k < first.len() implies crate::provider::notes_access(
        #[trigger] first[k],
        never[k],
    ) by {
        assert(first[k] == writes[k]);
    }
    lemma_access_noted(table, never, first);
    lemma_removed(table, first, gone, writes);
    let middle = crate::store::after_writes(table, first);
    let after = crate::store::after_writes(table, writes);
    assert forall|hash: Seq<char>| #[trigger] after.contains_key(hash) <==> table.contains_key(hash)
        && table[hash].created_at >= cutoff by {
        assert(middle.contains_key(hash) == table.contains_key(hash));
        if table.contains_key(hash) {
            lemma_filtered_hash(
                table,
                entries,
                is_gone,
                |row: CacheRow| row.created_at < cutoff,
                hash,
            );
        }
    }
    assert forall|hash: Seq<char>|
        #![trigger after[hash]]
        after.contains_key(hash) implies after[hash] == opened_row(table[hash]) by {
        assert(middle.contains_key(hash) == table.contains_key(hash));
        assert(after[hash] == middle[hash]);
        lemma_filtered_hash(
            table,
            entries,
            is_never,
            |row: CacheRow| row.last_accessed_at == 0,
            hash,
        );
    }
}

/// Every hit on an entry adds one to its count and leaves its time as the time
/// of last access; nothing else changes.
pub proof fn hits_are_counted(
    table: Map<Seq<char>, CacheRow>,
    hash: Seq<char>,
    times: Seq<i64>,
    writes: Seq<StoreWrite>,
)
    requires
        table.contains_key(hash),
        table[hash].hit_count + times.len() <= i64::MAX,
        writes.len() == times.len(),
        forall|k: int|
            0 <= k < writes.len() ==> (#[trigger] writes[k] matches StoreWrite::RecordHit {
                request_hash,
                at,
            } && request_hash@ == hash && at == times[k]),
    ensures
        crate::store::after_writes(table, writes) == table.insert(
            hash,
            CacheRow {
                hit_count: (table[hash].hit_count + times.len()) as i64,
                last_accessed_at: if times.len() == 0 {
                    table[hash].last_accessed_at
                } else {
                    times.last()
                },
                ..table[hash]
            },
        ),
    decreases writes.len(),
{
    if writes.len() > 0 {
        hits_are_counted(table, hash, times.drop_last(), writes.drop_last());
        assert(writes[writes.len() - 1] == writes.last());
    }
    assert(crate::store::after_writes(table, writes) =~= table.insert(
        hash,
        CacheRow {
            hit_count: (table[hash].hit_count + times.len()) as i64,
            last_accessed_at: if times.len() == 0 {
                table[hash].last_accessed_at
            } else {
                times.last()
            },
            ..table[hash]
        },
    ));
}

/// Invalidating an entry removes it and no other.
pub proof fn invalidation_removes_the_entry(table: Map<Seq<char>, CacheRow>, write: StoreWrite)
    requires
        write is Delete,
    ensures
        !crate::store::after_write(table, write).contains_key(write->Delete_request_hash@),
        forall|hash: Seq<char>|
            hash != write->Delete_request_hash@ ==> #[trigger]
                crate::store::after_write(table, write).contains_key(hash) == table.contains_key(
                hash,
            ),
        forall|hash: Seq<char>|
            hash != write->Delete_request_hash@ && table.contains_key(hash) ==> #[trigger]
                crate::store::after_write(table, write)[hash] == table[hash],
{
}

/// The change writes or removes the row with this hash.
pub open spec fn replaces_or_removes(write: StoreWrite, hash: Seq<char>) -> bool {
    match write {
        StoreWrite::Put(row) => row.request_hash@ == hash,
        StoreWrite::Delete { request_hash } => request_hash@ == hash,
        _ => false,
    }
}

/// What is kept under a hash stays there, whatever else happens, until it is
/// written anew or removed; only its hits may change.
pub proof fn entries_stay_until_replaced_or_removed(
    table: Map<Seq<char>, CacheRow>,
    writes: Seq<StoreWrite>,
    hash: Seq<char>,
)
    requires
        table.contains_key(hash),
        forall|k: int|
            0 <= k < writes.len() ==> !replaces_or_removes(#[trigger] writes[k], hash),
    ensures
        crate::store::after_writes(table, writes).contains_key(hash),
        ({
            let row = crate::store::after_writes(table, writes)[hash];
            row == CacheRow {
                hit_count: row.hit_count,
                last_accessed_at: row.last_accessed_at,
                ..table[hash]
            }
        }),
    decreases writes.len(),
{
    if writes.len() > 0 {
        assert forall|k: int|
            0 <= k < writes.drop_last().len() implies !replaces_or_removes(
            #[trigger] writes.drop_last()[k],
            hash,
        ) by {
            assert(writes.drop_last()[k] == writes[k]);
        }
        entries_stay_until_replaced_or_removed(table, writes.drop_last(), hash);
        assert(!replaces_or_removes(writes[writes.len() - 1], hash));
    }
}

/// `read` is what the text of `written` reads as: all of it but the key, which is
/// not part of the text.
pub open spec fn reads_back(written: AiResponse, read: AiResponse) -> bool {
    &&& read.content == written.content
    &&& read.thought == written.thought
    &&& read.thought_signature == written.thought_signature
    &&& read.tool_calls == written.tool_calls
    &&& read.usage == written.usage
    &&& read.truncated == written.truncated
    &&& read.cache_key is None
}

/// A response that was recorded is served when its request is looked up again:
/// the same content, thoughts and calls, with the key of the request, and with
/// the tokens that it took when it was fresh added to the savings of the session.
pub proof fn recorded_response_is_served(
    before: CachingAiProvider,
    table: Map<Seq<char>, CacheRow>,
    key: Seq<char>,
    response: AiResponse,
    request_json: Seq<char>,
    response_json: Seq<char>,
    model_name: Seq<char>,
    recorded_at: i64,
    recorded: (AiResponse, Option<StoreWrite>),
    between: CachingAiProvider,
    found: Option<StoredResponse>,
    looked_up_at: i64,
    outcome: Lookup,
    after: CachingAiProvider,
)
    requires
        crate::response::has_payload(response),
        crate::provider::is_recording_outcome(
            before,
            key,
            response,
            request_json,
            response_json,
            model_name,
            recorded_at,
            recorded,
            between,
        ),
        ({
            let row = crate::store::after_write(table, recorded.1->0)[key];
            &&& found matches Some(stored)
            &&& stored.response matches Some(read)
            &&& reads_back(response, read)
            &&& stored.tokens_saved == row.tokens_saved
            &&& stored.created_at == row.created_at
        }),
        crate::provider::is_lookup_outcome(between, key, found, looked_up_at, outcome, after),
    ensures
        crate::store::after_write(table, recorded.1->0).contains_key(key),
        crate::store::after_write(table, recorded.1->0)[key].response_json@ == response_json,
        crate::store::after_write(table, recorded.1->0)[key].request_json@ == request_json,
        outcome matches Lookup::Hit { response: served, .. }
            && crate::provider::is_response_from_cache(response, key, served),
        after == crate::provider::after_hit(
            between,
            crate::provider::signed(crate::provider::tokens_of(response.usage) as u64) as i64,
            recorded_at,
        ),
        outcome is Hit,
        outcome->response.content == response.content,
        outcome->response.thought == response.thought,
        outcome->response.thought_signature == response.thought_signature,
        outcome->response.tool_calls == response.tool_calls,
        outcome->response.truncated == response.truncated,
        outcome->response.usage is Some <==> response.usage is Some,
        response.usage matches Some(u) ==> outcome->response.usage->0.prompt_tokens
            == u.prompt_tokens && outcome->response.usage->0.completion_tokens
            == u.completion_tokens && outcome->response.usage->0.total_tokens == u.total_tokens,
        outcome->response.cache_key matches Some(k) && k@ == key,
        recorded_at >= between.session_start ==> after.hits_this == (between.hits_this + 1)
            % 0x1_0000_0000_0000_0000,
        recorded_at < between.session_start ==> after.hits_prev == (between.hits_prev + 1)
            % 0x1_0000_0000_0000_0000,
        response.usage matches Some(u) ==> {
            let tokens = u.prompt_tokens + u.completion_tokens;
            &&& tokens <= usize::MAX && recorded_at >= between.session_start
                ==> after.tokens_saved_this == (between.tokens_saved_this + tokens)
                % 0x1_0000_0000_0000_0000
            &&& tokens <= usize::MAX && recorded_at < between.session_start
                ==> after.tokens_saved_prev == (between.tokens_saved_prev + tokens)
                % 0x1_0000_0000_0000_0000
        },
{
}

/// A response says something or asks for something: there is more than white space
/// in its content, or there is a call of a tool.
pub open spec fn says_or_asks(response: AiResponse) -> bool {
    ||| response.content matches Some(text) && exists|i: int|
        0 <= i < text@.len() && !crate::noise::is_space(#[trigger] text@[i])
    ||| response.tool_calls matches Some(calls) && calls@.len() > 0
}

/// A stored response that says or asks something is served, and any other is not.
/// It comes out as it was stored, field by field; only its cached tokens and its
/// key are set, the former to those it had and its whole prompt.
pub proof fn served_responses_come_out_as_stored(
    before: CachingAiProvider,
    key: Seq<char>,
    stored: StoredResponse,
    response: AiResponse,
    now: i64,
    outcome: Lookup,
    after: CachingAiProvider,
)
    requires
        stored.response == Some(response),
        crate::provider::is_lookup_outcome(before, key, Some(stored), now, outcome, after),
    ensures
        outcome is Hit <==> says_or_asks(response),
        outcome matches Lookup::Hit { response: served, .. } ==> {
            &&& served.content == response.content
            &&& served.thought == response.thought
            &&& served.thought_signature == response.thought_signature
            &&& served.tool_calls == response.tool_calls
            &&& served.truncated == response.truncated
            &&& served.usage is Some <==> response.usage is Some
            &&& response.usage matches Some(u) ==> {
                let cached = u.prompt_tokens + (match u.cached_tokens {
                    Some(n) => n as int,
                    None => 0,
                });
                &&& served.usage->0.prompt_tokens == u.prompt_tokens
                &&& served.usage->0.completion_tokens == u.completion_tokens
                &&& served.usage->0.total_tokens == u.total_tokens
                &&& cached <= usize::MAX ==> (served.usage->0.cached_tokens matches Some(n) && n
                    == cached)
            }
            &&& served.cache_key matches Some(k) && k@ == key
        },
        outcome matches Lookup::Miss { cleanup } ==> (cleanup matches Some(StoreWrite::Delete {
            request_hash,
        }) && request_hash@ == key),
{
}

/// A fresh response is handed on as it came, field by field, whether it is kept or
/// not; one that says or asks something still does, and is written down.
pub proof fn fresh_responses_are_handed_on_as_they_came(
    before: CachingAiProvider,
    key: Seq<char>,
    response: AiResponse,
    request_json: Seq<char>,
    response_json: Seq<char>,
    model_name: Seq<char>,
    now: i64,
    recorded: (AiResponse, Option<StoreWrite>),
    after: CachingAiProvider,
)
    requires
        crate::provider::is_recording_outcome(
            before,
            key,
            response,
            request_json,
            response_json,
            model_name,
            now,
            recorded,
            after,
        ),
    ensures
        recorded.0.content == response.content,
        recorded.0.thought == response.thought,
        recorded.0.thought_signature == response.thought_signature,
        recorded.0.tool_calls == response.tool_calls,
        recorded.0.usage == response.usage,
        recorded.0.truncated == response.truncated,
        says_or_asks(recorded.0) <==> says_or_asks(response),
        recorded.1 is Some <==> says_or_asks(response),
        recorded.1 is Some ==> (recorded.0.cache_key matches Some(k) && k@ == key),
        recorded.1 matches Some(write) ==> (write matches StoreWrite::Put(row) && row.request_hash@
            == key && row.request_json@ == request_json && row.response_json@ == response_json
            && row.provider@ == model_name && row.model@ == model_name && row.created_at == now
            && row.last_accessed_at == now && row.hit_count == 0),
{
}

/// An empty response is never written, and one that is found anyway is not
/// served but removed.
pub proof fn empty_responses_do_not_stay(
    before: CachingAiProvider,
    table: Map<Seq<char>, CacheRow>,
    key: Seq<char>,
    found: Option<StoredResponse>,
    now: i64,
    outcome: Lookup,
    after: CachingAiProvider,
    response: AiResponse,
    request_json: Seq<char>,
    response_json: Seq<char>,
    model_name: Seq<char>,
    recorded: (AiResponse, Option<StoreWrite>),
    last: CachingAiProvider,
)
    requires
        crate::provider::is_lookup_outcome(before, key, found, now, outcome, after),
        crate::provider::is_recording_outcome(
            after,
            key,
            response,
            request_json,
            response_json,
            model_name,
            now,
            recorded,
            last,
        ),
    ensures
        !says_or_asks(response) ==> recorded.1 is None && recorded.0 == response,
        !crate::response::has_payload(response) ==> recorded.1 is None && recorded.0 == response,
        crate::provider::is_poisoned(found) ==> {
            &&& outcome matches Lookup::Miss { cleanup: Some(write) }
            &&& !crate::store::after_write(table, write).contains_key(key)
        },
        found matches Some(stored) && stored.response matches Some(response) && !says_or_asks(
            response,
        ) ==> {
            &&& outcome matches Lookup::Miss { cleanup: Some(write) }
            &&& !crate::store::after_write(table, write).contains_key(key)
        },
        outcome matches Lookup::Hit { response: served, .. } ==> says_or_asks(served)
            && crate::response::has_payload(served),
{
}

/// Every lookup counts once: as a hit on an entry of this session, as a hit on an
/// older one, or as a miss.
pub proof fn lookups_are_counted_once(
    before: CachingAiProvider,
    key: Seq<char>,
    found: Option<StoredResponse>,
    now: i64,
    outcome: Lookup,
    after: CachingAiProvider,
)
    requires
        crate::provider::is_lookup_outcome(before, key, found, now, outcome, after),
    ensures
        (after.hits_this + after.hits_prev + after.misses) % 0x1_0000_0000_0000_0000 == (
        before.hits_this + before.hits_prev + before.misses + 1) % 0x1_0000_0000_0000_0000,
        outcome is Hit <==> after.misses == before.misses,
        after.tokens_stored == before.tokens_stored,
{
}

} // verus!
