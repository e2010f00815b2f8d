//! What calls of the library give, said over their arguments and their results.

use vstd::prelude::*;
use crate::entries::CacheEntrySummary;
use crate::entries::{query_cache_entries, victims};
use crate::overview::{query_cache_overview, CacheOverview, TotalOverflow};
use crate::provider::{CachingAiProvider, EvictionCause};

verus! {

/// The number in the column of a name: of hits, unless another column is named.
pub open spec fn sort_value(entry: CacheEntrySummary, sort_by: Seq<char>) -> i64 {
    if sort_by == "tokens_saved"@ {
        entry.tokens_saved
    } else if sort_by == "last_accessed_at"@ {
        entry.last_accessed_at
    } else if sort_by == "created_at"@ {
        entry.created_at
    } else {
        entry.hit_count
    }
}

/// Each of the first `n` numbers once.
pub open spec fn is_permutation(order: Seq<int>, n: int) -> bool {
    &&& order.len() == n
    &&& forall|a: int| 0 <= a < n ==> 0 <= #[trigger] order[a] < n
    &&& forall|a: int, b: int| 0 <= a < b < n ==> #[trigger] order[a] != #[trigger] order[b]
}

/// The entries go up in the named column for `asc` and down for anything else.
pub open spec fn is_listing(
    entries: Seq<CacheEntrySummary>,
    sort_by: Seq<char>,
    sort_order: Seq<char>,
    order: Seq<int>,
) -> bool {
    &&& is_permutation(order, entries.len() as int)
    &&& forall|a: int, b: int|
        #![trigger order[a], order[b]]
        0 <= a < b < order.len() ==> {
            let x = sort_value(entries[order[a]], sort_by);
            let y = sort_value(entries[order[b]], sort_by);
            x == y && order[a] < order[b] || if sort_order == "asc"@ {
                x < y
            } else {
                x > y
            }
        }
}

/// The entries from the least valuable to the most: by their hits and, between
/// equal ones, by their last access.
pub open spec fn is_by_value(entries: Seq<CacheEntrySummary>, order: Seq<int>) -> bool {
    &&& is_permutation(order, entries.len() as int)
    &&& forall|a: int, b: int|
        #![trigger order[a], order[b]]
        0 <= a < b < order.len() ==> {
            let x = entries[order[a]];
            let y = entries[order[b]];
            ||| x.hit_count < y.hit_count
            ||| x.hit_count == y.hit_count && x.last_accessed_at < y.last_accessed_at
            ||| x.hit_count == y.hit_count && x.last_accessed_at == y.last_accessed_at && order[a]
                < order[b]
        }
}

spec fn places(ranks: Seq<usize>) -> Seq<int> {
    Seq::new(ranks.len(), |k: int| ranks[k] as int)
}

proof fn lemma_places(keys: Seq<(i128, i128)>, ascending: bool, ranks: Seq<usize>)
    requires
        crate::order::ranks_all(keys, ascending, ranks),
    ensures
        is_permutation(places(ranks), keys.len() as int),
{
    let order = places(ranks);
    assert forall|a: int, b: int| 0 <= a < b < order.len() implies #[trigger] order[a]
        != #[trigger] order[b] by {
        assert(crate::order::precedes(keys, ascending, ranks[a] as int, ranks[b] as int));
    }
}

/// A page holds the entries that come behind `per_page` entries for every page
/// before it, in the order of the listing, and up to `per_page` of them. Pages
/// count from one, and page zero is the first too.
pub proof fn pages_cut_the_listing(
    entries: &Vec<CacheEntrySummary>,
    page: u32,
    per_page: u32,
    sort_by: &str,
    sort_order: &str,
    r: (Vec<CacheEntrySummary>, u64),
)
    requires
        call_ensures(query_cache_entries, (entries, page, per_page, sort_by, sort_order), r),
    ensures
        r.1 == entries@.len(),
        exists|order: Seq<int>| #[trigger]
            is_listing(entries@, sort_by@, sort_order@, order) && ({
                let offset = if page <= 1 {
                    0
                } else {
                    (page - 1) * per_page
                };
                &&& r.0@.len() == if offset >= entries@.len() {
                    0
                } else if entries@.len() - offset < per_page {
                    entries@.len() - offset
                } else {
                    per_page as int
                }
                &&& forall|k: int|
                    0 <= k < r.0@.len() ==> #[trigger] r.0@[k] == entries@[order[offset + k]]
            }),
{
    let ascending = sort_order@ == "asc"@;
    let column = crate::entries::named_column(sort_by@);
    let keys = crate::entries::column_keys(entries@, column);
    let ranks = crate::order::ranking(keys, ascending);
    let order = places(ranks);
    lemma_places(keys, ascending, ranks);
    assert forall|a: int, b: int|
        #![trigger order[a], order[b]]
        0 <= a < b < order.len() implies {
        let x = sort_value(entries@[order[a]], sort_by@);
        let y = sort_value(entries@[order[b]], sort_by@);
        x == y && order[a] < order[b] || if ascending {
            x < y
        } else {
            x > y
        }
    } by {
        assert(crate::order::precedes(keys, ascending, ranks[a] as int, ranks[b] as int));
        assert(keys[order[a]] == crate::entries::column_key(entries@[order[a]], column));
        assert(keys[order[b]] == crate::entries::column_key(entries@[order[b]], column));
    }
    assert(is_listing(entries@, sort_by@, sort_order@, order));
    let offset = crate::entries::page_offset(page, per_page);
    assert(offset == if page <= 1 {
        0
    } else {
        (page - 1) * per_page
    }) by (nonlinear_arith)
        requires
            offset == (if page == 0 {
                0int
            } else {
                page - 1
            }) * per_page,
    ;
    assert(offset >= 0) by (nonlinear_arith)
        requires
            offset == (if page == 0 {
                0int
            } else {
                page - 1
            }) * per_page,
    ;
    assert forall|k: int| 0 <= k < r.0@.len() implies #[trigger] r.0@[k] == entries@[order[offset
        + k]] by {
        assert(r.0@[k] == entries@[ranks[offset + k] as int]);
    }
}

/// The first page begins with the first entry of the listing, whatever its size,
/// and is as long as it can be.
pub proof fn first_pages_begin_the_listing(
    entries: &Vec<CacheEntrySummary>,
    page: u32,
    per_page: u32,
    sort_by: &str,
    sort_order: &str,
    r: (Vec<CacheEntrySummary>, u64),
)
    requires
        call_ensures(query_cache_entries, (entries, page, per_page, sort_by, sort_order), r),
        page <= 1,
        per_page >= 1,
        entries@.len() > 0,
    ensures
        r.0@.len() == if entries@.len() < per_page {
            entries@.len() as int
        } else {
            per_page as int
        },
        forall|i: int|
            0 <= i < entries@.len() ==> if sort_order@ == "asc"@ {
                sort_value(r.0@[0], sort_by@) <= sort_value(#[trigger] entries@[i], sort_by@)
            } else {
                sort_value(r.0@[0], sort_by@) >= sort_value(entries@[i], sort_by@)
            },
{
    pages_cut_the_listing(entries, page, per_page, sort_by, sort_order, r);
    let order = choose|order: Seq<int>| #[trigger]
        is_listing(entries@, sort_by@, sort_order@, order) && (r.0@.len() == if entries@.len()
            < per_page {
            entries@.len() as int
        } else {
            per_page as int
        } && forall|k: int|
            0 <= k < r.0@.len() ==> #[trigger] r.0@[k] == entries@[order[0 + k]]);
    assert(r.0@[0] == entries@[order[0]]);
    assert forall|i: int| 0 <= i < entries@.len() implies if sort_order@ == "asc"@ {
        sort_value(r.0@[0], sort_by@) <= sort_value(#[trigger] entries@[i], sort_by@)
    } else {
        sort_value(r.0@[0], sort_by@) >= sort_value(entries@[i], sort_by@)
    } by {
        let a = lemma_permutation_reaches(order, entries@.len() as int, i);
        if a > 0 {
            assert(order[0] != order[a]);
        }
    }
}

/// A permutation holds every number.
proof fn lemma_permutation_reaches(order: Seq<int>, n: int, i: int) -> (a: int)
    requires
        is_permutation(order, n),
        0 <= i < n,
    ensures
        0 <= a < n,
        order[a] == i,
{
    let all = vstd::set_lib::set_int_range(0, n);
    vstd::set_lib::lemma_int_range(0, n);
    let reached = order.to_set();
    assert(order.no_duplicates());
    order.unique_seq_to_set();
    assert(reached.subset_of(all)) by {
        assert forall|x: int| reached.contains(x) implies all.contains(x) by {
            let k = choose|k: int| 0 <= k < order.len() && order[k] == x;
            assert(0 <= order[k] < n);
        }
    }
    vstd::set_lib::lemma_subset_equality(reached, all);
    assert(all.contains(i));
    assert(reached.contains(i));
    choose|k: int| 0 <= k < order.len() && order[k] == i
}

/// Between two pages of one listing nothing is left out and nothing comes twice:
/// a page and the next are one page of twice the size.
pub proof fn two_pages_are_one_of_twice_the_size(
    entries: &Vec<CacheEntrySummary>,
    per_page: u32,
    sort_by: &str,
    sort_order: &str,
    first: (Vec<CacheEntrySummary>, u64),
    second: (Vec<CacheEntrySummary>, u64),
    both: (Vec<CacheEntrySummary>, u64),
)
    requires
        2 * per_page <= u32::MAX,
        call_ensures(query_cache_entries, (entries, 1u32, per_page, sort_by, sort_order), first),
        call_ensures(query_cache_entries, (entries, 2u32, per_page, sort_by, sort_order), second),
        call_ensures(
            query_cache_entries,
            (entries, 1u32, (2 * per_page) as u32, sort_by, sort_order),
            both,
        ),
    ensures
        first.0@ + second.0@ == both.0@,
{
    let ranks = crate::order::ranking(
        crate::entries::column_keys(entries@, crate::entries::named_column(sort_by@)),
        sort_order@ == "asc"@,
    );
    let one = crate::entries::page_offset(1, per_page);
    let two = crate::entries::page_offset(2, per_page);
    let wide = crate::entries::page_offset(1, (2 * per_page) as u32);
    assert(one == 0 && two == per_page && wide == 0) by (nonlinear_arith)
        requires
            one == (1 - 1) * per_page,
            two == (2 - 1) * per_page,
            wide == (1 - 1) * ((2 * per_page) as u32),
    ;
    let joined = first.0@ + second.0@;
    assert(joined.len() == both.0@.len());
    assert forall|k: int| 0 <= k < joined.len() implies joined[k] == both.0@[k] by {
        assert(both.0@[k] == entries@[ranks[0 + k] as int]);
        if k < first.0@.len() {
            assert(first.0@[k] == entries@[ranks[0 + k] as int]);
        } else {
            let j = k - first.0@.len();
            assert(second.0@[j] == entries@[ranks[per_page + j] as int]);
        }
    }
    assert(joined =~= both.0@);
}

proof fn lemma_victims(entries: Seq<CacheEntrySummary>, n: int, hashes: Seq<String>)
    requires
        crate::entries::are_victims(entries, n, hashes),
    ensures
        hashes.len() == if n < entries.len() {
            n
        } else {
            entries.len() as int
        },
        exists|order: Seq<int>| #[trigger]
            is_by_value(entries, order) && forall|k: int|
                0 <= k < hashes.len() ==> (#[trigger] hashes[k])@
                    == entries[order[k]].request_hash@,
{
    let keys = crate::entries::value_keys(entries);
    let ranks = crate::entries::eviction_order(entries);
    let order = places(ranks);
    lemma_places(keys, true, ranks);
    assert forall|a: int, b: int|
        #![trigger order[a], order[b]]
        0 <= a < b < order.len() implies {
        let x = entries[order[a]];
        let y = entries[order[b]];
        ||| x.hit_count < y.hit_count
        ||| x.hit_count == y.hit_count && x.last_accessed_at < y.last_accessed_at
        ||| x.hit_count == y.hit_count && x.last_accessed_at == y.last_accessed_at && order[a]
            < order[b]
    } by {
        assert(crate::order::precedes(keys, true, ranks[a] as int, ranks[b] as int));
        assert(keys[order[a]] == crate::entries::value_key(entries[order[a]]));
        assert(keys[order[b]] == crate::entries::value_key(entries[order[b]]));
    }
    assert(is_by_value(entries, order));
    assert forall|k: int| 0 <= k < hashes.len() implies (#[trigger] hashes[k])@
        == entries[order[k]].request_hash@ by {
        assert(order[k] == ranks[k]);
    }
}

/// As many entries as asked for are named, or all, from the least valuable on.
pub proof fn victims_are_the_least_valuable(
    entries: &Vec<CacheEntrySummary>,
    n: u64,
    hashes: Vec<String>,
)
    requires
        call_ensures(victims, (entries, n), hashes),
    ensures
        hashes@.len() == if n < entries@.len() {
            n as int
        } else {
            entries@.len() as int
        },
        exists|order: Seq<int>| #[trigger]
            is_by_value(entries@, order) && forall|k: int|
                0 <= k < hashes@.len() ==> (#[trigger] hashes@[k])@
                    == entries@[order[k]].request_hash@,
{
    lemma_victims(entries@, n as int, hashes@);
}

/// Whatever makes entries go, the least valuable go first.
pub proof fn evicted_entries_are_the_least_valuable(
    provider: &CachingAiProvider,
    cause: EvictionCause,
    entries: &Vec<CacheEntrySummary>,
    hashes: Vec<String>,
)
    requires
        call_ensures(CachingAiProvider::maybe_evict, (provider, cause, entries), hashes),
    ensures
        exists|order: Seq<int>| #[trigger]
            is_by_value(entries@, order) && forall|k: int|
                0 <= k < hashes@.len() ==> (#[trigger] hashes@[k])@
                    == entries@[order[k]].request_hash@,
{
    lemma_victims(
        entries@,
        crate::provider::eviction_count(
            provider.max_entries,
            provider.max_size_mb,
            cause,
            Some(entries@.len() as u64),
        ),
        hashes@,
    );
}

/// The sum of some numbers.
pub open spec fn sum(numbers: Seq<int>) -> int {
    numbers.fold_left(0int, |a: int, b: int| a + b)
}

/// The tokens that the hits on each entry saved.
pub open spec fn saved_by_hits(entries: Seq<CacheEntrySummary>) -> Seq<int> {
    entries.map_values(|e: CacheEntrySummary| e.tokens_saved * e.hit_count)
}

/// The tokens that one hit on each entry saves.
pub open spec fn saved_by_one_hit(entries: Seq<CacheEntrySummary>) -> Seq<int> {
    entries.map_values(|e: CacheEntrySummary| e.tokens_saved as int)
}

/// The hits on each entry.
pub open spec fn hits(entries: Seq<CacheEntrySummary>) -> Seq<int> {
    entries.map_values(|e: CacheEntrySummary| e.hit_count as int)
}

proof fn lemma_sums(entries: Seq<CacheEntrySummary>)
    ensures
        crate::overview::saved_total(entries) == sum(saved_by_hits(entries)),
        crate::overview::tokens_total(entries) == sum(saved_by_one_hit(entries)),
        crate::overview::hits_total(entries) == sum(hits(entries)),
    decreases entries.len(),
{
    reveal(Seq::fold_left);
    if entries.len() > 0 {
        let front = entries.drop_last();
        lemma_sums(front);
        assert(saved_by_hits(entries).drop_last() =~= saved_by_hits(front));
        assert(saved_by_one_hit(entries).drop_last() =~= saved_by_one_hit(front));
        assert(hits(entries).drop_last() =~= hits(front));
    }
}

proof fn lemma_sum_add(a: Seq<int>, b: Seq<int>)
    ensures
        sum(a + b) == sum(a) + sum(b),
    decreases b.len(),
{
    reveal(Seq::fold_left);
    if b.len() == 0 {
        assert(a + b =~= a);
    } else {
        lemma_sum_add(a, b.drop_last());
        assert((a + b).drop_last() =~= a + b.drop_last());
    }
}

proof fn lemma_sum_one(x: int)
    ensures
        sum(seq![x]) == x,
{
    reveal_with_fuel(Seq::fold_left, 2);
    assert(seq![x].drop_last() =~= Seq::empty());
}

/// The number is a 64-bit one.
pub open spec fn is_in_range(n: int) -> bool {
    -0x8000_0000_0000_0000 <= n <= 0x7fff_ffff_ffff_ffff
}

/// The totals are sums over the entries: of the tokens of each times its hits, of
/// the tokens of each, and of the hits. They come out unless one of them is out of
/// range after some of the entries; one below zero shows its bits.
pub proof fn totals_are_sums(
    entries: &Vec<CacheEntrySummary>,
    db_size_bytes: u64,
    max_entries: u64,
    max_size_mb: u64,
    r: Result<CacheOverview, TotalOverflow>,
)
    requires
        call_ensures(query_cache_overview, (entries, db_size_bytes, max_entries, max_size_mb), r),
    ensures
        r is Ok <==> forall|n: int|
            0 <= n <= entries@.len() ==> {
                let some = #[trigger] entries@.take(n);
                &&& is_in_range(sum(saved_by_hits(some)))
                &&& is_in_range(sum(saved_by_one_hit(some)))
                &&& is_in_range(sum(hits(some)))
            },
        r matches Ok(o) ==> {
            &&& o.total_entries == entries@.len()
            &&& o.lifetime_tokens_saved == sum(saved_by_hits(entries@)) % 0x1_0000_0000_0000_0000
            &&& o.tokens_stored == sum(saved_by_one_hit(entries@)) % 0x1_0000_0000_0000_0000
            &&& o.lifetime_hits == sum(hits(entries@)) % 0x1_0000_0000_0000_0000
            &&& o.db_size_bytes == db_size_bytes
            &&& o.max_entries == max_entries
            &&& o.max_size_mb == max_size_mb
        },
{
    lemma_sums(entries@);
    assert(entries@.take(entries@.len() as int) =~= entries@);
    if r is Ok {
        assert(crate::overview::totals_fit(entries@, entries@.len() as int));
        assert forall|n: int| 0 <= n <= entries@.len() implies {
            let some = #[trigger] entries@.take(n);
            &&& is_in_range(sum(saved_by_hits(some)))
            &&& is_in_range(sum(saved_by_one_hit(some)))
            &&& is_in_range(sum(hits(some)))
        } by {
            assert(crate::overview::totals_fit(entries@, n));
            lemma_sums(entries@.take(n));
        }
    } else {
        let n = choose|n: int|
            0 <= n <= entries@.len() && !#[trigger] crate::overview::totals_fit(entries@, n);
        lemma_sums(entries@.take(n));
        let some = entries@.take(n);
        assert(!(is_in_range(sum(saved_by_hits(some))) && is_in_range(sum(saved_by_one_hit(some)))
            && is_in_range(sum(hits(some)))));
    }
}

/// One more hit on an entry adds the tokens of the entry to the tokens saved, and
/// one to the hits, however often it was hit before.
pub proof fn a_hit_saves_the_tokens_of_its_entry(
    before: &Vec<CacheEntrySummary>,
    after: &Vec<CacheEntrySummary>,
    i: int,
    db_size_bytes: u64,
    max_entries: u64,
    max_size_mb: u64,
    r1: CacheOverview,
    r2: CacheOverview,
)
    requires
        0 <= i < before@.len(),
        before@[i].hit_count < i64::MAX,
        after@ == before@.update(
            i,
            CacheEntrySummary { hit_count: (before@[i].hit_count + 1) as i64, ..before@[i] },
        ),
        call_ensures(
            query_cache_overview,
            (before, db_size_bytes, max_entries, max_size_mb),
            Ok(r1),
        ),
        call_ensures(
            query_cache_overview,
            (after, db_size_bytes, max_entries, max_size_mb),
            Ok(r2),
        ),
    ensures
        r2.lifetime_tokens_saved == (r1.lifetime_tokens_saved + before@[i].tokens_saved)
            % 0x1_0000_0000_0000_0000,
        r2.lifetime_hits == (r1.lifetime_hits + 1) % 0x1_0000_0000_0000_0000,
        r2.tokens_stored == r1.tokens_stored,
        r2.total_entries == r1.total_entries,
{
    totals_are_sums(before, db_size_bytes, max_entries, max_size_mb, Ok(r1));
    totals_are_sums(after, db_size_bytes, max_entries, max_size_mb, Ok(r2));
    let x = before@[i];
    let y = after@[i];
    lemma_sum_update(saved_by_hits(before@), i, y.tokens_saved * y.hit_count);
    lemma_sum_update(hits(before@), i, y.hit_count as int);
    assert(saved_by_hits(before@).update(i, y.tokens_saved * y.hit_count) =~= saved_by_hits(after@));
    assert(hits(before@).update(i, y.hit_count as int) =~= hits(after@));
    assert(saved_by_one_hit(before@) =~= saved_by_one_hit(after@));
    assert(y.tokens_saved * y.hit_count == x.tokens_saved * x.hit_count + x.tokens_saved)
        by (nonlinear_arith)
        requires
            y.tokens_saved == x.tokens_saved,
            y.hit_count == x.hit_count + 1,
    ;
}

proof fn lemma_sum_update(numbers: Seq<int>, i: int, x: int)
    requires
        0 <= i < numbers.len(),
    ensures
        sum(numbers.update(i, x)) == sum(numbers) - numbers[i] + x,
{
    let before = numbers.take(i);
    let after = numbers.skip(i + 1);
    assert(numbers =~= before + seq![numbers[i]] + after);
    assert(numbers.update(i, x) =~= before + seq![x] + after);
    lemma_sum_add(before + seq![numbers[i]], after);
    lemma_sum_add(before, seq![numbers[i]]);
    lemma_sum_add(before + seq![x], after);
    lemma_sum_add(before, seq![x]);
    lemma_sum_one(numbers[i]);
    lemma_sum_one(x);
}

/// Without hits no tokens were saved; and one entry alone saved its tokens with
/// each of its hits.
pub proof fn only_hits_save_tokens(
    entries: &Vec<CacheEntrySummary>,
    db_size_bytes: u64,
    max_entries: u64,
    max_size_mb: u64,
    r: CacheOverview,
)
    requires
        call_ensures(
            query_cache_overview,
            (entries, db_size_bytes, max_entries, max_size_mb),
            Ok(r),
        ),
    ensures
        (forall|i: int| 0 <= i < entries@.len() ==> (#[trigger] entries@[i]).hit_count == 0)
            ==> r.lifetime_tokens_saved == 0 && r.lifetime_hits == 0,
        entries@.len() == 1 ==> r.lifetime_tokens_saved == (entries@[0].tokens_saved
            * entries@[0].hit_count) % 0x1_0000_0000_0000_0000,
{
    totals_are_sums(entries, db_size_bytes, max_entries, max_size_mb, Ok(r));
    if forall|i: int| 0 <= i < entries@.len() ==> (#[trigger] entries@[i]).hit_count == 0 {
        let saved = saved_by_hits(entries@);
        assert forall|i: int| 0 <= i < saved.len() implies #[trigger] saved[i] == 0 by {
            assert(entries@[i].hit_count == 0);
            assert(entries@[i].tokens_saved * 0 == 0);
        }
        lemma_sum_of_zeros(saved);
        assert forall|i: int| 0 <= i < entries@.len() implies #[trigger] hits(entries@)[i] == 0 by {
            assert(entries@[i].hit_count == 0);
        }
        lemma_sum_of_zeros(hits(entries@));
    }
    if entries@.len() == 1 {
        let x = entries@[0].tokens_saved * entries@[0].hit_count;
        assert(saved_by_hits(entries@) =~= seq![x]);
        lemma_sum_one(x);
    }
}

proof fn lemma_sum_of_zeros(numbers: Seq<int>)
    requires
        forall|i: int| 0 <= i < numbers.len() ==> #[trigger] numbers[i] == 0,
    ensures
        sum(numbers) == 0,
    decreases numbers.len(),
{
    reveal(Seq::fold_left);
    if numbers.len() > 0 {
        assert(numbers[numbers.len() - 1] == 0);
        lemma_sum_of_zeros(numbers.drop_last());
    }
}

/// The totals of two caches together are the sums of their totals.
pub proof fn totals_of_two_caches_add_up(
    first: &Vec<CacheEntrySummary>,
    second: &Vec<CacheEntrySummary>,
    both: &Vec<CacheEntrySummary>,
    db_size_bytes: u64,
    max_entries: u64,
    max_size_mb: u64,
    r1: CacheOverview,
    r2: CacheOverview,
    r: CacheOverview,
)
    requires
        both@ == first@ + second@,
        call_ensures(
            query_cache_overview,
            (first, db_size_bytes, max_entries, max_size_mb),
            Ok(r1),
        ),
        call_ensures(
            query_cache_overview,
            (second, db_size_bytes, max_entries, max_size_mb),
            Ok(r2),
        ),
        call_ensures(query_cache_overview, (both, db_size_bytes, max_entries, max_size_mb), Ok(r)),
    ensures
        r.total_entries == r1.total_entries + r2.total_entries,
        r.lifetime_tokens_saved == (r1.lifetime_tokens_saved + r2.lifetime_tokens_saved)
            % 0x1_0000_0000_0000_0000,
        r.tokens_stored == (r1.tokens_stored + r2.tokens_stored) % 0x1_0000_0000_0000_0000,
        r.lifetime_hits == (r1.lifetime_hits + r2.lifetime_hits) % 0x1_0000_0000_0000_0000,
{
    lemma_totals(first, db_size_bytes, max_entries, max_size_mb, r1);
    lemma_totals(second, db_size_bytes, max_entries, max_size_mb, r2);
    lemma_totals(both, db_size_bytes, max_entries, max_size_mb, r);
    lemma_sums_of_two(first@, second@);
    lemma_wrapped_add(sum(saved_by_hits(first@)), sum(saved_by_hits(second@)));
    lemma_wrapped_add(sum(saved_by_one_hit(first@)), sum(saved_by_one_hit(second@)));
    lemma_wrapped_add(sum(hits(first@)), sum(hits(second@)));
}

proof fn lemma_sums_of_two(first: Seq<CacheEntrySummary>, second: Seq<CacheEntrySummary>)
    ensures
        sum(saved_by_hits(first + second)) == sum(saved_by_hits(first)) + sum(
            saved_by_hits(second),
        ),
        sum(saved_by_one_hit(first + second)) == sum(saved_by_one_hit(first)) + sum(
            saved_by_one_hit(second),
        ),
        sum(hits(first + second)) == sum(hits(first)) + sum(hits(second)),
{
    let both = first + second;
    lemma_sum_add(saved_by_hits(first), saved_by_hits(second));
    lemma_sum_add(saved_by_one_hit(first), saved_by_one_hit(second));
    lemma_sum_add(hits(first), hits(second));
    assert(saved_by_hits(both) =~= saved_by_hits(first) + saved_by_hits(second));
    assert(saved_by_one_hit(both) =~= saved_by_one_hit(first) + saved_by_one_hit(second));
    assert(hits(both) =~= hits(first) + hits(second));
}

proof fn lemma_wrapped_add(a: int, b: int)
    ensures
        (a + b) % 0x1_0000_0000_0000_0000 == (a % 0x1_0000_0000_0000_0000 + b
            % 0x1_0000_0000_0000_0000) % 0x1_0000_0000_0000_0000,
{
    vstd::arithmetic::div_mod::lemma_add_mod_noop(a, b, 0x1_0000_0000_0000_0000);
}

proof fn lemma_totals(
    entries: &Vec<CacheEntrySummary>,
    db_size_bytes: u64,
    max_entries: u64,
    max_size_mb: u64,
    o: CacheOverview,
)
    requires
        call_ensures(
            query_cache_overview,
            (entries, db_size_bytes, max_entries, max_size_mb),
            Ok(o),
        ),
    ensures
        o.total_entries == entries@.len(),
        o.lifetime_tokens_saved == sum(saved_by_hits(entries@)) % 0x1_0000_0000_0000_0000,
        o.tokens_stored == sum(saved_by_one_hit(entries@)) % 0x1_0000_0000_0000_0000,
        o.lifetime_hits == sum(hits(entries@)) % 0x1_0000_0000_0000_0000,
{
    totals_are_sums(entries, db_size_bytes, max_entries, max_size_mb, Ok(o));
}

/// How many of the entries have the given model.
pub open spec fn with_model(entries: Seq<CacheEntrySummary>, model: Seq<char>) -> nat {
    entries.filter(|e: CacheEntrySummary| e.model@ == model).len()
}

proof fn lemma_entries_of_model(entries: Seq<CacheEntrySummary>, model: Seq<char>)
    ensures
        crate::overview::entries_of(entries, model) == with_model(entries, model),
    decreases entries.len(),
{
    reveal(Seq::filter);
    if entries.len() > 0 {
        lemma_entries_of_model(entries.drop_last(), model);
    }
}

/// Every model of an entry is listed once, with the number of its entries, and
/// nothing else is; models with more entries come first.
pub proof fn models_are_counted(
    entries: &Vec<CacheEntrySummary>,
    db_size_bytes: u64,
    max_entries: u64,
    max_size_mb: u64,
    r: CacheOverview,
)
    requires
        call_ensures(
            query_cache_overview,
            (entries, db_size_bytes, max_entries, max_size_mb),
            Ok(r),
        ),
    ensures
        forall|k: int|
            0 <= k < r.entries_by_model@.len() ==> {
                let listed = #[trigger] r.entries_by_model@[k];
                &&& listed.count > 0
                &&& listed.count == with_model(entries@, listed.model@)
            },
        forall|i: int|
            0 <= i < entries@.len() ==> exists|k: int|
                0 <= k < r.entries_by_model@.len() && (#[trigger] r.entries_by_model@[k]).model@ == (
                #[trigger] entries@[i]).model@,
        forall|a: int, b: int|
            #![trigger r.entries_by_model@[a], r.entries_by_model@[b]]
            0 <= a < b < r.entries_by_model@.len() ==> r.entries_by_model@[a].model@
                != r.entries_by_model@[b].model@ && r.entries_by_model@[a].count
                >= r.entries_by_model@[b].count,
{
    let listed = r.entries_by_model@;
    crate::overview::model_counts_add_up(entries@, listed);
    assert forall|k: int| 0 <= k < listed.len() implies {
        let one = #[trigger] listed[k];
        &&& one.count > 0
        &&& one.count == with_model(entries@, one.model@)
    } by {
        lemma_entries_of_model(entries@, listed[k].model@);
    }
    assert forall|i: int| 0 <= i < entries@.len() implies exists|k: int|
        0 <= k < listed.len() && (#[trigger] listed[k]).model@ == (#[trigger] entries@[i]).model@ by {
        assert(crate::overview::lists_model(listed, entries@[i].model@));
    }
}

/// The entries with a number of hits from `low` to `high`.
pub open spec fn hit_between(entries: Seq<CacheEntrySummary>, low: int, high: int) -> nat {
    entries.filter(|e: CacheEntrySummary| low <= e.hit_count <= high).len()
}

proof fn lemma_ranges(entries: Seq<CacheEntrySummary>)
    ensures
        crate::overview::entries_in(entries, "0"@) == hit_between(entries, 0, 0),
        crate::overview::entries_in(entries, "1-5"@) == hit_between(entries, 1, 5),
        crate::overview::entries_in(entries, "6-20"@) == hit_between(entries, 6, 20),
        crate::overview::entries_in(entries, "21+"@) == hit_between(
            entries,
            21,
            0x7fff_ffff_ffff_ffff,
        ) + hit_between(entries, -0x8000_0000_0000_0000, -1),
    decreases entries.len(),
{
    reveal(Seq::filter);
    reveal_strlit("0");
    reveal_strlit("1-5");
    reveal_strlit("6-20");
    reveal_strlit("21+");
    assert("0"@.len() == 1 && "1-5"@.len() == 3 && "6-20"@.len() == 4 && "21+"@.len() == 3);
    assert("1-5"@[0] != "21+"@[0]);
    if entries.len() > 0 {
        lemma_ranges(entries.drop_last());
    }
}

/// A range of hits is listed if any entry falls into it, with the number of those
/// that do; and the ranges stand in order. Counts below zero, which belong nowhere,
/// are taken with the highest.
pub proof fn hits_are_distributed(
    entries: &Vec<CacheEntrySummary>,
    db_size_bytes: u64,
    max_entries: u64,
    max_size_mb: u64,
    r: CacheOverview,
)
    requires
        call_ensures(
            query_cache_overview,
            (entries, db_size_bytes, max_entries, max_size_mb),
            Ok(r),
        ),
    ensures
        forall|k: int|
            0 <= k < r.hit_distribution@.len() ==> {
                let listed = #[trigger] r.hit_distribution@[k];
                &&& listed.count > 0
                &&& {
                    ||| listed.bucket@ == "0"@ && listed.count == hit_between(entries@, 0, 0)
                    ||| listed.bucket@ == "1-5"@ && listed.count == hit_between(entries@, 1, 5)
                    ||| listed.bucket@ == "6-20"@ && listed.count == hit_between(entries@, 6, 20)
                    ||| listed.bucket@ == "21+"@ && listed.count == hit_between(
                        entries@,
                        21,
                        0x7fff_ffff_ffff_ffff,
                    ) + hit_between(entries@, -0x8000_0000_0000_0000, -1)
                }
            },
        forall|i: int|
            0 <= i < entries@.len() ==> exists|k: int|
                0 <= k < r.hit_distribution@.len() && (#[trigger] r.hit_distribution@[k]).bucket@
                    == if (#[trigger] entries@[i]).hit_count == 0 {
                    "0"@
                } else if 1 <= entries@[i].hit_count <= 5 {
                    "1-5"@
                } else if 6 <= entries@[i].hit_count <= 20 {
                    "6-20"@
                } else {
                    "21+"@
                },
        (forall|i: int| 0 <= i < entries@.len() ==> (#[trigger] entries@[i]).hit_count >= 0)
            ==> forall|a: int, b: int|
            #![trigger r.hit_distribution@[a], r.hit_distribution@[b]]
            0 <= a < b < r.hit_distribution@.len() ==> {
                let x = r.hit_distribution@[a].bucket@;
                let y = r.hit_distribution@[b].bucket@;
                ||| x == "0"@ && y != "0"@
                ||| x == "1-5"@ && (y == "6-20"@ || y == "21+"@)
                ||| x == "6-20"@ && y == "21+"@
            },
        (exists|i: int| 0 <= i < entries@.len() && (#[trigger] entries@[i]).hit_count < 0)
            ==> forall|a: int, b: int|
            #![trigger r.hit_distribution@[a], r.hit_distribution@[b]]
            0 <= a < b < r.hit_distribution@.len() ==> {
                let x = r.hit_distribution@[a].bucket@;
                let y = r.hit_distribution@[b].bucket@;
                ||| x == "21+"@ && y != "21+"@
                ||| x == "0"@ && (y == "1-5"@ || y == "6-20"@)
                ||| x == "1-5"@ && y == "6-20"@
            },
{
    let listed = r.hit_distribution@;
    lemma_ranges(entries@);
    crate::overview::hit_distribution_adds_up(entries@, listed);
    assert forall|k: int| 0 <= k < listed.len() implies {
        let one = #[trigger] listed[k];
        &&& one.count > 0
        &&& {
            ||| one.bucket@ == "0"@
            ||| one.bucket@ == "1-5"@
            ||| one.bucket@ == "6-20"@
            ||| one.bucket@ == "21+"@
        }
    } by {
        crate::overview::lemma_entries_in_bound(entries@, listed[k].bucket@);
    }
    assert forall|i: int| 0 <= i < entries@.len() implies exists|k: int|
        0 <= k < listed.len() && (#[trigger] listed[k]).bucket@ == if (
        #[trigger] entries@[i]).hit_count == 0 {
            "0"@
        } else if 1 <= entries@[i].hit_count <= 5 {
            "1-5"@
        } else if 6 <= entries@[i].hit_count <= 20 {
            "6-20"@
        } else {
            "21+"@
        } by {
        assert(crate::overview::lists_bucket(
            listed,
            crate::overview::hit_bucket(entries@[i].hit_count),
        ));
    }
    if forall|i: int| 0 <= i < entries@.len() ==> (#[trigger] entries@[i]).hit_count >= 0 {
        assert forall|a: int, b: int|
            #![trigger listed[a], listed[b]]
            0 <= a < b < listed.len() implies {
            let x = listed[a].bucket@;
            let y = listed[b].bucket@;
            ||| x == "0"@ && y != "0"@
            ||| x == "1-5"@ && (y == "6-20"@ || y == "21+"@)
            ||| x == "6-20"@ && y == "21+"@
        } by {
            crate::overview::lemma_entries_in_bound(entries@, listed[b].bucket@);
            lemma_lower_range(entries@, listed[a].bucket@, listed[b].bucket@);
        }
    }
    if exists|i: int| 0 <= i < entries@.len() && (#[trigger] entries@[i]).hit_count < 0 {
        assert forall|a: int, b: int|
            #![trigger listed[a], listed[b]]
            0 <= a < b < listed.len() implies {
            let x = listed[a].bucket@;
            let y = listed[b].bucket@;
            ||| x == "21+"@ && y != "21+"@
            ||| x == "0"@ && (y == "1-5"@ || y == "6-20"@)
            ||| x == "1-5"@ && y == "6-20"@
        } by {
            crate::overview::lemma_entries_in_bound(entries@, listed[b].bucket@);
            lemma_lower_range_below_zero(entries@, listed[a].bucket@, listed[b].bucket@);
        }
    }
}

proof fn lemma_lower_range_below_zero(entries: Seq<CacheEntrySummary>, x: Seq<char>, y: Seq<char>)
    requires
        exists|i: int| 0 <= i < entries.len() && (#[trigger] entries[i]).hit_count < 0,
        crate::overview::reaches_lower(entries, x, y),
        exists|j: int|
            0 <= j < entries.len() && crate::overview::hit_bucket((#[trigger] entries[j]).hit_count)
                == y,
    ensures
        x == "21+"@ && y != "21+"@ || x == "0"@ && (y == "1-5"@ || y == "6-20"@) || x == "1-5"@ && y
            == "6-20"@,
{
    let low = choose|i: int| 0 <= i < entries.len() && (#[trigger] entries[i]).hit_count < 0;
    let j = choose|j: int|
        0 <= j < entries.len() && crate::overview::hit_bucket((#[trigger] entries[j]).hit_count)
            == y;
    let i = choose|i: int|
        0 <= i < entries.len() && crate::overview::hit_bucket((#[trigger] entries[i]).hit_count)
            == x && (forall|j: int|
            0 <= j < entries.len() && crate::overview::hit_bucket((#[trigger] entries[j]).hit_count)
                == y ==> entries[i].hit_count < entries[j].hit_count);
    assert(entries[i].hit_count < entries[j].hit_count);
    assert(crate::overview::hit_bucket(entries[low].hit_count) == "21+"@);
    assert(crate::overview::hit_bucket(entries[i].hit_count) == x);
    reveal_strlit("0");
    reveal_strlit("1-5");
    reveal_strlit("6-20");
    reveal_strlit("21+");
    assert("0"@.len() == 1 && "1-5"@.len() == 3 && "6-20"@.len() == 4 && "21+"@.len() == 3);
    assert("1-5"@[0] != "21+"@[0]);
}

proof fn lemma_lower_range(entries: Seq<CacheEntrySummary>, x: Seq<char>, y: Seq<char>)
    requires
        forall|i: int| 0 <= i < entries.len() ==> (#[trigger] entries[i]).hit_count >= 0,
        crate::overview::reaches_lower(entries, x, y),
        exists|j: int|
            0 <= j < entries.len() && crate::overview::hit_bucket((#[trigger] entries[j]).hit_count)
                == y,
    ensures
        x == "0"@ && y != "0"@ || x == "1-5"@ && (y == "6-20"@ || y == "21+"@) || x == "6-20"@ && y
            == "21+"@,
{
    let j = choose|j: int|
        0 <= j < entries.len() && crate::overview::hit_bucket((#[trigger] entries[j]).hit_count)
            == y;
    let i = choose|i: int|
        0 <= i < entries.len() && crate::overview::hit_bucket((#[trigger] entries[i]).hit_count)
            == x && (forall|j: int|
            0 <= j < entries.len() && crate::overview::hit_bucket((#[trigger] entries[j]).hit_count)
                == y ==> entries[i].hit_count < entries[j].hit_count);
    assert(entries[i].hit_count < entries[j].hit_count);
    assert(entries[i].hit_count >= 0);
    reveal_strlit("0");
    reveal_strlit("1-5");
    reveal_strlit("6-20");
    reveal_strlit("21+");
    assert("0"@.len() == 1 && "1-5"@.len() == 3 && "6-20"@.len() == 4 && "21+"@.len() == 3);
    assert("1-5"@[0] != "21+"@[0]);
}

} // verus!
