//! The entries of the cache as the dashboard lists them, and which of them are
//! dropped.

use vstd::prelude::*;
use crate::order::rank;

verus! {

/// An entry without the request and the response that it holds.
#[derive(Debug)]
pub struct CacheEntrySummary {
    pub request_hash: String,
    pub provider: String,
    pub model: String,
    /// The label that the request was logged under.
    pub context: String,
    pub tokens_saved: i64,
    pub hit_count: i64,
    pub created_at: i64,
    pub last_accessed_at: i64,
}

impl Clone for CacheEntrySummary {
    fn clone(&self) -> (r: Self)
        ensures
            r == *self,
    {
        CacheEntrySummary {
            request_hash: self.request_hash.clone(),
            provider: self.provider.clone(),
            model: self.model.clone(),
            context: self.context.clone(),
            tokens_saved: self.tokens_saved,
            hit_count: self.hit_count,
            created_at: self.created_at,
            last_accessed_at: self.last_accessed_at,
        }
    }
}

/// The columns of an entry as the database hands them out, each of which may be
/// unreadable.
#[derive(Debug)]
pub struct EntryRow {
    pub request_hash: Option<String>,
    pub provider: Option<String>,
    pub model: Option<String>,
    pub context: Option<String>,
    pub tokens_saved: Option<i64>,
    pub hit_count: Option<i64>,
    pub created_at: Option<i64>,
    pub last_accessed_at: Option<i64>,
}

/// The text of a column, or nothing where it cannot be read.
pub open spec fn text_or_empty(column: Option<String>) -> Seq<char> {
    match column {
        Some(s) => s@,
        None => Seq::empty(),
    }
}

/// The number in a column, or zero where it cannot be read.
pub open spec fn number_or_zero(column: Option<i64>) -> i64 {
    match column {
        Some(n) => n,
        None => 0,
    }
}

fn readable_text(column: Option<String>) -> (s: String)
    ensures
        s@ == text_or_empty(column),
{
    match column {
        Some(s) => s,
        None => String::new(),
    }
}

fn readable_number(column: Option<i64>) -> (n: i64)
    ensures
        n == number_or_zero(column),
{
    match column {
        Some(n) => n,
        None => 0,
    }
}

impl EntryRow {
    /// The entry in this row, with empty texts and zeros for what cannot be read.
    pub fn summary(self) -> (r: CacheEntrySummary)
        ensures
            r.request_hash@ == text_or_empty(self.request_hash),
            r.provider@ == text_or_empty(self.provider),
            r.model@ == text_or_empty(self.model),
            r.context@ == text_or_empty(self.context),
            r.tokens_saved == number_or_zero(self.tokens_saved),
            r.hit_count == number_or_zero(self.hit_count),
            r.created_at == number_or_zero(self.created_at),
            r.last_accessed_at == number_or_zero(self.last_accessed_at),
            self.request_hash matches Some(text) ==> r.request_hash@ == text@,
            self.request_hash is None ==> r.request_hash@.len() == 0,
            self.provider matches Some(text) ==> r.provider@ == text@,
            self.provider is None ==> r.provider@.len() == 0,
            self.model matches Some(text) ==> r.model@ == text@,
            self.model is None ==> r.model@.len() == 0,
            self.context matches Some(text) ==> r.context@ == text@,
            self.context is None ==> r.context@.len() == 0,
            self.tokens_saved matches Some(n) ==> r.tokens_saved == n,
            self.tokens_saved is None ==> r.tokens_saved == 0,
            self.hit_count matches Some(n) ==> r.hit_count == n,
            self.hit_count is None ==> r.hit_count == 0,
            self.created_at matches Some(n) ==> r.created_at == n,
            self.created_at is None ==> r.created_at == 0,
            self.last_accessed_at matches Some(n) ==> r.last_accessed_at == n,
            self.last_accessed_at is None ==> r.last_accessed_at == 0,
    {
        CacheEntrySummary {
            request_hash: readable_text(self.request_hash),
            provider: readable_text(self.provider),
            model: readable_text(self.model),
            context: readable_text(self.context),
            tokens_saved: readable_number(self.tokens_saved),
            hit_count: readable_number(self.hit_count),
            created_at: readable_number(self.created_at),
            last_accessed_at: readable_number(self.last_accessed_at),
        }
    }
}

/// The columns that a listing can be sorted by.
#[derive(Clone, Copy, Debug, PartialEq, Eq, Structural)]
pub enum SortColumn {
    HitCount,
    TokensSaved,
    LastAccessedAt,
    CreatedAt,
}

/// The column that a name asks for. Names that are not known ask for the number
/// of hits.
pub open spec fn named_column(name: Seq<char>) -> SortColumn {
    if name == "tokens_saved"@ {
        SortColumn::TokensSaved
    } else if name == "last_accessed_at"@ {
        SortColumn::LastAccessedAt
    } else if name == "created_at"@ {
        SortColumn::CreatedAt
    } else {
        SortColumn::HitCount
    }
}

/// What an entry is listed by.
pub open spec fn column_key(entry: CacheEntrySummary, column: SortColumn) -> (i128, i128) {
    (
        match column {
            SortColumn::HitCount => entry.hit_count,
            SortColumn::TokensSaved => entry.tokens_saved,
            SortColumn::LastAccessedAt => entry.last_accessed_at,
            SortColumn::CreatedAt => entry.created_at,
        } as i128,
        0,
    )
}

/// What an entry is worth keeping for: how often it was hit and, between entries
/// hit equally often, how lately.
pub open spec fn value_key(entry: CacheEntrySummary) -> (i128, i128) {
    (entry.hit_count as i128, entry.last_accessed_at as i128)
}

/// The sort keys of a listing.
pub open spec fn column_keys(entries: Seq<CacheEntrySummary>, column: SortColumn) -> Seq<
    (i128, i128),
> {
    entries.map_values(|e: CacheEntrySummary| column_key(e, column))
}

/// The values of all entries.
pub open spec fn value_keys(entries: Seq<CacheEntrySummary>) -> Seq<(i128, i128)> {
    entries.map_values(|e: CacheEntrySummary| value_key(e))
}

/// `listed` holds up to `per_page` entries, from place `offset` of `ranks` on.
pub open spec fn is_page(
    entries: Seq<CacheEntrySummary>,
    ranks: Seq<usize>,
    offset: int,
    per_page: int,
    listed: Seq<CacheEntrySummary>,
) -> bool {
    &&& listed.len() == if offset >= entries.len() {
        0
    } else if per_page < entries.len() - offset {
        per_page
    } else {
        entries.len() - offset
    }
    &&& forall|k: int|
        0 <= k < listed.len() ==> #[trigger] listed[k] == entries[ranks[offset + k] as int]
}

/// How many entries come before a page. Pages count from one; page zero is the
/// first page too.
pub open spec fn page_offset(page: u32, per_page: u32) -> int {
    (if page == 0 {
        0int
    } else {
        page - 1
    }) * per_page
}

fn sort_column(name: &str) -> (c: SortColumn)
    ensures
        c == named_column(name@),
{
    let name = name.to_owned();
    if name == "tokens_saved".to_owned() {
        SortColumn::TokensSaved
    } else if name == "last_accessed_at".to_owned() {
        SortColumn::LastAccessedAt
    } else if name == "created_at".to_owned() {
        SortColumn::CreatedAt
    } else {
        SortColumn::HitCount
    }
}

/// One page of the listing, with the number of all entries. The listing is
/// sorted by the named column, downwards unless `sort_order` is `asc`; entries
/// that are equal in it keep their order in the table.
pub fn query_cache_entries(
    entries: &Vec<CacheEntrySummary>,
    page: u32,
    per_page: u32,
    sort_by: &str,
    sort_order: &str,
) -> (r: (Vec<CacheEntrySummary>, u64))
    requires
        page_offset(page, per_page) <= u32::MAX,
    ensures
        crate::order::ranks_all(
            column_keys(entries@, named_column(sort_by@)),
            sort_order@ == "asc"@,
            crate::order::ranking(
                column_keys(entries@, named_column(sort_by@)),
                sort_order@ == "asc"@,
            ),
        ),
        is_page(
            entries@,
            crate::order::ranking(
                column_keys(entries@, named_column(sort_by@)),
                sort_order@ == "asc"@,
            ),
            page_offset(page, per_page),
            per_page as int,
            r.0@,
        ),
        r.1 == entries@.len(),
{
    let column = sort_column(sort_by);
    let ascending = sort_order.to_owned() == "asc".to_owned();
    let mut keys: Vec<(i128, i128)> = Vec::new();
    let mut i: usize = 0;
    while i < entries.len()
        invariant
            i <= entries@.len(),
            keys@.len() == i,
            forall|j: int|
                0 <= j < i ==> #[trigger] keys@[j] == column_key(entries@[j], column),
        decreases entries@.len() - i,
    {
        let e = &entries[i];
        let value: i64 = match column {
            SortColumn::HitCount => e.hit_count,
            SortColumn::TokensSaved => e.tokens_saved,
            SortColumn::LastAccessedAt => e.last_accessed_at,
            SortColumn::CreatedAt => e.created_at,
        };
        keys.push((value as i128, 0));
        i = i + 1;
    }
    assert(keys@ =~= column_keys(entries@, column));
    let ranks = rank(&keys, ascending);
    let first: u32 = if page == 0 { 0 } else { page - 1 };
    let offset: usize = (first * per_page) as usize;
    let mut listed: Vec<CacheEntrySummary> = Vec::new();
    let mut k: usize = 0;
    while k < per_page as usize && offset < entries.len() && k < entries.len() - offset
        invariant
            ranks@.len() == entries@.len(),
            forall|a: int| 0 <= a < ranks@.len() ==> #[trigger] ranks@[a] < entries@.len(),
            k <= per_page,
            offset < entries@.len() ==> k <= entries@.len() - offset,
            offset >= entries@.len() ==> k == 0,
            listed@.len() == k,
            forall|j: int|
                0 <= j < k ==> #[trigger] listed@[j] == entries@[ranks@[offset + j] as int],
        decreases per_page - k,
    {
        let place: usize = ranks[offset + k];
        listed.push(entries[place].clone());
        k = k + 1;
    }
    (listed, entries.len() as u64)
}

/// The places of the entries, the least valuable first: the one hit least often
/// and, between entries hit equally often, the one not hit for longest.
pub open spec fn eviction_order(entries: Seq<CacheEntrySummary>) -> Seq<usize> {
    crate::order::ranking(value_keys(entries), true)
}

/// `hashes` names the `n` least valuable entries, or all of them if there are no
/// more than that.
pub open spec fn are_victims(
    entries: Seq<CacheEntrySummary>,
    n: int,
    hashes: Seq<String>,
) -> bool {
    let order = eviction_order(entries);
    &&& crate::order::ranks_all(value_keys(entries), true, order)
    &&& hashes.len() == if n < entries.len() {
        n
    } else {
        entries.len() as int
    }
    &&& forall|k: int|
        0 <= k < hashes.len() ==> (#[trigger] hashes[k])@ == entries[order[k] as int].request_hash@
}

/// Names the `n` least valuable entries.
pub fn victims(entries: &Vec<CacheEntrySummary>, n: u64) -> (hashes: Vec<String>)
    ensures
        are_victims(entries@, n as int, hashes@),
{
    let mut keys: Vec<(i128, i128)> = Vec::new();
    let mut i: usize = 0;
    while i < entries.len()
        invariant
            i <= entries@.len(),
            keys@.len() == i,
            forall|j: int| 0 <= j < i ==> #[trigger] keys@[j] == value_key(entries@[j]),
        decreases entries@.len() - i,
    {
        keys.push((entries[i].hit_count as i128, entries[i].last_accessed_at as i128));
        i = i + 1;
    }
    assert(keys@ =~= value_keys(entries@));
    let order = rank(&keys, true);
    let mut hashes: Vec<String> = Vec::new();
    let mut k: usize = 0;
    while k < order.len() && (k as u64) < n
        invariant
            order@.len() == entries@.len(),
            forall|a: int| 0 <= a < order@.len() ==> #[trigger] order@[a] < entries@.len(),
            k <= order@.len(),
            k <= n,
            hashes@.len() == k,
            forall|j: int|
                0 <= j < k ==> (#[trigger] hashes@[j])@
                    == entries@[order@[j] as int].request_hash@,
        decreases order@.len() - k,
    {
        let place: usize = order[k];
        hashes.push(entries[place].request_hash.clone());
        k = k + 1;
    }
    hashes
}

/// A listing goes up, or down, in the column that it is sorted by.
pub proof fn listings_are_sorted(
    entries: Seq<CacheEntrySummary>,
    column: SortColumn,
    ascending: bool,
    offset: int,
    per_page: int,
    listed: Seq<CacheEntrySummary>,
)
    requires
        offset >= 0,
        per_page >= 0,
        crate::order::ranks_all(
            column_keys(entries, column),
            ascending,
            crate::order::ranking(column_keys(entries, column), ascending),
        ),
        is_page(
            entries,
            crate::order::ranking(column_keys(entries, column), ascending),
            offset,
            per_page,
            listed,
        ),
    ensures
        forall|a: int, b: int|
            #![trigger listed[a], listed[b]]
            0 <= a < b < listed.len() ==> if ascending {
                column_key(listed[a], column).0 <= column_key(listed[b], column).0
            } else {
                column_key(listed[a], column).0 >= column_key(listed[b], column).0
            },
{
    let keys = column_keys(entries, column);
    let ranks = crate::order::ranking(keys, ascending);
    assert forall|a: int, b: int|
        #![trigger listed[a], listed[b]]
        0 <= a < b < listed.len() implies if ascending {
        column_key(listed[a], column).0 <= column_key(listed[b], column).0
    } else {
        column_key(listed[a], column).0 >= column_key(listed[b], column).0
    } by {
        let i = ranks[offset + a] as int;
        let j = ranks[offset + b] as int;
        assert(crate::order::precedes(keys, ascending, i, j));
        assert(keys[i] == column_key(entries[i], column));
        assert(keys[j] == column_key(entries[j], column));
    }
}

/// A page and the one after it make up the listing between them: nothing is left
/// out and nothing comes twice.
pub proof fn pages_follow_one_another(
    entries: Seq<CacheEntrySummary>,
    ranks: Seq<usize>,
    page: u32,
    per_page: u32,
    listed: Seq<CacheEntrySummary>,
    next: Seq<CacheEntrySummary>,
)
    requires
        1 <= page < u32::MAX,
        is_page(entries, ranks, page_offset(page, per_page), per_page as int, listed),
        is_page(entries, ranks, page_offset((page + 1) as u32, per_page), per_page as int, next),
    ensures
        is_page(
            entries,
            ranks,
            page_offset(page, per_page),
            2 * per_page as int,
            listed + next,
        ),
{
    let offset = page_offset(page, per_page);
    assert(page_offset((page + 1) as u32, per_page) == offset + per_page) by (nonlinear_arith)
        requires
            page >= 1,
            page < u32::MAX,
            offset == (page - 1) * per_page,
            page_offset((page + 1) as u32, per_page) == page * per_page,
    ;
    assert(offset >= 0) by (nonlinear_arith)
        requires
            page >= 1,
            offset == (page - 1) * per_page,
    ;
    let both = listed + next;
    assert forall|k: int| 0 <= k < both.len() implies #[trigger] both[k]
        == entries[ranks[offset + k] as int] by {
        if k < listed.len() {
            assert(both[k] == listed[k]);
        } else {
            assert(both[k] == next[k - listed.len()]);
            assert(offset + per_page + (k - listed.len()) == offset + k);
        }
    }
}

/// A page that is long enough holds every entry.
pub proof fn long_pages_hold_every_entry(
    entries: Seq<CacheEntrySummary>,
    column: SortColumn,
    ascending: bool,
    per_page: int,
    listed: Seq<CacheEntrySummary>,
    i: int,
)
    requires
        per_page >= entries.len(),
        entries.len() <= usize::MAX,
        crate::order::ranks_all(
            column_keys(entries, column),
            ascending,
            crate::order::ranking(column_keys(entries, column), ascending),
        ),
        is_page(
            entries,
            crate::order::ranking(column_keys(entries, column), ascending),
            0,
            per_page,
            listed,
        ),
        0 <= i < entries.len(),
    ensures
        listed.contains(entries[i]),
        listed.len() == entries.len(),
{
    let ranks = crate::order::ranking(column_keys(entries, column), ascending);
    assert(ranks.contains(i as usize));
    let a = choose|a: int| 0 <= a < ranks.len() && ranks[a] == i as usize;
    assert(listed[a] == entries[i]);
}

} // verus!
