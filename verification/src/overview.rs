//! The cache at a glance.

use vstd::prelude::*;
use crate::entries::CacheEntrySummary;
use crate::order::rank;
use crate::provider::as_unsigned;

verus! {

/// How many entries a model has.
#[derive(Clone, Debug)]
pub struct ModelCount {
    pub model: String,
    pub count: u64,
}

/// How many entries were hit a number of times within a range.
#[derive(Clone, Debug)]
pub struct HitBucket {
    pub bucket: String,
    pub count: u64,
}

/// Totals over all entries, and how they spread.
#[derive(Clone, Debug)]
pub struct CacheOverview {
    pub total_entries: u64,
    /// The tokens that all hits saved.
    pub lifetime_tokens_saved: u64,
    /// The tokens that would be saved if every entry were hit once.
    pub tokens_stored: u64,
    /// The hits on all entries.
    pub lifetime_hits: u64,
    pub db_size_bytes: u64,
    pub max_entries: u64,
    pub max_size_mb: u64,
    pub entries_by_model: Vec<ModelCount>,
    pub hit_distribution: Vec<HitBucket>,
}

/// A total left the range of 64-bit numbers while it was summed up.
#[derive(Clone, Copy, Debug, PartialEq, Eq, Structural)]
pub struct TotalOverflow;

/// The tokens saved by one hit on each entry.
pub open spec fn tokens_total(entries: Seq<CacheEntrySummary>) -> int
    decreases entries.len(),
{
    if entries.len() == 0 {
        0
    } else {
        tokens_total(entries.drop_last()) + entries.last().tokens_saved
    }
}

/// The hits on all entries.
pub open spec fn hits_total(entries: Seq<CacheEntrySummary>) -> int
    decreases entries.len(),
{
    if entries.len() == 0 {
        0
    } else {
        hits_total(entries.drop_last()) + entries.last().hit_count
    }
}

/// The tokens saved by all hits.
pub open spec fn saved_total(entries: Seq<CacheEntrySummary>) -> int
    decreases entries.len(),
{
    if entries.len() == 0 {
        0
    } else {
        saved_total(entries.drop_last()) + entries.last().tokens_saved * entries.last().hit_count
    }
}

/// A 64-bit number holds `n`.
pub open spec fn fits(n: int) -> bool {
    i64::MIN <= n <= i64::MAX
}

/// The three totals of the first `n` entries are in range.
pub open spec fn totals_fit(entries: Seq<CacheEntrySummary>, n: int) -> bool {
    &&& fits(tokens_total(entries.take(n)))
    &&& fits(hits_total(entries.take(n)))
    &&& fits(saved_total(entries.take(n)))
}

/// The totals stay in range all the way.
pub open spec fn totals_always_fit(entries: Seq<CacheEntrySummary>) -> bool {
    forall|n: int| 0 <= n <= entries.len() ==> #[trigger] totals_fit(entries, n)
}

/// How many entries a model has.
pub open spec fn entries_of(entries: Seq<CacheEntrySummary>, model: Seq<char>) -> nat
    decreases entries.len(),
{
    if entries.len() == 0 {
        0
    } else {
        entries_of(entries.drop_last(), model) + if entries.last().model@ == model {
            1nat
        } else {
            0nat
        }
    }
}

/// Model `a` has an entry before any that model `b` has.
pub open spec fn seen_before(
    entries: Seq<CacheEntrySummary>,
    a: Seq<char>,
    b: Seq<char>,
) -> bool {
    exists|i: int|
        0 <= i < entries.len() && (#[trigger] entries[i]).model@ == a && (forall|j: int|
            0 <= j <= i ==> (#[trigger] entries[j]).model@ != b)
}

/// `listed` counts the entries of every model, the model with the most entries
/// first; models with equally many stand in the order of their first entries.
pub open spec fn lists_models(
    entries: Seq<CacheEntrySummary>,
    listed: Seq<ModelCount>,
) -> bool {
    &&& forall|k: int|
        0 <= k < listed.len() ==> (#[trigger] listed[k]).count > 0 && listed[k].count
            == entries_of(entries, listed[k].model@)
    &&& forall|i: int|
        0 <= i < entries.len() ==> lists_model(listed, (#[trigger] entries[i]).model@)
    &&& forall|a: int, b: int|
        #![trigger listed[a], listed[b]]
        0 <= a < b < listed.len() ==> listed[a].count > listed[b].count || (listed[a].count
            == listed[b].count && seen_before(entries, listed[a].model@, listed[b].model@))
}

/// A model is in the list.
pub open spec fn lists_model(listed: Seq<ModelCount>, model: Seq<char>) -> bool {
    exists|k: int| 0 <= k < listed.len() && (#[trigger] listed[k]).model@ == model
}

/// Sums up the three totals, as long as they are in range.
fn totals(entries: &Vec<CacheEntrySummary>) -> (r: Option<(i64, i64, i64)>)
    requires
        forall|i: int|
            0 <= i < entries@.len() ==> fits(
                (#[trigger] entries@[i]).tokens_saved * entries@[i].hit_count,
            ),
    ensures
        r is Some <==> totals_always_fit(entries@),
        r matches Some(t) ==> t.0 == tokens_total(entries@) && t.1 == hits_total(entries@) && t.2
            == saved_total(entries@),
{
    let mut tokens: i64 = 0;
    let mut hits: i64 = 0;
    let mut saved: i64 = 0;
    let mut i: usize = 0;
    while i < entries.len()
        invariant
            forall|k: int|
                0 <= k < entries@.len() ==> fits(
                    (#[trigger] entries@[k]).tokens_saved * entries@[k].hit_count,
                ),
            i <= entries@.len(),
            tokens == tokens_total(entries@.take(i as int)),
            hits == hits_total(entries@.take(i as int)),
            saved == saved_total(entries@.take(i as int)),
            forall|n: int| 0 <= n <= i ==> #[trigger] totals_fit(entries@, n),
        decreases entries@.len() - i,
    {
        assert(entries@.take(i + 1).drop_last() =~= entries@.take(i as int));
        assert(entries@.take(i + 1).last() == entries@[i as int]);
        let e = &entries[i];
        assert(fits(entries@[i as int].tokens_saved * entries@[i as int].hit_count));
        let product: i64 = e.tokens_saved * e.hit_count;
        match (tokens.checked_add(e.tokens_saved), hits.checked_add(e.hit_count), saved.checked_add(
            product,
        )) {
            (Some(t), Some(h), Some(s)) => {
                tokens = t;
                hits = h;
                saved = s;
            },
            _ => {
                assert(!totals_fit(entries@, i + 1));
                return None;
            },
        }
        i = i + 1;
    }
    assert(entries@.take(i as int) =~= entries@);
    Some((tokens, hits, saved))
}

/// Counts the entries of every model.
fn count_models(entries: &Vec<CacheEntrySummary>) -> (listed: Vec<ModelCount>)
    ensures
        lists_models(entries@, listed@),
{
    let mut models: Vec<String> = Vec::new();
    let mut counts: Vec<u64> = Vec::new();
    let mut i: usize = 0;
    while i < entries.len()
        invariant
            i <= entries@.len(),
            models@.len() == counts@.len(),
            counted_models(entries@.take(i as int), models@, counts@),
        decreases entries@.len() - i,
    {
        let model = &entries[i].model;
        let mut k: usize = 0;
        while k < models.len() && models[k] != *model
            invariant
                k <= models@.len(),
                forall|j: int| 0 <= j < k ==> (#[trigger] models@[j])@ != model@,
            decreases models@.len() - k,
        {
            k = k + 1;
        }
        let ghost before = entries@.take(i as int);
        let ghost old_models = models@;
        let ghost old_counts = counts@;
        proof {
            assert(entries@.take(i + 1) =~= before.push(entries@[i as int]));
            lemma_entries_of_bound(before, model@);
        }
        if k < models.len() {
            let n: u64 = counts[k];
            counts.set(k, n + 1);
            proof {
                lemma_known_model(before, entries@[i as int], old_models, old_counts, k as int);
            }
        } else {
            models.push(model.clone());
            counts.push(1);
            proof {
                assert(models@.drop_last() =~= old_models);
                lemma_new_model(
                    before,
                    entries@[i as int],
                    old_models,
                    old_counts,
                    models@,
                    counts@,
                );
            }
        }
        i = i + 1;
    }
    assert(entries@.take(i as int) =~= entries@);
    let mut keys: Vec<(i128, i128)> = Vec::new();
    let mut j: usize = 0;
    while j < counts.len()
        invariant
            j <= counts@.len(),
            keys@.len() == j,
            forall|a: int| 0 <= a < j ==> #[trigger] keys@[a] == (counts@[a] as i128, 0i128),
        decreases counts@.len() - j,
    {
        keys.push((counts[j] as i128, 0));
        j = j + 1;
    }
    let order = rank(&keys, false);
    let mut listed: Vec<ModelCount> = Vec::new();
    let mut k: usize = 0;
    while k < order.len()
        invariant
            models@.len() == counts@.len(),
            order@.len() == counts@.len(),
            forall|a: int| 0 <= a < order@.len() ==> #[trigger] order@[a] < counts@.len(),
            k <= order@.len(),
            listed@.len() == k,
            forall|a: int|
                0 <= a < k ==> (#[trigger] listed@[a]).model@ == models@[order@[a] as int]@
                    && listed@[a].count == counts@[order@[a] as int],
        decreases order@.len() - k,
    {
        let place: usize = order[k];
        listed.push(ModelCount { model: models[place].clone(), count: counts[place] });
        k = k + 1;
    }
    proof {
        assert forall|a: int, b: int|
            #![trigger listed@[a], listed@[b]]
            0 <= a < b < listed@.len() implies listed@[a].count > listed@[b].count || (
        listed@[a].count == listed@[b].count && seen_before(
            entries@,
            listed@[a].model@,
            listed@[b].model@,
        )) by {
            assert(crate::order::precedes(keys@, false, order@[a] as int, order@[b] as int));
            let x = order@[a] as int;
            let y = order@[b] as int;
            assert(keys@[x] == (counts@[x] as i128, 0i128));
            assert(keys@[y] == (counts@[y] as i128, 0i128));
            if x < y {
                assert(seen_before(entries@, models@[x]@, models@[y]@));
            }
        }
        assert forall|i: int| 0 <= i < entries@.len() implies lists_model(
            listed@,
            (#[trigger] entries@[i]).model@,
        ) by {
            assert(names_model(models@, entries@[i].model@));
            let x = choose|x: int|
                0 <= x < models@.len() && (#[trigger] models@[x])@ == entries@[i].model@;
            assert(order@.contains(x as usize));
            let a = choose|a: int| 0 <= a < order@.len() && order@[a] == x as usize;
            assert(listed@[a].model@ == models@[x]@);
        }
    }
    listed
}

/// A model is among those named.
spec fn names_model(models: Seq<String>, model: Seq<char>) -> bool {
    exists|k: int| 0 <= k < models.len() && (#[trigger] models[k])@ == model
}

/// `models` are the models of `entries`, in the order of their first entries,
/// and `counts` says how many entries each has.
spec fn counted_models(
    entries: Seq<CacheEntrySummary>,
    models: Seq<String>,
    counts: Seq<u64>,
) -> bool {
    &&& models.len() == counts.len()
    &&& forall|k: int|
        #![trigger models[k]]
        #![trigger counts[k]]
        0 <= k < models.len() ==> counts[k] > 0 && counts[k] == entries_of(entries, models[k]@)
    &&& forall|i: int|
        0 <= i < entries.len() ==> names_model(models, (#[trigger] entries[i]).model@)
    &&& forall|a: int, b: int|
        #![trigger models[a], models[b]]
        0 <= a < b < models.len() ==> seen_before(entries, models[a]@, models[b]@)
}

proof fn lemma_entries_of_bound(entries: Seq<CacheEntrySummary>, model: Seq<char>)
    ensures
        entries_of(entries, model) <= entries.len(),
        entries_of(entries, model) > 0 <==> exists|i: int|
            0 <= i < entries.len() && (#[trigger] entries[i]).model@ == model,
    decreases entries.len(),
{
    if entries.len() > 0 {
        let front = entries.drop_last();
        lemma_entries_of_bound(front, model);
        if entries.last().model@ == model {
            assert(entries[entries.len() - 1].model@ == model);
        }
        if entries_of(front, model) > 0 {
            let i = choose|i: int| 0 <= i < front.len() && (#[trigger] front[i]).model@ == model;
            assert(entries[i].model@ == model);
        }
        if exists|i: int| 0 <= i < entries.len() && (#[trigger] entries[i]).model@ == model {
            let i = choose|i: int|
                0 <= i < entries.len() && (#[trigger] entries[i]).model@ == model;
            if i < front.len() {
                assert(front[i].model@ == model);
            }
        }
    }
}

/// A further entry does not change which models were seen before which.
proof fn lemma_seen_before_kept(
    entries: Seq<CacheEntrySummary>,
    entry: CacheEntrySummary,
    a: Seq<char>,
    b: Seq<char>,
)
    requires
        seen_before(entries, a, b),
    ensures
        seen_before(entries.push(entry), a, b),
{
    let i = choose|i: int|
        0 <= i < entries.len() && (#[trigger] entries[i]).model@ == a && (forall|j: int|
            0 <= j <= i ==> (#[trigger] entries[j]).model@ != b);
    let all = entries.push(entry);
    assert(all[i].model@ == a);
    assert forall|j: int| 0 <= j <= i implies (#[trigger] all[j]).model@ != b by {
        assert(all[j] == entries[j]);
    }
}

proof fn lemma_known_model(
    entries: Seq<CacheEntrySummary>,
    entry: CacheEntrySummary,
    models: Seq<String>,
    counts: Seq<u64>,
    k: int,
)
    requires
        counted_models(entries, models, counts),
        0 <= k < models.len(),
        models[k]@ == entry.model@,
        counts[k] < u64::MAX,
    ensures
        counted_models(entries.push(entry), models, counts.update(k, (counts[k] + 1) as u64)),
{
    let all = entries.push(entry);
    let counts2 = counts.update(k, (counts[k] + 1) as u64);
    assert(all.drop_last() =~= entries);
    assert forall|j: int| 0 <= j < models.len() implies #[trigger] counts2[j] > 0 && counts2[j]
        == entries_of(all, models[j]@) by {
        if j != k && models[j]@ == entry.model@ {
            let (a, b) = if j < k { (j, k) } else { (k, j) };
            assert(seen_before(entries, models[a]@, models[b]@));
        }
    }
    assert forall|i: int| 0 <= i < all.len() implies names_model(
        models,
        (#[trigger] all[i]).model@,
    ) by {
        if i < entries.len() {
            assert(all[i] == entries[i]);
        } else {
            assert(models[k]@ == all[i].model@);
        }
    }
    assert forall|a: int, b: int|
        #![trigger models[a], models[b]]
        0 <= a < b < models.len() implies seen_before(all, models[a]@, models[b]@) by {
        lemma_seen_before_kept(entries, entry, models[a]@, models[b]@);
    }
}

proof fn lemma_new_model(
    entries: Seq<CacheEntrySummary>,
    entry: CacheEntrySummary,
    models: Seq<String>,
    counts: Seq<u64>,
    models2: Seq<String>,
    counts2: Seq<u64>,
)
    requires
        counted_models(entries, models, counts),
        forall|j: int| 0 <= j < models.len() ==> (#[trigger] models[j])@ != entry.model@,
        models2.len() == models.len() + 1,
        models2.drop_last() == models,
        models2.last()@ == entry.model@,
        counts2 == counts.push(1),
    ensures
        counted_models(entries.push(entry), models2, counts2),
{
    let all = entries.push(entry);
    let n = models.len() as int;
    assert(all.drop_last() =~= entries);
    assert forall|j: int| 0 <= j < n implies #[trigger] models2[j] == models[j] by {
        assert(models2.drop_last()[j] == models2[j]);
    }
    lemma_entries_of_bound(entries, entry.model@);
    assert(entries_of(entries, entry.model@) == 0) by {
        if entries_of(entries, entry.model@) > 0 {
            let i = choose|i: int|
                0 <= i < entries.len() && (#[trigger] entries[i]).model@ == entry.model@;
            assert(names_model(models, entries[i].model@));
            let j = choose|j: int|
                0 <= j < models.len() && (#[trigger] models[j])@ == entries[i].model@;
        }
    }
    assert forall|j: int| 0 <= j < models2.len() implies #[trigger] counts2[j] > 0 && counts2[j]
        == entries_of(all, models2[j]@) by {
        if j < n {
            assert(models[j]@ != entry.model@);
            assert(counts[j] == entries_of(entries, models[j]@));
        }
    }
    assert forall|i: int| 0 <= i < all.len() implies names_model(
        models2,
        (#[trigger] all[i]).model@,
    ) by {
        if i < entries.len() {
            assert(all[i] == entries[i]);
            assert(names_model(models, entries[i].model@));
            let j = choose|j: int|
                0 <= j < models.len() && (#[trigger] models[j])@ == entries[i].model@;
            assert(models2[j] == models[j]);
        } else {
            assert(models2[n]@ == all[i].model@);
        }
    }
    assert forall|a: int, b: int|
        #![trigger models2[a], models2[b]]
        0 <= a < b < models2.len() implies seen_before(all, models2[a]@, models2[b]@) by {
        if b < n {
            assert(seen_before(entries, models[a]@, models[b]@));
            lemma_seen_before_kept(entries, entry, models[a]@, models[b]@);
        } else {
            assert(counts[a] == entries_of(entries, models[a]@));
            lemma_entries_of_bound(entries, models[a]@);
            let i = choose|i: int|
                0 <= i < entries.len() && (#[trigger] entries[i]).model@ == models[a]@;
            assert(all[i].model@ == models2[a]@);
            assert forall|j: int| 0 <= j <= i implies (#[trigger] all[j]).model@ != models2[b]@ by {
                assert(all[j] == entries[j]);
                assert(names_model(models, entries[j].model@));
                let x = choose|x: int|
                    0 <= x < models.len() && (#[trigger] models[x])@ == entries[j].model@;
            }
        }
    }
}

/// The range that a number of hits falls into.
pub open spec fn hit_bucket(hits: i64) -> Seq<char> {
    if hits == 0 {
        "0"@
    } else if 1 <= hits <= 5 {
        "1-5"@
    } else if 6 <= hits <= 20 {
        "6-20"@
    } else {
        "21+"@
    }
}

/// How many entries fall into a range.
pub open spec fn entries_in(entries: Seq<CacheEntrySummary>, bucket: Seq<char>) -> nat
    decreases entries.len(),
{
    if entries.len() == 0 {
        0
    } else {
        entries_in(entries.drop_last(), bucket) + if hit_bucket(entries.last().hit_count) == bucket {
            1nat
        } else {
            0nat
        }
    }
}

/// Range `a` holds an entry with fewer hits than all entries in range `b`.
pub open spec fn reaches_lower(
    entries: Seq<CacheEntrySummary>,
    a: Seq<char>,
    b: Seq<char>,
) -> bool {
    exists|i: int|
        0 <= i < entries.len() && hit_bucket((#[trigger] entries[i]).hit_count) == a && (forall|
            j: int,
        |
            0 <= j < entries.len() && hit_bucket((#[trigger] entries[j]).hit_count) == b
                ==> entries[i].hit_count < entries[j].hit_count)
}

/// A range is in the list.
pub open spec fn lists_bucket(listed: Seq<HitBucket>, bucket: Seq<char>) -> bool {
    exists|k: int| 0 <= k < listed.len() && (#[trigger] listed[k]).bucket@ == bucket
}

/// `listed` counts the entries in every range that holds any, from the range
/// with the lowest number of hits in it upwards.
pub open spec fn lists_buckets(
    entries: Seq<CacheEntrySummary>,
    listed: Seq<HitBucket>,
) -> bool {
    &&& forall|k: int|
        0 <= k < listed.len() ==> (#[trigger] listed[k]).count > 0 && listed[k].count == entries_in(
            entries,
            listed[k].bucket@,
        )
    &&& forall|i: int|
        0 <= i < entries.len() ==> lists_bucket(
            listed,
            hit_bucket((#[trigger] entries[i]).hit_count),
        )
    &&& forall|a: int, b: int|
        #![trigger listed[a], listed[b]]
        0 <= a < b < listed.len() ==> reaches_lower(entries, listed[a].bucket@, listed[b].bucket@)
}

/// The four ranges have different names.
proof fn lemma_bucket_names()
    ensures
        "0"@ != "1-5"@,
        "0"@ != "6-20"@,
        "0"@ != "21+"@,
        "1-5"@ != "6-20"@,
        "1-5"@ != "21+"@,
        "6-20"@ != "21+"@,
{
    reveal_strlit("0");
    reveal_strlit("1-5");
    reveal_strlit("6-20");
    reveal_strlit("21+");
    assert("0"@.len() == 1 && "1-5"@.len() == 3 && "6-20"@.len() == 4 && "21+"@.len() == 3);
    assert("1-5"@[0] != "21+"@[0]);
}

pub proof fn lemma_entries_in_bound(entries: Seq<CacheEntrySummary>, bucket: Seq<char>)
    ensures
        entries_in(entries, bucket) <= entries.len(),
        entries_in(entries, bucket) > 0 <==> exists|i: int|
            0 <= i < entries.len() && hit_bucket((#[trigger] entries[i]).hit_count) == bucket,
    decreases entries.len(),
{
    if entries.len() > 0 {
        let front = entries.drop_last();
        lemma_entries_in_bound(front, bucket);
        if hit_bucket(entries.last().hit_count) == bucket {
            assert(hit_bucket(entries[entries.len() - 1].hit_count) == bucket);
        }
        if entries_in(front, bucket) > 0 {
            let i = choose|i: int|
                0 <= i < front.len() && hit_bucket((#[trigger] front[i]).hit_count) == bucket;
            assert(hit_bucket(entries[i].hit_count) == bucket);
        }
        if exists|i: int|
            0 <= i < entries.len() && hit_bucket((#[trigger] entries[i]).hit_count) == bucket {
            let i = choose|i: int|
                0 <= i < entries.len() && hit_bucket((#[trigger] entries[i]).hit_count) == bucket;
            if i < front.len() {
                assert(hit_bucket(front[i].hit_count) == bucket);
            }
        }
    }
}

/// The place of a range in the list. Only the last range takes in counts below
/// zero, and comes first if there are any.
spec fn bucket_place(bucket: Seq<char>, below_zero: bool) -> int {
    if bucket == "0"@ {
        1
    } else if bucket == "1-5"@ {
        2
    } else if bucket == "6-20"@ {
        3
    } else if bucket == "21+"@ {
        if below_zero {
            0
        } else {
            4
        }
    } else {
        5
    }
}

/// Whether an entry has a count below zero.
spec fn some_below_zero(entries: Seq<CacheEntrySummary>) -> bool {
    exists|i: int| 0 <= i < entries.len() && (#[trigger] entries[i]).hit_count < 0
}

/// `listed` counts the entries in the ranges with places below `end`.
spec fn lists_places(entries: Seq<CacheEntrySummary>, listed: Seq<HitBucket>, end: int) -> bool {
    let below_zero = some_below_zero(entries);
    &&& forall|k: int|
        0 <= k < listed.len() ==> (#[trigger] listed[k]).count > 0 && listed[k].count == entries_in(
            entries,
            listed[k].bucket@,
        ) && bucket_place(listed[k].bucket@, below_zero) < end
    &&& forall|a: int, b: int|
        #![trigger listed[a], listed[b]]
        0 <= a < b < listed.len() ==> bucket_place(listed[a].bucket@, below_zero) < bucket_place(
            listed[b].bucket@,
            below_zero,
        )
    &&& forall|bucket: Seq<char>|
        bucket_place(bucket, below_zero) < end && entries_in(entries, bucket) > 0 ==> #[trigger]
            lists_bucket(listed, bucket)
}

/// A range with an earlier place reaches lower.
proof fn lemma_places_reach_lower(entries: Seq<CacheEntrySummary>, a: Seq<char>, b: Seq<char>)
    requires
        entries_in(entries, a) > 0,
        bucket_place(a, some_below_zero(entries)) < bucket_place(b, some_below_zero(entries)) < 5,
    ensures
        reaches_lower(entries, a, b),
{
    lemma_bucket_names();
    lemma_entries_in_bound(entries, a);
    let i = if a == "21+"@ {
        choose|i: int| 0 <= i < entries.len() && (#[trigger] entries[i]).hit_count < 0
    } else {
        choose|i: int|
            0 <= i < entries.len() && hit_bucket((#[trigger] entries[i]).hit_count) == a
    };
    assert(hit_bucket(entries[i].hit_count) == a);
    assert forall|j: int|
        0 <= j < entries.len() && hit_bucket((#[trigger] entries[j]).hit_count)
            == b implies entries[i].hit_count < entries[j].hit_count by {}
}

/// All places together make the list.
proof fn lemma_all_places(entries: Seq<CacheEntrySummary>, listed: Seq<HitBucket>)
    requires
        lists_places(entries, listed, 5),
    ensures
        lists_buckets(entries, listed),
{
    assert forall|i: int| 0 <= i < entries.len() implies lists_bucket(
        listed,
        hit_bucket((#[trigger] entries[i]).hit_count),
    ) by {
        lemma_entries_in_bound(entries, hit_bucket(entries[i].hit_count));
    }
    assert forall|a: int, b: int|
        #![trigger listed[a], listed[b]]
        0 <= a < b < listed.len() implies reaches_lower(
        entries,
        listed[a].bucket@,
        listed[b].bucket@,
    ) by {
        lemma_places_reach_lower(entries, listed[a].bucket@, listed[b].bucket@);
    }
}

/// Adds the range at the next place to the list, if it holds any entries.
fn push_bucket(
    entries: &Vec<CacheEntrySummary>,
    listed: &mut Vec<HitBucket>,
    bucket: &str,
    count: u64,
)
    requires
        count == entries_in(entries@, bucket@),
        bucket_place(bucket@, some_below_zero(entries@)) < 5,
        lists_places(
            entries@,
            old(listed)@,
            bucket_place(bucket@, some_below_zero(entries@)),
        ),
    ensures
        lists_places(
            entries@,
            final(listed)@,
            bucket_place(bucket@, some_below_zero(entries@)) + 1,
        ),
{
    let ghost before = listed@;
    let ghost below_zero = some_below_zero(entries@);
    let ghost place = bucket_place(bucket@, below_zero);
    if count > 0 {
        listed.push(HitBucket { bucket: bucket.to_owned(), count });
    }
    proof {
        lemma_bucket_names();
        assert forall|k: int| 0 <= k < before.len() implies #[trigger] listed@[k] == before[k] by {}
        assert forall|other: Seq<char>|
            bucket_place(other, below_zero) < place + 1 && entries_in(entries@, other)
                > 0 implies #[trigger] lists_bucket(listed@, other) by {
            if bucket_place(other, below_zero) < place {
                assert(lists_bucket(before, other));
                let k = choose|k: int|
                    0 <= k < before.len() && (#[trigger] before[k]).bucket@ == other;
                assert(listed@[k].bucket@ == other);
            } else {
                assert(other == bucket@);
                assert(listed@[before.len() as int].bucket@ == other);
            }
        }
    }
}

/// Counts the entries in every range of hits.
fn distribute_hits(entries: &Vec<CacheEntrySummary>) -> (listed: Vec<HitBucket>)
    ensures
        lists_buckets(entries@, listed@),
{
    let mut zero: u64 = 0;
    let mut few: u64 = 0;
    let mut some: u64 = 0;
    let mut rest: u64 = 0;
    let mut below_zero: bool = false;
    let mut i: usize = 0;
    proof {
        lemma_bucket_names();
    }
    while i < entries.len()
        invariant
            "0"@ != "1-5"@,
            "0"@ != "6-20"@,
            "0"@ != "21+"@,
            "1-5"@ != "6-20"@,
            "1-5"@ != "21+"@,
            "6-20"@ != "21+"@,
            i <= entries@.len(),
            zero == entries_in(entries@.take(i as int), "0"@),
            few == entries_in(entries@.take(i as int), "1-5"@),
            some == entries_in(entries@.take(i as int), "6-20"@),
            rest == entries_in(entries@.take(i as int), "21+"@),
            below_zero == some_below_zero(entries@.take(i as int)),
        decreases entries@.len() - i,
    {
        let hits: i64 = entries[i].hit_count;
        proof {
            let before = entries@.take(i as int);
            let after = entries@.take(i + 1);
            assert(after.drop_last() =~= before);
            assert(after.last() == entries@[i as int]);
            lemma_entries_in_bound(before, "0"@);
            lemma_entries_in_bound(before, "1-5"@);
            lemma_entries_in_bound(before, "6-20"@);
            lemma_entries_in_bound(before, "21+"@);
            assert(some_below_zero(after) == (some_below_zero(before) || hits < 0)) by {
                assert(after[i as int].hit_count == hits);
                assert forall|j: int| 0 <= j < i implies #[trigger] after[j] == before[j] by {}
                if some_below_zero(before) {
                    let j = choose|j: int|
                        0 <= j < before.len() && (#[trigger] before[j]).hit_count < 0;
                    assert(after[j].hit_count < 0);
                }
            }
        }
        if hits == 0 {
            zero = zero + 1;
        } else if 1 <= hits && hits <= 5 {
            few = few + 1;
        } else if 6 <= hits && hits <= 20 {
            some = some + 1;
        } else {
            rest = rest + 1;
            if hits < 0 {
                below_zero = true;
            }
        }
        i = i + 1;
    }
    assert(entries@.take(i as int) =~= entries@);
    let mut listed: Vec<HitBucket> = Vec::new();
    proof {
        lemma_bucket_names();
        assert(lists_places(entries@, listed@, 0));
    }
    if below_zero {
        push_bucket(entries, &mut listed, "21+", rest);
    }
    push_bucket(entries, &mut listed, "0", zero);
    push_bucket(entries, &mut listed, "1-5", few);
    push_bucket(entries, &mut listed, "6-20", some);
    if !below_zero {
        push_bucket(entries, &mut listed, "21+", rest);
    }
    proof {
        lemma_all_places(entries@, listed@);
    }
    listed
}

/// Sums the cache up. Fails if one of the totals leaves the range of 64-bit
/// numbers on the way.
pub fn query_cache_overview(
    entries: &Vec<CacheEntrySummary>,
    db_size_bytes: u64,
    max_entries: u64,
    max_size_mb: u64,
) -> (r: Result<CacheOverview, TotalOverflow>)
    requires
        forall|i: int|
            0 <= i < entries@.len() ==> fits(
                (#[trigger] entries@[i]).tokens_saved * entries@[i].hit_count,
            ),
    ensures
        r is Ok <==> totals_always_fit(entries@),
        r matches Ok(o) ==> {
            &&& o.total_entries == entries@.len()
            &&& o.lifetime_tokens_saved == crate::provider::unsigned(
                saved_total(entries@) as i64,
            )
            &&& o.tokens_stored == crate::provider::unsigned(tokens_total(entries@) as i64)
            &&& o.lifetime_hits == crate::provider::unsigned(hits_total(entries@) as i64)
            &&& o.db_size_bytes == db_size_bytes
            &&& o.max_entries == max_entries
            &&& o.max_size_mb == max_size_mb
            &&& lists_models(entries@, o.entries_by_model@)
            &&& lists_buckets(entries@, o.hit_distribution@)
        },
{
    match totals(entries) {
        Some((tokens, hits, saved)) => Ok(
            CacheOverview {
                total_entries: entries.len() as u64,
                lifetime_tokens_saved: as_unsigned(saved),
                tokens_stored: as_unsigned(tokens),
                lifetime_hits: as_unsigned(hits),
                db_size_bytes,
                max_entries,
                max_size_mb,
                entries_by_model: count_models(entries),
                hit_distribution: distribute_hits(entries),
            },
        ),
        None => Err(TotalOverflow),
    }
}

/// The entries of all models in a list.
pub open spec fn models_sum(listed: Seq<ModelCount>) -> int
    decreases listed.len(),
{
    if listed.len() == 0 {
        0
    } else {
        models_sum(listed.drop_last()) + listed.last().count
    }
}

/// The entries in all ranges in a list.
pub open spec fn buckets_sum(listed: Seq<HitBucket>) -> int
    decreases listed.len(),
{
    if listed.len() == 0 {
        0
    } else {
        buckets_sum(listed.drop_last()) + listed.last().count
    }
}

/// How often a label occurs.
spec fn occurrences(labels: Seq<Seq<char>>, label: Seq<char>) -> nat
    decreases labels.len(),
{
    if labels.len() == 0 {
        0
    } else {
        occurrences(labels.drop_last(), label) + if labels.last() == label {
            1nat
        } else {
            0nat
        }
    }
}

/// How often all labels in a list occur.
spec fn occurrences_sum(labels: Seq<Seq<char>>, listed: Seq<Seq<char>>) -> int
    decreases listed.len(),
{
    if listed.len() == 0 {
        0
    } else {
        occurrences_sum(labels, listed.drop_last()) + occurrences(labels, listed.last())
    }
}

/// One more label counts once if it is listed, as no label is listed twice.
proof fn lemma_one_more_label(labels: Seq<Seq<char>>, listed: Seq<Seq<char>>)
    requires
        labels.len() > 0,
        listed.no_duplicates(),
    ensures
        occurrences_sum(labels, listed) == occurrences_sum(labels.drop_last(), listed) + (
        if listed.contains(labels.last()) {
            1int
        } else {
            0int
        }),
    decreases listed.len(),
{
    if listed.len() > 0 {
        let front = listed.drop_last();
        lemma_one_more_label(labels, front);
        let x = labels.last();
        if front.contains(x) {
            let k = choose|k: int| 0 <= k < front.len() && front[k] == x;
            assert(listed[k] == x);
            assert(listed[listed.len() - 1] != x);
        } else if listed.contains(x) {
            let k = choose|k: int| 0 <= k < listed.len() && listed[k] == x;
            if k < front.len() {
                assert(front[k] == x);
            }
        }
        if listed.last() == x {
            assert(listed[listed.len() - 1] == x);
        }
    }
}

/// A list of all labels counts every occurrence.
proof fn lemma_all_labels_counted(labels: Seq<Seq<char>>, listed: Seq<Seq<char>>)
    requires
        listed.no_duplicates(),
        forall|i: int| 0 <= i < labels.len() ==> listed.contains(#[trigger] labels[i]),
    ensures
        occurrences_sum(labels, listed) == labels.len(),
    decreases labels.len(),
{
    if labels.len() == 0 {
        lemma_no_labels(labels, listed);
    } else {
        assert(listed.contains(labels[labels.len() - 1]));
        lemma_one_more_label(labels, listed);
        assert forall|i: int| 0 <= i < labels.drop_last().len() implies listed.contains(
            #[trigger] labels.drop_last()[i],
        ) by {
            assert(listed.contains(labels[i]));
        }
        lemma_all_labels_counted(labels.drop_last(), listed);
    }
}

proof fn lemma_no_labels(labels: Seq<Seq<char>>, listed: Seq<Seq<char>>)
    requires
        labels.len() == 0,
    ensures
        occurrences_sum(labels, listed) == 0,
    decreases listed.len(),
{
    if listed.len() > 0 {
        lemma_no_labels(labels, listed.drop_last());
    }
}

spec fn model_labels(entries: Seq<CacheEntrySummary>) -> Seq<Seq<char>> {
    entries.map_values(|e: CacheEntrySummary| e.model@)
}

spec fn bucket_labels(entries: Seq<CacheEntrySummary>) -> Seq<Seq<char>> {
    entries.map_values(|e: CacheEntrySummary| hit_bucket(e.hit_count))
}

proof fn lemma_entries_as_labels(entries: Seq<CacheEntrySummary>, label: Seq<char>)
    ensures
        entries_of(entries, label) == occurrences(model_labels(entries), label),
        entries_in(entries, label) == occurrences(bucket_labels(entries), label),
    decreases entries.len(),
{
    if entries.len() > 0 {
        lemma_entries_as_labels(entries.drop_last(), label);
        assert(model_labels(entries).drop_last() =~= model_labels(entries.drop_last()));
        assert(bucket_labels(entries).drop_last() =~= bucket_labels(entries.drop_last()));
    }
}

spec fn listed_models(listed: Seq<ModelCount>) -> Seq<Seq<char>> {
    listed.map_values(|m: ModelCount| m.model@)
}

spec fn listed_buckets(listed: Seq<HitBucket>) -> Seq<Seq<char>> {
    listed.map_values(|b: HitBucket| b.bucket@)
}

proof fn lemma_models_sum(entries: Seq<CacheEntrySummary>, listed: Seq<ModelCount>)
    requires
        forall|k: int|
            0 <= k < listed.len() ==> (#[trigger] listed[k]).count == entries_of(
                entries,
                listed[k].model@,
            ),
    ensures
        models_sum(listed) == occurrences_sum(model_labels(entries), listed_models(listed)),
    decreases listed.len(),
{
    if listed.len() > 0 {
        let front = listed.drop_last();
        assert forall|k: int| 0 <= k < front.len() implies (#[trigger] front[k]).count
            == entries_of(entries, front[k].model@) by {
            assert(front[k] == listed[k]);
        }
        lemma_models_sum(entries, front);
        assert(listed_models(listed).drop_last() =~= listed_models(front));
        assert(listed.last() == listed[listed.len() - 1]);
        lemma_entries_as_labels(entries, listed.last().model@);
    }
}

proof fn lemma_buckets_sum(entries: Seq<CacheEntrySummary>, listed: Seq<HitBucket>)
    requires
        forall|k: int|
            0 <= k < listed.len() ==> (#[trigger] listed[k]).count == entries_in(
                entries,
                listed[k].bucket@,
            ),
    ensures
        buckets_sum(listed) == occurrences_sum(bucket_labels(entries), listed_buckets(listed)),
    decreases listed.len(),
{
    if listed.len() > 0 {
        let front = listed.drop_last();
        assert forall|k: int| 0 <= k < front.len() implies (#[trigger] front[k]).count
            == entries_in(entries, front[k].bucket@) by {
            assert(front[k] == listed[k]);
        }
        lemma_buckets_sum(entries, front);
        assert(listed_buckets(listed).drop_last() =~= listed_buckets(front));
        assert(listed.last() == listed[listed.len() - 1]);
        lemma_entries_as_labels(entries, listed.last().bucket@);
    }
}

/// Every entry counts towards one model, and no model is listed twice.
pub proof fn model_counts_add_up(entries: Seq<CacheEntrySummary>, listed: Seq<ModelCount>)
    requires
        lists_models(entries, listed),
    ensures
        models_sum(listed) == entries.len(),
        forall|a: int, b: int|
            #![trigger listed[a], listed[b]]
            0 <= a < b < listed.len() ==> listed[a].model@ != listed[b].model@,
{
    let labels = model_labels(entries);
    let names = listed_models(listed);
    assert forall|a: int, b: int|
        #![trigger listed[a], listed[b]]
        0 <= a < b < listed.len() implies listed[a].model@ != listed[b].model@ by {}
    assert(names.no_duplicates()) by {
        assert forall|a: int, b: int|
            0 <= a < names.len() && 0 <= b < names.len() && a != b implies names[a] != names[b] by {
            let (x, y) = if a < b { (a, b) } else { (b, a) };
            assert(listed[x].model@ != listed[y].model@);
        }
    }
    assert forall|i: int| 0 <= i < labels.len() implies names.contains(#[trigger] labels[i]) by {
        assert(lists_model(listed, entries[i].model@));
        let k = choose|k: int|
            0 <= k < listed.len() && (#[trigger] listed[k]).model@ == entries[i].model@;
        assert(names[k] == labels[i]);
    }
    lemma_all_labels_counted(labels, names);
    lemma_models_sum(entries, listed);
}

/// Every entry falls into one range, and no range is listed twice.
pub proof fn hit_distribution_adds_up(entries: Seq<CacheEntrySummary>, listed: Seq<HitBucket>)
    requires
        lists_buckets(entries, listed),
    ensures
        buckets_sum(listed) == entries.len(),
        forall|a: int, b: int|
            #![trigger listed[a], listed[b]]
            0 <= a < b < listed.len() ==> listed[a].bucket@ != listed[b].bucket@,
{
    let labels = bucket_labels(entries);
    let names = listed_buckets(listed);
    assert forall|a: int, b: int|
        #![trigger listed[a], listed[b]]
        0 <= a < b < listed.len() implies listed[a].bucket@ != listed[b].bucket@ by {
        assert(reaches_lower(entries, listed[a].bucket@, listed[b].bucket@));
    }
    assert(names.no_duplicates()) by {
        assert forall|a: int, b: int|
            0 <= a < names.len() && 0 <= b < names.len() && a != b implies names[a] != names[b] by {
            let (x, y) = if a < b { (a, b) } else { (b, a) };
            assert(listed[x].bucket@ != listed[y].bucket@);
        }
    }
    assert forall|i: int| 0 <= i < labels.len() implies names.contains(#[trigger] labels[i]) by {
        assert(lists_bucket(listed, hit_bucket(entries[i].hit_count)));
        let k = choose|k: int|
            0 <= k < listed.len() && (#[trigger] listed[k]).bucket@ == hit_bucket(
                entries[i].hit_count,
            );
        assert(names[k] == labels[i]);
    }
    lemma_all_labels_counted(labels, names);
    lemma_buckets_sum(entries, listed);
}

} // verus!
