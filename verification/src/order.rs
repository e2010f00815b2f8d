//! Ranking by a pair of numbers, with ties in their given order.

use vstd::prelude::*;

verus! {

/// Whether the first pair is the lesser, by its first number and then by its
/// second.
pub open spec fn lesser(a: (i128, i128), b: (i128, i128)) -> bool {
    a.0 < b.0 || (a.0 == b.0 && a.1 < b.1)
}

/// Whether place `i` ranks before place `j`: its pair is the lesser (the greater
/// if the order is descending), or the pairs are equal and it comes first.
pub open spec fn precedes(keys: Seq<(i128, i128)>, ascending: bool, i: int, j: int) -> bool {
    if keys[i] == keys[j] {
        i < j
    } else if ascending {
        lesser(keys[i], keys[j])
    } else {
        lesser(keys[j], keys[i])
    }
}

/// `ranks` lists the places from `lo` to `hi` in the order of their keys.
pub open spec fn ranks_range(
    keys: Seq<(i128, i128)>,
    ascending: bool,
    lo: int,
    hi: int,
    ranks: Seq<usize>,
) -> bool {
    &&& ranks.len() == hi - lo
    &&& forall|a: int| 0 <= a < ranks.len() ==> lo <= #[trigger] ranks[a] < hi
    &&& forall|a: int, b: int|
        0 <= a < b < ranks.len() ==> precedes(
            keys,
            ascending,
            #[trigger] ranks[a] as int,
            #[trigger] ranks[b] as int,
        )
    &&& forall|x: usize| lo <= x < hi ==> #[trigger] ranks.contains(x)
}

/// `ranks` lists all places in the order of their keys.
pub open spec fn ranks_all(keys: Seq<(i128, i128)>, ascending: bool, ranks: Seq<usize>) -> bool {
    ranks_range(keys, ascending, 0, keys.len() as int, ranks)
}

/// All places in the order of their keys.
pub open spec fn ranking(keys: Seq<(i128, i128)>, ascending: bool) -> Seq<usize> {
    choose|ranks: Seq<usize>| ranks_all(keys, ascending, ranks)
}

fn ranks_before(a: (i128, i128), b: (i128, i128), ascending: bool) -> (r: bool)
    ensures
        r == (if ascending {
            lesser(a, b)
        } else {
            lesser(b, a)
        }),
{
    if ascending {
        a.0 < b.0 || (a.0 == b.0 && a.1 < b.1)
    } else {
        b.0 < a.0 || (b.0 == a.0 && b.1 < a.1)
    }
}

fn merge(
    keys: &Vec<(i128, i128)>,
    ascending: bool,
    lo: usize,
    mid: usize,
    hi: usize,
    left: &Vec<usize>,
    right: &Vec<usize>,
) -> (out: Vec<usize>)
    requires
        lo <= mid <= hi <= keys@.len(),
        ranks_range(keys@, ascending, lo as int, mid as int, left@),
        ranks_range(keys@, ascending, mid as int, hi as int, right@),
    ensures
        ranks_range(keys@, ascending, lo as int, hi as int, out@),
{
    let mut out: Vec<usize> = Vec::new();
    let mut i: usize = 0;
    let mut j: usize = 0;
    while i < left.len() || j < right.len()
        invariant
            lo <= mid <= hi <= keys@.len(),
            ranks_range(keys@, ascending, lo as int, mid as int, left@),
            ranks_range(keys@, ascending, mid as int, hi as int, right@),
            i <= left@.len(),
            j <= right@.len(),
            out@.len() == i + j,
            forall|a: int| 0 <= a < out@.len() ==> lo <= #[trigger] out@[a] < hi,
            forall|a: int, b: int|
                0 <= a < b < out@.len() ==> precedes(
                    keys@,
                    ascending,
                    #[trigger] out@[a] as int,
                    #[trigger] out@[b] as int,
                ),
            forall|a: int, b: int|
                0 <= a < out@.len() && i <= b < left@.len() ==> precedes(
                    keys@,
                    ascending,
                    #[trigger] out@[a] as int,
                    #[trigger] left@[b] as int,
                ),
            forall|a: int, b: int|
                0 <= a < out@.len() && j <= b < right@.len() ==> precedes(
                    keys@,
                    ascending,
                    #[trigger] out@[a] as int,
                    #[trigger] right@[b] as int,
                ),
            forall|a: int| 0 <= a < i ==> out@.contains(#[trigger] left@[a]),
            forall|b: int| 0 <= b < j ==> out@.contains(#[trigger] right@[b]),
        decreases left@.len() - i + right@.len() - j,
    {
        let ghost before = out@;
        let from_left = i < left.len() && (j >= right.len() || !ranks_before(
            keys[right[j]],
            keys[left[i]],
            ascending,
        ));
        if from_left {
            out.push(left[i]);
            proof {
                let x = left@[i as int];
                assert(out@ == before.push(x));
                assert(out@[before.len() as int] == x);
                assert forall|b: int| j <= b < right@.len() implies precedes(
                    keys@,
                    ascending,
                    x as int,
                    #[trigger] right@[b] as int,
                ) by {
                    assert(right@[j as int] >= mid > x);
                    assert(b == j || precedes(
                        keys@,
                        ascending,
                        right@[j as int] as int,
                        right@[b] as int,
                    ));
                }
                lemma_contains_kept(before, x);
            }
            i = i + 1;
        } else {
            out.push(right[j]);
            proof {
                let x = right@[j as int];
                assert(out@ == before.push(x));
                assert(out@[before.len() as int] == x);
                assert forall|b: int| i <= b < left@.len() implies precedes(
                    keys@,
                    ascending,
                    x as int,
                    #[trigger] left@[b] as int,
                ) by {
                    assert(b == i || precedes(
                        keys@,
                        ascending,
                        left@[i as int] as int,
                        left@[b] as int,
                    ));
                }
                lemma_contains_kept(before, x);
            }
            j = j + 1;
        }
    }
    assert forall|x: usize| lo <= x < hi implies #[trigger] out@.contains(x) by {
        if x < mid {
            assert(left@.contains(x));
        } else {
            assert(right@.contains(x));
        }
    }
    out
}

proof fn lemma_contains_kept(s: Seq<usize>, x: usize)
    ensures
        s.push(x).contains(x),
        forall|y: usize| s.contains(y) ==> #[trigger] s.push(x).contains(y),
{
    assert(s.push(x)[s.len() as int] == x);
    assert forall|y: usize| s.contains(y) implies #[trigger] s.push(x).contains(y) by {
        let k = choose|k: int| 0 <= k < s.len() && s[k] == y;
        assert(s.push(x)[k] == y);
    }
}

fn rank_range(keys: &Vec<(i128, i128)>, ascending: bool, lo: usize, hi: usize) -> (out: Vec<usize>)
    requires
        lo <= hi <= keys@.len(),
    ensures
        ranks_range(keys@, ascending, lo as int, hi as int, out@),
    decreases hi - lo,
{
    if hi - lo <= 1 {
        let mut out: Vec<usize> = Vec::new();
        if lo < hi {
            out.push(lo);
            assert(out@[0] == lo);
        }
        out
    } else {
        let mid: usize = lo + (hi - lo) / 2;
        let left = rank_range(keys, ascending, lo, mid);
        let right = rank_range(keys, ascending, mid, hi);
        merge(keys, ascending, lo, mid, hi, &left, &right)
    }
}

/// Lists all places in the order of their keys.
pub fn rank(keys: &Vec<(i128, i128)>, ascending: bool) -> (ranks: Vec<usize>)
    ensures
        ranks_all(keys@, ascending, ranks@),
        ranks@ == ranking(keys@, ascending),
        ranks@.len() == keys@.len(),
        forall|a: int| 0 <= a < ranks@.len() ==> #[trigger] ranks@[a] < keys@.len(),
        forall|a: int, b: int|
            #![trigger ranks@[a], ranks@[b]]
            0 <= a < b < ranks@.len() ==> {
                let x = keys@[ranks@[a] as int];
                let y = keys@[ranks@[b] as int];
                ||| ascending && (x.0 < y.0 || x.0 == y.0 && x.1 < y.1)
                ||| !ascending && (x.0 > y.0 || x.0 == y.0 && x.1 > y.1)
                ||| x.0 == y.0 && x.1 == y.1 && ranks@[a] < ranks@[b]
            },
{
    let ranks = rank_range(keys, ascending, 0, keys.len());
    proof {
        ranking_is_unique(keys@, ascending, ranks@, ranking(keys@, ascending));
        assert forall|a: int, b: int|
            #![trigger ranks@[a], ranks@[b]]
            0 <= a < b < ranks@.len() implies {
            let x = keys@[ranks@[a] as int];
            let y = keys@[ranks@[b] as int];
            ||| ascending && (x.0 < y.0 || x.0 == y.0 && x.1 < y.1)
            ||| !ascending && (x.0 > y.0 || x.0 == y.0 && x.1 > y.1)
            ||| x.0 == y.0 && x.1 == y.1 && ranks@[a] < ranks@[b]
        } by {
            assert(precedes(keys@, ascending, ranks@[a] as int, ranks@[b] as int));
        }
    }
    ranks
}

/// There is one order only.
pub proof fn ranking_is_unique(
    keys: Seq<(i128, i128)>,
    ascending: bool,
    ranks1: Seq<usize>,
    ranks2: Seq<usize>,
)
    requires
        ranks_all(keys, ascending, ranks1),
        ranks_all(keys, ascending, ranks2),
    ensures
        ranks1 == ranks2,
{
    assert forall|n: int| 0 <= n <= ranks1.len() implies ranks1.take(n) == ranks2.take(n) by {
        lemma_same_prefix(keys, ascending, ranks1, ranks2, n);
    }
    assert(ranks1.take(ranks1.len() as int) =~= ranks1);
    assert(ranks2.take(ranks1.len() as int) =~= ranks2);
}

proof fn lemma_same_prefix(
    keys: Seq<(i128, i128)>,
    ascending: bool,
    ranks1: Seq<usize>,
    ranks2: Seq<usize>,
    n: int,
)
    requires
        ranks_all(keys, ascending, ranks1),
        ranks_all(keys, ascending, ranks2),
        0 <= n <= ranks1.len(),
    ensures
        forall|k: int| 0 <= k < n ==> #[trigger] ranks1[k] == ranks2[k],
        ranks1.take(n) == ranks2.take(n),
    decreases n,
{
    if n > 0 {
        lemma_same_prefix(keys, ascending, ranks1, ranks2, n - 1);
        let x = ranks1[n - 1];
        let y = ranks2[n - 1];
        if x != y {
            assert(ranks2.contains(x));
            assert(ranks1.contains(y));
            let a = choose|a: int| 0 <= a < ranks2.len() && ranks2[a] == x;
            let b = choose|b: int| 0 <= b < ranks1.len() && ranks1[b] == y;
            assert(a > n - 1) by {
                if a < n - 1 {
                    assert(ranks1[a] == ranks2[a]);
                    assert(precedes(keys, ascending, ranks1[a] as int, ranks1[n - 1] as int));
                }
            }
            assert(b > n - 1) by {
                if b < n - 1 {
                    assert(ranks1[b] == ranks2[b]);
                    assert(precedes(keys, ascending, ranks2[b] as int, ranks2[n - 1] as int));
                }
            }
            assert(precedes(keys, ascending, ranks2[n - 1] as int, ranks2[a] as int));
            assert(precedes(keys, ascending, ranks1[n - 1] as int, ranks1[b] as int));
        }
    }
    assert(ranks1.take(n) =~= ranks2.take(n));
}

} // verus!
