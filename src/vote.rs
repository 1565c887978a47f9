//! k-nearest-neighbour majority vote over precomputed distances.
//!
//! Candidates are numbered in encounter order. A candidate precedes another
//! when its distance is smaller, or equal with a smaller number, so the `K`
//! nearest are well defined. Among labels with the most votes the smallest
//! label number wins.

use vstd::prelude::*;

verus! {

/// Number of nearest neighbours that vote.
pub const K: usize = 5;

/// Candidate `i` comes before candidate `j` in nearest-first order.
pub open spec fn precedes(ds: Seq<u128>, i: int, j: int) -> bool {
    ds[i] < ds[j] || (ds[i] == ds[j] && i < j)
}

/// Number of candidates among the first `n` that come before `j`.
pub open spec fn rank_upto(ds: Seq<u128>, j: int, n: int) -> nat
    decreases n,
{
    if n <= 0 {
        0
    } else {
        rank_upto(ds, j, n - 1) + if precedes(ds, n - 1, j) {
            1nat
        } else {
            0nat
        }
    }
}

/// Position of candidate `j` in nearest-first order.
pub open spec fn rank(ds: Seq<u128>, j: int) -> nat {
    rank_upto(ds, j, ds.len() as int)
}

/// Candidate `j` is one of the `K` nearest.
pub open spec fn is_near(ds: Seq<u128>, j: int) -> bool {
    rank(ds, j) < K
}

/// Votes for label `l` among the first `n` candidates.
pub open spec fn votes_upto(ds: Seq<u128>, labs: Seq<usize>, l: int, n: int) -> nat
    decreases n,
{
    if n <= 0 {
        0
    } else {
        votes_upto(ds, labs, l, n - 1) + if is_near(ds, n - 1) && labs[n - 1] == l {
            1nat
        } else {
            0nat
        }
    }
}

/// Votes for label `l` among the `K` nearest candidates.
pub open spec fn votes(ds: Seq<u128>, labs: Seq<usize>, l: int) -> nat {
    votes_upto(ds, labs, l, ds.len() as int)
}

/// `w` has the most votes among labels `0..n_labels`, and every smaller label
/// has strictly fewer.
pub open spec fn is_winner(ds: Seq<u128>, labs: Seq<usize>, n_labels: int, w: int) -> bool {
    &&& 0 <= w < n_labels
    &&& forall|l: int|
        0 <= l < n_labels ==> #[trigger] votes(ds, labs, l) <= votes(ds, labs, w) && (l < w
            ==> votes(ds, labs, l) < votes(ds, labs, w))
}

proof fn lemma_rank_upto_le(ds: Seq<u128>, j: int, n: int)
    requires
        0 <= n,
    ensures
        rank_upto(ds, j, n) <= n,
    decreases n,
{
    if n > 0 {
        lemma_rank_upto_le(ds, j, n - 1);
    }
}

proof fn lemma_votes_upto_le(ds: Seq<u128>, labs: Seq<usize>, l: int, n: int)
    requires
        0 <= n,
    ensures
        votes_upto(ds, labs, l, n) <= n,
    decreases n,
{
    if n > 0 {
        lemma_votes_upto_le(ds, labs, l, n - 1);
    }
}

/// Position of candidate `j` in nearest-first order.
fn rank_of(dists: &Vec<u128>, j: usize) -> (r: usize)
    requires
        j < dists@.len(),
    ensures
        r == rank(dists@, j as int),
{
    let n = dists.len();
    let mut r: usize = 0;
    let mut i: usize = 0;
    while i < n
        invariant
            i <= n,
            n == dists@.len(),
            j < n,
            r == rank_upto(dists@, j as int, i as int),
        decreases n - i,
    {
        proof {
            lemma_rank_upto_le(dists@, j as int, i as int);
        }
        if dists[i] < dists[j] || (dists[i] == dists[j] && i < j) {
            r = r + 1;
        }
        i = i + 1;
    }
    r
}

/// The label chosen by a majority vote of the `K` nearest candidates:
/// candidate `j` lies at distance `dists[j]` and carries label `labels[j]`.
pub fn majority_label(dists: &Vec<u128>, labels: &Vec<usize>, n_labels: usize) -> (w: usize)
    requires
        dists@.len() == labels@.len(),
        n_labels > 0,
    ensures
        is_winner(dists@, labels@, n_labels as int, w as int),
{
    let n = dists.len();
    let mut tally: Vec<usize> = Vec::new();
    let mut l: usize = 0;
    while l < n_labels
        invariant
            l <= n_labels,
            tally@.len() == l,
            forall|m: int| 0 <= m < l ==> tally@[m] == 0,
        decreases n_labels - l,
    {
        tally.push(0);
        l = l + 1;
    }
    let mut j: usize = 0;
    while j < n
        invariant
            j <= n,
            n == dists@.len(),
            n == labels@.len(),
            tally@.len() == n_labels,
            forall|m: int|
                0 <= m < n_labels ==> #[trigger] tally@[m] == votes_upto(
                    dists@,
                    labels@,
                    m,
                    j as int,
                ),
        decreases n - j,
    {
        let r = rank_of(dists, j);
        let lab = labels[j];
        if r < K && lab < n_labels {
            proof {
                lemma_votes_upto_le(dists@, labels@, lab as int, j as int);
            }
            let t = tally[lab];
            tally.set(lab, t + 1);
        }
        j = j + 1;
    }
    let mut best: usize = 0;
    let mut m: usize = 1;
    while m < n_labels
        invariant
            1 <= m <= n_labels,
            best < m,
            tally@.len() == n_labels,
            forall|x: int| 0 <= x < n_labels ==> #[trigger] tally@[x] == votes(dists@, labels@, x),
            forall|x: int|
                0 <= x < m ==> tally@[x] <= tally@[best as int] && (x < best ==> tally@[x]
                    < tally@[best as int]),
        decreases n_labels - m,
    {
        if tally[m] > tally[best] {
            best = m;
        }
        m = m + 1;
    }
    assert forall|x: int| 0 <= x < n_labels implies #[trigger] votes(dists@, labels@, x) <= votes(
        dists@,
        labels@,
        best as int,
    ) && (x < best ==> votes(dists@, labels@, x) < votes(dists@, labels@, best as int)) by {
        assert(tally@[x] == votes(dists@, labels@, x));
        assert(tally@[best as int] == votes(dists@, labels@, best as int));
    }
    best
}

/// A candidate that no other candidate precedes.
proof fn lemma_first_min(ds: Seq<u128>, n: int) -> (j: int)
    requires
        0 < n <= ds.len(),
    ensures
        0 <= j < n,
        forall|i: int| 0 <= i < n ==> !#[trigger] precedes(ds, i, j),
    decreases n,
{
    if n == 1 {
        0
    } else {
        let k = lemma_first_min(ds, n - 1);
        if ds[n - 1] < ds[k] {
            assert forall|i: int| 0 <= i < n implies !#[trigger] precedes(ds, i, n - 1) by {
                if i < n - 1 {
                    assert(!precedes(ds, i, k));
                }
            }
            n - 1
        } else {
            assert forall|i: int| 0 <= i < n implies !#[trigger] precedes(ds, i, k) by {
                if i < n - 1 {
                    assert(!precedes(ds, i, k));
                }
            }
            k
        }
    }
}

proof fn lemma_rank_zero(ds: Seq<u128>, j: int, m: int)
    requires
        0 <= m <= ds.len(),
        forall|i: int| 0 <= i < m ==> !#[trigger] precedes(ds, i, j),
    ensures
        rank_upto(ds, j, m) == 0,
    decreases m,
{
    if m > 0 {
        lemma_rank_zero(ds, j, m - 1);
    }
}

proof fn lemma_votes_at_least_one(ds: Seq<u128>, labs: Seq<usize>, l: int, n: int, j: int)
    requires
        0 <= j < n,
        is_near(ds, j),
        labs[j] == l,
    ensures
        votes_upto(ds, labs, l, n) >= 1,
    decreases n,
{
    if j < n - 1 {
        lemma_votes_at_least_one(ds, labs, l, n - 1, j);
    }
}

proof fn lemma_votes_witness(ds: Seq<u128>, labs: Seq<usize>, l: int, n: int)
    requires
        0 <= n,
        votes_upto(ds, labs, l, n) >= 1,
    ensures
        exists|j: int| 0 <= j < n && #[trigger] labs[j] == l,
    decreases n,
{
    if n > 0 && !(is_near(ds, n - 1) && labs[n - 1] == l) {
        lemma_votes_witness(ds, labs, l, n - 1);
    }
}

/// When there is at least one candidate and every label number is in
/// range, the winner has at least one vote, so some candidate carries it.
pub proof fn lemma_winner_has_votes(ds: Seq<u128>, labs: Seq<usize>, n_labels: int, w: int)
    requires
        ds.len() == labs.len(),
        ds.len() > 0,
        forall|j: int| 0 <= j < labs.len() ==> #[trigger] labs[j] < n_labels,
        is_winner(ds, labs, n_labels, w),
    ensures
        votes(ds, labs, w) >= 1,
        exists|j: int| 0 <= j < labs.len() && #[trigger] labs[j] == w,
{
    let n = ds.len() as int;
    let j0 = lemma_first_min(ds, n);
    lemma_rank_zero(ds, j0, n);
    let l0 = labs[j0] as int;
    lemma_votes_at_least_one(ds, labs, l0, n, j0);
    assert(votes(ds, labs, l0) <= votes(ds, labs, w));
    lemma_votes_witness(ds, labs, w, n);
}

/// The vote has at most one winner.
pub proof fn lemma_winner_unique(ds: Seq<u128>, labs: Seq<usize>, n_labels: int, w1: int, w2: int)
    requires
        is_winner(ds, labs, n_labels, w1),
        is_winner(ds, labs, n_labels, w2),
    ensures
        w1 == w2,
{
    assert(votes(ds, labs, w1) <= votes(ds, labs, w2));
    assert(votes(ds, labs, w2) <= votes(ds, labs, w1));
}

/// A label with strictly more votes among the `K` nearest than every other
/// label is the only winner of the vote.
pub proof fn lemma_strict_majority_wins(
    ds: Seq<u128>,
    labs: Seq<usize>,
    n_labels: int,
    l: int,
    w: int,
)
    requires
        0 <= l < n_labels,
        forall|m: int| 0 <= m < n_labels && m != l ==> votes(ds, labs, m) < votes(ds, labs, l),
        is_winner(ds, labs, n_labels, w),
    ensures
        w == l,
{
    if w != l {
        assert(votes(ds, labs, l) <= votes(ds, labs, w));
        assert(votes(ds, labs, w) < votes(ds, labs, l));
    }
}

} // verus!
