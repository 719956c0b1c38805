//! Range sums over a mathematical sequence of integers.
//!
//! `rsum` is the specification that every node value and every query result
//! is measured against.  The lemmas give the three facts the tree needs:
//! adjacent ranges add up, a sum is bounded by the range length times an
//! element bound, and a sum only depends on the elements it ranges over.

use vstd::prelude::*;

verus! {

/// The sum of `v[lo ..= hi]`, and 0 when the range is empty.
pub open spec fn rsum(v: Seq<int>, lo: int, hi: int) -> int
    decreases hi - lo + 1,
{
    if lo > hi {
        0
    } else {
        rsum(v, lo, hi - 1) + v[hi]
    }
}

/// The sum of the part of `v[s ..= e]` that falls inside `v[qlo ..= qhi]`.
pub open spec fn clipped(v: Seq<int>, qlo: int, qhi: int, s: int, e: int) -> int {
    let a = if s > qlo {
        s
    } else {
        qlo
    };
    let b = if e < qhi {
        e
    } else {
        qhi
    };
    if a > b {
        0
    } else {
        rsum(v, a, b)
    }
}

/// Sums over adjacent ranges add up.
pub proof fn lemma_rsum_split(v: Seq<int>, lo: int, mid: int, hi: int)
    requires
        lo <= mid + 1,
        mid <= hi,
    ensures
        rsum(v, lo, hi) == rsum(v, lo, mid) + rsum(v, mid + 1, hi),
    decreases hi - mid,
{
    if mid < hi {
        lemma_rsum_split(v, lo, mid, hi - 1);
    }
}

/// A range sum is bounded by the range length times a bound on its elements.
pub proof fn lemma_rsum_bound(v: Seq<int>, lo: int, hi: int, lim: int)
    requires
        lo <= hi + 1,
        lim >= 0,
        forall|i: int| lo <= i <= hi ==> -lim <= #[trigger] v[i] <= lim,
    ensures
        -((hi - lo + 1) * lim) <= rsum(v, lo, hi) <= (hi - lo + 1) * lim,
    decreases hi - lo + 1,
{
    if lo <= hi {
        lemma_rsum_bound(v, lo, hi - 1, lim);
        assert((hi - lo) * lim + lim == (hi - lo + 1) * lim) by (nonlinear_arith);
    }
}

/// A range sum depends only on the elements of the range.
pub proof fn lemma_rsum_agree(v1: Seq<int>, v2: Seq<int>, lo: int, hi: int)
    requires
        forall|i: int| lo <= i <= hi ==> #[trigger] v1[i] == v2[i],
    ensures
        rsum(v1, lo, hi) == rsum(v2, lo, hi),
    decreases hi - lo + 1,
{
    if lo <= hi {
        lemma_rsum_agree(v1, v2, lo, hi - 1);
    }
}

/// Splitting a clipped sum at a midpoint inside the node range.
pub proof fn lemma_clipped_split(v: Seq<int>, qlo: int, qhi: int, s: int, m: int, e: int)
    requires
        s <= m < e,
    ensures
        clipped(v, qlo, qhi, s, e) == clipped(v, qlo, qhi, s, m) + clipped(v, qlo, qhi, m + 1, e),
{
    let a = if s > qlo {
        s
    } else {
        qlo
    };
    let b = if e < qhi {
        e
    } else {
        qhi
    };
    if a <= b {
        if b <= m {
        } else if a >= m + 1 {
        } else {
            lemma_rsum_split(v, a, m, b);
        }
    }
}

/// A clipped sum obeys the same bound as the sum over the whole node range.
pub proof fn lemma_clipped_bound(v: Seq<int>, qlo: int, qhi: int, s: int, e: int, lim: int)
    requires
        s <= e,
        lim >= 0,
        forall|i: int| s <= i <= e ==> -lim <= #[trigger] v[i] <= lim,
    ensures
        -((e - s + 1) * lim) <= clipped(v, qlo, qhi, s, e) <= (e - s + 1) * lim,
{
    let a = if s > qlo {
        s
    } else {
        qlo
    };
    let b = if e < qhi {
        e
    } else {
        qhi
    };
    assert((e - s + 1) * lim >= 0) by (nonlinear_arith)
        requires
            e >= s,
            lim >= 0,
    ;
    if a <= b {
        lemma_rsum_bound(v, a, b, lim);
        assert((b - a + 1) * lim <= (e - s + 1) * lim) by (nonlinear_arith)
            requires
                b - a + 1 <= e - s + 1,
                lim >= 0,
        ;
    }
}

} // verus!
