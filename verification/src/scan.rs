//! Positions found by scanning a range forwards or backwards.

use vstd::prelude::*;

verus! {

/// The first index in `lo..hi` at which `p` holds; `hi` when there is none
/// (and `lo` when the range is empty).
pub open spec fn first_from(lo: int, hi: int, p: spec_fn(int) -> bool) -> int
    decreases hi - lo,
{
    if lo >= hi {
        lo
    } else if p(lo) {
        lo
    } else {
        first_from(lo + 1, hi, p)
    }
}

/// The last index in `lo..hi` at which `p` holds; `lo - 1` when there is none.
pub open spec fn last_from(lo: int, hi: int, p: spec_fn(int) -> bool) -> int
    decreases hi - lo,
{
    if hi <= lo {
        lo - 1
    } else if p(hi - 1) {
        hi - 1
    } else {
        last_from(lo, hi - 1, p)
    }
}

/// Walking down from `k` while `p` holds, but not below `lo`: where the walk stops.
pub open spec fn scan_down(lo: int, k: int, p: spec_fn(int) -> bool) -> int
    decreases k - lo,
{
    if k <= lo || !p(k) {
        k
    } else {
        scan_down(lo, k - 1, p)
    }
}

pub proof fn lemma_first_from(lo: int, hi: int, p: spec_fn(int) -> bool)
    requires
        lo <= hi,
    ensures
        lo <= first_from(lo, hi, p) <= hi,
        forall|k: int| lo <= k < first_from(lo, hi, p) ==> !#[trigger] p(k),
        first_from(lo, hi, p) < hi ==> p(first_from(lo, hi, p)),
    decreases hi - lo,
{
    if lo < hi && !p(lo) {
        lemma_first_from(lo + 1, hi, p);
    }
}

/// An index that no earlier index of the range beats is the first one.
pub proof fn lemma_first_from_is(lo: int, hi: int, p: spec_fn(int) -> bool, r: int)
    requires
        lo <= r <= hi,
        forall|k: int| lo <= k < r ==> !#[trigger] p(k),
        r < hi ==> p(r),
    ensures
        first_from(lo, hi, p) == r,
    decreases hi - lo,
{
    if lo < r {
        assert(!p(lo));
        lemma_first_from_is(lo + 1, hi, p, r);
    }
}

pub proof fn lemma_last_from(lo: int, hi: int, p: spec_fn(int) -> bool)
    requires
        lo <= hi,
    ensures
        lo - 1 <= last_from(lo, hi, p) < hi,
        forall|k: int| last_from(lo, hi, p) < k < hi ==> !#[trigger] p(k),
        last_from(lo, hi, p) >= lo ==> p(last_from(lo, hi, p)),
    decreases hi - lo,
{
    if lo < hi && !p(hi - 1) {
        lemma_last_from(lo, hi - 1, p);
    }
}

/// An index that no later index of the range beats is the last one.
pub proof fn lemma_last_from_is(lo: int, hi: int, p: spec_fn(int) -> bool, r: int)
    requires
        lo - 1 <= r < hi,
        forall|k: int| r < k < hi ==> !#[trigger] p(k),
        r >= lo ==> p(r),
    ensures
        last_from(lo, hi, p) == r,
    decreases hi - lo,
{
    if r < hi - 1 {
        assert(!p(hi - 1));
        lemma_last_from_is(lo, hi - 1, p, r);
    }
}

pub proof fn lemma_scan_down(lo: int, k: int, p: spec_fn(int) -> bool)
    requires
        lo <= k,
    ensures
        lo <= scan_down(lo, k, p) <= k,
        forall|m: int| scan_down(lo, k, p) < m <= k ==> #[trigger] p(m),
        scan_down(lo, k, p) == lo || !p(scan_down(lo, k, p)),
    decreases k - lo,
{
    if !(k <= lo || !p(k)) {
        lemma_scan_down(lo, k - 1, p);
    }
}

/// A stop that the walk reaches first is where it stops.
pub proof fn lemma_scan_down_is(lo: int, k: int, p: spec_fn(int) -> bool, r: int)
    requires
        lo <= r <= k,
        forall|m: int| r < m <= k ==> #[trigger] p(m),
        r == lo || !p(r),
    ensures
        scan_down(lo, k, p) == r,
    decreases k - lo,
{
    if r < k {
        assert(p(k));
        lemma_scan_down_is(lo, k - 1, p, r);
    }
}

/// The sum of `f(i)` over `lo..hi`.
pub open spec fn range_sum(lo: int, hi: int, f: spec_fn(int) -> int) -> int
    decreases hi - lo,
{
    if hi <= lo {
        0
    } else {
        range_sum(lo, hi - 1, f) + f(hi - 1)
    }
}

/// A range sum can also be split off at its low end.
pub proof fn lemma_range_sum_low(lo: int, hi: int, f: spec_fn(int) -> int)
    requires
        lo < hi,
    ensures
        range_sum(lo, hi, f) == f(lo) + range_sum(lo + 1, hi, f),
    decreases hi - lo,
{
    if lo + 1 < hi {
        lemma_range_sum_low(lo, hi - 1, f);
    } else {
        assert(range_sum(lo, hi - 1, f) == 0);
        assert(range_sum(lo + 1, hi, f) == 0);
    }
}

/// A range sum of non-negative terms grows with its high end.
pub proof fn lemma_range_sum_mono(lo: int, mid: int, hi: int, f: spec_fn(int) -> int)
    requires
        lo <= mid <= hi,
        forall|i: int| lo <= i < hi ==> #[trigger] f(i) >= 0,
    ensures
        0 <= range_sum(lo, mid, f) <= range_sum(lo, hi, f),
    decreases hi - lo,
{
    if mid < hi {
        lemma_range_sum_mono(lo, mid, hi - 1, f);
    } else if lo < mid {
        lemma_range_sum_mono(lo, mid - 1, mid - 1, f);
    }
}

/// A range sum splits at any point between its ends.
pub proof fn lemma_range_sum_split(lo: int, mid: int, hi: int, f: spec_fn(int) -> int)
    requires
        lo <= mid <= hi,
    ensures
        range_sum(lo, hi, f) == range_sum(lo, mid, f) + range_sum(mid, hi, f),
    decreases hi - mid,
{
    if mid < hi {
        lemma_range_sum_split(lo, mid, hi - 1, f);
    }
}

} // verus!
