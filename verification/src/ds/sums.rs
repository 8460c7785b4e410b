//! Sums of numbers over ranges of places, and values that read as numbers.

use std::ops::{Add, Sub};
use vstd::prelude::*;
use vstd::std_specs::ops::AddSpec;

verus! {

/// The sum of the points from place `lo` up to but not including `hi`.
pub open spec fn range_sum(points: Seq<int>, lo: int, hi: int) -> int
    decreases hi - lo,
{
    if hi <= lo {
        0
    } else {
        range_sum(points, lo, hi - 1) + points[hi - 1]
    }
}

/// `val` reads every value as a number such that an addition that is
/// allowed adds the numbers.
pub open spec fn adds_up<T>(val: spec_fn(T) -> int) -> bool where
    T: Copy + Add<Output = T> + Sub<Output = T>,
 {
    forall|a: T, b: T| a.add_req(b) ==> val(#[trigger] a.add_spec(b)) == val(a) + val(b)
}

/// A range sums to what its two parts sum to.
pub proof fn lemma_range_split(points: Seq<int>, lo: int, mid: int, hi: int)
    requires
        lo <= mid <= hi,
    ensures
        range_sum(points, lo, hi) == range_sum(points, lo, mid) + range_sum(points, mid, hi),
    decreases hi - mid,
{
    if mid < hi {
        lemma_range_split(points, lo, mid, hi - 1);
    }
}

/// A point that changes changes the sums over the ranges that hold it.
pub proof fn lemma_range_update(points: Seq<int>, lo: int, hi: int, p: int, by: int)
    requires
        0 <= lo <= hi <= points.len(),
        0 <= p < points.len(),
    ensures
        range_sum(points.update(p, points[p] + by), lo, hi) == range_sum(points, lo, hi) + (if lo
            <= p < hi {
            by
        } else {
            0
        }),
    decreases hi - lo,
{
    if lo < hi {
        lemma_range_update(points, lo, hi - 1, p, by);
    }
}

/// Points that are all zero sum to zero.
pub proof fn lemma_zero_range(points: Seq<int>, lo: int, hi: int)
    requires
        0 <= lo,
        hi <= points.len(),
        forall|i: int| 0 <= i < points.len() ==> points[i] == 0,
    ensures
        range_sum(points, lo, hi) == 0,
    decreases hi - lo,
{
    if lo < hi {
        lemma_zero_range(points, lo, hi - 1);
    }
}

} // verus!
