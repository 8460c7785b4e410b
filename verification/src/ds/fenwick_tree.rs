use crate::base::bits::{
    lemma_lowbit, lemma_lowbit_between, lemma_lowbit_bounds, lemma_lowbit_carries,
    lemma_one_shifted, lowbit,
};
use super::sums::{
    adds_up, lemma_range_split, lemma_range_update, lemma_zero_range, range_sum,
};
use std::ops::{Add, Sub};
use vstd::prelude::*;
use vstd::std_specs::ops::AddSpec;

verus! {

/// Fenwick tree for point added and prefix sum
#[verifier::reject_recursive_types(T)]
pub struct FenwickTree<T> where T: Copy + Add<Output = T> + Sub<Output = T> {
    inner: Vec<T>,
    zero: T,
}

/// The cells after `delta` has been added to cell `at`, counted from one, and
/// to every cell that the lowest set bit leads to from there.
pub open spec fn raised<T>(cells: Seq<T>, at: nat, delta: T) -> Seq<T> where
    T: Copy + Add<Output = T> + Sub<Output = T>,

    decreases 2 * cells.len() + 2 - at,
    via raised_ends::<T>
{
    if at == 0 || at > cells.len() {
        cells
    } else {
        raised(
            cells.update(at - 1, cells[at - 1].add_spec(delta)),
            at + lowbit(at),
            delta,
        )
    }
}

/// Every addition on the way of `raised` is allowed.
pub open spec fn raisable<T>(cells: Seq<T>, at: nat, delta: T) -> bool where
    T: Copy + Add<Output = T> + Sub<Output = T>,

    decreases 2 * cells.len() + 2 - at,
    via raisable_ends::<T>
{
    if at == 0 || at > cells.len() {
        true
    } else {
        cells[at - 1].add_req(delta) && raisable(
            cells.update(at - 1, cells[at - 1].add_spec(delta)),
            at + lowbit(at),
            delta,
        )
    }
}

/// `acc` plus cell `end`, counted from one, plus every cell that taking the
/// lowest set bit away leads to from there.
pub open spec fn gathered<T>(cells: Seq<T>, acc: T, end: nat) -> T where
    T: Copy + Add<Output = T> + Sub<Output = T>,

    decreases end,
    via gathered_ends::<T>
{
    if end == 0 || end > cells.len() {
        acc
    } else {
        gathered(cells, acc.add_spec(cells[end - 1]), (end - lowbit(end)) as nat)
    }
}

/// Every addition on the way of `gathered` is allowed.
pub open spec fn gatherable<T>(cells: Seq<T>, acc: T, end: nat) -> bool where
    T: Copy + Add<Output = T> + Sub<Output = T>,

    decreases end,
    via gatherable_ends::<T>
{
    if end == 0 || end > cells.len() {
        true
    } else {
        acc.add_req(cells[end - 1]) && gatherable(
            cells,
            acc.add_spec(cells[end - 1]),
            (end - lowbit(end)) as nat,
        )
    }
}

#[via_fn]
proof fn raised_ends<T>(cells: Seq<T>, at: nat, delta: T) where
    T: Copy + Add<Output = T> + Sub<Output = T>,
 {
    if at > 0 {
        lemma_lowbit_bounds(at);
    }
}

#[via_fn]
proof fn raisable_ends<T>(cells: Seq<T>, at: nat, delta: T) where
    T: Copy + Add<Output = T> + Sub<Output = T>,
 {
    if at > 0 {
        lemma_lowbit_bounds(at);
    }
}

#[via_fn]
proof fn gathered_ends<T>(cells: Seq<T>, acc: T, end: nat) where
    T: Copy + Add<Output = T> + Sub<Output = T>,
 {
    if end > 0 {
        lemma_lowbit_bounds(end);
    }
}

#[via_fn]
proof fn gatherable_ends<T>(cells: Seq<T>, acc: T, end: nat) where
    T: Copy + Add<Output = T> + Sub<Output = T>,
 {
    if end > 0 {
        lemma_lowbit_bounds(end);
    }
}

/// The sum of the points that the cell at place `i` stands for: with `j` for
/// `i + 1`, the points from `j` less its lowest set bit up to but not
/// including `j`.
pub open spec fn cell_sum(points: Seq<int>, i: int) -> int {
    range_sum(points, i + 1 - lowbit((i + 1) as nat), i + 1)
}

/// Every cell reads as the sum of the points that it stands for.
pub open spec fn holds_sums<T>(cells: Seq<T>, points: Seq<int>, val: spec_fn(T) -> int) -> bool where
    T: Copy + Add<Output = T> + Sub<Output = T>,
 {
    &&& cells.len() == points.len()
    &&& forall|i: int| 0 <= i < cells.len() ==> val(cells[i]) == #[trigger] cell_sum(points, i)
}

/// Cells of zero hold the sums of points that are all zero.
pub proof fn lemma_sums_start<T>(zero: T, n: nat, val: spec_fn(T) -> int) where
    T: Copy + Add<Output = T> + Sub<Output = T>,

    requires
        val(zero) == 0,
    ensures
        holds_sums(Seq::new(n, |i: int| zero), Seq::new(n, |i: int| 0int), val),
{
    let points = Seq::new(n, |i: int| 0int);
    assert forall|i: int| 0 <= i < n implies #[trigger] cell_sum(points, i) == 0 by {
        lemma_lowbit_bounds((i + 1) as nat);
        lemma_zero_range(points, i + 1 - lowbit((i + 1) as nat), i + 1);
    }
}

/// What `prefix_sum` gathers reads as the sum of the points before `end`,
/// on top of what it started from.
pub proof fn lemma_gathered_sums<T>(
    cells: Seq<T>,
    points: Seq<int>,
    val: spec_fn(T) -> int,
    acc: T,
    end: nat,
) where T: Copy + Add<Output = T> + Sub<Output = T>
    requires
        adds_up(val),
        holds_sums(cells, points, val),
        end <= cells.len(),
        gatherable(cells, acc, end),
    ensures
        val(gathered(cells, acc, end)) == val(acc) + range_sum(points, 0, end as int),
    decreases end,
{
    if end > 0 {
        lemma_lowbit_bounds(end);
        let rest = (end - lowbit(end)) as nat;
        let next = acc.add_spec(cells[end - 1]);
        lemma_gathered_sums(cells, points, val, next, rest);
        lemma_range_split(points, 0, rest as int, end as int);
        assert(val(cells[end - 1]) == cell_sum(points, end - 1));
    }
}

/// Cells that hold the sums for the cells before `at` with the point `p`
/// raised already, and for the others not yet, hold the sums with the point
/// raised once `raised` has gone on from `at`.
proof fn lemma_raised_from<T>(
    cells: Seq<T>,
    points: Seq<int>,
    val: spec_fn(T) -> int,
    at: nat,
    p: int,
    delta: T,
) where T: Copy + Add<Output = T> + Sub<Output = T>
    requires
        adds_up(val),
        cells.len() == points.len(),
        0 <= p < points.len(),
        p < at,
        at <= cells.len() ==> at - lowbit(at) <= p,
        raisable(cells, at, delta),
        forall|i: int|
            0 <= i < at - 1 && i < cells.len() ==> val(cells[i]) == #[trigger] cell_sum(
                points.update(p, points[p] + val(delta)),
                i,
            ),
        forall|i: int|
            at - 1 <= i < cells.len() ==> val(cells[i]) == #[trigger] cell_sum(points, i),
    ensures
        holds_sums(raised(cells, at, delta), points.update(p, points[p] + val(delta)), val),
    decreases 2 * cells.len() + 2 - at,
{
    let more = points.update(p, points[p] + val(delta));
    if at <= cells.len() {
        lemma_lowbit_bounds(at);
        lemma_lowbit_carries(at);
        let step = at + lowbit(at);
        let lifted = cells.update(at - 1, cells[at - 1].add_spec(delta));
        assert(val(cells[at - 1]) == cell_sum(points, at - 1));
        lemma_range_update(points, at - lowbit(at), at as int, p, val(delta));
        assert forall|i: int| 0 <= i < step - 1 && i < lifted.len() implies val(lifted[i])
            == #[trigger] cell_sum(more, i) by {
            if i > at - 1 {
                lemma_lowbit_between(at, (i + 1) as nat);
                lemma_lowbit_bounds((i + 1) as nat);
                lemma_range_update(points, i + 1 - lowbit((i + 1) as nat), i + 1, p, val(delta));
                assert(val(cells[i]) == cell_sum(points, i));
            } else if i < at - 1 {
                assert(val(cells[i]) == cell_sum(more, i));
            }
        }
        assert forall|i: int| step - 1 <= i < lifted.len() implies val(lifted[i])
            == #[trigger] cell_sum(points, i) by {
            assert(val(cells[i]) == cell_sum(points, i));
        }
        if step <= cells.len() {
            lemma_lowbit_bounds(step);
        }
        lemma_raised_from(lifted, points, val, step, p, delta);
    } else {
        assert forall|i: int| 0 <= i < cells.len() implies val(cells[i]) == #[trigger] cell_sum(
            more,
            i,
        ) by {}
    }
}

/// Adding `delta` at `pos` raises the point there by what `delta` reads as.
pub proof fn lemma_raised_sums<T>(
    cells: Seq<T>,
    points: Seq<int>,
    val: spec_fn(T) -> int,
    pos: nat,
    delta: T,
) where T: Copy + Add<Output = T> + Sub<Output = T>
    requires
        adds_up(val),
        holds_sums(cells, points, val),
        pos < cells.len(),
        raisable(cells, pos + 1, delta),
    ensures
        holds_sums(
            raised(cells, pos + 1, delta),
            points.update(pos as int, points[pos as int] + val(delta)),
            val,
        ),
{
    let at = pos + 1;
    let more = points.update(pos as int, points[pos as int] + val(delta));
    lemma_lowbit_bounds(at);
    assert forall|i: int| 0 <= i < at - 1 && i < cells.len() implies val(cells[i])
        == #[trigger] cell_sum(more, i) by {
        lemma_lowbit_bounds((i + 1) as nat);
        lemma_range_update(points, i + 1 - lowbit((i + 1) as nat), i + 1, pos as int, val(delta));
        assert(val(cells[i]) == cell_sum(points, i));
    }
    lemma_raised_from(cells, points, val, at, pos as int, delta);
}

impl<T> FenwickTree<T> where T: Copy + Add<Output = T> + Sub<Output = T> {
    /// The cells of the tree. Cell `j`, counted from one, stands for the
    /// positions above `j` less its lowest set bit up to `j`.
    pub closed spec fn cells(&self) -> Seq<T> {
        self.inner@
    }

    /// The value that sums start from.
    pub closed spec fn zero(&self) -> T {
        self.zero
    }

    /// Creates an empty FenwickTree with `zero`.
    pub fn new(size: usize, zero: T) -> (t: Self)
        ensures
            t.zero() == zero,
            t.cells() == Seq::new(size as nat, |i: int| zero),
    {
        let mut inner: Vec<T> = Vec::with_capacity(size);
        let mut i: usize = 0;
        while i < size
            invariant
                i <= size,
                inner@ == Seq::new(i as nat, |k: int| zero),
            decreases size - i,
        {
            inner.push(zero);
            i += 1;
            assert(inner@ =~= Seq::new(i as nat, |k: int| zero));
        }
        FenwickTree { inner, zero }
    }

    /// Returns the length.
    pub fn len(&self) -> (n: usize)
        ensures
            n == self.cells().len(),
    {
        self.inner.len()
    }

    /// Returns if FenwickTree is empty.
    pub fn is_empty(&self) -> (b: bool)
        ensures
            b == (self.cells().len() == 0),
    {
        self.inner.len() == 0
    }

    /// Add `delta` to the position `pos`
    pub fn add(&mut self, pos: usize, delta: T)
        requires
            T::obeys_add_spec(),
            pos < usize::MAX,
            2 * old(self).cells().len() <= usize::MAX,
            raisable(old(self).cells(), (pos + 1) as nat, delta),
        ensures
            final(self).zero() == old(self).zero(),
            final(self).cells() == raised(old(self).cells(), (pos + 1) as nat, delta),
    {
        let ghost first = (pos + 1) as nat;
        let mut pos = pos + 1;
        while pos <= self.len()
            invariant
                T::obeys_add_spec(),
                pos >= 1,
                self.zero() == old(self).zero(),
                self.cells().len() == old(self).cells().len(),
                2 * self.cells().len() <= usize::MAX,
                raisable(self.cells(), pos as nat, delta),
                raised(self.cells(), pos as nat, delta) == raised(old(self).cells(), first, delta),
            decreases 2 * self.cells().len() + 2 - pos,
        {
            proof {
                lemma_lowbit(pos);
                lemma_one_shifted(pos);
            }
            let cell = self.inner[pos - 1];
            self.inner.set(pos - 1, cell + delta);
            pos += 1 << pos.trailing_zeros();
        }
    }

    /// Gets sum of `[0, end)` in basic sequence.
    pub fn prefix_sum(&self, end: usize) -> (r: T)
        requires
            T::obeys_add_spec(),
            end <= self.cells().len(),
            gatherable(self.cells(), self.zero(), end as nat),
        ensures
            r == gathered(self.cells(), self.zero(), end as nat),
    {
        let mut res = self.zero;
        let ghost whole = end as nat;
        let mut end = end;
        while end != 0
            invariant
                T::obeys_add_spec(),
                end <= self.cells().len(),
                gatherable(self.cells(), res, end as nat),
                gathered(self.cells(), res, end as nat) == gathered(self.cells(), self.zero(), whole),
            decreases end,
        {
            proof {
                lemma_lowbit(end);
                lemma_one_shifted(end);
            }
            res = res + self.inner[end - 1];
            end -= 1 << end.trailing_zeros();
        }
        res
    }
}

} // verus!
