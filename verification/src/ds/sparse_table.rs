use crate::base::bits::{
    lemma_lowbit, lemma_power_lowbit,
    };
use crate::base::order::{at_most, least, lemma_total_order, smaller, total_order};
use std::ops::Range;
use vstd::arithmetic::power2::{
    lemma_pow2_pos, lemma_pow2_strictly_increases, lemma_pow2_unfold, pow2,
};

use vstd::bits::{lemma_usize_pow2_no_overflow, lemma_usize_shl_is_mul};
use vstd::prelude::*;

verus! {

/// A larger power of two is larger.
pub proof fn lemma_pow2_increases(a: nat, b: nat)
    requires
        a < b,
    ensures
        pow2(a) < pow2(b),
{
    lemma_pow2_strictly_increases(a, b);
}

/// For every start the smallest value of each run whose length is a power of
/// two.
pub struct SparseTable<'a, T: Ord> {
    inner: Vec<Vec<&'a T>>,
}

/// `m` is one of the values from place `lo` up to but not including `hi`, and
/// at most each of them.
pub open spec fn least_of<T: Ord>(m: T, values: Seq<T>, lo: int, hi: int) -> bool {
    &&& exists|k: int| lo <= k < hi && #[trigger] values[k] == m
    &&& forall|k: int| lo <= k < hi ==> at_most(m, #[trigger] values[k])
}

/// The smallest values of two runs that together make up a longer run give
/// the smallest value of that.
pub proof fn lemma_least_joined<T: Ord>(a: T, b: T, values: Seq<T>, lo: int, cut: int, over: int, hi: int)
    requires
        total_order::<T>(),
        lo <= cut <= over <= hi,
        least_of(a, values, lo, over),
        least_of(b, values, cut, hi),
    ensures
        least_of(smaller(a, b), values, lo, hi),
{
    lemma_total_order::<T>();
    let m = smaller(a, b);
    let ka = choose|k: int| lo <= k < over && #[trigger] values[k] == a;
    let kb = choose|k: int| cut <= k < hi && #[trigger] values[k] == b;
    if m == a {
        assert(lo <= ka < hi && values[ka] == m);
    } else {
        assert(lo <= kb < hi && values[kb] == m);
    }
    assert(at_most(m, a) && at_most(m, b));
    assert forall|k: int| lo <= k < hi implies at_most(m, #[trigger] values[k]) by {
        if k < over {
            assert(at_most(a, values[k]));
        } else {
            assert(at_most(b, values[k]));
        }
    }
}

/// The largest `k` with two to the `k` at most `len`.
pub fn floor_log2(len: usize) -> (k: usize)
    requires
        len >= 1,
    ensures
        k < usize::BITS,
        pow2(k as nat) <= len < 2 * pow2(k as nat),
{
    let mut k: usize = 0;
    let mut p: usize = 1;
    proof {
        vstd::arithmetic::power2::lemma2_to64();
    }
    while p <= len / 2
        invariant
            p == pow2(k as nat),
            1 <= p <= len,
            k < usize::BITS,
        decreases len - p,
    {
        proof {
            lemma_pow2_unfold((k + 1) as nat);
            if k + 1 >= usize::BITS {
                crate::base::bits::lemma_word_is_full();
                lemma_pow2_strictly_increases((usize::BITS - 1) as nat, (k + 1) as nat);
                lemma_pow2_unfold(usize::BITS as nat);
            }
        }
        p *= 2;
        k += 1;
    }
    k
}

impl<'a, T: Ord> SparseTable<'a, T> {
    /// The smallest values by start and by the power of the length.
    pub closed spec fn rows(&self) -> Seq<Seq<T>> {
        Seq::new(
            self.inner@.len(),
            |i: int| Seq::new(self.inner@[i]@.len(), |j: int| *self.inner@[i]@[j]),
        )
    }

    /// The values that the table was made of.
    pub open spec fn values(&self) -> Seq<T> {
        Seq::new(self.rows().len(), |i: int| self.rows()[i][0])
    }

    /// The table holds the run of the power `l` that starts at `i`.
    pub open spec fn has(&self, i: int, l: int) -> bool {
        0 <= l < self.rows()[i].len()
    }

    /// A run of the power `l` that starts at `i` ends within the values.
    pub open spec fn fits(&self, i: int, l: int) -> bool {
        0 <= l && i + pow2(l as nat) <= self.rows().len()
    }

    /// The runs of the powers below `j` are there for every start, and those
    /// of the power `j` for the starts before `done`.
    pub closed spec fn built(&self, j: nat, done: int) -> bool {
        &&& forall|i: int, l: int|
            0 <= i < self.rows().len() ==> (#[trigger] self.has(i, l) <==> (l < j || (l == j && i
                < done)) && self.fits(i, l))
        &&& total_order::<T>() ==> forall|i: int, l: int|
            0 <= i < self.rows().len() && 0 <= l < self.rows()[i].len() ==> least_of(
                #[trigger] self.rows()[i][l],
                self.values(),
                i,
                i + pow2(l as nat),
            )
    }

    /// What `built` says of one start and one power.
    proof fn lemma_built_at(&self, j: nat, done: int, i: int, l: int)
        requires
            self.built(j, done),
            0 <= i < self.rows().len(),
        ensures
            self.has(i, l) <==> (l < j || (l == j && i < done)) && self.fits(i, l),
    {
    }

    /// One more run of the power `j`, for the start `i`.
    proof fn lemma_pushed(&self, after: &Self, j: nat, i: int, m: T)
        requires
            j >= 1,
            self.built(j, i),
            0 <= i,
            i + pow2(j) <= self.rows().len(),
            after.rows() == self.rows().update(i, self.rows()[i].push(m)),
            total_order::<T>() ==> m == smaller(
                self.rows()[i][j - 1],
                self.rows()[i + pow2((j - 1) as nat)][j - 1],
            ),
        ensures
            after.built(j, i + 1),
            after.values() == self.values(),
            self.rows()[i].len() == j,
    {
        let n = self.rows().len();
        let half = pow2((j - 1) as nat);
        lemma_pow2_unfold(j);
        lemma_pow2_pos((j - 1) as nat);
        lemma_pow2_pos(j);
        vstd::arithmetic::power2::lemma2_to64();
        // the row has the runs below `j`, and the one of `j` not yet
        assert(self.rows()[i].len() == j) by {
            let len = self.rows()[i].len();
            if len > j {
                self.lemma_built_at(j, i, i, j as int);
            }
            if len < j {
                lemma_pow2_increases(len, j);
                self.lemma_built_at(j, i, i, len as int);
            }
        }
        assert(0 < self.rows()[i].len());
        assert(after.values() =~= self.values()) by {
            assert forall|k: int| 0 <= k < n implies after.rows()[k][0] == self.rows()[k][0] by {
                self.lemma_built_at(j, i, k, 0);
            }
        }
        assert forall|k: int, l: int| 0 <= k < n implies (#[trigger] after.has(k, l) <==> (l < j
            || (l == j && k < i + 1)) && after.fits(k, l)) by {
            self.lemma_built_at(j, i, k, l);
            if k == i && l > j {
                lemma_pow2_increases(j, l as nat);
            }
        }
        if total_order::<T>() {
            self.lemma_built_at(j, i, i + half, j - 1);
            assert forall|k: int, l: int|
                0 <= k < after.rows().len() && 0 <= l < after.rows()[k].len() implies least_of(
                #[trigger] after.rows()[k][l],
                after.values(),
                k,
                k + pow2(l as nat),
            ) by {
                if k == i && l == j {
                    let a = self.rows()[i][j - 1];
                    let b = self.rows()[i + half][j - 1];
                    assert(least_of(a, self.values(), i, i + half));
                    assert(least_of(b, self.values(), i + half, i + half + half));
                    lemma_least_joined(a, b, self.values(), i, i + half, i + half, i + half + half);
                } else {
                    assert(after.rows()[k][l] == self.rows()[k][l]);
                    assert(least_of(self.rows()[k][l], self.values(), k, k + pow2(l as nat)));
                }
            }
        }
    }

    /// The runs of the power `j` are there for every start that has room.
    proof fn lemma_level_done(&self, j: nat)
        requires
            pow2(j) <= self.rows().len(),
            self.built(j, self.rows().len() - pow2(j) + 1),
        ensures
            self.built(j + 1, 0),
    {
        let n = self.rows().len();
        assert forall|i: int, l: int| 0 <= i < n implies (#[trigger] self.has(i, l) <==> (l < j + 1
            || (l == j + 1 && i < 0)) && self.fits(i, l)) by {
            self.lemma_built_at(j, n - pow2(j) + 1, i, l);
        }
    }

    /// No start has room for a run of the power `j`.
    proof fn lemma_level_empty(&self, j: nat)
        requires
            pow2(j) > self.rows().len(),
            self.built(j, 0),
        ensures
            self.built(j + 1, 0),
    {
        let n = self.rows().len();
        assert forall|i: int, l: int| 0 <= i < n implies (#[trigger] self.has(i, l) <==> (l < j + 1
            || (l == j + 1 && i < 0)) && self.fits(i, l)) by {
            self.lemma_built_at(j, 0, i, l);
        }
    }

    /// With the runs of all powers up to one that covers all values, the
    /// table is complete.
    proof fn lemma_levels_all(&self, c: nat)
        requires
            4 * self.rows().len() <= usize::MAX,
            pow2(c) >= self.rows().len(),
            self.built(c + 1, 0),
        ensures
            self.wf(),
    {
        let n = self.rows().len();
        assert forall|i: int, l: int| 0 <= i < n implies (#[trigger] self.has(i, l) <==> self.fits(
            i,
            l,
        )) by {
            self.lemma_built_at(c + 1, 0, i, l);
            if l > c {
                lemma_pow2_increases(c, l as nat);
                lemma_pow2_pos(l as nat);
            }
        }
    }

    /// Every start has the runs that fit before the end, and where the order
    /// is total each cell holds the smallest value of its run.
    pub open spec fn wf(&self) -> bool {
        &&& 4 * self.rows().len() <= usize::MAX
        &&& forall|i: int, l: int|
            0 <= i < self.rows().len() ==> (#[trigger] self.has(i, l) <==> self.fits(i, l))
        &&& total_order::<T>() ==> forall|i: int, l: int|
            0 <= i < self.rows().len() && 0 <= l < self.rows()[i].len() ==> least_of(
                #[trigger] self.rows()[i][l],
                self.values(),
                i,
                i + pow2(l as nat),
            )
    }

    /// Builds the table for `values`.
    pub fn new(values: &'a [T]) -> (t: Self)
        requires
            4 * values@.len() <= usize::MAX,
        ensures
            t.wf(),
            t.values() == values@,
    {
        let n = values.len();
        let full = n.next_power_of_two();
        let top = full.trailing_zeros() as usize;
        proof {
            lemma_lowbit(full);
            lemma_power_lowbit(full as nat);
        }
        let mut inner: Vec<Vec<&'a T>> = Vec::with_capacity(n);
        let mut i: usize = 0;
        while i < n
            invariant
                i <= n,
                n == values@.len(),
                inner@.len() == i,
                forall|k: int| 0 <= k < i ==> (#[trigger] inner@[k])@.len() == 1 && *inner@[k]@[0] == values@[k],
            decreases n - i,
        {
            let mut row: Vec<&'a T> = Vec::new();
            row.push(&values[i]);
            inner.push(row);
            i += 1;
        }
        let mut t = SparseTable { inner };
        proof {
            assert(t.values() =~= values@);
            vstd::arithmetic::power2::lemma2_to64();
            assert(t.rows().len() == n);
            assert forall|i: int, l: int| 0 <= i < n implies (#[trigger] t.has(i, l) <==> (l < 1 || (
            l == 1 && i < 0)) && t.fits(i, l)) by {
                assert(t.rows()[i].len() == 1);
            }
            if total_order::<T>() {
                lemma_total_order::<T>();
                assert forall|i: int, l: int|
                    0 <= i < t.rows().len() && 0 <= l < t.rows()[i].len() implies least_of(
                    #[trigger] t.rows()[i][l],
                    t.values(),
                    i,
                    i + pow2(l as nat),
                ) by {
                    assert(t.values()[i] == t.rows()[i][l]);
                }
            }
        }
        let mut j: usize = 1;
        while j <= top
            invariant
                1 <= j <= top + 1,
                top < usize::BITS,
                n == values@.len(),
                4 * n <= usize::MAX,
                t.rows().len() == n,
                t.values() == values@,
                t.built(j as nat, 0),
            decreases top + 1 - j,
        {
            proof {
                lemma_usize_pow2_no_overflow(j as nat);
                lemma_usize_pow2_no_overflow((j - 1) as nat);
                lemma_pow2_unfold(j as nat);
                lemma_pow2_pos((j - 1) as nat);
                assert(1 * pow2(j as nat) == pow2(j as nat)) by (nonlinear_arith);
                assert(1 * pow2((j - 1) as nat) == pow2((j - 1) as nat)) by (nonlinear_arith);
                lemma_usize_shl_is_mul(1, j);
                lemma_usize_shl_is_mul(1, (j - 1) as usize);
            }
            let width: usize = 1 << j;
            let half: usize = 1 << (j - 1);
            if width <= n {
                let mut i: usize = 0;
                while i <= n - width
                    invariant
                        1 <= j < usize::BITS,
                        width == pow2(j as nat),
                        half == pow2((j - 1) as nat),
                        width == 2 * half,
                        half >= 1,
                        width <= n,
                        i <= n - width + 1,
                        n == values@.len(),
                        4 * n <= usize::MAX,
                        t.rows().len() == n,
                        t.values() == values@,
                        t.built(j as nat, i as int),
                    decreases n - width + 1 - i,
                {
                    let ghost before = t;
                    proof {
                        t.lemma_built_at(j as nat, i as int, i as int, j - 1);
                        t.lemma_built_at(j as nat, i as int, i + half, j - 1);
                        assert(t.rows().len() == t.inner@.len());
                        assert(t.rows()[i as int].len() == t.inner@[i as int]@.len());
                        assert(t.rows()[i + half].len() == t.inner@[i + half]@.len());
                    }
                    let left = t.inner[i][j - 1];
                    let right = t.inner[i + half][j - 1];
                    let m = least(left, right);
                    t.inner[i].push(m);
                    proof {
                        assert(*left == before.rows()[i as int][j - 1]);
                        assert(*right == before.rows()[i + half][j - 1]);
                        assert(t.rows() =~= before.rows().update(
                            i as int,
                            before.rows()[i as int].push(*m),
                        )) by {
                            assert(t.rows().len() == before.rows().len());
                            assert forall|k: int| 0 <= k < t.rows().len() implies t.rows()[k]
                                =~= before.rows().update(
                                i as int,
                                before.rows()[i as int].push(*m),
                            )[k] by {
                                if k != i {
                                    assert(t.inner@[k] == before.inner@[k]);
                                }
                            }
                        }
                        before.lemma_pushed(&t, j as nat, i as int, *m);
                    }
                    i += 1;
                }
                proof {
                    t.lemma_level_done(j as nat);
                }
            } else {
                proof {
                    t.lemma_level_empty(j as nat);
                }
            }
            j += 1;
        }
        proof {
            t.lemma_levels_all(top as nat);
        }
        t
    }

    /// The smallest of the values in `range`.
    pub fn min(&self, range: Range<usize>) -> (r: &'a T)
        requires
            self.wf(),
            range.start < range.end <= self.rows().len(),
        ensures
            total_order::<T>() ==> least_of(
                *r,
                self.values(),
                range.start as int,
                range.end as int,
            ),
    {
        let len = range.end - range.start;
        let ghost start = range.start as int;
        let ghost end = range.end as int;
        assert(self.rows().len() == self.inner@.len());
        if len.is_power_of_two() {
            let level = len.trailing_zeros() as usize;
            proof {
                lemma_lowbit(len);
                lemma_power_lowbit(len as nat);
                assert(self.fits(start, level as int));
                assert(self.has(start, level as int));
                assert(self.rows()[start].len() == self.inner@[start]@.len());
                if total_order::<T>() {
                    assert(least_of(
                        self.rows()[start][level as int],
                        self.values(),
                        start,
                        start + pow2(level as nat),
                    ));
                }
            }
            self.inner[range.start][level]
        } else {
            let k = floor_log2(len);
            proof {
                lemma_usize_pow2_no_overflow(k as nat);
                assert(1 * pow2(k as nat) == pow2(k as nat)) by (nonlinear_arith);
                lemma_usize_shl_is_mul(1, k);
            }
            let width: usize = 1 << k;
            proof {
                assert(self.fits(start, k as int));
                assert(self.has(start, k as int));
                assert(self.fits(end - width, k as int));
                assert(self.has(end - width, k as int));
                assert(self.rows()[start].len() == self.inner@[start]@.len());
                assert(self.rows()[end - width].len() == self.inner@[end - width]@.len());
                if total_order::<T>() {
                    let a = self.rows()[start][k as int];
                    let b = self.rows()[end - width][k as int];
                    assert(least_of(a, self.values(), start, start + pow2(k as nat)));
                    assert(least_of(b, self.values(), end - width, end - width + pow2(k as nat)));
                    lemma_least_joined(a, b, self.values(), start, end - width, start + width, end);
                }
            }
            least(self.inner[range.start][k], self.inner[range.end - width][k])
        }
    }

    pub fn len(&self) -> (n: usize)
        ensures
            n == self.rows().len(),
    {
        self.inner.len()
    }

    pub fn is_empty(&self) -> (b: bool)
        ensures
            b == (self.rows().len() == 0),
    {
        self.inner.len() == 0
    }
}

} // verus!
