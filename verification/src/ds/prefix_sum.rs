use super::sums::{adds_up, lemma_range_split, range_sum};
use std::ops::{Add, Range, Sub};
use vstd::prelude::*;
use vstd::std_specs::ops::{AddSpec, SubSpec};

verus! {

/// 1D prefix sum
#[verifier::reject_recursive_types(T)]
pub struct PrefixSum1D<T> where T: Copy + Add<Output = T> + Sub<Output = T> {
    inner: Vec<T>,
}

/// `zero` plus the first `n` values, added one after the other.
pub open spec fn running<T>(values: Seq<T>, zero: T, n: int) -> T where
    T: Copy + Add<Output = T> + Sub<Output = T>,

    decreases n,
{
    if n <= 0 {
        zero
    } else {
        running(values, zero, n - 1).add_spec(values[n - 1])
    }
}

/// Every addition on the way to the sum of all values is allowed.
pub open spec fn addable<T>(values: Seq<T>, zero: T) -> bool where
    T: Copy + Add<Output = T> + Sub<Output = T>,
 {
    forall|n: int|
        0 <= n < values.len() ==> (#[trigger] running(values, zero, n)).add_req(values[n])
}

/// What the values read as, in their order.
pub open spec fn readings<T>(values: Seq<T>, val: spec_fn(T) -> int) -> Seq<int> where
    T: Copy + Add<Output = T> + Sub<Output = T>,
 {
    Seq::new(values.len(), |i: int| val(values[i]))
}

/// `val` reads every value as a number such that a subtraction that is
/// allowed subtracts the numbers.
pub open spec fn takes_away<T>(val: spec_fn(T) -> int) -> bool where
    T: Copy + Add<Output = T> + Sub<Output = T>,
 {
    forall|a: T, b: T| a.sub_req(b) ==> val(#[trigger] a.sub_spec(b)) == val(a) - val(b)
}

/// The running sum reads as what `zero` reads as plus the sum of what the
/// first `n` values read as.
pub proof fn lemma_running_sums<T>(values: Seq<T>, zero: T, val: spec_fn(T) -> int, n: int) where
    T: Copy + Add<Output = T> + Sub<Output = T>,

    requires
        adds_up(val),
        addable(values, zero),
        0 <= n <= values.len(),
    ensures
        val(running(values, zero, n)) == val(zero) + range_sum(readings(values, val), 0, n),
    decreases n,
{
    if n > 0 {
        lemma_running_sums(values, zero, val, n - 1);
        assert(running(values, zero, n - 1).add_req(values[n - 1]));
    }
}

/// The difference of two running sums reads as the sum of what the values
/// between them read as.
pub proof fn lemma_difference_sums<T>(
    values: Seq<T>,
    zero: T,
    val: spec_fn(T) -> int,
    start: int,
    end: int,
) where T: Copy + Add<Output = T> + Sub<Output = T>
    requires
        adds_up(val),
        takes_away(val),
        addable(values, zero),
        0 <= start <= end <= values.len(),
        running(values, zero, end).sub_req(running(values, zero, start)),
    ensures
        val(running(values, zero, end).sub_spec(running(values, zero, start))) == range_sum(
            readings(values, val),
            start,
            end,
        ),
{
    lemma_running_sums(values, zero, val, start);
    lemma_running_sums(values, zero, val, end);
    lemma_range_split(readings(values, val), 0, start, end);
}

impl<T> PrefixSum1D<T> where T: Copy + Add<Output = T> + Sub<Output = T> {
    /// The sums of the first values: one more than there are values.
    pub closed spec fn sums(&self) -> Seq<T> {
        self.inner@
    }

    /// Creates a PrefixSum1D from `values`
    pub fn new(values: &[T], zero: T) -> (p: Self)
        requires
            T::obeys_add_spec(),
            addable(values@, zero),
            values@.len() < usize::MAX,
        ensures
            p.sums().len() == values@.len() + 1,
            forall|n: int|
                0 <= n <= values@.len() ==> #[trigger] p.sums()[n] == running(values@, zero, n),
    {
        let mut inner: Vec<T> = Vec::with_capacity(values.len() + 1);
        inner.push(zero);
        let mut i: usize = 0;
        while i < values.len()
            invariant
                i <= values.len(),
                addable(values@, zero),
                inner@.len() == i + 1,
                T::obeys_add_spec(),
                forall|n: int| 0 <= n <= i ==> #[trigger] inner@[n] == running(values@, zero, n),
            decreases values.len() - i,
        {
            let last = inner[inner.len() - 1];
            proof {
                assert(running(values@, zero, i as int).add_req(values@[i as int]));
            }
            inner.push(last + values[i]);
            i += 1;
        }
        PrefixSum1D { inner }
    }

    /// Gets sum of the `range` in basic sequence.
    pub fn sum(&self, range: Range<usize>) -> (r: T)
        requires
            range.start < self.sums().len(),
            range.end < self.sums().len(),
            self.sums()[range.end as int].sub_req(self.sums()[range.start as int]),
        ensures
            T::obeys_sub_spec() ==> r == self.sums()[range.end as int].sub_spec(
                self.sums()[range.start as int],
            ),
    {
        self.inner[range.end] - self.inner[range.start]
    }
}

} // verus!
