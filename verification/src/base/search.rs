use super::order::{
    above, at_least, at_most, clones_equal, lemma_at_most_trans, lemma_equal_rank,
    lemma_total_order, orderly, same_rank, total_order,
};
use vstd::std_specs::cmp::PartialEqSpec;
use vstd::prelude::*;

verus! {

/// Below `v` the test never answers true, and from `v` on it never answers
/// false.
pub open spec fn turns_at<TC: Fn(isize) -> bool>(accepts: TC, lo: isize, hi: isize, v: isize) -> bool {
    forall|x: isize|
        #![trigger call_ensures(accepts, (x,), true)]
        #![trigger call_ensures(accepts, (x,), false)]
        lo <= x < hi ==> {
            &&& x < v ==> !call_ensures(accepts, (x,), true)
            &&& x >= v ==> !call_ensures(accepts, (x,), false)
        }
}

/// Dichotomy in interval `[lower_bound, upper_bound)`, return the first value
/// that `accepts` takes.
pub fn dichotomy<TC: Fn(isize) -> bool>(lower_bound: isize, upper_bound: isize, accepts: TC) -> (r:
    Option<isize>)
    requires
        0 <= lower_bound,
        forall|x: isize| lower_bound <= x < upper_bound ==> call_requires(accepts, (x,)),
    ensures
        match r {
            Some(v) => {
                &&& lower_bound <= v < upper_bound
                &&& call_ensures(accepts, (v,), true)
                &&& v == lower_bound || call_ensures(accepts, ((v - 1) as isize,), false)
            },
            None => lower_bound >= upper_bound || call_ensures(
                accepts,
                ((upper_bound - 1) as isize,),
                false,
            ),
        },
        forall|v: isize|
            lower_bound <= v <= upper_bound && #[trigger] turns_at(
                accepts,
                lower_bound,
                upper_bound,
                v,
            ) ==> r == (if v < upper_bound {
                Some(v)
            } else {
                None
            }),
{
    let mut l = lower_bound;
    let mut r = upper_bound;
    let mut ans = None;

    while l < r
        invariant
            0 <= lower_bound <= l,
            r <= upper_bound,
            l <= r || (l == lower_bound && r == upper_bound),
            forall|x: isize| lower_bound <= x < upper_bound ==> call_requires(accepts, (x,)),
            l == lower_bound || call_ensures(accepts, ((l - 1) as isize,), false),
            r == upper_bound ==> ans is None,
            r < upper_bound ==> ans == Some(r) && call_ensures(accepts, (r,), true),
            forall|v: isize|
                lower_bound <= v <= upper_bound && #[trigger] turns_at(
                    accepts,
                    lower_bound,
                    upper_bound,
                    v,
                ) ==> l <= v <= r,
        decreases r - l,
    {
        let mid = l + (r - l) / 2;
        if accepts(mid) {
            ans = Some(mid);
            r = mid;
        } else {
            l = mid + 1;
        }
    }

    ans
}

/// What `lower_bound` answers: a place whose item is at least `value` while
/// the item before it is not, or nothing where the last item is not.
pub open spec fn is_lower_bound<T: PartialOrd>(slice: Seq<T>, value: T, r: Option<usize>) -> bool {
    match r {
        Some(i) => {
            &&& i < slice.len()
            &&& at_least(slice[i as int], value)
            &&& i == 0 || !at_least(slice[i - 1], value)
        },
        None => slice.len() == 0 || !at_least(slice[slice.len() - 1], value),
    }
}

/// The items that are at least `value` are those from place `k` on.
pub open spec fn at_least_from<T: PartialOrd>(slice: Seq<T>, value: T, k: int) -> bool {
    forall|x: int| 0 <= x < slice.len() ==> (x >= k <==> at_least(#[trigger] slice[x], value))
}

/// What `upper_bound` answers: a place whose item is above `value` while the
/// item before it is not, or nothing where the last item is not.
pub open spec fn is_upper_bound<T: PartialOrd>(slice: Seq<T>, value: T, r: Option<usize>) -> bool {
    match r {
        Some(i) => {
            &&& i < slice.len()
            &&& above(slice[i as int], value)
            &&& i == 0 || !above(slice[i - 1], value)
        },
        None => slice.len() == 0 || !above(slice[slice.len() - 1], value),
    }
}

/// The items that are above `value` are those from place `k` on.
pub open spec fn above_from<T: PartialOrd>(slice: Seq<T>, value: T, k: int) -> bool {
    forall|x: int| 0 <= x < slice.len() ==> (x >= k <==> above(#[trigger] slice[x], value))
}

/// A place, or nothing for the length.
pub open spec fn place(k: int, len: int) -> Option<usize> {
    if k < len {
        Some(k as usize)
    } else {
        None
    }
}

/// Get the position of the lower bound of value in the slice.
pub fn lower_bound<T: PartialOrd>(slice: &[T], value: &T) -> (r: Option<usize>)
    requires
        slice@.len() <= isize::MAX,
    ensures
        r matches Some(i) ==> i < slice@.len(),
        orderly::<T>() ==> is_lower_bound(slice@, *value, r),
        orderly::<T>() ==> forall|k: int|
            0 <= k <= slice@.len() && #[trigger] at_least_from(slice@, *value, k) ==> r == place(
                k,
                slice@.len() as int,
            ),
{
    let accepts = |pos: isize| -> (b: bool)
        requires
            0 <= pos < slice@.len(),
        ensures
            orderly::<T>() ==> b == at_least(slice@[pos as int], *value),
        { slice[pos as usize] >= *value };
    let found = dichotomy(0, slice.len() as isize, accepts);
    proof {
        if orderly::<T>() {
            assert forall|k: int|
                0 <= k <= slice@.len() && #[trigger] at_least_from(slice@, *value, k) implies turns_at(
                accepts,
                0,
                slice@.len() as isize,
                k as isize,
            ) by {
                assert forall|x: isize| 0 <= x < slice@.len() as isize implies {
                    &&& x < k as isize ==> !call_ensures(accepts, (x,), true)
                    &&& x >= k as isize ==> !call_ensures(accepts, (x,), false)
                } by {
                    assert(x >= k <==> at_least(slice@[x as int], *value));
                }
            }
        }
    }
    match found {
        Some(val) => Some(val as usize),
        None => None,
    }
}

/// Get the position of the upper bound of value in the slice.
pub fn upper_bound<T: PartialOrd>(slice: &[T], value: &T) -> (r: Option<usize>)
    requires
        slice@.len() <= isize::MAX,
    ensures
        r matches Some(i) ==> i < slice@.len(),
        orderly::<T>() ==> is_upper_bound(slice@, *value, r),
        orderly::<T>() ==> forall|k: int|
            0 <= k <= slice@.len() && #[trigger] above_from(slice@, *value, k) ==> r == place(
                k,
                slice@.len() as int,
            ),
{
    let accepts = |pos: isize| -> (b: bool)
        requires
            0 <= pos < slice@.len(),
        ensures
            orderly::<T>() ==> b == above(slice@[pos as int], *value),
        { slice[pos as usize] > *value };
    let found = dichotomy(0, slice.len() as isize, accepts);
    proof {
        if orderly::<T>() {
            assert forall|k: int|
                0 <= k <= slice@.len() && #[trigger] above_from(slice@, *value, k) implies turns_at(
                accepts,
                0,
                slice@.len() as isize,
                k as isize,
            ) by {
                assert forall|x: isize| 0 <= x < slice@.len() as isize implies {
                    &&& x < k as isize ==> !call_ensures(accepts, (x,), true)
                    &&& x >= k as isize ==> !call_ensures(accepts, (x,), false)
                } by {
                    assert(x >= k <==> above(slice@[x as int], *value));
                }
            }
        }
    }
    match found {
        Some(val) => Some(val as usize),
        None => None,
    }
}

/// The two bounds put together: from the lower bound, or the start where
/// there is none, to the upper bound, or the end where there is none; nothing
/// where there is neither.
pub open spec fn span_of(lo: Option<usize>, hi: Option<usize>, len: usize) -> Option<(usize, usize)> {
    match (lo, hi) {
        (Some(first), Some(last)) => Some((first, last)),
        (Some(first), None) => Some((first, len)),
        (None, Some(last)) => Some((0usize, last)),
        (None, None) => None,
    }
}

/// Get the position interval that those values equal to the value.
pub fn equal_range<T: PartialOrd>(slice: &[T], value: &T) -> (r: Option<(usize, usize)>)
    requires
        slice@.len() <= isize::MAX,
    ensures
        r matches Some(p) ==> p.0 <= slice@.len() && p.1 <= slice@.len(),
        orderly::<T>() ==> exists|lo: Option<usize>, hi: Option<usize>|
            {
                &&& is_lower_bound(slice@, *value, lo)
                &&& is_upper_bound(slice@, *value, hi)
                &&& r == #[trigger] span_of(lo, hi, slice@.len() as usize)
            },
        orderly::<T>() ==> forall|a: int, b: int|
            0 <= a <= slice@.len() && 0 <= b <= slice@.len() && #[trigger] at_least_from(
                slice@,
                *value,
                a,
            ) && #[trigger] above_from(slice@, *value, b) ==> r == span_of(
                place(a, slice@.len() as int),
                place(b, slice@.len() as int),
                slice@.len() as usize,
            ),
{
    let lo = lower_bound(slice, value);
    let hi = upper_bound(slice, value);
    proof {
        if orderly::<T>() {
            assert(span_of(lo, hi, slice@.len() as usize) == span_of(
                lo,
                hi,
                slice@.len() as usize,
            ));
        }
    }
    match (lo, hi) {
        (Some(first), Some(last)) => Some((first, last)),
        (Some(first), None) => Some((first, slice.len() as usize)),
        (None, Some(last)) => Some((0, last)),
        (None, None) => None,
    }
}

/// The items with each run of equal neighbours cut down to its first item.
pub open spec fn without_repeats<T: PartialEq>(s: Seq<T>) -> Seq<T>
    decreases s.len(),
{
    if s.len() <= 1 {
        s
    } else {
        let front = without_repeats(s.drop_last());
        if s.last().eq_spec(&front.last()) {
            front
        } else {
            front.push(s.last())
        }
    }
}

/// Each item is at most the next one.
pub open spec fn rising<T: PartialOrd>(s: Seq<T>) -> bool {
    forall|i: int, j: int| 0 <= i <= j < s.len() ==> at_most(s[i], s[j])
}

/// Each item is at most the next one, and not of its rank.
pub open spec fn strictly_rising<T: PartialOrd>(s: Seq<T>) -> bool {
    forall|i: int, j: int| 0 <= i < j < s.len() ==> at_most(s[i], s[j]) && !at_most(s[j], s[i])
}

/// The ladder holds an item of the rank of `x`.
pub open spec fn on_ladder<T: PartialOrd>(ladder: Seq<T>, x: T) -> bool {
    exists|k: int| 0 <= k < ladder.len() && same_rank(#[trigger] ladder[k], x)
}

/// A copy of the items, by `to_vec` of the standard library: as many
/// items, each a clone of the one at its place.
#[verifier::external_body]
fn copy_items<T: Clone>(slice: &[T]) -> (v: Vec<T>)
    ensures
        v@.len() == slice@.len(),
        forall|i: int| 0 <= i < slice@.len() ==> cloned(slice@[i], #[trigger] v@[i]),
{
    slice.to_vec()
}

/// Brings the items into ascending order, by `sort` of the standard library:
/// the items stay the same ones, each as often as before.
#[verifier::external_body]
fn sort_items<T: Ord>(v: &mut Vec<T>)
    requires
        total_order::<T>(),
    ensures
        final(v)@.to_multiset() == old(v)@.to_multiset(),
        rising(final(v)@),
{
    v.sort();
}

/// Cuts each run of equal neighbours down to its first item, by `dedup` of
/// the standard library.
#[verifier::external_body]
fn drop_repeats<T: PartialEq>(v: &mut Vec<T>)
    requires
        T::obeys_eq_spec(),
    ensures
        final(v)@ == without_repeats(old(v)@),
{
    v.dedup();
}

/// The start of a rising sequence rises.
proof fn lemma_rising_head<T: Ord>(s: Seq<T>)
    requires
        rising(s),
        s.len() > 0,
    ensures
        rising(s.drop_last()),
{
    let head = s.drop_last();
    assert forall|i: int, j: int| 0 <= i <= j < head.len() implies at_most(head[i], head[j]) by {
        assert(at_most(s[i], s[j]));
    }
}

/// One more item on a strictly rising ladder whose last item is below it.
proof fn lemma_ladder_grows<T: Ord>(front: Seq<T>, x: T)
    requires
        total_order::<T>(),
        strictly_rising(front),
        front.len() > 0,
        at_most(front.last(), x),
        !at_most(x, front.last()),
    ensures
        strictly_rising(front.push(x)),
{
    let out = front.push(x);
    let top = front.last();
    assert forall|i: int, j: int| 0 <= i < j < out.len() implies at_most(out[i], out[j])
        && !at_most(out[j], out[i]) by {
        if j < front.len() {
            assert(at_most(front[i], front[j]) && !at_most(front[j], front[i]));
        } else {
            if i < front.len() - 1 {
                assert(at_most(front[i], front[front.len() - 1]) && !at_most(
                    front[front.len() - 1],
                    front[i],
                ));
            } else {
                lemma_equal_rank(top, top);
            }
            lemma_at_most_trans(front[i], top, x);
            if at_most(x, front[i]) {
                lemma_at_most_trans(x, front[i], top);
            }
        }
    }
}

/// In ascending order, the items without repeats rise strictly and end with
/// an item of the rank of the last one.
proof fn lemma_without_repeats<T: Ord>(s: Seq<T>)
    requires
        total_order::<T>(),
        rising(s),
    ensures
        strictly_rising(without_repeats(s)),
        without_repeats(s).len() <= s.len(),
        s.len() > 0 ==> without_repeats(s).len() > 0 && same_rank(
            without_repeats(s).last(),
            s.last(),
        ),
    decreases s.len(),
{
    if s.len() == 1 {
        lemma_equal_rank(s[0], s[0]);
    } else if s.len() > 1 {
        let head = s.drop_last();
        let x = s.last();
        lemma_rising_head(s);
        lemma_without_repeats(head);
        let front = without_repeats(head);
        let top = front.last();
        assert(at_most(s[s.len() - 2], s[s.len() - 1]));
        lemma_at_most_trans(top, head.last(), x);
        lemma_equal_rank(x, top);
        lemma_equal_rank(x, x);
        if !x.eq_spec(&top) {
            lemma_ladder_grows(front, x);
        }
    }
}

/// Every item has an item of its rank among the items without repeats.
proof fn lemma_repeats_ranked<T: Ord>(s: Seq<T>, i: int)
    requires
        total_order::<T>(),
        rising(s),
        0 <= i < s.len(),
    ensures
        on_ladder(without_repeats(s), s[i]),
    decreases s.len(),
{
    let out = without_repeats(s);
    if s.len() == 1 {
        lemma_equal_rank(s[0], s[0]);
        assert(same_rank(out[0], s[i]));
    } else {
        let head = s.drop_last();
        lemma_rising_head(s);
        lemma_without_repeats(s);
        let front = without_repeats(head);
        if i < head.len() {
            lemma_repeats_ranked(head, i);
            let k = choose|k: int| 0 <= k < front.len() && same_rank(#[trigger] front[k], head[i]);
            assert(out[k] == front[k]);
            assert(same_rank(out[k], s[i]));
        } else {
            assert(same_rank(out[out.len() - 1], s[i]));
        }
    }
}

/// Every item without repeats is one of the items.
proof fn lemma_repeats_within<T: Ord>(s: Seq<T>, k: int)
    requires
        0 <= k < without_repeats(s).len(),
    ensures
        s.contains(without_repeats(s)[k]),
    decreases s.len(),
{
    let out = without_repeats(s);
    if s.len() <= 1 {
        assert(s[k] == out[k]);
    } else {
        let head = s.drop_last();
        let front = without_repeats(head);
        if k < front.len() {
            lemma_repeats_within(head, k);
            let i = choose|i: int| 0 <= i < head.len() && head[i] == front[k];
            assert(s[i] == out[k]);
        } else {
            assert(s[s.len() - 1] == out[k]);
        }
    }
}

/// The ranks count, for each item, the ranks of items below it: some
/// strictly rising sequence holds an item of the rank of every item, at the
/// place that the rank tells, and nothing else.
pub open spec fn is_ranking<T: PartialOrd>(items: Seq<T>, ranks: Seq<usize>) -> bool {
    exists|ladder: Seq<T>|
        {
            &&& #[trigger] strictly_rising(ladder)
            &&& ranks.len() == items.len()
            &&& forall|i: int|
                0 <= i < items.len() ==> (#[trigger] ranks[i]) < ladder.len() && same_rank(
                    ladder[ranks[i] as int],
                    items[i],
                )
            &&& forall|k: int| 0 <= k < ladder.len() ==> on_ladder(items, #[trigger] ladder[k])
        }
}

/// Build a vector with the rank of each item among the items.
pub fn discretization<T: PartialEq + Ord + Clone>(slice: &[T]) -> (ans: Vec<usize>)
    requires
        total_order::<T>(),
        clones_equal::<T>(),
        slice@.len() <= isize::MAX,
    ensures
        is_ranking(slice@, ans@),
{
    proof {
        if slice@.len() > 0 {
            lemma_equal_rank(slice@[0], slice@[0]);
        }
    }
    let mut temp = copy_items(slice);
    assert(temp@ =~= slice@);
    sort_items(&mut temp);
    let ghost ordered = temp@;
    drop_repeats(&mut temp);
    let ghost ladder = temp@;
    proof {
        broadcast use vstd::seq_lib::to_multiset_len;
        broadcast use vstd::seq_lib::to_multiset_contains;

        lemma_without_repeats(ordered);
        assert forall|i: int| 0 <= i < ordered.len() implies on_ladder(
            ladder,
            #[trigger] ordered[i],
        ) by {
            lemma_repeats_ranked(ordered, i);
        }
        assert(ordered.len() == slice@.len()) by {
            assert(ordered.to_multiset().len() == ordered.len());
            assert(slice@.to_multiset().len() == slice@.len());
        }
    }
    let mut ans: Vec<usize> = Vec::new();
    let mut n: usize = 0;
    while n < slice.len()
        invariant
            n <= slice@.len(),
            total_order::<T>(),
            ladder == temp@,
            ladder.len() <= isize::MAX,
            strictly_rising(ladder),
            ordered.to_multiset() == slice@.to_multiset(),
            forall|i: int| 0 <= i < ordered.len() ==> on_ladder(ladder, #[trigger] ordered[i]),
            ans@.len() == n,
            forall|i: int|
                0 <= i < n ==> (#[trigger] ans@[i]) < ladder.len() && same_rank(
                    ladder[ans@[i] as int],
                    slice@[i],
                ),
        decreases slice@.len() - n,
    {
        let item = &slice[n];
        let ghost k = lemma_rank_exists(slice@, ordered, ladder, n as int);
        proof {
            lemma_rank_turns(ladder, *item, k);
            lemma_total_order::<T>();
        }
        let found = lower_bound(temp.as_slice(), item);
        ans.push(found.unwrap());
        n += 1;
    }
    proof {
        assert forall|k: int| 0 <= k < ladder.len() implies on_ladder(
            slice@,
            #[trigger] ladder[k],
        ) by {
            lemma_ladder_item(slice@, ordered, ladder, k);
        }
        assert(strictly_rising(ladder));
    }
    ans
}

/// Every item has its rank on the ladder.
proof fn lemma_rank_exists<T: Ord>(items: Seq<T>, ordered: Seq<T>, ladder: Seq<T>, n: int) -> (k: int)
    requires
        0 <= n < items.len(),
        ordered.to_multiset() == items.to_multiset(),
        forall|i: int| 0 <= i < ordered.len() ==> on_ladder(ladder, #[trigger] ordered[i]),
    ensures
        0 <= k < ladder.len(),
        same_rank(ladder[k], items[n]),
{
    broadcast use vstd::seq_lib::to_multiset_contains;

    assert(items.contains(items[n]));
    assert(ordered.to_multiset().count(items[n]) > 0);
    assert(ordered.contains(items[n]));
    let i = choose|i: int| 0 <= i < ordered.len() && ordered[i] == items[n];
    assert(on_ladder(ladder, ordered[i]));
    let k = choose|k: int| 0 <= k < ladder.len() && same_rank(#[trigger] ladder[k], ordered[i]);
    k
}

/// Every item of the ladder has the rank of some item.
proof fn lemma_ladder_item<T: Ord>(items: Seq<T>, ordered: Seq<T>, ladder: Seq<T>, k: int)
    requires
        total_order::<T>(),
        0 <= k < ladder.len(),
        ordered.to_multiset() == items.to_multiset(),
        ladder == without_repeats(ordered),
        rising(ordered),
    ensures
        on_ladder(items, ladder[k]),
{
    broadcast use vstd::seq_lib::to_multiset_contains;

    lemma_repeats_within(ordered, k);
    assert(ordered.contains(ladder[k]));
    let j = choose|j: int| 0 <= j < ordered.len() && ordered[j] == ladder[k];
    assert(ordered.contains(ordered[j]));
    assert(items.to_multiset().count(ordered[j]) > 0);
    assert(items.contains(ordered[j]));
    let i = choose|i: int| 0 <= i < items.len() && items[i] == ordered[j];
    lemma_equal_rank(items[i], items[i]);
    assert(same_rank(items[i], ladder[k]));
}

/// On a strictly rising ladder the items at least `value` are those from
/// the place of its rank on.
proof fn lemma_rank_turns<T: Ord>(ladder: Seq<T>, value: T, k: int)
    requires
        total_order::<T>(),
        strictly_rising(ladder),
        0 <= k < ladder.len(),
        same_rank(ladder[k], value),
    ensures
        at_least_from(ladder, value, k),
{
    lemma_total_order::<T>();
    assert forall|x: int| 0 <= x < ladder.len() implies (x >= k <==> at_least(
        #[trigger] ladder[x],
        value,
    )) by {
        if x > k {
            assert(at_most(ladder[k], ladder[x]));
            assert(at_most(value, ladder[x]));
        } else if x < k {
            assert(at_most(ladder[x], ladder[k]) && !at_most(ladder[k], ladder[x]));
            if at_most(value, ladder[x]) {
                assert(at_most(ladder[k], ladder[x]));
            }
        }
    }
}

} // verus!
