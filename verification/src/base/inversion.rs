use super::pairs::{
    above_count, cross, inversions, lemma_above_from, lemma_cross_permuted, lemma_cross_push,
    lemma_inversions_concat, lemma_none_above, lemma_total_concat, sorted, };
use super::order::{
    above, at_most, clones_equal, lemma_at_most_trans, lemma_total_order, same_rank, total_order,
};
use super::search::{discretization, strictly_rising};
use vstd::prelude::*;
use vstd::seq_lib::lemma_multiset_commutative;

verus! {

/// How many of the items are above `v`.
pub open spec fn above_in<T: PartialOrd>(s: Seq<T>, v: T) -> nat
    decreases s.len(),
{
    if s.len() == 0 {
        0
    } else {
        above_in(s.drop_last(), v) + if above(s.last(), v) {
            1nat
        } else {
            0nat
        }
    }
}

/// How many pairs of an item and a smaller item that follows it there are.
pub open spec fn wrong_pairs<T: PartialOrd>(s: Seq<T>) -> nat
    decreases s.len(),
{
    if s.len() == 0 {
        0
    } else {
        wrong_pairs(s.drop_last()) + above_in(s.drop_last(), s.last())
    }
}

/// One rank is above another exactly if its item is above the other's.
proof fn lemma_rank_above<T: Ord>(ladder: Seq<T>, a: T, b: T, ra: usize, rb: usize)
    requires
        total_order::<T>(),
        strictly_rising(ladder),
        ra < ladder.len(),
        rb < ladder.len(),
        same_rank(ladder[ra as int], a),
        same_rank(ladder[rb as int], b),
    ensures
        ra > rb <==> above(a, b),
{
    lemma_total_order::<T>();
    let x = ladder[ra as int];
    let y = ladder[rb as int];
    if ra > rb {
        assert(at_most(y, x) && !at_most(x, y));
        if at_most(a, b) {
            lemma_at_most_trans(x, a, b);
            lemma_at_most_trans(x, b, y);
        }
    } else {
        if ra < rb {
            assert(at_most(x, y));
        }
        lemma_at_most_trans(a, x, y);
        lemma_at_most_trans(a, y, b);
    }
}

/// The ranks count as many pairs in the wrong order as the items do.
proof fn lemma_ranks_count<T: Ord>(ladder: Seq<T>, items: Seq<T>, ranks: Seq<usize>, n: int)
    requires
        total_order::<T>(),
        strictly_rising(ladder),
        ranks.len() == items.len(),
        0 <= n <= items.len(),
        forall|i: int|
            0 <= i < items.len() ==> (#[trigger] ranks[i]) < ladder.len() && same_rank(
                ladder[ranks[i] as int],
                items[i],
            ),
    ensures
        inversions(ranks.take(n)) == wrong_pairs(items.take(n)),
    decreases n,
{
    if n > 0 {
        lemma_ranks_count(ladder, items, ranks, n - 1);
        assert(ranks.take(n).drop_last() =~= ranks.take(n - 1));
        assert(items.take(n).drop_last() =~= items.take(n - 1));
        lemma_ranks_above(ladder, items, ranks, n - 1, n - 1);
    }
}

/// Among the first `m` ranks as many are above rank `n` as items among the
/// first `m` are above item `n`.
proof fn lemma_ranks_above<T: Ord>(
    ladder: Seq<T>,
    items: Seq<T>,
    ranks: Seq<usize>,
    m: int,
    n: int,
)
    requires
        total_order::<T>(),
        strictly_rising(ladder),
        ranks.len() == items.len(),
        0 <= m <= items.len(),
        0 <= n < items.len(),
        forall|i: int|
            0 <= i < items.len() ==> (#[trigger] ranks[i]) < ladder.len() && same_rank(
                ladder[ranks[i] as int],
                items[i],
            ),
    ensures
        above_count(ranks.take(m), ranks[n]) == above_in(items.take(m), items[n]),
    decreases m,
{
    if m > 0 {
        lemma_ranks_above(ladder, items, ranks, m - 1, n);
        assert(ranks.take(m).drop_last() =~= ranks.take(m - 1));
        assert(items.take(m).drop_last() =~= items.take(m - 1));
        assert(ranks[m - 1] < ladder.len());
        assert(ranks[n] < ladder.len());
        lemma_rank_above(ladder, items[m - 1], items[n], ranks[m - 1], ranks[n]);
    }
}

/// Get the number of inversion pairs.
pub fn inversion_pairs_count<T: PartialEq + Ord + Clone>(slice: &[T]) -> (ans: usize)
    requires
        total_order::<T>(),
        clones_equal::<T>(),
        2 * slice@.len() <= usize::MAX,
        wrong_pairs(slice@) <= usize::MAX,
    ensures
        ans == wrong_pairs(slice@),
{
    let mut ans: usize = 0;
    let mut temp: Vec<usize> = Vec::with_capacity(slice.len());
    let mut i: usize = 0;
    while i < slice.len()
        invariant
            i <= slice@.len(),
            temp@.len() == i,
        decreases slice@.len() - i,
    {
        temp.push(0);
        i += 1;
    }
    let mut ranks = discretization(slice);
    proof {
        let ladder = choose|ladder: Seq<T>|
            {
                &&& #[trigger] strictly_rising(ladder)
                &&& ranks@.len() == slice@.len()
                &&& forall|i: int|
                    0 <= i < slice@.len() ==> (#[trigger] ranks@[i]) < ladder.len() && same_rank(
                        ladder[ranks@[i] as int],
                        slice@[i],
                    )
                &&& forall|k: int|
                    0 <= k < ladder.len() ==> super::search::on_ladder(
                        slice@,
                        #[trigger] ladder[k],
                    )
            };
        lemma_ranks_count(ladder, slice@, ranks@, slice@.len() as int);
        assert(ranks@.take(slice@.len() as int) =~= ranks@);
        assert(slice@.take(slice@.len() as int) =~= slice@);
        assert(ranks@.subrange(0, slice@.len() as int) =~= ranks@);
    }
    merge_sort(&mut ranks, 0, slice.len(), &mut temp, &mut ans);
    ans
}

/// The pairs across with the first right items only are no more than those
/// with all of them.
proof fn lemma_cross_take(left: Seq<usize>, right: Seq<usize>, k: int)
    requires
        0 <= k <= right.len(),
    ensures
        cross(left, right.take(k)) <= cross(left, right),
{
    assert(right =~= right.take(k) + right.skip(k));
    lemma_total_concat(right.take(k), right.skip(k), super::pairs::crossing(left));
}

/// The items from `l` up to `r` of two sequences that agree there.
proof fn lemma_same_part(a: Seq<usize>, b: Seq<usize>, l: int, r: int)
    requires
        0 <= l <= r <= a.len(),
        a.len() == b.len(),
        forall|i: int| l <= i < r ==> a[i] == b[i],
    ensures
        a.subrange(l, r) == b.subrange(l, r),
{
    assert(a.subrange(l, r) =~= b.subrange(l, r));
}

/// Sorts the items from `l` up to `r` and counts the pairs among them that
/// stood in the wrong order.
fn merge_sort(a: &mut Vec<usize>, l: usize, r: usize, temp: &mut Vec<usize>, pair: &mut usize)
    requires
        l <= r <= old(a)@.len(),
        2 * old(a)@.len() <= usize::MAX,
        old(temp)@.len() >= r - l,
        *old(pair) + inversions(old(a)@.subrange(l as int, r as int)) <= usize::MAX,
    ensures
        final(a)@.len() == old(a)@.len(),
        final(temp)@.len() == old(temp)@.len(),
        forall|i: int| 0 <= i < l || r <= i < old(a)@.len() ==> final(a)@[i] == old(a)@[i],
        sorted(final(a)@.subrange(l as int, r as int)),
        final(a)@.subrange(l as int, r as int).to_multiset() == old(a)@.subrange(
            l as int,
            r as int,
        ).to_multiset(),
        *final(pair) == *old(pair) + inversions(old(a)@.subrange(l as int, r as int)),
    decreases r - l,
{
    let ghost whole0 = a@.subrange(l as int, r as int);
    let ghost pair0 = *pair as nat;
    if l + 1 >= r {
        proof {
            if whole0.len() == 1 {
                assert(whole0.drop_last() =~= Seq::<usize>::empty());
                assert(inversions(whole0.drop_last()) == 0);
                assert(above_count(whole0.drop_last(), whole0.last()) == 0);
            }
        }
        return ;
    }
    let mid = (l + r) / 2;
    let ghost left0 = a@.subrange(l as int, mid as int);
    let ghost right0 = a@.subrange(mid as int, r as int);
    proof {
        assert(whole0 =~= left0 + right0);
        lemma_inversions_concat(left0, right0);
    }
    merge_sort(a, l, mid, temp, pair);
    proof {
        lemma_same_part(a@, old(a)@, mid as int, r as int);
    }
    let ghost a1 = a@;
    merge_sort(a, mid, r, temp, pair);
    let ghost a2 = a@;
    let ghost left = a2.subrange(l as int, mid as int);
    let ghost right = a2.subrange(mid as int, r as int);
    let ghost pair2 = *pair as nat;
    proof {
        lemma_same_part(a2, a1, l as int, mid as int);
        lemma_cross_permuted(left, right, left0, right0);
    }
    let (mut ll, mut rr, mut cur) = (l, mid, 0usize);
    proof {
        broadcast use vstd::seq_lib::to_multiset_len;

        let none = temp@.subrange(0, 0);
        assert(none.to_multiset().len() == 0);
        assert(left.take(0).to_multiset().len() == 0);
        assert(right.take(0).to_multiset().len() == 0);
        assert(none.to_multiset() =~= left.take(0).to_multiset().add(right.take(0).to_multiset()));
        assert(right.take(0) =~= Seq::<usize>::empty());
    }

    while ll < mid && rr < r
        invariant
            l <= ll <= mid,
            mid <= rr <= r,
            r <= a@.len(),
            cur == (ll - l) + (rr - mid),
            a@ == a2,
            left == a2.subrange(l as int, mid as int),
            right == a2.subrange(mid as int, r as int),
            sorted(left),
            sorted(right),
            temp@.len() == old(temp)@.len(),
            temp@.len() >= r - l,
            merged(temp@.subrange(0, cur as int), left.take(ll - l), right.take(rr - mid)),
            ll < mid ==> forall|i: int| 0 <= i < cur ==> temp@[i] <= left[ll - l],
            rr < r ==> forall|i: int| 0 <= i < cur ==> temp@[i] <= right[rr - mid],
            rr < r ==> forall|i: int| 0 <= i < ll - l ==> left[i] <= right[rr - mid],
            *pair == pair2 + cross(left, right.take(rr - mid)),
            pair2 + cross(left, right) <= usize::MAX,
        decreases (mid - ll) + (r - rr),
    {
        let ghost before = temp@.subrange(0, cur as int);
        let ghost x = if a@[ll as int] <= a@[rr as int] {
            a@[ll as int]
        } else {
            a@[rr as int]
        };
        proof {
            assert(left[ll - l] == a@[ll as int]);
            assert(right[rr - mid] == a@[rr as int]);
        }
        if a[ll] <= a[rr] {
            temp.set(cur, a[ll]);
            proof {
                lemma_merged_left(before, left, right, ll - l, rr - mid);
                assert(temp@.subrange(0, cur + 1) =~= before.push(x));
                if ll + 1 < mid {
                    assert(left[ll - l] <= left[ll + 1 - l]);
                }
            }
            ll += 1;
        } else {
            proof {
                lemma_above_from(left, right[rr - mid], ll - l);
                lemma_cross_push(left, right.take(rr - mid), right[rr - mid]);
                assert(right.take(rr + 1 - mid) =~= right.take(rr - mid).push(right[rr - mid]));
                lemma_cross_take(left, right, rr + 1 - mid);
            }
            *pair += mid - ll;
            temp.set(cur, a[rr]);
            proof {
                lemma_merged_right(before, left, right, ll - l, rr - mid);
                assert(temp@.subrange(0, cur + 1) =~= before.push(x));
                if rr + 1 < r {
                    assert(right[rr - mid] <= right[rr + 1 - mid]);
                    assert forall|i: int| 0 <= i < ll - l implies left[i] <= right[rr + 1 - mid] by {
                        assert(left[i] <= right[rr - mid]);
                    }
                }
            }
            rr += 1;
        }
        cur += 1;
    }

    while ll < mid
        invariant
            l <= ll <= mid,
            ll < mid ==> rr == r,
            mid <= rr <= r,
            r <= a@.len(),
            cur == (ll - l) + (rr - mid),
            a@ == a2,
            left == a2.subrange(l as int, mid as int),
            right == a2.subrange(mid as int, r as int),
            sorted(left),
            sorted(right),
            temp@.len() == old(temp)@.len(),
            temp@.len() >= r - l,
            merged(temp@.subrange(0, cur as int), left.take(ll - l), right.take(rr - mid)),
            ll < mid ==> forall|i: int| 0 <= i < cur ==> temp@[i] <= left[ll - l],
            rr < r ==> forall|i: int| 0 <= i < cur ==> temp@[i] <= right[rr - mid],
            rr < r ==> forall|i: int| 0 <= i < ll - l ==> left[i] <= right[rr - mid],
            *pair == pair2 + cross(left, right.take(rr - mid)),
        decreases mid - ll,
    {
        let ghost before = temp@.subrange(0, cur as int);
        proof {
            assert(left[ll - l] == a@[ll as int]);
        }
        temp.set(cur, a[ll]);
        proof {
            lemma_merged_left(before, left, right, ll - l, rr - mid);
            assert(temp@.subrange(0, cur + 1) =~= before.push(a@[ll as int]));
            if ll + 1 < mid {
                assert(left[ll - l] <= left[ll + 1 - l]);
            }
        }
        cur += 1;
        ll += 1;
    }

    while rr < r
        invariant
            ll == mid,
            l <= mid <= rr <= r,
            r <= a@.len(),
            cur == (ll - l) + (rr - mid),
            a@ == a2,
            left == a2.subrange(l as int, mid as int),
            right == a2.subrange(mid as int, r as int),
            sorted(right),
            temp@.len() == old(temp)@.len(),
            temp@.len() >= r - l,
            merged(temp@.subrange(0, cur as int), left.take(ll - l), right.take(rr - mid)),
            rr < r ==> forall|i: int| 0 <= i < cur ==> temp@[i] <= right[rr - mid],
            rr < r ==> forall|i: int| 0 <= i < left.len() ==> left[i] <= right[rr - mid],
            *pair == pair2 + cross(left, right.take(rr - mid)),
        decreases r - rr,
    {
        let ghost before = temp@.subrange(0, cur as int);
        proof {
            assert(right[rr - mid] == a@[rr as int]);
            lemma_none_above(left, right[rr - mid]);
            lemma_cross_push(left, right.take(rr - mid), right[rr - mid]);
            assert(right.take(rr + 1 - mid) =~= right.take(rr - mid).push(right[rr - mid]));
        }
        temp.set(cur, a[rr]);
        proof {
            lemma_merged_right(before, left, right, ll - l, rr - mid);
            assert(temp@.subrange(0, cur + 1) =~= before.push(a@[rr as int]));
            if rr + 1 < r {
                assert(right[rr - mid] <= right[rr + 1 - mid]);
                assert forall|i: int| 0 <= i < left.len() implies left[i] <= right[rr + 1 - mid] by {
                    assert(left[i] <= right[rr - mid]);
                }
            }
        }
        cur += 1;
        rr += 1;
    }

    let ghost done = temp@.subrange(0, (r - l) as int);
    proof {
        assert(left.take(mid - l) =~= left);
        assert(right.take(r - mid) =~= right);
    }
    let mut k: usize = 0;
    while k < r - l
        invariant
            k <= r - l,
            l <= r <= a@.len(),
            a@.len() == a2.len(),
            temp@.len() >= r - l,
            temp@.len() == old(temp)@.len(),
            done == temp@.subrange(0, (r - l) as int),
            forall|i: int| 0 <= i < l || r <= i < a2.len() ==> a@[i] == a2[i],
            forall|i: int| 0 <= i < k ==> a@[l + i] == done[i],
        decreases r - l - k,
    {
        proof {
            assert(done[k as int] == temp@[k as int]);
        }
        a.set(l + k, temp[k]);
        k += 1;
    }
    proof {
        assert(a@.subrange(l as int, r as int) =~= done);
        lemma_multiset_commutative(left, right);
        lemma_multiset_commutative(left0, right0);
        assert((left0 + right0).to_multiset() =~= left0.to_multiset().add(right0.to_multiset()));
    }
}

/// `out` holds the items of `left` and of `right`, each as often as they
/// have it together, in ascending order.
pub open spec fn merged(out: Seq<usize>, left: Seq<usize>, right: Seq<usize>) -> bool {
    &&& sorted(out)
    &&& out.to_multiset() == left.to_multiset().add(right.to_multiset())
}

proof fn lemma_merged_left(out: Seq<usize>, left: Seq<usize>, right: Seq<usize>, i: int, j: int)
    requires
        0 <= i < left.len(),
        0 <= j <= right.len(),
        merged(out, left.take(i), right.take(j)),
        forall|k: int| 0 <= k < out.len() ==> out[k] <= left[i],
    ensures
        merged(out.push(left[i]), left.take(i + 1), right.take(j)),
{
    broadcast use vstd::seq_lib::to_multiset_build;

    assert(left.take(i + 1) =~= left.take(i).push(left[i]));
    let more = out.push(left[i]);
    assert(more.to_multiset() =~= left.take(i + 1).to_multiset().add(right.take(j).to_multiset()));
    assert forall|a: int, b: int| 0 <= a <= b < more.len() implies more[a] <= more[b] by {
        if b < out.len() {
            assert(out[a] <= out[b]);
        }
    }
}

proof fn lemma_merged_right(out: Seq<usize>, left: Seq<usize>, right: Seq<usize>, i: int, j: int)
    requires
        0 <= i <= left.len(),
        0 <= j < right.len(),
        merged(out, left.take(i), right.take(j)),
        forall|k: int| 0 <= k < out.len() ==> out[k] <= right[j],
    ensures
        merged(out.push(right[j]), left.take(i), right.take(j + 1)),
{
    broadcast use vstd::seq_lib::to_multiset_build;

    assert(right.take(j + 1) =~= right.take(j).push(right[j]));
    let more = out.push(right[j]);
    assert(more.to_multiset() =~= left.take(i).to_multiset().add(right.take(j + 1).to_multiset()));
    assert forall|a: int, b: int| 0 <= a <= b < more.len() implies more[a] <= more[b] by {
        if b < out.len() {
            assert(out[a] <= out[b]);
        }
    }
}

} // verus!
