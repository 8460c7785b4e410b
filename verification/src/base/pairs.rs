//! Counting the pairs of a sequence that stand in the wrong order.

use vstd::prelude::*;

verus! {

/// The sum of `f` over the items.
pub open spec fn total_of(s: Seq<usize>, f: spec_fn(usize) -> nat) -> nat
    decreases s.len(),
{
    if s.len() == 0 {
        0
    } else {
        total_of(s.drop_last(), f) + f(s.last())
    }
}

/// One for a number above `v`, zero for another.
pub open spec fn exceeds(v: usize) -> spec_fn(usize) -> nat {
    |x: usize|
        if x > v {
            1nat
        } else {
            0nat
        }
}

/// How many of the items are above `v`.
pub open spec fn above_count(s: Seq<usize>, v: usize) -> nat {
    total_of(s, exceeds(v))
}

/// For a number, how many items of `left` are above it.
pub open spec fn crossing(left: Seq<usize>) -> spec_fn(usize) -> nat {
    |v: usize| above_count(left, v)
}

/// How many pairs of an item of `left` and a smaller item of `right` there
/// are.
pub open spec fn cross(left: Seq<usize>, right: Seq<usize>) -> nat {
    total_of(right, crossing(left))
}

/// How many pairs of an item and a smaller item that follows it there are.
pub open spec fn inversions(s: Seq<usize>) -> nat
    decreases s.len(),
{
    if s.len() == 0 {
        0
    } else {
        inversions(s.drop_last()) + above_count(s.drop_last(), s.last())
    }
}

/// No item is larger than one that follows it.
pub open spec fn sorted(s: Seq<usize>) -> bool {
    forall|i: int, j: int| 0 <= i <= j < s.len() ==> s[i] <= s[j]
}

pub proof fn lemma_total_concat(a: Seq<usize>, b: Seq<usize>, f: spec_fn(usize) -> nat)
    ensures
        total_of(a + b, f) == total_of(a, f) + total_of(b, f),
    decreases b.len(),
{
    if b.len() == 0 {
        assert(a + b =~= a);
    } else {
        lemma_total_concat(a, b.drop_last(), f);
        assert((a + b).drop_last() =~= a + b.drop_last());
    }
}

pub proof fn lemma_total_one(x: usize, f: spec_fn(usize) -> nat)
    ensures
        total_of(seq![x], f) == f(x),
{
    let s = seq![x];
    assert(s.drop_last() =~= Seq::<usize>::empty());
    assert(s.last() == x);
    assert(total_of(s.drop_last(), f) == 0);
}

/// The sum depends on the values of `f` at the items only.
pub proof fn lemma_total_agree(s: Seq<usize>, f: spec_fn(usize) -> nat, g: spec_fn(usize) -> nat)
    requires
        forall|i: int| 0 <= i < s.len() ==> f(#[trigger] s[i]) == g(s[i]),
    ensures
        total_of(s, f) == total_of(s, g),
    decreases s.len(),
{
    if s.len() > 0 {
        lemma_total_agree(s.drop_last(), f, g);
        assert(f(s[s.len() - 1]) == g(s[s.len() - 1]));
    }
}

/// The sum of a sequence without the item at `k`.
pub proof fn lemma_total_remove(s: Seq<usize>, k: int, f: spec_fn(usize) -> nat)
    requires
        0 <= k < s.len(),
    ensures
        total_of(s, f) == total_of(s.remove(k), f) + f(s[k]),
{
    let head = s.take(k);
    let tail = s.skip(k + 1);
    assert(s =~= head + (seq![s[k]] + tail));
    assert(s.remove(k) =~= head + tail);
    lemma_total_concat(head, seq![s[k]] + tail, f);
    lemma_total_concat(seq![s[k]], tail, f);
    lemma_total_concat(head, tail, f);
    lemma_total_one(s[k], f);
}

/// The order of the items does not matter to the sum.
pub proof fn lemma_total_permuted(a: Seq<usize>, b: Seq<usize>, f: spec_fn(usize) -> nat)
    requires
        a.to_multiset() == b.to_multiset(),
    ensures
        total_of(a, f) == total_of(b, f),
    decreases a.len(),
{
    broadcast use vstd::seq_lib::to_multiset_len;
    broadcast use vstd::seq_lib::to_multiset_contains;
    broadcast use vstd::seq_lib::to_multiset_remove;

    assert(a.len() == b.len()) by {
        assert(a.to_multiset().len() == a.len());
        assert(b.to_multiset().len() == b.len());
    }
    if a.len() > 0 {
        let x = a.last();
        assert(a.contains(x)) by {
            assert(a[a.len() - 1] == x);
        }
        assert(b.to_multiset().count(x) > 0);
        assert(b.contains(x));
        let k = choose|k: int| 0 <= k < b.len() && b[k] == x;
        assert(a.drop_last() =~= a.remove(a.len() - 1));
        assert(a.remove(a.len() - 1).to_multiset() =~= a.to_multiset().remove(x));
        assert(b.remove(k).to_multiset() =~= b.to_multiset().remove(x));
        lemma_total_permuted(a.drop_last(), b.remove(k), f);
        lemma_total_remove(b, k, f);
    }
}

/// Neither the order of the left items nor that of the right ones matters to
/// the number of pairs across.
pub proof fn lemma_cross_permuted(a: Seq<usize>, b: Seq<usize>, c: Seq<usize>, d: Seq<usize>)
    requires
        a.to_multiset() == c.to_multiset(),
        b.to_multiset() == d.to_multiset(),
    ensures
        cross(a, b) == cross(c, d),
{
    lemma_total_permuted(b, d, crossing(a));
    assert forall|i: int| 0 <= i < d.len() implies crossing(a)(#[trigger] d[i]) == crossing(c)(
        d[i],
    ) by {
        lemma_total_permuted(a, c, exceeds(d[i]));
    }
    lemma_total_agree(d, crossing(a), crossing(c));
}

/// The pairs of two sequences put together are those of each and those
/// across.
pub proof fn lemma_inversions_concat(a: Seq<usize>, b: Seq<usize>)
    ensures
        inversions(a + b) == inversions(a) + inversions(b) + cross(a, b),
    decreases b.len(),
{
    if b.len() == 0 {
        assert(a + b =~= a);
    } else {
        let front = b.drop_last();
        let x = b.last();
        lemma_inversions_concat(a, front);
        assert((a + b).drop_last() =~= a + front);
        lemma_total_concat(a, front, exceeds(x));
    }
}

/// Items that are all at most `v` count none above `v`.
pub proof fn lemma_none_above(s: Seq<usize>, v: usize)
    requires
        forall|i: int| 0 <= i < s.len() ==> s[i] <= v,
    ensures
        above_count(s, v) == 0,
    decreases s.len(),
{
    if s.len() > 0 {
        lemma_none_above(s.drop_last(), v);
    }
}

/// Items that are all above `v` count each.
pub proof fn lemma_all_above(s: Seq<usize>, v: usize)
    requires
        forall|i: int| 0 <= i < s.len() ==> s[i] > v,
    ensures
        above_count(s, v) == s.len(),
    decreases s.len(),
{
    if s.len() > 0 {
        lemma_all_above(s.drop_last(), v);
    }
}

/// With the items before `k` at most `v` and those from `k` on above it, the
/// items above `v` are those from `k` on.
pub proof fn lemma_above_from(s: Seq<usize>, v: usize, k: int)
    requires
        0 <= k <= s.len(),
        forall|i: int| 0 <= i < k ==> s[i] <= v,
        forall|i: int| k <= i < s.len() ==> s[i] > v,
    ensures
        above_count(s, v) == s.len() - k,
{
    assert(s =~= s.take(k) + s.skip(k));
    lemma_total_concat(s.take(k), s.skip(k), exceeds(v));
    lemma_none_above(s.take(k), v);
    lemma_all_above(s.skip(k), v);
}

/// One more right item counts the left items above it.
pub proof fn lemma_cross_push(left: Seq<usize>, right: Seq<usize>, x: usize)
    ensures
        cross(left, right.push(x)) == cross(left, right) + above_count(left, x),
{
    assert(right.push(x).drop_last() =~= right);
}

} // verus!
