//! Counting the edges that enter a vertex.

use super::tally::{lemma_total_insert, lemma_total_remove, total};
use super::IdEdge;
use vstd::prelude::*;

verus! {

/// How many of the first `n` targets are `v`.
pub open spec fn hits(targets: Seq<usize>, n: int, v: usize) -> nat
    decreases n,
{
    if n <= 0 {
        0
    } else {
        hits(targets, n - 1, v) + if targets[n - 1] == v {
            1nat
        } else {
            0nat
        }
    }
}

/// The vertices that the edges enter, in the order of the edges.
pub open spec fn targets<E: IdEdge>(bucket: Seq<E>) -> Seq<usize> {
    Seq::new(bucket.len(), |i: int| bucket[i].to_spec())
}

/// The same for edges behind references.
pub open spec fn ref_targets<E: IdEdge>(refs: Seq<&E>) -> Seq<usize> {
    Seq::new(refs.len(), |i: int| refs[i].to_spec())
}

/// For each vertex the number of edges that lead from it to `v`.
pub open spec fn arriving<E: IdEdge>(buckets: Map<usize, Seq<E>>, v: usize) -> spec_fn(
    usize,
) -> nat {
    |k: usize| hits(targets(buckets[k]), buckets[k].len() as int, v)
}

/// The number of edges that enter `v` from vertices outside `done`.
pub open spec fn pending<E: IdEdge>(buckets: Map<usize, Seq<E>>, done: Set<usize>, v: usize) -> nat {
    total(buckets.dom().difference(done), arriving(buckets, v))
}

pub proof fn lemma_hits_bound(t: Seq<usize>, n: int, v: usize)
    requires
        0 <= n,
    ensures
        hits(t, n, v) <= n,
    decreases n,
{
    if n > 0 {
        lemma_hits_bound(t, n - 1, v);
    }
}

pub proof fn lemma_hits_mono(t: Seq<usize>, a: int, b: int, v: usize)
    requires
        a <= b,
    ensures
        hits(t, a, v) <= hits(t, b, v),
    decreases b - a,
{
    if a < b {
        lemma_hits_mono(t, a, b - 1, v);
    }
}

/// Sequences that agree on their first `n` targets have the same hits there.
pub proof fn lemma_hits_agree(s: Seq<usize>, t: Seq<usize>, n: int, v: usize)
    requires
        forall|i: int| 0 <= i < n ==> s[i] == t[i],
    ensures
        hits(s, n, v) == hits(t, n, v),
    decreases n,
{
    if n > 0 {
        lemma_hits_agree(s, t, n - 1, v);
    }
}

proof fn lemma_hits_append(a: Seq<usize>, b: Seq<usize>, n: int, v: usize)
    requires
        0 <= n <= b.len(),
    ensures
        hits(a + b, a.len() + n, v) == hits(a, a.len() as int, v) + hits(b, n, v),
    decreases n,
{
    if n == 0 {
        lemma_hits_agree(a + b, a, a.len() as int, v);
    } else {
        lemma_hits_append(a, b, n - 1, v);
        assert((a + b)[a.len() + n - 1] == b[n - 1]);
    }
}

/// A target among the first `n` that is `v` is counted, and what is counted
/// is there.
pub proof fn lemma_hits_some(t: Seq<usize>, n: int, v: usize)
    ensures
        hits(t, n, v) > 0 <==> exists|j: int| 0 <= j < n && t[j] == v,
    decreases n,
{
    if n > 0 {
        lemma_hits_some(t, n - 1, v);
        if hits(t, n, v) > 0 {
            if t[n - 1] == v {
                assert(0 <= n - 1 < n && t[n - 1] == v);
            } else {
                let j = choose|j: int| 0 <= j < n - 1 && t[j] == v;
                assert(0 <= j < n && t[j] == v);
            }
        }
        if exists|j: int| 0 <= j < n && t[j] == v {
            let j = choose|j: int| 0 <= j < n && t[j] == v;
            if j < n - 1 {
                assert(0 <= j < n - 1 && t[j] == v);
            }
        }
    }
}

/// The edges of buckets put one after the other enter `v` as often as the
/// buckets do together.
pub proof fn lemma_concat_hits<E: IdEdge>(
    buckets: Map<usize, Seq<E>>,
    keys: Seq<usize>,
    all: Seq<E>,
    v: usize,
)
    requires
        keys.no_duplicates(),
        all == super::directed_graph::concat(buckets, keys),
    ensures
        hits(targets(all), all.len() as int, v) == total(keys.to_set(), arriving(buckets, v)),
    decreases keys.len(),
{
    broadcast use vstd::seq_lib::seq_to_set_is_finite;

    if keys.len() == 0 {
        assert(keys.to_set() =~= Set::empty());
    } else {
        let front = keys.drop_last();
        let k = keys.last();
        let head = super::directed_graph::concat(buckets, front);
        lemma_concat_hits(buckets, front, head, v);
        assert(targets(all) =~= targets(head) + targets(buckets[k]));
        lemma_hits_append(targets(head), targets(buckets[k]), buckets[k].len() as int, v);
        front.lemma_push_to_set_commute(k);
        assert(front.push(k) =~= keys);
        if front.to_set().contains(k) {
            let i = choose|i: int| 0 <= i < front.len() && front[i] == k;
            assert(keys[i] == keys[keys.len() - 1]);
        }
        lemma_total_insert(front.to_set(), arriving(buckets, v), k);
    }
}

/// Once `u` is done, the edges that leave it are pending no more.
pub proof fn lemma_pending_step<E: IdEdge>(
    buckets: Map<usize, Seq<E>>,
    done: Set<usize>,
    u: usize,
    v: usize,
)
    requires
        buckets.dom().finite(),
        !done.contains(u),
    ensures
        pending(buckets, done, v) == pending(buckets, done.insert(u), v) + (if buckets.contains_key(
            u,
        ) {
            hits(targets(buckets[u]), buckets[u].len() as int, v)
        } else {
            0
        }),
{
    let left = buckets.dom().difference(done);
    let less = buckets.dom().difference(done.insert(u));
    if buckets.contains_key(u) {
        assert(left.remove(u) =~= less);
        lemma_total_remove(left, arriving(buckets, v), u);
    } else {
        assert(left =~= less);
    }
}

} // verus!
