//! Connectivity over a set of unordered pairs: two elements are linked when a
//! chain of pairs leads from one to the other.

use vstd::prelude::*;

verus! {

/// `u` and `v` are the two ends of one pair, in either direction.
pub open spec fn joins(pairs: Set<(usize, usize)>, u: usize, v: usize) -> bool {
    pairs.contains((u, v)) || pairs.contains((v, u))
}

/// `path` starts at `a`, ends at `b`, and each step follows one pair.
pub open spec fn is_chain(pairs: Set<(usize, usize)>, path: Seq<usize>, a: usize, b: usize) -> bool {
    &&& path.len() >= 1
    &&& path[0] == a
    &&& path[path.len() - 1] == b
    &&& forall|k: int| 0 <= k < path.len() - 1 ==> joins(pairs, #[trigger] path[k], path[k + 1])
}

/// Some chain of pairs connects `a` and `b`.
pub open spec fn linked(pairs: Set<(usize, usize)>, a: usize, b: usize) -> bool {
    exists|path: Seq<usize>| is_chain(pairs, path, a, b)
}

/// A property that holds at the start of a chain and is carried along every
/// pair holds at its end.
pub proof fn lemma_chain_carries(
    pairs: Set<(usize, usize)>,
    path: Seq<usize>,
    a: usize,
    b: usize,
    inv: spec_fn(usize) -> bool,
)
    requires
        is_chain(pairs, path, a, b),
        inv(a),
        forall|u: usize, v: usize| inv(u) && joins(pairs, u, v) ==> inv(v),
    ensures
        inv(b),
    decreases path.len(),
{
    if path.len() > 1 {
        let prefix = path.drop_last();
        let mid = prefix[prefix.len() - 1];
        assert(is_chain(pairs, prefix, a, mid)) by {
            assert forall|k: int| 0 <= k < prefix.len() - 1 implies joins(
                pairs,
                #[trigger] prefix[k],
                prefix[k + 1],
            ) by {
                assert(joins(pairs, path[k], path[k + 1]));
            }
        }
        lemma_chain_carries(pairs, prefix, a, mid, inv);
        assert(joins(pairs, path[path.len() - 2], path[path.len() - 2 + 1]));
    }
}

/// The same, stated for linked elements.
pub proof fn lemma_linked_carries(
    pairs: Set<(usize, usize)>,
    a: usize,
    b: usize,
    inv: spec_fn(usize) -> bool,
)
    requires
        linked(pairs, a, b),
        inv(a),
        forall|u: usize, v: usize| inv(u) && joins(pairs, u, v) ==> inv(v),
    ensures
        inv(b),
{
    let path = choose|path: Seq<usize>| is_chain(pairs, path, a, b);
    lemma_chain_carries(pairs, path, a, b, inv);
}

pub proof fn lemma_linked_refl(pairs: Set<(usize, usize)>, a: usize)
    ensures
        linked(pairs, a, a),
{
    assert(is_chain(pairs, seq![a], a, a));
}

pub proof fn lemma_linked_pair(pairs: Set<(usize, usize)>, a: usize, b: usize)
    requires
        joins(pairs, a, b),
    ensures
        linked(pairs, a, b),
{
    let path = seq![a, b];
    assert forall|k: int| 0 <= k < path.len() - 1 implies joins(
        pairs,
        #[trigger] path[k],
        path[k + 1],
    ) by {
        assert(k == 0);
    }
    assert(is_chain(pairs, path, a, b));
}

pub proof fn lemma_linked_trans(pairs: Set<(usize, usize)>, a: usize, b: usize, c: usize)
    requires
        linked(pairs, a, b),
        linked(pairs, b, c),
    ensures
        linked(pairs, a, c),
{
    let inv = |z: usize| linked(pairs, a, z);
    assert forall|u: usize, v: usize| inv(u) && joins(pairs, u, v) implies inv(v) by {
        let p = choose|p: Seq<usize>| is_chain(pairs, p, a, u);
        let q = p.push(v);
        assert forall|k: int| 0 <= k < q.len() - 1 implies joins(
            pairs,
            #[trigger] q[k],
            q[k + 1],
        ) by {
            if k < p.len() - 1 {
                assert(joins(pairs, p[k], p[k + 1]));
            }
        }
        assert(is_chain(pairs, q, a, v));
    }
    lemma_linked_carries(pairs, b, c, inv);
}

pub proof fn lemma_linked_sym(pairs: Set<(usize, usize)>, a: usize, b: usize)
    requires
        linked(pairs, a, b),
    ensures
        linked(pairs, b, a),
{
    let inv = |z: usize| linked(pairs, z, a);
    lemma_linked_refl(pairs, a);
    assert forall|u: usize, v: usize| inv(u) && joins(pairs, u, v) implies inv(v) by {
        lemma_linked_pair(pairs, v, u);
        lemma_linked_trans(pairs, v, u, a);
    }
    lemma_linked_carries(pairs, a, b, inv);
}

/// Adding pairs never separates what was linked.
pub proof fn lemma_linked_mono(
    small: Set<(usize, usize)>,
    large: Set<(usize, usize)>,
    a: usize,
    b: usize,
)
    requires
        small.subset_of(large),
        linked(small, a, b),
    ensures
        linked(large, a, b),
{
    let path = choose|path: Seq<usize>| is_chain(small, path, a, b);
    assert forall|k: int| 0 <= k < path.len() - 1 implies joins(
        large,
        #[trigger] path[k],
        path[k + 1],
    ) by {
        assert(joins(small, path[k], path[k + 1]));
    }
    assert(is_chain(large, path, a, b));
}

/// With no pairs at all, an element is linked to itself only.
pub proof fn lemma_linked_empty(a: usize, b: usize)
    requires
        linked(Set::<(usize, usize)>::empty(), a, b),
    ensures
        a == b,
{
    let inv = |z: usize| z == a;
    lemma_linked_carries(Set::empty(), a, b, inv);
}

/// What one more pair `(p, q)` links: what was linked before, and whatever was
/// linked to `p` on one side with whatever was linked to `q` on the other.
pub open spec fn linked_after(
    pairs: Set<(usize, usize)>,
    p: usize,
    q: usize,
    a: usize,
    b: usize,
) -> bool {
    ||| linked(pairs, a, b)
    ||| (linked(pairs, a, p) && linked(pairs, q, b))
    ||| (linked(pairs, a, q) && linked(pairs, p, b))
}

pub proof fn lemma_linked_insert(
    pairs: Set<(usize, usize)>,
    p: usize,
    q: usize,
    a: usize,
    b: usize,
)
    ensures
        linked(pairs.insert((p, q)), a, b) <==> linked_after(pairs, p, q, a, b),
{
    let more = pairs.insert((p, q));
    if linked(more, a, b) {
        let inv = |z: usize| linked_after(pairs, p, q, a, z);
        lemma_linked_refl(pairs, a);
        assert forall|u: usize, v: usize| inv(u) && joins(more, u, v) implies inv(v) by {
            lemma_linked_refl(pairs, p);
            lemma_linked_refl(pairs, q);
            if joins(pairs, u, v) {
                lemma_linked_pair(pairs, u, v);
                if linked(pairs, a, u) {
                    lemma_linked_trans(pairs, a, u, v);
                } else if linked(pairs, a, p) && linked(pairs, q, u) {
                    lemma_linked_trans(pairs, q, u, v);
                } else {
                    lemma_linked_trans(pairs, p, u, v);
                }
            } else if u == p && v == q {
                if linked(pairs, a, u) {
                } else if linked(pairs, a, p) && linked(pairs, q, u) {
                } else {
                }
            } else {
                assert(u == q && v == p);
            }
        }
        lemma_linked_carries(more, a, b, inv);
    }
    if linked_after(pairs, p, q, a, b) {
        lemma_linked_pair(more, p, q);
        lemma_linked_sym(more, p, q);
        if linked(pairs, a, b) {
            lemma_linked_mono(pairs, more, a, b);
        } else if linked(pairs, a, p) && linked(pairs, q, b) {
            lemma_linked_mono(pairs, more, a, p);
            lemma_linked_mono(pairs, more, q, b);
            lemma_linked_trans(more, a, p, q);
            lemma_linked_trans(more, a, q, b);
        } else {
            lemma_linked_mono(pairs, more, a, q);
            lemma_linked_mono(pairs, more, p, b);
            lemma_linked_trans(more, a, q, p);
            lemma_linked_trans(more, a, p, b);
        }
    }
}

/// The pairs of a sequence that grew by one are the earlier pairs and the new
/// one.
pub proof fn lemma_push_to_set(s: Seq<(usize, usize)>, p: (usize, usize))
    ensures
        s.push(p).to_set() == s.to_set().insert(p),
{
    let more = s.push(p);
    assert forall|x: (usize, usize)| more.to_set().contains(x) implies s.to_set().insert(
        p,
    ).contains(x) by {
        let k = choose|k: int| 0 <= k < more.len() && more[k] == x;
        if k < s.len() {
            assert(s[k] == x);
        }
    }
    assert forall|x: (usize, usize)| s.to_set().insert(p).contains(x) implies more.to_set().contains(
        x,
    ) by {
        if x == p {
            assert(more[more.len() - 1] == x);
        } else {
            let k = choose|k: int| 0 <= k < s.len() && s[k] == x;
            assert(more[k] == x);
        }
    }
    assert(more.to_set() =~= s.to_set().insert(p));
}

} // verus!
