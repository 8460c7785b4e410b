//! Spanning trees of a finite collection of weighted links, and the exchange
//! step on which the greedy choice of the lightest link rests.

use crate::ds::linkage::{
    is_chain, joins, lemma_linked_carries, lemma_linked_mono, lemma_linked_pair, lemma_linked_refl,
    lemma_linked_sym, lemma_linked_trans, linked,
};
use vstd::prelude::*;

verus! {

/// The two ends of every link, without its length.
pub open spec fn pairs_of(links: Set<(usize, usize, isize)>) -> Set<(usize, usize)> {
    Set::new(|p: (usize, usize)| has_pair(links, p))
}

/// Some link leads from the first of the pair to the second.
pub open spec fn has_pair(links: Set<(usize, usize, isize)>, p: (usize, usize)) -> bool {
    exists|len: isize| #[trigger] links.contains((p.0, p.1, len))
}

/// The vertices that some link touches.
pub open spec fn ends_of(links: Set<(usize, usize, isize)>) -> Set<usize> {
    Set::new(
        |v: usize|
            exists|l: (usize, usize, isize)| #[trigger] links.contains(l) && (l.0 == v || l.1 == v),
    )
}

/// `tree` connects every two vertices that `all` touches.
pub open spec fn spans(tree: Set<(usize, usize, isize)>, all: Set<(usize, usize, isize)>) -> bool {
    forall|u: usize, v: usize|
        ends_of(all).contains(u) && ends_of(all).contains(v) ==> #[trigger] linked(
            pairs_of(tree),
            u,
            v,
        )
}

pub open spec fn add_length() -> spec_fn(int, (usize, usize, isize)) -> int {
    |acc: int, l: (usize, usize, isize)| acc + l.2
}

/// The sum of the lengths of the links.
pub open spec fn weight(links: Set<(usize, usize, isize)>) -> int {
    links.fold(0int, add_length())
}

/// The number of links in a tree on `n` vertices.
pub open spec fn tree_size(n: nat) -> nat {
    if n == 0 {
        0
    } else {
        (n - 1) as nat
    }
}

/// `tree` is chosen among `all`, connects all its vertices, and has one link
/// less than there are vertices.
pub open spec fn is_spanning_tree(
    tree: Set<(usize, usize, isize)>,
    all: Set<(usize, usize, isize)>,
) -> bool {
    &&& tree.subset_of(all)
    &&& tree.finite()
    &&& spans(tree, all)
    &&& tree.len() == tree_size(ends_of(all).len())
}

/// No spanning tree of `all` weighs less than `tree`.
pub open spec fn is_minimum_spanning_tree(
    tree: Set<(usize, usize, isize)>,
    all: Set<(usize, usize, isize)>,
) -> bool {
    &&& is_spanning_tree(tree, all)
    &&& forall|other: Set<(usize, usize, isize)>| #[trigger]
        is_spanning_tree(other, all) ==> weight(tree) <= weight(other)
}

/// `tree` can be turned into a spanning tree that holds all of `chosen` and
/// weighs no more.
pub open spec fn improves_on(
    chosen: Set<(usize, usize, isize)>,
    all: Set<(usize, usize, isize)>,
    tree: Set<(usize, usize, isize)>,
) -> bool {
    exists|better: Set<(usize, usize, isize)>|
        {
            &&& #[trigger] is_spanning_tree(better, all)
            &&& chosen.subset_of(better)
            &&& weight(better) <= weight(tree)
        }
}

/// Whatever spanning tree there is, one that holds `chosen` is as light.
pub open spec fn promising(
    chosen: Set<(usize, usize, isize)>,
    all: Set<(usize, usize, isize)>,
) -> bool {
    forall|tree: Set<(usize, usize, isize)>|
        is_spanning_tree(tree, all) ==> #[trigger] improves_on(chosen, all, tree)
}

/// Every link that is lighter than `e` joins vertices that `chosen` connects
/// already.
pub open spec fn lighter_linked(
    all: Set<(usize, usize, isize)>,
    chosen: Set<(usize, usize, isize)>,
    e: (usize, usize, isize),
) -> bool {
    forall|f: (usize, usize, isize)| #[trigger]
        all.contains(f) && f.2 < e.2 ==> linked(pairs_of(chosen), f.0, f.1)
}

/// No link joins two vertices that the other links connect already.
pub open spec fn is_forest(part: Set<(usize, usize, isize)>) -> bool {
    forall|l: (usize, usize, isize)| #[trigger]
        part.contains(l) ==> !linked(pairs_of(part.remove(l)), l.0, l.1)
}

/// A forest with one more link between two vertices that it leaves apart is
/// a forest.
pub proof fn lemma_forest_grows(chosen: Set<(usize, usize, isize)>, e: (usize, usize, isize))
    requires
        is_forest(chosen),
        !linked(pairs_of(chosen), e.0, e.1),
    ensures
        is_forest(chosen.insert(e)),
        !chosen.contains(e),
{
    if chosen.contains(e) {
        lemma_link_links(chosen, e);
    }
    let more = chosen.insert(e);
    assert forall|l: (usize, usize, isize)| #[trigger] more.contains(l) implies !linked(
        pairs_of(more.remove(l)),
        l.0,
        l.1,
    ) by {
        if l == e {
            assert(more.remove(l) =~= chosen);
        } else {
            let rest = chosen.remove(l);
            assert(more.remove(l) =~= rest.insert(e));
            lemma_pairs_insert(rest, e);
            crate::ds::linkage::lemma_linked_insert(pairs_of(rest), e.0, e.1, l.0, l.1);
            lemma_link_links(chosen, l);
            if linked(pairs_of(rest), l.0, e.0) && linked(pairs_of(rest), e.1, l.1) {
                lemma_links_mono(rest, chosen, l.0, e.0);
                lemma_links_mono(rest, chosen, e.1, l.1);
                lemma_linked_sym(pairs_of(chosen), l.0, e.0);
                lemma_linked_trans(pairs_of(chosen), e.0, l.0, l.1);
                lemma_linked_sym(pairs_of(chosen), e.1, l.1);
                lemma_linked_trans(pairs_of(chosen), e.0, l.1, e.1);
            }
            if linked(pairs_of(rest), l.0, e.1) && linked(pairs_of(rest), e.0, l.1) {
                lemma_links_mono(rest, chosen, l.0, e.1);
                lemma_links_mono(rest, chosen, e.0, l.1);
                lemma_linked_sym(pairs_of(chosen), l.0, l.1);
                lemma_linked_trans(pairs_of(chosen), e.0, l.1, l.0);
                lemma_linked_trans(pairs_of(chosen), e.0, l.0, e.1);
            }
        }
    }
}

pub proof fn lemma_weight_empty()
    ensures
        weight(Set::empty()) == 0,
{
    vstd::set::fold::lemma_fold_empty(0int, add_length());
}

pub proof fn lemma_weight_insert(links: Set<(usize, usize, isize)>, l: (usize, usize, isize))
    requires
        links.finite(),
        !links.contains(l),
    ensures
        weight(links.insert(l)) == weight(links) + l.2,
{
    vstd::set::fold::lemma_fold_insert(links, 0int, add_length(), l);
}

pub proof fn lemma_pairs_insert(links: Set<(usize, usize, isize)>, l: (usize, usize, isize))
    ensures
        pairs_of(links.insert(l)) == pairs_of(links).insert((l.0, l.1)),
{
    let more = links.insert(l);
    assert forall|p: (usize, usize)| pairs_of(more).contains(p) <==> pairs_of(links).insert(
        (l.0, l.1),
    ).contains(p) by {
        if pairs_of(more).contains(p) {
            let len = choose|len: isize| more.contains((p.0, p.1, len));
            if (p.0, p.1, len) != l {
                assert(links.contains((p.0, p.1, len)));
            }
        }
        if pairs_of(links).insert((l.0, l.1)).contains(p) {
            if p == (l.0, l.1) {
                assert(more.contains((p.0, p.1, l.2)));
            } else {
                let len = choose|len: isize| links.contains((p.0, p.1, len));
                assert(more.contains((p.0, p.1, len)));
            }
        }
    }
    assert(pairs_of(more) =~= pairs_of(links).insert((l.0, l.1)));
}

pub proof fn lemma_pairs_mono(small: Set<(usize, usize, isize)>, large: Set<(usize, usize, isize)>)
    requires
        small.subset_of(large),
    ensures
        pairs_of(small).subset_of(pairs_of(large)),
{
    assert forall|p: (usize, usize)| pairs_of(small).contains(p) implies pairs_of(large).contains(
        p,
    ) by {
        let len = choose|len: isize| small.contains((p.0, p.1, len));
        assert(large.contains((p.0, p.1, len)));
    }
}

/// What `small` connects, `large` connects.
pub proof fn lemma_links_mono(
    small: Set<(usize, usize, isize)>,
    large: Set<(usize, usize, isize)>,
    a: usize,
    b: usize,
)
    requires
        small.subset_of(large),
        linked(pairs_of(small), a, b),
    ensures
        linked(pairs_of(large), a, b),
{
    lemma_pairs_mono(small, large);
    lemma_linked_mono(pairs_of(small), pairs_of(large), a, b);
}

/// The two ends of a link are connected by it.
pub proof fn lemma_link_links(links: Set<(usize, usize, isize)>, l: (usize, usize, isize))
    requires
        links.contains(l),
    ensures
        linked(pairs_of(links), l.0, l.1),
        ends_of(links).contains(l.0),
        ends_of(links).contains(l.1),
        pairs_of(links).contains((l.0, l.1)),
{
    assert(l == (l.0, l.1, l.2));
    let p = (l.0, l.1);
    assert(links.contains((p.0, p.1, l.2)));
    assert(has_pair(links, p));
    lemma_linked_pair(pairs_of(links), l.0, l.1);
}

/// A link behind a step of a chain.
pub proof fn lemma_joined_link(links: Set<(usize, usize, isize)>, x: usize, y: usize) -> (g: (
    usize,
    usize,
    isize,
))
    requires
        joins(pairs_of(links), x, y),
    ensures
        links.contains(g),
        (g.0 == x && g.1 == y) || (g.0 == y && g.1 == x),
{
    if pairs_of(links).contains((x, y)) {
        let len = choose|len: isize| links.contains((x, y, len));
        (x, y, len)
    } else {
        let len = choose|len: isize| links.contains((y, x, len));
        (y, x, len)
    }
}

/// The last place on a path at which a property holds that holds at its
/// start.
proof fn lemma_last_inside(path: Seq<usize>, inside: spec_fn(usize) -> bool, j: int) -> (k: int)
    requires
        0 <= j < path.len(),
        inside(path[0]),
        forall|m: int| j < m < path.len() ==> !inside(#[trigger] path[m]),
    ensures
        0 <= k <= j,
        inside(path[k]),
        forall|m: int| k < m < path.len() ==> !inside(#[trigger] path[m]),
    decreases j,
{
    if inside(path[j]) {
        j
    } else {
        lemma_last_inside(path, inside, j - 1)
    }
}

/// A spanning tree that holds `chosen` but not the link `e`, which joins two
/// vertices that `chosen` leaves apart, can give up a link that is no lighter
/// for `e` and stay a spanning tree.
pub proof fn lemma_exchange(
    all: Set<(usize, usize, isize)>,
    chosen: Set<(usize, usize, isize)>,
    e: (usize, usize, isize),
    t: Set<(usize, usize, isize)>,
) -> (t2: Set<(usize, usize, isize)>)
    requires
        is_spanning_tree(t, all),
        chosen.subset_of(t),
        all.contains(e),
        !linked(pairs_of(chosen), e.0, e.1),
        lighter_linked(all, chosen, e),
    ensures
        is_spanning_tree(t2, all),
        chosen.insert(e).subset_of(t2),
        weight(t2) <= weight(t),
{
    if t.contains(e) {
        return t;
    }
    let (u, v) = (e.0, e.1);
    lemma_link_links(all, e);
    assert(linked(pairs_of(t), u, v));
    let path = choose|path: Seq<usize>| is_chain(pairs_of(t), path, u, v);
    let inside = |z: usize| linked(pairs_of(chosen), u, z);
    lemma_linked_refl(pairs_of(chosen), u);
    let k = lemma_last_inside(path, inside, path.len() - 1);
    let p = path[k];
    let q = path[k + 1];
    assert(joins(pairs_of(t), path[k], path[k + 1]));
    let f = lemma_joined_link(t, p, q);
    assert(!inside(path[k + 1]));
    if linked(pairs_of(chosen), f.0, f.1) {
        if f.0 == p {
            lemma_linked_trans(pairs_of(chosen), u, p, q);
        } else {
            lemma_linked_sym(pairs_of(chosen), f.0, f.1);
            lemma_linked_trans(pairs_of(chosen), u, p, q);
        }
    }
    if chosen.contains(f) {
        lemma_link_links(chosen, f);
    }
    assert(all.contains(f));
    assert(f.2 >= e.2);
    let rest = t.remove(f);
    let t2 = rest.insert(e);
    assert(rest.insert(f) =~= t);
    lemma_weight_insert(rest, f);
    lemma_weight_insert(rest, e);
    assert(chosen.insert(e).subset_of(t2));
    assert(t2.subset_of(all));
    // the two ends of the link given up stay connected
    assert(linked(pairs_of(t2), p, q)) by {
        lemma_links_mono(chosen, t2, u, p);
        lemma_linked_sym(pairs_of(t2), u, p);
        lemma_link_links(t2, e);
        let suffix = path.subrange(k + 1, path.len() as int);
        assert forall|m: int| 0 <= m < suffix.len() - 1 implies joins(
            pairs_of(t2),
            #[trigger] suffix[m],
            suffix[m + 1],
        ) by {
            let x = path[k + 1 + m];
            let y = path[k + 1 + m + 1];
            assert(joins(pairs_of(t), path[k + 1 + m], path[k + 1 + m + 1]));
            assert(!inside(path[k + 1 + m]));
            assert(!inside(path[k + 1 + m + 1]));
            let g = lemma_joined_link(t, x, y);
            assert(g != f);
            assert(t2.contains(g));
            lemma_link_links(t2, g);
        }
        assert(is_chain(pairs_of(t2), suffix, q, v));
        lemma_linked_sym(pairs_of(t2), q, v);
        lemma_linked_trans(pairs_of(t2), p, u, v);
        lemma_linked_trans(pairs_of(t2), p, v, q);
    }
    lemma_linked_sym(pairs_of(t2), p, q);
    assert forall|a: usize, b: usize|
        ends_of(all).contains(a) && ends_of(all).contains(b) implies #[trigger] linked(
        pairs_of(t2),
        a,
        b,
    ) by {
        assert(linked(pairs_of(t), a, b));
        let inv = |z: usize| linked(pairs_of(t2), a, z);
        lemma_linked_refl(pairs_of(t2), a);
        assert forall|x: usize, y: usize| inv(x) && joins(pairs_of(t), x, y) implies inv(y) by {
            let g = lemma_joined_link(t, x, y);
            if g == f {
                lemma_linked_trans(pairs_of(t2), a, x, y);
            } else {
                assert(t2.contains(g));
                lemma_link_links(t2, g);
                lemma_linked_pair(pairs_of(t2), x, y);
                lemma_linked_trans(pairs_of(t2), a, x, y);
            }
        }
        lemma_linked_carries(pairs_of(t), a, b, inv);
    }
    t2
}

/// The lightest link that joins two vertices not yet connected can be chosen
/// next.
pub proof fn lemma_promising_step(
    all: Set<(usize, usize, isize)>,
    chosen: Set<(usize, usize, isize)>,
    e: (usize, usize, isize),
)
    requires
        promising(chosen, all),
        all.contains(e),
        !linked(pairs_of(chosen), e.0, e.1),
        lighter_linked(all, chosen, e),
    ensures
        promising(chosen.insert(e), all),
{
    assert forall|tree: Set<(usize, usize, isize)>| is_spanning_tree(tree, all) implies #[trigger]
    improves_on(chosen.insert(e), all, tree) by {
        assert(improves_on(chosen, all, tree));
        let better = choose|better: Set<(usize, usize, isize)>|
            {
                &&& #[trigger] is_spanning_tree(better, all)
                &&& chosen.subset_of(better)
                &&& weight(better) <= weight(tree)
            };
        let best = lemma_exchange(all, chosen, e, better);
        assert(is_spanning_tree(best, all));
    }
}

/// Nothing chosen yet stands in no spanning tree's way.
pub proof fn lemma_promising_start(all: Set<(usize, usize, isize)>)
    ensures
        promising(Set::empty(), all),
{
    assert forall|tree: Set<(usize, usize, isize)>| is_spanning_tree(tree, all) implies #[trigger]
    improves_on(Set::empty(), all, tree) by {
        assert(is_spanning_tree(tree, all) && Set::<(usize, usize, isize)>::empty().subset_of(tree));
    }
}

/// A spanning tree that every other spanning tree can be improved to is a
/// lightest one.
pub proof fn lemma_promising_end(all: Set<(usize, usize, isize)>, chosen: Set<(usize, usize, isize)>)
    requires
        promising(chosen, all),
        is_spanning_tree(chosen, all),
    ensures
        is_minimum_spanning_tree(chosen, all),
{
    assert forall|other: Set<(usize, usize, isize)>| #[trigger]
        is_spanning_tree(other, all) implies weight(chosen) <= weight(other) by {
        assert(improves_on(chosen, all, other));
        let better = choose|better: Set<(usize, usize, isize)>|
            {
                &&& #[trigger] is_spanning_tree(better, all)
                &&& chosen.subset_of(better)
                &&& weight(better) <= weight(other)
            };
        vstd::set_lib::lemma_subset_equality(chosen, better);
    }
}

} // verus!
