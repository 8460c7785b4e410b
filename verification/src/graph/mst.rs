use super::directed_graph::{concat, lemma_concat_holds, same_items, DirectedGraph};
use super::spanning::{
    ends_of, is_forest, is_minimum_spanning_tree, is_spanning_tree, lemma_forest_grows,
    lemma_joined_link, lemma_link_links, lemma_links_mono, lemma_pairs_insert,
    lemma_promising_end, lemma_promising_start, lemma_promising_step, lemma_weight_empty,
    lemma_weight_insert, lighter_linked, pairs_of, promising, spans, tree_size, weight,
};
use super::{Graph, IdEdge, IdVertex, LengthEdge};
use crate::ds::linkage::{
    joins, lemma_linked_carries, lemma_linked_empty, lemma_linked_insert, lemma_linked_refl,
    lemma_linked_sym, lemma_linked_trans, lemma_push_to_set, linked,
};
use crate::ds::DisjointSet;
use std::cmp::Ordering;
use std::collections::HashMap;
use vstd::prelude::*;

verus! {

broadcast use vstd::std_specs::hash::group_hash_axioms;

/// The two ends and the length of an edge.
pub open spec fn link_of<T: IdEdge + LengthEdge>(e: &T) -> (usize, usize, isize) {
    (e.from_spec(), e.to_spec(), e.length_spec())
}

/// The links of all edges, in their order.
pub open spec fn link_seq<T: IdEdge + LengthEdge>(edges: Seq<&T>) -> Seq<(usize, usize, isize)> {
    Seq::new(edges.len(), |i: int| link_of(edges[i]))
}

/// The links of all edges, whatever their order and however often each
/// occurs.
pub open spec fn links_of<T: IdEdge + LengthEdge>(edges: Seq<&T>) -> Set<(usize, usize, isize)> {
    link_seq(edges).to_set()
}

/// The total of the lengths of any of the links fits the machine integer.
pub open spec fn totals_fit(all: Set<(usize, usize, isize)>) -> bool {
    forall|part: Set<(usize, usize, isize)>|
        part.subset_of(all) ==> isize::MIN <= #[trigger] weight(part) <= isize::MAX
}

/// The total of the lengths of any of the links that form no cycle fits the
/// machine integer.
pub open spec fn forests_fit(all: Set<(usize, usize, isize)>) -> bool {
    forall|part: Set<(usize, usize, isize)>|
        part.subset_of(all) && part.finite() && is_forest(part) ==> isize::MIN
            <= #[trigger] weight(part) <= isize::MAX
}

/// The sum of the lengths without their signs.
pub open spec fn magnitude(s: Seq<(usize, usize, isize)>) -> nat
    decreases s.len(),
{
    if s.len() == 0 {
        0
    } else {
        magnitude(s.drop_last()) + (if s.last().2 < 0 {
            -s.last().2
        } else {
            s.last().2 as int
        }) as nat
    }
}

/// The total of any of the links of a sequence is within the sum of the
/// lengths without their signs.
pub proof fn lemma_total_within(s: Seq<(usize, usize, isize)>, part: Set<(usize, usize, isize)>)
    requires
        part.subset_of(s.to_set()),
    ensures
        part.finite(),
        -magnitude(s) <= weight(part) <= magnitude(s),
    decreases s.len(),
{
    if s.len() == 0 {
        assert(part =~= Set::empty());
        lemma_weight_empty();
    } else {
        let head = s.drop_last();
        let x = s.last();
        let rest = part.remove(x);
        assert(rest.subset_of(head.to_set())) by {
            assert forall|l: (usize, usize, isize)| rest.contains(l) implies head.to_set().contains(
                l,
            ) by {
                let i = choose|i: int| 0 <= i < s.len() && s[i] == l;
                assert(head[i] == l);
            }
        }
        lemma_total_within(head, rest);
        if part.contains(x) {
            assert(part =~= rest.insert(x));
            lemma_weight_insert(rest, x);
        } else {
            assert(part =~= rest);
        }
    }
}

/// Links whose lengths without their signs sum to a number that fits the
/// machine integer have totals that fit.
pub proof fn lemma_bound_fits(s: Seq<(usize, usize, isize)>, all: Set<(usize, usize, isize)>)
    requires
        all.subset_of(s.to_set()),
        magnitude(s) <= isize::MAX,
    ensures
        totals_fit(all),
        forests_fit(all),
{
    assert forall|part: Set<(usize, usize, isize)>| part.subset_of(all) implies isize::MIN
        <= #[trigger] weight(part) <= isize::MAX by {
        lemma_total_within(s, part);
    }
}

/// What `minimum_spanning_tree` answers for the links `all`: nothing where
/// they leave two of their vertices apart, else the weight of a lightest
/// spanning tree.
pub open spec fn is_answer(all: Set<(usize, usize, isize)>, r: Option<isize>) -> bool {
    match r {
        Some(w) => exists|tree: Set<(usize, usize, isize)>|
            #[trigger] is_minimum_spanning_tree(tree, all) && weight(tree) == w,
        None => !spans(all, all),
    }
}

/// Links that have a spanning tree among them connect all their vertices.
proof fn lemma_tree_spans(all: Set<(usize, usize, isize)>, tree: Set<(usize, usize, isize)>)
    requires
        is_spanning_tree(tree, all),
    ensures
        spans(all, all),
{
    assert forall|u: usize, v: usize|
        ends_of(all).contains(u) && ends_of(all).contains(v) implies #[trigger] linked(
        pairs_of(all),
        u,
        v,
    ) by {
        assert(linked(pairs_of(tree), u, v));
        lemma_links_mono(tree, all, u, v);
    }
}

/// The links have one answer.
pub proof fn lemma_answer_unique(all: Set<(usize, usize, isize)>, a: Option<isize>, b: Option<isize>)
    requires
        is_answer(all, a),
        is_answer(all, b),
    ensures
        a == b,
{
    if a is Some {
        let ta = choose|tree: Set<(usize, usize, isize)>|
            #[trigger] is_minimum_spanning_tree(tree, all) && weight(tree) == a->0;
        lemma_tree_spans(all, ta);
        if b is Some {
            let tb = choose|tree: Set<(usize, usize, isize)>|
                #[trigger] is_minimum_spanning_tree(tree, all) && weight(tree) == b->0;
            assert(is_spanning_tree(ta, all));
            assert(is_spanning_tree(tb, all));
        }
    } else if b is Some {
        let tb = choose|tree: Set<(usize, usize, isize)>|
            #[trigger] is_minimum_spanning_tree(tree, all) && weight(tree) == b->0;
        lemma_tree_spans(all, tb);
    }
}

/// The order of the edges does not matter to the answer: edges that are the
/// same ones, each as often, have the same answer.
pub proof fn lemma_answer_ignores_order<T: IdEdge + LengthEdge>(
    first: Seq<&T>,
    second: Seq<&T>,
    a: Option<isize>,
    b: Option<isize>,
)
    requires
        first.to_multiset() == second.to_multiset(),
        is_answer(links_of(first), a),
        is_answer(links_of(second), b),
    ensures
        a == b,
        forests_fit(links_of(first)) == forests_fit(links_of(second)),
{
    lemma_same_links(first, second);
    lemma_answer_unique(links_of(first), a, b);
}

/// Every vertex has a number below the count of vertices, and every such
/// number belongs to one vertex.
pub open spec fn is_numbering(m: Map<usize, usize>, ids: Seq<usize>) -> bool {
    &&& m.dom().finite()
    &&& ids.len() == m.len()
    &&& forall|k: usize| #[trigger] m.contains_key(k) ==> m[k] < ids.len() && ids[m[k] as int] == k
    &&& forall|j: int|
        0 <= j < ids.len() ==> m.contains_key(#[trigger] ids[j]) && m[ids[j]] == j
}

/// The vertices that the first `n` edges touch.
pub open spec fn ends_upto<T: IdEdge + LengthEdge>(edges: Seq<&T>, n: int) -> Set<usize> {
    Set::new(
        |v: usize|
            exists|j: int|
                0 <= j < n && (#[trigger] link_of(edges[j]).0 == v || link_of(edges[j]).1 == v),
    )
}

proof fn lemma_ends_upto_all<T: IdEdge + LengthEdge>(edges: Seq<&T>)
    ensures
        ends_upto(edges, edges.len() as int) == ends_of(links_of(edges)),
{
    let all = links_of(edges);
    assert forall|v: usize| ends_upto(edges, edges.len() as int).contains(v) implies ends_of(
        all,
    ).contains(v) by {
        let j = choose|j: int|
            0 <= j < edges.len() && (#[trigger] link_of(edges[j]).0 == v || link_of(edges[j]).1
                == v);
        assert(link_seq(edges)[j] == link_of(edges[j]));
        assert(all.contains(link_of(edges[j])));
    }
    assert forall|v: usize| ends_of(all).contains(v) implies ends_upto(
        edges,
        edges.len() as int,
    ).contains(v) by {
        let l = choose|l: (usize, usize, isize)| #[trigger]
            all.contains(l) && (l.0 == v || l.1 == v);
        let j = choose|j: int| 0 <= j < link_seq(edges).len() && link_seq(edges)[j] == l;
        assert(link_of(edges[j]) == l);
    }
    assert(ends_upto(edges, edges.len() as int) =~= ends_of(all));
}

/// Gives every vertex that an edge touches a number of its own, counting from
/// zero in the order in which the vertices first appear.
fn number_vertices<T: IdEdge + LengthEdge>(edges: &[&T]) -> (r: (
    HashMap<usize, usize>,
    Ghost<Seq<usize>>,
))
    ensures
        r.0@.dom() == ends_of(links_of(edges@)),
        is_numbering(r.0@, r.1@),
{
    let mut map: HashMap<usize, usize> = HashMap::new();
    let ghost mut ids: Seq<usize> = Seq::empty();
    let mut i: usize = 0;
    while i < edges.len()
        invariant
            i <= edges.len(),
            map@.dom() =~= ends_upto(edges@, i as int),
            is_numbering(map@, ids),
        decreases edges.len() - i,
    {
        let edge = edges[i];
        let ghost before = map@;
        let u = edge.from();
        let len = map.len();
        map.entry(u).or_insert(len);
        proof {
            if !before.contains_key(u) {
                ids = ids.push(u);
            }
            assert(map@.dom() =~= before.dom().insert(u));
            assert(is_numbering(map@, ids));
        }
        let ghost between = map@;
        let v = edge.to();
        let len = map.len();
        map.entry(v).or_insert(len);
        proof {
            if !between.contains_key(v) {
                ids = ids.push(v);
            }
            assert(map@.dom() =~= between.dom().insert(v));
            assert(is_numbering(map@, ids));
            assert forall|w: usize| map@.dom().contains(w) <==> ends_upto(
                edges@,
                i + 1,
            ).contains(w) by {
                if ends_upto(edges@, i + 1).contains(w) {
                    let j = choose|j: int|
                        0 <= j < i + 1 && (#[trigger] link_of(edges@[j]).0 == w || link_of(
                            edges@[j],
                        ).1 == w);
                    if j < i {
                        assert(ends_upto(edges@, i as int).contains(w));
                    }
                }
                if map@.dom().contains(w) {
                    if w == u || w == v {
                        assert(link_of(edges@[i as int]).0 == u);
                    } else {
                        assert(ends_upto(edges@, i as int).contains(w));
                        let j = choose|j: int|
                            0 <= j < i && (#[trigger] link_of(edges@[j]).0 == w || link_of(
                                edges@[j],
                            ).1 == w);
                        assert(0 <= j < i + 1);
                    }
                }
            }
        }
        i += 1;
    }
    proof {
        lemma_ends_upto_all(edges@);
    }
    (map, Ghost(ids))
}

/// How the length of the first edge compares to that of the second.
fn by_length<T: IdEdge + LengthEdge>(x: &T, y: &T) -> (o: Ordering)
    ensures
        o == (if x.length_spec() < y.length_spec() {
            Ordering::Less
        } else if x.length_spec() == y.length_spec() {
            Ordering::Equal
        } else {
            Ordering::Greater
        }),
{
    let (a, b) = (x.length(), y.length());
    if a < b {
        Ordering::Less
    } else if a == b {
        Ordering::Equal
    } else {
        Ordering::Greater
    }
}

/// Puts the edges in ascending order of length with `sort_by` of the
/// standard library: the edges stay the same ones, each as often as before,
/// and none is longer than one that follows it.
#[verifier::external_body]
fn sort_by_length<T: IdEdge + LengthEdge>(edges: &mut Vec<&T>)
    ensures
        final(edges)@.to_multiset() == old(edges)@.to_multiset(),
        forall|i: int, j: int|
            0 <= i <= j < final(edges)@.len() ==> link_of(final(edges)@[i]).2 <= link_of(
                final(edges)@[j],
            ).2,
{
    edges.sort_by(|x, y| by_length(*x, *y));
}

/// Edges that are the same ones, each as often, have the same links.
pub proof fn lemma_same_links<T: IdEdge + LengthEdge>(a: Seq<&T>, b: Seq<&T>)
    requires
        a.to_multiset() == b.to_multiset(),
    ensures
        links_of(a) == links_of(b),
{
    broadcast use vstd::seq_lib::to_multiset_contains;

    assert forall|l: (usize, usize, isize)| links_of(a).contains(l) <==> links_of(b).contains(
        l,
    ) by {
        if links_of(a).contains(l) {
            let j = choose|j: int| 0 <= j < link_seq(a).len() && link_seq(a)[j] == l;
            assert(a.contains(a[j]));
            assert(b.to_multiset().count(a[j]) > 0);
            let k = choose|k: int| 0 <= k < b.len() && b[k] == a[j];
            assert(link_seq(b)[k] == l);
        }
        if links_of(b).contains(l) {
            let j = choose|j: int| 0 <= j < link_seq(b).len() && link_seq(b)[j] == l;
            assert(b.contains(b[j]));
            assert(a.to_multiset().count(b[j]) > 0);
            let k = choose|k: int| 0 <= k < a.len() && a[k] == b[j];
            assert(link_seq(a)[k] == l);
        }
    }
    assert(links_of(a) =~= links_of(b));
}

/// The numbers of two vertices are in one set exactly when the chosen links
/// connect the vertices.
pub open spec fn agrees(
    united: Set<(usize, usize)>,
    m: Map<usize, usize>,
    chosen: Set<(usize, usize, isize)>,
) -> bool {
    forall|x: usize, y: usize|
        #![trigger linked(pairs_of(chosen), x, y)]
        #![trigger linked(united, m[x], m[y])]
        m.contains_key(x) && m.contains_key(y) ==> (linked(united, m[x], m[y]) <==> linked(
            pairs_of(chosen),
            x,
            y,
        ))
}

proof fn lemma_agrees_start(m: Map<usize, usize>, ids: Seq<usize>)
    requires
        is_numbering(m, ids),
    ensures
        agrees(Set::empty(), m, Set::empty()),
{
    let none = Set::<(usize, usize, isize)>::empty();
    assert(pairs_of(none) =~= Set::empty());
    assert forall|x: usize, y: usize| m.contains_key(x) && m.contains_key(y) implies (linked(
        Set::<(usize, usize)>::empty(),
        m[x],
        m[y],
    ) <==> linked(pairs_of(none), x, y)) by {
        if linked(Set::<(usize, usize)>::empty(), m[x], m[y]) {
            lemma_linked_empty(m[x], m[y]);
            lemma_linked_refl(pairs_of(none), x);
        }
        if linked(pairs_of(none), x, y) {
            lemma_linked_empty(x, y);
            lemma_linked_refl(Set::<(usize, usize)>::empty(), m[x]);
        }
    }
}

proof fn lemma_agrees_step(
    united: Set<(usize, usize)>,
    m: Map<usize, usize>,
    chosen: Set<(usize, usize, isize)>,
    e: (usize, usize, isize),
)
    requires
        agrees(united, m, chosen),
        m.contains_key(e.0),
        m.contains_key(e.1),
    ensures
        agrees(united.insert((m[e.0], m[e.1])), m, chosen.insert(e)),
{
    lemma_pairs_insert(chosen, e);
    assert forall|x: usize, y: usize| m.contains_key(x) && m.contains_key(y) implies (linked(
        united.insert((m[e.0], m[e.1])),
        m[x],
        m[y],
    ) <==> linked(pairs_of(chosen.insert(e)), x, y)) by {
        lemma_linked_insert(united, m[e.0], m[e.1], m[x], m[y]);
        lemma_linked_insert(pairs_of(chosen), e.0, e.1, x, y);
        assert(linked(united, m[x], m[y]) <==> linked(pairs_of(chosen), x, y));
        assert(linked(united, m[x], m[e.0]) <==> linked(pairs_of(chosen), x, e.0));
        assert(linked(united, m[x], m[e.1]) <==> linked(pairs_of(chosen), x, e.1));
        assert(linked(united, m[e.0], m[y]) <==> linked(pairs_of(chosen), e.0, y));
        assert(linked(united, m[e.1], m[y]) <==> linked(pairs_of(chosen), e.1, y));
    }
}

/// The edges before place `n` join vertices that `chosen` connects.
pub open spec fn settled<T: IdEdge + LengthEdge>(
    sorted: Seq<&T>,
    n: int,
    chosen: Set<(usize, usize, isize)>,
) -> bool {
    forall|k: int|
        0 <= k < n ==> linked(
            pairs_of(chosen),
            (#[trigger] link_of(sorted[k])).0,
            link_of(sorted[k]).1,
        )
}

/// No edge is longer than one that follows it.
pub open spec fn ascending<T: IdEdge + LengthEdge>(sorted: Seq<&T>) -> bool {
    forall|i: int, j: int|
        0 <= i <= j < sorted.len() ==> link_of(sorted[i]).2 <= link_of(sorted[j]).2
}

proof fn lemma_lighter<T: IdEdge + LengthEdge>(
    sorted: Seq<&T>,
    i: int,
    chosen: Set<(usize, usize, isize)>,
)
    requires
        0 <= i < sorted.len(),
        ascending(sorted),
        settled(sorted, i, chosen),
    ensures
        lighter_linked(links_of(sorted), chosen, link_of(sorted[i])),
{
    let e = link_of(sorted[i]);
    assert forall|f: (usize, usize, isize)| #[trigger]
        links_of(sorted).contains(f) && f.2 < e.2 implies linked(pairs_of(chosen), f.0, f.1) by {
        let k = choose|k: int| 0 <= k < link_seq(sorted).len() && link_seq(sorted)[k] == f;
        assert(link_of(sorted[k]) == f);
        if k >= i {
            assert(link_of(sorted[i]).2 <= link_of(sorted[k]).2);
        }
    }
}

proof fn lemma_settled_grows<T: IdEdge + LengthEdge>(
    sorted: Seq<&T>,
    n: int,
    chosen: Set<(usize, usize, isize)>,
    more: Set<(usize, usize, isize)>,
)
    requires
        settled(sorted, n, chosen),
        chosen.subset_of(more),
    ensures
        settled(sorted, n, more),
{
    assert forall|k: int| 0 <= k < n implies linked(
        pairs_of(more),
        (#[trigger] link_of(sorted[k])).0,
        link_of(sorted[k]).1,
    ) by {
        lemma_links_mono(chosen, more, link_of(sorted[k]).0, link_of(sorted[k]).1);
    }
}

proof fn lemma_spanning<T: IdEdge + LengthEdge>(
    all: Set<(usize, usize, isize)>,
    chosen: Set<(usize, usize, isize)>,
    m: Map<usize, usize>,
    ids: Seq<usize>,
    ds: &DisjointSet,
)
    requires
        ds.wf(),
        ds.set_count() == 1,
        ds.capacity_spec() == ids.len(),
        is_numbering(m, ids),
        m.dom() == ends_of(all),
        agrees(ds.history().to_set(), m, chosen),
        chosen.finite(),
        chosen.subset_of(all),
        chosen.len() + 1 == ids.len(),
    ensures
        is_spanning_tree(chosen, all),
        spans(all, all),
{
    assert forall|u: usize, v: usize|
        ends_of(all).contains(u) && ends_of(all).contains(v) implies #[trigger] linked(
        pairs_of(chosen),
        u,
        v,
    ) by {
        assert(m.contains_key(u) && m.contains_key(v));
        ds.lemma_one_set(m[u], m[v]);
    }
    assert forall|u: usize, v: usize|
        ends_of(all).contains(u) && ends_of(all).contains(v) implies #[trigger] linked(
        pairs_of(all),
        u,
        v,
    ) by {
        assert(linked(pairs_of(chosen), u, v));
        lemma_links_mono(chosen, all, u, v);
    }
}

proof fn lemma_apart<T: IdEdge + LengthEdge>(
    sorted: Seq<&T>,
    chosen: Set<(usize, usize, isize)>,
    m: Map<usize, usize>,
    ids: Seq<usize>,
    ds: &DisjointSet,
)
    requires
        ds.wf(),
        ds.set_count() != 1,
        ds.capacity_spec() == ids.len(),
        ids.len() > 0,
        is_numbering(m, ids),
        m.dom() == ends_of(links_of(sorted)),
        agrees(ds.history().to_set(), m, chosen),
        settled(sorted, sorted.len() as int, chosen),
    ensures
        !spans(links_of(sorted), links_of(sorted)),
{
    let all = links_of(sorted);
    ds.lemma_set_count_bounds();
    let pair = ds.lemma_many_sets();
    let u = ids[pair.0 as int];
    let v = ids[pair.1 as int];
    assert(m.contains_key(u) && m[u] == pair.0);
    assert(m.contains_key(v) && m[v] == pair.1);
    assert(!linked(ds.history().to_set(), m[u], m[v]));
    assert(!linked(pairs_of(chosen), u, v));
    if linked(pairs_of(all), u, v) {
        let inv = |z: usize| linked(pairs_of(chosen), u, z);
        lemma_linked_refl(pairs_of(chosen), u);
        assert forall|x: usize, y: usize| inv(x) && joins(pairs_of(all), x, y) implies inv(y) by {
            let g = lemma_joined_link(all, x, y);
            let k = choose|k: int| 0 <= k < link_seq(sorted).len() && link_seq(sorted)[k] == g;
            assert(link_of(sorted[k]) == g);
            assert(linked(pairs_of(chosen), g.0, g.1));
            if g.0 == x {
                lemma_linked_trans(pairs_of(chosen), u, x, y);
            } else {
                lemma_linked_sym(pairs_of(chosen), g.0, g.1);
                lemma_linked_trans(pairs_of(chosen), u, x, y);
            }
        }
        lemma_linked_carries(pairs_of(all), u, v, inv);
    }
    assert(ends_of(all).contains(u) && ends_of(all).contains(v));
}

proof fn lemma_no_edges()
    ensures
        is_minimum_spanning_tree(Set::empty(), Set::empty()),
        weight(Set::empty()) == 0,
        spans(Set::empty(), Set::empty()),
{
    let none = Set::<(usize, usize, isize)>::empty();
    lemma_weight_empty();
    assert(ends_of(none) =~= Set::empty());
    assert(is_spanning_tree(none, none));
    assert forall|other: Set<(usize, usize, isize)>| #[trigger]
        is_spanning_tree(other, none) implies weight(none) <= weight(other) by {
        assert(other =~= none);
    }
}

/// The total length of a lightest set of edges that connects all vertices
/// which the edges touch, if they can be connected at all.
pub fn minimum_spanning_tree<T: IdEdge + LengthEdge>(edges: &[&T]) -> (r: Option<isize>)
    requires
        forests_fit(links_of(edges@)),
    ensures
        is_answer(links_of(edges@), r),
        r is Some <==> spans(links_of(edges@), links_of(edges@)),
{
    let ghost all = links_of(edges@);
    if edges.is_empty() {
        proof {
            lemma_no_edges();
            assert(all =~= Set::empty());
        }
        return Some(0);
    }
    let (map, Ghost(ids)) = number_vertices(edges);

    let mut sorted: Vec<&T> = Vec::with_capacity(edges.len());
    let mut n: usize = 0;
    while n < edges.len()
        invariant
            n <= edges.len(),
            sorted@ == edges@.take(n as int),
        decreases edges.len() - n,
    {
        sorted.push(edges[n]);
        n += 1;
        assert(sorted@ =~= edges@.take(n as int));
    }
    assert(sorted@ =~= edges@);
    sort_by_length(&mut sorted);

    let mut ds = DisjointSet::new(map.len(), true);
    let mut res: isize = 0;
    let ghost mut chosen: Set<(usize, usize, isize)> = Set::empty();
    proof {
        lemma_same_links(sorted@, edges@);
        lemma_agrees_start(map@, ids);
        lemma_promising_start(all);
        lemma_weight_empty();
        assert(ds.history().to_set() =~= Set::empty());
        assert(link_seq(edges@)[0] == link_of(edges@[0]));
        lemma_link_links(all, link_of(edges@[0]));
        assert(map@.contains_key(link_of(edges@[0]).0));
        assert(ids.len() > 0);
    }
    let mut i: usize = 0;
    while i < sorted.len()
        invariant
            i <= sorted.len(),
            all == links_of(edges@),
            links_of(sorted@) == all,
            forests_fit(all),
            is_forest(chosen),
            ascending(sorted@),
            map@.dom() == ends_of(all),
            is_numbering(map@, ids),
            ids.len() > 0,
            ds.wf(),
            ds.capacity_spec() == ids.len(),
            chosen.finite(),
            chosen.subset_of(all),
            res == weight(chosen),
            chosen.len() + ds.set_count() == ids.len(),
            agrees(ds.history().to_set(), map@, chosen),
            settled(sorted@, i as int, chosen),
            promising(chosen, all),
        ensures
            ds.set_count() == 1 || i == sorted.len(),
        decreases sorted.len() - i,
    {
        let edge = sorted[i];
        let ghost e = link_of(edge);
        proof {
            assert(link_seq(sorted@)[i as int] == e);
            lemma_link_links(all, e);
        }
        let from = *map.get(&edge.from()).unwrap();
        let to = *map.get(&edge.to()).unwrap();
        let ghost calls = ds.history();
        let ghost united = calls.to_set();
        if ds.in_same(from, to) {
            proof {
                assert(linked(united, map@[e.0], map@[e.1]));
                assert(linked(pairs_of(chosen), e.0, e.1));
            }
            i += 1;
            continue ;
        }
        ds.unite(from, to);
        proof {
            assert(!linked(pairs_of(chosen), e.0, e.1));
            if chosen.contains(e) {
                lemma_link_links(chosen, e);
            }
            lemma_forest_grows(chosen, e);
            lemma_lighter(sorted@, i as int, chosen);
            lemma_promising_step(all, chosen, e);
            lemma_push_to_set(calls, (from, to));
            lemma_agrees_step(united, map@, chosen, e);
            lemma_weight_insert(chosen, e);
            lemma_settled_grows(sorted@, i as int, chosen, chosen.insert(e));
            assert(chosen.insert(e).subset_of(all));
        }
        res += edge.length();
        proof {
            chosen = chosen.insert(e);
            lemma_link_links(chosen, e);
        }
        if ds.is_one() {
            break ;
        }
        i += 1;
    }
    if ds.is_one() {
        proof {
            lemma_spanning::<T>(all, chosen, map@, ids, &ds);
            lemma_promising_end(all, chosen);
        }
        Some(res)
    } else {
        proof {
            lemma_apart(sorted@, chosen, map@, ids, &ds);
        }
        None
    }
}

/// The two ends and the length of every edge of the graph.
pub open spec fn links_in<V, E>(graph: &DirectedGraph<V, E>) -> Set<(usize, usize, isize)> where
    V: IdVertex,
    E: IdEdge + LengthEdge,
 {
    Set::new(
        |l: (usize, usize, isize)|
            exists|k: usize, j: int|
                graph.buckets().contains_key(k) && 0 <= j < graph.buckets()[k].len()
                    && #[trigger] link_of(&graph.buckets()[k][j]) == l,
    )
}

/// The links connect every two vertices of the graph.
pub open spec fn joins_all<V, E>(graph: &DirectedGraph<V, E>, tree: Set<(usize, usize, isize)>) -> bool where
    V: IdVertex,
    E: IdEdge + LengthEdge,
 {
    forall|u: usize, v: usize|
        graph.vertex_map().contains_key(u) && graph.vertex_map().contains_key(v)
            ==> #[trigger] linked(pairs_of(tree), u, v)
}

/// `tree` is chosen among the edges of the graph, connects all its vertices,
/// and has one link less than the graph has vertices.
pub open spec fn is_spanning_tree_in<V, E>(
    graph: &DirectedGraph<V, E>,
    tree: Set<(usize, usize, isize)>,
) -> bool where V: IdVertex, E: IdEdge + LengthEdge {
    &&& tree.subset_of(links_in(graph))
    &&& tree.finite()
    &&& joins_all(graph, tree)
    &&& tree.len() == tree_size(graph.vertex_count())
}

/// No spanning tree of the graph weighs less than `tree`.
pub open spec fn is_minimum_spanning_tree_in<V, E>(
    graph: &DirectedGraph<V, E>,
    tree: Set<(usize, usize, isize)>,
) -> bool where V: IdVertex, E: IdEdge + LengthEdge {
    &&& is_spanning_tree_in(graph, tree)
    &&& forall|other: Set<(usize, usize, isize)>| #[trigger]
        is_spanning_tree_in(graph, other) ==> weight(tree) <= weight(other)
}

/// What `minimum_spanning_tree_in` answers: nothing where the edges leave two
/// vertices of the graph apart, else the weight of a lightest spanning tree.
pub open spec fn is_answer_in<V, E>(graph: &DirectedGraph<V, E>, r: Option<isize>) -> bool where
    V: IdVertex,
    E: IdEdge + LengthEdge,
 {
    match r {
        Some(w) => exists|tree: Set<(usize, usize, isize)>|
            #[trigger] is_minimum_spanning_tree_in(graph, tree) && weight(tree) == w,
        None => !joins_all(graph, links_in(graph)),
    }
}

/// A list of the edges of a graph, bucket by bucket, has the links of the
/// graph.
pub proof fn lemma_links_listed<V, E>(graph: &DirectedGraph<V, E>, edges: Seq<&E>, keys: Seq<usize>) where
    V: IdVertex,
    E: IdEdge + LengthEdge,

    requires
        graph.tidy(),
        keys.to_set() == graph.buckets().dom(),
        same_items(edges, concat(graph.buckets(), keys)),
        forall|i: int| 0 <= i < edges.len() ==> graph.holds(*#[trigger] edges[i]),
    ensures
        links_of(edges) == links_in(graph),
{
    let bk = graph.buckets();
    assert forall|l: (usize, usize, isize)| links_of(edges).contains(l) implies links_in(
        graph,
    ).contains(l) by {
        let i = choose|i: int| 0 <= i < link_seq(edges).len() && link_seq(edges)[i] == l;
        let e = *edges[i];
        assert(graph.holds(e));
        let b = graph.bucket(e.from_spec());
        let j = choose|j: int| 0 <= j < b.len() && b[j] == e;
        assert(link_of(&bk[e.from_spec()][j]) == l);
    }
    assert forall|l: (usize, usize, isize)| links_in(graph).contains(l) implies links_of(
        edges,
    ).contains(l) by {
        let (k, j) = choose|k: usize, j: int|
            bk.contains_key(k) && 0 <= j < bk[k].len() && #[trigger] link_of(&bk[k][j]) == l;
        assert(keys.to_set().contains(k));
        let a = choose|a: int| 0 <= a < keys.len() && keys[a] == k;
        let i = lemma_concat_holds(bk, keys, a, j);
        assert(*edges[i] == concat(bk, keys)[i]);
        assert(link_seq(edges)[i] == l);
    }
    assert(links_of(edges) =~= links_in(graph));
}

/// In a graph without dangling edges, the vertices that the edges touch are
/// vertices of the graph.
proof fn lemma_ends_are_vertices<V, E>(graph: &DirectedGraph<V, E>) where
    V: IdVertex,
    E: IdEdge + LengthEdge,

    requires
        graph.tidy(),
        graph.no_dangling(),
    ensures
        ends_of(links_in(graph)).subset_of(graph.vertex_map().dom()),
{
    let bk = graph.buckets();
    assert forall|v: usize| ends_of(links_in(graph)).contains(v) implies graph.vertex_map().dom().contains(
        v,
    ) by {
        let l = choose|l: (usize, usize, isize)| #[trigger]
            links_in(graph).contains(l) && (l.0 == v || l.1 == v);
        let (k, j) = choose|k: usize, j: int|
            bk.contains_key(k) && 0 <= j < bk[k].len() && #[trigger] link_of(&bk[k][j]) == l;
        assert(bk[k][j].from_spec() == k);
        assert(graph.vertex_map().contains_key(bk[k][j].to_spec()));
    }
}

/// Where the edges touch every vertex of the graph, the answer for the
/// edges is the answer for the graph.
proof fn lemma_all_touched<V, E>(graph: &DirectedGraph<V, E>, r: Option<isize>) where
    V: IdVertex,
    E: IdEdge + LengthEdge,

    requires
        ends_of(links_in(graph)) == graph.vertex_map().dom(),
        is_answer(links_in(graph), r),
        r is Some <==> spans(links_in(graph), links_in(graph)),
    ensures
        is_answer_in(graph, r),
        r is Some <==> joins_all(graph, links_in(graph)),
{
    let all = links_in(graph);
    assert(graph.vertex_count() == ends_of(all).len());
    assert forall|tree: Set<(usize, usize, isize)>|
        is_spanning_tree(tree, all) == #[trigger] is_spanning_tree_in(graph, tree) by {
        if spans(tree, all) {
            assert forall|u: usize, v: usize|
                graph.vertex_map().contains_key(u) && graph.vertex_map().contains_key(
                    v,
                ) implies #[trigger] linked(pairs_of(tree), u, v) by {
                assert(ends_of(all).contains(u) && ends_of(all).contains(v));
            }
        }
        if joins_all(graph, tree) {
            assert forall|u: usize, v: usize|
                ends_of(all).contains(u) && ends_of(all).contains(v) implies #[trigger] linked(
                pairs_of(tree),
                u,
                v,
            ) by {
                assert(graph.vertex_map().contains_key(u) && graph.vertex_map().contains_key(v));
            }
        }
    }
    if spans(all, all) {
        assert forall|u: usize, v: usize|
            graph.vertex_map().contains_key(u) && graph.vertex_map().contains_key(
                v,
            ) implies #[trigger] linked(pairs_of(all), u, v) by {
            assert(ends_of(all).contains(u) && ends_of(all).contains(v));
        }
    }
    if joins_all(graph, all) {
        assert forall|u: usize, v: usize|
            ends_of(all).contains(u) && ends_of(all).contains(v) implies #[trigger] linked(
            pairs_of(all),
            u,
            v,
        ) by {
            assert(graph.vertex_map().contains_key(u) && graph.vertex_map().contains_key(v));
        }
    }
    if r is Some {
        let tree = choose|tree: Set<(usize, usize, isize)>|
            #[trigger] is_minimum_spanning_tree(tree, all) && weight(tree) == r->0;
        assert(is_spanning_tree_in(graph, tree));
        assert forall|other: Set<(usize, usize, isize)>| #[trigger]
            is_spanning_tree_in(graph, other) implies weight(tree) <= weight(other) by {
            assert(is_spanning_tree(other, all));
        }
        assert(is_minimum_spanning_tree_in(graph, tree));
    }
}

/// A graph of one vertex that no edge touches has the empty spanning tree.
proof fn lemma_lone_vertex<V, E>(graph: &DirectedGraph<V, E>) where
    V: IdVertex,
    E: IdEdge + LengthEdge,

    requires
        graph.vertex_map().dom().finite(),
        graph.vertex_count() == 1,
        ends_of(links_in(graph)) == Set::<usize>::empty(),
    ensures
        is_answer_in(graph, Some(0isize)),
        joins_all(graph, links_in(graph)),
{
    let all = links_in(graph);
    let none = Set::<(usize, usize, isize)>::empty();
    let verts = graph.vertex_map().dom();
    assert(all =~= none) by {
        assert forall|l: (usize, usize, isize)| !all.contains(l) by {
            if all.contains(l) {
                lemma_link_links(all, l);
            }
        }
    }
    lemma_weight_empty();
    assert forall|u: usize, v: usize|
        graph.vertex_map().contains_key(u) && graph.vertex_map().contains_key(
            v,
        ) implies #[trigger] linked(pairs_of(none), u, v) by {
        if u != v {
            assert(verts.remove(u).contains(v));
            assert(verts.remove(u).len() == 0);
        }
        lemma_linked_refl(pairs_of(none), u);
    }
    assert(is_spanning_tree_in(graph, none));
    assert forall|other: Set<(usize, usize, isize)>| #[trigger]
        is_spanning_tree_in(graph, other) implies weight(none) <= weight(other) by {
        assert(other =~= none);
    }
    assert(is_minimum_spanning_tree_in(graph, none));
}

/// A graph of two or more vertices, one of which no edge touches, is not
/// connected.
proof fn lemma_untouched_vertex<V, E>(graph: &DirectedGraph<V, E>) where
    V: IdVertex,
    E: IdEdge + LengthEdge,

    requires
        graph.vertex_map().dom().finite(),
        ends_of(links_in(graph)).finite(),
        ends_of(links_in(graph)).subset_of(graph.vertex_map().dom()),
        ends_of(links_in(graph)).len() < graph.vertex_count(),
        graph.vertex_count() >= 2,
    ensures
        !joins_all(graph, links_in(graph)),
{
    let all = links_in(graph);
    let verts = graph.vertex_map().dom();
    let ends = ends_of(all);
    if forall|v: usize| verts.contains(v) ==> ends.contains(v) {
        assert(verts.subset_of(ends));
        vstd::set_lib::lemma_len_subset(verts, ends);
    }
    let x = choose|x: usize| verts.contains(x) && !ends.contains(x);
    let others = verts.remove(x);
    assert(others.len() >= 1);
    let y = others.choose();
    assert(others.contains(y));
    if linked(pairs_of(all), x, y) {
        let inv = |z: usize| z == x;
        assert forall|u: usize, v: usize| inv(u) && joins(pairs_of(all), u, v) implies inv(v) by {
            let g = lemma_joined_link(all, u, v);
            lemma_link_links(all, g);
        }
        lemma_linked_carries(pairs_of(all), x, y, inv);
    }
    assert(graph.vertex_map().contains_key(x) && graph.vertex_map().contains_key(y));
}

/// The total length of a lightest set of edges of the graph that connects
/// all its vertices, if they can be connected at all. A graph without
/// vertices is connected by nothing, at no length.
pub fn minimum_spanning_tree_in<V, E>(graph: &DirectedGraph<V, E>) -> (r: Option<isize>) where
    V: IdVertex,
    E: IdEdge + LengthEdge,

    requires
        graph.wf(),
        graph.no_dangling(),
        forests_fit(links_in(graph)),
    ensures
        is_answer_in(graph, r),
        r is Some <==> joins_all(graph, links_in(graph)),
{
    let edges = graph.edges();
    proof {
        graph.lemma_no_empty_bucket();
        let keys = choose|keys: Seq<usize>|
            {
                &&& keys.no_duplicates()
                &&& keys.to_set() == graph.buckets().dom()
                &&& #[trigger] same_items(edges@, concat(graph.buckets(), keys))
            };
        lemma_links_listed(graph, edges@, keys);
        lemma_ends_are_vertices(graph);
    }
    let n = graph.len_vertex();
    let (map, Ghost(ids)) = number_vertices(edges.as_slice());
    let touched = map.len();
    if touched == n {
        proof {
            vstd::set_lib::lemma_subset_equality(
                ends_of(links_in(graph)),
                graph.vertex_map().dom(),
            );
        }
        let r = minimum_spanning_tree(edges.as_slice());
        proof {
            lemma_all_touched(graph, r);
        }
        r
    } else if n == 1 {
        proof {
            vstd::set_lib::lemma_len_subset(ends_of(links_in(graph)), graph.vertex_map().dom());
            assert(ends_of(links_in(graph)).len() == 0);
            assert(ends_of(links_in(graph)) =~= Set::<usize>::empty());
            lemma_lone_vertex(graph);
        }
        Some(0)
    } else {
        proof {
            vstd::set_lib::lemma_len_subset(ends_of(links_in(graph)), graph.vertex_map().dom());
            lemma_untouched_vertex(graph);
        }
        None
    }
}

} // verus!
