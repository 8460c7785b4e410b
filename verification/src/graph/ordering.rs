//! Orders of the vertices of a directed graph in which every edge leads
//! forward, and what cycles do to them.

use vstd::prelude::*;

verus! {

/// `path` follows edges and comes back to where it started.
pub open spec fn is_cycle(edge: spec_fn(usize, usize) -> bool, path: Seq<usize>) -> bool {
    &&& path.len() >= 2
    &&& path[0] == path[path.len() - 1]
    &&& forall|i: int| 0 <= i < path.len() - 1 ==> edge(#[trigger] path[i], path[i + 1])
}

/// Some path follows edges and comes back to where it started.
pub open spec fn has_cycle(edge: spec_fn(usize, usize) -> bool) -> bool {
    exists|path: Seq<usize>| is_cycle(edge, path)
}

/// Every edge starts and ends at a vertex.
pub open spec fn edges_within(edge: spec_fn(usize, usize) -> bool, verts: Set<usize>) -> bool {
    forall|u: usize, v: usize| #[trigger] edge(u, v) ==> verts.contains(u) && verts.contains(v)
}

/// Whatever has an edge to a member of the order stands before it in the
/// order.
pub open spec fn sources_first(edge: spec_fn(usize, usize) -> bool, order: Seq<usize>) -> bool {
    forall|u: usize, i: int|
        0 <= i < order.len() && #[trigger] edge(u, order[i]) ==> exists|j: int|
            0 <= j < i && order[j] == u
}

/// Every vertex that the order leaves out has an edge from another vertex
/// that it leaves out.
pub open spec fn leftover_fed(
    edge: spec_fn(usize, usize) -> bool,
    verts: Set<usize>,
    order: Seq<usize>,
) -> bool {
    forall|v: usize|
        verts.contains(v) && !order.contains(v) ==> exists|u: usize|
            verts.contains(u) && !order.contains(u) && #[trigger] edge(u, v)
}

/// The order holds vertices, none twice, each after all vertices that have
/// an edge to it, and as many as can be ordered so.
pub open spec fn is_topological(
    edge: spec_fn(usize, usize) -> bool,
    verts: Set<usize>,
    order: Seq<usize>,
) -> bool {
    &&& order.no_duplicates()
    &&& forall|i: int| 0 <= i < order.len() ==> verts.contains(#[trigger] order[i])
    &&& sources_first(edge, order)
    &&& leftover_fed(edge, verts, order)
}

/// An order of vertices without repetition is no longer than there are
/// vertices, and as long only if it holds them all.
pub proof fn lemma_order_len(verts: Set<usize>, order: Seq<usize>)
    requires
        verts.finite(),
        order.no_duplicates(),
        forall|i: int| 0 <= i < order.len() ==> verts.contains(#[trigger] order[i]),
    ensures
        order.len() <= verts.len(),
        order.len() == verts.len() ==> order.to_set() == verts,
        forall|v: usize| verts.contains(v) && !order.contains(v) ==> order.len() < verts.len(),
{
    order.unique_seq_to_set();
    assert(order.to_set().subset_of(verts)) by {
        assert forall|x: usize| order.to_set().contains(x) implies verts.contains(x) by {
            let i = choose|i: int| 0 <= i < order.len() && order[i] == x;
            assert(verts.contains(order[i]));
        }
    }
    vstd::set_lib::lemma_len_subset(order.to_set(), verts);
    if order.len() == verts.len() {
        vstd::set_lib::lemma_subset_equality(order.to_set(), verts);
    }
    assert forall|v: usize| verts.contains(v) && !order.contains(v) implies order.len()
        < verts.len() by {
        if order.len() == verts.len() {
            assert(order.to_set().contains(v));
        }
    }
}

/// Walking a cycle backwards from its end, every vertex is in the order, and
/// earlier than the one before.
proof fn lemma_cycle_back(
    edge: spec_fn(usize, usize) -> bool,
    order: Seq<usize>,
    path: Seq<usize>,
    k: int,
    last: int,
) -> (at: int)
    requires
        is_cycle(edge, path),
        sources_first(edge, order),
        0 <= k < path.len(),
        0 <= last < order.len(),
        order[last] == path[path.len() - 1],
    ensures
        0 <= at <= last - (path.len() - 1 - k),
        order[at] == path[k],
    decreases path.len() - k,
{
    if k == path.len() - 1 {
        last
    } else {
        let next = lemma_cycle_back(edge, order, path, k + 1, last);
        assert(edge(path[k], path[k + 1]));
        assert(edge(path[k], order[next]));
        let at = choose|j: int| 0 <= j < next && order[j] == path[k];
        at
    }
}

/// No vertex of a cycle is in the order.
pub proof fn lemma_cycle_left_out(
    edge: spec_fn(usize, usize) -> bool,
    order: Seq<usize>,
    path: Seq<usize>,
)
    requires
        is_cycle(edge, path),
        sources_first(edge, order),
        order.no_duplicates(),
    ensures
        !order.contains(path[0]),
{
    if order.contains(path[0]) {
        let last = choose|i: int| 0 <= i < order.len() && order[i] == path[0];
        let at = lemma_cycle_back(edge, order, path, 0, last);
        assert(at < last);
        assert(order[at] == order[last]);
    }
}

/// With a cycle in the graph the order is shorter than the number of
/// vertices.
pub proof fn lemma_cycle_shortens(
    edge: spec_fn(usize, usize) -> bool,
    verts: Set<usize>,
    order: Seq<usize>,
)
    requires
        verts.finite(),
        edges_within(edge, verts),
        is_topological(edge, verts, order),
        has_cycle(edge),
    ensures
        order.len() < verts.len(),
{
    let path = choose|path: Seq<usize>| is_cycle(edge, path);
    lemma_cycle_left_out(edge, order, path);
    assert(edge(path[0], path[0int + 1]));
    lemma_order_len(verts, order);
}

/// A walk against the edges among the vertices that the order leaves out.
pub open spec fn walk_back(
    edge: spec_fn(usize, usize) -> bool,
    verts: Set<usize>,
    order: Seq<usize>,
    start: usize,
    n: nat,
) -> usize
    decreases n,
{
    if n == 0 {
        start
    } else {
        let v = walk_back(edge, verts, order, start, (n - 1) as nat);
        choose|u: usize| verts.contains(u) && !order.contains(u) && #[trigger] edge(u, v)
    }
}

proof fn lemma_walk_back(
    edge: spec_fn(usize, usize) -> bool,
    verts: Set<usize>,
    order: Seq<usize>,
    start: usize,
    n: nat,
)
    requires
        leftover_fed(edge, verts, order),
        verts.contains(start),
        !order.contains(start),
    ensures
        verts.contains(walk_back(edge, verts, order, start, n)),
        !order.contains(walk_back(edge, verts, order, start, n)),
        n > 0 ==> edge(
            walk_back(edge, verts, order, start, n),
            walk_back(edge, verts, order, start, (n - 1) as nat),
        ),
    decreases n,
{
    if n > 0 {
        lemma_walk_back(edge, verts, order, start, (n - 1) as nat);
        let v = walk_back(edge, verts, order, start, (n - 1) as nat);
        assert(exists|u: usize| verts.contains(u) && !order.contains(u) && #[trigger] edge(u, v));
    }
}

/// Without a cycle in the graph the order holds every vertex.
pub proof fn lemma_acyclic_complete(
    edge: spec_fn(usize, usize) -> bool,
    verts: Set<usize>,
    order: Seq<usize>,
)
    requires
        verts.finite(),
        is_topological(edge, verts, order),
        !has_cycle(edge),
    ensures
        order.len() == verts.len(),
        order.to_set() == verts,
{
    lemma_order_len(verts, order);
    if order.len() != verts.len() {
        order.unique_seq_to_set();
        let start = choose|v: usize| verts.contains(v) && !order.to_set().contains(v);
        assert(verts.contains(start) && !order.to_set().contains(start)) by {
            if forall|v: usize| verts.contains(v) ==> order.to_set().contains(v) {
                assert(verts.subset_of(order.to_set()));
                vstd::set_lib::lemma_len_subset(verts, order.to_set());
            }
        }
        assert(!order.contains(start));
        let steps = Seq::new(verts.len() + 1, |n: int| walk_back(edge, verts, order, start, n as nat));
        assert forall|n: int| 0 <= n < steps.len() implies verts.contains(#[trigger] steps[n]) by {
            lemma_walk_back(edge, verts, order, start, n as nat);
        }
        if steps.no_duplicates() {
            lemma_order_len(verts, steps);
        }
        let (i, j) = choose|i: int, j: int|
            0 <= i < steps.len() && 0 <= j < steps.len() && i != j && steps[i] == steps[j];
        let (lo, hi) = if i < j {
            (i, j)
        } else {
            (j, i)
        };
        let path = Seq::new((hi - lo + 1) as nat, |t: int| steps[hi - t]);
        assert forall|t: int| 0 <= t < path.len() - 1 implies edge(#[trigger] path[t], path[t + 1]) by {
            lemma_walk_back(edge, verts, order, start, (hi - t) as nat);
        }
        assert(is_cycle(edge, path));
    }
}

} // verus!
