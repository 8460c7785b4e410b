use super::tally::{
    lemma_total_agree, lemma_total_bounds, lemma_total_empty, lemma_total_insert,
    lemma_total_positive, lemma_total_remove, total,
};
use super::degree::{
    arriving, hits, lemma_concat_hits, lemma_hits_bound, lemma_hits_mono,
    lemma_hits_some, lemma_pending_step, pending, ref_targets, targets,
};
use super::ordering::{
    edges_within, has_cycle, is_topological, leftover_fed, lemma_acyclic_complete,
    lemma_cycle_shortens, lemma_order_len, sources_first,
};
use super::{Graph, IdEdge, IdGraph, IdVertex};
use std::collections::{HashMap, VecDeque};
use vstd::prelude::*;
use vstd::std_specs::cmp::PartialEqSpec;
use vstd::std_specs::iter::IteratorSpec;

verus! {

broadcast use vstd::std_specs::hash::group_hash_axioms;

/// A directed graph: vertices by their numbers, and for each vertex that has
/// any the edges that leave it, in a bucket of their own.
pub struct DirectedGraph<V, E> where V: IdVertex, E: IdEdge {
    vertices: HashMap<usize, V>,
    edges: HashMap<usize, Vec<E>>,
    edges_len: usize,
}

/// The length of each bucket.
pub open spec fn bucket_len<E>(buckets: Map<usize, Seq<E>>) -> spec_fn(usize) -> nat {
    |k: usize| buckets[k].len()
}

/// The number of edges in all buckets.
pub open spec fn count_edges<E>(buckets: Map<usize, Seq<E>>) -> nat {
    total(buckets.dom(), bucket_len(buckets))
}

/// The buckets of `keys`, one after the other.
pub open spec fn concat<E>(buckets: Map<usize, Seq<E>>, keys: Seq<usize>) -> Seq<E>
    decreases keys.len(),
{
    if keys.len() == 0 {
        Seq::empty()
    } else {
        concat(buckets, keys.drop_last()) + buckets[keys.last()]
    }
}

/// The edge at `pos` equals `e`, and none before it does.
pub open spec fn first_equal<E: PartialEq>(bucket: Seq<E>, e: E, pos: int) -> bool {
    &&& 0 <= pos < bucket.len()
    &&& bucket[pos].eq_spec(&e)
    &&& forall|i: int| 0 <= i < pos ==> !(#[trigger] bucket[i]).eq_spec(&e)
}

/// No edge of the bucket equals `e`.
pub open spec fn none_equal<E: PartialEq>(bucket: Seq<E>, e: E) -> bool {
    forall|i: int| 0 <= i < bucket.len() ==> !(#[trigger] bucket[i]).eq_spec(&e)
}

/// The references lead to the items, one for one.
pub open spec fn same_items<E>(refs: Seq<&E>, items: Seq<E>) -> bool {
    &&& refs.len() == items.len()
    &&& forall|i: int| 0 <= i < refs.len() ==> *(#[trigger] refs[i]) == items[i]
}

/// The buckets after the edge at `pos` has left the bucket of `k`: the last
/// edge of the bucket takes its place, and a bucket left empty goes too.
pub open spec fn taken<E>(buckets: Map<usize, Seq<E>>, k: usize, pos: int) -> Map<usize, Seq<E>> {
    let rest = buckets[k].update(pos, buckets[k].last()).drop_last();
    if rest.len() == 0 {
        buckets.remove(k)
    } else {
        buckets.insert(k, rest)
    }
}

/// The buckets once `e` has joined the bucket of the vertex that it leaves.
pub open spec fn put<E: IdEdge>(buckets: Map<usize, Seq<E>>, e: E) -> Map<usize, Seq<E>> {
    let k = e.from_spec();
    buckets.insert(
        k,
        (if buckets.contains_key(k) {
            buckets[k]
        } else {
            Seq::empty()
        }).push(e),
    )
}

/// Inserting an edge, removing one edge from the bucket that it went to and
/// inserting the edge again leaves as many edges as the first insertion did.
pub proof fn lemma_reinsert_restores_count<E: IdEdge>(buckets: Map<usize, Seq<E>>, e: E, pos: int)
    requires
        buckets.dom().finite(),
        0 <= pos < put(buckets, e)[e.from_spec()].len(),
    ensures
        count_edges(put(buckets, e)) == count_edges(buckets) + 1,
        count_edges(taken(put(buckets, e), e.from_spec(), pos)) == count_edges(buckets),
        count_edges(put(taken(put(buckets, e), e.from_spec(), pos), e)) == count_edges(
            put(buckets, e),
        ),
{
    let k = e.from_spec();
    let first = put(buckets, e);
    lemma_count_put(buckets, k, first[k]);
    let rest = first[k].update(pos, first[k].last()).drop_last();
    let second = taken(first, k, pos);
    if rest.len() == 0 {
        lemma_count_drop(first, k);
    } else {
        lemma_count_put(first, k, rest);
    }
    lemma_count_put(second, k, put(second, e)[k]);
}

/// The vertices of a list by their numbers, a later one replacing an earlier
/// one of the same number.
pub open spec fn vertices_from<V: IdVertex>(list: Seq<V>) -> Map<usize, V>
    decreases list.len(),
{
    if list.len() == 0 {
        Map::empty()
    } else {
        vertices_from(list.drop_last()).insert(list.last().id_spec(), list.last())
    }
}

/// The edges of a list, each in the bucket of the vertex that it leaves, in
/// the order of the list.
pub open spec fn buckets_from<E: IdEdge>(list: Seq<E>) -> Map<usize, Seq<E>>
    decreases list.len(),
{
    if list.len() == 0 {
        Map::empty()
    } else {
        put(buckets_from(list.drop_last()), list.last())
    }
}

/// Both ends of every edge of the list are among the vertices.
pub open spec fn ends_known<V, E: IdEdge>(vertices: Map<usize, V>, list: Seq<E>) -> bool {
    forall|j: int|
        0 <= j < list.len() ==> vertices.contains_key((#[trigger] list[j]).from_spec())
            && vertices.contains_key(list[j].to_spec())
}

proof fn lemma_count_put<E>(buckets: Map<usize, Seq<E>>, k: usize, b: Seq<E>)
    requires
        buckets.dom().finite(),
    ensures
        count_edges(buckets.insert(k, b)) + (if buckets.contains_key(k) {
            buckets[k].len()
        } else {
            0
        }) == count_edges(buckets) + b.len(),
{
    let more = buckets.insert(k, b);
    let f = bucket_len(buckets);
    let g = bucket_len(more);
    if buckets.contains_key(k) {
        assert(more.dom() =~= buckets.dom());
        lemma_total_remove(buckets.dom(), f, k);
        lemma_total_remove(more.dom(), g, k);
        lemma_total_agree(buckets.dom().remove(k), f, g);
    } else {
        assert(more.dom() =~= buckets.dom().insert(k));
        lemma_total_insert(buckets.dom(), g, k);
        lemma_total_agree(buckets.dom(), f, g);
    }
}

proof fn lemma_count_drop<E>(buckets: Map<usize, Seq<E>>, k: usize)
    requires
        buckets.dom().finite(),
        buckets.contains_key(k),
    ensures
        count_edges(buckets.remove(k)) + buckets[k].len() == count_edges(buckets),
{
    let less = buckets.remove(k);
    assert(less.dom() =~= buckets.dom().remove(k));
    lemma_total_remove(buckets.dom(), bucket_len(buckets), k);
    lemma_total_agree(less.dom(), bucket_len(buckets), bucket_len(less));
}

/// The buckets of keys that are all different hold as many edges as the sum
/// of their lengths: the edges listed bucket by bucket are as many as the
/// graph counts.
pub proof fn lemma_concat_len<E>(buckets: Map<usize, Seq<E>>, keys: Seq<usize>)
    requires
        keys.no_duplicates(),
    ensures
        concat(buckets, keys).len() == total(keys.to_set(), bucket_len(buckets)),
    decreases keys.len(),
{
    broadcast use vstd::seq_lib::seq_to_set_is_finite;

    if keys.len() == 0 {
        assert(keys.to_set() =~= Set::empty());
    } else {
        let front = keys.drop_last();
        let k = keys.last();
        lemma_concat_len(buckets, front);
        assert(keys.to_set() =~= front.to_set().insert(k)) by {
            assert forall|x: usize| keys.to_set().contains(x) implies front.to_set().insert(
                k,
            ).contains(x) by {
                let i = choose|i: int| 0 <= i < keys.len() && keys[i] == x;
                if i < front.len() {
                    assert(front[i] == x);
                }
            }
            assert forall|x: usize| front.to_set().insert(k).contains(x) implies keys.to_set().contains(
                x,
            ) by {
                if x == k {
                    assert(keys[keys.len() - 1] == x);
                } else {
                    let i = choose|i: int| 0 <= i < front.len() && front[i] == x;
                    assert(keys[i] == x);
                }
            }
        }
        if front.to_set().contains(k) {
            let i = choose|i: int| 0 <= i < front.len() && front[i] == k;
            assert(keys[i] == keys[keys.len() - 1]);
        }
        lemma_total_insert(front.to_set(), bucket_len(buckets), k);
    }
}

/// Where the buckets are put one after the other, every edge of the bucket
/// of every key is found.
pub proof fn lemma_concat_holds<E>(buckets: Map<usize, Seq<E>>, keys: Seq<usize>, a: int, j: int) -> (i:
    int)
    requires
        0 <= a < keys.len(),
        0 <= j < buckets[keys[a]].len(),
    ensures
        0 <= i < concat(buckets, keys).len(),
        concat(buckets, keys)[i] == buckets[keys[a]][j],
    decreases keys.len(),
{
    let head = concat(buckets, keys.drop_last());
    if a == keys.len() - 1 {
        head.len() + j
    } else {
        lemma_concat_holds(buckets, keys.drop_last(), a, j)
    }
}

impl<V, E> DirectedGraph<V, E> where V: IdVertex, E: IdEdge {
    /// The vertices by their numbers.
    pub closed spec fn vertex_map(&self) -> Map<usize, V> {
        self.vertices@
    }

    /// The edges that leave each vertex, in the order in which they are kept.
    pub closed spec fn buckets(&self) -> Map<usize, Seq<E>> {
        Map::new(|k: usize| self.edges@.contains_key(k), |k: usize| self.edges@[k]@)
    }

    /// The edges that leave `id`.
    pub open spec fn bucket(&self, id: usize) -> Seq<E> {
        if self.buckets().contains_key(id) {
            self.buckets()[id]
        } else {
            Seq::empty()
        }
    }

    /// An edge leads from `u` to `v`.
    pub open spec fn has_edge(&self, u: usize, v: usize) -> bool {
        exists|j: int| 0 <= j < self.bucket(u).len() && (#[trigger] self.bucket(u)[j]).to_spec() == v
    }

    /// Every vertex is kept under its own number, every edge in the bucket of
    /// the vertex that it leaves, and no bucket is empty.
    pub open spec fn tidy(&self) -> bool {
        &&& self.vertex_map().dom().finite()
        &&& self.buckets().dom().finite()
        &&& forall|k: usize| #[trigger]
            self.vertex_map().contains_key(k) ==> self.vertex_map()[k].id_spec() == k
        &&& forall|k: usize| #[trigger]
            self.buckets().contains_key(k) ==> self.buckets()[k].len() > 0
        &&& forall|k: usize, j: int|
            self.buckets().contains_key(k) && 0 <= j < self.buckets()[k].len() ==> (
            #[trigger] self.buckets()[k][j]).from_spec() == k
    }

    /// The graph is tidy and its edge counter is right.
    pub closed spec fn well_formed(&self) -> bool {
        &&& self.tidy()
        &&& self.edges_len == count_edges(self.buckets())
    }

    /// The edges of the graph as a relation between vertices.
    pub open spec fn edge_relation(&self) -> spec_fn(usize, usize) -> bool {
        |u: usize, v: usize| self.has_edge(u, v)
    }

    /// An edge leads from `u` to `v` exactly if the bucket of `u` counts one.
    pub proof fn lemma_has_edge(&self, u: usize, v: usize)
        requires
            self.wf(),
        ensures
            self.has_edge(u, v) <==> self.buckets().contains_key(u) && arriving(self.buckets(), v)(
                u,
            ) > 0,
    {
        let b = self.bucket(u);
        lemma_hits_some(targets(b), b.len() as int, v);
        if self.has_edge(u, v) {
            let j = choose|j: int| 0 <= j < b.len() && (#[trigger] b[j]).to_spec() == v;
            assert(targets(b)[j] == v);
        }
        if self.buckets().contains_key(u) && arriving(self.buckets(), v)(u) > 0 {
            let j = choose|j: int| 0 <= j < b.len() && targets(b)[j] == v;
            assert(b[j].to_spec() == v);
        }
    }

    /// In a graph without dangling edges every edge joins two vertices.
    pub proof fn lemma_edges_within(&self)
        requires
            self.wf(),
            self.no_dangling(),
        ensures
            edges_within(self.edge_relation(), self.vertex_map().dom()),
    {
        assert forall|u: usize, v: usize| #[trigger] (self.edge_relation())(u, v) implies self.vertex_map().dom().contains(
            u,
        ) && self.vertex_map().dom().contains(v) by {
            let b = self.bucket(u);
            let j = choose|j: int| 0 <= j < b.len() && (#[trigger] b[j]).to_spec() == v;
            assert(self.buckets().contains_key(u));
            assert(self.vertex_map().contains_key(self.buckets()[u][j].to_spec()));
        }
    }

    /// The edge is kept in the bucket of the vertex that it leaves.
    pub open spec fn holds(&self, e: E) -> bool {
        self.bucket(e.from_spec()).contains(e)
    }

    /// A consistent graph is tidy: its vertices stand under their own numbers,
    /// its edges in the bucket of the vertex that they leave, and no bucket is
    /// empty.
    pub proof fn lemma_no_empty_bucket(&self)
        requires
            self.wf(),
        ensures
            self.tidy(),
    {
    }

    /// Inserting an edge between two vertices keeps both ends of every edge
    /// among the vertices, the new edge included; an insertion that fails
    /// changes nothing.
    pub proof fn lemma_insert_keeps_ends(&self, after: &Self, e: E)
        requires
            self.no_dangling(),
            after.vertex_map() == self.vertex_map(),
            after.buckets() == (if self.vertex_map().contains_key(e.from_spec())
                && self.vertex_map().contains_key(e.to_spec()) {
                put(self.buckets(), e)
            } else {
                self.buckets()
            }),
        ensures
            after.no_dangling(),
            self.vertex_map().contains_key(e.from_spec()) && self.vertex_map().contains_key(
                e.to_spec(),
            ) ==> after.holds(e),
    {
        let k0 = e.from_spec();
        if self.vertex_map().contains_key(k0) && self.vertex_map().contains_key(e.to_spec()) {
            let grown = put(self.buckets(), e)[k0];
            assert forall|k: usize, j: int|
                after.buckets().contains_key(k) && 0 <= j
                    < after.buckets()[k].len() implies after.vertex_map().contains_key(
                (#[trigger] after.buckets()[k][j]).to_spec(),
            ) by {
                if k == k0 && j < grown.len() - 1 {
                    assert(self.vertex_map().contains_key(self.buckets()[k][j].to_spec()));
                } else if k != k0 {
                    assert(self.vertex_map().contains_key(self.buckets()[k][j].to_spec()));
                }
            }
            assert(after.bucket(k0)[grown.len() - 1] == e);
        }
    }

    /// Both ends of every edge are vertices of the graph.
    pub open spec fn no_dangling(&self) -> bool {
        &&& forall|k: usize| #[trigger]
            self.buckets().contains_key(k) ==> self.vertex_map().contains_key(k)
        &&& forall|k: usize, j: int|
            self.buckets().contains_key(k) && 0 <= j < self.buckets()[k].len()
                ==> self.vertex_map().contains_key((#[trigger] self.buckets()[k][j]).to_spec())
    }

    pub fn new() -> (g: Self)
        ensures
            g.wf(),
            g.no_dangling(),
            g.vertex_map() == Map::<usize, V>::empty(),
            g.buckets() == Map::<usize, Seq<E>>::empty(),
    {
        let g = DirectedGraph { vertices: HashMap::new(), edges: HashMap::new(), edges_len: 0 };
        proof {
            assert(g.buckets() =~= Map::<usize, Seq<E>>::empty());
            lemma_total_empty(bucket_len(g.buckets()));
            assert(g.buckets().dom() =~= Set::empty());
        }
        g
    }

    /// Builds a graph from its vertices and edges. An edge that starts or
    /// ends at none of the vertices makes the whole fail.
    pub fn from(vertices: Vec<V>, edges: Vec<E>) -> (r: Result<Self, ()>)
        ensures
            r is Ok <==> ends_known(vertices_from(vertices@), edges@),
            match r {
                Ok(g) => {
                    &&& g.wf()
                    &&& g.no_dangling()
                    &&& g.vertex_map() == vertices_from(vertices@)
                    &&& g.buckets() == buckets_from(edges@)
                    &&& g.edge_count() == edges@.len()
                },
                Err(_) => true,
            },
    {
        let ghost vs = vertices@;
        let ghost es = edges@;
        assert(es.len() == edges.len());
        let mut g = DirectedGraph::new();
        for v in it: vertices
            invariant
                it.seq() == vs,
                g.wf(),
                g.no_dangling(),
                g.buckets() == Map::<usize, Seq<E>>::empty(),
                g.vertex_map() == vertices_from(vs.take(it.index() as int)),
        {
            assert(vs.take(it.index() + 1).drop_last() =~= vs.take(it.index() as int));
            g.insert_vertex(v);
        }
        assert(vs.take(vs.len() as int) =~= vs);
        proof {
            lemma_total_empty(bucket_len(g.buckets()));
            assert(g.buckets().dom() =~= Set::empty());
        }
        for e in it: edges
            invariant
                it.seq() == es,
                vs == vertices@,
                es == edges@,
                es.len() <= usize::MAX,
                g.wf(),
                g.no_dangling(),
                g.vertex_map() == vertices_from(vs),
                g.buckets() == buckets_from(es.take(it.index() as int)),
                g.edge_count() == it.index(),
                ends_known(vertices_from(vs), es.take(it.index() as int)),
        {
            assert(es.take(it.index() + 1).drop_last() =~= es.take(it.index() as int));
            match g.insert_edge(e) {
                Ok(_) => {},
                Err(_) => {
                    assert(!(g.vertex_map().contains_key(es[it.index() as int].from_spec())
                        && g.vertex_map().contains_key(es[it.index() as int].to_spec())));
                    return Err(());
                },
            }
        }
        assert(es.take(es.len() as int) =~= es);
        Ok(g)
    }
}

impl<V, E> Default for DirectedGraph<V, E> where V: IdVertex, E: IdEdge {
    fn default() -> (g: Self)
        ensures
            g.wf(),
            g.no_dangling(),
            g.vertex_map() == Map::<usize, V>::empty(),
            g.buckets() == Map::<usize, Seq<E>>::empty(),
    {
        DirectedGraph::new()
    }
}

impl<V, E> IdGraph<V, E> for DirectedGraph<V, E> where V: IdVertex, E: IdEdge {
    fn out_edges_id(&self, vertex: usize) -> (r: Vec<&Self::TEdge>)
        ensures
            r@.len() == self.bucket(vertex).len(),
            forall|j: int| 0 <= j < r@.len() ==> *r@[j] == self.bucket(vertex)[j],
    {
        let mut out: Vec<&E> = Vec::new();
        match self.edges.get(&vertex) {
            Some(te) => {
                let mut j: usize = 0;
                while j < te.len()
                    invariant
                        j <= te.len(),
                        out@.len() == j,
                        forall|i: int| 0 <= i < j ==> *out@[i] == te@[i],
                    decreases te.len() - j,
                {
                    out.push(&te[j]);
                    j += 1;
                }
                proof {
                    lemma_total_bounds(
                        self.buckets().dom(),
                        bucket_len(self.buckets()),
                        vertex,
                    );
                }
            },
            None => {},
        }
        out
    }

    fn remove_vertex_id(&mut self, vertex: usize) -> (r: Option<Self::TVertex>)
        ensures
            final(self).buckets() == old(self).buckets(),
            final(self).vertex_map() == old(self).vertex_map().remove(vertex),
            r == (if old(self).vertex_map().contains_key(vertex) {
                Some(old(self).vertex_map()[vertex])
            } else {
                None
            }),
    {
        let r = self.vertices.remove(&vertex);
        proof {
            assert(self.buckets() =~= old(self).buckets());
        }
        r
    }
}

impl<V, E> Graph for DirectedGraph<V, E> where V: IdVertex, E: IdEdge {
    type TVertex = V;

    type TEdge = E;

    open spec fn wf(&self) -> bool {
        self.well_formed()
    }

    open spec fn vertex_count(&self) -> nat {
        self.vertex_map().len()
    }

    open spec fn edge_count(&self) -> nat {
        count_edges(self.buckets())
    }

    fn len_vertex(&self) -> (n: usize) {
        self.vertices.len()
    }

    fn len_edge(&self) -> (n: usize) {
        self.edges_len
    }

    fn vertices(&self) -> (r: Vec<&Self::TVertex>)
        ensures
            forall|j: int|
                0 <= j < r@.len() ==> self.vertex_map().contains_key((#[trigger] r@[j]).id_spec())
                    && self.vertex_map()[r@[j].id_spec()] == *r@[j],
            forall|i: int, j: int|
                0 <= i < j < r@.len() ==> (#[trigger] r@[i]).id_spec() != (#[trigger] r@[j]).id_spec(),
            forall|k: usize|
                self.vertex_map().contains_key(k) ==> exists|j: int|
                    0 <= j < r@.len() && (#[trigger] r@[j]).id_spec() == k,
    {
        let mut out: Vec<&V> = Vec::new();
        for kv in it: self.vertices.iter()
            invariant
                self.well_formed(),
                out@.len() == it.index(),
                forall|j: int| 0 <= j < out@.len() ==> *out@[j] == *it.seq()[j].1,
        {
            out.push(kv.1);
        }
        proof {
            let all = self.vertices.iter().remaining();
            assert forall|i: int, j: int| 0 <= i < j < out@.len() implies (#[trigger] out@[i]).id_spec()
                != (#[trigger] out@[j]).id_spec() by {
                assert(self.vertices@.contains_key(*all[i].0));
                assert(self.vertices@.contains_key(*all[j].0));
                if *all[i].0 == *all[j].0 {
                    assert(all[i] == all[j]);
                }
            }
            assert forall|j: int| 0 <= j < out@.len() implies self.vertex_map().contains_key(
                (#[trigger] out@[j]).id_spec(),
            ) && self.vertex_map()[out@[j].id_spec()] == *out@[j] by {
                assert(self.vertices@.contains_key(*all[j].0));
            }
            assert forall|k: usize| self.vertex_map().contains_key(k) implies exists|j: int|
                0 <= j < out@.len() && (#[trigger] out@[j]).id_spec() == k by {
                assert(all.contains((&k, &self.vertices@[k])));
                let j = choose|j: int| 0 <= j < all.len() && all[j] == (&k, &self.vertices@[k]);
                assert(out@[j].id_spec() == k);
            }
        }
        out
    }

    fn edges(&self) -> (r: Vec<&Self::TEdge>)
        ensures
            exists|keys: Seq<usize>|
                {
                    &&& keys.no_duplicates()
                    &&& keys.to_set() == self.buckets().dom()
                    &&& #[trigger] same_items(r@, concat(self.buckets(), keys))
                },
            forall|i: int| 0 <= i < r@.len() ==> self.holds(*#[trigger] r@[i]),
            self.no_dangling() ==> forall|i: int|
                0 <= i < r@.len() ==> self.vertex_map().contains_key(
                    (#[trigger] r@[i]).from_spec(),
                ) && self.vertex_map().contains_key(r@[i].to_spec()),
    {
        let mut out: Vec<&E> = Vec::new();
        let ghost mut keys: Seq<usize> = Seq::empty();
        for kv in it: self.edges.iter()
            invariant
                self.well_formed(),
                keys.len() == it.index(),
                forall|i: int| 0 <= i < keys.len() ==> keys[i] == *it.seq()[i].0,
                same_items(out@, concat(self.buckets(), keys)),
                forall|i: int| 0 <= i < out@.len() ==> self.holds(*#[trigger] out@[i]),
        {
            let te = kv.1;
            let ghost k = *kv.0;
            let ghost base = out@;
            assert(self.edges@.contains_key(k));
            assert(self.edges@[k] == *te);
            let mut j: usize = 0;
            while j < te.len()
                invariant
                    j <= te.len(),
                    self.buckets().contains_key(k),
                    te@ == self.buckets()[k],
                    out@.len() == base.len() + j,
                    forall|i: int| 0 <= i < base.len() ==> out@[i] == base[i],
                    forall|i: int| 0 <= i < j ==> *out@[base.len() + i] == te@[i],
                decreases te.len() - j,
            {
                out.push(&te[j]);
                j += 1;
            }
            proof {
                let more = keys.push(k);
                assert(more.drop_last() =~= keys);
                assert forall|i: int| 0 <= i < out@.len() implies self.holds(
                    *#[trigger] out@[i],
                ) by {
                    if i < base.len() {
                        assert(out@[i] == base[i]);
                        assert(self.holds(*base[i]));
                    } else {
                        assert(*out@[base.len() + (i - base.len())] == te@[i - base.len()]);
                        assert(te@[i - base.len()].from_spec() == k);
                    }
                }
                assert(same_items(out@, concat(self.buckets(), more))) by {
                    assert forall|i: int| 0 <= i < out@.len() implies *(#[trigger] out@[i])
                        == concat(self.buckets(), more)[i] by {
                        if i < base.len() {
                            assert(out@[i] == base[i]);
                        } else {
                            assert(*out@[base.len() + (i - base.len())] == te@[i - base.len()]);
                        }
                    }
                }
                keys = more;
            }
        }
        proof {
            let all = self.edges.iter().remaining();
            assert forall|i: int, j: int| 0 <= i < j < keys.len() implies keys[i] != keys[j] by {
                assert(self.edges@.contains_key(*all[i].0));
                assert(self.edges@.contains_key(*all[j].0));
                if keys[i] == keys[j] {
                    assert(all[i] == all[j]);
                }
            }
            assert(keys.to_set() =~= self.buckets().dom()) by {
                assert forall|k: usize| keys.to_set().contains(k) implies self.buckets().dom().contains(
                    k,
                ) by {
                    let i = choose|i: int| 0 <= i < keys.len() && keys[i] == k;
                    assert(self.edges@.contains_key(*all[i].0));
                }
                assert forall|k: usize| self.buckets().dom().contains(k) implies keys.to_set().contains(
                    k,
                ) by {
                    assert(self.edges@.contains_key(k));
                    assert(all.contains((&k, &self.edges@[k])));
                    let i = choose|i: int| 0 <= i < all.len() && all[i] == (&k, &self.edges@[k]);
                    assert(keys[i] == k);
                }
            }
            lemma_concat_len(self.buckets(), keys);
            if self.no_dangling() {
                assert forall|i: int| 0 <= i < out@.len() implies self.vertex_map().contains_key(
                    (#[trigger] out@[i]).from_spec(),
                ) && self.vertex_map().contains_key(out@[i].to_spec()) by {
                    assert(self.holds(*out@[i]));
                    let e = *out@[i];
                    let b = self.bucket(e.from_spec());
                    let j = choose|j: int| 0 <= j < b.len() && b[j] == e;
                    assert(self.vertex_map().contains_key(
                        self.buckets()[e.from_spec()][j].to_spec(),
                    ));
                }
            }
        }
        out
    }

    fn out_edges(&self, vertex: &Self::TVertex) -> (r: Vec<&Self::TEdge>)
        ensures
            r@.len() == self.bucket(vertex.id_spec()).len(),
            forall|j: int| 0 <= j < r@.len() ==> *r@[j] == self.bucket(vertex.id_spec())[j],
    {
        self.out_edges_id(vertex.id())
    }

    fn insert_edge(&mut self, edge: Self::TEdge) -> (r: Result<(), ()>)
        ensures
            r is Ok <==> old(self).vertex_map().contains_key(edge.from_spec()) && old(
                self,
            ).vertex_map().contains_key(edge.to_spec()),
            final(self).vertex_map() == old(self).vertex_map(),
            r is Ok ==> final(self).buckets() == put(old(self).buckets(), edge),
            r is Err ==> final(self).buckets() == old(self).buckets(),
            old(self).no_dangling() ==> final(self).no_dangling(),
    {
        let (from, to) = (edge.from(), edge.to());
        if self.vertices.contains_key(&from) && self.vertices.contains_key(&to) {
            let ghost before = self.buckets();
            let ghost grown = old(self).bucket(from).push(edge);
            let te = self.edges.entry(from).or_insert(Vec::new());
            te.push(edge);
            self.edges_len += 1;
            proof {
                assert(self.buckets() =~= before.insert(from, grown));
                lemma_count_put(before, from, grown);
                assert forall|k: usize, j: int|
                    self.buckets().contains_key(k) && 0 <= j < self.buckets()[k].len() implies (
                #[trigger] self.buckets()[k][j]).from_spec() == k by {
                    if k == from && j < grown.len() - 1 {
                        assert(before[k][j].from_spec() == k);
                    } else if k != from {
                        assert(before[k][j].from_spec() == k);
                    }
                }
                if old(self).no_dangling() {
                    assert forall|k: usize, j: int|
                        self.buckets().contains_key(k) && 0 <= j
                            < self.buckets()[k].len() implies self.vertex_map().contains_key(
                    (#[trigger] self.buckets()[k][j]).to_spec(),
                ) by {
                        if k == from && j < grown.len() - 1 {
                            assert(old(self).vertex_map().contains_key(before[k][j].to_spec()));
                        } else if k != from {
                            assert(old(self).vertex_map().contains_key(before[k][j].to_spec()));
                        }
                    }
                }
            }
            Ok(())
        } else {
            proof {
                assert(self.buckets() =~= old(self).buckets());
            }
            Err(())
        }
    }

    fn insert_vertex(&mut self, vertex: Self::TVertex) -> (r: Option<Self::TVertex>)
        ensures
            final(self).buckets() == old(self).buckets(),
            final(self).vertex_map() == old(self).vertex_map().insert(vertex.id_spec(), vertex),
            r == (if old(self).vertex_map().contains_key(vertex.id_spec()) {
                Some(old(self).vertex_map()[vertex.id_spec()])
            } else {
                None
            }),
            old(self).no_dangling() ==> final(self).no_dangling(),
    {
        let id = vertex.id();
        let r = self.vertices.insert(id, vertex);
        proof {
            assert(self.buckets() =~= old(self).buckets());
            if old(self).no_dangling() {
                assert forall|k: usize, j: int|
                    self.buckets().contains_key(k) && 0 <= j < self.buckets()[k].len() implies self.vertex_map().contains_key(
                    (#[trigger] self.buckets()[k][j]).to_spec(),
                ) by {
                    assert(old(self).vertex_map().contains_key(
                        old(self).buckets()[k][j].to_spec(),
                    ));
                }
            }
        }
        r
    }

    fn remove_edge(&mut self, edge: &Self::TEdge) -> (r: Option<Self::TEdge>) where
        Self::TEdge: PartialEq,

        ensures
            final(self).vertex_map() == old(self).vertex_map(),
            match r {
                Some(e) => exists|pos: int|
                    {
                        &&& 0 <= pos < old(self).bucket(edge.from_spec()).len()
                        &&& e == old(self).bucket(edge.from_spec())[pos]
                        &&& #[trigger] taken(old(self).buckets(), edge.from_spec(), pos) == final(self).buckets()
                        &&& E::obeys_eq_spec() ==> first_equal(
                            old(self).bucket(edge.from_spec()),
                            *edge,
                            pos,
                        )
                    },
                None => {
                    &&& final(self).buckets() == old(self).buckets()
                    &&& E::obeys_eq_spec() ==> none_equal(
                        old(self).bucket(edge.from_spec()),
                        *edge,
                    )
                },
            },
            old(self).no_dangling() ==> final(self).no_dangling(),
    {
        let from = edge.from();
        let ghost before = self.buckets();
        let ghost bucket = old(self).bucket(from);
        let mut pos: usize = 0;
        match self.edges.get(&from) {
            None => {
                return None;
            },
            Some(te) => {
                while pos < te.len()
                    invariant
                        pos <= te.len(),
                        te@ == bucket,
                        E::obeys_eq_spec() ==> forall|i: int|
                            0 <= i < pos ==> !(#[trigger] bucket[i]).eq_spec(edge),
                    ensures
                        pos <= te.len(),
                        pos < te.len() ==> (E::obeys_eq_spec() ==> first_equal(bucket, *edge, pos as int)),
                        pos == te.len() ==> (E::obeys_eq_spec() ==> none_equal(bucket, *edge)),
                    decreases te.len() - pos,
                {
                    if te[pos] == *edge {
                        break ;
                    }
                    pos += 1;
                }
                if pos == te.len() {
                    return None;
                }
            },
        }
        let mut te = self.edges.remove(&from).unwrap();
        let res = te.swap_remove(pos);
        proof {
            lemma_total_bounds(before.dom(), bucket_len(before), from);
            lemma_count_drop(before, from);
            assert(self.buckets() =~= before.remove(from));
        }
        self.edges_len -= 1;
        let ghost rest = te@;
        if !te.is_empty() {
            self.edges.insert(from, te);
            proof {
                assert(self.buckets() =~= before.remove(from).insert(from, rest));
                assert(before.remove(from).insert(from, rest) =~= before.insert(from, rest));
                lemma_count_put(before.remove(from), from, rest);
            }
        }
        proof {
            assert(self.buckets() == taken(before, from, pos as int));
            assert forall|k: usize, j: int|
                self.buckets().contains_key(k) && 0 <= j < self.buckets()[k].len() implies (
            #[trigger] self.buckets()[k][j]).from_spec() == k by {
                if k == from {
                    if j == pos {
                        assert(before[k][bucket.len() - 1].from_spec() == k);
                    } else {
                        assert(before[k][j].from_spec() == k);
                    }
                } else {
                    assert(before[k][j].from_spec() == k);
                }
            }
            if old(self).no_dangling() {
                assert forall|k: usize, j: int|
                    self.buckets().contains_key(k) && 0 <= j < self.buckets()[k].len() implies self.vertex_map().contains_key(
                    (#[trigger] self.buckets()[k][j]).to_spec(),
                ) by {
                    if k == from {
                        if j == pos {
                            assert(old(self).vertex_map().contains_key(
                                before[k][bucket.len() - 1].to_spec(),
                            ));
                        } else {
                            assert(old(self).vertex_map().contains_key(before[k][j].to_spec()));
                        }
                    } else {
                        assert(old(self).vertex_map().contains_key(before[k][j].to_spec()));
                    }
                }
            }
        }
        Some(res)
    }

    /// Remove vertex
    fn remove_vertex(&mut self, vertex: &Self::TVertex) -> (r: Option<Self::TVertex>) where
        Self::TEdge: PartialEq,

        ensures
            final(self).buckets() == old(self).buckets(),
            final(self).vertex_map() == old(self).vertex_map().remove(vertex.id_spec()),
            r == (if old(self).vertex_map().contains_key(vertex.id_spec()) {
                Some(old(self).vertex_map()[vertex.id_spec()])
            } else {
                None
            }),
    {
        self.remove_vertex_id(vertex.id())
    }
}

/// For every vertex the number of edges that enter it.
fn in_degrees<V, E>(graph: &DirectedGraph<V, E>) -> (din: HashMap<usize, usize>) where
    V: IdVertex,
    E: IdEdge,

    requires
        graph.wf(),
        graph.no_dangling(),
    ensures
        din@.dom() == graph.vertex_map().dom(),
        forall|v: usize|
            graph.vertex_map().contains_key(v) ==> #[trigger] din@[v] == pending(
                graph.buckets(),
                Set::empty(),
                v,
            ),
{
    let mut din: HashMap<usize, usize> = HashMap::new();
    let vs = graph.vertices();
    let ghost ids = Seq::new(vs@.len(), |j: int| vs@[j].id_spec());
    let mut i: usize = 0;
    while i < vs.len()
        invariant
            i <= vs.len(),
            ids.len() == vs@.len(),
            forall|j: int| 0 <= j < ids.len() ==> #[trigger] ids[j] == vs@[j].id_spec(),
            din@.dom() == ids.take(i as int).to_set(),
            forall|k: usize| din@.contains_key(k) ==> #[trigger] din@[k] == 0,
        decreases vs.len() - i,
    {
        let id = vs[i].id();
        din.insert(id, 0);
        proof {
            ids.take(i as int).lemma_push_to_set_commute(id);
            assert(ids.take(i as int).push(id) =~= ids.take(i + 1));
            assert(din@.dom() =~= ids.take(i + 1).to_set());
        }
        i += 1;
    }
    proof {
        assert(ids.take(ids.len() as int) =~= ids);
        assert(ids.no_duplicates()) by {
            assert forall|a: int, b: int| 0 <= a < ids.len() && 0 <= b < ids.len() && a
                != b implies ids[a] != ids[b] by {
                if a < b {
                    assert(vs@[a].id_spec() != vs@[b].id_spec());
                } else {
                    assert(vs@[b].id_spec() != vs@[a].id_spec());
                }
            }
        }
        assert forall|j: int| 0 <= j < ids.len() implies graph.vertex_map().dom().contains(
            #[trigger] ids[j],
        ) by {
            assert(graph.vertex_map().contains_key(vs@[j].id_spec()));
        }
        lemma_order_len(graph.vertex_map().dom(), ids);
    }
    let es = graph.edges();
    let ghost ts = ref_targets(es@);
    let mut n: usize = 0;
    while n < es.len()
        invariant
            n <= es.len(),
            ts == ref_targets(es@),
            din@.dom() == graph.vertex_map().dom(),
            forall|j: int|
                0 <= j < es@.len() ==> graph.vertex_map().contains_key(
                    (#[trigger] es@[j]).to_spec(),
                ),
            forall|v: usize| din@.contains_key(v) ==> #[trigger] din@[v] == hits(ts, n as int, v),
        decreases es.len() - n,
    {
        let t = es[n].to();
        let c = *din.get(&t).unwrap();
        proof {
            lemma_hits_bound(ts, n as int, t);
            assert(ts[n as int] == t);
        }
        din.insert(t, c + 1);
        n += 1;
    }
    proof {
        let bk = graph.buckets();
        let keys = choose|keys: Seq<usize>|
            {
                &&& keys.no_duplicates()
                &&& keys.to_set() == bk.dom()
                &&& #[trigger] same_items(es@, concat(bk, keys))
            };
        let all = concat(bk, keys);
        assert(ts =~= targets(all));
        assert(bk.dom().difference(Set::empty()) =~= bk.dom());
        assert forall|v: usize| graph.vertex_map().contains_key(v) implies #[trigger] din@[v]
            == pending(bk, Set::empty(), v) by {
            lemma_concat_hits(bk, keys, all, v);
        }
    }
    din
}

/// The vertices that no edge enters, each once.
fn sources(din: &HashMap<usize, usize>) -> (q: VecDeque<usize>)
    ensures
        q@.no_duplicates(),
        forall|k: usize| q@.contains(k) <==> din@.contains_key(k) && din@[k] == 0,
{
    let mut q: VecDeque<usize> = VecDeque::new();
    let ghost mut origin: Seq<int> = Seq::empty();
    for kv in it: din.iter()
        invariant
            it.seq().no_duplicates(),
            forall|i: int|
                0 <= i < it.seq().len() ==> din@.contains_key(*(#[trigger] it.seq()[i]).0)
                    && din@[*it.seq()[i].0] == *it.seq()[i].1,
            origin.len() == q@.len(),
            forall|j: int|
                0 <= j < q@.len() ==> 0 <= #[trigger] origin[j] < it.index() && *it.seq()[origin[j]].0
                    == q@[j] && *it.seq()[origin[j]].1 == 0,
            forall|a: int, b: int|
                0 <= a < b < origin.len() ==> (#[trigger] origin[a]) < (#[trigger] origin[b]),
            forall|i: int|
                0 <= i < it.index() && *(#[trigger] it.seq()[i]).1 == 0 ==> exists|j: int|
                    0 <= j < q@.len() && origin[j] == i,
    {
        if *kv.1 == 0 {
            let ghost before = origin;
            q.push_back(*kv.0);
            proof {
                origin = origin.push(it.index() as int);
                assert forall|i: int|
                    0 <= i < it.index() + 1 && *(#[trigger] it.seq()[i]).1 == 0 implies exists|
                    j: int,
                | 0 <= j < q@.len() && origin[j] == i by {
                    if i < it.index() {
                        let j = choose|j: int| 0 <= j < before.len() && before[j] == i;
                        assert(origin[j] == i);
                    } else {
                        assert(origin[origin.len() - 1] == i);
                    }
                }
            }
        }
    }
    proof {
        let s = din.iter().remaining();
        assert forall|a: int, b: int| 0 <= a < q@.len() && 0 <= b < q@.len() && a != b implies q@[a]
            != q@[b] by {
            let (x, y) = (origin[a], origin[b]);
            if a < b {
                assert(origin[a] < origin[b]);
            } else {
                assert(origin[b] < origin[a]);
            }
            if q@[a] == q@[b] {
                assert(din@.contains_key(*s[x].0));
                assert(din@.contains_key(*s[y].0));
                assert(s[x] == s[y]);
            }
        }
        assert forall|k: usize| q@.contains(k) <==> din@.contains_key(k) && din@[k] == 0 by {
            if q@.contains(k) {
                let j = choose|j: int| 0 <= j < q@.len() && q@[j] == k;
                assert(din@.contains_key(*s[origin[j]].0));
            }
            if din@.contains_key(k) && din@[k] == 0 {
                assert(s.contains((&k, &din@[k])));
                let i = choose|i: int| 0 <= i < s.len() && s[i] == (&k, &din@[k]);
                assert(*s[i].1 == 0);
                let j = choose|j: int| 0 <= j < q@.len() && origin[j] == i;
                assert(q@[j] == k);
            }
        }
    }
    q
}

/// The counts of edges still to come agree with what has been ordered.
pub open spec fn counts_pending<V, E>(
    graph: &DirectedGraph<V, E>,
    din: Map<usize, usize>,
    done: Set<usize>,
    seen: int,
    from: usize,
) -> bool where V: IdVertex, E: IdEdge {
    forall|v: usize|
        graph.vertex_map().contains_key(v) ==> #[trigger] din[v] + hits(
            targets(graph.bucket(from)),
            seen,
            v,
        ) == pending(graph.buckets(), done, v)
}

/// The vertices whose count is zero are those ordered or queued.
pub open spec fn zeros_known(
    verts: Set<usize>,
    din: Map<usize, usize>,
    listed: Seq<usize>,
) -> bool {
    forall|v: usize| verts.contains(v) ==> (#[trigger] din[v] == 0 <==> listed.contains(v))
}

/// A vertex that no pending edge enters can be ordered next.
proof fn lemma_sources_first_push<V, E>(graph: &DirectedGraph<V, E>, order: Seq<usize>, u: usize) where
    V: IdVertex,
    E: IdEdge,

    requires
        graph.wf(),
        sources_first(graph.edge_relation(), order),
        pending(graph.buckets(), order.to_set(), u) == 0,
    ensures
        sources_first(graph.edge_relation(), order.push(u)),
{
    let edge = graph.edge_relation();
    let more = order.push(u);
    let bk = graph.buckets();
    assert forall|w: usize, i: int| 0 <= i < more.len() && #[trigger] edge(w, more[i]) implies exists|
        j: int,
    | 0 <= j < i && more[j] == w by {
        if i < order.len() {
            assert(edge(w, order[i]));
            let j = choose|j: int| 0 <= j < i && order[j] == w;
            assert(more[j] == w);
        } else {
            graph.lemma_has_edge(w, u);
            if !order.to_set().contains(w) {
                lemma_total_bounds(bk.dom().difference(order.to_set()), arriving(bk, u), w);
            }
            let j = choose|j: int| 0 <= j < order.len() && order[j] == w;
            assert(more[j] == w);
        }
    }
}

/// When nothing is queued any more, every vertex left out has an edge from
/// another one left out.
proof fn lemma_leftover<V, E>(graph: &DirectedGraph<V, E>, din: Map<usize, usize>, order: Seq<usize>) where
    V: IdVertex,
    E: IdEdge,

    requires
        graph.wf(),
        graph.no_dangling(),
        zeros_known(graph.vertex_map().dom(), din, order),
        forall|v: usize|
            graph.vertex_map().contains_key(v) ==> #[trigger] din[v] == pending(
                graph.buckets(),
                order.to_set(),
                v,
            ),
    ensures
        leftover_fed(graph.edge_relation(), graph.vertex_map().dom(), order),
{
    let edge = graph.edge_relation();
    let verts = graph.vertex_map().dom();
    let bk = graph.buckets();
    assert forall|v: usize| verts.contains(v) && !order.contains(v) implies exists|u: usize|
        verts.contains(u) && !order.contains(u) && #[trigger] edge(u, v) by {
        assert(graph.vertex_map().contains_key(v));
        assert(din[v] == 0 <==> order.contains(v));
        assert(din[v] == pending(bk, order.to_set(), v));
        let k = lemma_feeder(graph, din, order, v);
        assert(edge(k, v) == graph.has_edge(k, v));
        assert(verts.contains(k) && !order.contains(k) && edge(k, v));
    }
}

/// A vertex left out with a count that is not zero has an edge from another
/// vertex left out.
proof fn lemma_feeder<V, E>(
    graph: &DirectedGraph<V, E>,
    din: Map<usize, usize>,
    order: Seq<usize>,
    v: usize,
) -> (k: usize) where V: IdVertex, E: IdEdge
    requires
        graph.wf(),
        graph.no_dangling(),
        din[v] != 0,
        din[v] == pending(graph.buckets(), order.to_set(), v),
    ensures
        graph.vertex_map().contains_key(k),
        !order.contains(k),
        graph.has_edge(k, v),
{
    let bk = graph.buckets();
    let left = bk.dom().difference(order.to_set());
    assert(left.finite());
    let k = lemma_total_positive(left, arriving(bk, v));
    graph.lemma_has_edge(k, v);
    assert(bk.contains_key(k));
    k
}

/// Orders the vertices so that every edge leads forward. Vertices on a cycle,
/// and those that can be reached from one, are left out.
pub fn topo_sort<V, E>(graph: &DirectedGraph<V, E>) -> (res: Vec<usize>) where
    V: IdVertex,
    E: IdEdge,

    requires
        graph.wf(),
        graph.no_dangling(),
    ensures
        is_topological(graph.edge_relation(), graph.vertex_map().dom(), res@),
        has_cycle(graph.edge_relation()) ==> res@.len() < graph.vertex_count(),
        !has_cycle(graph.edge_relation()) ==> res@.len() == graph.vertex_count() && res@.to_set()
            == graph.vertex_map().dom(),
{
    let mut din = in_degrees(graph);
    let mut q = sources(&din);
    let mut res: Vec<usize> = Vec::with_capacity(graph.len_vertex());
    let ghost bk = graph.buckets();
    let ghost verts = graph.vertex_map().dom();
    let ghost edge = graph.edge_relation();
    proof {
        assert(res@ + q@ =~= q@);
        assert(res@.to_set() =~= Set::empty());
        assert forall|i: int| 0 <= i < q@.len() implies verts.contains(#[trigger] q@[i]) by {
            assert(q@.contains(q@[i]));
        }
        assert forall|v: usize| verts.contains(v) implies (#[trigger] din@[v] == 0 <==> q@.contains(
            v,
        )) by {}
    }
    while q.len() > 0
        invariant
            graph.wf(),
            graph.no_dangling(),
            bk == graph.buckets(),
            verts == graph.vertex_map().dom(),
            edge == graph.edge_relation(),
            din@.dom() == verts,
            (res@ + q@).no_duplicates(),
            forall|i: int| 0 <= i < (res@ + q@).len() ==> verts.contains(#[trigger] (res@ + q@)[i]),
            forall|v: usize|
                verts.contains(v) ==> #[trigger] din@[v] == pending(bk, res@.to_set(), v),
            zeros_known(verts, din@, res@ + q@),
            sources_first(edge, res@),
        decreases verts.len() - res@.len(),
    {
        let ghost listed = res@ + q@;
        let ghost front = res@;
        let ghost done = res@.to_set();
        let u = q.pop_front().unwrap();
        res.push(u);
        proof {
            assert(res@ + q@ =~= listed);
            assert(listed[front.len() as int] == u);
            assert(listed.contains(u));
            assert(verts.contains(listed[front.len() as int]));
            assert(din@[u] == 0);
            lemma_order_len(verts, listed);
            lemma_sources_first_push(graph, front, u);
            if done.contains(u) {
                let i = choose|i: int| 0 <= i < front.len() && front[i] == u;
                assert(listed[i] == listed[front.len() as int]);
            }
            front.lemma_push_to_set_commute(u);
        }
        let outs = graph.out_edges_id(u);
        let mut j: usize = 0;
        while j < outs.len()
            invariant
                j <= outs.len(),
                graph.wf(),
                graph.no_dangling(),
                bk == graph.buckets(),
                verts == graph.vertex_map().dom(),
                outs@.len() == graph.bucket(u).len(),
                forall|i: int| 0 <= i < outs@.len() ==> *outs@[i] == graph.bucket(u)[i],
                !done.contains(u),
                din@.dom() == verts,
                (res@ + q@).no_duplicates(),
                forall|i: int|
                    0 <= i < (res@ + q@).len() ==> verts.contains(#[trigger] (res@ + q@)[i]),
                counts_pending(graph, din@, done, j as int, u),
                zeros_known(verts, din@, res@ + q@),
            decreases outs.len() - j,
        {
            let t = outs[j].to();
            let ghost tg = targets(graph.bucket(u));
            proof {
                assert(tg[j as int] == t);
                assert(bk.contains_key(u));
                assert(verts.contains(bk[u][j as int].to_spec()));
                lemma_pending_step(bk, done, u, t);
                lemma_hits_mono(tg, j + 1, tg.len() as int, t);
            }
            let c = *din.get(&t).unwrap();
            if c > 0 {
                let ghost listed = res@ + q@;
                din.insert(t, c - 1);
                if c - 1 == 0 {
                    q.push_back(t);
                    proof {
                        assert(res@ + q@ =~= listed.push(t));
                        assert(!listed.contains(t));
                        assert forall|v: usize| verts.contains(v) implies (#[trigger] din@[v] == 0
                            <==> (res@ + q@).contains(v)) by {
                            if v == t {
                                assert((res@ + q@)[listed.len() as int] == t);
                            } else if listed.contains(v) {
                                let i = choose|i: int| 0 <= i < listed.len() && listed[i] == v;
                                assert((res@ + q@)[i] == v);
                            } else if (res@ + q@).contains(v) {
                                let i = choose|i: int|
                                    0 <= i < (res@ + q@).len() && (res@ + q@)[i] == v;
                                assert(listed[i] == v);
                            }
                        }
                    }
                }
            }
            j += 1;
        }
        proof {
            assert forall|v: usize| verts.contains(v) implies #[trigger] din@[v] == pending(
                bk,
                res@.to_set(),
                v,
            ) by {
                lemma_pending_step(bk, done, u, v);
                assert(din@[v] + hits(targets(graph.bucket(u)), j as int, v) == pending(
                    bk,
                    done,
                    v,
                ));
            }
        }
    }
    proof {
        assert(res@ + q@ =~= res@);
        lemma_leftover(graph, din@, res@);
        graph.lemma_edges_within();
        if has_cycle(edge) {
            lemma_cycle_shortens(edge, verts, res@);
        } else {
            lemma_acyclic_complete(edge, verts, res@);
        }
    }
    res
}

} // verus!
