//! Graphs over vertices and edges that are known by small integers.

use std::collections::HashSet;
use vstd::prelude::*;
use vstd::std_specs::iter::IteratorSpec;

pub mod structs;

pub mod spanning;

pub mod tally;

pub mod ordering;

pub mod degree;

pub mod mst;
pub use mst::{minimum_spanning_tree, minimum_spanning_tree_in};

pub mod directed_graph;
pub use directed_graph::DirectedGraph;

verus! {

broadcast use vstd::std_specs::hash::group_hash_axioms;

/// Anything can be a vertex.
pub trait Vertex {

}

impl<T> Vertex for T {

}

/// Anything can be an edge.
pub trait Edge {

}

impl<T> Edge for T {

}

/// A vertex that is known by a number.
pub trait IdVertex: Vertex {
    /// The number that the vertex is known by.
    spec fn id_spec(&self) -> usize;

    fn id(&self) -> (r: usize)
        ensures
            r == self.id_spec(),
    ;
}

/// An edge that names the vertices at its two ends.
pub trait IdEdge: Edge {
    /// The vertex that the edge leaves.
    spec fn from_spec(&self) -> usize;

    /// The vertex that the edge enters.
    spec fn to_spec(&self) -> usize;

    fn from(&self) -> (r: usize)
        ensures
            r == self.from_spec(),
    ;

    fn to(&self) -> (r: usize)
        ensures
            r == self.to_spec(),
    ;
}

/// An edge with a length.
pub trait LengthEdge: Edge {
    /// The length of the edge.
    spec fn length_spec(&self) -> isize;

    fn length(&self) -> (r: isize)
        ensures
            r == self.length_spec(),
    ;
}

/// A collection of vertices and of edges between them.
pub trait Graph {
    type TVertex: Vertex;

    type TEdge: Edge;

    /// The graph is consistent.
    spec fn wf(&self) -> bool;

    /// The number of vertices.
    spec fn vertex_count(&self) -> nat;

    /// The number of edges.
    spec fn edge_count(&self) -> nat;

    /// Gets the number of vertices
    fn len_vertex(&self) -> (n: usize)
        requires
            self.wf(),
        ensures
            n == self.vertex_count(),
    ;

    /// Gets the number of edges
    fn len_edge(&self) -> (n: usize)
        requires
            self.wf(),
        ensures
            n == self.edge_count(),
    ;

    /// Gets vertices
    fn vertices(&self) -> (r: Vec<&Self::TVertex>)
        requires
            self.wf(),
        ensures
            r@.len() == self.vertex_count(),
    ;

    /// Gets edges
    fn edges(&self) -> (r: Vec<&Self::TEdge>)
        requires
            self.wf(),
        ensures
            r@.len() == self.edge_count(),
    ;

    /// Gets out edges from `vertex`.
    fn out_edges(&self, vertex: &Self::TVertex) -> (r: Vec<&Self::TEdge>)
        requires
            self.wf(),
        ensures
            r@.len() <= self.edge_count(),
    ;

    /// Inserts an edge into the graph.
    fn insert_edge(&mut self, edge: Self::TEdge) -> (r: Result<(), ()>)
        requires
            old(self).wf(),
            old(self).edge_count() < usize::MAX,
        ensures
            final(self).wf(),
            final(self).vertex_count() == old(self).vertex_count(),
            final(self).edge_count() == old(self).edge_count() + (if r is Ok {
                1nat
            } else {
                0nat
            }),
    ;

    /// Insert vertex
    /// If the graph did not have this vertex present, None is returned.
    /// If the graph did have this vertex present, the value is updated, and the old value is returned.
    fn insert_vertex(&mut self, vertex: Self::TVertex) -> (r: Option<Self::TVertex>)
        requires
            old(self).wf(),
        ensures
            final(self).wf(),
            final(self).edge_count() == old(self).edge_count(),
            final(self).vertex_count() == old(self).vertex_count() + (if r is None {
                1nat
            } else {
                0nat
            }),
    ;

    /// Remove edge
    fn remove_edge(&mut self, edge: &Self::TEdge) -> (r: Option<Self::TEdge>) where
        Self::TEdge: PartialEq,

        requires
            old(self).wf(),
        ensures
            final(self).wf(),
            final(self).vertex_count() == old(self).vertex_count(),
            final(self).edge_count() == old(self).edge_count() - (if r is Some {
                1nat
            } else {
                0nat
            }),
    ;

    /// Remove vertex
    fn remove_vertex(&mut self, vertex: &Self::TVertex) -> (r: Option<Self::TVertex>) where
        Self::TEdge: PartialEq,

        requires
            old(self).wf(),
        ensures
            final(self).wf(),
            final(self).edge_count() == old(self).edge_count(),
            final(self).vertex_count() == old(self).vertex_count() - (if r is Some {
                1nat
            } else {
                0nat
            }),
    ;
}

/// A graph whose vertices are known by their numbers.
pub trait IdGraph<V, E>: Graph<TVertex = V, TEdge = E> where V: IdVertex, E: IdEdge {
    fn out_edges_id(&self, vertex: usize) -> (r: Vec<&Self::TEdge>)
        requires
            self.wf(),
        ensures
            r@.len() <= self.edge_count(),
    ;

    fn remove_vertex_id(&mut self, vertex: usize) -> (r: Option<Self::TVertex>)
        requires
            old(self).wf(),
        ensures
            final(self).wf(),
            final(self).edge_count() == old(self).edge_count(),
            final(self).vertex_count() == old(self).vertex_count() - (if r is Some {
                1nat
            } else {
                0nat
            }),
    ;
}

/// Some edge starts or ends at `v`.
pub open spec fn touches<T: IdEdge>(edges: Seq<T>, v: usize) -> bool {
    exists|j: int|
        0 <= j < edges.len() && ((#[trigger] edges[j]).from_spec() == v || edges[j].to_spec() == v)
}

/// The vertices that the edges touch, each once, in no particular order.
pub fn get_vertices<T: IdEdge>(edges: &[T]) -> (r: Vec<usize>)
    ensures
        r@.no_duplicates(),
        forall|v: usize| r@.contains(v) <==> touches(edges@, v),
{
    let mut set: HashSet<usize> = HashSet::new();
    let mut i: usize = 0;
    while i < edges.len()
        invariant
            i <= edges.len(),
            forall|v: usize| set@.contains(v) <==> touches(edges@.take(i as int), v),
        decreases edges.len() - i,
    {
        let ghost before = set@;
        let (a, b) = (edges[i].from(), edges[i].to());
        set.insert(a);
        set.insert(b);
        proof {
            let head = edges@.take(i as int);
            let more = edges@.take(i + 1);
            assert forall|v: usize| set@.contains(v) <==> touches(more, v) by {
                if touches(more, v) {
                    let j = choose|j: int|
                        0 <= j < more.len() && ((#[trigger] more[j]).from_spec() == v
                            || more[j].to_spec() == v);
                    if j < i {
                        assert(head[j].from_spec() == v || head[j].to_spec() == v);
                        assert(touches(head, v));
                    }
                }
                if set@.contains(v) {
                    if before.contains(v) {
                        let j = choose|j: int|
                            0 <= j < head.len() && ((#[trigger] head[j]).from_spec() == v
                                || head[j].to_spec() == v);
                        assert(more[j].from_spec() == v || more[j].to_spec() == v);
                    } else {
                        assert(more[i as int].from_spec() == v || more[i as int].to_spec() == v);
                    }
                }
            }
        }
        i += 1;
    }
    assert(edges@.take(edges@.len() as int) =~= edges@);
    let mut out: Vec<usize> = Vec::new();
    for x in it: set.iter()
        invariant
            out@.len() == it.index(),
            forall|j: int| 0 <= j < out@.len() ==> out@[j] == *it.seq()[j],
    {
        out.push(*x);
    }
    proof {
        assert(out@ =~= set.iter().remaining().unref());
        assert(out@.to_set() == set@);
        assert forall|v: usize| out@.contains(v) <==> touches(edges@, v) by {
            assert(out@.contains(v) <==> out@.to_set().contains(v));
        }
    }
    out
}

} // verus!
