//! Small algorithm library: searching and counting on slices, a union-find
//! structure and other range structures, a directed graph with topological
//! ordering and minimum spanning tree, and number theory.

pub mod base;
pub mod ds;
pub mod graph;
pub mod math;
