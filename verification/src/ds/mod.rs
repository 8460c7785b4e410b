//! Data structures

pub mod linkage;

pub mod sums;

pub mod disjoint_set;
pub use disjoint_set::DisjointSet;

pub mod monotonic_queue;
pub use monotonic_queue::MonotonicQueue;

pub mod prefix_sum;
pub use prefix_sum::PrefixSum1D;

pub mod fenwick_tree;
pub use fenwick_tree::FenwickTree;

pub mod sparse_table;
pub use sparse_table::SparseTable;
