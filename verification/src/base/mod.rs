//! Basic algorithms

pub mod order;

pub mod bits;

pub mod pairs;

pub mod inversion;
pub use inversion::inversion_pairs_count;

pub mod search;
pub use search::{dichotomy, discretization, equal_range, lower_bound, upper_bound};

pub mod subset_generator;
pub use subset_generator::SubsetGenerator;
