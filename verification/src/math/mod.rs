//! Mathematics

pub mod number_theory;
