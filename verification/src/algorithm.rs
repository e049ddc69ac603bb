//! Algorithms.

pub mod backtracing;
