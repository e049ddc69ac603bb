//! Enumerations by backtracking.

pub mod all_combination_of_size_k;
pub mod permutations;
