//! Collections with machine-checked contracts: a chained hash map that grows by
//! doubling, a hash set built on it, a singly linked list, and two backtracking
//! enumerations.

pub mod algorithm;
pub mod hash_map;
pub mod hash_set;
pub mod key;
pub mod laws;
pub mod layout;
pub mod link_list;
pub mod set_order;
pub mod text;
