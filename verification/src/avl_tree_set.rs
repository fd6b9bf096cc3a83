//! A self-balancing binary search tree and the ordered set built on it.

pub mod set;
pub mod tree;
