//! Ordered and hashed sets, comparison sorts and byte-to-text codecs, with
//! machine-checked contracts.

pub mod avl_tree_set;
pub mod base58;
pub mod base64;
pub mod binary_tree;
pub mod binary_tree_set;
pub mod hash_set;
pub mod order;
pub mod ordered_set;
pub mod set_laws;
pub mod sorted_seq;
pub mod sorting;
pub mod text;
