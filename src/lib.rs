//! A B-tree of `u64` keys with insertion, membership search and deletion,
//! verified to keep every node within its occupancy bounds, keys ordered and
//! all leaves at one depth.

pub mod node;
pub mod props;
pub mod shape;
pub mod tree;

pub use tree::BTree;
