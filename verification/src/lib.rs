//! A sequence container indexed by rank, backed by a self-adjusting binary tree.
//!
//! [`TreeArray`] maps zero-based positions to values like an array does, and
//! inserts at any position by splaying the tree around that position.

pub mod text;
pub mod tree_array;

pub use self::tree_array::TreeArray;
