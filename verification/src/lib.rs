//! An ordered key-value container over 32-bit integer keys and values, kept
//! as an unbalanced binary search tree.
//!
//! [`node::Node`] is one vertex together with the subtree below it;
//! [`bst::BST`] owns the optional root and is the container itself. Every
//! operation carries a contract over the tree it is given and the tree it
//! leaves behind, and over the map from keys to values that the tree stands
//! for. [`walk`] states the search-tree invariant through the in-order walk
//! of a tree.

pub mod bst;
pub mod errors;
pub mod node;
pub mod walk;
