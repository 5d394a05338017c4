//! The ways in which an operation on the tree can fail.

use vstd::prelude::*;

verus! {

/// Why an operation on a tree or on a node was refused.
///
/// A refused operation never changes the tree it was called on.
#[derive(Debug, Clone, Copy, PartialEq, Eq, Structural)]
pub enum Errors {
    /// The container holds no entry at all.
    EmptyTree,
    /// The key to insert is already bound; the existing entry stays.
    DuplicateKey,
    /// The key to look up or remove is not bound.
    KeyNotFound,
    /// A node was asked to remove its own key, which only its owner can do.
    WrongLevel,
}

} // verus!
