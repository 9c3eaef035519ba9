//! Typed error conditions of the tree core.

use vstd::prelude::*;

verus! {

/// Every recoverable failure the tree core can report.
#[derive(Clone, Copy, Debug, PartialEq, Eq, Structural)]
pub enum MerkleError {
    /// A key lies outside the range a tree was built over.
    OutOfRange,
    /// A comparison range has no structurally matching node in a tree.
    RangeNotFound,
    /// The top-level ranges of two trees cannot be compared.
    IncompatibleTrees,
    /// An operation needed a built root, but `build` was never called.
    UnbuiltTree,
}

} // verus!
