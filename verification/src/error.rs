//! The errors of the index.

use vstd::prelude::*;

verus! {

/// Everything that can go wrong in the index.
#[derive(Debug)]
pub enum Error {
    /// A key to delete is not in the tree. Searching reports an absent key
    /// with `None` instead.
    KeyNotFound(String),
    /// An integrity or range violation.
    UnexpectedError(String),
    /// The configuration names no root page.
    InvalidRootOffset,
    /// An internal node has no child at the index its keys select.
    InternalNodeNoChild,
    /// A node holds an entry so large that no cut splits it.
    ImpossibleSplit,
    /// The kind byte of a node is neither internal nor leaf.
    InvalidNodeKind,
    /// A page does not hold a node.
    NodeParseError,
    /// A stored key is empty or is not UTF-8.
    KeyParseError,
    /// A key is longer than 255 bytes.
    KeyOverflowError,
    /// The storage below the pager failed; the text says how.
    FileSystemError(String),
}

} // verus!
