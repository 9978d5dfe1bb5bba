//! The failures that the store reports.

use crate::codec::error::CodecError;
use crate::file::IoError;
use crate::page::PageError;
use vstd::prelude::*;

verus! {

/// Failures of a collection or of its cursor.
#[derive(Clone, Copy, Debug, PartialEq, Eq, Structural)]
pub enum CursorError {
    /// A document can only be put where a document was removed.
    CursorNotOnTombstone,
    /// The document does not fit the gap that the removed document left.
    DocumentTooLargeForGap,
    /// There is no document at the cursor.
    EndOfStream,
}

/// Failures of a B+ tree.
#[derive(Clone, Copy, Debug, PartialEq, Eq, Structural)]
pub enum BTreeError {
    /// A node does not have the shape that its kind demands.
    CorruptNode,
    /// A node refers to a child that is not there.
    MissingChild,
    /// A key is not of the type that the tree is keyed by.
    KeyTypeMismatch,
}

/// Any failure of the store, by the component that found it.
#[derive(Clone, Copy, Debug, PartialEq, Eq, Structural)]
pub enum Error {
    Codec(CodecError),
    Io(IoError),
    Page(PageError),
    Cursor(CursorError),
    BTree(BTreeError),
}

} // verus!
