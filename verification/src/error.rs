use vstd::prelude::*;

verus! {

/// Identifier of a document: its position in the order of writing, from 0.
pub type DocId = u32;

/// Why a store could not be opened or a document could not be read.
#[derive(Clone, Copy, Debug, PartialEq, Eq, Structural)]
pub enum StoreError {
    /// The file is too short to hold a footer, or the footer points past the
    /// end of the file.
    Layout,
    /// No block covers the document id that was asked for.
    Lookup(DocId),
    /// A byte range that the skip index names lies outside the data segment.
    Io,
    /// The codec rejected a block, a record runs past the end of its block,
    /// or the skip index does not describe a sequence of blocks.
    Corruption,
}

} // verus!
