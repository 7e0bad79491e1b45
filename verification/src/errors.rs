//! What can go wrong in a block directory.

use vstd::prelude::*;

verus! {

/// An error of the block directory or of storing a file into it.
#[derive(Clone, Debug, PartialEq, Eq)]
pub enum StoreError {
    /// The directory for the blocks could not be created.
    CreateBlockDir,
    /// A block could not be written or published.
    StoreBlock { block_hash: String },
    /// A block file could not be opened or read.
    ReadBlock { path: String },
    /// The content of a block does not have the hash that its name gives.
    BlockCorrupt { path: String, actual_hash: String },
    /// The blocks could not be listed.
    ListBlocks { path: String },
    /// A block file does not hold compressed data.
    Decompress { path: String },
    /// The source of a file being stored could not be read.
    StoreFile { apath: String },
    /// Only part of a block was asked for.
    UnsupportedPartialRead,
}

/// A `StoreError` as plain values.
pub enum StoreErrorView {
    CreateBlockDir,
    StoreBlock { block_hash: Seq<char> },
    ReadBlock { path: Seq<char> },
    BlockCorrupt { path: Seq<char>, actual_hash: Seq<char> },
    ListBlocks { path: Seq<char> },
    Decompress { path: Seq<char> },
    StoreFile { apath: Seq<char> },
    UnsupportedPartialRead,
}

impl View for StoreError {
    type V = StoreErrorView;

    open spec fn view(&self) -> StoreErrorView {
        match self {
            StoreError::CreateBlockDir => StoreErrorView::CreateBlockDir,
            StoreError::StoreBlock { block_hash } => StoreErrorView::StoreBlock { block_hash: block_hash@ },
            StoreError::ReadBlock { path } => StoreErrorView::ReadBlock { path: path@ },
            StoreError::BlockCorrupt { path, actual_hash } => StoreErrorView::BlockCorrupt {
                path: path@,
                actual_hash: actual_hash@,
            },
            StoreError::ListBlocks { path } => StoreErrorView::ListBlocks { path: path@ },
            StoreError::Decompress { path } => StoreErrorView::Decompress { path: path@ },
            StoreError::StoreFile { apath } => StoreErrorView::StoreFile { apath: apath@ },
            StoreError::UnsupportedPartialRead => StoreErrorView::UnsupportedPartialRead,
        }
    }
}

} // verus!
