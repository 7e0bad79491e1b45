//! Content-addressed block storage for a deduplicating backup archive.
//!
//! The content of files is cut into blocks of a fixed size. Each block is
//! named by the hash of its bytes and stored compressed in a block directory,
//! so that the same bytes are stored once however often they occur.
//!
//! - `blockdir` holds the block directory: where the file of a block lies,
//!   storing and reading a block, listing the blocks, and checking them.
//! - `store_files` cuts the content of a file into blocks and stores them.
//! - `transport` is what a block directory lives on: a tree of files and
//!   directories that is read and written whole files at a time. A transport
//!   in memory is at hand; one on a filesystem is for the program to supply.
//! - `hash` and `compress` name and pack the blocks.
//! - `report` counts what happens.
//!
//! The contracts of the block directory say in full what each operation
//! returns and does to the tree of a faultless transport: one that nothing
//! else changes and that fails only where the tree says so. Of any other
//! transport they say which errors can come.

pub mod blockdir;
pub mod compress;
pub mod copy_tree;
pub mod errors;
pub mod hash;
pub mod kind;
pub mod output;
pub mod paths;
pub mod report;
pub mod stats;
pub mod store_files;
pub mod text;
pub mod transport;

pub use crate::blockdir::{Address, BlockDir, BlockHash, ValidateBlockDirStats, MAX_BLOCK_SIZE};
pub use crate::copy_tree::CopyOptions;
pub use crate::errors::StoreError;
pub use crate::kind::Kind;
pub use crate::report::Report;
pub use crate::stats::Sizes;
pub use crate::store_files::StoreFiles;
