//! File contents are stored in data blocks.
//!
//! Data blocks are stored compressed, and identified by the hash of their uncompressed
//! contents.
//!
//! The contents of a file is identified by an Address, which says which block holds the data,
//! and which range of uncompressed bytes.
//!
//! The structure is: archive > blockdir > subdir > file.
//!
//! A block directory lives on a transport. What its operations return is
//! stated in full for a faultless transport, as a function of the tree that
//! the transport holds. For any other transport the contracts say which
//! errors can come, and the functions that take what the transport said
//! (`block_presence`, `subdir_ready`, `publish_outcome`, `unpack_block`)
//! say what is made of each answer.

use vstd::prelude::*;
use vstd::string::StrSliceExecFns;
use vstd::string::StringExecFns;
use crate::compress::{
    encodable_len, max_encoded_len, round_trips, snappy_compress, snappy_decoded,
    snappy_decompress, snappy_encoded,
};
use crate::errors::{StoreError, StoreErrorView};
use crate::hash::{block_hash, is_block_hash, is_hex_char};
use crate::paths::{child_path, is_child, is_name, join_path, lemma_child_path, path_parent, path_tail};
use crate::report::{known_counters, Report};
use crate::stats::Sizes;
use crate::transport::{
    dir_node, file_node, is_file_at, Metadata, TransportError, TransportRead, TransportWrite, Tree,
};

use crate::blockdir::listing::{
    block_name_set, is_well_laid, lemma_stored_block_files, lemma_stored_block_is_named,
};
use crate::blockdir::validate::{is_valid_dir, lemma_stored_keeps_sound};

pub mod listing;
pub mod validate;

verus! {

/// The most bytes that one block holds.
pub const MAX_BLOCK_SIZE: usize = 1048576;

/// Take this many characters from the block hash to form the subdirectory name.
pub const SUBDIR_NAME_CHARS: usize = 3;

/// The unique identifier for a block: its hexadecimal `BLAKE2b` hash.
pub type BlockHash = String;

/// Points to some compressed data inside the block dir.
///
/// Identifiers are: which file contains it, at what (pre-compression) offset,
/// and what (pre-compression) length.
#[derive(Clone, Debug, PartialEq, Eq)]
pub struct Address {
    /// ID of the block storing this info (in future, salted.)
    pub hash: String,
    /// Position in this block where data begins.
    pub start: u64,
    /// Length of this block to be used.
    pub len: u64,
}

/// An `Address` as plain values.
pub struct AddressView {
    pub hash: Seq<char>,
    pub start: u64,
    pub len: u64,
}

impl View for Address {
    type V = AddressView;

    open spec fn view(&self) -> AddressView {
        AddressView { hash: self.hash@, start: self.start, len: self.len }
    }
}

/// What a check of all blocks found.
#[derive(Clone, Copy, Debug, Default, PartialEq, Eq, Structural)]
pub struct ValidateBlockDirStats {
    /// Blocks whose content does not have the hash that their name gives.
    pub block_hash_wrong: u64,
    /// Blocks that could not be read or decompressed.
    pub block_decompression_failed: u64,
}

/// The name of the counter of blocks that were found stored already.
pub open spec fn already_present_counter() -> Seq<char> {
    "block.already_present"@
}

/// The name of the counter of blocks that were written.
pub open spec fn write_counter() -> Seq<char> {
    "block.write"@
}

/// The name of the counter of blocks that were read.
pub open spec fn read_counter() -> Seq<char> {
    "block.read"@
}

/// `counts` with `delta` added to the counter called `name`.
pub open spec fn counted(counts: Map<Seq<char>, u64>, name: Seq<char>, delta: nat) -> Map<
    Seq<char>,
    u64,
> {
    counts.insert(name, (counts[name] + delta) as u64)
}

/// The name of the subdirectory that holds the block called `hash`.
pub open spec fn shard_of(hash: Seq<char>) -> Seq<char> {
    hash.subrange(0, SUBDIR_NAME_CHARS as int)
}

/// The path of the subdirectory that holds the block called `hash`, in the
/// block directory at `root`.
pub open spec fn shard_path(root: Seq<char>, hash: Seq<char>) -> Seq<char> {
    child_path(root, shard_of(hash))
}

/// The path of the file that holds the block called `hash`, in the block
/// directory at `root`.
pub open spec fn block_path(root: Seq<char>, hash: Seq<char>) -> Seq<char> {
    child_path(shard_path(root, hash), hash)
}

/// `tree` with a directory at `path`, unless it holds something there already.
pub open spec fn with_dir(tree: Tree, path: Seq<char>) -> Tree {
    if tree.contains_key(path) {
        tree
    } else {
        tree.insert(path, dir_node())
    }
}

/// `tree` with a file of the given content at `path`, unless it holds
/// something there already.
pub open spec fn with_file(tree: Tree, path: Seq<char>, content: Seq<u8>) -> Tree {
    if tree.contains_key(path) {
        tree
    } else {
        tree.insert(path, file_node(content))
    }
}

/// The tree after a block that holds `data` was stored in the block directory
/// at `root`: its subdirectory exists, and the block's file holds the
/// compressed data unless a file of its name was there before.
pub open spec fn stored(tree: Tree, root: Seq<char>, data: Seq<u8>) -> Tree {
    let hash = block_hash(data);
    with_file(with_dir(tree, shard_path(root, hash)), block_path(root, hash), snappy_encoded(data))
}

/// What reading the block called `hash` gives: the decompressed content of
/// its file, if the file exists and holds compressed data.
pub open spec fn block_content(tree: Tree, root: Seq<char>, hash: Seq<char>) -> Option<Seq<u8>> {
    if is_file_at(tree, block_path(root, hash)) {
        snappy_decoded(tree[block_path(root, hash)].content)
    } else {
        None
    }
}

/// What reading at `addr` gives: the content of the block that it names,
/// if `addr` is the address of the whole block.
pub open spec fn fetched(tree: Tree, root: Seq<char>, addr: AddressView) -> Option<Seq<u8>> {
    match block_content(tree, root, addr.hash) {
        Some(plain) => if addr.start == 0 && addr.len == plain.len() {
            Some(plain)
        } else {
            None
        },
        None => None,
    }
}

/// The error that reading at `addr` gives where it gives no content: an
/// address of a part of a block is refused, before the block is read if it
/// does not start at zero; a file that is missing cannot be read; a file
/// that holds no compressed data cannot be decompressed.
pub open spec fn fetch_error(tree: Tree, root: Seq<char>, addr: AddressView) -> StoreErrorView {
    if addr.start != 0 {
        StoreErrorView::UnsupportedPartialRead
    } else if !is_file_at(tree, block_path(root, addr.hash)) {
        StoreErrorView::ReadBlock { path: block_path(root, addr.hash) }
    } else if block_content(tree, root, addr.hash) is None {
        StoreErrorView::Decompress { path: block_path(root, addr.hash) }
    } else {
        StoreErrorView::UnsupportedPartialRead
    }
}

/// A readable, writable directory within a band holding data blocks.
#[derive(Clone, Debug)]
pub struct BlockDir<T> {
    /// Where the directory is kept.
    pub transport: T,
    /// The path of the directory, relative to the root of the transport.
    pub path: String,
}

/// The name of the subdirectory for a block called `block_hash`.
fn block_name_to_subdirectory(block_hash: &str) -> (name: &str)
    requires
        block_hash@.len() >= SUBDIR_NAME_CHARS,
    ensures
        name@ == shard_of(block_hash@),
{
    block_hash.substring_char(0, SUBDIR_NAME_CHARS)
}

/// Whether a block is present, from what the transport said of its file:
/// present if anything is there, absent if nothing is, and an error if the
/// transport could not tell.
pub fn block_presence(found: Result<Metadata, TransportError>, path: String) -> (r: Result<
    bool,
    StoreError,
>)
    ensures
        found is Ok ==> r == Ok::<bool, StoreError>(true),
        found == Err::<Metadata, _>(TransportError::NotFound) ==> r == Ok::<bool, StoreError>(false),
        found is Err && found != Err::<Metadata, _>(TransportError::NotFound) ==> r is Err
            && r->Err_0@ == (StoreErrorView::ReadBlock { path: path@ }),
{
    match found {
        Ok(_) => Ok(true),
        Err(TransportError::NotFound) => Ok(false),
        Err(_) => Err(StoreError::ReadBlock { path }),
    }
}

/// Whether a block can be written, from what the transport said of making
/// its subdirectory: it can if the directory was made or was there already.
pub fn subdir_ready(made: Result<(), TransportError>) -> (ready: bool)
    ensures
        ready == (made is Ok || made == Err::<(), _>(TransportError::AlreadyExists)),
{
    match made {
        Ok(()) => true,
        Err(TransportError::AlreadyExists) => true,
        Err(_) => false,
    }
}

/// What became of a block, from what the transport said of writing its
/// file. Written, or not written because the name was taken, the block is
/// stored, and the latter is counted as already present. After any other
/// failure it is not.
pub fn publish_outcome(written: Result<(), TransportError>, hex_hash: &str, report: &mut Report) -> (r:
    Result<(), StoreError>)
    requires
        old(report)@[already_present_counter()] + 1 <= u64::MAX,
    ensures
        written is Ok ==> r is Ok && final(report)@ == old(report)@,
        written == Err::<(), _>(TransportError::AlreadyExists) ==> r is Ok && final(report)@
            == counted(old(report)@, already_present_counter(), 1),
        written is Err && written != Err::<(), _>(TransportError::AlreadyExists) ==> r is Err
            && r->Err_0@ == (StoreErrorView::StoreBlock { block_hash: hex_hash@ }) && final(report)@
            == old(report)@,
{
    match written {
        Ok(()) => Ok(()),
        Err(TransportError::AlreadyExists) => {
            // Perhaps it was simultaneously created by another thread or process.
            // This isn't really an error.
            proof {
                assert(known_counters()[15] == already_present_counter());
            }
            report.increment("block.already_present", 1);
            Ok(())
        },
        Err(_) => Err(StoreError::StoreBlock { block_hash: String::from_str(hex_hash) }),
    }
}

/// The content and the sizes of a block, from what the transport said of
/// reading its file at `path`: the file must have been read, and must hold
/// compressed data.
pub fn unpack_block(read: Result<Vec<u8>, TransportError>, path: String) -> (r: Result<
    (Vec<u8>, Sizes),
    StoreError,
>)
    ensures
        match read {
            Ok(packed) => match snappy_decoded(packed@) {
                Some(plain) => r is Ok && r->Ok_0.0@ == plain && r->Ok_0.1.uncompressed
                    == plain.len() && r->Ok_0.1.compressed == packed@.len(),
                None => r is Err && r->Err_0@ == (StoreErrorView::Decompress { path: path@ }),
            },
            Err(_) => r is Err && r->Err_0@ == (StoreErrorView::ReadBlock { path: path@ }),
        },
{
    match read {
        Ok(packed) => match snappy_decompress(packed.as_slice()) {
            Ok(plain) => {
                let sizes = Sizes {
                    uncompressed: plain.len() as u64,
                    compressed: packed.len() as u64,
                };
                Ok((plain, sizes))
            },
            Err(_) => Err(StoreError::Decompress { path }),
        },
        Err(_) => Err(StoreError::ReadBlock { path }),
    }
}

/// Whether `addr` asks for the whole of a block of `block_len` bytes, which
/// is all that can be read.
pub fn check_whole_block(addr: &Address, block_len: usize) -> (r: Result<(), StoreError>)
    ensures
        r is Ok <==> addr.start == 0 && addr.len == block_len,
        r is Err ==> r->Err_0@ == StoreErrorView::UnsupportedPartialRead,
{
    if addr.start != 0 || addr.len != block_len as u64 {
        Err(StoreError::UnsupportedPartialRead)
    } else {
        Ok(())
    }
}

impl<T: TransportRead> BlockDir<T> {
    /// Create a BlockDir accessing `path`, which must exist as a directory.
    pub fn new(transport: T, path: &str) -> (dir: BlockDir<T>)
        ensures
            dir.transport == transport,
            dir.path@ == path@,
    {
        BlockDir { transport, path: String::from_str(path) }
    }

    /// Return the subdirectory in which we'd put a file called `hash_hex`.
    pub fn subdir_for(&self, hash_hex: &str) -> (dir: String)
        requires
            hash_hex@.len() >= SUBDIR_NAME_CHARS,
        ensures
            dir@ == shard_path(self.path@, hash_hex@),
    {
        join_path(self.path.as_str(), block_name_to_subdirectory(hash_hex))
    }

    /// Return the full path for a file called `hex_hash`.
    pub fn path_for_file(&self, hash_hex: &str) -> (path: String)
        requires
            hash_hex@.len() >= SUBDIR_NAME_CHARS,
        ensures
            path@ == block_path(self.path@, hash_hex@),
    {
        let dir = self.subdir_for(hash_hex);
        join_path(dir.as_str(), hash_hex)
    }

    /// True if the named block is present in this directory.
    pub fn contains(&self, hash: &str) -> (r: Result<bool, StoreError>)
        requires
            hash@.len() >= SUBDIR_NAME_CHARS,
        ensures
            r matches Err(e) ==> e@ == (StoreErrorView::ReadBlock {
                path: block_path(self.path@, hash@),
            }),
            self.transport.faultless() ==> r == Ok::<bool, StoreError>(
                self.transport.tree().contains_key(block_path(self.path@, hash@)),
            ),
    {
        let path = self.path_for_file(hash);
        let found = self.transport.metadata(path.as_str());
        block_presence(found, path)
    }

    /// Return the entire contents of the block.
    pub fn get_block_content(&self, hash: &str) -> (r: Result<(Vec<u8>, Sizes), StoreError>)
        requires
            hash@.len() >= SUBDIR_NAME_CHARS,
        ensures
            match r {
                Ok((plain, sizes)) => sizes.uncompressed == plain@.len(),
                Err(e) => e@ == (StoreErrorView::ReadBlock { path: block_path(self.path@, hash@) })
                    || e@ == (StoreErrorView::Decompress { path: block_path(self.path@, hash@) }),
            },
            self.transport.faultless() ==> match block_content(
                self.transport.tree(),
                self.path@,
                hash@,
            ) {
                Some(content) => r matches Ok((plain, sizes)) && plain@ == content
                    && sizes.compressed == self.transport.tree()[block_path(
                    self.path@,
                    hash@,
                )].content.len(),
                None => r matches Err(e) && e@ == fetch_error(
                    self.transport.tree(),
                    self.path@,
                    AddressView { hash: hash@, start: 0, len: 0 },
                ),
            },
    {
        let path = self.path_for_file(hash);
        let read = self.transport.read_file(path.as_str());
        unpack_block(read, path)
    }

    /// Read back the contents of a block, as a byte array, and count the read.
    ///
    /// Only a whole block can be read: an address that asks for a part of
    /// one is refused.
    pub fn get(&self, addr: &Address, report: &mut Report) -> (r: Result<(Vec<u8>, Sizes), StoreError>)
        requires
            addr.hash@.len() >= SUBDIR_NAME_CHARS,
            old(report)@[read_counter()] + 1 <= u64::MAX,
        ensures
            match r {
                Ok((plain, sizes)) => {
                    &&& addr.start == 0
                    &&& addr.len == plain@.len()
                    &&& sizes.uncompressed == plain@.len()
                    &&& final(report)@ == counted(old(report)@, read_counter(), 1)
                },
                Err(e) => {
                    &&& final(report)@ == old(report)@
                    &&& e@ == StoreErrorView::UnsupportedPartialRead || (addr.start == 0 && (e@ == (
                    StoreErrorView::ReadBlock { path: block_path(self.path@, addr.hash@) }) || e@ == (
                    StoreErrorView::Decompress { path: block_path(self.path@, addr.hash@) })))
                },
            },
            addr.start != 0 ==> r is Err && r->Err_0@ == StoreErrorView::UnsupportedPartialRead,
            self.transport.faultless() ==> match fetched(self.transport.tree(), self.path@, addr@) {
                Some(content) => r matches Ok((plain, sizes)) && plain@ == content
                    && sizes.compressed == self.transport.tree()[block_path(
                    self.path@,
                    addr.hash@,
                )].content.len(),
                None => r matches Err(e) && e@ == fetch_error(
                    self.transport.tree(),
                    self.path@,
                    addr@,
                ),
            },
    {
        if addr.start != 0 {
            return Err(StoreError::UnsupportedPartialRead);
        }
        let (decompressed, sizes) = match self.get_block_content(addr.hash.as_str()) {
            Ok(found) => found,
            Err(e) => {
                return Err(e);
            },
        };
        match check_whole_block(addr, decompressed.len()) {
            Ok(()) => {
                proof {
                    assert(known_counters()[17] == read_counter());
                }
                report.increment("block.read", 1);
                Ok((decompressed, sizes))
            },
            Err(e) => Err(e),
        }
    }

    /// The number of bytes that the block called `hash` takes up as it is stored.
    pub fn compressed_block_size(&self, hash: &str) -> (r: Result<u64, StoreError>)
        requires
            hash@.len() >= SUBDIR_NAME_CHARS,
        ensures
            r matches Err(e) ==> e@ == (StoreErrorView::ReadBlock {
                path: block_path(self.path@, hash@),
            }),
            self.transport.faultless() ==> (r is Ok <==> self.transport.tree().contains_key(
                block_path(self.path@, hash@),
            )),
            self.transport.faultless() && is_file_at(
                self.transport.tree(),
                block_path(self.path@, hash@),
            ) ==> r == Ok::<u64, StoreError>(
                self.transport.tree()[block_path(self.path@, hash@)].content.len() as u64,
            ),
    {
        let path = self.path_for_file(hash);
        match self.transport.metadata(path.as_str()) {
            Ok(found) => Ok(found.len),
            Err(_) => Err(StoreError::ReadBlock { path }),
        }
    }
}

impl<T: TransportWrite> BlockDir<T> {
    /// Create a BlockDir directory and return an object accessing it.
    ///
    /// The directory must not exist yet.
    pub fn create(transport: T, path: &str) -> (r: Result<BlockDir<T>, StoreError>)
        ensures
            match r {
                Ok(dir) => dir.path@ == path@ && dir.transport.faultless() == transport.faultless(),
                Err(e) => e@ == StoreErrorView::CreateBlockDir,
            },
            transport.faultless() ==> (r is Ok <==> !transport.tree().contains_key(path@)),
            transport.faultless() && r is Ok ==> r->Ok_0.transport.tree() == transport.tree().insert(
                path@,
                dir_node(),
            ),
    {
        let mut transport = transport;
        match transport.make_dir(path) {
            Ok(()) => Ok(BlockDir::new(transport, path)),
            Err(_) => Err(StoreError::CreateBlockDir),
        }
    }

    /// Compresses `in_buf` and stores it as the block called `hex_hash`,
    /// which must be its hash. Returns the number of compressed bytes.
    ///
    /// The block's file is written under a name that is not taken yet: where
    /// the name is taken, the block is stored already, nothing is written, and
    /// the block is counted as already present.
    pub fn compress_and_store(&mut self, in_buf: &[u8], hex_hash: &str, report: &mut Report) -> (r:
        Result<u64, StoreError>)
        requires
            hex_hash@ == block_hash(in_buf@),
            is_block_hash(hex_hash@),
            old(report)@[already_present_counter()] + 1 <= u64::MAX,
        ensures
            final(self).path == old(self).path,
            final(self).transport.faultless() == old(self).transport.faultless(),
            match r {
                Ok(comp_len) => {
                    &&& comp_len == snappy_encoded(in_buf@).len()
                    &&& comp_len <= max_encoded_len(in_buf@.len())
                    &&& encodable_len(in_buf@.len())
                    &&& round_trips(in_buf@)
                    &&& final(report)@ == old(report)@ || final(report)@ == counted(
                        old(report)@,
                        already_present_counter(),
                        1,
                    )
                },
                Err(e) => e@ == (StoreErrorView::StoreBlock { block_hash: hex_hash@ })
                    && final(report)@ == old(report)@,
            },
            old(self).transport.faultless() ==> {
                let before = old(self).transport.tree();
                let root = old(self).path@;
                &&& r is Ok <==> encodable_len(in_buf@.len())
                &&& r is Ok ==> final(self).transport.tree() == stored(before, root, in_buf@)
                &&& r is Ok ==> final(report)@ == if before.contains_key(block_path(root, hex_hash@)) {
                    counted(old(report)@, already_present_counter(), 1)
                } else {
                    old(report)@
                }
                &&& r is Ok ==> block_content(final(self).transport.tree(), root, hex_hash@)
                    == if before.contains_key(block_path(root, hex_hash@)) {
                    block_content(before, root, hex_hash@)
                } else {
                    Some(in_buf@)
                }
                &&& r is Err ==> final(self).transport.tree() == with_dir(
                    before,
                    shard_path(root, hex_hash@),
                )
                &&& r is Ok && is_valid_dir(before, root) ==> is_valid_dir(
                    final(self).transport.tree(),
                    root,
                )
                &&& r is Ok && is_well_laid(before, root) ==> is_well_laid(
                    final(self).transport.tree(),
                    root,
                ) && block_name_set(final(self).transport.tree(), root) == block_name_set(
                    before,
                    root,
                ).insert(hex_hash@)
            },
    {
        let path = self.path_for_file(hex_hash);
        let d = self.subdir_for(hex_hash);
        proof {
            lemma_block_paths(self.path@, hex_hash@);
        }
        let made = self.transport.make_dir(d.as_str());
        if !subdir_ready(made) {
            return Err(StoreError::StoreBlock { block_hash: String::from_str(hex_hash) });
        }
        proof {
            if self.transport.faultless() {
                assert(self.transport.tree() =~= with_dir(old(self).transport.tree(), d@));
            }
        }
        let compressed = match snappy_compress(in_buf) {
            Ok(packed) => packed,
            Err(_) => {
                return Err(StoreError::StoreBlock { block_hash: String::from_str(hex_hash) });
            },
        };
        let comp_len = compressed.len() as u64;
        let written = self.transport.write_file(path.as_str(), compressed.as_slice());
        proof {
            let before = old(self).transport.tree();
            if self.transport.faultless() {
                if is_valid_dir(before, self.path@) {
                    lemma_stored_keeps_sound(before, self.path@, in_buf@);
                }
                if is_well_laid(before, self.path@) {
                    lemma_stored_block_files(before, self.path@, in_buf@);
                    lemma_stored_block_is_named(before, self.path@, in_buf@);
                }
            }
        }
        match publish_outcome(written, hex_hash, report) {
            Ok(()) => Ok(comp_len),
            Err(e) => Err(e),
        }
    }
}

/// The paths of a block and of its subdirectory are made of names, and differ.
pub proof fn lemma_block_paths(root: Seq<char>, hash: Seq<char>)
    requires
        is_block_hash(hash),
    ensures
        is_name(hash),
        is_name(shard_of(hash)),
        shard_of(hash).len() == SUBDIR_NAME_CHARS,
        is_child(root, shard_path(root, hash)),
        is_child(shard_path(root, hash), block_path(root, hash)),
        path_tail(shard_path(root, hash)) == shard_of(hash),
        path_parent(shard_path(root, hash)) == root,
        path_tail(block_path(root, hash)) == hash,
        path_parent(block_path(root, hash)) == shard_path(root, hash),
        block_path(root, hash) != shard_path(root, hash),
        block_path(root, hash).len() > 0,
        shard_path(root, hash).len() > 0,
{
    let shard = shard_of(hash);
    assert forall|i: int| 0 <= i < shard.len() implies shard[i] != '/' by {
        assert(shard[i] == hash[i]);
        assert(is_hex_char(hash[i]));
    }
    assert forall|i: int| 0 <= i < hash.len() implies hash[i] != '/' by {
        assert(is_hex_char(hash[i]));
    }
    lemma_child_path(root, shard);
    lemma_child_path(shard_path(root, hash), hash);
}

/// A block that was stored can be read back: after a block that holds
/// `data` is stored, reading the block called by the hash of `data` gives
/// `data`. Where a file of that name was there before, it is left as it
/// was, so it must have held `data` already.
pub proof fn lemma_stored_block_reads_back(tree: Tree, root: Seq<char>, data: Seq<u8>)
    requires
        is_block_hash(block_hash(data)),
        round_trips(data),
        tree.contains_key(block_path(root, block_hash(data))) ==> block_content(
            tree,
            root,
            block_hash(data),
        ) == Some(data),
    ensures
        block_content(stored(tree, root, data), root, block_hash(data)) == Some(data),
        fetched(
            stored(tree, root, data),
            root,
            AddressView { hash: block_hash(data), start: 0, len: data.len() as u64 },
        ) == if data.len() <= u64::MAX {
            Some(data)
        } else {
            None
        },
{
    lemma_block_paths(root, block_hash(data));
}

/// Storing the same data again changes nothing: the tree after the second
/// time is the tree after the first, and the block is there already.
pub proof fn lemma_stored_twice(tree: Tree, root: Seq<char>, data: Seq<u8>)
    ensures
        stored(tree, root, data).contains_key(block_path(root, block_hash(data))),
        stored(stored(tree, root, data), root, data) == stored(tree, root, data),
{
}

/// Storing a block leaves every other entry of the tree as it was: what was
/// there stays, and nothing comes to be there but the block's file and its
/// subdirectory.
pub proof fn lemma_stored_keeps(tree: Tree, root: Seq<char>, data: Seq<u8>, path: Seq<char>)
    ensures
        tree.contains_key(path) ==> stored(tree, root, data).contains_key(path) && stored(
            tree,
            root,
            data,
        )[path] == tree[path],
        stored(tree, root, data).contains_key(path) && !tree.contains_key(path) ==> path
            == block_path(root, block_hash(data)) || path == shard_path(root, block_hash(data)),
        stored(tree, root, data).contains_key(shard_path(root, block_hash(data))),
        !tree.contains_key(shard_path(root, block_hash(data))) ==> stored(
            tree,
            root,
            data,
        )[shard_path(root, block_hash(data))] == dir_node(),
        !tree.contains_key(block_path(root, block_hash(data))) && block_path(
            root,
            block_hash(data),
        ) != shard_path(root, block_hash(data)) ==> stored(tree, root, data)[block_path(
            root,
            block_hash(data),
        )] == file_node(snappy_encoded(data)),
{
}

} // verus!
