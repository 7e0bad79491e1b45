//! Storing the content of files as blocks.
//!
//! A file's content is cut into windows of `MAX_BLOCK_SIZE` bytes, the last
//! one shorter where the length asks for it. Each window is one block, named
//! by its hash, and is written only if no block of that name is stored yet.

use vstd::prelude::*;
use vstd::slice::slice_subrange;
use crate::blockdir::listing::{block_name_set, is_well_laid, lemma_present_block_is_named};
use crate::blockdir::validate::is_valid_dir;
use crate::blockdir::{
    already_present_counter, block_content, block_path, counted, fetched, lemma_block_paths,
    lemma_stored_block_reads_back, lemma_stored_keeps, shard_path, stored, write_counter, Address,
    AddressView, BlockDir, MAX_BLOCK_SIZE,
};
use crate::compress::{encodable_len, max_encoded_len, round_trips, snappy_encoded};
use crate::paths::path_tail;
use crate::errors::{StoreError, StoreErrorView};
use crate::hash::{block_hash, hash_bytes, is_block_hash};
use crate::report::{known_counters, Report};
use crate::stats::Sizes;
use crate::transport::{extends, TransportWrite, Tree};

verus! {

/// The most bytes that a block of `MAX_BLOCK_SIZE` bytes can take up when compressed.
pub const MAX_COMPRESSED_BLOCK: u64 = 1223370;

/// The name of the counter of files without content.
pub open spec fn empty_file_counter() -> Seq<char> {
    "file.empty"@
}

/// The name of the counter of files of one block.
pub open spec fn medium_file_counter() -> Seq<char> {
    "file.medium"@
}

/// The name of the counter of files of several blocks.
pub open spec fn large_file_counter() -> Seq<char> {
    "file.large"@
}

/// The name of the counter for a file of `blocks` blocks.
pub open spec fn file_counter(blocks: nat) -> Seq<char> {
    if blocks == 0 {
        empty_file_counter()
    } else if blocks == 1 {
        medium_file_counter()
    } else {
        large_file_counter()
    }
}

/// The number of blocks that content of `len` bytes is cut into.
pub open spec fn chunk_count(len: nat) -> nat {
    ((len + MAX_BLOCK_SIZE - 1) / (MAX_BLOCK_SIZE as int)) as nat
}

/// Where the block of index `i` ends in content of `len` bytes.
pub open spec fn chunk_end(len: nat, i: int) -> int {
    if (i + 1) * MAX_BLOCK_SIZE <= len {
        (i + 1) * MAX_BLOCK_SIZE
    } else {
        len as int
    }
}

/// The block of index `i` of `data`.
pub open spec fn chunk(data: Seq<u8>, i: int) -> Seq<u8> {
    data.subrange(i * MAX_BLOCK_SIZE, chunk_end(data.len(), i))
}

/// The address of the whole of a block that holds `block`.
pub open spec fn address_of(block: Seq<u8>) -> AddressView {
    AddressView { hash: block_hash(block), start: 0, len: block.len() as u64 }
}

/// The addresses of the blocks that `data` is cut into, in the order of the data.
pub open spec fn chunk_addresses(data: Seq<u8>) -> Seq<AddressView> {
    Seq::new(chunk_count(data.len()), |i: int| address_of(chunk(data, i)))
}

/// What storing blocks has come to: the tree, how many blocks were written,
/// how many were stored before, and the compressed bytes written.
pub struct Ingest {
    pub tree: Tree,
    pub written: nat,
    pub present: nat,
    pub compressed: nat,
}

/// The state after one more block was stored in the block directory at
/// `root`: a block that is there already is counted as present and nothing
/// changes, any other is written.
pub open spec fn ingest_one(before: Ingest, root: Seq<char>, block: Seq<u8>) -> Ingest {
    if before.tree.contains_key(block_path(root, block_hash(block))) {
        Ingest { present: before.present + 1, ..before }
    } else {
        Ingest {
            tree: stored(before.tree, root, block),
            written: before.written + 1,
            present: before.present,
            compressed: before.compressed + snappy_encoded(block).len(),
        }
    }
}

/// The state after the first `upto` blocks of `data` were stored, one after
/// the other, in the block directory at `root` of `tree`.
pub open spec fn ingest(tree: Tree, root: Seq<char>, data: Seq<u8>, upto: nat) -> Ingest
    decreases upto,
{
    if upto == 0 {
        Ingest { tree, written: 0, present: 0, compressed: 0 }
    } else {
        ingest_one(ingest(tree, root, data, (upto - 1) as nat), root, chunk(data, upto - 1))
    }
}

/// `counts` after `written` blocks were written and `present` were found
/// stored already.
pub open spec fn tally(counts: Map<Seq<char>, u64>, written: nat, present: nat) -> Map<Seq<char>, u64> {
    counted(counted(counts, write_counter(), written), already_present_counter(), present)
}

/// True if the counters that storing a file of `blocks` blocks adds to can
/// take what is added.
pub open spec fn has_room(counts: Map<Seq<char>, u64>, blocks: nat) -> bool {
    &&& counts[write_counter()] + blocks <= u64::MAX
    &&& counts[already_present_counter()] + blocks <= u64::MAX
    &&& counts[empty_file_counter()] + 1 <= u64::MAX
    &&& counts[medium_file_counter()] + 1 <= u64::MAX
    &&& counts[large_file_counter()] + 1 <= u64::MAX
}

/// The five counters of storing are known ones, and the two of blocks
/// differ from each other and from the three of files.
pub proof fn lemma_store_counters()
    ensures
        known_counters().contains(already_present_counter()),
        known_counters().contains(write_counter()),
        known_counters().contains(empty_file_counter()),
        known_counters().contains(medium_file_counter()),
        known_counters().contains(large_file_counter()),
        write_counter() != already_present_counter(),
        forall|blocks: nat|
            #[trigger] file_counter(blocks) != write_counter() && file_counter(blocks)
                != already_present_counter(),
{
    assert(known_counters()[15] == already_present_counter());
    assert(known_counters()[16] == write_counter());
    assert(known_counters()[18] == empty_file_counter());
    assert(known_counters()[19] == medium_file_counter());
    assert(known_counters()[20] == large_file_counter());
    reveal_strlit("block.already_present");
    reveal_strlit("block.write");
    reveal_strlit("file.empty");
    reveal_strlit("file.medium");
    reveal_strlit("file.large");
    assert(write_counter().len() == 11);
    assert(already_present_counter().len() == 21);
    assert(empty_file_counter()[0] == 'f');
    assert(medium_file_counter()[0] == 'f');
    assert(large_file_counter()[0] == 'f');
    assert(write_counter()[0] == 'b');
    assert(already_present_counter()[0] == 'b');
}

/// Counting one more written block moves the tally on.
proof fn lemma_tally_written(counts: Map<Seq<char>, u64>, written: nat, present: nat)
    requires
        counts[write_counter()] + written + 1 <= u64::MAX,
        counts[already_present_counter()] + present <= u64::MAX,
    ensures
        counted(tally(counts, written, present), write_counter(), 1) == tally(
            counts,
            written + 1,
            present,
        ),
{
    lemma_store_counters();
    assert(counted(tally(counts, written, present), write_counter(), 1) =~= tally(
        counts,
        written + 1,
        present,
    ));
}

/// Counting one more block that was present moves the tally on.
proof fn lemma_tally_present(counts: Map<Seq<char>, u64>, written: nat, present: nat)
    requires
        counts[write_counter()] + written <= u64::MAX,
        counts[already_present_counter()] + present + 1 <= u64::MAX,
    ensures
        counted(tally(counts, written, present), already_present_counter(), 1) == tally(
            counts,
            written,
            (present + 1) as nat,
        ),
{
    lemma_store_counters();
    assert(counted(tally(counts, written, present), already_present_counter(), 1) =~= tally(
        counts,
        written,
        (present + 1) as nat,
    ));
}

/// What a tally holds for the counters of storing.
pub proof fn lemma_tally_read(counts: Map<Seq<char>, u64>, written: nat, present: nat)
    requires
        counts[write_counter()] + written <= u64::MAX,
        counts[already_present_counter()] + present <= u64::MAX,
    ensures
        tally(counts, written, present)[write_counter()] == counts[write_counter()] + written,
        tally(counts, written, present)[already_present_counter()] == counts[already_present_counter()]
            + present,
        forall|blocks: nat|
            tally(counts, written, present)[#[trigger] file_counter(blocks)] == counts[file_counter(
                blocks,
            )],
{
    lemma_store_counters();
}

/// The blocks that content is cut into cover it: all but the last are
/// full, and the last is not empty.
pub proof fn lemma_chunk_count(len: nat)
    ensures
        len == 0 ==> chunk_count(len) == 0,
        len > 0 ==> (chunk_count(len) - 1) * MAX_BLOCK_SIZE < len <= chunk_count(len) * MAX_BLOCK_SIZE,
        len <= isize::MAX ==> chunk_count(len) * MAX_COMPRESSED_BLOCK <= u64::MAX,
{
}

/// True if `after` is `before` with one block counted: as already present,
/// as written, or, where the block was found to be stored only when it was
/// to be written, as both.
pub open spec fn block_counted(before: Map<Seq<char>, u64>, after: Map<Seq<char>, u64>) -> bool {
    ||| after == counted(before, already_present_counter(), 1)
    ||| after == counted(before, write_counter(), 1)
    ||| after == counted(counted(before, already_present_counter(), 1), write_counter(), 1)
}

/// True if `after` is `before` with some of `blocks` blocks counted, each
/// once.
pub open spec fn blocks_counted(before: Map<Seq<char>, u64>, after: Map<Seq<char>, u64>, blocks: nat) -> bool {
    exists|written: nat, present: nat|
        written <= blocks && present <= blocks && after == #[trigger] tally(before, written, present)
}

/// True if `after` is `before` with a file of `blocks` blocks counted: the
/// file by the number of its blocks, and each block counted once.
pub open spec fn file_counted(before: Map<Seq<char>, u64>, after: Map<Seq<char>, u64>, blocks: nat) -> bool {
    exists|written: nat, present: nat|
        written <= blocks && present <= blocks && after == #[trigger] counted(
            tally(before, written, present),
            file_counter(blocks),
            1,
        )
}

/// What holds while the content of a file is stored on a faultless
/// transport, when `upto` blocks are done: the state is that of `ingest`,
/// and the counters and sizes say so.
spec fn stored_so_far(
    now: Tree,
    tree: Tree,
    root: Seq<char>,
    data: Seq<u8>,
    upto: nat,
    written: nat,
    present: nat,
    sizes: Sizes,
) -> bool {
    let done = ingest(tree, root, data, upto);
    &&& now == done.tree
    &&& written == done.written
    &&& present == done.present
    &&& sizes.compressed == done.compressed
}

/// The hashes of the first `upto` blocks of `data`.
pub open spec fn chunk_hashes(data: Seq<u8>, upto: nat) -> Set<Seq<char>> {
    Set::new(|hash: Seq<char>| exists|i: int| 0 <= i < upto && #[trigger] block_hash(chunk(data, i)) == hash)
}

/// True if each file that `tree` holds under the name of a block of `data`
/// is a block with that content.
pub open spec fn agrees_with(tree: Tree, root: Seq<char>, data: Seq<u8>) -> bool {
    forall|i: int|
        0 <= i < chunk_count(data.len()) && tree.contains_key(
            block_path(root, #[trigger] block_hash(chunk(data, i))),
        ) ==> block_content(tree, root, block_hash(chunk(data, i))) == Some(chunk(data, i))
}

/// True if the blocks of `data` can be told apart by their hashes: two of
/// them with the same hash hold the same bytes.
pub open spec fn tells_apart(data: Seq<u8>) -> bool {
    forall|i: int, j: int|
        0 <= i < chunk_count(data.len()) && 0 <= j < chunk_count(data.len()) && #[trigger] block_hash(
            chunk(data, i),
        ) == #[trigger] block_hash(chunk(data, j)) ==> chunk(data, i) == chunk(data, j)
}

/// The hashes of one more block are those from before and the hash of that block.
proof fn lemma_chunk_hashes_step(data: Seq<u8>, upto: nat)
    ensures
        chunk_hashes(data, upto + 1) == chunk_hashes(data, upto).insert(
            block_hash(chunk(data, upto as int)),
        ),
{
    let more = chunk_hashes(data, upto + 1);
    let want = chunk_hashes(data, upto).insert(block_hash(chunk(data, upto as int)));
    assert forall|hash: Seq<char>| more.contains(hash) <==> want.contains(hash) by {
        if more.contains(hash) {
            let i = choose|i: int| 0 <= i < upto + 1 && #[trigger] block_hash(chunk(data, i)) == hash;
            if i < upto {
                assert(chunk_hashes(data, upto).contains(hash));
            }
        }
        if chunk_hashes(data, upto).contains(hash) {
            let i = choose|i: int| 0 <= i < upto && #[trigger] block_hash(chunk(data, i)) == hash;
            assert(0 <= i < upto + 1 && block_hash(chunk(data, i)) == hash);
        }
        if hash == block_hash(chunk(data, upto as int)) {
            assert(0 <= upto < upto + 1 && block_hash(chunk(data, upto as int)) == hash);
        }
    }
    assert(more =~= want);
}

/// What holds of the tree `now` when the first `upto` blocks of `data`
/// were stored into `tree`: each of them can be read back, what `tree` held
/// is there as it was, and nothing came to it but the files and the
/// subdirectories of those blocks.
spec fn readable_so_far(now: Tree, tree: Tree, root: Seq<char>, data: Seq<u8>, upto: nat) -> bool {
    &&& forall|i: int| 0 <= i < upto ==> is_block_hash(#[trigger] block_hash(chunk(data, i)))
    &&& forall|i: int|
        0 <= i < upto ==> block_content(now, root, #[trigger] block_hash(chunk(data, i))) == Some(
            chunk(data, i),
        )
    &&& forall|path: Seq<char>| #[trigger]
        tree.contains_key(path) ==> now.contains_key(path) && now[path] == tree[path]
    &&& forall|path: Seq<char>| #[trigger]
        now.contains_key(path) && !tree.contains_key(path) ==> came_with(root, data, upto, path)
}

/// True if `path` is the file or the subdirectory of one of the first
/// `upto` blocks of `data`.
spec fn came_with(root: Seq<char>, data: Seq<u8>, upto: nat, path: Seq<char>) -> bool {
    exists|i: int|
        0 <= i < upto && (path == block_path(root, #[trigger] block_hash(chunk(data, i))) || path
            == shard_path(root, block_hash(chunk(data, i))))
}

/// Storing one more block keeps what was stored readable.
proof fn lemma_readable_step(
    now: Tree,
    next: Tree,
    tree: Tree,
    root: Seq<char>,
    data: Seq<u8>,
    upto: nat,
)
    requires
        upto < chunk_count(data.len()),
        agrees_with(tree, root, data),
        tells_apart(data),
        readable_so_far(now, tree, root, data, upto),
        is_block_hash(block_hash(chunk(data, upto as int))),
        now.contains_key(block_path(root, block_hash(chunk(data, upto as int)))) ==> next == now,
        !now.contains_key(block_path(root, block_hash(chunk(data, upto as int)))) ==> next == stored(
            now,
            root,
            chunk(data, upto as int),
        ) && block_content(next, root, block_hash(chunk(data, upto as int))) == Some(
            chunk(data, upto as int),
        ),
    ensures
        readable_so_far(next, tree, root, data, upto + 1),
{
    let block = chunk(data, upto as int);
    let hash = block_hash(block);
    let bp = block_path(root, hash);
    let sp = shard_path(root, hash);
    lemma_block_paths(root, hash);
    assert forall|path: Seq<char>| #[trigger] tree.contains_key(path) implies next.contains_key(path)
        && next[path] == tree[path] by {
        lemma_stored_keeps(now, root, block, path);
    }
    assert forall|path: Seq<char>| #[trigger]
        next.contains_key(path) && !tree.contains_key(path) implies came_with(
        root,
        data,
        upto + 1,
        path,
    ) by {
        lemma_stored_keeps(now, root, block, path);
        if now.contains_key(path) {
            assert(came_with(root, data, upto, path));
            let i = choose|i: int|
                0 <= i < upto && (path == block_path(root, #[trigger] block_hash(chunk(data, i)))
                    || path == shard_path(root, block_hash(chunk(data, i))));
            assert(0 <= i < upto + 1);
        } else {
            assert(path == bp || path == sp);
            assert(0 <= upto < upto + 1 && (path == block_path(
                root,
                block_hash(chunk(data, upto as int)),
            ) || path == shard_path(root, block_hash(chunk(data, upto as int)))));
        }
    }
    assert forall|i: int| 0 <= i < upto + 1 implies block_content(
        next,
        root,
        #[trigger] block_hash(chunk(data, i)),
    ) == Some(chunk(data, i)) by {
        let other = block_hash(chunk(data, i));
        let op = block_path(root, other);
        if i < upto {
            assert(is_block_hash(other));
            lemma_block_paths(root, other);
            lemma_stored_keeps(now, root, block, op);
        } else if now.contains_key(bp) {
            if tree.contains_key(bp) {
                assert(block_content(tree, root, hash) == Some(block));
            } else {
                assert(came_with(root, data, upto, bp));
                let j = choose|j: int|
                    0 <= j < upto && (bp == block_path(root, #[trigger] block_hash(chunk(data, j)))
                        || bp == shard_path(root, block_hash(chunk(data, j))));
                let earlier = block_hash(chunk(data, j));
                assert(is_block_hash(earlier));
                lemma_block_paths(root, earlier);
                if bp == shard_path(root, earlier) {
                    assert(path_tail(bp).len() == 128);
                    assert(path_tail(shard_path(root, earlier)).len() == 3);
                } else {
                    assert(path_tail(bp) == path_tail(block_path(root, earlier)));
                    assert(hash == earlier);
                    assert(block == chunk(data, j));
                }
            }
        }
    }
}

/// Counts a file that was stored as `blocks` blocks: as empty, medium or
/// large, for none, one or more.
pub fn count_file(blocks: usize, report: &mut Report)
    requires
        old(report)@[file_counter(blocks as nat)] + 1 <= u64::MAX,
    ensures
        final(report)@ == counted(old(report)@, file_counter(blocks as nat), 1),
{
    proof {
        lemma_store_counters();
    }
    match blocks {
        0 => report.increment("file.empty", 1),
        1 => report.increment("file.medium", 1),
        _ => report.increment("file.large", 1),
    }
}

/// Manages storage into the BlockDir of any number of files.
pub struct StoreFiles<T> {
    /// The directory that the blocks go to.
    pub block_dir: BlockDir<T>,
}

impl<T: TransportWrite> StoreFiles<T> {
    /// A store of files into `block_dir`.
    pub fn new(block_dir: BlockDir<T>) -> (store: StoreFiles<T>)
        ensures
            store.block_dir == block_dir,
    {
        StoreFiles { block_dir }
    }

    /// Gives back the directory that the blocks went to.
    pub fn into_block_dir(self) -> (block_dir: BlockDir<T>)
        ensures
            block_dir == self.block_dir,
    {
        self.block_dir
    }

    /// Stores one block unless a block of its name is stored already, adds
    /// to the counters and to `sizes`, and returns the block's address.
    pub fn store_block(&mut self, block_data: &[u8], report: &mut Report, sizes: &mut Sizes) -> (r: Result<
        Address,
        StoreError,
    >)
        requires
            old(report)@[write_counter()] + 1 <= u64::MAX,
            old(report)@[already_present_counter()] + 1 <= u64::MAX,
            old(sizes).uncompressed + block_data@.len() <= u64::MAX,
            old(sizes).compressed + max_encoded_len(block_data@.len()) <= u64::MAX,
        ensures
            final(self).block_dir.path == old(self).block_dir.path,
            final(self).block_dir.transport.faultless() == old(self).block_dir.transport.faultless(),
            match r {
                Ok(address) => {
                    &&& address@ == address_of(block_data@)
                    &&& is_block_hash(address.hash@)
                    &&& block_counted(old(report)@, final(report)@)
                    &&& final(sizes).uncompressed == old(sizes).uncompressed + block_data@.len()
                    &&& old(sizes).compressed <= final(sizes).compressed <= old(sizes).compressed
                        + max_encoded_len(block_data@.len())
                },
                Err(e) => {
                    &&& e@ == (StoreErrorView::ReadBlock {
                        path: block_path(old(self).block_dir.path@, block_hash(block_data@)),
                    }) || e@ == (StoreErrorView::StoreBlock { block_hash: block_hash(block_data@) })
                    &&& final(report)@ == old(report)@
                    &&& *final(sizes) == *old(sizes)
                },
            },
            old(self).block_dir.transport.faultless() ==> {
                let before = old(self).block_dir.transport.tree();
                let root = old(self).block_dir.path@;
                let was_present = before.contains_key(block_path(root, block_hash(block_data@)));
                &&& r is Ok <==> was_present || encodable_len(block_data@.len())
                &&& r is Ok ==> {
                    &&& final(self).block_dir.transport.tree() == if was_present {
                        before
                    } else {
                        stored(before, root, block_data@)
                    }
                    &&& final(report)@ == counted(
                        old(report)@,
                        if was_present {
                            already_present_counter()
                        } else {
                            write_counter()
                        },
                        1,
                    )
                    &&& final(sizes).compressed == old(sizes).compressed + if was_present {
                        0
                    } else {
                        snappy_encoded(block_data@).len()
                    }
                    &&& !was_present ==> block_content(
                        final(self).block_dir.transport.tree(),
                        root,
                        block_hash(block_data@),
                    ) == Some(block_data@)
                    &&& is_valid_dir(before, root) ==> is_valid_dir(
                        final(self).block_dir.transport.tree(),
                        root,
                    )
                    &&& is_well_laid(before, root) ==> is_well_laid(
                        final(self).block_dir.transport.tree(),
                        root,
                    ) && block_name_set(final(self).block_dir.transport.tree(), root)
                        == block_name_set(before, root).insert(block_hash(block_data@))
                }
            },
    {
        let read_len = block_data.len();
        let block_hash: String = hash_bytes(block_data);
        proof {
            lemma_store_counters();
        }
        let present = match self.block_dir.contains(block_hash.as_str()) {
            Ok(present) => present,
            Err(e) => {
                return Err(e);
            },
        };
        if present {
            proof {
                let before = self.block_dir.transport.tree();
                let root = self.block_dir.path@;
                if self.block_dir.transport.faultless() && is_well_laid(before, root) {
                    lemma_present_block_is_named(before, root, block_hash@);
                    assert(block_name_set(before, root).insert(block_hash@) =~= block_name_set(
                        before,
                        root,
                    ));
                }
            }
            report.increment("block.already_present", 1);
            sizes.uncompressed = sizes.uncompressed + read_len as u64;
        } else {
            let comp_len = match self.block_dir.compress_and_store(
                block_data,
                block_hash.as_str(),
                report,
            ) {
                Ok(comp_len) => comp_len,
                Err(e) => {
                    return Err(e);
                },
            };
            proof {
                if report@ != old(report)@ {
                    assert(counted(old(report)@, already_present_counter(), 1)[write_counter()]
                        == old(report)@[write_counter()]);
                }
            }
            report.increment("block.write", 1);
            sizes.compressed = sizes.compressed + comp_len;
            sizes.uncompressed = sizes.uncompressed + read_len as u64;
        }
        Ok(Address { hash: block_hash, start: 0, len: read_len as u64 })
    }

    /// Stores the content of one file, block by block, and returns the
    /// addresses of its blocks in the order of the content, with the sizes of
    /// what was read and of what was written.
    ///
    /// The file is counted as empty, medium or large by the number of its
    /// blocks: none, one or more.
    pub fn store_file_content(&mut self, content: &[u8], report: &mut Report) -> (r: Result<
        (Vec<Address>, Sizes),
        StoreError,
    >)
        requires
            content@.len() <= isize::MAX,
            has_room(old(report)@, chunk_count(content@.len())),
        ensures
            final(self).block_dir.path == old(self).block_dir.path,
            final(self).block_dir.transport.faultless() == old(self).block_dir.transport.faultless(),
            match r {
                Ok((addresses, sizes)) => {
                    &&& addresses@.len() == chunk_count(content@.len())
                    &&& forall|k: int|
                        0 <= k < addresses@.len() ==> (#[trigger] addresses@[k])@ == chunk_addresses(
                            content@,
                        )[k] && is_block_hash(addresses@[k].hash@)
                    &&& sizes.uncompressed == content@.len()
                    &&& file_counted(old(report)@, final(report)@, chunk_count(content@.len()))
                },
                Err(e) => (e@ is ReadBlock || e@ is StoreBlock) && blocks_counted(
                    old(report)@,
                    final(report)@,
                    chunk_count(content@.len()),
                ),
            },
            old(self).block_dir.transport.faultless() ==> {
                let blocks = chunk_count(content@.len());
                let done = ingest(
                    old(self).block_dir.transport.tree(),
                    old(self).block_dir.path@,
                    content@,
                    blocks,
                );
                &&& r matches Ok((addresses, sizes)) && sizes.compressed == done.compressed
                &&& final(self).block_dir.transport.tree() == done.tree
                &&& final(report)@ == counted(
                    tally(old(report)@, done.written, done.present),
                    file_counter(blocks),
                    1,
                )
                &&& extends(done.tree, old(self).block_dir.transport.tree())
                &&& is_valid_dir(old(self).block_dir.transport.tree(), old(self).block_dir.path@)
                    ==> is_valid_dir(done.tree, old(self).block_dir.path@)
                &&& is_well_laid(old(self).block_dir.transport.tree(), old(self).block_dir.path@)
                    ==> is_well_laid(done.tree, old(self).block_dir.path@) && block_name_set(
                    done.tree,
                    old(self).block_dir.path@,
                ) == block_name_set(
                    old(self).block_dir.transport.tree(),
                    old(self).block_dir.path@,
                ).union(chunk_hashes(content@, blocks))
                &&& agrees_with(
                    old(self).block_dir.transport.tree(),
                    old(self).block_dir.path@,
                    content@,
                ) && tells_apart(content@) ==> forall|k: int|
                    0 <= k < blocks ==> fetched(
                        done.tree,
                        old(self).block_dir.path@,
                        #[trigger] chunk_addresses(content@)[k],
                    ) == Some(chunk(content@, k))
            },
    {
        let mut addresses: Vec<Address> = Vec::new();
        let mut sizes = Sizes { uncompressed: 0, compressed: 0 };
        let mut pos: usize = 0;
        let ghost tree = self.block_dir.transport.tree();
        let ghost root = self.block_dir.path@;
        let ghost exact = self.block_dir.transport.faultless();
        let ghost blocks = chunk_count(content@.len());
        let ghost mut written: nat = 0;
        let ghost mut present: nat = 0;
        proof {
            lemma_chunk_count(content@.len());
            lemma_store_counters();
            report.lemma_domain();
            assert(report@ =~= tally(report@, 0, 0));
            assert(chunk_hashes(content@, 0) =~= Set::<Seq<char>>::empty());
            assert(block_name_set(tree, root).union(chunk_hashes(content@, 0)) =~= block_name_set(
                tree,
                root,
            ));
        }
        while pos < content.len()
            invariant
                pos <= content@.len() <= isize::MAX,
                blocks == chunk_count(content@.len()),
                has_room(old(report)@, blocks),
                addresses@.len() <= blocks,
                pos == if addresses@.len() * MAX_BLOCK_SIZE <= content@.len() {
                    addresses@.len() * MAX_BLOCK_SIZE
                } else {
                    content@.len() as int
                },
                sizes.uncompressed == pos,
                sizes.compressed <= addresses@.len() * MAX_COMPRESSED_BLOCK,
                written <= addresses@.len(),
                present <= addresses@.len(),
                report@ == tally(old(report)@, written, present),
                forall|k: int|
                    0 <= k < addresses@.len() ==> (#[trigger] addresses@[k])@ == address_of(
                        chunk(content@, k),
                    ) && is_block_hash(addresses@[k].hash@),
                self.block_dir.path == old(self).block_dir.path,
                root == self.block_dir.path@,
                exact == old(self).block_dir.transport.faultless(),
                exact == self.block_dir.transport.faultless(),
                exact ==> stored_so_far(
                    self.block_dir.transport.tree(),
                    tree,
                    root,
                    content@,
                    addresses@.len(),
                    written,
                    present,
                    sizes,
                ),
                exact ==> extends(self.block_dir.transport.tree(), tree),
                exact && is_valid_dir(tree, root) ==> is_valid_dir(self.block_dir.transport.tree(), root),
                exact && is_well_laid(tree, root) ==> is_well_laid(
                    self.block_dir.transport.tree(),
                    root,
                ) && block_name_set(self.block_dir.transport.tree(), root) == block_name_set(
                    tree,
                    root,
                ).union(chunk_hashes(content@, addresses@.len())),
                exact && agrees_with(tree, root, content@) && tells_apart(content@)
                    ==> readable_so_far(
                    self.block_dir.transport.tree(),
                    tree,
                    root,
                    content@,
                    addresses@.len(),
                ),
            decreases content@.len() - pos,
        {
            let ghost upto = addresses@.len();
            let ghost done = ingest(tree, root, content@, upto);
            let ghost counts = report@;
            let ghost now = self.block_dir.transport.tree();
            let end = if content.len() - pos > MAX_BLOCK_SIZE {
                pos + MAX_BLOCK_SIZE
            } else {
                content.len()
            };
            let block_data = slice_subrange(content, pos, end);
            proof {
                lemma_chunk_count(content@.len());
                assert(block_data@ == chunk(content@, upto as int));
                assert(upto < blocks);
                lemma_tally_read(old(report)@, written, present);
                lemma_tally_written(old(report)@, written, present);
                lemma_tally_present(old(report)@, written, present);
            }
            let address = match self.store_block(block_data, report, &mut sizes) {
                Ok(address) => address,
                Err(e) => {
                    return Err(e);
                },
            };
            let ghost addresses_before = addresses@;
            addresses.push(address);
            pos = end;
            proof {
                lemma_store_counters();
                let one_present = counted(counts, already_present_counter(), 1);
                let one_written = counted(counts, write_counter(), 1);
                assert(one_present[already_present_counter()] != one_written[already_present_counter()]);
                if report@ == one_present {
                    present = present + 1;
                } else if report@ == one_written {
                    written = written + 1;
                } else {
                    lemma_tally_read(old(report)@, written, present + 1);
                    lemma_tally_written(old(report)@, written, present + 1);
                    present = present + 1;
                    written = written + 1;
                }
                assert forall|k: int| 0 <= k < upto + 1 implies (#[trigger] addresses@[k])@
                    == address_of(chunk(content@, k)) && is_block_hash(addresses@[k].hash@) by {
                    if k < upto {
                        assert(addresses@[k] == addresses_before[k]);
                    }
                }
                if exact {
                    let next = ingest(tree, root, content@, upto + 1);
                    assert(next == ingest_one(done, root, chunk(content@, upto as int)));
                    assert forall|path: Seq<char>| #[trigger] tree.contains_key(path) implies next.tree.contains_key(
                        path,
                    ) && next.tree[path] == tree[path] by {
                        lemma_stored_keeps(now, root, chunk(content@, upto as int), path);
                    }
                    if is_well_laid(tree, root) {
                        lemma_chunk_hashes_step(content@, upto);
                    }
                    if agrees_with(tree, root, content@) && tells_apart(content@) {
                        lemma_readable_step(
                            now,
                            self.block_dir.transport.tree(),
                            tree,
                            root,
                            content@,
                            upto,
                        );
                    }
                }
            }
        }
        proof {
            lemma_chunk_count(content@.len());
            assert(addresses@.len() == blocks);
            lemma_tally_read(old(report)@, written, present);
            assert(tally(old(report)@, written, present)[file_counter(blocks)] == old(
                report,
            )@[file_counter(blocks)]);
        }
        count_file(addresses.len(), report);
        proof {
            assert(report@ == counted(
                tally(old(report)@, written, present),
                file_counter(blocks),
                1,
            ));
            if exact && agrees_with(tree, root, content@) && tells_apart(content@) {
                let after = self.block_dir.transport.tree();
                assert forall|k: int| 0 <= k < blocks implies fetched(
                    after,
                    root,
                    #[trigger] chunk_addresses(content@)[k],
                ) == Some(chunk(content@, k)) by {
                    lemma_chunk_len(content@, k);
                    assert(is_block_hash(block_hash(chunk(content@, k))));
                }
            }
        }
        Ok((addresses, sizes))
    }
}

/// Content that fits into one block, and is not empty, is stored as one
/// block that holds all of it.
pub proof fn lemma_one_block(data: Seq<u8>)
    requires
        0 < data.len() <= MAX_BLOCK_SIZE,
    ensures
        chunk_count(data.len()) == 1,
        chunk(data, 0) == data,
        chunk_addresses(data) == seq![address_of(data)],
{
    assert(chunk(data, 0) =~= data);
    assert(chunk_addresses(data) =~= seq![address_of(data)]);
}

/// Content without bytes is stored as no block at all.
pub proof fn lemma_no_block(data: Seq<u8>)
    requires
        data.len() == 0,
    ensures
        chunk_count(data.len()) == 0,
        chunk_addresses(data) == Seq::<AddressView>::empty(),
{
    assert(chunk_addresses(data) =~= Seq::<AddressView>::empty());
}

/// Each block of content is at most `MAX_BLOCK_SIZE` bytes long and not
/// empty, and all but the last are full.
pub proof fn lemma_chunk_len(data: Seq<u8>, i: int)
    requires
        0 <= i < chunk_count(data.len()),
    ensures
        0 < chunk(data, i).len() <= MAX_BLOCK_SIZE,
        i + 1 < chunk_count(data.len()) ==> chunk(data, i).len() == MAX_BLOCK_SIZE,
        chunk(data, i).len() == chunk_end(data.len(), i) - i * MAX_BLOCK_SIZE,
        0 <= i * MAX_BLOCK_SIZE < chunk_end(data.len(), i) <= data.len(),
{
    lemma_chunk_count(data.len());
}

/// The first `upto` blocks of `data`, one after the other.
pub open spec fn joined_chunks(data: Seq<u8>, upto: nat) -> Seq<u8>
    decreases upto,
{
    if upto == 0 {
        Seq::empty()
    } else {
        joined_chunks(data, (upto - 1) as nat) + chunk(data, upto - 1)
    }
}

/// The blocks that content is cut into, put one after the other, are the content.
pub proof fn lemma_chunks_join(data: Seq<u8>)
    ensures
        joined_chunks(data, chunk_count(data.len())) == data,
{
    lemma_chunk_count(data.len());
    lemma_chunks_join_upto(data, chunk_count(data.len()));
    if data.len() > 0 {
        lemma_chunk_len(data, chunk_count(data.len()) - 1);
    }
    assert(data.subrange(0, data.len() as int) =~= data);
}

/// The first `upto` blocks of content, put one after the other, are the
/// content up to the end of the last of them.
proof fn lemma_chunks_join_upto(data: Seq<u8>, upto: nat)
    requires
        upto <= chunk_count(data.len()),
    ensures
        joined_chunks(data, upto) == data.subrange(
            0,
            if upto == 0 {
                0
            } else {
                chunk_end(data.len(), upto - 1)
            },
        ),
    decreases upto,
{
    if upto == 0 {
        assert(joined_chunks(data, 0) =~= data.subrange(0, 0));
    } else {
        lemma_chunks_join_upto(data, (upto - 1) as nat);
        lemma_chunk_len(data, upto - 1);
        if upto > 1 {
            lemma_chunk_len(data, upto - 2);
        }
        assert(joined_chunks(data, upto) =~= data.subrange(0, chunk_end(data.len(), upto - 1)));
    }
}

/// Storing a block a second time writes nothing: the tree stays as it is
/// after the first time, and the block is counted as present.
pub proof fn lemma_store_again(before: Ingest, root: Seq<char>, block: Seq<u8>)
    ensures
        ({
            let once = ingest_one(before, root, block);
            let twice = ingest_one(once, root, block);
            &&& twice.tree == once.tree
            &&& twice.written == once.written
            &&& twice.present == once.present + 1
            &&& twice.compressed == once.compressed
        }),
{
}

/// Content of `k` full blocks of one byte is stored as `k` blocks of one
/// name. If no block of that name was stored before, the first is written
/// and the others are found present.
pub proof fn lemma_repeated_blocks(tree: Tree, root: Seq<char>, byte: u8, k: nat)
    requires
        k >= 1,
        !tree.contains_key(
            block_path(root, block_hash(Seq::new(MAX_BLOCK_SIZE as nat, |j: int| byte))),
        ),
    ensures
        ({
            let data = Seq::new(k * MAX_BLOCK_SIZE as nat, |j: int| byte);
            let block = Seq::new(MAX_BLOCK_SIZE as nat, |j: int| byte);
            &&& chunk_count(data.len()) == k
            &&& chunk_addresses(data).len() == k
            &&& forall|i: int| 0 <= i < k ==> #[trigger] chunk_addresses(data)[i] == address_of(block)
            &&& ingest(tree, root, data, k).written == 1
            &&& ingest(tree, root, data, k).present == k - 1
        }),
{
    let data = Seq::new(k * MAX_BLOCK_SIZE as nat, |j: int| byte);
    let block = Seq::new(MAX_BLOCK_SIZE as nat, |j: int| byte);
    lemma_chunk_count(data.len());
    assert forall|i: int| 0 <= i < k implies #[trigger] chunk(data, i) == block by {
        lemma_chunk_len(data, i);
        assert(chunk(data, i) =~= block);
    }
    lemma_repeated_ingest(tree, root, data, block, k);
}

/// Where each of the first `upto` blocks of `data` is `block`, and no block
/// of its name was stored before, the first is written and the others are
/// found present.
proof fn lemma_repeated_ingest(tree: Tree, root: Seq<char>, data: Seq<u8>, block: Seq<u8>, upto: nat)
    requires
        upto >= 1,
        forall|i: int| 0 <= i < upto ==> #[trigger] chunk(data, i) == block,
        !tree.contains_key(block_path(root, block_hash(block))),
    ensures
        ingest(tree, root, data, upto).written == 1,
        ingest(tree, root, data, upto).present == upto - 1,
        ingest(tree, root, data, upto).tree.contains_key(block_path(root, block_hash(block))),
    decreases upto,
{
    assert(chunk(data, upto - 1) == block);
    if upto == 1 {
        assert(ingest(tree, root, data, 0).tree == tree);
    } else {
        lemma_repeated_ingest(tree, root, data, block, (upto - 1) as nat);
    }
}

/// True if the blocks of `data` can be told apart by their hashes, each
/// compresses and has a hash, and where `tree` holds a file under the name
/// of one of them already, it is a block with that content.
pub open spec fn is_storable_in(tree: Tree, root: Seq<char>, data: Seq<u8>) -> bool {
    &&& forall|i: int|
        0 <= i < chunk_count(data.len()) ==> is_block_hash(#[trigger] block_hash(chunk(data, i)))
            && round_trips(chunk(data, i))
    &&& forall|i: int|
        0 <= i < chunk_count(data.len()) && tree.contains_key(
            block_path(root, #[trigger] block_hash(chunk(data, i))),
        ) ==> block_content(tree, root, block_hash(chunk(data, i))) == Some(chunk(data, i))
    &&& forall|i: int, j: int|
        0 <= i < chunk_count(data.len()) && 0 <= j < chunk_count(data.len()) && #[trigger] block_hash(
            chunk(data, i),
        ) == #[trigger] block_hash(chunk(data, j)) ==> chunk(data, i) == chunk(data, j)
}

/// After the content of a file is stored, reading at each of its addresses
/// gives the block of the content that the address stands for; and the
/// blocks, one after the other, are the content.
pub proof fn lemma_stored_content_reads_back(tree: Tree, root: Seq<char>, data: Seq<u8>, k: int)
    requires
        is_storable_in(tree, root, data),
        0 <= k < chunk_count(data.len()),
    ensures
        fetched(
            ingest(tree, root, data, chunk_count(data.len())).tree,
            root,
            chunk_addresses(data)[k],
        ) == Some(chunk(data, k)),
        joined_chunks(data, chunk_count(data.len())) == data,
{
    lemma_chunks_join(data);
    lemma_ingest_keeps_readable(tree, root, data, chunk_count(data.len()));
    lemma_chunk_len(data, k);
    let after = ingest(tree, root, data, chunk_count(data.len())).tree;
    assert(after.contains_key(block_path(root, block_hash(chunk(data, k)))));
}

/// While the blocks of content are stored, each block that is stored can
/// be read back, and each file under the name of a block of the content is
/// that block.
proof fn lemma_ingest_keeps_readable(tree: Tree, root: Seq<char>, data: Seq<u8>, upto: nat)
    requires
        is_storable_in(tree, root, data),
        upto <= chunk_count(data.len()),
    ensures
        forall|i: int|
            0 <= i < upto ==> ingest(tree, root, data, upto).tree.contains_key(
                block_path(root, #[trigger] block_hash(chunk(data, i))),
            ),
        forall|i: int|
            0 <= i < chunk_count(data.len()) && ingest(tree, root, data, upto).tree.contains_key(
                block_path(root, #[trigger] block_hash(chunk(data, i))),
            ) ==> block_content(
                ingest(tree, root, data, upto).tree,
                root,
                block_hash(chunk(data, i)),
            ) == Some(chunk(data, i)),
    decreases upto,
{
    if upto > 0 {
        lemma_ingest_keeps_readable(tree, root, data, (upto - 1) as nat);
        let before = ingest(tree, root, data, (upto - 1) as nat).tree;
        let after = ingest(tree, root, data, upto).tree;
        let block = chunk(data, upto - 1);
        let hash = block_hash(block);
        let bp = block_path(root, hash);
        lemma_block_paths(root, hash);
        assert(is_block_hash(hash) && round_trips(block));
        if before.contains_key(bp) {
            assert(after == before);
        } else {
            assert(after == stored(before, root, block));
            lemma_stored_block_reads_back(before, root, block);
            assert forall|i: int|
                0 <= i < chunk_count(data.len()) && after.contains_key(
                    block_path(root, #[trigger] block_hash(chunk(data, i))),
                ) implies block_content(after, root, block_hash(chunk(data, i))) == Some(
                chunk(data, i),
            ) by {
                let other = block_hash(chunk(data, i));
                let op = block_path(root, other);
                lemma_block_paths(root, other);
                lemma_stored_keeps(before, root, block, op);
                if op == bp {
                    assert(path_tail(op) == path_tail(bp));
                    assert(other == hash);
                } else {
                    assert(op != shard_path(root, hash)) by {
                        assert(path_tail(op).len() == 128);
                        assert(path_tail(shard_path(root, hash)).len() == 3);
                    }
                    assert(before.contains_key(op));
                }
            }
            assert forall|i: int| 0 <= i < upto implies after.contains_key(
                block_path(root, #[trigger] block_hash(chunk(data, i))),
            ) by {
                if i < upto - 1 {
                    lemma_stored_keeps(before, root, block, block_path(root, block_hash(chunk(data, i))));
                }
            }
        }
    }
}

} // verus!
