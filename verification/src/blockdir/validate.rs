//! Checking that every block can be read and has the hash that names it.

use vstd::prelude::*;
use crate::blockdir::listing::{
    are_block_files, distinct_paths, has_all_block_files, has_block_name, have_block_names,
    is_block_file, is_well_laid, lemma_new_dir_has_no_blocks, lemma_stored_block_files, listed_in,
};
use crate::blockdir::{
    block_content, block_path, fetch_error, lemma_block_paths, lemma_stored_keeps, shard_path,
    stored, AddressView, BlockDir, ValidateBlockDirStats, SUBDIR_NAME_CHARS,
};
use crate::compress::round_trips;
use crate::errors::{StoreError, StoreErrorView};
use crate::hash::{block_hash, hash_bytes, is_block_hash};
use crate::paths::path_tail;
use crate::text::str_eq;
use crate::transport::{is_dir_at, TransportEntry, TransportRead, Tree};

verus! {

/// True if the block called `hash` can be read and its content has that hash.
pub open spec fn is_sound_block(tree: Tree, root: Seq<char>, hash: Seq<char>) -> bool {
    block_content(tree, root, hash) matches Some(plain) && block_hash(plain) == hash
}

/// True if the block called `hash` can be read and its content has another hash.
pub open spec fn is_wrong_block(tree: Tree, root: Seq<char>, hash: Seq<char>) -> bool {
    block_content(tree, root, hash) matches Some(plain) && block_hash(plain) != hash
}

/// The files of the blocks whose content does not have the hash that the
/// file's name gives.
pub open spec fn wrong_block_files(tree: Tree, root: Seq<char>) -> Set<Seq<char>> {
    Set::new(
        |path: Seq<char>| is_block_file(tree, root, path) && is_wrong_block(tree, root, path_tail(path)),
    )
}

/// The files of the blocks that cannot be read under their name, or do not
/// hold compressed data.
pub open spec fn unreadable_block_files(tree: Tree, root: Seq<char>) -> Set<Seq<char>> {
    Set::new(
        |path: Seq<char>|
            is_block_file(tree, root, path) && block_content(tree, root, path_tail(path)) is None,
    )
}

/// Whether `plain`, read from the file at `path`, is the content of the
/// block called `hash`: its hash must be that name.
pub fn check_block_hash(hash: &str, plain: &[u8], path: String) -> (r: Result<(), StoreError>)
    ensures
        r is Ok <==> block_hash(plain@) == hash@,
        r is Err ==> r->Err_0@ == (StoreErrorView::BlockCorrupt {
            path: path@,
            actual_hash: block_hash(plain@),
        }),
{
    let actual_hash = hash_bytes(plain);
    if str_eq(actual_hash.as_str(), hash) {
        Ok(())
    } else {
        Err(StoreError::BlockCorrupt { path, actual_hash })
    }
}

/// Counts what the check of one block gave: a block with a wrong hash as
/// such, and any other failure as a block that could not be read.
pub fn count_block_check(stats: &mut ValidateBlockDirStats, checked: &Result<(), StoreError>)
    requires
        old(stats).block_hash_wrong < u64::MAX,
        old(stats).block_decompression_failed < u64::MAX,
    ensures
        final(stats).block_hash_wrong == old(stats).block_hash_wrong + if checked is Err
            && checked->Err_0@ is BlockCorrupt {
            1int
        } else {
            0int
        },
        final(stats).block_decompression_failed == old(stats).block_decompression_failed
            + if checked is Err && !(checked->Err_0@ is BlockCorrupt) {
            1int
        } else {
            0int
        },
{
    match checked {
        Ok(()) => {},
        Err(StoreError::BlockCorrupt { .. }) => {
            stats.block_hash_wrong = stats.block_hash_wrong + 1;
        },
        Err(_) => {
            stats.block_decompression_failed = stats.block_decompression_failed + 1;
        },
    }
}

impl ValidateBlockDirStats {
    /// The counts of two checks taken together.
    pub open spec fn sum(self, other: ValidateBlockDirStats) -> ValidateBlockDirStats {
        ValidateBlockDirStats {
            block_hash_wrong: (self.block_hash_wrong + other.block_hash_wrong) as u64,
            block_decompression_failed: (self.block_decompression_failed
                + other.block_decompression_failed) as u64,
        }
    }

    /// Takes the counts of two checks together, as when the blocks were
    /// shared out between them.
    pub fn merge(self, other: ValidateBlockDirStats) -> (total: ValidateBlockDirStats)
        requires
            self.block_hash_wrong + other.block_hash_wrong <= u64::MAX,
            self.block_decompression_failed + other.block_decompression_failed <= u64::MAX,
        ensures
            total == self.sum(other),
    {
        ValidateBlockDirStats {
            block_hash_wrong: self.block_hash_wrong + other.block_hash_wrong,
            block_decompression_failed: self.block_decompression_failed
                + other.block_decompression_failed,
        }
    }

    /// In which order counts are taken together makes no difference.
    pub proof fn lemma_sum_any_order(
        a: ValidateBlockDirStats,
        b: ValidateBlockDirStats,
        c: ValidateBlockDirStats,
    )
        requires
            a.block_hash_wrong + b.block_hash_wrong + c.block_hash_wrong <= u64::MAX,
            a.block_decompression_failed + b.block_decompression_failed
                + c.block_decompression_failed <= u64::MAX,
        ensures
            a.sum(b) == b.sum(a),
            a.sum(b).sum(c) == a.sum(b.sum(c)),
    {
    }
}

/// What is known after the blocks at the first `upto` of `entries` were
/// checked: `seen_wrong` and `seen_unreadable` hold the files that were
/// counted.
spec fn checked_so_far(
    tree: Tree,
    root: Seq<char>,
    entries: Seq<TransportEntry>,
    upto: int,
    stats: ValidateBlockDirStats,
    seen_wrong: Set<Seq<char>>,
    seen_unreadable: Set<Seq<char>>,
) -> bool {
    &&& seen_wrong.finite()
    &&& seen_unreadable.finite()
    &&& stats.block_hash_wrong == seen_wrong.len()
    &&& stats.block_decompression_failed == seen_unreadable.len()
    &&& stats.block_hash_wrong + stats.block_decompression_failed <= upto
    &&& forall|path: Seq<char>| #[trigger]
        seen_wrong.contains(path) ==> listed_in(entries.take(upto), path) && is_wrong_block(
            tree,
            root,
            path_tail(path),
        )
    &&& forall|path: Seq<char>| #[trigger]
        seen_unreadable.contains(path) ==> listed_in(entries.take(upto), path)
    &&& forall|k: int|
        0 <= k < upto ==> {
            &&& is_wrong_block(tree, root, path_tail((#[trigger] entries[k])@.relpath))
                ==> seen_wrong.contains(entries[k]@.relpath)
            &&& block_content(tree, root, path_tail(entries[k]@.relpath)) is None
                <==> seen_unreadable.contains(entries[k]@.relpath)
        }
}

/// Checking one more block keeps the count in step with the files counted.
proof fn lemma_checked_one(
    tree: Tree,
    root: Seq<char>,
    entries: Seq<TransportEntry>,
    upto: int,
    stats: ValidateBlockDirStats,
    seen_wrong: Set<Seq<char>>,
    seen_unreadable: Set<Seq<char>>,
    corrupt: bool,
    failed: bool,
) -> (seen: (Set<Seq<char>>, Set<Seq<char>>))
    requires
        0 <= upto < entries.len() <= usize::MAX,
        distinct_paths(entries),
        checked_so_far(tree, root, entries, upto, stats, seen_wrong, seen_unreadable),
        corrupt <==> is_wrong_block(tree, root, path_tail(entries[upto]@.relpath)),
        failed <==> block_content(tree, root, path_tail(entries[upto]@.relpath)) is None,
    ensures
        checked_so_far(
            tree,
            root,
            entries,
            upto + 1,
            ValidateBlockDirStats {
                block_hash_wrong: (stats.block_hash_wrong + if corrupt {
                    1int
                } else {
                    0int
                }) as u64,
                block_decompression_failed: (stats.block_decompression_failed + if failed {
                    1int
                } else {
                    0int
                }) as u64,
            },
            seen.0,
            seen.1,
        ),
        stats.block_hash_wrong + stats.block_decompression_failed + 1 <= entries.len(),
{
    let path = entries[upto]@.relpath;
    let before = entries.take(upto);
    let now = entries.take(upto + 1);
    assert(now[upto]@.relpath == path);
    assert forall|other: Seq<char>| listed_in(before, other) implies listed_in(now, other) && other
        != path by {
        let k = choose|k: int| 0 <= k < before.len() && (#[trigger] before[k])@.relpath == other;
        assert(now[k]@.relpath == other);
        assert(entries[k]@.relpath != entries[upto]@.relpath);
    }
    assert(listed_in(now, path));
    let wrong2 = if corrupt {
        seen_wrong.insert(path)
    } else {
        seen_wrong
    };
    let unreadable2 = if failed {
        seen_unreadable.insert(path)
    } else {
        seen_unreadable
    };
    assert(!seen_wrong.contains(path)) by {
        if seen_wrong.contains(path) {
            assert(listed_in(before, path));
        }
    }
    assert(!seen_unreadable.contains(path)) by {
        if seen_unreadable.contains(path) {
            assert(listed_in(before, path));
        }
    }
    {
        assert forall|k: int| 0 <= k < upto + 1 implies {
            &&& is_wrong_block(tree, root, path_tail((#[trigger] entries[k])@.relpath))
                ==> wrong2.contains(entries[k]@.relpath)
            &&& block_content(tree, root, path_tail(entries[k]@.relpath)) is None
                <==> unreadable2.contains(entries[k]@.relpath)
        } by {
            if k < upto {
                assert(entries[k]@.relpath != entries[upto]@.relpath);
            }
        }
    }
    let stats2 = ValidateBlockDirStats {
        block_hash_wrong: (stats.block_hash_wrong + if corrupt {
            1int
        } else {
            0int
        }) as u64,
        block_decompression_failed: (stats.block_decompression_failed + if failed {
            1int
        } else {
            0int
        }) as u64,
    };
    assert(wrong2.finite() && unreadable2.finite());
    assert(stats2.block_hash_wrong == wrong2.len());
    assert(stats2.block_decompression_failed == unreadable2.len());
    assert(stats2.block_hash_wrong + stats2.block_decompression_failed <= upto + 1);
    assert forall|other: Seq<char>| #[trigger] wrong2.contains(other) implies listed_in(now, other)
        && is_wrong_block(tree, root, path_tail(other)) by {
        if other != path {
            assert(seen_wrong.contains(other));
            assert(listed_in(before, other));
        }
    }
    assert forall|other: Seq<char>| #[trigger] unreadable2.contains(other) implies listed_in(
        now,
        other,
    ) by {
        if other != path {
            assert(seen_unreadable.contains(other));
            assert(listed_in(before, other));
        }
    }
    (wrong2, unreadable2)
}

/// When every block was checked and none was passed over, the files counted
/// are the wrong and the unreadable ones among all.
proof fn lemma_checked_all(
    tree: Tree,
    root: Seq<char>,
    entries: Seq<TransportEntry>,
    stats: ValidateBlockDirStats,
    seen_wrong: Set<Seq<char>>,
    seen_unreadable: Set<Seq<char>>,
)
    requires
        are_block_files(tree, root, entries),
        has_all_block_files(tree, root, entries),
        checked_so_far(
            tree,
            root,
            entries,
            entries.len() as int,
            stats,
            seen_wrong,
            seen_unreadable,
        ),
    ensures
        wrong_block_files(tree, root).finite(),
        unreadable_block_files(tree, root).finite(),
        stats.block_hash_wrong == wrong_block_files(tree, root).len(),
        stats.block_decompression_failed == unreadable_block_files(tree, root).len(),
{
    assert(entries.take(entries.len() as int) =~= entries);
    assert forall|path: Seq<char>| seen_wrong.contains(path) <==> wrong_block_files(
        tree,
        root,
    ).contains(path) by {
        if seen_wrong.contains(path) {
            let k = choose|k: int| 0 <= k < entries.len() && (#[trigger] entries[k])@.relpath == path;
        }
        if wrong_block_files(tree, root).contains(path) {
            assert(listed_in(entries, path));
            let k = choose|k: int| 0 <= k < entries.len() && (#[trigger] entries[k])@.relpath == path;
        }
    }
    assert(seen_wrong =~= wrong_block_files(tree, root));
    assert forall|path: Seq<char>| seen_unreadable.contains(path) <==> unreadable_block_files(
        tree,
        root,
    ).contains(path) by {
        if seen_unreadable.contains(path) {
            let k = choose|k: int| 0 <= k < entries.len() && (#[trigger] entries[k])@.relpath == path;
            assert(block_content(tree, root, path_tail(entries[k]@.relpath)) is None);
        }
        if unreadable_block_files(tree, root).contains(path) {
            assert(listed_in(entries, path));
            let k = choose|k: int| 0 <= k < entries.len() && (#[trigger] entries[k])@.relpath == path;
        }
    }
    assert(seen_unreadable =~= unreadable_block_files(tree, root));
}

impl<T: TransportRead> BlockDir<T> {
    /// Checks that the block called `hash` can be read and that its content
    /// has that hash.
    pub fn validate_block(&self, hash: &str) -> (r: Result<(), StoreError>)
        requires
            hash@.len() >= SUBDIR_NAME_CHARS,
        ensures
            r matches Err(e) ==> match e@ {
                StoreErrorView::BlockCorrupt { path, actual_hash } => path == block_path(
                    self.path@,
                    hash@,
                ) && actual_hash != hash@,
                StoreErrorView::ReadBlock { path } => path == block_path(self.path@, hash@),
                StoreErrorView::Decompress { path } => path == block_path(self.path@, hash@),
                _ => false,
            },
            self.transport.faultless() ==> match block_content(
                self.transport.tree(),
                self.path@,
                hash@,
            ) {
                Some(plain) => if block_hash(plain) == hash@ {
                    r is Ok
                } else {
                    r matches Err(e) && e@ == (StoreErrorView::BlockCorrupt {
                        path: block_path(self.path@, hash@),
                        actual_hash: block_hash(plain),
                    })
                },
                None => r matches Err(e) && e@ == fetch_error(
                    self.transport.tree(),
                    self.path@,
                    AddressView { hash: hash@, start: 0, len: 0 },
                ),
            },
    {
        let (decompressed_bytes, _sizes) = match self.get_block_content(hash) {
            Ok(found) => found,
            Err(e) => {
                return Err(e);
            },
        };
        let path = self.path_for_file(hash);
        check_block_hash(hash, decompressed_bytes.as_slice(), path)
    }

    /// Check format invariants of the BlockDir: that every block can be read
    /// and has the hash that its name gives.
    ///
    /// Blocks that fail the check are counted, not reported as an error: a
    /// block whose content has another hash as one with a wrong hash, and a
    /// block that cannot be read or decompressed as one that failed.
    pub fn validate(&self) -> (r: Result<ValidateBlockDirStats, StoreError>)
        ensures
            r matches Err(e) ==> e@ == (StoreErrorView::ListBlocks { path: self.path@ }),
            self.transport.faultless() ==> match r {
                Ok(stats) => {
                    &&& is_dir_at(self.transport.tree(), self.path@)
                    &&& wrong_block_files(self.transport.tree(), self.path@).finite()
                    &&& unreadable_block_files(self.transport.tree(), self.path@).finite()
                    &&& stats.block_hash_wrong == wrong_block_files(
                        self.transport.tree(),
                        self.path@,
                    ).len()
                    &&& stats.block_decompression_failed == unreadable_block_files(
                        self.transport.tree(),
                        self.path@,
                    ).len()
                    &&& all_sound(self.transport.tree(), self.path@) <==> stats.block_hash_wrong == 0
                        && stats.block_decompression_failed == 0
                },
                Err(_) => !is_dir_at(self.transport.tree(), self.path@),
            },
    {
        let mut stats = ValidateBlockDirStats { block_hash_wrong: 0, block_decompression_failed: 0 };
        let entries = match self.block_dir_entries() {
            Ok(entries) => entries,
            Err(e) => {
                return Err(e);
            },
        };
        let ghost tree = self.transport.tree();
        let ghost root = self.path@;
        let ghost exact = self.transport.faultless();
        let ghost mut seen_wrong: Set<Seq<char>> = Set::empty();
        let ghost mut seen_unreadable: Set<Seq<char>> = Set::empty();
        let mut i: usize = 0;
        while i < entries.len()
            invariant
                i <= entries@.len(),
                tree == self.transport.tree(),
                root == self.path@,
                exact == self.transport.faultless(),
                have_block_names(entries@),
                stats.block_hash_wrong + stats.block_decompression_failed <= i,
                exact ==> are_block_files(tree, root, entries@),
                exact ==> checked_so_far(
                    tree,
                    root,
                    entries@,
                    i as int,
                    stats,
                    seen_wrong,
                    seen_unreadable,
                ),
            decreases entries.len() - i,
        {
            let name = entries[i].name_tail();
            assert(has_block_name(entries@[i as int]@));
            let checked = self.validate_block(name);
            let ghost corrupt = checked is Err && checked->Err_0@ is BlockCorrupt;
            let ghost failed = checked is Err && !(checked->Err_0@ is BlockCorrupt);
            proof {
                if exact {
                    let seen = lemma_checked_one(
                        tree,
                        root,
                        entries@,
                        i as int,
                        stats,
                        seen_wrong,
                        seen_unreadable,
                        corrupt,
                        failed,
                    );
                    seen_wrong = seen.0;
                    seen_unreadable = seen.1;
                }
            }
            count_block_check(&mut stats, &checked);
            i += 1;
        }
        proof {
            if exact {
                lemma_checked_all(tree, root, entries@, stats, seen_wrong, seen_unreadable);
                if all_sound(tree, root) {
                    lemma_sound_dir_counts_nothing(tree, root);
                }
                if stats.block_hash_wrong == 0 && stats.block_decompression_failed == 0 {
                    lemma_counts_nothing_is_sound(tree, root);
                }
            }
        }
        Ok(stats)
    }
}

/// True if every block in the block directory at `root` can be read and has
/// the hash that its name gives.
pub open spec fn all_sound(tree: Tree, root: Seq<char>) -> bool {
    forall|path: Seq<char>| #[trigger]
        is_block_file(tree, root, path) ==> is_sound_block(tree, root, path_tail(path))
}

/// In a block directory whose blocks are all sound, no file is a wrong or
/// an unreadable block, so a check counts none.
pub proof fn lemma_sound_dir_counts_nothing(tree: Tree, root: Seq<char>)
    requires
        all_sound(tree, root),
    ensures
        wrong_block_files(tree, root) == Set::<Seq<char>>::empty(),
        unreadable_block_files(tree, root) == Set::<Seq<char>>::empty(),
        wrong_block_files(tree, root).len() == 0,
        unreadable_block_files(tree, root).len() == 0,
{
    assert(wrong_block_files(tree, root) =~= Set::<Seq<char>>::empty());
    assert(unreadable_block_files(tree, root) =~= Set::<Seq<char>>::empty());
}

/// Where no file is a wrong or an unreadable block, every block is sound.
pub proof fn lemma_counts_nothing_is_sound(tree: Tree, root: Seq<char>)
    requires
        wrong_block_files(tree, root).finite(),
        unreadable_block_files(tree, root).finite(),
        wrong_block_files(tree, root).len() == 0,
        unreadable_block_files(tree, root).len() == 0,
    ensures
        all_sound(tree, root),
{
    assert forall|path: Seq<char>| #[trigger] is_block_file(tree, root, path) implies is_sound_block(
        tree,
        root,
        path_tail(path),
    ) by {
        if !is_sound_block(tree, root, path_tail(path)) {
            if block_content(tree, root, path_tail(path)) is None {
                lemma_unreadable_block_is_counted(tree, root, path);
            } else {
                lemma_wrong_block_is_counted(tree, root, path);
            }
        }
    }
}

/// A block whose content has another hash than its name gives is counted:
/// the wrong blocks are then at least one.
pub proof fn lemma_wrong_block_is_counted(tree: Tree, root: Seq<char>, path: Seq<char>)
    requires
        wrong_block_files(tree, root).finite(),
        is_block_file(tree, root, path),
        is_wrong_block(tree, root, path_tail(path)),
    ensures
        wrong_block_files(tree, root).len() >= 1,
{
    assert(wrong_block_files(tree, root).contains(path));
    if wrong_block_files(tree, root).len() == 0 {
        assert(wrong_block_files(tree, root) =~= Set::<Seq<char>>::empty());
    }
}

/// A block that cannot be read or decompressed is counted: the unreadable
/// blocks are then at least one.
pub proof fn lemma_unreadable_block_is_counted(tree: Tree, root: Seq<char>, path: Seq<char>)
    requires
        unreadable_block_files(tree, root).finite(),
        is_block_file(tree, root, path),
        block_content(tree, root, path_tail(path)) is None,
    ensures
        unreadable_block_files(tree, root).len() >= 1,
{
    assert(unreadable_block_files(tree, root).contains(path));
    if unreadable_block_files(tree, root).len() == 0 {
        assert(unreadable_block_files(tree, root) =~= Set::<Seq<char>>::empty());
    }
}

/// True if the block directory at `root` is a valid one: it is well laid
/// out, and every block in it can be read and has the hash that its name
/// gives.
pub open spec fn is_valid_dir(tree: Tree, root: Seq<char>) -> bool {
    is_well_laid(tree, root) && all_sound(tree, root)
}

/// A block directory that holds nothing, or nothing but its own directory,
/// is a valid one.
pub proof fn lemma_new_dir_is_valid(tree: Tree, root: Seq<char>)
    requires
        forall|path: Seq<char>| tree.contains_key(path) ==> path == root,
    ensures
        is_valid_dir(tree, root),
{
    lemma_new_dir_has_no_blocks(tree, root);
}

/// Storing a block keeps a block directory valid. The block's data must be
/// data that decompresses to itself, unless a file of the block's name is
/// there already and nothing is written.
pub proof fn lemma_stored_keeps_sound(tree: Tree, root: Seq<char>, data: Seq<u8>)
    requires
        is_valid_dir(tree, root),
        is_block_hash(block_hash(data)),
        tree.contains_key(block_path(root, block_hash(data))) || round_trips(data),
    ensures
        is_valid_dir(stored(tree, root, data), root),
{
    let hash = block_hash(data);
    let after = stored(tree, root, data);
    let bp = block_path(root, hash);
    lemma_stored_block_files(tree, root, data);
    lemma_block_paths(root, hash);
    assert forall|path: Seq<char>| #[trigger] is_block_file(after, root, path) implies is_sound_block(
        after,
        root,
        path_tail(path),
    ) by {
        let name = path_tail(path);
        if is_block_file(tree, root, path) {
            assert(is_sound_block(tree, root, name));
            lemma_stored_keeps(tree, root, data, block_path(root, name));
        } else {
            assert(path == bp);
            lemma_stored_keeps(tree, root, data, bp);
            if tree.contains_key(bp) {
                assert(is_block_file(after, root, bp));
                assert(tree[bp] == after[bp]);
                lemma_stored_keeps(tree, root, data, shard_path(root, hash));
                assert(is_block_file(tree, root, bp));
            }
        }
    }
}

} // verus!
