//! Listing the blocks of a block directory.
//!
//! Blocks lie in subdirectories whose names have three characters. In such
//! a subdirectory, each regular file with a name of the length of a hash is
//! a block, unless its name begins with `tmp`: that is a file which is still
//! being written.

use vstd::prelude::*;
use vstd::string::StrSliceExecFns;
use vstd::string::StringExecFns;
use crate::blockdir::{
    block_path, lemma_block_paths, lemma_stored_keeps, shard_path, stored, BlockDir, SUBDIR_NAME_CHARS,
};
use crate::errors::{StoreError, StoreErrorView};
use crate::hash::{block_hash, is_block_hash, is_hex_char, BLOCK_HASH_CHARS};
use crate::kind::Kind;
use crate::paths::{
    child_path, is_child, is_name, join_path, lemma_child_of_parent, lemma_child_path, path_parent,
    path_tail,
};
use crate::transport::{
    is_dir_at, is_file_at, is_listing, EntryView, TransportEntry, TransportError, TransportRead, Tree,
};

verus! {

/// True if `name` begins like the name of a file that is still being written.
pub open spec fn has_tmp_prefix(name: Seq<char>) -> bool {
    name.len() >= 3 && name[0] == 't' && name[1] == 'm' && name[2] == 'p'
}

/// True if `name` begins with the prefix of files that are still being written.
pub fn starts_with_tmp(name: &str) -> (r: bool)
    ensures
        r == has_tmp_prefix(name@),
{
    let n = name.unicode_len();
    n >= 3 && name.get_char(0) == 't' && name.get_char(1) == 'm' && name.get_char(2) == 'p'
}

/// True if a directory entry is of the given kind, has a name of
/// `name_chars` characters, and, where `skip_tmp` is set, is no file that is
/// still being written.
pub open spec fn wanted(entry: EntryView, kind: Kind, name_chars: nat, skip_tmp: bool) -> bool {
    &&& entry.kind == kind
    &&& path_tail(entry.relpath).len() == name_chars
    &&& skip_tmp ==> !has_tmp_prefix(path_tail(entry.relpath))
}

/// True if no two of `entries` have the same path.
pub open spec fn distinct_paths(entries: Seq<TransportEntry>) -> bool {
    forall|i: int, j: int|
        0 <= i < j < entries.len() ==> (#[trigger] entries[i])@.relpath != (#[trigger] entries[j])@.relpath
}

/// True if `chosen` holds the wanted ones among `all`, and only them.
pub open spec fn is_selection(
    all: Seq<TransportEntry>,
    chosen: Seq<TransportEntry>,
    kind: Kind,
    name_chars: nat,
    skip_tmp: bool,
) -> bool {
    &&& forall|k: int|
        0 <= k < chosen.len() ==> wanted((#[trigger] chosen[k])@, kind, name_chars, skip_tmp)
            && exists|i: int| 0 <= i < all.len() && (#[trigger] all[i])@ == chosen[k]@
    &&& forall|i: int|
        0 <= i < all.len() && wanted((#[trigger] all[i])@, kind, name_chars, skip_tmp) ==> exists|
            k: int,
        |
            0 <= k < chosen.len() && (#[trigger] chosen[k])@ == all[i]@
    &&& distinct_paths(all) ==> distinct_paths(chosen)
}

/// What holds of the entries chosen so far, when those before index `upto`
/// have been looked at: `origin` gives for each the index it was taken from.
spec fn chosen_so_far(
    all: Seq<TransportEntry>,
    chosen: Seq<TransportEntry>,
    origin: Seq<int>,
    upto: int,
    kind: Kind,
    name_chars: nat,
    skip_tmp: bool,
) -> bool {
    &&& origin.len() == chosen.len()
    &&& forall|k: int|
        0 <= k < origin.len() ==> {
            &&& 0 <= #[trigger] origin[k] < upto
            &&& chosen[k]@ == all[origin[k]]@
            &&& wanted(all[origin[k]]@, kind, name_chars, skip_tmp)
        }
    &&& forall|k: int, m: int| 0 <= k < m < origin.len() ==> #[trigger] origin[k] < #[trigger] origin[m]
    &&& forall|i: int|
        0 <= i < upto && wanted((#[trigger] all[i])@, kind, name_chars, skip_tmp) ==> origin.contains(i)
}

/// Choosing the entry at index `upto` keeps what holds of the entries chosen.
proof fn lemma_chosen_push(
    all: Seq<TransportEntry>,
    chosen: Seq<TransportEntry>,
    origin: Seq<int>,
    upto: int,
    kind: Kind,
    name_chars: nat,
    skip_tmp: bool,
    entry: TransportEntry,
)
    requires
        chosen_so_far(all, chosen, origin, upto, kind, name_chars, skip_tmp),
        0 <= upto < all.len(),
        wanted(all[upto]@, kind, name_chars, skip_tmp),
        entry@ == all[upto]@,
    ensures
        chosen_so_far(all, chosen.push(entry), origin.push(upto), upto + 1, kind, name_chars, skip_tmp),
{
    let origin2 = origin.push(upto);
    assert forall|i: int|
        0 <= i < upto + 1 && wanted((#[trigger] all[i])@, kind, name_chars, skip_tmp) implies origin2.contains(
        i,
    ) by {
        if i < upto {
            let k = origin.index_of(i);
            assert(origin2[k] == i);
        } else {
            assert(origin2[origin.len() as int] == i);
        }
    }
}

/// When all entries have been looked at, those chosen are the selection.
proof fn lemma_chosen_all(
    all: Seq<TransportEntry>,
    chosen: Seq<TransportEntry>,
    origin: Seq<int>,
    kind: Kind,
    name_chars: nat,
    skip_tmp: bool,
)
    requires
        chosen_so_far(all, chosen, origin, all.len() as int, kind, name_chars, skip_tmp),
    ensures
        is_selection(all, chosen, kind, name_chars, skip_tmp),
{
    assert forall|k: int| 0 <= k < chosen.len() implies wanted(
        (#[trigger] chosen[k])@,
        kind,
        name_chars,
        skip_tmp,
    ) && exists|i: int| 0 <= i < all.len() && (#[trigger] all[i])@ == chosen[k]@ by {
        assert(all[origin[k]]@ == chosen[k]@);
    }
    assert forall|i: int|
        0 <= i < all.len() && wanted((#[trigger] all[i])@, kind, name_chars, skip_tmp) implies exists|
        k: int,
    |
        0 <= k < chosen.len() && (#[trigger] chosen[k])@ == all[i]@ by {
        let k = origin.index_of(i);
        assert(chosen[k]@ == all[i]@);
    }
    if distinct_paths(all) {
        assert forall|k: int, m: int| 0 <= k < m < chosen.len() implies (#[trigger] chosen[k])@.relpath
            != (#[trigger] chosen[m])@.relpath by {
            assert(origin[k] < origin[m]);
            assert(all[origin[k]]@.relpath != all[origin[m]]@.relpath);
        }
    }
}

/// The entries among `entries` that are of the given kind and have a name of
/// `name_chars` characters, without the files that are still being written
/// where `skip_tmp` is set. They keep their order.
pub fn select_entries(entries: &Vec<TransportEntry>, kind: Kind, name_chars: usize, skip_tmp: bool) -> (chosen:
    Vec<TransportEntry>)
    ensures
        is_selection(entries@, chosen@, kind, name_chars as nat, skip_tmp),
{
    let mut chosen: Vec<TransportEntry> = Vec::new();
    let ghost mut origin: Seq<int> = Seq::empty();
    let mut i: usize = 0;
    while i < entries.len()
        invariant
            i <= entries@.len(),
            chosen_so_far(entries@, chosen@, origin, i as int, kind, name_chars as nat, skip_tmp),
        decreases entries.len() - i,
    {
        let entry = &entries[i];
        let name = entry.name_tail();
        if entry.kind() == kind && name.unicode_len() == name_chars && !(skip_tmp && starts_with_tmp(
            name,
        )) {
            let copy = TransportEntry::new(String::from_str(entry.relpath()), entry.kind());
            proof {
                lemma_chosen_push(
                    entries@,
                    chosen@,
                    origin,
                    i as int,
                    kind,
                    name_chars as nat,
                    skip_tmp,
                    copy,
                );
                origin = origin.push(i as int);
            }
            chosen.push(copy);
        }
        i += 1;
    }
    proof {
        lemma_chosen_all(entries@, chosen@, origin, kind, name_chars as nat, skip_tmp);
    }
    chosen
}

/// True if `name` can be the name of a block's file: it has the length of a
/// hash, and is not the name of a file that is still being written.
pub open spec fn is_block_file_name(name: Seq<char>) -> bool {
    name.len() == BLOCK_HASH_CHARS && !has_tmp_prefix(name)
}

/// True if the block directory at `root` has a subdirectory called `name`
/// that may hold blocks: a directory whose name has three characters.
pub open spec fn is_shard_name(tree: Tree, root: Seq<char>, name: Seq<char>) -> bool {
    &&& is_name(name)
    &&& name.len() == SUBDIR_NAME_CHARS
    &&& tree.contains_key(child_path(root, name))
    &&& tree[child_path(root, name)].kind == Kind::Dir
}

/// True if `path` is the file of a block in the block directory at `root`:
/// a regular file with the name of a block, directly in a subdirectory that
/// may hold blocks.
pub open spec fn is_block_file(tree: Tree, root: Seq<char>, path: Seq<char>) -> bool {
    &&& is_file_at(tree, path)
    &&& is_block_file_name(path_tail(path))
    &&& is_child(path_parent(path), path)
    &&& is_child(root, path_parent(path))
    &&& is_shard_name(tree, root, path_tail(path_parent(path)))
}

/// The names of the blocks in the block directory at `root`.
pub open spec fn block_name_set(tree: Tree, root: Seq<char>) -> Set<Seq<char>> {
    Set::new(
        |name: Seq<char>|
            exists|path: Seq<char>| #[trigger] is_block_file(tree, root, path) && path_tail(path) == name,
    )
}

/// True if `names` are the names of the subdirectories of the block
/// directory at `root` that may hold blocks, each once.
pub open spec fn is_shard_list(tree: Tree, root: Seq<char>, names: Seq<String>) -> bool {
    &&& forall|i: int| 0 <= i < names.len() ==> is_shard_name(tree, root, (#[trigger] names[i])@)
    &&& forall|name: Seq<char>| #[trigger]
        is_shard_name(tree, root, name) ==> exists|i: int|
            0 <= i < names.len() && (#[trigger] names[i])@ == name
    &&& forall|i: int, j: int| 0 <= i < j < names.len() ==> (#[trigger] names[i])@ != (#[trigger] names[j])@
}

/// The directories with names of three characters, among a listing of the
/// block directory, are its subdirectories that may hold blocks.
proof fn lemma_shard_list(
    tree: Tree,
    root: Seq<char>,
    listing: Seq<TransportEntry>,
    chosen: Seq<TransportEntry>,
    names: Seq<String>,
)
    requires
        is_listing(tree, root, listing),
        is_selection(listing, chosen, Kind::Dir, SUBDIR_NAME_CHARS as nat, false),
        names.len() == chosen.len(),
        forall|k: int| 0 <= k < names.len() ==> (#[trigger] names[k])@ == path_tail(chosen[k]@.relpath),
    ensures
        is_shard_list(tree, root, names),
{
    assert(distinct_paths(listing));
    assert forall|k: int| 0 <= k < names.len() implies is_shard_name(
        tree,
        root,
        (#[trigger] names[k])@,
    ) by {
        assert(wanted(chosen[k]@, Kind::Dir, SUBDIR_NAME_CHARS as nat, false));
        let i = choose|i: int| 0 <= i < listing.len() && (#[trigger] listing[i])@ == chosen[k]@;
        assert(is_child(root, listing[i]@.relpath));
    }
    assert forall|name: Seq<char>| #[trigger] is_shard_name(tree, root, name) implies exists|i: int|
        0 <= i < names.len() && (#[trigger] names[i])@ == name by {
        let path = child_path(root, name);
        lemma_child_path(root, name);
        assert(tree.contains_key(path) && is_child(root, path));
        let i = choose|i: int| 0 <= i < listing.len() && (#[trigger] listing[i])@.relpath == path;
        assert(wanted(listing[i]@, Kind::Dir, SUBDIR_NAME_CHARS as nat, false));
        let k = choose|k: int| 0 <= k < chosen.len() && (#[trigger] chosen[k])@ == listing[i]@;
        assert(names[k]@ == name);
    }
    assert forall|i: int, j: int| 0 <= i < j < names.len() implies (#[trigger] names[i])@ != (
    #[trigger] names[j])@ by {
        assert(chosen[i]@.relpath != chosen[j]@.relpath);
        let a = choose|a: int| 0 <= a < listing.len() && (#[trigger] listing[a])@ == chosen[i]@;
        let b = choose|b: int| 0 <= b < listing.len() && (#[trigger] listing[b])@ == chosen[j]@;
        assert(is_child(root, listing[a]@.relpath));
        assert(is_child(root, listing[b]@.relpath));
    }
}

/// The wanted files among a listing of one subdirectory are the files of
/// the blocks in it.
proof fn lemma_shard_blocks(
    tree: Tree,
    root: Seq<char>,
    name: Seq<char>,
    listing: Seq<TransportEntry>,
    chosen: Seq<TransportEntry>,
)
    requires
        is_shard_name(tree, root, name),
        is_listing(tree, child_path(root, name), listing),
        is_selection(listing, chosen, Kind::File, BLOCK_HASH_CHARS as nat, true),
    ensures
        distinct_paths(chosen),
        forall|k: int|
            0 <= k < chosen.len() ==> is_block_file(tree, root, (#[trigger] chosen[k])@.relpath)
                && path_parent(chosen[k]@.relpath) == child_path(root, name),
        forall|path: Seq<char>|
            is_block_file(tree, root, path) && #[trigger] path_parent(path) == child_path(root, name)
                ==> listed_in(chosen, path),
{
    let dir = child_path(root, name);
    lemma_child_path(root, name);
    assert(distinct_paths(listing));
    assert forall|k: int| 0 <= k < chosen.len() implies is_block_file(
        tree,
        root,
        (#[trigger] chosen[k])@.relpath,
    ) && path_parent(chosen[k]@.relpath) == dir by {
        assert(wanted(chosen[k]@, Kind::File, BLOCK_HASH_CHARS as nat, true));
        let i = choose|i: int| 0 <= i < listing.len() && (#[trigger] listing[i])@ == chosen[k]@;
        assert(is_child(dir, listing[i]@.relpath));
        lemma_child_of_parent(dir, chosen[k]@.relpath);
    }
    assert forall|path: Seq<char>|
        is_block_file(tree, root, path) && #[trigger] path_parent(path) == dir implies listed_in(
        chosen,
        path,
    ) by {
        assert(tree.contains_key(path) && is_child(dir, path));
        let i = choose|i: int| 0 <= i < listing.len() && (#[trigger] listing[i])@.relpath == path;
        assert(wanted(listing[i]@, Kind::File, BLOCK_HASH_CHARS as nat, true));
        let k = choose|k: int| 0 <= k < chosen.len() && (#[trigger] chosen[k])@ == listing[i]@;
    }
}

/// True if a directory entry is a regular file with the name of a block.
pub open spec fn has_block_name(entry: EntryView) -> bool {
    wanted(entry, Kind::File, BLOCK_HASH_CHARS as nat, true)
}

/// True if each of `entries` is a regular file with the name of a block.
pub open spec fn have_block_names(entries: Seq<TransportEntry>) -> bool {
    forall|k: int| 0 <= k < entries.len() ==> has_block_name((#[trigger] entries[k])@)
}

/// True if `entries` are files of blocks in the block directory at `root`,
/// each once.
pub open spec fn are_block_files(tree: Tree, root: Seq<char>, entries: Seq<TransportEntry>) -> bool {
    &&& distinct_paths(entries)
    &&& forall|k: int|
        0 <= k < entries.len() ==> is_block_file(tree, root, (#[trigger] entries[k])@.relpath)
}

/// True if the file of every block in the block directory at `root` is
/// among `entries`.
pub open spec fn has_all_block_files(tree: Tree, root: Seq<char>, entries: Seq<TransportEntry>) -> bool {
    forall|path: Seq<char>| #[trigger] is_block_file(tree, root, path) ==> listed_in(entries, path)
}

impl<T: TransportRead> BlockDir<T> {
    /// Return the names of the prefix subdirectories, in arbitrary order.
    ///
    /// A subdirectory whose name does not have three characters holds no
    /// blocks, and is left out.
    pub fn subdirs(&self) -> (r: Result<Vec<String>, TransportError>)
        ensures
            r matches Ok(names) ==> forall|i: int|
                0 <= i < names@.len() ==> (#[trigger] names@[i])@.len() == SUBDIR_NAME_CHARS,
            self.transport.faultless() ==> match r {
                Ok(names) => is_dir_at(self.transport.tree(), self.path@) && is_shard_list(
                    self.transport.tree(),
                    self.path@,
                    names@,
                ),
                Err(_) => !is_dir_at(self.transport.tree(), self.path@),
            },
    {
        let listing = match self.transport.read_dir(self.path.as_str()) {
            Ok(listing) => listing,
            Err(e) => {
                return Err(e);
            },
        };
        let chosen = select_entries(&listing, Kind::Dir, SUBDIR_NAME_CHARS, false);
        let mut names: Vec<String> = Vec::new();
        let mut k: usize = 0;
        while k < chosen.len()
            invariant
                k <= chosen@.len(),
                names@.len() == k,
                forall|m: int|
                    0 <= m < k ==> (#[trigger] names@[m])@ == path_tail(chosen@[m]@.relpath),
            decreases chosen.len() - k,
        {
            names.push(String::from_str(chosen[k].name_tail()));
            k += 1;
        }
        proof {
            assert forall|i: int| 0 <= i < names@.len() implies (#[trigger] names@[i])@.len()
                == SUBDIR_NAME_CHARS by {
                assert(wanted(chosen@[i]@, Kind::Dir, SUBDIR_NAME_CHARS as nat, false));
            }
            if self.transport.faultless() {
                lemma_shard_list(self.transport.tree(), self.path@, listing@, chosen@, names@);
            }
        }
        Ok(names)
    }

    /// Return the directory entries of all the blocks, in arbitrary order.
    ///
    /// A subdirectory that cannot be listed is passed over.
    pub fn block_dir_entries(&self) -> (r: Result<Vec<TransportEntry>, StoreError>)
        ensures
            match r {
                Ok(entries) => have_block_names(entries@),
                Err(e) => e@ == (StoreErrorView::ListBlocks { path: self.path@ }),
            },
            self.transport.faultless() ==> match r {
                Ok(entries) => {
                    &&& is_dir_at(self.transport.tree(), self.path@)
                    &&& are_block_files(self.transport.tree(), self.path@, entries@)
                    &&& has_all_block_files(self.transport.tree(), self.path@, entries@)
                },
                Err(_) => !is_dir_at(self.transport.tree(), self.path@),
            },
    {
        let names = match self.subdirs() {
            Ok(names) => names,
            Err(_) => {
                return Err(StoreError::ListBlocks { path: self.path.clone() });
            },
        };
        let ghost tree = self.transport.tree();
        let ghost root = self.path@;
        let ghost complete = self.transport.faultless();
        let mut found: Vec<TransportEntry> = Vec::new();
        let mut s: usize = 0;
        while s < names.len()
            invariant
                s <= names@.len(),
                tree == self.transport.tree(),
                root == self.path@,
                complete == self.transport.faultless(),
                have_block_names(found@),
                complete ==> is_shard_list(tree, root, names@),
                complete ==> found_so_far(tree, root, names@, s as int, found@),
            decreases names.len() - s,
        {
            let dir = join_path(self.path.as_str(), names[s].as_str());
            proof {
                if complete {
                    lemma_child_path(root, names@[s as int]@);
                }
            }
            match self.transport.read_dir(dir.as_str()) {
                Err(_) => {
                    // A subdirectory that cannot be listed holds no blocks
                    // that can be read.
                },
                Ok(listing) => {
                    let chosen = select_entries(&listing, Kind::File, BLOCK_HASH_CHARS, true);
                    proof {
                        if complete {
                            lemma_shard_blocks(tree, root, names@[s as int]@, listing@, chosen@);
                        }
                    }
                    let ghost before = found@;
                    let mut k: usize = 0;
                    while k < chosen.len()
                        invariant
                            k <= chosen@.len(),
                            found@.len() == before.len() + k,
                            forall|m: int| 0 <= m < before.len() ==> found@[m] == before[m],
                            forall|m: int|
                                0 <= m < k ==> (#[trigger] found@[before.len() + m])@ == chosen@[m]@,
                        decreases chosen.len() - k,
                    {
                        let entry = TransportEntry::new(
                            String::from_str(chosen[k].relpath()),
                            chosen[k].kind(),
                        );
                        found.push(entry);
                        k += 1;
                    }
                    proof {
                        assert forall|m: int| 0 <= m < found@.len() implies has_block_name(
                            (#[trigger] found@[m])@,
                        ) by {
                            if m >= before.len() {
                                assert(found@[before.len() + (m - before.len())]@ == chosen@[m
                                    - before.len()]@);
                            } else {
                                assert(found@[m] == before[m]);
                            }
                        }
                        if complete {
                            lemma_found_more(tree, root, names@, s as int, before, chosen@, found@);
                        }
                    }
                },
            }
            s += 1;
        }
        proof {
            if complete {
                assert forall|path: Seq<char>| #[trigger] is_block_file(tree, root, path) implies exists|
                    k: int,
                |
                    0 <= k < found@.len() && (#[trigger] found@[k])@.relpath == path by {
                    let name = path_tail(path_parent(path));
                    assert(is_shard_name(tree, root, name));
                    let j = choose|j: int| 0 <= j < names@.len() && (#[trigger] names@[j])@ == name;
                    assert(shard_before(root, names@, names@.len() as int, path_parent(path)));
                    assert(listed_in(found@, path));
                }
            }
        }
        Ok(found)
    }
}

/// True if an entry at `path` is among `entries`.
pub open spec fn listed_in(entries: Seq<TransportEntry>, path: Seq<char>) -> bool {
    exists|k: int| 0 <= k < entries.len() && (#[trigger] entries[k])@.relpath == path
}

/// True if `dir` is the path of one of the first `upto` subdirectories named.
spec fn shard_before(root: Seq<char>, names: Seq<String>, upto: int, dir: Seq<char>) -> bool {
    exists|j: int| 0 <= j < upto && child_path(root, (#[trigger] names[j])@) == dir
}

/// What holds of the block files found when the first `upto` subdirectories
/// have been gone through: they are the block files of those subdirectories,
/// each once.
spec fn found_so_far(
    tree: Tree,
    root: Seq<char>,
    names: Seq<String>,
    upto: int,
    found: Seq<TransportEntry>,
) -> bool {
    &&& are_block_files(tree, root, found)
    &&& forall|k: int|
        0 <= k < found.len() ==> shard_before(
            root,
            names,
            upto,
            path_parent((#[trigger] found[k])@.relpath),
        )
    &&& forall|path: Seq<char>| #[trigger]
        is_block_file(tree, root, path) && shard_before(root, names, upto, path_parent(path))
            ==> listed_in(found, path)
}

/// The blocks found in one more subdirectory add to those found before.
proof fn lemma_found_more(
    tree: Tree,
    root: Seq<char>,
    names: Seq<String>,
    s: int,
    before: Seq<TransportEntry>,
    chosen: Seq<TransportEntry>,
    found: Seq<TransportEntry>,
)
    requires
        0 <= s < names.len(),
        is_shard_list(tree, root, names),
        found_so_far(tree, root, names, s, before),
        distinct_paths(chosen),
        forall|k: int|
            0 <= k < chosen.len() ==> is_block_file(tree, root, (#[trigger] chosen[k])@.relpath)
                && path_parent(chosen[k]@.relpath) == child_path(root, names[s]@),
        forall|path: Seq<char>|
            is_block_file(tree, root, path) && #[trigger] path_parent(path) == child_path(
                root,
                names[s]@,
            ) ==> listed_in(chosen, path),
        found.len() == before.len() + chosen.len(),
        forall|m: int| 0 <= m < before.len() ==> found[m] == before[m],
        forall|m: int| 0 <= m < chosen.len() ==> (#[trigger] found[before.len() + m])@ == chosen[m]@,
    ensures
        found_so_far(tree, root, names, s + 1, found),
{
    let here = child_path(root, names[s]@);
    assert(shard_before(root, names, s + 1, here));
    assert forall|k: int| 0 <= k < found.len() implies is_block_file(
        tree,
        root,
        (#[trigger] found[k])@.relpath,
    ) && shard_before(root, names, s + 1, path_parent(found[k]@.relpath)) by {
        if k >= before.len() {
            assert(found[before.len() + (k - before.len())]@ == chosen[k - before.len()]@);
        } else {
            let dir = path_parent(before[k]@.relpath);
            assert(shard_before(root, names, s, dir));
            let j = choose|j: int| 0 <= j < s && child_path(root, (#[trigger] names[j])@) == dir;
            assert(shard_before(root, names, s + 1, dir));
        }
    }
    assert forall|a: int, b: int| 0 <= a < b < found.len() implies (#[trigger] found[a])@.relpath != (
    #[trigger] found[b])@.relpath by {
        if b < before.len() {
        } else if a >= before.len() {
            assert(found[before.len() + (a - before.len())]@ == chosen[a - before.len()]@);
            assert(found[before.len() + (b - before.len())]@ == chosen[b - before.len()]@);
        } else {
            assert(found[before.len() + (b - before.len())]@ == chosen[b - before.len()]@);
            let dir = path_parent(before[a]@.relpath);
            assert(shard_before(root, names, s, dir));
            let j = choose|j: int| 0 <= j < s && child_path(root, (#[trigger] names[j])@) == dir;
            assert(names[j]@ != names[s]@);
            lemma_child_path(root, names[j]@);
            lemma_child_path(root, names[s]@);
        }
    }
    {
        assert forall|path: Seq<char>| #[trigger]
            is_block_file(tree, root, path) && shard_before(
                root,
                names,
                s + 1,
                path_parent(path),
            ) implies listed_in(found, path) by {
            let dir = path_parent(path);
            let j = choose|j: int| 0 <= j < s + 1 && child_path(root, (#[trigger] names[j])@) == dir;
            if j < s {
                assert(shard_before(root, names, s, dir));
                assert(listed_in(before, path));
                let k = choose|k: int| 0 <= k < before.len() && (#[trigger] before[k])@.relpath == path;
                assert(found[k]@.relpath == path);
            } else {
                assert(listed_in(chosen, path));
                let k = choose|k: int| 0 <= k < chosen.len() && (#[trigger] chosen[k])@.relpath == path;
                assert(found[before.len() + k]@.relpath == path);
            }
        }
    }
}

/// True if each of `names` is the name of a block in the block directory at `root`.
pub open spec fn are_block_names(tree: Tree, root: Seq<char>, names: Seq<String>) -> bool {
    forall|i: int| 0 <= i < names.len() ==> block_name_set(tree, root).contains((#[trigger] names[i])@)
}

/// True if `name` is among `names`.
pub open spec fn named_in(names: Seq<String>, name: Seq<char>) -> bool {
    exists|i: int| 0 <= i < names.len() && (#[trigger] names[i])@ == name
}

/// True if the name of every block in the block directory at `root` is
/// among `names`.
pub open spec fn has_all_block_names(tree: Tree, root: Seq<char>, names: Seq<String>) -> bool {
    forall|name: Seq<char>| #[trigger]
        block_name_set(tree, root).contains(name) ==> named_in(names, name)
}

impl<T: TransportRead> BlockDir<T> {
    /// Return all the blocknames in the blockdir, in arbitrary order.
    pub fn block_names(&self) -> (r: Result<Vec<String>, StoreError>)
        ensures
            match r {
                Ok(names) => forall|i: int|
                    0 <= i < names@.len() ==> is_block_file_name((#[trigger] names@[i])@),
                Err(e) => e@ == (StoreErrorView::ListBlocks { path: self.path@ }),
            },
            self.transport.faultless() ==> match r {
                Ok(names) => {
                    &&& is_dir_at(self.transport.tree(), self.path@)
                    &&& are_block_names(self.transport.tree(), self.path@, names@)
                    &&& has_all_block_names(self.transport.tree(), self.path@, names@)
                },
                Err(_) => !is_dir_at(self.transport.tree(), self.path@),
            },
    {
        let entries = match self.block_dir_entries() {
            Ok(entries) => entries,
            Err(e) => {
                return Err(e);
            },
        };
        let mut names: Vec<String> = Vec::new();
        let mut k: usize = 0;
        while k < entries.len()
            invariant
                k <= entries@.len(),
                names@.len() == k,
                forall|m: int|
                    0 <= m < k ==> (#[trigger] names@[m])@ == path_tail(entries@[m]@.relpath),
            decreases entries.len() - k,
        {
            names.push(String::from_str(entries[k].name_tail()));
            k += 1;
        }
        proof {
            let tree = self.transport.tree();
            let root = self.path@;
            assert forall|i: int| 0 <= i < names@.len() implies is_block_file_name(
                (#[trigger] names@[i])@,
            ) by {
                assert(has_block_name(entries@[i]@));
            }
            if self.transport.faultless() {
            assert forall|i: int| 0 <= i < names@.len() implies block_name_set(tree, root).contains(
                (#[trigger] names@[i])@,
            ) by {
                let path = entries@[i]@.relpath;
                assert(is_block_file(tree, root, path) && path_tail(path) == names@[i]@);
            }
            assert(are_block_names(tree, root, names@));
            }
            if self.transport.faultless() {
                assert forall|name: Seq<char>| #[trigger]
                    block_name_set(tree, root).contains(name) implies named_in(names@, name) by {
                    let path = choose|path: Seq<char>| #[trigger]
                        is_block_file(tree, root, path) && path_tail(path) == name;
                    assert(listed_in(entries@, path));
                    let i = choose|i: int|
                        0 <= i < entries@.len() && (#[trigger] entries@[i])@.relpath == path;
                    assert(names@[i]@ == name);
                }
                assert(has_all_block_names(tree, root, names@));
            }
        }
        Ok(names)
    }
}

/// True if the block directory at `root` has a block called `name` whose
/// file holds `size` bytes.
pub open spec fn is_sized_block(tree: Tree, root: Seq<char>, name: Seq<char>, size: u64) -> bool {
    exists|path: Seq<char>| #[trigger]
        is_block_file(tree, root, path) && path_tail(path) == name && tree[path].content.len() == size
}

/// True if `sized` gives the blocks of the block directory at `root`, each
/// with the number of bytes that its file holds, and all of them.
pub open spec fn are_sized_blocks(tree: Tree, root: Seq<char>, sized: Seq<(String, u64)>) -> bool {
    &&& forall|i: int|
        0 <= i < sized.len() ==> is_sized_block(tree, root, (#[trigger] sized[i]).0@, sized[i].1)
    &&& forall|path: Seq<char>| #[trigger]
        is_block_file(tree, root, path) ==> exists|i: int|
            0 <= i < sized.len() && (#[trigger] sized[i]).0@ == path_tail(path) && sized[i].1
                == tree[path].content.len()
}

impl<T: TransportRead> BlockDir<T> {
    /// Return block names and the sizes of their files, in arbitrary order.
    pub fn block_names_and_sizes(&self) -> (r: Result<Vec<(String, u64)>, StoreError>)
        ensures
            r matches Err(e) ==> e@ == (StoreErrorView::ListBlocks { path: self.path@ }) || e@
                is ReadBlock,
            self.transport.faultless() ==> match r {
                Ok(sized) => is_dir_at(self.transport.tree(), self.path@) && are_sized_blocks(
                    self.transport.tree(),
                    self.path@,
                    sized@,
                ),
                Err(_) => !is_dir_at(self.transport.tree(), self.path@),
            },
    {
        let entries = match self.block_dir_entries() {
            Ok(entries) => entries,
            Err(e) => {
                return Err(e);
            },
        };
        let ghost tree = self.transport.tree();
        let ghost root = self.path@;
        let ghost exact = self.transport.faultless();
        let mut sized: Vec<(String, u64)> = Vec::new();
        let mut k: usize = 0;
        while k < entries.len()
            invariant
                k <= entries@.len(),
                sized@.len() == k,
                tree == self.transport.tree(),
                exact == self.transport.faultless(),
                exact ==> are_block_files(tree, root, entries@),
                exact ==> forall|m: int|
                    0 <= m < k ==> (#[trigger] sized@[m]).0@ == path_tail(entries@[m]@.relpath)
                        && sized@[m].1 == tree[entries@[m]@.relpath].content.len(),
            decreases entries.len() - k,
        {
            let entry = &entries[k];
            let found = match self.transport.metadata(entry.relpath()) {
                Ok(found) => found,
                Err(_) => {
                    proof {
                        if exact {
                            assert(is_block_file(tree, root, entries@[k as int]@.relpath));
                        }
                    }
                    return Err(StoreError::ReadBlock { path: String::from_str(entry.relpath()) });
                },
            };
            proof {
                if exact {
                    assert(is_block_file(tree, root, entries@[k as int]@.relpath));
                }
            }
            sized.push((String::from_str(entry.name_tail()), found.len));
            k += 1;
        }
        proof {
            if exact {
                assert forall|i: int| 0 <= i < sized@.len() implies is_sized_block(
                    tree,
                    root,
                    (#[trigger] sized@[i]).0@,
                    sized@[i].1,
                ) by {
                    assert(is_block_file(tree, root, entries@[i]@.relpath));
                }
                assert forall|path: Seq<char>| #[trigger] is_block_file(tree, root, path) implies exists|
                    i: int,
                |
                    0 <= i < sized@.len() && (#[trigger] sized@[i]).0@ == path_tail(path)
                        && sized@[i].1 == tree[path].content.len() by {
                    assert(listed_in(entries@, path));
                    let i = choose|i: int|
                        0 <= i < entries@.len() && (#[trigger] entries@[i])@.relpath == path;
                    assert(sized@[i].0@ == path_tail(path));
                }
            }
        }
        Ok(sized)
    }
}

/// True if what lies where the block directory at `root` keeps its blocks
/// is of the kind that it should be: an entry with a name of three
/// characters, directly in the directory, is a subdirectory; and an entry in
/// the place of such a subdirectory's content has that subdirectory above it
/// and, if it has the name of a block, is a file.
pub open spec fn is_well_laid(tree: Tree, root: Seq<char>) -> bool {
    forall|path: Seq<char>| #[trigger]
        tree.contains_key(path) ==> {
            &&& is_child(root, path) && path_tail(path).len() == SUBDIR_NAME_CHARS ==> tree[path].kind
                == Kind::Dir
            &&& is_child(path_parent(path), path) && is_child(root, path_parent(path)) && path_tail(
                path_parent(path),
            ).len() == SUBDIR_NAME_CHARS ==> tree.contains_key(path_parent(path)) && (
            is_block_file_name(path_tail(path)) ==> tree[path].kind == Kind::File)
        }
}

/// No path lies directly in itself.
pub proof fn lemma_not_own_child(dir: Seq<char>)
    ensures
        !is_child(dir, dir),
{
    if is_child(dir, dir) {
        lemma_child_path(dir, path_tail(dir));
    }
}

/// What a hash looks like makes it the name of a block's file.
pub proof fn lemma_hash_is_block_name(hash: Seq<char>)
    requires
        is_block_hash(hash),
    ensures
        is_block_file_name(hash),
{
    assert(is_hex_char(hash[0]));
}

/// A block directory that holds nothing, or nothing but its own directory,
/// is well laid out and has no blocks.
pub proof fn lemma_new_dir_has_no_blocks(tree: Tree, root: Seq<char>)
    requires
        forall|path: Seq<char>| tree.contains_key(path) ==> path == root,
    ensures
        is_well_laid(tree, root),
        block_name_set(tree, root) == Set::<Seq<char>>::empty(),
        forall|path: Seq<char>| !is_block_file(tree, root, path),
{
    lemma_not_own_child(root);
    assert forall|path: Seq<char>| !is_block_file(tree, root, path) by {
        if is_block_file(tree, root, path) {
            let dir = path_parent(path);
            assert(tree.contains_key(child_path(root, path_tail(dir))));
            assert(dir == child_path(root, path_tail(dir)));
            lemma_not_own_child(root);
        }
    }
    assert(block_name_set(tree, root) =~= Set::<Seq<char>>::empty());
}

/// Storing a block in a well laid out block directory keeps it so, and the
/// files of its blocks are then those from before and the file of the new
/// block.
pub proof fn lemma_stored_block_files(tree: Tree, root: Seq<char>, data: Seq<u8>)
    requires
        is_well_laid(tree, root),
        is_block_hash(block_hash(data)),
    ensures
        is_well_laid(stored(tree, root, data), root),
        forall|path: Seq<char>|
            is_block_file(tree, root, path) ==> #[trigger] is_block_file(
                stored(tree, root, data),
                root,
                path,
            ),
        forall|path: Seq<char>| #[trigger]
            is_block_file(stored(tree, root, data), root, path) ==> is_block_file(tree, root, path)
                || path == block_path(root, block_hash(data)),
        is_block_file(stored(tree, root, data), root, block_path(root, block_hash(data))),
{
    let hash = block_hash(data);
    let after = stored(tree, root, data);
    let sp = shard_path(root, hash);
    let bp = block_path(root, hash);
    lemma_block_paths(root, hash);
    lemma_hash_is_block_name(hash);
    lemma_not_own_child(root);
    assert(tree.contains_key(sp) ==> tree[sp].kind == Kind::Dir);
    assert(tree.contains_key(bp) ==> tree[bp].kind == Kind::File);
    assert forall|path: Seq<char>| #[trigger] after.contains_key(path) implies {
        &&& is_child(root, path) && path_tail(path).len() == SUBDIR_NAME_CHARS ==> after[path].kind
            == Kind::Dir
        &&& is_child(path_parent(path), path) && is_child(root, path_parent(path)) && path_tail(
            path_parent(path),
        ).len() == SUBDIR_NAME_CHARS ==> after.contains_key(path_parent(path)) && (
        is_block_file_name(path_tail(path)) ==> after[path].kind == Kind::File)
    } by {
        lemma_stored_keeps(tree, root, data, path);
        if tree.contains_key(path) {
            if is_child(path_parent(path), path) && is_child(root, path_parent(path)) && path_tail(
                path_parent(path),
            ).len() == SUBDIR_NAME_CHARS {
                lemma_stored_keeps(tree, root, data, path_parent(path));
            }
        }
    }
    assert forall|path: Seq<char>| is_block_file(tree, root, path) implies #[trigger] is_block_file(
        after,
        root,
        path,
    ) by {
        lemma_stored_keeps(tree, root, data, path);
        lemma_stored_keeps(tree, root, data, child_path(root, path_tail(path_parent(path))));
    }
    assert forall|path: Seq<char>| #[trigger] is_block_file(after, root, path) implies is_block_file(
        tree,
        root,
        path,
    ) || path == bp by {
        lemma_stored_keeps(tree, root, data, path);
        let dir = path_parent(path);
        assert(dir == child_path(root, path_tail(dir)));
        lemma_stored_keeps(tree, root, data, dir);
        if path != bp {
            if path == sp {
                assert(after[sp].kind == Kind::Dir);
            }
            assert(tree.contains_key(path));
            assert(tree.contains_key(dir));
        }
    }
    assert(is_block_file(after, root, bp)) by {
        lemma_stored_keeps(tree, root, data, bp);
        lemma_stored_keeps(tree, root, data, sp);
    }
}

/// In a well laid out block directory, a file at the place of a block is a
/// block, and its name is among the names of the blocks.
pub proof fn lemma_present_block_is_named(tree: Tree, root: Seq<char>, hash: Seq<char>)
    requires
        is_well_laid(tree, root),
        is_block_hash(hash),
        tree.contains_key(block_path(root, hash)),
    ensures
        is_block_file(tree, root, block_path(root, hash)),
        block_name_set(tree, root).contains(hash),
{
    lemma_block_paths(root, hash);
    lemma_hash_is_block_name(hash);
    let bp = block_path(root, hash);
    let sp = shard_path(root, hash);
    assert(tree.contains_key(sp));
    assert(is_block_file(tree, root, bp) && path_tail(bp) == hash);
}

/// After a block is stored in a well laid out block directory, the names of
/// its blocks are those from before and the hash of the new block.
pub proof fn lemma_stored_block_is_named(tree: Tree, root: Seq<char>, data: Seq<u8>)
    requires
        is_well_laid(tree, root),
        is_block_hash(block_hash(data)),
    ensures
        block_name_set(stored(tree, root, data), root) == block_name_set(tree, root).insert(
            block_hash(data),
        ),
{
    let hash = block_hash(data);
    let after = stored(tree, root, data);
    let bp = block_path(root, hash);
    lemma_stored_block_files(tree, root, data);
    lemma_block_paths(root, hash);
    assert forall|name: Seq<char>| block_name_set(after, root).contains(name) <==> block_name_set(
        tree,
        root,
    ).insert(hash).contains(name) by {
        if block_name_set(after, root).contains(name) {
            let path = choose|path: Seq<char>| #[trigger]
                is_block_file(after, root, path) && path_tail(path) == name;
            if path != bp {
                assert(is_block_file(tree, root, path));
            }
        }
        if block_name_set(tree, root).contains(name) {
            let path = choose|path: Seq<char>| #[trigger]
                is_block_file(tree, root, path) && path_tail(path) == name;
            assert(is_block_file(after, root, path));
        }
        if name == hash {
            assert(is_block_file(after, root, bp) && path_tail(bp) == name);
        }
    }
    assert(block_name_set(after, root) =~= block_name_set(tree, root).insert(hash));
}

} // verus!
