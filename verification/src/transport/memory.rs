//! A transport that keeps its tree in memory.
//!
//! It never fails for reasons of its own, so what its operations return is
//! decided by the tree alone: it is faultless. An entry can be made at any
//! path that is not taken, whether or not a directory exists above it.

use vstd::prelude::*;
use vstd::slice::slice_to_vec;
use vstd::string::StringExecFns;
use crate::kind::Kind;
use crate::paths::{check_name, is_child, join_path, tail_of};
use crate::text::str_eq;
use crate::transport::{
    is_listing, Metadata, Node, TransportEntry, TransportError, TransportRead, TransportWrite, Tree,
};

verus! {

/// One entry of the tree, as it is kept.
#[derive(Clone, Debug)]
struct Held {
    path: String,
    kind: Kind,
    content: Vec<u8>,
}

impl Held {
    /// The entry as a node of the tree.
    spec fn node(&self) -> Node {
        Node { kind: self.kind, content: self.content@ }
    }
}

/// The paths of the entries, in the order in which they are kept.
spec fn paths_of(entries: Seq<Held>) -> Seq<Seq<char>> {
    Seq::new(entries.len(), |i: int| entries[i].path@)
}

/// The index of the first entry at `path`.
spec fn first_at(entries: Seq<Held>, path: Seq<char>) -> int {
    paths_of(entries).index_of_first(path).unwrap()
}

/// The tree that the entries stand for: the first entry at a path counts.
spec fn tree_of(entries: Seq<Held>) -> Tree {
    Map::new(
        |path: Seq<char>| paths_of(entries).contains(path),
        |path: Seq<char>| entries[first_at(entries, path)].node(),
    )
}

/// The first entry at a path is the one at the least index that holds it.
proof fn lemma_first_at(entries: Seq<Held>, path: Seq<char>, at: int)
    requires
        0 <= at < entries.len(),
        entries[at].path@ == path,
        forall|j: int| 0 <= j < at ==> entries[j].path@ != path,
    ensures
        paths_of(entries).contains(path),
        first_at(entries, path) == at,
{
    let paths = paths_of(entries);
    assert(paths[at] == path);
    paths.index_of_first_ensures(path);
    let found = first_at(entries, path);
    assert(paths[found] == path);
    if found < at {
        assert(entries[found].path@ != path);
    }
}

/// Where a path is held, its first entry is in range and holds it.
proof fn lemma_first_at_held(entries: Seq<Held>, path: Seq<char>)
    requires
        paths_of(entries).contains(path),
    ensures
        0 <= first_at(entries, path) < entries.len(),
        entries[first_at(entries, path)].path@ == path,
        forall|j: int| 0 <= j < first_at(entries, path) ==> entries[j].path@ != path,
{
    let paths = paths_of(entries);
    paths.index_of_first_ensures(path);
    let found = first_at(entries, path);
    assert(paths[found] == path);
    assert forall|j: int| 0 <= j < found implies entries[j].path@ != path by {
        assert(paths[j] != path);
    }
}

/// Adding an entry at a path that is not held yet adds it to the tree.
proof fn lemma_tree_of_push(entries: Seq<Held>, added: Held)
    requires
        !paths_of(entries).contains(added.path@),
    ensures
        tree_of(entries.push(added)) == tree_of(entries).insert(added.path@, added.node()),
{
    let after = entries.push(added);
    let before_tree = tree_of(entries);
    let after_tree = tree_of(after);
    let want = before_tree.insert(added.path@, added.node());
    assert forall|path: Seq<char>| after_tree.contains_key(path) <==> want.contains_key(
        path,
    ) by {
        if paths_of(after).contains(path) {
            let i = choose|i: int| 0 <= i < paths_of(after).len() && paths_of(after)[i] == path;
            if i < entries.len() {
                assert(paths_of(entries)[i] == path);
            }
        }
        if paths_of(entries).contains(path) {
            let i = choose|i: int| 0 <= i < paths_of(entries).len() && paths_of(entries)[i] == path;
            assert(paths_of(after)[i] == path);
        }
        if path == added.path@ {
            assert(paths_of(after)[entries.len() as int] == path);
        }
    }
    assert forall|path: Seq<char>| after_tree.contains_key(path) implies after_tree[path]
        == want[path] by {
        if path == added.path@ {
            assert forall|j: int| 0 <= j < entries.len() implies after[j].path@ != path by {
                assert(paths_of(entries)[j] == entries[j].path@);
            }
            lemma_first_at(after, path, entries.len() as int);
        } else {
            lemma_first_at_held(entries, path);
            let at = first_at(entries, path);
            assert(after[at].path@ == path);
            lemma_first_at(after, path, at);
        }
    }
    assert(after_tree =~= want);
}

/// True if the entry at index `at` is to be listed for `dir`: it lies
/// directly in `dir`, and no earlier entry has its path.
spec fn selected(entries: Seq<Held>, dir: Seq<char>, at: int) -> bool {
    &&& 0 <= at < entries.len()
    &&& is_child(dir, entries[at].path@)
    &&& forall|j: int| 0 <= j < at ==> entries[j].path@ != entries[at].path@
}

/// What holds of the entries listed so far, when those before index `upto`
/// have been gone through: `origin` gives for each listed entry the index
/// that it was taken from.
spec fn picked(
    entries: Seq<Held>,
    dir: Seq<char>,
    listed: Seq<TransportEntry>,
    origin: Seq<int>,
    upto: int,
) -> bool {
    &&& origin.len() == listed.len()
    &&& forall|k: int|
        0 <= k < origin.len() ==> {
            &&& 0 <= #[trigger] origin[k] < upto
            &&& selected(entries, dir, origin[k])
            &&& listed[k]@.relpath == entries[origin[k]].path@
            &&& listed[k]@.kind == entries[origin[k]].kind
        }
    &&& forall|k: int, m: int| 0 <= k < m < origin.len() ==> #[trigger] origin[k] < #[trigger] origin[m]
    &&& forall|j: int|
        0 <= j < upto && #[trigger] selected(entries, dir, j) ==> origin.contains(j)
}

/// Passing over an entry that is not to be listed keeps what holds of the listing.
proof fn lemma_picked_skip(
    entries: Seq<Held>,
    dir: Seq<char>,
    listed: Seq<TransportEntry>,
    origin: Seq<int>,
    upto: int,
)
    requires
        picked(entries, dir, listed, origin, upto),
        !selected(entries, dir, upto),
    ensures
        picked(entries, dir, listed, origin, upto + 1),
{
}

/// Listing the entry at index `upto` keeps what holds of the listing.
proof fn lemma_picked_push(
    entries: Seq<Held>,
    dir: Seq<char>,
    listed: Seq<TransportEntry>,
    origin: Seq<int>,
    upto: int,
    entry: TransportEntry,
)
    requires
        picked(entries, dir, listed, origin, upto),
        selected(entries, dir, upto),
        entry@.relpath == entries[upto].path@,
        entry@.kind == entries[upto].kind,
    ensures
        picked(entries, dir, listed.push(entry), origin.push(upto), upto + 1),
{
    let origin2 = origin.push(upto);
    assert forall|j: int| 0 <= j < upto + 1 && #[trigger] selected(entries, dir, j) implies origin2.contains(
        j,
    ) by {
        if j < upto {
            let k = origin.index_of(j);
            assert(origin2[k] == j);
        } else {
            assert(origin2[origin.len() as int] == j);
        }
    }
}

/// When all entries have been gone through, those listed are a listing of the directory.
proof fn lemma_picked_all(
    entries: Seq<Held>,
    dir: Seq<char>,
    listed: Seq<TransportEntry>,
    origin: Seq<int>,
)
    requires
        picked(entries, dir, listed, origin, entries.len() as int),
    ensures
        is_listing(tree_of(entries), dir, listed),
{
    let tree = tree_of(entries);
    assert forall|k: int| 0 <= k < listed.len() implies {
        &&& is_child(dir, (#[trigger] listed[k])@.relpath)
        &&& tree.contains_key(listed[k]@.relpath)
        &&& tree[listed[k]@.relpath].kind == listed[k]@.kind
    } by {
        assert(selected(entries, dir, origin[k]));
        lemma_first_at(entries, listed[k]@.relpath, origin[k]);
    }
    assert forall|p: Seq<char>| #[trigger] tree.contains_key(p) && is_child(dir, p) implies exists|
        k: int,
    |
        0 <= k < listed.len() && (#[trigger] listed[k])@.relpath == p by {
        lemma_first_at_held(entries, p);
        let j = first_at(entries, p);
        assert(selected(entries, dir, j));
        let k = origin.index_of(j);
        assert(listed[k]@.relpath == p);
    }
    assert forall|k: int, m: int| 0 <= k < m < listed.len() implies (#[trigger] listed[k])@.relpath
        != (#[trigger] listed[m])@.relpath by {
        assert(origin[k] < origin[m]);
        assert(selected(entries, dir, origin[m]));
    }
}

/// A transport that keeps its tree in memory.
#[derive(Clone, Debug)]
pub struct MemoryTransport {
    entries: Vec<Held>,
}

impl MemoryTransport {
    /// A transport that holds nothing but its root.
    pub fn new() -> (transport: MemoryTransport)
        ensures
            transport.tree() == Map::<Seq<char>, Node>::empty(),
            transport.faultless(),
    {
        let transport = MemoryTransport { entries: Vec::new() };
        assert(transport.tree() =~= Map::<Seq<char>, Node>::empty());
        transport
    }

    /// The index of the first entry at `path`, if there is one.
    fn find(&self, path: &str) -> (r: Option<usize>)
        ensures
            match r {
                Some(at) => {
                    &&& self.tree().contains_key(path@)
                    &&& at == first_at(self.entries@, path@)
                    &&& at < self.entries@.len()
                    &&& self.entries@[at as int].path@ == path@
                    &&& forall|j: int| 0 <= j < at ==> self.entries@[j].path@ != path@
                },
                None => !self.tree().contains_key(path@),
            },
    {
        let mut i: usize = 0;
        while i < self.entries.len()
            invariant
                i <= self.entries@.len(),
                forall|j: int| 0 <= j < i ==> self.entries@[j].path@ != path@,
            decreases self.entries.len() - i,
        {
            if str_eq(self.entries[i].path.as_str(), path) {
                proof {
                    lemma_first_at(self.entries@, path@, i as int);
                }
                return Some(i);
            }
            i += 1;
        }
        proof {
            if paths_of(self.entries@).contains(path@) {
                lemma_first_at_held(self.entries@, path@);
            }
        }
        None
    }
}

/// True if `path` names an entry that lies directly in the directory `dir`.
fn lies_directly_in(dir: &str, path: &str) -> (r: bool)
    ensures
        r == is_child(dir@, path@),
{
    let tail = tail_of(path);
    if !check_name(tail) {
        return false;
    }
    let joined = join_path(dir, tail);
    str_eq(joined.as_str(), path)
}

impl TransportRead for MemoryTransport {
    closed spec fn tree(&self) -> Tree {
        tree_of(self.entries@)
    }

    open spec fn faultless(&self) -> bool {
        true
    }

    fn read_dir(&self, path: &str) -> (r: Result<Vec<TransportEntry>, TransportError>) {
        if path.unicode_len() != 0 {
            match self.find(path) {
                None => {
                    return Err(TransportError::NotFound);
                },
                Some(at) => {
                    if !self.entries[at].kind.is_dir() {
                        return Err(TransportError::Other);
                    }
                },
            }
        }
        let mut listed: Vec<TransportEntry> = Vec::new();
        let ghost mut origin: Seq<int> = Seq::empty();
        let mut i: usize = 0;
        while i < self.entries.len()
            invariant
                i <= self.entries@.len(),
                picked(self.entries@, path@, listed@, origin, i as int),
            decreases self.entries.len() - i,
        {
            let here = &self.entries[i];
            let mut first_here = false;
            if lies_directly_in(path, here.path.as_str()) {
                match self.find(here.path.as_str()) {
                    Some(at) => {
                        first_here = at == i;
                        assert(at <= i) by {
                            if i < at {
                                assert(self.entries@[i as int].path@ != here.path@);
                            }
                        }
                    },
                    None => {
                        assert(paths_of(self.entries@)[i as int] == here.path@);
                    },
                }
            }
            if first_here {
                let entry = TransportEntry::new(here.path.clone(), here.kind);
                proof {
                    lemma_picked_push(self.entries@, path@, listed@, origin, i as int, entry);
                    origin = origin.push(i as int);
                }
                listed.push(entry);
            } else {
                proof {
                    lemma_picked_skip(self.entries@, path@, listed@, origin, i as int);
                }
            }
            i += 1;
        }
        proof {
            lemma_picked_all(self.entries@, path@, listed@, origin);
        }
        Ok(listed)
    }

    fn read_file(&self, path: &str) -> (r: Result<Vec<u8>, TransportError>) {
        match self.find(path) {
            None => Err(TransportError::NotFound),
            Some(at) => {
                if self.entries[at].kind.is_file() {
                    Ok(slice_to_vec(self.entries[at].content.as_slice()))
                } else {
                    Err(TransportError::Other)
                }
            },
        }
    }

    fn metadata(&self, path: &str) -> (r: Result<Metadata, TransportError>) {
        match self.find(path) {
            None => Err(TransportError::NotFound),
            Some(at) => {
                let len = self.entries[at].content.len() as u64;
                Ok(Metadata { len, kind: self.entries[at].kind })
            },
        }
    }
}

impl TransportWrite for MemoryTransport {
    fn make_dir(&mut self, path: &str) -> (r: Result<(), TransportError>) {
        match self.find(path) {
            Some(_) => Err(TransportError::AlreadyExists),
            None => {
                let added = Held { path: String::from_str(path), kind: Kind::Dir, content: Vec::new() };
                proof {
                    lemma_tree_of_push(self.entries@, added);
                }
                self.entries.push(added);
                Ok(())
            },
        }
    }

    fn write_file(&mut self, path: &str, content: &[u8]) -> (r: Result<(), TransportError>) {
        match self.find(path) {
            Some(_) => Err(TransportError::AlreadyExists),
            None => {
                let added = Held {
                    path: String::from_str(path),
                    kind: Kind::File,
                    content: slice_to_vec(content),
                };
                proof {
                    lemma_tree_of_push(self.entries@, added);
                }
                self.entries.push(added);
                Ok(())
            },
        }
    }
}

} // verus!
