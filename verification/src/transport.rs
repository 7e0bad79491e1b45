//! The storage that an archive lives on, seen as a tree of named entries.
//!
//! A transport has a root, and everything below it is reached by a relative
//! path. Files in an archive are of bounded size, so a file is read and
//! written whole.

use vstd::prelude::*;
use crate::kind::Kind;
use crate::paths::{is_child, path_tail, tail_of};

pub mod local;
pub mod memory;

verus! {

/// One entry of the tree that a transport holds: its kind, and for a file
/// the bytes in it.
pub struct Node {
    pub kind: Kind,
    pub content: Seq<u8>,
}

/// The tree that a transport holds: its entries by relative path.
pub type Tree = Map<Seq<char>, Node>;

/// The node of a directory.
pub open spec fn dir_node() -> Node {
    Node { kind: Kind::Dir, content: Seq::empty() }
}

/// The node of a file that holds `content`.
pub open spec fn file_node(content: Seq<u8>) -> Node {
    Node { kind: Kind::File, content }
}

/// True if `tree` holds a regular file at `path`.
pub open spec fn is_file_at(tree: Tree, path: Seq<char>) -> bool {
    tree.contains_key(path) && tree[path].kind == Kind::File
}

/// True if `path` is a directory of `tree`: the root, or an entry of that kind.
pub open spec fn is_dir_at(tree: Tree, path: Seq<char>) -> bool {
    path.len() == 0 || (tree.contains_key(path) && tree[path].kind == Kind::Dir)
}

/// True if `after` holds every entry of `before` as it was.
pub open spec fn extends(after: Tree, before: Tree) -> bool {
    forall|path: Seq<char>| #[trigger]
        before.contains_key(path) ==> after.contains_key(path) && after[path] == before[path]
}

/// Why a transport could not do what it was asked.
#[derive(Clone, Copy, Debug, PartialEq, Eq, Structural)]
pub enum TransportError {
    /// Nothing exists at the path.
    NotFound,
    /// Something exists at the path already.
    AlreadyExists,
    /// Any other failure.
    Other,
}

/// What a transport knows of one entry without reading it.
#[derive(Clone, Copy, Debug, PartialEq, Eq, Structural)]
pub struct Metadata {
    /// For a file, the number of bytes in it.
    pub len: u64,
    pub kind: Kind,
}

/// A directory entry read from a transport, as plain values.
pub struct EntryView {
    pub relpath: Seq<char>,
    pub kind: Kind,
}

/// A directory entry read from a transport.
#[derive(Clone, Debug, Eq, PartialEq, Ord, PartialOrd)]
pub struct TransportEntry {
    /// Path relative to the transport root.
    relpath: String,
    kind: Kind,
}

impl View for TransportEntry {
    type V = EntryView;

    closed spec fn view(&self) -> EntryView {
        EntryView { relpath: self.relpath@, kind: self.kind }
    }
}

impl TransportEntry {
    /// The entry at `relpath`, of the given kind.
    pub fn new(relpath: String, kind: Kind) -> (entry: TransportEntry)
        ensures
            entry@ == (EntryView { relpath: relpath@, kind }),
    {
        TransportEntry { relpath, kind }
    }

    /// Just the filename component of the name: what follows its last slash.
    pub fn name_tail(&self) -> (tail: &str)
        ensures
            tail@ == path_tail(self@.relpath),
    {
        tail_of(self.relpath.as_str())
    }

    /// What sort of entry this is.
    pub fn kind(&self) -> (kind: Kind)
        ensures
            kind == self@.kind,
    {
        self.kind
    }

    /// Returns the path relative to the transport root.
    pub fn relpath(&self) -> (relpath: &str)
        ensures
            relpath@ == self@.relpath,
    {
        self.relpath.as_str()
    }
}

/// True if `entries` is a listing of the directory `dir` of `tree`: each of
/// them lies directly in `dir` and has the kind that the tree gives it, each
/// entry of the tree that lies directly in `dir` is among them, and none
/// comes twice.
pub open spec fn is_listing(tree: Tree, dir: Seq<char>, entries: Seq<TransportEntry>) -> bool {
    &&& forall|i: int|
        0 <= i < entries.len() ==> {
            &&& is_child(dir, (#[trigger] entries[i])@.relpath)
            &&& tree.contains_key(entries[i]@.relpath)
            &&& tree[entries[i]@.relpath].kind == entries[i]@.kind
        }
    &&& forall|path: Seq<char>|
        #[trigger] tree.contains_key(path) && is_child(dir, path) ==> exists|i: int|
            0 <= i < entries.len() && (#[trigger] entries[i])@.relpath == path
    &&& forall|i: int, j: int|
        0 <= i < j < entries.len() ==> (#[trigger] entries[i])@.relpath != (
        #[trigger] entries[j])@.relpath
}

/// Facade to read from an archive.
///
/// This supports operations that are common across local filesystems, SFTP
/// and cloud storage.
///
/// A transport may be `faultless`: one that nothing else changes and that
/// never fails for reasons of its own. What such a transport holds is a
/// `Tree`, and the tree alone decides what each operation returns and does.
/// Of any other transport, a filesystem that other programs write to or a
/// network that may go down, nothing is known but what it returns: it is
/// not faultless, and its tree has no meaning.
pub trait TransportRead {
    /// The entries that a faultless transport holds.
    open spec fn tree(&self) -> Tree {
        Map::empty()
    }

    /// True if what the operations do is decided by `tree` alone.
    open spec fn faultless(&self) -> bool {
        false
    }

    /// Read the contents of a directory under this transport, without recursing down.
    ///
    /// Returned entries are in arbitrary order. Where `path` is no
    /// directory, the error is `NotFound` if nothing is there.
    fn read_dir(&self, path: &str) -> (r: Result<Vec<TransportEntry>, TransportError>)
        ensures
            self.faultless() ==> match r {
                Ok(entries) => is_dir_at(self.tree(), path@) && is_listing(
                    self.tree(),
                    path@,
                    entries@,
                ),
                Err(e) => !is_dir_at(self.tree(), path@) && (e == TransportError::NotFound
                    <==> !self.tree().contains_key(path@)),
            },
    ;

    /// Get one complete file. Where `path` is no file, the error is
    /// `NotFound` if nothing is there.
    fn read_file(&self, path: &str) -> (r: Result<Vec<u8>, TransportError>)
        ensures
            self.faultless() ==> match r {
                Ok(bytes) => is_file_at(self.tree(), path@) && bytes@ == self.tree()[path@].content,
                Err(e) => !is_file_at(self.tree(), path@) && (e == TransportError::NotFound
                    <==> !self.tree().contains_key(path@)),
            },
    ;

    /// What is known of the entry at `path` without reading it.
    fn metadata(&self, path: &str) -> (r: Result<Metadata, TransportError>)
        ensures
            self.faultless() ==> match r {
                Ok(found) => {
                    &&& self.tree().contains_key(path@)
                    &&& found.kind == self.tree()[path@].kind
                    &&& found.kind == Kind::File ==> found.len == self.tree()[path@].content.len()
                },
                Err(e) => !self.tree().contains_key(path@) && e == TransportError::NotFound,
            },
    ;
}

/// Facade to both read and write an archive.
pub trait TransportWrite: TransportRead {
    /// Create a directory at a path where nothing exists yet.
    fn make_dir(&mut self, path: &str) -> (r: Result<(), TransportError>)
        ensures
            final(self).faultless() == old(self).faultless(),
            old(self).faultless() ==> match r {
                Ok(()) => !old(self).tree().contains_key(path@) && final(self).tree() == old(
                    self,
                ).tree().insert(path@, dir_node()),
                Err(e) => old(self).tree().contains_key(path@) && e == TransportError::AlreadyExists
                    && final(self).tree() == old(self).tree(),
            },
    ;

    /// Write a complete file under a name that is not taken yet.
    ///
    /// The file becomes visible at once and with its complete content, or not
    /// at all. Where something exists at `path` already, nothing is written
    /// and the error is `AlreadyExists`.
    fn write_file(&mut self, path: &str, content: &[u8]) -> (r: Result<(), TransportError>)
        ensures
            final(self).faultless() == old(self).faultless(),
            old(self).faultless() ==> match r {
                Ok(()) => !old(self).tree().contains_key(path@) && final(self).tree() == old(
                    self,
                ).tree().insert(path@, file_node(content@)),
                Err(e) => old(self).tree().contains_key(path@) && e == TransportError::AlreadyExists
                    && final(self).tree() == old(self).tree(),
            },
    ;
}

} // verus!
