//! Kinds of entries found in a directory tree.

use vstd::prelude::*;

verus! {

/// What sort of thing a directory entry is.
#[derive(Clone, Copy, Debug, PartialEq, Eq, PartialOrd, Ord, Structural)]
pub enum Kind {
    File,
    Dir,
    Symlink,
    Unknown,
}

impl Kind {
    /// True for a regular file.
    pub fn is_file(self) -> (r: bool)
        ensures
            r == (self == Kind::File),
    {
        match self {
            Kind::File => true,
            _ => false,
        }
    }

    /// True for a directory.
    pub fn is_dir(self) -> (r: bool)
        ensures
            r == (self == Kind::Dir),
    {
        match self {
            Kind::Dir => true,
            _ => false,
        }
    }
}

} // verus!
