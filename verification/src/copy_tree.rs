//! Copy tree contents.

use vstd::prelude::*;
use vstd::string::StrSliceExecFns;
use crate::kind::Kind;
use crate::text::str_eq;

verus! {

/// How a tree is to be copied.
#[derive(Default, Clone, Debug)]
pub struct CopyOptions {
    pub print_filenames: bool,
    pub measure_first: bool,
    /// The path of the one subtree to copy, or nothing to copy everything.
    pub only_subtree: String,
}

/// True if an entry at `apath` is to be copied when only `subtree` is asked
/// for: everything where `subtree` is empty, else the entry at `subtree` and
/// what lies below it. Put in components: those of `subtree` are the first
/// ones of `apath`.
pub open spec fn in_subtree(subtree: Seq<char>, apath: Seq<char>) -> bool {
    ||| subtree.len() == 0
    ||| apath == subtree
    ||| apath.len() > subtree.len() && apath.subrange(0, subtree.len() as int) == subtree
        && apath[subtree.len() as int] == '/'
}

/// What is to be done with one entry of the source tree.
#[derive(Clone, Copy, Debug, PartialEq, Eq, Structural)]
pub enum CopyAction {
    /// The entry is not copied.
    Skip,
    CopyDir,
    CopyFile,
    CopySymlink,
}

/// Counts of what a copy has gone through.
#[derive(Clone, Copy, Debug, Default, PartialEq, Eq, Structural)]
pub struct CopyStats {
    pub directories: u64,
    pub files: u64,
    pub symlinks: u64,
    pub unknown_kind: u64,
    pub errors: u64,
}

/// What is done with an entry of the given kind that was chosen for copying.
pub open spec fn action_for(kind: Kind) -> CopyAction {
    match kind {
        Kind::Dir => CopyAction::CopyDir,
        Kind::File => CopyAction::CopyFile,
        Kind::Symlink => CopyAction::CopySymlink,
        Kind::Unknown => CopyAction::Skip,
    }
}

/// `stats` with one more entry of the given kind.
pub open spec fn with_entry(stats: CopyStats, kind: Kind) -> CopyStats {
    match kind {
        Kind::Dir => CopyStats { directories: (stats.directories + 1) as u64, ..stats },
        Kind::File => CopyStats { files: (stats.files + 1) as u64, ..stats },
        Kind::Symlink => CopyStats { symlinks: (stats.symlinks + 1) as u64, ..stats },
        Kind::Unknown => CopyStats { unknown_kind: (stats.unknown_kind + 1) as u64, ..stats },
    }
}

/// True if each count of `stats` can take one more.
pub open spec fn can_count(stats: CopyStats) -> bool {
    &&& stats.directories < u64::MAX
    &&& stats.files < u64::MAX
    &&& stats.symlinks < u64::MAX
    &&& stats.unknown_kind < u64::MAX
    &&& stats.errors < u64::MAX
}

impl CopyOptions {
    /// True if an entry at `apath` is selected for copy.
    pub fn selects(&self, apath: &str) -> (selected: bool)
        ensures
            selected == in_subtree(self.only_subtree@, apath@),
    {
        let target = self.only_subtree.as_str();
        let n = target.unicode_len();
        if n == 0 {
            return true;
        }
        let m = apath.unicode_len();
        if m < n {
            return false;
        }
        if !str_eq(apath.substring_char(0, n), target) {
            assert(apath@ != target@) by {
                if apath@ == target@ {
                    assert(apath@.subrange(0, n as int) =~= apath@);
                }
            }
            return false;
        }
        if m == n {
            assert(apath@.subrange(0, n as int) =~= apath@);
            return true;
        }
        apath.get_char(n) == '/'
    }

    /// Decides what is done with one entry of the source tree, and counts
    /// it by its kind if it is selected for copy. An entry of unknown kind is
    /// counted and passed over.
    pub fn plan_entry(&self, apath: &str, kind: Kind, stats: &mut CopyStats) -> (action: CopyAction)
        requires
            can_count(*old(stats)),
        ensures
            in_subtree(self.only_subtree@, apath@) ==> action == action_for(kind) && *final(stats)
                == with_entry(*old(stats), kind),
            !in_subtree(self.only_subtree@, apath@) ==> action == CopyAction::Skip && *final(stats)
                == *old(stats),
    {
        if !self.selects(apath) {
            return CopyAction::Skip;
        }
        match kind {
            Kind::Dir => {
                stats.directories = stats.directories + 1;
                CopyAction::CopyDir
            },
            Kind::File => {
                stats.files = stats.files + 1;
                CopyAction::CopyFile
            },
            Kind::Symlink => {
                stats.symlinks = stats.symlinks + 1;
                CopyAction::CopySymlink
            },
            Kind::Unknown => {
                stats.unknown_kind = stats.unknown_kind + 1;
                CopyAction::Skip
            },
        }
    }
}

impl CopyStats {
    /// Counts an entry that could not be copied.
    pub fn record_error(&mut self)
        requires
            old(self).errors < u64::MAX,
        ensures
            *final(self) == (CopyStats { errors: (old(self).errors + 1) as u64, ..*old(self) }),
    {
        self.errors = self.errors + 1;
    }
}

} // verus!
