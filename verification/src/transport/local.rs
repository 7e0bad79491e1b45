//! Access to an archive on the local filesystem.
//!
//! A local transport is a root directory. This module says where under the
//! root a relative path lies; reading and writing there is left to the
//! program that holds the filesystem.

use vstd::prelude::*;
use vstd::string::StrSliceExecFns;
use vstd::string::StringExecFns;

verus! {

/// The path that joining `relpath` to `root` gives: `relpath` alone where it
/// starts at the filesystem's root, else `root`, a slash unless `root` is
/// empty or ends in one, and `relpath`.
pub open spec fn joined_path(root: Seq<char>, relpath: Seq<char>) -> Seq<char> {
    if relpath.len() > 0 && relpath[0] == '/' {
        relpath
    } else if root.len() == 0 || root.last() == '/' {
        root + relpath
    } else {
        root + seq!['/'] + relpath
    }
}

/// A place in the local filesystem that an archive is kept at.
#[derive(Clone, Debug)]
pub struct LocalTransport {
    /// Root directory for this transport.
    root: String,
}

impl LocalTransport {
    /// The root directory of the transport.
    pub closed spec fn root(&self) -> Seq<char> {
        self.root@
    }

    /// A transport whose root is the directory at `path`.
    pub fn new(path: &str) -> (transport: Self)
        ensures
            transport.root() == path@,
    {
        LocalTransport { root: String::from_str(path) }
    }

    /// The root directory of the transport.
    pub fn root_path(&self) -> (root: &str)
        ensures
            root@ == self.root(),
    {
        self.root.as_str()
    }

    /// Where `relpath` lies in the filesystem.
    pub fn full_path(&self, relpath: &str) -> (path: String)
        ensures
            path@ == joined_path(self.root(), relpath@),
    {
        if relpath.unicode_len() > 0 && relpath.get_char(0) == '/' {
            return String::from_str(relpath);
        }
        let n = self.root.as_str().unicode_len();
        let mut path = String::from_str(self.root.as_str());
        if n > 0 && self.root.as_str().get_char(n - 1) != '/' {
            proof {
                reveal_strlit("/");
                assert("/"@ =~= seq!['/']);
            }
            path.append("/");
        }
        path.append(relpath);
        path
    }
}

} // verus!
