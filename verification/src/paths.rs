//! Relative paths: strings whose components are separated by `/`.
//!
//! The empty path names the root. Every other path is a directory's path, a
//! slash and a name, or a name alone for what lies directly under the root.

use vstd::prelude::*;
use vstd::string::StringExecFns;
use vstd::string::StrSliceExecFns;

verus! {

/// True if `name` can be one component of a path: not empty, and without a slash.
pub open spec fn is_name(name: Seq<char>) -> bool {
    name.len() > 0 && forall|i: int| 0 <= i < name.len() ==> name[i] != '/'
}

/// The path of the entry called `name` in the directory `dir`.
pub open spec fn child_path(dir: Seq<char>, name: Seq<char>) -> Seq<char> {
    if dir.len() == 0 {
        name
    } else {
        dir + seq!['/'] + name
    }
}

/// The index of the last slash of `path`, or -1 where it holds none.
pub open spec fn last_slash(path: Seq<char>) -> int
    decreases path.len(),
{
    if path.len() == 0 {
        -1
    } else if path.last() == '/' {
        path.len() - 1
    } else {
        last_slash(path.drop_last())
    }
}

/// What follows the last slash of `path`: all of it where it holds no slash.
pub open spec fn path_tail(path: Seq<char>) -> Seq<char> {
    path.subrange(last_slash(path) + 1, path.len() as int)
}

/// What stands before the last slash of `path`: the empty path where it holds none.
pub open spec fn path_parent(path: Seq<char>) -> Seq<char> {
    if last_slash(path) <= 0 {
        Seq::empty()
    } else {
        path.subrange(0, last_slash(path))
    }
}

/// True if `path` names an entry that lies directly in the directory `dir`.
pub open spec fn is_child(dir: Seq<char>, path: Seq<char>) -> bool {
    is_name(path_tail(path)) && path == child_path(dir, path_tail(path))
}

/// `last_slash` is -1 or the index of a slash, and no slash follows it.
pub proof fn lemma_last_slash(path: Seq<char>)
    ensures
        -1 <= last_slash(path) < path.len(),
        last_slash(path) >= 0 ==> path[last_slash(path)] == '/',
        forall|i: int| last_slash(path) < i < path.len() ==> path[i] != '/',
    decreases path.len(),
{
    if path.len() > 0 && path.last() != '/' {
        let front = path.drop_last();
        lemma_last_slash(front);
        assert forall|i: int| last_slash(path) < i < path.len() implies path[i] != '/' by {
            if i < front.len() {
                assert(front[i] == path[i]);
            }
        }
    }
}

/// An index that holds a slash which no slash follows is the last slash.
pub proof fn lemma_last_slash_is(path: Seq<char>, at: int)
    requires
        -1 <= at < path.len(),
        at >= 0 ==> path[at] == '/',
        forall|i: int| at < i < path.len() ==> path[i] != '/',
    ensures
        last_slash(path) == at,
{
    lemma_last_slash(path);
}

/// The path made of a directory and a name has that name as its tail and
/// that directory as its parent, and lies directly in it.
pub proof fn lemma_child_path(dir: Seq<char>, name: Seq<char>)
    requires
        is_name(name),
    ensures
        path_tail(child_path(dir, name)) == name,
        path_parent(child_path(dir, name)) == dir,
        is_child(dir, child_path(dir, name)),
        child_path(dir, name).len() > 0,
{
    let path = child_path(dir, name);
    if dir.len() == 0 {
        lemma_last_slash_is(path, -1);
        assert(path.subrange(0, path.len() as int) =~= path);
    } else {
        lemma_last_slash_is(path, dir.len() as int);
        assert(path.subrange(dir.len() as int + 1, path.len() as int) =~= name);
        assert(path.subrange(0, dir.len() as int) =~= dir);
    }
}

/// An entry lies directly in one directory only: the parent of its path.
pub proof fn lemma_child_of_parent(dir: Seq<char>, path: Seq<char>)
    requires
        is_child(dir, path),
    ensures
        dir == path_parent(path),
        path.len() > 0,
{
    lemma_child_path(dir, path_tail(path));
}

/// Two names in one directory have the same path only if they are the same name.
pub proof fn lemma_child_path_injective(dir: Seq<char>, a: Seq<char>, b: Seq<char>)
    requires
        is_name(a),
        is_name(b),
        child_path(dir, a) == child_path(dir, b),
    ensures
        a == b,
{
    lemma_child_path(dir, a);
    lemma_child_path(dir, b);
}

/// The index of the last slash of `path`, if it holds one.
pub fn find_last_slash(path: &str) -> (r: Option<usize>)
    ensures
        match r {
            Some(i) => i == last_slash(path@),
            None => last_slash(path@) == -1,
        },
{
    let n = path.unicode_len();
    let mut i: usize = n;
    while i > 0
        invariant
            i <= n,
            n == path@.len(),
            forall|j: int| i <= j < n ==> path@[j] != '/',
        decreases i,
    {
        i -= 1;
        if path.get_char(i) == '/' {
            proof {
                lemma_last_slash_is(path@, i as int);
            }
            return Some(i);
        }
    }
    proof {
        lemma_last_slash_is(path@, -1);
    }
    None
}

/// What follows the last slash of `path`.
pub fn tail_of(path: &str) -> (tail: &str)
    ensures
        tail@ == path_tail(path@),
{
    let n = path.unicode_len();
    proof {
        lemma_last_slash(path@);
    }
    match find_last_slash(path) {
        Some(i) => path.substring_char(i + 1, n),
        None => path.substring_char(0, n),
    }
}

/// True if `name` is not empty and holds no slash.
pub fn check_name(name: &str) -> (r: bool)
    ensures
        r == is_name(name@),
{
    let n = name.unicode_len();
    if n == 0 {
        return false;
    }
    match find_last_slash(name) {
        Some(i) => {
            proof {
                lemma_last_slash(name@);
            }
            false
        },
        None => {
            proof {
                lemma_last_slash(name@);
            }
            true
        },
    }
}

/// The path of the entry called `name` in the directory `dir`.
pub fn join_path(dir: &str, name: &str) -> (path: String)
    ensures
        path@ == child_path(dir@, name@),
{
    if dir.unicode_len() == 0 {
        String::from_str(name)
    } else {
        let mut path = String::from_str(dir);
        path.append("/");
        path.append(name);
        proof {
            reveal_strlit("/");
            assert("/"@ =~= seq!['/']);
        }
        path
    }
}

} // verus!
