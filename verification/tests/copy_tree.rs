use conserve::copy_tree::{CopyAction, CopyOptions, CopyStats};
use conserve::kind::Kind;

fn only(subtree: &str) -> CopyOptions {
    CopyOptions {
        print_filenames: false,
        measure_first: false,
        only_subtree: subtree.to_owned(),
    }
}

#[test]
fn everything_is_selected_by_default() {
    let options = CopyOptions::default();
    assert!(options.selects("/"));
    assert!(options.selects("/a/b"));
    assert!(options.selects(""));
}

#[test]
fn a_subtree_selects_what_lies_below_it() {
    let options = only("/a/b");
    assert!(options.selects("/a/b"));
    assert!(options.selects("/a/b/c"));
    assert!(options.selects("/a/b/c/d"));
    assert!(options.selects("/a/b/"));
    assert!(!options.selects("/a/bc"));
    assert!(!options.selects("/a"));
    assert!(!options.selects("/a/c/b"));
    assert!(!options.selects("/"));
    assert!(!options.selects(""));
}

#[test]
fn a_trailing_slash_is_a_component() {
    let options = only("/a/");
    assert!(options.selects("/a/"));
    assert!(options.selects("/a//x"));
    assert!(!options.selects("/a/b"));
    assert!(!options.selects("/a"));
}

#[test]
fn entries_are_counted_by_kind() {
    let options = only("/src");
    let mut stats = CopyStats::default();
    assert_eq!(options.plan_entry("/src", Kind::Dir, &mut stats), CopyAction::CopyDir);
    assert_eq!(options.plan_entry("/src/a", Kind::File, &mut stats), CopyAction::CopyFile);
    assert_eq!(options.plan_entry("/src/b", Kind::File, &mut stats), CopyAction::CopyFile);
    assert_eq!(options.plan_entry("/src/l", Kind::Symlink, &mut stats), CopyAction::CopySymlink);
    assert_eq!(options.plan_entry("/src/p", Kind::Unknown, &mut stats), CopyAction::Skip);
    assert_eq!(options.plan_entry("/other", Kind::File, &mut stats), CopyAction::Skip);
    stats.record_error();
    assert_eq!(
        stats,
        CopyStats {
            directories: 1,
            files: 2,
            symlinks: 1,
            unknown_kind: 1,
            errors: 1,
        }
    );
}
