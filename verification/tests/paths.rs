use conserve::paths::{check_name, find_last_slash, join_path, tail_of};
use conserve::text::str_eq;

#[test]
fn joining_puts_a_slash_between() {
    assert_eq!(join_path("", "66a"), "66a");
    assert_eq!(join_path("d", "66a"), "d/66a");
    assert_eq!(join_path("d/66a", "abc"), "d/66a/abc");
}

#[test]
fn tails_and_slashes() {
    assert_eq!(find_last_slash("a/b/c"), Some(3));
    assert_eq!(find_last_slash("abc"), None);
    assert_eq!(find_last_slash("/"), Some(0));
    assert_eq!(find_last_slash(""), None);
    assert_eq!(find_last_slash("\u{e9}/x"), Some(1));
    assert_eq!(tail_of("a/b/c"), "c");
    assert_eq!(tail_of("abc"), "abc");
    assert_eq!(tail_of("a/"), "");
}

#[test]
fn names_hold_no_slash() {
    assert!(check_name("abc"));
    assert!(!check_name(""));
    assert!(!check_name("a/b"));
    assert!(!check_name("/"));
}

#[test]
fn strings_compare_by_their_characters() {
    assert!(str_eq("", ""));
    assert!(str_eq("block.write", "block.write"));
    assert!(!str_eq("block.write", "block.writ"));
    assert!(!str_eq("block.write", "block.wrote"));
    assert!(!str_eq("e\u{301}", "\u{e9}"));
}
