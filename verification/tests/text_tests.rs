use edit_session::text::{count_matches, replace_matches, str_equal, trim_text};

#[test]
fn count_empty_needle_is_zero() {
    assert_eq!(count_matches("some content", ""), 0);
    assert_eq!(count_matches("", ""), 0);
}

#[test]
fn replace_empty_needle_changes_nothing() {
    let (out, n) = replace_matches("some content", "", "x");
    assert_eq!(n, 0);
    assert_eq!(out, "some content");
}

#[test]
fn count_is_non_overlapping_left_to_right() {
    assert_eq!(count_matches("aaa", "aa"), 1);
    assert_eq!(count_matches("aaaa", "aa"), 2);
    assert_eq!(count_matches("aaaaa", "aa"), 2);
}

#[test]
fn count_simple_cases() {
    assert_eq!(count_matches("hello world", "o"), 2);
    assert_eq!(count_matches("hello world", "world"), 1);
    assert_eq!(count_matches("hello world", "xyz"), 0);
    assert_eq!(count_matches("abc", "abc"), 1);
    assert_eq!(count_matches("ab", "abc"), 0);
    assert_eq!(count_matches("", "a"), 0);
}

#[test]
fn count_is_case_sensitive() {
    assert_eq!(count_matches("Hello hello", "hello"), 1);
}

#[test]
fn replace_is_non_overlapping_left_to_right() {
    let (out, n) = replace_matches("aaa", "aa", "b");
    assert_eq!(out, "ba");
    assert_eq!(n, 1);
}

#[test]
fn replace_simple_cases() {
    let (out, n) = replace_matches("hello world", "o", "0");
    assert_eq!(out, "hell0 w0rld");
    assert_eq!(n, 2);
    let (out, n) = replace_matches("aaaa", "aa", "b");
    assert_eq!(out, "bb");
    assert_eq!(n, 2);
    let (out, n) = replace_matches("abc", "xyz", "!");
    assert_eq!(out, "abc");
    assert_eq!(n, 0);
    let (out, n) = replace_matches("abc", "abc", "");
    assert_eq!(out, "");
    assert_eq!(n, 1);
}

#[test]
fn replace_with_longer_text() {
    let (out, n) = replace_matches("a-a", "a", "aaa");
    assert_eq!(out, "aaa-aaa");
    assert_eq!(n, 2);
}

#[test]
fn replace_handles_multibyte_text() {
    let (out, n) = replace_matches("héllo héllo", "héllo", "salut");
    assert_eq!(out, "salut salut");
    assert_eq!(n, 2);
}

#[test]
fn trim_removes_surrounding_whitespace() {
    assert_eq!(trim_text("  name "), "name");
    assert_eq!(trim_text("\t a b \n"), "a b");
    assert_eq!(trim_text("name"), "name");
    assert_eq!(trim_text("   "), "");
    assert_eq!(trim_text(""), "");
}

#[test]
fn trim_matches_std_trim() {
    for s in ["  x  y  ", "\u{00A0}pad\u{3000}", "\r\nline\r\n", "inner  kept"] {
        assert_eq!(trim_text(s), s.trim());
    }
}

#[test]
fn str_equal_matches_eq() {
    assert!(str_equal("abc", "abc"));
    assert!(!str_equal("abc", "abd"));
    assert!(!str_equal("abc", "abcd"));
    assert!(str_equal("", ""));
}
