use rust_devtools_mcp::text::{
    contains, count, decimal, ends_with, equal, join, lines, replace, starts_with, trim, words,
};

fn strings(items: &[&str]) -> Vec<String> {
    items.iter().map(|s| s.to_string()).collect()
}

#[test]
fn lines_of_a_text() {
    assert_eq!(lines("a\nb\r\n\nc"), strings(&["a", "b", "", "c"]));
    assert_eq!(lines("a\n"), strings(&["a"]));
    assert_eq!(lines("a\r"), strings(&["a\r"]));
    assert_eq!(lines(""), strings(&[]));
    assert_eq!(lines("\n"), strings(&[""]));
}

#[test]
fn texts_are_searched() {
    assert!(contains("abcab", "cab"));
    assert!(contains("abc", ""));
    assert!(!contains("abc", "abcd"));
    assert!(starts_with("abc", "ab") && !starts_with("abc", "b"));
    assert!(ends_with("abc", "bc") && !ends_with("abc", "ab"));
    assert!(equal("é", "é") && !equal("é", "e"));
    assert_eq!(count("a/b/c", '/'), 2);
}

#[test]
fn occurrences_are_replaced_from_the_left() {
    assert_eq!(replace("aaa", "aa", "b"), "ba");
    assert_eq!(replace("a b c", " ", "_"), "a_b_c");
    assert_eq!(replace("abc", "x", "y"), "abc");
    assert_eq!(replace(":::", "::", "_"), "_:");
}

#[test]
fn texts_are_joined_and_split() {
    assert_eq!(join(&strings(&["a", "b", "c"]), ", "), "a, b, c");
    assert_eq!(join(&strings(&[]), ", "), "");
    assert_eq!(words("  fn  main()\t{\n}"), strings(&["fn", "main()", "{", "}"]));
    assert_eq!(trim("\u{3000} x y \n"), "x y");
}

#[test]
fn numbers_in_decimal() {
    assert_eq!(decimal(0), "0");
    assert_eq!(decimal(4000), "4000");
    assert_eq!(decimal(u64::MAX), "18446744073709551615");
}
