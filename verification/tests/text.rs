//! Texts: comparison, decimal notation and sorting.

use bqlite_operators::text::{
    copy_texts, decimal_text, join2, join3, sort_texts, starts_with, text_eq, text_in,
    text_not_after,
};

fn list(texts: &[&str]) -> Vec<String> {
    texts.iter().map(|s| s.to_string()).collect()
}

#[test]
fn numbers_are_written_in_decimal() {
    assert_eq!(decimal_text(0), "0");
    assert_eq!(decimal_text(10_203), "10203");
    assert_eq!(decimal_text(u64::MAX), "18446744073709551615");
}

#[test]
fn texts_are_compared_character_by_character() {
    assert!(text_eq("caf\u{e9}", "caf\u{e9}"));
    assert!(!text_eq("ab", "abc"));
    assert!(text_not_after("a", "ab"));
    assert!(text_not_after("Z", "a"));
    assert!(!text_not_after("b", "ab"));
    assert!(text_not_after("", ""));
    assert!(starts_with("__seq_id", "__"));
    assert!(!starts_with("_seq", "__"));
}

#[test]
fn the_order_of_texts_is_that_of_the_standard_library() {
    let texts = ["", "a", "ab", "b", "Z", "\u{e9}", "\u{1f600}", "z\u{301}", "~"];
    for a in texts {
        for b in texts {
            assert_eq!(text_not_after(a, b), a <= b, "{a:?} {b:?}");
        }
    }
}

#[test]
fn sorting_keeps_every_text_once() {
    let sorted = sort_texts(&list(&["b", "a", "c", "a"]));
    assert_eq!(sorted, list(&["a", "b", "c"]));
    assert!(sort_texts(&Vec::new()).is_empty());
}

#[test]
fn texts_are_joined_copied_and_found() {
    assert_eq!(join2("a", "b"), "ab");
    assert_eq!(join3("a", "", "c"), "ac");
    let texts = list(&["x", "y"]);
    assert_eq!(copy_texts(&texts), texts);
    assert!(text_in(&texts, "y"));
    assert!(!text_in(&texts, "z"));
}
