//! Patterns of names.
use rss::glob::glob_match;

#[test]
fn plain_and_case_insensitive() {
    assert!(glob_match("temp", "temp"));
    assert!(glob_match("temp", "TEMP"));
    assert!(glob_match("TEMP", "temp"));
    assert!(!glob_match("temp", "temporary"));
    assert!(glob_match("", ""));
    assert!(!glob_match("", "a"));
}

#[test]
fn star() {
    assert!(glob_match("*.jpg", "a.jpg"));
    assert!(glob_match("*.jpg", "A.JPG"));
    assert!(!glob_match("*.jpg", "a.jpgx"));
    assert!(!glob_match("*.jpg", "ajpg"));
    assert!(glob_match("*", "anything at all"));
    assert!(glob_match("*", ""));
    assert!(glob_match("*internet*", "internet cache"));
    assert!(glob_match("*internet*", "xinternety"));
    assert!(!glob_match("*internet*", "intranet"));
    assert!(glob_match("a*b*c", "abc"));
    assert!(glob_match("a*b*c", "axbyc"));
    assert!(!glob_match("a*b*c", "acb"));
}

#[test]
fn question_mark() {
    assert!(glob_match("a?c", "abc"));
    assert!(!glob_match("a?c", "ac"));
    assert!(!glob_match("a?c", "abbc"));
    assert!(glob_match("??", "ab"));
    assert!(glob_match("?.jpg", "x.jpg"));
}

#[test]
fn unicode_names() {
    assert!(glob_match("*.jpg", "foto Ü.jpg"));
    assert!(glob_match("föt?", "fötü"));
    assert!(!glob_match("föt?", "fötüx"));
}

#[test]
fn star_is_a_wildcard_where_the_name_has_a_star() {
    assert!(glob_match("*b", "*xb"));
    assert!(glob_match("a**c", "a*c"));
    assert!(!glob_match("?", "*?"));
}

#[test]
fn letters_fold_by_their_lower_case() {
    assert!(glob_match("STRASSE", "strasse"));
    assert!(glob_match("ÄÖÜ", "äöü"));
    assert!(!glob_match("a", "b"));
}
