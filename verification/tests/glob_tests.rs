use rust_http::glob;

#[test]
fn test_glob() {
    assert!(crate::glob("a*", "asdfas"));
    assert!(!crate::glob("a*", "bssasa"));
    assert!(crate::glob("a*a", "abba"));
}

#[test]
fn question_mark_needs_one_character() {
    assert!(!glob("?", ""));
    assert!(glob("?", "x"));
    assert!(!glob("?", "xy"));
}

#[test]
fn star_matches_anything() {
    assert!(glob("*", ""));
    assert!(glob("*", "a"));
    assert!(glob("*", "anything/at/all"));
    assert!(glob("*", "a*b?c"));
}

#[test]
fn literals_match_exactly() {
    assert!(glob("abc", "abc"));
    assert!(!glob("abc", "abcd"));
    assert!(!glob("abc", "ab"));
    assert!(!glob("abc", "abd"));
}

#[test]
fn star_in_the_middle_backtracks() {
    assert!(glob("a*a", "abba"));
    assert!(glob("a*bc", "axxbxbc"));
    assert!(!glob("a*bc", "axxbxbd"));
    assert!(glob("/*/x", "/some/long/path/x"));
}
