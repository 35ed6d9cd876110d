use kvdb::glob::glob_match;

#[test]
fn literal() {
    assert!(glob_match(b"hello", b"hello"));
    assert!(!glob_match(b"hello", b"world"));
}

#[test]
fn star() {
    assert!(glob_match(b"user:*", b"user:123"));
    assert!(glob_match(b"*", b"anything"));
    assert!(glob_match(b"a*b*c", b"aXbYc"));
    assert!(!glob_match(b"a*b*c", b"aXbYd"));
}

#[test]
fn question_mark() {
    assert!(glob_match(b"h?llo", b"hello"));
    assert!(!glob_match(b"h?llo", b"hllo"));
}

#[test]
fn char_class() {
    assert!(glob_match(b"[abc]ey", b"bey"));
    assert!(!glob_match(b"[abc]ey", b"dey"));
    assert!(glob_match(b"[a-z]ey", b"key"));
    assert!(glob_match(b"[^a-c]ey", b"key"));
    assert!(!glob_match(b"[^a-c]ey", b"aey"));
}

#[test]
fn escapes_and_edge_cases() {
    assert!(glob_match(b"a\\*b", b"a*b"));
    assert!(!glob_match(b"a\\*b", b"axb"));
    assert!(glob_match(b"[\\]]", b"]"));
    assert!(glob_match(b"", b""));
    assert!(!glob_match(b"", b"a"));
    assert!(glob_match(b"**", b""));
    assert!(glob_match(b"a**b", b"ab"));
    assert!(!glob_match(b"?", b""));
    assert!(!glob_match(b"[a]", b""));
    assert!(glob_match(b"[abc", b"b"));
    assert!(glob_match(b"[a-]x", b"-x"));
    assert!(glob_match(b"\\", b"\\"));
    assert!(glob_match(b"*x", b"xxx"));
}
