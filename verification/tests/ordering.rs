use void_updates::order::str_eq;
use void_updates::order::str_lex_le;

#[test]
fn lexicographic_order_on_version_strings() {
    assert!(str_lex_le("1.5", "2.0"));
    assert!(!str_lex_le("2.0", "1.5"));
    // lexicographic, not numeric: "10.0" sorts before "2.0"
    assert!(str_lex_le("10.0", "2.0"));
    assert!(!str_lex_le("2.0", "10.0"));
    assert!(str_lex_le("2.0", "2.0"));
    // a prefix sorts before its extension
    assert!(str_lex_le("2", "2.0"));
    assert!(!str_lex_le("2.0", "2"));
    assert!(str_lex_le("", "a"));
}

#[test]
fn string_equality_by_characters() {
    assert!(str_eq("abc", "abc"));
    assert!(!str_eq("abc", "abd"));
    assert!(!str_eq("abc", "ab"));
    assert!(str_eq("", ""));
}
