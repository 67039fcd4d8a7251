use void_updates::report::response_to_hashmap;

#[test]
fn parse_simple_line() {
    let m = response_to_hashmap(
        "python-mock  3.0.5 -> 4.0.3    https://example.invalid/testing-cabal/mock",
    );
    assert!(!m.is_empty());
    let u = m.get("python-mock").unwrap();
    assert_eq!(u.current_version.as_str(), "3.0.5");
    assert_eq!(u.new_version.as_str(), "4.0.3");
}

#[test]
fn parse_same_text_twice_yields_identical_maps() {
    let body = "a 1.0 -> 1.1\nheader line\nb 2.0 -> 2.5 url\nb 2.0 -> 2.4\n";
    let m1 = response_to_hashmap(body);
    let m2 = response_to_hashmap(body);
    assert_eq!(m1.render(), m2.render());
    assert_eq!(
        m1.get("b").unwrap().new_version.as_str(),
        m2.get("b").unwrap().new_version.as_str()
    );
}

#[test]
fn lines_without_separator_produce_no_entry() {
    let m = response_to_hashmap("no separator here\nfoo 1.0 2.0\na -> b\n\n   \n");
    assert!(m.is_empty());
}

#[test]
fn separator_needs_two_tokens_before_and_one_after() {
    // two tokens then `->` then one token: matches
    let m = response_to_hashmap("x a b -> c y");
    let u = m.get("a").unwrap();
    assert_eq!(u.current_version.as_str(), "b");
    assert_eq!(u.new_version.as_str(), "c");
    // `->` as the last token: no match
    let m2 = response_to_hashmap("a b ->");
    assert!(m2.is_empty());
}

#[test]
fn duplicate_keeps_greater_new_version() {
    let m = response_to_hashmap("foo 1.0 -> 2.0\nfoo 1.0 -> 1.5\n");
    assert_eq!(m.get("foo").unwrap().new_version.as_str(), "2.0");
}

#[test]
fn duplicate_comparison_is_lexicographic_not_numeric() {
    // "2.0" > "10.0" as strings, so "2.0" is retained
    let m = response_to_hashmap("foo 1.0 -> 2.0\nfoo 1.0 -> 10.0\n");
    assert_eq!(m.get("foo").unwrap().new_version.as_str(), "2.0");
    // and in the other order as well
    let m2 = response_to_hashmap("foo 1.0 -> 10.0\nfoo 1.0 -> 2.0\n");
    assert_eq!(m2.get("foo").unwrap().new_version.as_str(), "2.0");
}

#[test]
fn duplicate_with_equal_new_version_keeps_first_entry() {
    let m = response_to_hashmap("foo 1.0 -> 2.0\nfoo 1.5 -> 2.0\n");
    let u = m.get("foo").unwrap();
    assert_eq!(u.current_version.as_str(), "1.0");
    assert_eq!(u.new_version.as_str(), "2.0");
}

#[test]
fn crlf_line_endings_parse() {
    let m = response_to_hashmap("foo 1.0 -> 2.0\r\nbar 3 -> 4\r\n");
    assert_eq!(m.get("foo").unwrap().new_version.as_str(), "2.0");
    assert_eq!(m.get("bar").unwrap().new_version.as_str(), "4");
}

#[test]
fn render_is_sorted_by_package_name() {
    let m = response_to_hashmap("beta 1 -> 2\nalpha 3 -> 4\ngamma 5 -> 6\n");
    assert_eq!(
        m.render(),
        "alpha\t3 -> 4\nbeta\t1 -> 2\ngamma\t5 -> 6\n"
    );
}

#[test]
fn empty_body_gives_empty_map() {
    let m = response_to_hashmap("");
    assert!(m.is_empty());
    assert_eq!(m.render(), "");
}
