use content_search::matcher::{Matcher, SearchError};

fn strings(items: &[&str]) -> Vec<String> {
    items.iter().map(|s| s.to_string()).collect()
}

fn scan(patterns: &[&str], content: &[u8]) -> Vec<String> {
    Matcher::new(strings(patterns)).unwrap().scan(content)
}

#[test]
fn matcher_rejects_empty_pattern_list() {
    assert_eq!(Matcher::new(Vec::new()).err(), Some(SearchError::EmptyPatternSet));
}

#[test]
fn matcher_keeps_pattern_count() {
    let matcher = Matcher::new(strings(&["a", "b", "a"])).unwrap();
    assert_eq!(matcher.patterns_len(), 3);
}

#[test]
fn report_is_ordered_by_first_occurrence() {
    assert_eq!(scan(&["bar", "foo"], b"foobar"), strings(&["foo", "bar"]));
    assert_eq!(scan(&["foo", "bar"], b"foobar"), strings(&["foo", "bar"]));
    assert_eq!(scan(&["foo", "bar"], b"bar foo bar"), strings(&["bar", "foo"]));
}

#[test]
fn equal_first_offsets_go_by_list_position() {
    assert_eq!(scan(&["ab", "abc"], b"xxabcxx"), strings(&["ab", "abc"]));
    assert_eq!(scan(&["abc", "ab"], b"xxabcxx"), strings(&["abc", "ab"]));
    assert_eq!(scan(&["abcd", "a", "ab"], b"abcd"), strings(&["abcd", "a", "ab"]));
}

#[test]
fn nested_and_overlapping_occurrences_are_found() {
    assert_eq!(scan(&["bc", "abc"], b"abc"), strings(&["abc", "bc"]));
    assert_eq!(scan(&["aba", "bab"], b"ababa"), strings(&["aba", "bab"]));
    assert_eq!(scan(&["cde", "bcd", "abc"], b"abcde"), strings(&["abc", "bcd", "cde"]));
    assert_eq!(scan(&["b", "abc", "abcd"], b"abcd"), strings(&["abc", "abcd", "b"]));
}

#[test]
fn later_occurrences_do_not_move_a_pattern() {
    assert_eq!(scan(&["b", "a"], b"abababab"), strings(&["a", "b"]));
    assert_eq!(scan(&["x", "yx"], b"yxx"), strings(&["yx", "x"]));
}

#[test]
fn repeated_patterns_are_reported_once() {
    assert_eq!(scan(&["a", "a", "a"], b"banana"), strings(&["a"]));
    assert_eq!(scan(&["na", "ba", "na", "ba"], b"banana"), strings(&["ba", "na"]));
}

#[test]
fn matching_is_case_sensitive_and_byte_exact() {
    assert_eq!(scan(&["Foo"], b"foo FOO fOO"), Vec::<String>::new());
    assert_eq!(scan(&["Foo", "foo"], b"a foo"), strings(&["foo"]));
    assert_eq!(scan(&["a b"], b"a  b"), Vec::<String>::new());
}

#[test]
fn no_occurrence_gives_empty_report() {
    assert_eq!(scan(&["abc"], b""), Vec::<String>::new());
    assert_eq!(scan(&["abc"], b"ab"), Vec::<String>::new());
    assert_eq!(scan(&["abc", "xyz"], b"abxyc"), Vec::<String>::new());
}

#[test]
fn pattern_equal_to_whole_content_occurs() {
    assert_eq!(scan(&["whole"], b"whole"), strings(&["whole"]));
    assert_eq!(scan(&["end"], b"the end"), strings(&["end"]));
}

#[test]
fn empty_pattern_occurs_in_every_content() {
    assert_eq!(scan(&[""], b""), strings(&[""]));
    assert_eq!(scan(&[""], b"abc"), strings(&[""]));
    assert_eq!(scan(&["a", ""], b"ba"), strings(&["", "a"]));
    assert_eq!(scan(&["b", ""], b"ba"), strings(&["b", ""]));
}

#[test]
fn patterns_are_matched_as_utf8_bytes() {
    let content = "na\u{ef}ve caf\u{e9}".as_bytes();
    assert_eq!(scan(&["caf\u{e9}", "\u{ef}"], content), strings(&["\u{ef}", "caf\u{e9}"]));
    // the second byte of the two-byte encoding of U+00E9 is no occurrence of U+00A9
    assert_eq!(scan(&["\u{a9}"], content), Vec::<String>::new());
    assert_eq!(scan(&["\u{e9}"], &[0xc3, 0xa9, 0xff]), strings(&["\u{e9}"]));
}

#[test]
fn content_need_not_be_text() {
    let content = [0u8, 159, 146, 150, b'k', b'e', b'y', 0, 255];
    assert_eq!(scan(&["key", "yek"], &content), strings(&["key"]));
}

#[test]
fn one_matcher_serves_many_contents() {
    let matcher = Matcher::new(strings(&["one", "two"])).unwrap();
    assert_eq!(matcher.scan(b"two one"), strings(&["two", "one"]));
    assert_eq!(matcher.scan(b"none"), strings(&["one"]));
    assert_eq!(matcher.scan(b"three"), Vec::<String>::new());
    assert_eq!(matcher.scan(b"two one"), strings(&["two", "one"]));
}

#[test]
fn many_patterns_are_supported() {
    // more patterns than the automaton keeps in its dense form
    let patterns: Vec<String> = (0..300).map(|i| format!("<{}>", i)).collect();
    let matcher = Matcher::new(patterns).unwrap();
    assert_eq!(matcher.scan(b"x<299>y<7><299>"), strings(&["<299>", "<7>"]));
}
