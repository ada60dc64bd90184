use tr::expand::{expand, ParseError};
use tr::sets::resolve;

#[test]
fn range_expands_in_order() {
    let r = expand(&b"a-c".to_vec());
    assert_eq!(r, Ok(vec![b'a', b'b', b'c']));
}

#[test]
fn reversed_range_fails() {
    let r = expand(&b"c-a".to_vec());
    assert_eq!(r, Err(ParseError::InvalidRange));
}

#[test]
fn octal_escape_decodes() {
    let r = expand(&b"\\101".to_vec());
    assert_eq!(r, Ok(vec![b'A']));
}

#[test]
fn escaped_literal_passes_through() {
    let r = expand(&b"\\z".to_vec());
    assert_eq!(r, Ok(vec![b'z']));
}

#[test]
fn octal_escape_above_byte_range_fails() {
    let r = expand(&b"\\777".to_vec());
    assert_eq!(r, Err(ParseError::InvalidEscape));
}

#[test]
fn octal_escape_consumes_at_most_three_digits() {
    let r = expand(&b"\\1234".to_vec());
    assert_eq!(r, Ok(vec![0o123, b'4']));
}

#[test]
fn trailing_backslash_is_literal() {
    let r = expand(&b"ab\\".to_vec());
    assert_eq!(r, Ok(vec![b'a', b'b', b'\\']));
}

#[test]
fn leading_dash_is_literal() {
    let r = expand(&b"-a".to_vec());
    assert_eq!(r, Ok(vec![b'-', b'a']));
}

#[test]
fn trailing_dash_is_literal() {
    let r = expand(&b"a-".to_vec());
    assert_eq!(r, Ok(vec![b'a', b'-']));
}

#[test]
fn adjacent_ranges_both_expand() {
    let r = expand(&b"A-Ca-c".to_vec());
    assert_eq!(r, Ok(vec![b'A', b'B', b'C', b'a', b'b', b'c']));
}

#[test]
fn dash_after_completed_range_is_literal() {
    let r = expand(&b"a-c-e".to_vec());
    assert_eq!(r, Ok(vec![b'a', b'b', b'c', b'-', b'e']));
}

#[test]
fn escape_does_not_start_a_range() {
    let r = expand(&b"\\141-z".to_vec());
    assert_eq!(r, Ok(vec![b'a', b'-', b'z']));
}

#[test]
fn escape_does_not_end_a_range() {
    let r = expand(&b"a-\\z".to_vec());
    assert_eq!(r, Ok(vec![b'a', b'-', b'z']));
}

#[test]
fn two_digit_octal_escape_decodes() {
    let r = expand(&b"\\12".to_vec());
    assert_eq!(r, Ok(vec![10]));
}

#[test]
fn empty_specification_expands_to_nothing() {
    let r = expand(&b"".to_vec());
    assert_eq!(r, Ok(vec![]));
}

#[test]
fn complement_of_lowercase_letters() {
    let letters = expand(&b"a-z".to_vec()).unwrap();
    let comp = resolve(letters, true);
    assert_eq!(comp.len(), 256 - 26);
    for w in comp.windows(2) {
        assert!(w[0] < w[1]);
    }
    for &b in &comp {
        assert!(!(97..=122).contains(&b));
    }
}

#[test]
fn resolve_without_complement_keeps_order_and_duplicates() {
    let set = expand(&b"ba-ca".to_vec()).unwrap();
    assert_eq!(set, vec![b'b', b'a', b'b', b'c', b'a']);
    let resolved = resolve(set.clone(), false);
    assert_eq!(resolved, set);
}
