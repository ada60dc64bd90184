use tr::config::run;
use tr::expand::ParseError;
use tr::table::{build, Action};
use tr::translate::translate;

fn run_ok(search: &[u8], replace: &[u8], c: bool, d: bool, s: bool, input: &[u8]) -> Vec<u8> {
    run(&search.to_vec(), &replace.to_vec(), c, d, s, &input.to_vec()).unwrap()
}

#[test]
fn maps_search_positions_to_replace_positions() {
    let out = run_ok(b"lo", b"LO", false, false, false, b"hello world");
    assert_eq!(out, b"heLLO wOrLd".to_vec());
}

#[test]
fn squeeze_only_mode_collapses_runs() {
    let out = run_ok(b"ab", b"", false, false, true, b"aaabbbccc");
    assert_eq!(out, b"abccc".to_vec());
}

#[test]
fn complement_delete_removes_non_letters() {
    let out = run_ok(b"A-Za-z", b"", true, true, false, b"Hello, World!");
    assert_eq!(out, b"HelloWorld".to_vec());
}

#[test]
fn identity_mapping_leaves_input_unchanged() {
    let input: &[u8] = b"any input at all, abc included";
    let out = run_ok(b"abc", b"abc", false, false, false, input);
    assert_eq!(out, input.to_vec());
}

#[test]
fn delete_removes_exactly_the_searched_byte() {
    let input: &[u8] = b"banana";
    let out = run_ok(b"a", b"", false, true, false, input);
    assert_eq!(out, b"bnn".to_vec());
    assert!(out.iter().all(|&b| b != b'a'));
    let count = input.iter().filter(|&&b| b == b'a').count();
    assert_eq!(out.len(), input.len() - count);
}

#[test]
fn squeeze_collapses_each_maximal_run_to_one() {
    let out = run_ok(b"a", b"", false, false, true, b"aaabaaac");
    assert_eq!(out, b"abac".to_vec());
}

#[test]
fn short_replace_is_padded_with_its_last_byte() {
    let out = run_ok(b"abc", b"x", false, false, false, b"cab");
    assert_eq!(out, b"xxx".to_vec());
}

#[test]
fn later_duplicate_in_search_wins() {
    let out = run_ok(b"aa", b"xy", false, false, false, b"a");
    assert_eq!(out, b"y".to_vec());
}

#[test]
fn squeeze_applies_to_mapped_output_bytes() {
    let out = run_ok(b"ab", b"xx", false, false, true, b"ab");
    assert_eq!(out, b"x".to_vec());
}

#[test]
fn parse_error_in_search_propagates() {
    let r = run(&b"z-a".to_vec(), &b"".to_vec(), false, true, false, &b"x".to_vec());
    assert_eq!(r, Err(ParseError::InvalidRange));
}

#[test]
fn parse_error_in_replace_propagates() {
    let r = run(&b"abc".to_vec(), &b"\\400".to_vec(), false, false, false, &b"x".to_vec());
    assert_eq!(r, Err(ParseError::InvalidEscape));
}

#[test]
fn delete_table_prescribes_delete_for_members_only() {
    let table = build(&vec![b'a'], &vec![], true);
    assert_eq!(table.action(b'a'), Action::Delete);
    assert_eq!(table.action(b'b'), Action::Pass);
}

#[test]
fn mapping_table_prescribes_mapped_byte() {
    let table = build(&vec![b'l', b'o'], &vec![b'L', b'O'], false);
    assert_eq!(table.action(b'l'), Action::MapTo(b'L'));
    assert_eq!(table.action(b'o'), Action::MapTo(b'O'));
    assert_eq!(table.action(b'h'), Action::Pass);
}

#[test]
fn empty_search_set_gives_identity_table() {
    let table = build(&vec![], &vec![b'x'], false);
    let input = b"untouched".to_vec();
    let out = translate(&input, &table, false, &vec![]);
    assert_eq!(out, input);
}

#[test]
fn translate_resets_nothing_between_runs_of_different_bytes() {
    let table = build(&vec![], &vec![], false);
    let out = translate(&b"aabbaa".to_vec(), &table, true, &vec![b'a', b'b']);
    assert_eq!(out, b"aba".to_vec());
}
