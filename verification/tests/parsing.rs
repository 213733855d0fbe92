use kmer_merger::infile::{follows_grammar, line_at, malformed_lines};
use kmer_merger::record::{parse_line, KmerState, ParsedLine, PositionInfo};

fn bytes(text: &str) -> Vec<u8> {
    text.as_bytes().to_vec()
}

#[test]
fn parses_present_record_with_space() {
    let parsed = parse_line(bytes("AAA 1\n")).expect("well-formed line");
    assert_eq!(parsed, ParsedLine { kmer: bytes("AAA"), present: true });
}

#[test]
fn parses_absent_record_with_tab_and_no_newline() {
    let parsed = parse_line(bytes("ACGT\t0")).expect("well-formed line");
    assert_eq!(parsed, ParsedLine { kmer: bytes("ACGT"), present: false });
}

#[test]
fn token_may_hold_separators_and_digits() {
    let parsed = parse_line(bytes("A 1\t0 1\n")).expect("well-formed line");
    assert_eq!(parsed, ParsedLine { kmer: bytes("A 1\t0"), present: true });
}

#[test]
fn single_byte_token_is_accepted() {
    let parsed = parse_line(bytes("A 0")).expect("well-formed line");
    assert_eq!(parsed, ParsedLine { kmer: bytes("A"), present: false });
}

#[test]
fn rejects_line_without_separator_and_flag() {
    assert_eq!(parse_line(bytes("bad\n")), None);
}

#[test]
fn rejects_flag_other_than_zero_or_one() {
    assert_eq!(parse_line(bytes("AAA 2\n")), None);
    assert_eq!(parse_line(bytes("AAA x")), None);
}

#[test]
fn rejects_separator_other_than_space_or_tab() {
    assert_eq!(parse_line(bytes("AAA,1\n")), None);
    assert_eq!(parse_line(bytes("AAA1\n")), None);
}

#[test]
fn rejects_empty_token() {
    assert_eq!(parse_line(bytes(" 1\n")), None);
    assert_eq!(parse_line(bytes("\t0")), None);
}

#[test]
fn rejects_flag_alone() {
    assert_eq!(parse_line(bytes("1\n")), None);
    assert_eq!(parse_line(bytes("0")), None);
}

#[test]
fn rejects_blank_and_empty_lines() {
    assert_eq!(parse_line(bytes("\n")), None);
    assert_eq!(parse_line(Vec::new()), None);
}

#[test]
fn rejects_carriage_return_before_newline() {
    assert_eq!(parse_line(bytes("AAA 1\r\n")), None);
}

#[test]
fn only_one_trailing_newline_is_stripped() {
    assert_eq!(parse_line(bytes("AAA 1\n\n")), None);
}

#[test]
fn grammar_check_agrees_with_parser() {
    for line in ["AAA 1\n", "AAA\t0", "bad\n", " 1\n", "1", "", "\n", "AAA 2\n", "A 1"] {
        assert_eq!(follows_grammar(&bytes(line)), parse_line(bytes(line)).is_some(), "{:?}", line);
    }
}

#[test]
fn widens_record_to_presence_vector() {
    let parsed = parse_line(bytes("AAA 1\n")).expect("well-formed line");
    let state = parsed.into_kmer_state(&PositionInfo { index: 1, out_of: 3 });
    assert_eq!(state, KmerState { kmer: bytes("AAA"), present: vec![false, true, false] });
}

#[test]
fn widens_absent_record_to_all_false() {
    let parsed = ParsedLine { kmer: bytes("AAA"), present: false };
    let state = parsed.into_kmer_state(&PositionInfo { index: 0, out_of: 2 });
    assert_eq!(state, KmerState { kmer: bytes("AAA"), present: vec![false, false] });
}

#[test]
fn widening_outside_the_columns_sets_no_bit() {
    let parsed = ParsedLine { kmer: bytes("AAA"), present: true };
    let state = parsed.into_kmer_state(&PositionInfo { index: 5, out_of: 2 });
    assert_eq!(state, KmerState { kmer: bytes("AAA"), present: vec![false, false] });
    let none = ParsedLine { kmer: bytes("C"), present: true };
    let empty = none.into_kmer_state(&PositionInfo { index: 0, out_of: 0 });
    assert_eq!(empty, KmerState { kmer: bytes("C"), present: vec![] });
}

#[test]
fn line_at_copies_up_to_and_including_newline() {
    let source = bytes("AAA 1\nCCC 0\nlast");
    assert_eq!(line_at(&source, 0), bytes("AAA 1\n"));
    assert_eq!(line_at(&source, 6), bytes("CCC 0\n"));
    assert_eq!(line_at(&source, 12), bytes("last"));
    assert_eq!(line_at(&source, 16), Vec::<u8>::new());
    assert_eq!(line_at(&source, 2), bytes("A 1\n"));
}

#[test]
fn line_at_returns_bare_newline_for_blank_line() {
    let source = bytes("\n\nAAA 1\n");
    assert_eq!(line_at(&source, 0), bytes("\n"));
    assert_eq!(line_at(&source, 1), bytes("\n"));
    assert_eq!(line_at(&source, 2), bytes("AAA 1\n"));
}

#[test]
fn malformed_lines_lists_offending_lines_without_newline() {
    let source = bytes("AAA 1\nbad\n\nCCC 0\n 1\nGGG 2\nTTT 1");
    assert_eq!(malformed_lines(&source), vec![bytes("bad"), bytes(" 1"), bytes("GGG 2")]);
}

#[test]
fn malformed_lines_is_empty_for_clean_source() {
    assert_eq!(malformed_lines(&bytes("AAA 1\n\n\nCCC 0")), Vec::<Vec<u8>>::new());
    assert_eq!(malformed_lines(&Vec::new()), Vec::<Vec<u8>>::new());
}

#[test]
fn malformed_last_line_without_newline_is_listed() {
    assert_eq!(malformed_lines(&bytes("AAA 1\nbad")), vec![bytes("bad")]);
}
