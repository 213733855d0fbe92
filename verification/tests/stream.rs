use kmer_merger::infile::{InFile, KmerState, PositionInfo};

fn raw(text: &str) -> Vec<u8> {
    text.as_bytes().to_vec()
}

fn state(token: &str, present: Vec<bool>) -> KmerState {
    KmerState { kmer: raw(token), present }
}

#[test]
fn stream_hands_out_records_in_order() {
    let mut stream = InFile::new(
        raw("AAA 1\nAAC 0\nAAG 1\n"),
        false,
        PositionInfo { index: 0, out_of: 2 },
    );
    assert_eq!(stream.advance(), Some(state("AAA", vec![true, false])));
    assert_eq!(stream.advance(), Some(state("AAC", vec![false, false])));
    assert_eq!(stream.advance(), Some(state("AAG", vec![true, false])));
    assert_eq!(stream.advance(), None);
    assert_eq!(stream.advance(), None);
}

#[test]
fn stream_is_primed_on_construction() {
    let stream = InFile::new(raw("AAA 1\nAAC 0\n"), false, PositionInfo { index: 0, out_of: 1 });
    assert_eq!(stream.key(), Some(&raw("AAA")));
}

#[test]
fn key_follows_the_record_held_ready() {
    let mut stream = InFile::new(raw("AAA 1\nAAC 0"), false, PositionInfo { index: 0, out_of: 1 });
    stream.advance();
    assert_eq!(stream.key(), Some(&raw("AAC")));
    stream.advance();
    assert_eq!(stream.key(), None);
}

#[test]
fn empty_source_is_exhausted_at_once() {
    let mut stream = InFile::new(Vec::new(), false, PositionInfo { index: 0, out_of: 1 });
    assert_eq!(stream.key(), None);
    assert_eq!(stream.advance(), None);
}

#[test]
fn source_of_blank_and_malformed_lines_is_exhausted_at_once() {
    let mut stream = InFile::new(raw("\n\nbad\n 1\n\n"), true, PositionInfo { index: 0, out_of: 1 });
    assert_eq!(stream.key(), None);
    assert_eq!(stream.advance(), None);
}

#[test]
fn stream_puts_its_flag_in_its_own_column() {
    let mut stream = InFile::new(raw("AAA 1\n"), false, PositionInfo { index: 2, out_of: 4 });
    assert_eq!(stream.advance(), Some(state("AAA", vec![false, false, true, false])));
}

#[test]
fn inverted_stream_negates_recorded_flags() {
    let mut stream = InFile::new(
        raw("AAA 0\nAAG 1\nAAT 1\n"),
        true,
        PositionInfo { index: 1, out_of: 2 },
    );
    assert_eq!(stream.advance(), Some(state("AAA", vec![false, true])));
    assert_eq!(stream.advance(), Some(state("AAG", vec![false, false])));
    assert_eq!(stream.advance(), Some(state("AAT", vec![false, false])));
    assert_eq!(stream.advance(), None);
}

#[test]
fn stream_skips_blank_lines() {
    let mut stream = InFile::new(
        raw("\nAAA 1\n\n\nAAC 0\n\n"),
        false,
        PositionInfo { index: 0, out_of: 1 },
    );
    assert_eq!(stream.advance(), Some(state("AAA", vec![true])));
    assert_eq!(stream.advance(), Some(state("AAC", vec![false])));
    assert_eq!(stream.advance(), None);
}

#[test]
fn stream_skips_malformed_lines_and_goes_on() {
    let mut stream = InFile::new(
        raw("AAA 1\nbad\nAAC 2\n 1\nAAG 0\n"),
        false,
        PositionInfo { index: 0, out_of: 1 },
    );
    assert_eq!(stream.advance(), Some(state("AAA", vec![true])));
    assert_eq!(stream.advance(), Some(state("AAG", vec![false])));
    assert_eq!(stream.advance(), None);
}

#[test]
fn last_line_may_lack_its_newline() {
    let mut stream = InFile::new(raw("AAA 1\nAAC\t1"), false, PositionInfo { index: 0, out_of: 1 });
    assert_eq!(stream.advance(), Some(state("AAA", vec![true])));
    assert_eq!(stream.advance(), Some(state("AAC", vec![true])));
    assert_eq!(stream.advance(), None);
}

#[test]
fn stream_keeps_its_position() {
    let mut stream = InFile::new(raw("AAA 1\n"), false, PositionInfo { index: 3, out_of: 7 });
    assert_eq!(*stream.position(), PositionInfo { index: 3, out_of: 7 });
    stream.advance();
    stream.advance();
    assert_eq!(*stream.position(), PositionInfo { index: 3, out_of: 7 });
}

#[test]
fn stream_does_not_sort_its_source() {
    let mut stream = InFile::new(raw("CCC 1\nAAA 0\n"), false, PositionInfo { index: 0, out_of: 1 });
    assert_eq!(stream.advance(), Some(state("CCC", vec![true])));
    assert_eq!(stream.advance(), Some(state("AAA", vec![false])));
    assert_eq!(stream.advance(), None);
}
