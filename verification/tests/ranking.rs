use std::cmp::Ordering;

use kmer_merger::infile::InFile;
use kmer_merger::record::PositionInfo;
use kmer_merger::token::{
    common_prefix_len, compare_tokens, token_equal, token_less, TokenOrder,
};

fn tok(text: &str) -> Vec<u8> {
    text.as_bytes().to_vec()
}

fn holding(text: &str) -> InFile {
    InFile::new(tok(text), false, PositionInfo { index: 0, out_of: 1 })
}

#[test]
fn common_prefix_len_counts_equal_leading_bytes() {
    assert_eq!(common_prefix_len(&tok("AAAC"), &tok("AAAG")), 3);
    assert_eq!(common_prefix_len(&tok("AAA"), &tok("AAAG")), 3);
    assert_eq!(common_prefix_len(&tok("CAA"), &tok("AAA")), 0);
    assert_eq!(common_prefix_len(&tok(""), &tok("AAA")), 0);
    assert_eq!(common_prefix_len(&tok("AAA"), &tok("AAA")), 3);
}

#[test]
fn tokens_compare_byte_by_byte() {
    assert_eq!(compare_tokens(&tok("AAA"), &tok("AAC")), TokenOrder::Before);
    assert_eq!(compare_tokens(&tok("AAC"), &tok("AAA")), TokenOrder::After);
    assert_eq!(compare_tokens(&tok("AAA"), &tok("AAA")), TokenOrder::Same);
    assert_eq!(compare_tokens(&tok("B"), &tok("AZZZ")), TokenOrder::After);
}

#[test]
fn proper_prefix_sorts_first() {
    assert_eq!(compare_tokens(&tok("AA"), &tok("AAA")), TokenOrder::Before);
    assert_eq!(compare_tokens(&tok("AAA"), &tok("AA")), TokenOrder::After);
    assert_eq!(compare_tokens(&tok(""), &tok("A")), TokenOrder::Before);
    assert_eq!(compare_tokens(&tok(""), &tok("")), TokenOrder::Same);
}

#[test]
fn bytes_compare_unsigned() {
    assert_eq!(compare_tokens(&vec![0x7f], &vec![0x80]), TokenOrder::Before);
    assert_eq!(compare_tokens(&vec![0xff], &vec![0x00, 0xff]), TokenOrder::After);
    assert!(token_less(&vec![0x7f], &vec![0x80]));
}

#[test]
fn token_less_is_strict() {
    assert!(token_less(&tok("AAA"), &tok("AAC")));
    assert!(!token_less(&tok("AAC"), &tok("AAA")));
    assert!(!token_less(&tok("AAA"), &tok("AAA")));
    assert!(token_less(&tok("AA"), &tok("AAA")));
}

#[test]
fn token_equal_is_byte_exact() {
    assert!(token_equal(&tok("AAA"), &tok("AAA")));
    assert!(!token_equal(&tok("AAA"), &tok("AAC")));
    assert!(!token_equal(&tok("CAA"), &tok("AAA")));
    assert!(!token_equal(&tok("AAA"), &tok("AA")));
    assert!(token_equal(&tok(""), &tok("")));
}

#[test]
fn token_order_agrees_with_std_on_samples() {
    let samples = ["", "A", "AA", "AAA", "AAC", "AC", "C", "CA", "T", "a", "\u{7f}"];
    for a in samples {
        for b in samples {
            let expected = match a.as_bytes().cmp(b.as_bytes()) {
                Ordering::Less => TokenOrder::Before,
                Ordering::Equal => TokenOrder::Same,
                Ordering::Greater => TokenOrder::After,
            };
            assert_eq!(compare_tokens(&tok(a), &tok(b)), expected, "{:?} against {:?}", a, b);
            assert_eq!(token_less(&tok(a), &tok(b)), a.as_bytes() < b.as_bytes());
            assert_eq!(token_equal(&tok(a), &tok(b)), a == b);
        }
    }
}

#[test]
fn stream_with_smaller_token_ranks_greater() {
    let small = holding("AAA 1\n");
    let large = holding("AAC 1\n");
    assert_eq!(small.cmp(&large), Ordering::Greater);
    assert_eq!(large.cmp(&small), Ordering::Less);
    assert!(small.precedes(&large));
    assert!(!large.precedes(&small));
}

#[test]
fn exhausted_stream_ranks_below_every_other() {
    let live = holding("TTT 0\n");
    let done = holding("");
    assert_eq!(done.cmp(&live), Ordering::Less);
    assert_eq!(live.cmp(&done), Ordering::Greater);
    assert!(live.precedes(&done));
    assert!(!done.precedes(&live));
}

#[test]
fn two_exhausted_streams_rank_equal() {
    let a = holding("");
    let b = holding("bad\n");
    assert_eq!(a.cmp(&b), Ordering::Equal);
    assert!(a == b);
    assert!(!a.precedes(&b));
    assert_eq!(a.partial_cmp(&b), Some(Ordering::Equal));
}

#[test]
fn streams_with_equal_tokens_rank_equal_whatever_the_flag() {
    let a = holding("AAA 1\nAAC 1\n");
    let b = holding("AAA 0\nTTT 1\n");
    assert_eq!(a.cmp(&b), Ordering::Equal);
    assert!(a == b);
    assert!(!a.precedes(&b));
    assert!(!b.precedes(&a));
}

#[test]
fn streams_with_different_tokens_are_not_equal() {
    let a = holding("AAA 1\n");
    let b = holding("AAC 1\n");
    let done = holding("");
    assert!(a != b);
    assert!(a != done);
    assert!(done != a);
}

#[test]
fn comparison_operators_follow_the_rank() {
    let small = holding("AAA 1\n");
    let large = holding("AAC 1\n");
    let done = holding("");
    assert!(small > large);
    assert!(large < small);
    assert!(done < large);
    assert!(small >= holding("AAA 0\n"));
    assert_eq!(small.partial_cmp(&large), Some(Ordering::Greater));
    assert_eq!(done.partial_cmp(&small), Some(Ordering::Less));
}

#[test]
fn rank_follows_the_stream_as_it_advances() {
    let mut a = holding("AAA 1\nTTT 1\n");
    let b = holding("CCC 1\n");
    assert!(a.precedes(&b));
    a.advance();
    assert!(b.precedes(&a));
    a.advance();
    assert_eq!(a.cmp(&b), Ordering::Less);
}
