use kmer_merger::merge::{merge, Merger, Source};
use kmer_merger::record::KmerState;

fn plain(text: &str) -> Source {
    Source { data: text.as_bytes().to_vec(), inverted: false }
}

fn flipped(text: &str) -> Source {
    Source { data: text.as_bytes().to_vec(), inverted: true }
}

fn row(token: &str, present: Vec<bool>) -> KmerState {
    KmerState { kmer: token.as_bytes().to_vec(), present }
}

fn tokens(rows: &Vec<KmerState>) -> Vec<Vec<u8>> {
    rows.iter().map(|r| r.kmer.clone()).collect()
}

#[test]
fn merge_of_two_sources_folds_equal_tokens() {
    let rows = merge(vec![plain("AAA 1\nAAC 0\nAAG 1\n"), plain("AAA 0\nAAG 1\nAAT 1\n")]);
    assert_eq!(
        rows,
        vec![
            row("AAA", vec![true, false]),
            row("AAC", vec![false, false]),
            row("AAG", vec![true, true]),
            row("AAT", vec![false, true]),
        ]
    );
}

#[test]
fn merge_with_inverted_source_negates_recorded_flags_only() {
    let rows = merge(vec![plain("AAA 1\nAAC 0\nAAG 1\n"), flipped("AAA 0\nAAG 1\nAAT 1\n")]);
    assert_eq!(
        rows,
        vec![
            row("AAA", vec![true, true]),
            row("AAC", vec![false, false]),
            row("AAG", vec![true, false]),
            row("AAT", vec![false, false]),
        ]
    );
}

#[test]
fn merge_of_no_sources_is_empty() {
    assert_eq!(merge(Vec::new()), Vec::<KmerState>::new());
}

#[test]
fn merge_of_empty_sources_is_empty() {
    assert_eq!(merge(vec![plain(""), plain("\n\n"), flipped("bad\n")]), Vec::<KmerState>::new());
}

#[test]
fn merge_of_one_source_lists_its_records() {
    let rows = merge(vec![plain("A 1\nB 0\nC 1")]);
    assert_eq!(rows, vec![row("A", vec![true]), row("B", vec![false]), row("C", vec![true])]);
}

#[test]
fn merge_with_an_empty_source_keeps_its_column() {
    let rows = merge(vec![plain(""), plain("A 1\nB 1\n"), plain("")]);
    assert_eq!(
        rows,
        vec![row("A", vec![false, true, false]), row("B", vec![false, true, false])]
    );
}

#[test]
fn merge_of_disjoint_sources_interleaves_them() {
    let rows = merge(vec![plain("B 1\nD 1\nF 1\n"), plain("A 1\nC 1\nE 1\n")]);
    assert_eq!(
        rows,
        vec![
            row("A", vec![false, true]),
            row("B", vec![true, false]),
            row("C", vec![false, true]),
            row("D", vec![true, false]),
            row("E", vec![false, true]),
            row("F", vec![true, false]),
        ]
    );
}

#[test]
fn merge_of_identical_sources_has_one_row_per_token() {
    let rows = merge(vec![plain("A 1\nB 0\n"), plain("A 1\nB 0\n"), plain("A 1\nB 0\n")]);
    assert_eq!(
        rows,
        vec![row("A", vec![true, true, true]), row("B", vec![false, false, false])]
    );
}

#[test]
fn merge_orders_prefix_before_longer_token() {
    let rows = merge(vec![plain("AAA 1\nAAAA 1\n"), plain("AA 1\nAAAC 1\n")]);
    assert_eq!(
        tokens(&rows),
        vec![b"AA".to_vec(), b"AAA".to_vec(), b"AAAA".to_vec(), b"AAAC".to_vec()]
    );
}

#[test]
fn merge_of_many_sources_is_sorted_complete_and_correct() {
    let texts = [
        "AAA 1\nACG 0\nCCC 1\nGGA 1\nTTT 0\n",
        "AAC 1\nACG 1\nGGA 0\n",
        "",
        "AAA 0\nAAC 0\nAAG 1\nCCC 1\nTTT 1\n",
        "TTT 1\n",
        "ACG 1\nCCC 0\nGGG 1\n",
    ];
    let inverted = [false, true, false, true, false, false];
    let sources = texts
        .iter()
        .zip(inverted.iter())
        .map(|(text, inv)| Source { data: text.as_bytes().to_vec(), inverted: *inv })
        .collect();
    let rows = merge(sources);

    let found = tokens(&rows);
    for pair in found.windows(2) {
        assert!(pair[0] < pair[1], "tokens must ascend strictly");
    }

    let mut expected_tokens: Vec<Vec<u8>> = Vec::new();
    for text in texts {
        for line in text.lines() {
            expected_tokens.push(line.as_bytes()[..line.len() - 2].to_vec());
        }
    }
    expected_tokens.sort();
    expected_tokens.dedup();
    assert_eq!(found, expected_tokens);

    for r in &rows {
        assert_eq!(r.present.len(), texts.len());
        for (i, text) in texts.iter().enumerate() {
            let recorded = text
                .lines()
                .find(|line| line.as_bytes()[..line.len() - 2] == r.kmer[..])
                .map(|line| line.ends_with('1'));
            let expected = match recorded {
                Some(flag) => flag != inverted[i],
                None => false,
            };
            assert_eq!(r.present[i], expected, "token {:?}, source {}", r.kmer, i);
        }
    }
}

#[test]
fn merge_skips_a_malformed_line_between_valid_ones() {
    let with = merge(vec![plain("AAA 1\nbad\nAAG 0\n"), plain("AAC 1\n")]);
    let without = merge(vec![plain("AAA 1\nAAG 0\n"), plain("AAC 1\n")]);
    assert_eq!(with, without);
    assert_eq!(
        with,
        vec![
            row("AAA", vec![true, false]),
            row("AAC", vec![false, true]),
            row("AAG", vec![false, false]),
        ]
    );
}

#[test]
fn merge_gives_the_same_rows_each_time() {
    let make = || vec![plain("A 1\nC 0\nG 1\n"), flipped("A 0\nG 1\nT 1\n"), plain("C 1\n")];
    assert_eq!(merge(make()), merge(make()));
}

#[test]
fn merge_of_unsorted_source_still_ends_with_full_width_rows() {
    let rows = merge(vec![plain("C 1\nA 1\nB 0\nA 1\n"), plain("B 1\nB 1\nA 0\n")]);
    assert!(!rows.is_empty());
    assert!(rows.len() <= 7);
    for r in &rows {
        assert_eq!(r.present.len(), 2);
    }
}

#[test]
fn merger_hands_out_rows_one_at_a_time() {
    let mut merger = Merger::new(vec![plain("A 1\nC 1\n"), plain("A 0\nB 1\n")]);
    assert_eq!(merger.width(), 2);
    assert_eq!(merger.next_row(), Some(row("A", vec![true, false])));
    assert_eq!(merger.next_row(), Some(row("B", vec![false, true])));
    assert_eq!(merger.next_row(), Some(row("C", vec![true, false])));
    assert_eq!(merger.next_row(), None);
    assert_eq!(merger.next_row(), None);
    assert_eq!(merger.width(), 2);
}

#[test]
fn merger_over_nothing_is_finished() {
    let mut merger = Merger::new(Vec::new());
    assert_eq!(merger.width(), 0);
    assert_eq!(merger.next_row(), None);
}

#[test]
fn merger_folds_a_token_held_by_every_source() {
    let mut merger = Merger::new(vec![plain("K 1\n"), flipped("K 1\n"), plain("K 0\n"), flipped("K 0\n")]);
    assert_eq!(merger.next_row(), Some(row("K", vec![true, false, false, true])));
    assert_eq!(merger.next_row(), None);
}
