use kmer_merger::infile::malformed_lines;
use kmer_merger::pipeline::{merge_listings, Listing};
use kmer_merger::setup::SetupError;

fn listing(name: &str, data: &str) -> Listing {
    Listing { name: name.as_bytes().to_vec(), data: data.as_bytes().to_vec() }
}

fn shown(outcome: Result<Vec<u8>, SetupError>) -> Result<String, SetupError> {
    outcome.map(|text| String::from_utf8(text).expect("the table is text"))
}

#[test]
fn two_sources_merge_into_one_table() {
    let outcome = merge_listings(
        vec![listing("a", "AAA 1\nAAC 0\nAAG 1\n"), listing("b", "AAA 0\nAAG 1\nAAT 1\n")],
        Vec::new(),
    );
    let expected = "kmer\ta\tb\nAAA\t1\t0\nAAC\t0\t0\nAAG\t1\t1\nAAT\t0\t1\n";
    assert_eq!(shown(outcome), Ok(expected.to_string()));
}

#[test]
fn inverted_second_source_flips_only_recorded_flags() {
    let outcome = merge_listings(
        vec![listing("a", "AAA 1\nAAC 0\nAAG 1\n")],
        vec![listing("b", "AAA 0\nAAG 1\nAAT 1\n")],
    );
    let expected = "kmer\ta\tb\nAAA\t1\t1\nAAC\t0\t0\nAAG\t1\t0\nAAT\t0\t0\n";
    assert_eq!(shown(outcome), Ok(expected.to_string()));
}

#[test]
fn malformed_line_between_valid_lines_is_skipped() {
    let with = "AAA 1\nbad\nAAG 1\n";
    let without = "AAA 1\nAAG 1\n";
    let outcome = merge_listings(vec![listing("a", with), listing("b", "AAC 0\n")], Vec::new());
    let cleaned = merge_listings(vec![listing("a", without), listing("b", "AAC 0\n")], Vec::new());
    assert_eq!(outcome, cleaned);
    assert_eq!(
        shown(outcome),
        Ok("kmer\ta\tb\nAAA\t1\t0\nAAC\t0\t0\nAAG\t1\t0\n".to_string())
    );
    assert_eq!(malformed_lines(&with.as_bytes().to_vec()), vec![b"bad".to_vec()]);
    assert_eq!(malformed_lines(&without.as_bytes().to_vec()), Vec::<Vec<u8>>::new());
}

#[test]
fn duplicate_source_gives_no_output() {
    let outcome = merge_listings(
        vec![listing("a", "AAA 1\n"), listing("a", "AAA 1\n")],
        Vec::new(),
    );
    assert_eq!(outcome, Err(SetupError::DuplicateSource { first: 0, second: 1 }));
}

#[test]
fn duplicate_across_normal_and_inverted_gives_no_output() {
    let outcome = merge_listings(
        vec![listing("a", "AAA 1\n"), listing("b", "AAC 1\n")],
        vec![listing("c", "AAG 1\n"), listing("a", "AAA 1\n")],
    );
    assert_eq!(outcome, Err(SetupError::DuplicateSource { first: 0, second: 3 }));
}

#[test]
fn no_sources_give_no_output() {
    assert_eq!(merge_listings(Vec::new(), Vec::new()), Err(SetupError::NoSources));
}

#[test]
fn only_inverted_sources_are_accepted() {
    let outcome = merge_listings(Vec::new(), vec![listing("n", "AAA 0\nCCC 1\n")]);
    assert_eq!(shown(outcome), Ok("kmer\tn\nAAA\t1\nCCC\t0\n".to_string()));
}

#[test]
fn empty_sources_give_the_header_alone() {
    let outcome = merge_listings(vec![listing("a", ""), listing("b", "\n")], vec![listing("c", "")]);
    assert_eq!(shown(outcome), Ok("kmer\ta\tb\tc\n".to_string()));
}

#[test]
fn inverted_columns_follow_normal_columns() {
    let outcome = merge_listings(
        vec![listing("n1", "A 1\n"), listing("n2", "B 1\n")],
        vec![listing("i1", "A 1\nB 0\n"), listing("i2", "C 0\n")],
    );
    let expected = "kmer\tn1\tn2\ti1\ti2\nA\t1\t0\t0\t0\nB\t0\t1\t1\t0\nC\t0\t0\t0\t1\n";
    assert_eq!(shown(outcome), Ok(expected.to_string()));
}

#[test]
fn separators_and_missing_final_newline_do_not_matter() {
    let spaced = merge_listings(vec![listing("a", "AAA 1\nCCC 0\n")], Vec::new());
    let tabbed = merge_listings(vec![listing("a", "AAA\t1\n\nCCC\t0")], Vec::new());
    assert_eq!(spaced, tabbed);
    assert_eq!(shown(spaced), Ok("kmer\ta\nAAA\t1\nCCC\t0\n".to_string()));
}

#[test]
fn identical_inputs_give_identical_bytes() {
    let run = || {
        merge_listings(
            vec![listing("a", "AAA 1\nAAC 0\nAAG 1\n"), listing("b", "AAA 0\nAAG 1\n")],
            vec![listing("c", "AAC 1\nTTT 0\n")],
        )
    };
    let first = run();
    assert!(first.is_ok());
    assert_eq!(first, run());
}
