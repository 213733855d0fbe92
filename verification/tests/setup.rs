use kmer_merger::setup::{arrange, Input, SetupError};

fn names(list: &[&str]) -> Vec<Vec<u8>> {
    list.iter().map(|name| name.as_bytes().to_vec()).collect()
}

fn input(name: &str, inverted: bool) -> Input {
    Input { name: name.as_bytes().to_vec(), inverted }
}

#[test]
fn arrange_puts_normal_sources_before_inverted() {
    let inputs = arrange(names(&["a", "b"]), names(&["c", "d"]));
    assert_eq!(
        inputs,
        Ok(vec![input("a", false), input("b", false), input("c", true), input("d", true)])
    );
}

#[test]
fn arrange_accepts_only_normal_or_only_inverted() {
    assert_eq!(arrange(names(&["a"]), names(&[])), Ok(vec![input("a", false)]));
    assert_eq!(arrange(names(&[]), names(&["z"])), Ok(vec![input("z", true)]));
}

#[test]
fn arrange_keeps_the_given_order() {
    let inputs = arrange(names(&["z", "a", "m"]), names(&["k", "b"]));
    assert_eq!(
        inputs,
        Ok(vec![
            input("z", false),
            input("a", false),
            input("m", false),
            input("k", true),
            input("b", true)
        ])
    );
}

#[test]
fn arrange_refuses_no_sources() {
    assert_eq!(arrange(names(&[]), names(&[])), Err(SetupError::NoSources));
}

#[test]
fn arrange_refuses_duplicate_among_normal() {
    assert_eq!(
        arrange(names(&["a", "b", "a"]), names(&["c"])),
        Err(SetupError::DuplicateSource { first: 0, second: 2 })
    );
}

#[test]
fn arrange_refuses_duplicate_among_inverted() {
    assert_eq!(
        arrange(names(&["a"]), names(&["c", "c"])),
        Err(SetupError::DuplicateSource { first: 1, second: 2 })
    );
}

#[test]
fn arrange_refuses_duplicate_across_the_lists() {
    assert_eq!(
        arrange(names(&["a", "b"]), names(&["c", "b"])),
        Err(SetupError::DuplicateSource { first: 1, second: 3 })
    );
}

#[test]
fn arrange_reports_the_first_duplicate_pair() {
    assert_eq!(
        arrange(names(&["x", "y", "y", "x", "x"]), names(&[])),
        Err(SetupError::DuplicateSource { first: 1, second: 2 })
    );
    assert_eq!(
        arrange(names(&["x", "y", "x", "y", "x"]), names(&[])),
        Err(SetupError::DuplicateSource { first: 0, second: 2 })
    );
}

#[test]
fn arrange_compares_names_byte_for_byte() {
    assert_eq!(
        arrange(names(&["a", "A", "a ", "./a"]), names(&[])),
        Ok(vec![input("a", false), input("A", false), input("a ", false), input("./a", false)])
    );
}

#[test]
fn setup_errors_describe_themselves() {
    assert_eq!(SetupError::NoSources.message(), "no sources given");
    assert_eq!(
        SetupError::DuplicateSource { first: 0, second: 1 }.message(),
        "a source is named twice"
    );
}
