//! From named listings to the text of the merged table.

use vstd::prelude::*;
use crate::format::{append_bytes, format_header, format_rows, header_text, table_text};
use crate::infile::{
    is_single_line, lemma_skip_malformed, line_aligned, records,
};
use crate::merge::{merge, source_records, Source};
use crate::record::{byte_views, parse_line_spec, Record, NEWLINE};
use crate::setup::{arrange, column_order, has_duplicate, is_first_duplicate, SetupError};
use crate::table::{all_ascending, merged};

verus! {

/// A source with its name and its bytes.
#[derive(Debug, PartialEq, Eq)]
pub struct Listing {
    pub name: Vec<u8>,
    pub data: Vec<u8>,
}

/// The names of the listings, in order.
pub open spec fn listing_names(listings: Seq<Listing>) -> Seq<Seq<u8>> {
    Seq::new(listings.len(), |i: int| listings[i].name@)
}

/// The records of the listings, read plainly or inverted.
pub open spec fn listing_records(listings: Seq<Listing>, inverted: bool) -> Seq<Seq<Record>> {
    Seq::new(listings.len(), |i: int| records(listings[i].data@, inverted))
}

/// The records of all the sources in the order of the columns: the normal
/// listings read plainly, then the inverted listings read inverted.
pub open spec fn all_records(normal: Seq<Listing>, inverted: Seq<Listing>) -> Seq<Seq<Record>> {
    listing_records(normal, false) + listing_records(inverted, true)
}

/// The names of all the sources in the order of the columns.
pub open spec fn all_names(normal: Seq<Listing>, inverted: Seq<Listing>) -> Seq<Seq<u8>> {
    column_order(listing_names(normal), listing_names(inverted))
}

/// What merging the listings comes to.
///
/// Without a source the merge fails with `NoSources`. With a name that
/// occurs twice it fails with `DuplicateSource`, which names the first such
/// pair. Otherwise it yields a text that begins with the header line, and,
/// if every listing's tokens ascend strictly, continues with the lines of
/// the merged table and nothing else.
pub open spec fn is_merge_outcome(
    normal: Seq<Listing>,
    inverted: Seq<Listing>,
    outcome: Result<Seq<u8>, SetupError>,
) -> bool {
    let names = all_names(normal, inverted);
    let recs = all_records(normal, inverted);
    match outcome {
        Ok(text) => {
            &&& names.len() > 0
            &&& !has_duplicate(names)
            &&& header_text(names).is_prefix_of(text)
            &&& all_ascending(recs) ==> text == header_text(names) + table_text(merged(recs))
        },
        Err(SetupError::NoSources) => names.len() == 0,
        Err(SetupError::DuplicateSource { first, second }) => is_first_duplicate(
            names,
            first as int,
            second as int,
        ),
    }
}

/// The outcome as contracts see it: the text by its bytes.
pub open spec fn outcome_view(r: Result<Vec<u8>, SetupError>) -> Result<Seq<u8>, SetupError> {
    match r {
        Ok(text) => Ok(text@),
        Err(e) => Err(e),
    }
}

/// Merges the listings into the text of one table: the header line, then a
/// line for every distinct token. The normal listings take the first
/// columns, the inverted listings the columns after them.
pub fn merge_listings(normal: Vec<Listing>, inverted: Vec<Listing>) -> (r: Result<
    Vec<u8>,
    SetupError,
>)
    ensures
        is_merge_outcome(normal@, inverted@, outcome_view(r)),
{
    let ghost names = all_names(normal@, inverted@);
    let ghost recs = all_records(normal@, inverted@);
    let ghost split = normal@.len();
    let mut normal_names: Vec<Vec<u8>> = Vec::new();
    let mut inverted_names: Vec<Vec<u8>> = Vec::new();
    let mut sources: Vec<Source> = Vec::new();
    for listing in iter: normal
        invariant
            iter.seq() == normal@,
            normal_names@.len() == iter.index(),
            sources@.len() == iter.index(),
            forall|i: int| 0 <= i < iter.index() ==> (#[trigger] normal_names@[i]) == normal@[i].name,
            forall|i: int|
                0 <= i < iter.index() ==> (#[trigger] sources@[i]).data == normal@[i].data
                    && !sources@[i].inverted,
    {
        normal_names.push(listing.name);
        sources.push(Source { data: listing.data, inverted: false });
    }
    for listing in iter: inverted
        invariant
            iter.seq() == inverted@,
            split == normal@.len(),
            inverted_names@.len() == iter.index(),
            sources@.len() == split + iter.index(),
            forall|i: int|
                0 <= i < iter.index() ==> (#[trigger] inverted_names@[i]) == inverted@[i].name,
            forall|i: int|
                0 <= i < split ==> (#[trigger] sources@[i]).data == normal@[i].data
                    && !sources@[i].inverted,
            forall|i: int|
                split <= i < sources@.len() ==> (#[trigger] sources@[i]).data == inverted@[i
                    - split].data && sources@[i].inverted,
    {
        inverted_names.push(listing.name);
        sources.push(Source { data: listing.data, inverted: true });
    }
    proof {
        assert(byte_views(normal_names@) =~= listing_names(normal@));
        assert(byte_views(inverted_names@) =~= listing_names(inverted@));
        assert(source_records(sources@) =~= recs);
    }
    let inputs = match arrange(normal_names, inverted_names) {
        Ok(inputs) => inputs,
        Err(e) => {
            return Err(e);
        },
    };
    let mut text = format_header(&inputs);
    let rows = merge(sources);
    let lines = format_rows(&rows);
    append_bytes(&mut text, &lines);
    Ok(text)
}

/// The first pair of equal names is unique.
pub proof fn lemma_first_duplicate_unique(
    names: Seq<Seq<u8>>,
    first: int,
    second: int,
    other_first: int,
    other_second: int,
)
    requires
        is_first_duplicate(names, first, second),
        is_first_duplicate(names, other_first, other_second),
    ensures
        first == other_first,
        second == other_second,
{
}

/// Listings with the same names and bytes, given in the same order, have
/// the same outcome, byte for byte, provided that their tokens ascend.
pub proof fn lemma_outcome_determined(
    normal: Seq<Listing>,
    inverted: Seq<Listing>,
    again_normal: Seq<Listing>,
    again_inverted: Seq<Listing>,
    outcome: Result<Seq<u8>, SetupError>,
    again: Result<Seq<u8>, SetupError>,
)
    requires
        listing_names(normal) == listing_names(again_normal),
        listing_names(inverted) == listing_names(again_inverted),
        byte_views_of(normal) == byte_views_of(again_normal),
        byte_views_of(inverted) == byte_views_of(again_inverted),
        all_ascending(all_records(normal, inverted)),
        is_merge_outcome(normal, inverted, outcome),
        is_merge_outcome(again_normal, again_inverted, again),
    ensures
        outcome == again,
{
    lemma_same_bytes_same_records(normal, again_normal, false);
    lemma_same_bytes_same_records(inverted, again_inverted, true);
    let names = all_names(normal, inverted);
    match (outcome, again) {
        (
            Err(SetupError::DuplicateSource { first, second }),
            Err(SetupError::DuplicateSource { first: f, second: s }),
        ) => {
            lemma_first_duplicate_unique(names, first as int, second as int, f as int, s as int);
        },
        (Err(SetupError::DuplicateSource { first, second }), Ok(_)) => {
            assert(names[first as int] == names[second as int]);
        },
        (Ok(_), Err(SetupError::DuplicateSource { first, second })) => {
            assert(names[first as int] == names[second as int]);
        },
        _ => {},
    }
}

/// The bytes of the listings, in order.
pub open spec fn byte_views_of(listings: Seq<Listing>) -> Seq<Seq<u8>> {
    Seq::new(listings.len(), |i: int| listings[i].data@)
}

/// Listings with the same bytes hold the same records.
pub proof fn lemma_same_bytes_same_records(a: Seq<Listing>, b: Seq<Listing>, inverted: bool)
    requires
        byte_views_of(a) == byte_views_of(b),
    ensures
        listing_records(a, inverted) == listing_records(b, inverted),
{
    assert(a.len() == byte_views_of(a).len());
    assert(b.len() == byte_views_of(b).len());
    assert forall|i: int| 0 <= i < a.len() implies listing_records(a, inverted)[i]
        == listing_records(b, inverted)[i] by {
        assert(byte_views_of(a)[i] == a[i].data@);
        assert(byte_views_of(b)[i] == b[i].data@);
    }
    assert(listing_records(a, inverted) =~= listing_records(b, inverted));
}

/// `shorter` is `longer` with one malformed line taken out of listing `i`:
/// the line `bad`, which stood between `before` and `after`.
pub open spec fn without_line(
    longer: Seq<Listing>,
    shorter: Seq<Listing>,
    i: int,
    before: Seq<u8>,
    bad: Seq<u8>,
    after: Seq<u8>,
) -> bool {
    &&& 0 <= i < longer.len()
    &&& longer.len() == shorter.len()
    &&& listing_names(longer) == listing_names(shorter)
    &&& forall|j: int| 0 <= j < longer.len() && j != i ==> (#[trigger] longer[j]).data@ == shorter[j].data@
    &&& longer[i].data@ == before + bad + after
    &&& shorter[i].data@ == before + after
    &&& line_aligned(before)
    &&& is_single_line(bad)
    &&& (bad.last() == NEWLINE || after.len() == 0)
    &&& parse_line_spec(bad) is None
}

/// Taking a malformed line out of a listing leaves the records of the
/// listings as they were.
pub proof fn lemma_malformed_line_ignored(
    longer: Seq<Listing>,
    shorter: Seq<Listing>,
    i: int,
    before: Seq<u8>,
    bad: Seq<u8>,
    after: Seq<u8>,
    inverted: bool,
)
    requires
        without_line(longer, shorter, i, before, bad, after),
    ensures
        listing_records(longer, inverted) == listing_records(shorter, inverted),
{
    lemma_skip_malformed(before, bad, after, inverted);
    assert forall|j: int| 0 <= j < longer.len() implies listing_records(longer, inverted)[j]
        == listing_records(shorter, inverted)[j] by {
        if j != i {
            assert(longer[j].data@ == shorter[j].data@);
        }
    }
    assert(listing_records(longer, inverted) =~= listing_records(shorter, inverted));
}

/// A malformed line in a normal listing does not change the outcome: what
/// the merge yields with the line it yields without it.
pub proof fn lemma_malformed_line_in_normal(
    longer: Seq<Listing>,
    shorter: Seq<Listing>,
    inverted: Seq<Listing>,
    i: int,
    before: Seq<u8>,
    bad: Seq<u8>,
    after: Seq<u8>,
    outcome: Result<Seq<u8>, SetupError>,
)
    requires
        without_line(longer, shorter, i, before, bad, after),
    ensures
        is_merge_outcome(longer, inverted, outcome) <==> is_merge_outcome(
            shorter,
            inverted,
            outcome,
        ),
{
    lemma_malformed_line_ignored(longer, shorter, i, before, bad, after, false);
}

/// A malformed line in an inverted listing does not change the outcome
/// either.
pub proof fn lemma_malformed_line_in_inverted(
    normal: Seq<Listing>,
    longer: Seq<Listing>,
    shorter: Seq<Listing>,
    i: int,
    before: Seq<u8>,
    bad: Seq<u8>,
    after: Seq<u8>,
    outcome: Result<Seq<u8>, SetupError>,
)
    requires
        without_line(longer, shorter, i, before, bad, after),
    ensures
        is_merge_outcome(normal, longer, outcome) <==> is_merge_outcome(
            normal,
            shorter,
            outcome,
        ),
{
    lemma_malformed_line_ignored(longer, shorter, i, before, bad, after, true);
}

} // verus!
