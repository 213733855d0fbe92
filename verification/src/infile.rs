//! A source as a stream of records: the bytes of one listing, read line by
//! line, with the next valid record held ready.

use vstd::prelude::*;
pub use crate::record::{parse_line, KmerState, ParsedLine, PositionInfo};
use crate::record::{
    byte_views, expand, parse_line_spec, strip_newline, Record, FLAG_ABSENT, FLAG_PRESENT,
    NEWLINE, SPACE, TAB,
};

verus! {

/// Length of the first line of `data`, its newline included. The last line
/// of a source may lack the newline.
pub open spec fn first_line_len(data: Seq<u8>) -> nat
    decreases data.len(),
{
    if data.len() == 0 {
        0
    } else if data[0] == NEWLINE {
        1
    } else {
        1 + first_line_len(data.skip(1))
    }
}

/// The first line is not empty, ends at the first newline, and holds no
/// other.
pub proof fn lemma_first_line_len(data: Seq<u8>)
    requires
        data.len() > 0,
    ensures
        1 <= first_line_len(data) <= data.len(),
        forall|j: int| 0 <= j < first_line_len(data) - 1 ==> data[j] != NEWLINE,
        first_line_len(data) < data.len() ==> data[first_line_len(data) - 1] == NEWLINE,
        data[first_line_len(data) - 1] != NEWLINE ==> first_line_len(data) == data.len(),
    decreases data.len(),
{
    if data[0] != NEWLINE {
        let rest = data.skip(1);
        if rest.len() > 0 {
            lemma_first_line_len(rest);
        }
        assert(first_line_len(data) == 1 + first_line_len(rest));
        assert forall|j: int| 0 <= j < first_line_len(data) - 1 implies data[j] != NEWLINE by {
            if j > 0 {
                assert(rest[j - 1] == data[j]);
            }
        }
        if first_line_len(data) > 1 {
            assert(rest[first_line_len(rest) - 1] == data[first_line_len(data) - 1]);
        }
    }
}

/// A record as the stream reports it: the flag negated for an inverted
/// source.
pub open spec fn flip(r: Record, inverted: bool) -> Record {
    Record { token: r.token, present: r.present != inverted }
}

/// The records of a source, in the order of its lines. Lines that do not
/// follow the grammar, blank lines among them, contribute nothing.
pub open spec fn records(data: Seq<u8>, inverted: bool) -> Seq<Record>
    decreases data.len(),
{
    if data.len() == 0 {
        Seq::empty()
    } else {
        let n = first_line_len(data) as int;
        proof {
            lemma_first_line_len(data);
        }
        let rest = records(data.skip(n), inverted);
        match parse_line_spec(data.take(n)) {
            Some(r) => seq![flip(r, inverted)] + rest,
            None => rest,
        }
    }
}

/// Whether a line is only a newline.
pub open spec fn is_blank(line: Seq<u8>) -> bool {
    line.len() == 1 && line[0] == NEWLINE
}

/// The lines of a source that the stream skips as malformed, each without
/// its newline, in the order of the source. Blank lines are not among them.
pub open spec fn malformed(data: Seq<u8>) -> Seq<Seq<u8>>
    decreases data.len(),
{
    if data.len() == 0 {
        Seq::empty()
    } else {
        let n = first_line_len(data) as int;
        proof {
            lemma_first_line_len(data);
        }
        let rest = malformed(data.skip(n));
        let line = data.take(n);
        if is_blank(line) || parse_line_spec(line) is Some {
            rest
        } else {
            seq![strip_newline(line)] + rest
        }
    }
}

/// The token of the first record, if there is one.
pub open spec fn head_token(pending: Seq<Record>) -> Option<Seq<u8>> {
    if pending.len() > 0 {
        Some(pending[0].token)
    } else {
        None
    }
}

/// Copies the line that starts at `start` out of `source`, newline
/// included. The line is empty at the end of the source only.
pub fn line_at(source: &Vec<u8>, start: usize) -> (line: Vec<u8>)
    requires
        start <= source@.len(),
    ensures
        line@ == source@.skip(start as int).take(
            first_line_len(source@.skip(start as int)) as int,
        ),
        line@.len() == first_line_len(source@.skip(start as int)),
        start + line@.len() <= source@.len() <= usize::MAX,
        line@.len() == 0 <==> start == source@.len(),
{
    let ghost rest = source@.skip(start as int);
    let total = source.len();
    let mut line: Vec<u8> = Vec::new();
    let mut offset = start;
    let mut ended = false;
    while !ended && offset < total
        invariant
            start <= offset <= total == source@.len(),
            rest == source@.skip(start as int),
            line@ == rest.take(offset - start),
            forall|j: int| 0 <= j < line@.len() - 1 ==> line@[j] != NEWLINE,
            ended <==> line@.len() > 0 && line@.last() == NEWLINE,
        decreases total - offset + if ended { 0int } else { 1int },
    {
        let b = source[offset];
        line.push(b);
        offset += 1;
        ended = b == NEWLINE;
        assert(line@ =~= rest.take(offset - start));
    }
    proof {
        assert forall|j: int| 0 <= j < line@.len() - 1 implies rest[j] != NEWLINE by {
            assert(rest[j] == line@[j]);
        }
        lemma_line_found(rest, line@.len() as int);
    }
    line
}

/// Whether a line, with or without its newline, follows the grammar.
pub fn follows_grammar(line: &Vec<u8>) -> (ok: bool)
    ensures
        ok == parse_line_spec(line@).is_some(),
{
    let n = line.len();
    let end = if n > 0 && line[n - 1] == NEWLINE {
        n - 1
    } else {
        n
    };
    proof {
        let body = strip_newline(line@);
        assert(body.len() == end);
        assert(forall|j: int| 0 <= j < end ==> body[j] == line@[j]);
    }
    end >= 3 && (line[end - 1] == FLAG_ABSENT || line[end - 1] == FLAG_PRESENT) && (line[end - 2]
        == SPACE || line[end - 2] == TAB)
}

/// The lines of a source that a stream over it skips as malformed, each
/// without its newline, in the order of the source. Blank lines are skipped
/// too, but are not malformed.
pub fn malformed_lines(source: &Vec<u8>) -> (lines: Vec<Vec<u8>>)
    ensures
        byte_views(lines@) == malformed(source@),
{
    let mut lines: Vec<Vec<u8>> = Vec::new();
    let mut offset: usize = 0;
    assert(source@.skip(0) =~= source@);
    loop
        invariant
            offset <= source@.len(),
            byte_views(lines@) + malformed(source@.skip(offset as int)) == malformed(source@),
        ensures
            byte_views(lines@) == malformed(source@),
        decreases source@.len() - offset,
    {
        let ghost rest = source@.skip(offset as int);
        let ghost found = byte_views(lines@);
        let mut line = line_at(source, offset);
        if line.len() == 0 {
            assert(found + malformed(rest) =~= found);
            break;
        }
        proof {
            lemma_first_line_len(rest);
            assert(source@.skip(offset + line@.len()) =~= rest.skip(line@.len() as int));
        }
        offset += line.len();
        let blank = line.len() == 1 && line[0] == NEWLINE;
        if !blank && !follows_grammar(&line) {
            let ghost whole = line@;
            if line[line.len() - 1] == NEWLINE {
                line.pop();
            }
            assert(line@ =~= strip_newline(whole));
            lines.push(line);
            assert(byte_views(lines@) =~= found + seq![strip_newline(whole)]);
            assert(byte_views(lines@) + malformed(source@.skip(offset as int)) =~= found
                + malformed(rest));
        }
    }
    lines
}

/// Scans forward from `start` to the next line that follows the grammar.
/// Returns its record, with the flag negated for an inverted source, and the
/// position behind the line; or `None` and the end of the source. Blank and
/// malformed lines are passed over.
fn next_record(source: &Vec<u8>, start: usize, inverted: bool) -> (found: (
    Option<ParsedLine>,
    usize,
))
    requires
        start <= source@.len(),
    ensures
        start <= found.1 <= source@.len(),
        match found.0 {
            Some(line) => records(source@.skip(start as int), inverted) == seq![line@] + records(
                source@.skip(found.1 as int),
                inverted,
            ),
            None => {
                &&& found.1 == source@.len()
                &&& records(source@.skip(start as int), inverted) == Seq::<Record>::empty()
            },
        },
{
    let ghost all = records(source@.skip(start as int), inverted);
    let mut offset = start;
    let mut found: Option<ParsedLine> = None;
    loop
        invariant_except_break
            found is None,
            records(source@.skip(offset as int), inverted) == all,
        invariant
            start <= offset <= source@.len(),
        ensures
            match found {
                Some(line) => all == seq![line@] + records(source@.skip(offset as int), inverted),
                None => offset == source@.len() && all == Seq::<Record>::empty(),
            },
        decreases source@.len() - offset,
    {
        let ghost before = source@.skip(offset as int);
        let line = line_at(source, offset);
        if line.len() == 0 {
            break;
        }
        proof {
            lemma_first_line_len(before);
            assert(source@.skip(offset + line@.len()) =~= before.skip(line@.len() as int));
        }
        offset += line.len();
        if !(line.len() == 1 && line[0] == NEWLINE) {
            if let Some(mut parsed_line) = parse_line(line) {
                if inverted {
                    parsed_line.present = !parsed_line.present;
                }
                assert(parsed_line@ == flip(parse_line_spec(line@).unwrap(), inverted));
                found = Some(parsed_line);
                break;
            }
        }
    }
    (found, offset)
}

/// One source being read. It holds the source's bytes, how far they have
/// been read, and the next valid record, if any is left.
pub struct InFile {
    position: PositionInfo,
    source: Vec<u8>,
    offset: usize,
    curr_line: Option<ParsedLine>,
    inverted: bool,
}

impl InFile {
    /// The bytes not yet read.
    spec fn unread(&self) -> Seq<u8> {
        self.source@.skip(self.offset as int)
    }

    /// Whether the stream reports negated flags.
    pub closed spec fn is_inverted(&self) -> bool {
        self.inverted
    }

    /// The stream's column and the number of columns, as contracts see them.
    pub closed spec fn spec_position(&self) -> &PositionInfo {
        &self.position
    }

    /// The stream's column and the number of columns.
    #[verifier::when_used_as_spec(spec_position)]
    pub fn position(&self) -> (p: &PositionInfo)
        ensures
            p == self.spec_position(),
    {
        &self.position
    }

    /// The records that the stream has yet to hand out: the one held ready,
    /// then those of the unread bytes.
    pub closed spec fn pending(&self) -> Seq<Record> {
        match self.curr_line {
            Some(line) => seq![line@] + records(self.unread(), self.inverted),
            None => Seq::empty(),
        }
    }

    /// The stream's invariant: the read position lies within the source, and
    /// no record is held ready only once the source is read to its end.
    #[verifier::type_invariant]
    closed spec fn inv(&self) -> bool {
        &&& self.offset <= self.source@.len()
        &&& self.curr_line is None ==> self.offset == self.source@.len()
    }

    /// Opens a stream over the bytes of one source and loads its first valid
    /// record.
    pub fn new(source: Vec<u8>, inverted: bool, position: PositionInfo) -> (stream: InFile)
        ensures
            stream.pending() == records(source@, inverted),
            stream.is_inverted() == inverted,
            stream.position() == position,
    {
        assert(source@.skip(0) =~= source@);
        let (curr_line, offset) = next_record(&source, 0, inverted);
        InFile { position, source, offset, curr_line, inverted }
    }

    /// Hands out the record held ready, widened to a full presence vector,
    /// and loads the next valid record. Returns `None` once the source is
    /// exhausted.
    pub fn advance(&mut self) -> (state: Option<KmerState>)
        ensures
            final(self).position() == old(self).position(),
            final(self).is_inverted() == old(self).is_inverted(),
            match state {
                Some(row) => {
                    &&& old(self).pending().len() > 0
                    &&& row@ == expand(
                        old(self).pending()[0],
                        old(self).position().index as int,
                        old(self).position().out_of as int,
                    )
                    &&& final(self).pending() == old(self).pending().skip(1)
                },
                None => old(self).pending().len() == 0 && final(self).pending().len() == 0,
            },
    {
        proof {
            use_type_invariant(&*self);
        }
        if self.curr_line.is_none() {
            return None;
        }
        let (mut line, end) = next_record(&self.source, self.offset, self.inverted);
        self.offset = end;
        core::mem::swap(&mut self.curr_line, &mut line);
        assert(self.pending() =~= old(self).pending().skip(1));
        match line {
            Some(prev_line) => Some(prev_line.into_kmer_state(&self.position)),
            None => None,
        }
    }

    /// The token of the record held ready: the key by which streams are
    /// ranked. `None` once the source is exhausted.
    pub fn key(&self) -> (k: Option<&Vec<u8>>)
        ensures
            match k {
                Some(token) => head_token(self.pending()) == Some(token@),
                None => head_token(self.pending()) is None,
            },
    {
        match &self.curr_line {
            Some(line) => Some(&line.kmer),
            None => None,
        }
    }
}

/// A prefix of `data` that ends at its first newline, or spans all of `data`
/// without one, is its first line.
proof fn lemma_line_found(data: Seq<u8>, n: int)
    requires
        0 <= n <= data.len(),
        forall|j: int| 0 <= j < n - 1 ==> data[j] != NEWLINE,
        n == data.len() || (n > 0 && data[n - 1] == NEWLINE),
        n > 0 && data[n - 1] != NEWLINE ==> n == data.len(),
        n == 0 ==> data.len() == 0,
    ensures
        first_line_len(data) == n,
    decreases data.len(),
{
    if data.len() > 0 && data[0] != NEWLINE {
        let rest = data.skip(1);
        assert forall|j: int| 0 <= j < n - 2 implies rest[j] != NEWLINE by {
            assert(rest[j] == data[j + 1]);
        }
        if n >= 2 {
            assert(rest[n - 2] == data[n - 1]);
        }
        lemma_line_found(rest, n - 1);
    }
}

/// Whether `data` ends where a line ends: it is empty or its last byte is a
/// newline.
pub open spec fn line_aligned(data: Seq<u8>) -> bool {
    data.len() == 0 || data.last() == NEWLINE
}

/// Whether `data` is exactly one line, with or without its newline.
pub open spec fn is_single_line(data: Seq<u8>) -> bool {
    data.len() > 0 && first_line_len(data) == data.len()
}

/// The records of two pieces of a source, the first of which ends with a
/// line, are the records of the first followed by those of the second.
pub proof fn lemma_records_concat(a: Seq<u8>, b: Seq<u8>, inverted: bool)
    requires
        line_aligned(a),
    ensures
        records(a + b, inverted) == records(a, inverted) + records(b, inverted),
    decreases a.len(),
{
    if a.len() == 0 {
        assert(a + b =~= b);
        assert(records(a, inverted) + records(b, inverted) =~= records(b, inverted));
    } else {
        let n = first_line_len(a) as int;
        lemma_first_line_len(a);
        let whole = a + b;
        assert forall|j: int| 0 <= j < n - 1 implies whole[j] != NEWLINE by {
            assert(whole[j] == a[j]);
        }
        assert(whole[n - 1] == a[n - 1]);
        lemma_line_found(whole, n);
        assert(whole.take(n) =~= a.take(n));
        assert(whole.skip(n) =~= a.skip(n) + b);
        if a.skip(n).len() > 0 {
            assert(a.skip(n).last() == a.last());
        }
        lemma_records_concat(a.skip(n), b, inverted);
        let head = match parse_line_spec(a.take(n)) {
            Some(r) => seq![flip(r, inverted)],
            None => Seq::empty(),
        };
        assert(records(a, inverted) =~= head + records(a.skip(n), inverted));
        assert(records(whole, inverted) =~= head + records(whole.skip(n), inverted));
        assert(records(whole, inverted) =~= records(a, inverted) + records(b, inverted));
    }
}

/// A malformed line between two pieces of a source changes nothing: the
/// records are those of the source without the line.
pub proof fn lemma_skip_malformed(before: Seq<u8>, bad: Seq<u8>, after: Seq<u8>, inverted: bool)
    requires
        line_aligned(before),
        is_single_line(bad),
        bad.last() == NEWLINE || after.len() == 0,
        parse_line_spec(bad) is None,
    ensures
        records(before + bad + after, inverted) == records(before + after, inverted),
{
    lemma_records_concat(before, bad + after, inverted);
    lemma_records_concat(before, after, inverted);
    assert(before + bad + after =~= before + (bad + after));
    assert(bad.take(bad.len() as int) =~= bad);
    assert(records(bad.skip(bad.len() as int), inverted) =~= Seq::<Record>::empty());
    assert(records(bad, inverted) =~= Seq::<Record>::empty());
    if after.len() == 0 {
        assert(bad + after =~= bad);
        assert(records(after, inverted) =~= Seq::<Record>::empty());
    } else {
        lemma_records_concat(bad, after, inverted);
        assert(records(bad + after, inverted) =~= records(after, inverted));
    }
}

/// An inverted source reports the records of the same bytes read plainly,
/// each with its flag negated.
pub proof fn lemma_records_inverted(data: Seq<u8>, inverted: bool)
    ensures
        records(data, inverted).len() == records(data, false).len(),
        forall|j: int|
            0 <= j < records(data, false).len() ==> records(data, inverted)[j] == flip(
                #[trigger] records(data, false)[j],
                inverted,
            ),
    decreases data.len(),
{
    if data.len() > 0 {
        let n = first_line_len(data) as int;
        lemma_first_line_len(data);
        lemma_records_inverted(data.skip(n), inverted);
        let plain = records(data, false);
        let rest = records(data.skip(n), false);
        assert forall|j: int| 0 <= j < plain.len() implies records(data, inverted)[j] == flip(
            #[trigger] plain[j],
            inverted,
        ) by {
            match parse_line_spec(data.take(n)) {
                Some(r) => {
                    if j > 0 {
                        assert(plain[j] == rest[j - 1]);
                    }
                },
                None => {
                    assert(plain[j] == rest[j]);
                },
            }
        }
    }
}

} // verus!
