//! One line of a source: its grammar, the parsed record, and the row that a
//! record becomes in the merged table.

use vstd::prelude::*;

verus! {

/// The line feed byte, which ends a line.
pub const NEWLINE: u8 = 10;

/// The space byte, one of the two separators.
pub const SPACE: u8 = 32;

/// The tab byte, the other separator and the column separator of the table.
pub const TAB: u8 = 9;

/// The flag byte of a token that the source records as absent.
pub const FLAG_ABSENT: u8 = 48;

/// The flag byte of a token that the source records as present.
pub const FLAG_PRESENT: u8 = 49;

/// What a well-formed line says: a token and whether it is present.
pub ghost struct Record {
    pub token: Seq<u8>,
    pub present: bool,
}

/// One row of the merged table: a token and one presence bit per source.
pub ghost struct Row {
    pub token: Seq<u8>,
    pub present: Seq<bool>,
}

/// A stream's column in the merged table, and the number of columns.
#[derive(Debug, Clone, Copy, PartialEq, Eq, Structural)]
pub struct PositionInfo {
    pub index: usize,
    pub out_of: usize,
}

/// A token with its presence vector.
#[derive(Debug, PartialEq, Eq)]
pub struct KmerState {
    pub kmer: Vec<u8>,
    pub present: Vec<bool>,
}

impl View for KmerState {
    type V = Row;

    open spec fn view(&self) -> Row {
        Row { token: self.kmer@, present: self.present@ }
    }
}

/// A line that passed the grammar.
#[derive(Debug, PartialEq, Eq)]
pub struct ParsedLine {
    pub kmer: Vec<u8>,
    pub present: bool,
}

impl View for ParsedLine {
    type V = Record;

    open spec fn view(&self) -> Record {
        Record { token: self.kmer@, present: self.present }
    }
}

/// The byte strings that a vector of byte vectors holds.
pub open spec fn byte_views(v: Seq<Vec<u8>>) -> Seq<Seq<u8>> {
    Seq::new(v.len(), |i: int| v[i]@)
}

/// Whether `b` separates a token from its flag.
pub open spec fn is_separator(b: u8) -> bool {
    b == SPACE || b == TAB
}

/// Whether `b` is one of the two flag bytes.
pub open spec fn is_flag(b: u8) -> bool {
    b == FLAG_ABSENT || b == FLAG_PRESENT
}

/// A line without its trailing newline, if it has one.
pub open spec fn strip_newline(line: Seq<u8>) -> Seq<u8> {
    if line.len() > 0 && line.last() == NEWLINE {
        line.drop_last()
    } else {
        line
    }
}

/// Whether a line, its newline already stripped, is a non-empty token, one
/// separator and one flag byte.
pub open spec fn well_formed(body: Seq<u8>) -> bool {
    &&& body.len() >= 3
    &&& is_flag(body[body.len() - 1])
    &&& is_separator(body[body.len() - 2])
}

/// The record that a line holds, if the line follows the grammar.
pub open spec fn parse_line_spec(line: Seq<u8>) -> Option<Record> {
    let body = strip_newline(line);
    if well_formed(body) {
        Some(
            Record {
                token: body.take(body.len() - 2),
                present: body[body.len() - 1] == FLAG_PRESENT,
            },
        )
    } else {
        None
    }
}

/// The row that a single record contributes: the record's flag in column
/// `index`, `false` in every other of the `out_of` columns.
pub open spec fn expand(r: Record, index: int, out_of: int) -> Row {
    Row {
        token: r.token,
        present: Seq::new(out_of as nat, |i: int| i == index && r.present),
    }
}

impl ParsedLine {
    /// Widens the record to a full presence vector for the given position.
    pub fn into_kmer_state(self, position: &PositionInfo) -> (state: KmerState)
        ensures
            state@ == expand(self@, position.index as int, position.out_of as int),
    {
        let mut present_array: Vec<bool> = Vec::with_capacity(position.out_of);
        let mut i: usize = 0;
        while i < position.out_of
            invariant
                i <= position.out_of,
                present_array@.len() == i,
                forall|j: int|
                    0 <= j < i ==> present_array@[j] == (j == position.index && self.present),
            decreases position.out_of - i,
        {
            present_array.push(i == position.index && self.present);
            i += 1;
        }
        assert(present_array@ =~= expand(
            self@,
            position.index as int,
            position.out_of as int,
        ).present);
        KmerState { kmer: self.kmer, present: present_array }
    }
}

/// Parses one line, with or without its trailing newline.
///
/// Returns the record if the line is a non-empty token, one space or tab, and
/// a flag byte `0` or `1`; `None` for anything else, the empty line included.
pub fn parse_line(line: Vec<u8>) -> (parsed: Option<ParsedLine>)
    ensures
        match parsed {
            Some(p) => parse_line_spec(line@) == Some(p@),
            None => parse_line_spec(line@) is None,
        },
{
    let mut line = line;
    let ghost raw = line@;
    let n = line.len();
    if n > 0 && line[n - 1] == NEWLINE {
        line.pop();
    }
    assert(line@ =~= strip_newline(raw));
    let ghost body = line@;
    let present = match line.pop() {
        Some(b) => {
            if b == FLAG_PRESENT {
                true
            } else if b == FLAG_ABSENT {
                false
            } else {
                return None;
            }
        },
        None => {
            return None;
        },
    };
    match line.pop() {
        Some(b) => {
            if b != SPACE && b != TAB {
                return None;
            }
        },
        None => {
            return None;
        },
    }
    if line.len() == 0 {
        return None;
    }
    assert(line@ =~= body.take(body.len() - 2));
    Some(ParsedLine { kmer: line, present })
}

} // verus!
