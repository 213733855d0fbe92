//! The text of the merged table: a header line naming the columns, then one
//! tab-separated line per row.

use vstd::prelude::*;
use crate::merge::table_of;
use crate::record::{KmerState, Row, FLAG_ABSENT, FLAG_PRESENT, NEWLINE, TAB};
use crate::setup::{input_names, Input};

verus! {

/// The label of the token column: the bytes of `kmer`.
pub open spec fn token_label() -> Seq<u8> {
    seq![107u8, 109u8, 101u8, 114u8]
}

/// The byte that stands for a presence bit.
pub open spec fn flag_byte(bit: bool) -> u8 {
    if bit {
        FLAG_PRESENT
    } else {
        FLAG_ABSENT
    }
}

/// The text of a presence vector: for each bit a tab and the bit's byte.
pub open spec fn bits_text(bits: Seq<bool>) -> Seq<u8> {
    Seq::new(
        2 * bits.len(),
        |j: int|
            if j % 2 == 0 {
                TAB
            } else {
                flag_byte(bits[j / 2])
            },
    )
}

/// The line of one row: the token, the bits, a newline.
pub open spec fn row_text(row: Row) -> Seq<u8> {
    row.token + bits_text(row.present) + seq![NEWLINE]
}

/// The text of the source labels: for each label a tab and the label.
pub open spec fn labels_text(labels: Seq<Seq<u8>>) -> Seq<u8>
    decreases labels.len(),
{
    if labels.len() == 0 {
        Seq::empty()
    } else {
        labels_text(labels.drop_last()) + seq![TAB] + labels.last()
    }
}

/// The header line: the label of the token column, the source labels, a
/// newline.
pub open spec fn header_text(labels: Seq<Seq<u8>>) -> Seq<u8> {
    token_label() + labels_text(labels) + seq![NEWLINE]
}

/// The lines of a table's rows, one after the other.
pub open spec fn table_text(rows: Seq<Row>) -> Seq<u8>
    decreases rows.len(),
{
    if rows.len() == 0 {
        Seq::empty()
    } else {
        table_text(rows.drop_last()) + row_text(rows.last())
    }
}

/// Appends a copy of `bytes` to `out`.
pub fn append_bytes(out: &mut Vec<u8>, bytes: &Vec<u8>)
    ensures
        final(out)@ == old(out)@ + bytes@,
{
    let mut i: usize = 0;
    while i < bytes.len()
        invariant
            i <= bytes@.len(),
            out@ == old(out)@ + bytes@.take(i as int),
        decreases bytes@.len() - i,
    {
        out.push(bytes[i]);
        i += 1;
        assert(out@ =~= old(out)@ + bytes@.take(i as int));
    }
    assert(bytes@.take(i as int) =~= bytes@);
}

/// Renders one row as a line of text.
pub fn format_row(row: &KmerState) -> (text: Vec<u8>)
    ensures
        text@ == row_text(row@),
{
    let mut text: Vec<u8> = Vec::new();
    append_bytes(&mut text, &row.kmer);
    let mut i: usize = 0;
    while i < row.present.len()
        invariant
            i <= row.present@.len(),
            text@ == row.kmer@ + bits_text(row.present@.take(i as int)),
        decreases row.present@.len() - i,
    {
        text.push(TAB);
        text.push(
            if row.present[i] {
                FLAG_PRESENT
            } else {
                FLAG_ABSENT
            },
        );
        i += 1;
        assert(text@ =~= row.kmer@ + bits_text(row.present@.take(i as int)));
    }
    assert(row.present@.take(i as int) =~= row.present@);
    text.push(NEWLINE);
    text
}

/// Renders the header line: the sources' names are the column labels.
pub fn format_header(inputs: &Vec<Input>) -> (text: Vec<u8>)
    ensures
        text@ == header_text(input_names(inputs@)),
{
    let mut text: Vec<u8> = Vec::new();
    text.push(107u8);
    text.push(109u8);
    text.push(101u8);
    text.push(114u8);
    assert(text@ =~= token_label());
    let ghost names = input_names(inputs@);
    let mut i: usize = 0;
    while i < inputs.len()
        invariant
            i <= inputs@.len(),
            names == input_names(inputs@),
            text@ == token_label() + labels_text(names.take(i as int)),
        decreases inputs@.len() - i,
    {
        text.push(TAB);
        append_bytes(&mut text, &inputs[i].name);
        i += 1;
        proof {
            let upto = names.take(i as int);
            assert(upto.drop_last() =~= names.take(i - 1));
            assert(upto.last() == inputs@[i - 1].name@);
            assert(text@ =~= token_label() + labels_text(upto));
        }
    }
    assert(names.take(i as int) =~= names);
    text.push(NEWLINE);
    text
}

/// Renders the rows of a table, line after line.
pub fn format_rows(rows: &Vec<KmerState>) -> (text: Vec<u8>)
    ensures
        text@ == table_text(table_of(rows@)),
{
    let ghost table = table_of(rows@);
    let mut text: Vec<u8> = Vec::new();
    let mut i: usize = 0;
    while i < rows.len()
        invariant
            i <= rows@.len(),
            table == table_of(rows@),
            text@ == table_text(table.take(i as int)),
        decreases rows@.len() - i,
    {
        let line = format_row(&rows[i]);
        append_bytes(&mut text, &line);
        i += 1;
        proof {
            let upto = table.take(i as int);
            assert(upto.drop_last() =~= table.take(i - 1));
            assert(upto.last() == rows@[i - 1]@);
        }
    }
    assert(table.take(i as int) =~= table);
    text
}

} // verus!
