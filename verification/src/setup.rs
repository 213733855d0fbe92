//! What is settled before the merge starts: the order of the sources, and
//! that no source is named twice.

use vstd::prelude::*;
use crate::record::byte_views;
use crate::token::token_equal;

verus! {

/// One source as the caller names it.
#[derive(Debug, PartialEq, Eq)]
pub struct Input {
    pub name: Vec<u8>,
    pub inverted: bool,
}

/// Why a merge cannot start.
#[derive(Debug, Clone, Copy, PartialEq, Eq, Structural)]
pub enum SetupError {
    /// Neither a normal nor an inverted source was given.
    NoSources,
    /// The sources at these two places, in the order of the columns, have
    /// the same name.
    DuplicateSource { first: usize, second: usize },
}

/// The names of the inputs, in order.
pub open spec fn input_names(inputs: Seq<Input>) -> Seq<Seq<u8>> {
    Seq::new(inputs.len(), |i: int| inputs[i].name@)
}

/// Some name occurs twice.
pub open spec fn has_duplicate(names: Seq<Seq<u8>>) -> bool {
    exists|i: int, j: int| 0 <= i < j < names.len() && #[trigger] names[i] == #[trigger] names[j]
}

/// `second` is the first place whose name occurred before, and `first` is
/// the first place with that name.
pub open spec fn is_first_duplicate(names: Seq<Seq<u8>>, first: int, second: int) -> bool {
    &&& 0 <= first < second < names.len()
    &&& names[first] == names[second]
    &&& forall|i: int, j: int| 0 <= i < j < second ==> #[trigger] names[i] != #[trigger] names[j]
    &&& forall|i: int| 0 <= i < first ==> #[trigger] names[i] != names[second]
}

/// The order of the columns: the normal sources as given, then the inverted
/// sources as given.
pub open spec fn column_order(normal: Seq<Seq<u8>>, inverted: Seq<Seq<u8>>) -> Seq<Seq<u8>> {
    normal + inverted
}

impl SetupError {
    /// A short description of the error.
    pub fn message(&self) -> (text: &'static str)
        ensures
            text@ == (match *self {
                SetupError::NoSources => "no sources given"@,
                SetupError::DuplicateSource { .. } => "a source is named twice"@,
            }),
    {
        match self {
            SetupError::NoSources => "no sources given",
            SetupError::DuplicateSource { .. } => "a source is named twice",
        }
    }
}

/// Puts the sources into the order of the columns and checks them.
///
/// Fails with `NoSources` if both lists are empty, and with
/// `DuplicateSource` if a name occurs twice, within one list or across the
/// two.
pub fn arrange(normal: Vec<Vec<u8>>, inverted: Vec<Vec<u8>>) -> (r: Result<Vec<Input>, SetupError>)
    ensures
        match r {
            Ok(inputs) => {
                &&& inputs@.len() > 0
                &&& input_names(inputs@) == column_order(
                    byte_views(normal@),
                    byte_views(inverted@),
                )
                &&& !has_duplicate(input_names(inputs@))
                &&& forall|i: int|
                    0 <= i < inputs@.len() ==> (#[trigger] inputs@[i]).inverted == (i
                        >= normal@.len())
            },
            Err(SetupError::NoSources) => normal@.len() == 0 && inverted@.len() == 0,
            Err(SetupError::DuplicateSource { first, second }) => is_first_duplicate(
                column_order(byte_views(normal@), byte_views(inverted@)),
                first as int,
                second as int,
            ),
        },
{
    let ghost names = column_order(byte_views(normal@), byte_views(inverted@));
    let ghost split = normal@.len();
    let mut inputs: Vec<Input> = Vec::new();
    for name in iter: normal
        invariant
            iter.seq() == normal@,
            inputs@.len() == iter.index(),
            forall|i: int|
                0 <= i < inputs@.len() ==> (#[trigger] inputs@[i]).name == normal@[i]
                    && !inputs@[i].inverted,
    {
        inputs.push(Input { name, inverted: false });
    }
    for name in iter: inverted
        invariant
            iter.seq() == inverted@,
            split == normal@.len(),
            inputs@.len() == split + iter.index(),
            forall|i: int|
                0 <= i < split ==> (#[trigger] inputs@[i]).name == normal@[i]
                    && !inputs@[i].inverted,
            forall|i: int|
                split <= i < inputs@.len() ==> (#[trigger] inputs@[i]).name == inverted@[i - split]
                    && inputs@[i].inverted,
    {
        inputs.push(Input { name, inverted: true });
    }
    assert(input_names(inputs@) =~= names);
    if inputs.len() == 0 {
        return Err(SetupError::NoSources);
    }
    let mut second: usize = 1;
    while second < inputs.len()
        invariant
            1 <= second <= inputs@.len(),
            input_names(inputs@) == names,
            names == column_order(byte_views(normal@), byte_views(inverted@)),
            forall|i: int, j: int| 0 <= i < j < second ==> #[trigger] names[i] != #[trigger] names[j],
        decreases inputs@.len() - second,
    {
        let mut first: usize = 0;
        while first < second
            invariant
                first <= second < inputs@.len(),
                input_names(inputs@) == names,
                names == column_order(byte_views(normal@), byte_views(inverted@)),
                forall|i: int, j: int|
                    0 <= i < j < second ==> #[trigger] names[i] != #[trigger] names[j],
                forall|i: int| 0 <= i < first ==> #[trigger] names[i] != names[second as int],
            decreases second - first,
        {
            if token_equal(&inputs[first].name, &inputs[second].name) {
                assert(names[first as int] == inputs@[first as int].name@);
                assert(names[second as int] == inputs@[second as int].name@);
                return Err(SetupError::DuplicateSource { first, second });
            }
            assert(names[first as int] == inputs@[first as int].name@);
            assert(names[second as int] == inputs@[second as int].name@);
            first += 1;
        }
        second += 1;
    }
    Ok(inputs)
}

} // verus!
