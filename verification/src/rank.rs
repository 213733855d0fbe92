//! The order in which streams are served: by the token each holds ready,
//! smallest first, exhausted streams last.

use core::cmp::Ordering;
use vstd::prelude::*;
use crate::infile::{head_token, InFile};
use crate::token::{
    compare_tokens, lemma_lex_lt_total, lemma_lex_lt_transitive, lex_lt, token_equal, token_less,
    TokenOrder,
};

verus! {

/// Key `a` is served strictly before key `b`: its token is the smaller one,
/// or only `b` is exhausted.
pub open spec fn key_before(a: Option<Seq<u8>>, b: Option<Seq<u8>>) -> bool {
    match (a, b) {
        (Some(x), Some(y)) => lex_lt(x, y),
        (Some(_), None) => true,
        (None, _) => false,
    }
}

/// Key `a` is served no later than key `b`.
pub open spec fn key_le(a: Option<Seq<u8>>, b: Option<Seq<u8>>) -> bool {
    !key_before(b, a)
}

/// The rank of key `a` against key `b`, for a structure that serves its
/// greatest element first: the smaller token ranks greater, and an exhausted
/// stream ranks below every other.
pub open spec fn rank_order(a: Option<Seq<u8>>, b: Option<Seq<u8>>) -> Ordering {
    if a == b {
        Ordering::Equal
    } else if key_before(a, b) {
        Ordering::Greater
    } else {
        Ordering::Less
    }
}

/// `key_le` is reflexive and total.
pub proof fn lemma_key_le_total(a: Option<Seq<u8>>, b: Option<Seq<u8>>)
    ensures
        key_le(a, a),
        key_le(a, b) || key_le(b, a),
        key_le(a, b) && key_le(b, a) ==> a == b,
{
    match (a, b) {
        (Some(x), Some(y)) => {
            lemma_lex_lt_total(x, y);
            lemma_lex_lt_total(x, x);
        },
        (Some(x), None) => {
            lemma_lex_lt_total(x, x);
        },
        _ => {},
    }
}

/// `key_le` is transitive.
pub proof fn lemma_key_le_transitive(
    a: Option<Seq<u8>>,
    b: Option<Seq<u8>>,
    c: Option<Seq<u8>>,
)
    requires
        key_le(a, b),
        key_le(b, c),
    ensures
        key_le(a, c),
{
    match (a, b, c) {
        (Some(x), Some(y), Some(z)) => {
            lemma_lex_lt_total(x, y);
            lemma_lex_lt_total(y, z);
            lemma_lex_lt_total(x, z);
            if lex_lt(z, x) {
                if x == y {
                } else if y == z {
                } else {
                    lemma_lex_lt_transitive(x, y, z);
                }
            }
        },
        _ => {},
    }
}

impl InFile {
    /// Whether this stream is served strictly before `other`.
    pub fn precedes(&self, other: &InFile) -> (r: bool)
        ensures
            r == key_before(head_token(self.pending()), head_token(other.pending())),
    {
        match self.key() {
            Some(mine) => match other.key() {
                Some(theirs) => token_less(mine, theirs),
                None => true,
            },
            None => false,
        }
    }

    /// Ranks this stream against `other`. The greater stream is the one to
    /// serve first: the one with the smaller token ready. An exhausted stream
    /// is less than any other.
    pub fn cmp(&self, other: &InFile) -> (o: Ordering)
        ensures
            o == rank_order(head_token(self.pending()), head_token(other.pending())),
    {
        match self.key() {
            None => match other.key() {
                None => Ordering::Equal,
                Some(_) => Ordering::Less,
            },
            Some(mine) => match other.key() {
                None => Ordering::Greater,
                Some(theirs) => match compare_tokens(theirs, mine) {
                    TokenOrder::Before => Ordering::Less,
                    TokenOrder::Same => Ordering::Equal,
                    TokenOrder::After => Ordering::Greater,
                },
            },
        }
    }
}

impl PartialEq for InFile {
    /// Two streams are equal in rank when both are exhausted or both hold the
    /// same token ready.
    fn eq(&self, other: &InFile) -> (r: bool) {
        match self.key() {
            None => other.key().is_none(),
            Some(mine) => match other.key() {
                None => false,
                Some(theirs) => token_equal(mine, theirs),
            },
        }
    }
}

impl vstd::std_specs::cmp::PartialEqSpecImpl for InFile {
    open spec fn obeys_eq_spec() -> bool {
        true
    }

    open spec fn eq_spec(&self, other: &InFile) -> bool {
        head_token(self.pending()) == head_token(other.pending())
    }
}

impl Eq for InFile {

}

impl PartialOrd for InFile {
    /// The rank of `cmp`; any two streams can be ranked.
    fn partial_cmp(&self, other: &InFile) -> (r: Option<Ordering>) {
        Some(self.cmp(other))
    }
}

impl vstd::std_specs::cmp::PartialOrdSpecImpl for InFile {
    open spec fn obeys_partial_cmp_spec() -> bool {
        true
    }

    open spec fn partial_cmp_spec(&self, other: &InFile) -> Option<Ordering> {
        Some(rank_order(head_token(self.pending()), head_token(other.pending())))
    }
}

} // verus!
