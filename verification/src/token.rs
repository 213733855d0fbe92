//! Byte-lexicographic order on tokens.

use vstd::prelude::*;

verus! {

/// `a` sorts strictly before `b`: at the first position where they differ `a`
/// has the smaller byte, or `a` is a proper prefix of `b`.
pub open spec fn lex_lt(a: Seq<u8>, b: Seq<u8>) -> bool
    decreases a.len(),
{
    if b.len() == 0 {
        false
    } else if a.len() == 0 {
        true
    } else if a[0] != b[0] {
        a[0] < b[0]
    } else {
        lex_lt(a.skip(1), b.skip(1))
    }
}

/// `a` sorts before `b` or is the same token.
pub open spec fn lex_le(a: Seq<u8>, b: Seq<u8>) -> bool {
    a == b || lex_lt(a, b)
}

/// The tokens of `s` ascend strictly.
pub open spec fn strictly_ascending(s: Seq<Seq<u8>>) -> bool {
    forall|i: int, j: int| 0 <= i < j < s.len() ==> lex_lt(#[trigger] s[i], #[trigger] s[j])
}

/// `k` is the length of the longest common prefix of `a` and `b`.
pub open spec fn is_common_prefix_len(a: Seq<u8>, b: Seq<u8>, k: int) -> bool {
    &&& 0 <= k <= a.len()
    &&& k <= b.len()
    &&& forall|j: int| 0 <= j < k ==> a[j] == b[j]
    &&& k < a.len() && k < b.len() ==> a[k] != b[k]
}

/// The order is decided at the end of the common prefix.
pub proof fn lemma_lex_lt_at_prefix(a: Seq<u8>, b: Seq<u8>, k: int)
    requires
        is_common_prefix_len(a, b, k),
    ensures
        lex_lt(a, b) <==> (k < b.len() && (k == a.len() || a[k] < b[k])),
        a == b <==> (k == a.len() && k == b.len()),
    decreases k,
{
    if k == 0 {
        if a.len() == 0 && b.len() == 0 {
            assert(a =~= b);
        }
    } else {
        let a1 = a.skip(1);
        let b1 = b.skip(1);
        assert(is_common_prefix_len(a1, b1, k - 1));
        lemma_lex_lt_at_prefix(a1, b1, k - 1);
        if k == a.len() && k == b.len() {
            assert(a =~= b);
        }
    }
}

/// No token sorts before itself.
pub proof fn lemma_lex_lt_irreflexive(a: Seq<u8>)
    ensures
        !lex_lt(a, a),
    decreases a.len(),
{
    if a.len() > 0 {
        lemma_lex_lt_irreflexive(a.skip(1));
    }
}

/// The order is transitive.
pub proof fn lemma_lex_lt_transitive(a: Seq<u8>, b: Seq<u8>, c: Seq<u8>)
    requires
        lex_lt(a, b),
        lex_lt(b, c),
    ensures
        lex_lt(a, c),
    decreases a.len(),
{
    if a.len() > 0 && a[0] == b[0] && b[0] == c[0] {
        lemma_lex_lt_transitive(a.skip(1), b.skip(1), c.skip(1));
    }
}

/// Of two tokens exactly one sorts first, unless they are the same token.
pub proof fn lemma_lex_lt_total(a: Seq<u8>, b: Seq<u8>)
    ensures
        lex_lt(a, b) || a == b || lex_lt(b, a),
        !(lex_lt(a, b) && lex_lt(b, a)),
        !(lex_lt(a, b) && a == b),
    decreases a.len(),
{
    lemma_lex_lt_irreflexive(a);
    if a.len() == 0 || b.len() == 0 {
        if a.len() == 0 && b.len() == 0 {
            assert(a =~= b);
        }
    } else if a[0] == b[0] {
        lemma_lex_lt_total(a.skip(1), b.skip(1));
        if a.skip(1) == b.skip(1) {
            assert(a =~= seq![a[0]] + a.skip(1));
            assert(b =~= seq![b[0]] + b.skip(1));
        }
    }
}

/// Length of the longest common prefix of two tokens.
pub fn common_prefix_len(a: &Vec<u8>, b: &Vec<u8>) -> (k: usize)
    ensures
        is_common_prefix_len(a@, b@, k as int),
{
    let mut k: usize = 0;
    while k < a.len() && k < b.len() && a[k] == b[k]
        invariant
            k <= a.len(),
            k <= b.len(),
            forall|j: int| 0 <= j < k ==> a@[j] == b@[j],
        decreases a.len() - k,
    {
        k += 1;
    }
    k
}

/// How one token stands to another in the byte-lexicographic order.
#[derive(Clone, Copy, Debug, PartialEq, Eq, Structural)]
pub enum TokenOrder {
    /// The first token sorts before the second.
    Before,
    /// The two are the same token.
    Same,
    /// The first token sorts after the second.
    After,
}

/// Compares two tokens byte by byte from the front.
pub fn compare_tokens(a: &Vec<u8>, b: &Vec<u8>) -> (o: TokenOrder)
    ensures
        o == TokenOrder::Before <==> lex_lt(a@, b@),
        o == TokenOrder::Same <==> a@ == b@,
        o == TokenOrder::After <==> lex_lt(b@, a@),
{
    let k = common_prefix_len(a, b);
    proof {
        lemma_lex_lt_at_prefix(a@, b@, k as int);
        lemma_lex_lt_total(a@, b@);
    }
    if k == a.len() && k == b.len() {
        TokenOrder::Same
    } else if k < b.len() && (k == a.len() || a[k] < b[k]) {
        TokenOrder::Before
    } else {
        TokenOrder::After
    }
}

/// Whether `a` sorts strictly before `b`.
pub fn token_less(a: &Vec<u8>, b: &Vec<u8>) -> (r: bool)
    ensures
        r == lex_lt(a@, b@),
{
    let k = common_prefix_len(a, b);
    proof {
        lemma_lex_lt_at_prefix(a@, b@, k as int);
    }
    k < b.len() && (k == a.len() || a[k] < b[k])
}

/// Whether two tokens are byte for byte the same. The bytes are compared from
/// the tail, where neighbouring tokens of sorted sources tend to differ.
pub fn token_equal(a: &Vec<u8>, b: &Vec<u8>) -> (r: bool)
    ensures
        r == (a@ == b@),
{
    if a.len() != b.len() {
        return false;
    }
    let mut i: usize = a.len();
    while i > 0
        invariant
            i <= a.len(),
            a.len() == b.len(),
            forall|j: int| i <= j < a.len() ==> a@[j] == b@[j],
        decreases i,
    {
        i -= 1;
        if a[i] != b[i] {
            return false;
        }
    }
    assert(a@ =~= b@);
    true
}

} // verus!
