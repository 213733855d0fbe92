//! What the merge produces, as a function of the records that the sources
//! still hold: one row per distinct token, in ascending order.

use vstd::prelude::*;
use crate::record::{Record, Row};
use crate::token::{lemma_lex_lt_total, lemma_lex_lt_transitive, lex_le, lex_lt};

verus! {

/// No source holds a record.
pub open spec fn all_empty(r: Seq<Seq<Record>>) -> bool {
    forall|i: int| 0 <= i < r.len() ==> (#[trigger] r[i]).len() == 0
}

/// The tokens of one source's records ascend strictly.
pub open spec fn ascending(s: Seq<Record>) -> bool {
    forall|i: int, j: int| 0 <= i < j < s.len() ==> lex_lt(#[trigger] s[i].token, #[trigger] s[j].token)
}

/// Every source's tokens ascend strictly: what the merge asks of its
/// sources.
pub open spec fn all_ascending(r: Seq<Seq<Record>>) -> bool {
    forall|i: int| 0 <= i < r.len() ==> ascending(#[trigger] r[i])
}

/// The number of records in all the sources together.
pub open spec fn total_len(r: Seq<Seq<Record>>) -> nat
    decreases r.len(),
{
    if r.len() == 0 {
        0
    } else {
        total_len(r.drop_last()) + r.last().len()
    }
}

/// Some source's first record has token `t`.
pub open spec fn is_head(r: Seq<Seq<Record>>, t: Seq<u8>) -> bool {
    exists|i: int| 0 <= i < r.len() && (#[trigger] r[i]).len() > 0 && r[i][0].token == t
}

/// No source's first record has a token before `t`.
pub open spec fn below_heads(r: Seq<Seq<Record>>, t: Seq<u8>) -> bool {
    forall|i: int| 0 <= i < r.len() && (#[trigger] r[i]).len() > 0 ==> lex_le(t, r[i][0].token)
}

/// `t` is the smallest token among the sources' first records.
pub open spec fn is_least_head(r: Seq<Seq<Record>>, t: Seq<u8>) -> bool {
    is_head(r, t) && below_heads(r, t)
}

/// The smallest token among the sources' first records.
pub open spec fn least_head(r: Seq<Seq<Record>>) -> Seq<u8> {
    choose|t: Seq<u8>| is_least_head(r, t)
}

/// Source `i` holds the smallest token as its first record.
pub open spec fn holds_front(r: Seq<Seq<Record>>, i: int) -> bool {
    r[i].len() > 0 && r[i][0].token == least_head(r)
}

/// The next row of the table: the smallest token, with the flag of every
/// source that holds it as its first record.
pub open spec fn front_row(r: Seq<Seq<Record>>) -> Row {
    Row {
        token: least_head(r),
        present: Seq::new(r.len(), |i: int| holds_front(r, i) && r[i][0].present),
    }
}

/// The sources after the next row: each source that held the smallest token
/// has given up its first record.
pub open spec fn after_front(r: Seq<Seq<Record>>) -> Seq<Seq<Record>> {
    Seq::new(
        r.len(),
        |i: int|
            if holds_front(r, i) {
                r[i].skip(1)
            } else {
                r[i]
            },
    )
}

/// The merged table: the rows that the sources yield, smallest token first,
/// until no source holds a record.
pub open spec fn merged(r: Seq<Seq<Record>>) -> Seq<Row>
    decreases total_len(r),
{
    if all_empty(r) {
        Seq::empty()
    } else {
        proof {
            lemma_after_front_shrinks(r);
        }
        seq![front_row(r)] + merged(after_front(r))
    }
}

/// The tokens of a table's rows, in order.
pub open spec fn tokens_of(rows: Seq<Row>) -> Seq<Seq<u8>> {
    Seq::new(rows.len(), |k: int| rows[k].token)
}

/// Whether a source records token `t`.
pub open spec fn has_token(s: Seq<Record>, t: Seq<u8>) -> bool {
    exists|j: int| 0 <= j < s.len() && (#[trigger] s[j]).token == t
}

/// Whether a source records token `t` as present.
pub open spec fn recorded_present(s: Seq<Record>, t: Seq<u8>) -> bool {
    exists|j: int| 0 <= j < s.len() && (#[trigger] s[j]).token == t && s[j].present
}

/// Replacing one source changes the total by the difference in length.
pub proof fn lemma_total_len_update(r: Seq<Seq<Record>>, i: int, s: Seq<Record>)
    requires
        0 <= i < r.len(),
    ensures
        total_len(r.update(i, s)) == total_len(r) - r[i].len() + s.len(),
    decreases r.len(),
{
    let u = r.update(i, s);
    if i == r.len() - 1 {
        assert(u.drop_last() =~= r.drop_last());
    } else {
        assert(u.drop_last() =~= r.drop_last().update(i, s));
        lemma_total_len_update(r.drop_last(), i, s);
    }
}

/// Sources that are each no longer than before total no more than before.
pub proof fn lemma_total_len_monotone(a: Seq<Seq<Record>>, b: Seq<Seq<Record>>)
    requires
        a.len() == b.len(),
        forall|i: int| 0 <= i < a.len() ==> (#[trigger] a[i]).len() <= b[i].len(),
    ensures
        total_len(a) <= total_len(b),
    decreases a.len(),
{
    if a.len() > 0 {
        let a0 = a.drop_last();
        let b0 = b.drop_last();
        assert forall|i: int| 0 <= i < a0.len() implies (#[trigger] a0[i]).len() <= b0[i].len() by {
            assert(a0[i] == a[i]);
            assert(a[i].len() <= b[i].len());
        }
        lemma_total_len_monotone(a0, b0);
        assert(a[a.len() - 1].len() <= b[a.len() - 1].len());
    }
}

/// Among the first records of sources that are not all empty there is a
/// smallest token.
pub proof fn lemma_least_head_exists(r: Seq<Seq<Record>>) -> (t: Seq<u8>)
    requires
        !all_empty(r),
    ensures
        is_least_head(r, t),
    decreases r.len(),
{
    let n = r.len() - 1;
    let front = r.drop_last();
    assert forall|i: int| 0 <= i < front.len() implies #[trigger] front[i] == r[i] by {}
    if all_empty(front) {
        assert(r[n].len() > 0) by {
            if r[n].len() == 0 {
                assert forall|i: int| 0 <= i < r.len() implies (#[trigger] r[i]).len() == 0 by {
                    if i < n {
                        assert(front[i].len() == 0);
                    }
                }
            }
        }
        let t = r[n][0].token;
        assert forall|i: int| 0 <= i < r.len() && (#[trigger] r[i]).len() > 0 implies lex_le(
            t,
            r[i][0].token,
        ) by {
            if i < n {
                assert(front[i].len() == 0);
            }
        }
        t
    } else {
        let t0 = lemma_least_head_exists(front);
        let w = choose|i: int| 0 <= i < front.len() && (#[trigger] front[i]).len() > 0 && front[i][0].token == t0;
        assert(r[w].len() > 0 && r[w][0].token == t0);
        if r[n].len() > 0 && lex_lt(r[n][0].token, t0) {
            let t = r[n][0].token;
            assert forall|i: int| 0 <= i < r.len() && (#[trigger] r[i]).len() > 0 implies lex_le(
                t,
                r[i][0].token,
            ) by {
                if i < n {
                    assert(front[i].len() > 0);
                    assert(lex_le(t0, front[i][0].token));
                    if t0 != r[i][0].token {
                        lemma_lex_lt_transitive(t, t0, r[i][0].token);
                    }
                }
            }
            t
        } else {
            assert forall|i: int| 0 <= i < r.len() && (#[trigger] r[i]).len() > 0 implies lex_le(
                t0,
                r[i][0].token,
            ) by {
                if i < n {
                    assert(front[i].len() > 0);
                    assert(lex_le(t0, front[i][0].token));
                } else {
                    lemma_lex_lt_total(t0, r[n][0].token);
                }
            }
            t0
        }
    }
}

/// The smallest first token is unique.
pub proof fn lemma_least_head_unique(r: Seq<Seq<Record>>, t: Seq<u8>)
    requires
        is_least_head(r, t),
    ensures
        least_head(r) == t,
{
    let l = least_head(r);
    assert(is_least_head(r, l));
    let i = choose|i: int| 0 <= i < r.len() && (#[trigger] r[i]).len() > 0 && r[i][0].token == t;
    let j = choose|j: int| 0 <= j < r.len() && (#[trigger] r[j]).len() > 0 && r[j][0].token == l;
    assert(lex_le(l, r[i][0].token));
    assert(lex_le(t, r[j][0].token));
    lemma_lex_lt_total(l, t);
}

/// Unless all sources are empty, `least_head` is the smallest first token.
pub proof fn lemma_least_head(r: Seq<Seq<Record>>)
    requires
        !all_empty(r),
    ensures
        is_least_head(r, least_head(r)),
        exists|i: int| 0 <= i < r.len() && holds_front(r, i),
{
    let t = lemma_least_head_exists(r);
    lemma_least_head_unique(r, t);
    let i = choose|i: int| 0 <= i < r.len() && (#[trigger] r[i]).len() > 0 && r[i][0].token == t;
    assert(holds_front(r, i));
}

/// Every row takes at least one record out of the sources.
pub proof fn lemma_after_front_shrinks(r: Seq<Seq<Record>>)
    requires
        !all_empty(r),
    ensures
        total_len(after_front(r)) < total_len(r),
{
    lemma_least_head(r);
    let w = choose|i: int| 0 <= i < r.len() && holds_front(r, i);
    let a = after_front(r);
    let b = r.update(w, r[w].skip(1));
    assert forall|i: int| 0 <= i < a.len() implies (#[trigger] a[i]).len() <= b[i].len() by {}
    lemma_total_len_monotone(a, b);
    lemma_total_len_update(r, w, r[w].skip(1));
}

/// Some source records token `t`.
pub open spec fn occurs(r: Seq<Seq<Record>>, t: Seq<u8>) -> bool {
    exists|i: int| 0 <= i < r.len() && has_token(#[trigger] r[i], t)
}

/// A table of sources that are not all empty is its first row followed by
/// the table of what remains.
pub proof fn lemma_merged_unfold(r: Seq<Seq<Record>>)
    requires
        !all_empty(r),
    ensures
        merged(r) == seq![front_row(r)] + merged(after_front(r)),
        merged(r).len() == 1 + merged(after_front(r)).len(),
        merged(r)[0] == front_row(r),
        forall|k: int|
            1 <= k < merged(r).len() ==> merged(r)[k] == merged(after_front(r))[k - 1],
{
}

/// What remains after a row was recorded before it.
proof fn lemma_after_front_occurs(r: Seq<Seq<Record>>, t: Seq<u8>)
    requires
        occurs(after_front(r), t),
    ensures
        occurs(r, t),
{
    let a = after_front(r);
    let i = choose|i: int| 0 <= i < a.len() && has_token(#[trigger] a[i], t);
    let j = choose|j: int| 0 <= j < a[i].len() && (#[trigger] a[i][j]).token == t;
    if holds_front(r, i) {
        assert(r[i][j + 1].token == t);
    } else {
        assert(r[i][j].token == t);
    }
    assert(has_token(r[i], t));
}

/// A token other than the row's own is still recorded after the row.
proof fn lemma_after_front_keeps(r: Seq<Seq<Record>>, t: Seq<u8>)
    requires
        occurs(r, t),
        t != least_head(r),
    ensures
        occurs(after_front(r), t),
{
    let a = after_front(r);
    let i = choose|i: int| 0 <= i < r.len() && has_token(#[trigger] r[i], t);
    let j = choose|j: int| 0 <= j < r[i].len() && (#[trigger] r[i][j]).token == t;
    if holds_front(r, i) {
        assert(a[i][j - 1].token == t);
    } else {
        assert(a[i][j].token == t);
    }
    assert(has_token(a[i], t));
}

/// What remains after a row of ascending sources ascends too.
pub proof fn lemma_after_front_ascending(r: Seq<Seq<Record>>)
    requires
        all_ascending(r),
    ensures
        all_ascending(after_front(r)),
{
    let a = after_front(r);
    assert forall|i: int| 0 <= i < a.len() implies ascending(#[trigger] a[i]) by {
        assert(ascending(r[i]));
        if holds_front(r, i) {
            assert forall|x: int, y: int| 0 <= x < y < a[i].len() implies lex_lt(
                #[trigger] a[i][x].token,
                #[trigger] a[i][y].token,
            ) by {
                assert(lex_lt(r[i][x + 1].token, r[i][y + 1].token));
            }
        }
    }
}

/// In ascending sources, every token still recorded after a row sorts after
/// the row's token.
proof fn lemma_after_front_above(r: Seq<Seq<Record>>, t: Seq<u8>)
    requires
        all_ascending(r),
        !all_empty(r),
        occurs(after_front(r), t),
    ensures
        lex_lt(least_head(r), t),
{
    lemma_least_head(r);
    let m = least_head(r);
    let a = after_front(r);
    let i = choose|i: int| 0 <= i < a.len() && has_token(#[trigger] a[i], t);
    let j = choose|j: int| 0 <= j < a[i].len() && (#[trigger] a[i][j]).token == t;
    assert(ascending(r[i]));
    if holds_front(r, i) {
        assert(lex_lt(r[i][0].token, r[i][j + 1].token));
    } else {
        assert(lex_le(m, r[i][0].token));
        if j > 0 {
            assert(lex_lt(r[i][0].token, r[i][j].token));
            if m != r[i][0].token {
                lemma_lex_lt_transitive(m, r[i][0].token, t);
            }
        }
    }
}

/// Every row's token is recorded by some source: the merge invents none.
pub proof fn lemma_merged_sound(r: Seq<Seq<Record>>, k: int)
    requires
        0 <= k < merged(r).len(),
    ensures
        occurs(r, merged(r)[k].token),
    decreases k,
{
    lemma_merged_unfold(r);
    if k == 0 {
        lemma_least_head(r);
        let i = choose|i: int| 0 <= i < r.len() && holds_front(r, i);
        assert(r[i][0].token == least_head(r));
        assert(has_token(r[i], least_head(r)));
    } else {
        lemma_merged_sound(after_front(r), k - 1);
        lemma_after_front_occurs(r, merged(r)[k].token);
    }
}

/// Every token that any source records has a row.
pub proof fn lemma_merged_complete(r: Seq<Seq<Record>>, t: Seq<u8>) -> (k: int)
    requires
        occurs(r, t),
    ensures
        0 <= k < merged(r).len(),
        merged(r)[k].token == t,
    decreases total_len(r),
{
    assert(!all_empty(r)) by {
        let i = choose|i: int| 0 <= i < r.len() && has_token(#[trigger] r[i], t);
        assert(r[i].len() > 0);
    }
    lemma_merged_unfold(r);
    if t == least_head(r) {
        0
    } else {
        lemma_after_front_keeps(r, t);
        lemma_after_front_shrinks(r);
        let k = lemma_merged_complete(after_front(r), t);
        k + 1
    }
}

/// The rows of ascending sources ascend strictly by token, so no token has
/// two rows.
pub proof fn lemma_merged_ascending(r: Seq<Seq<Record>>)
    requires
        all_ascending(r),
    ensures
        crate::token::strictly_ascending(tokens_of(merged(r))),
        forall|x: int, y: int|
            0 <= x < y < merged(r).len() ==> merged(r)[x].token != merged(r)[y].token,
    decreases total_len(r),
{
    let rows = tokens_of(merged(r));
    if !all_empty(r) {
        let a = after_front(r);
        lemma_merged_unfold(r);
        lemma_after_front_shrinks(r);
        lemma_after_front_ascending(r);
        lemma_merged_ascending(a);
        let rest = tokens_of(merged(a));
        assert forall|x: int, y: int| 0 <= x < y < rows.len() implies lex_lt(
            #[trigger] rows[x],
            #[trigger] rows[y],
        ) by {
            if x == 0 {
                lemma_merged_sound(a, y - 1);
                lemma_after_front_above(r, merged(a)[y - 1].token);
            } else {
                assert(lex_lt(rest[x - 1], rest[y - 1]));
            }
        }
    }
    assert forall|x: int, y: int| 0 <= x < y < merged(r).len() implies merged(r)[x].token
        != merged(r)[y].token by {
        assert(lex_lt(rows[x], rows[y]));
        lemma_lex_lt_total(rows[x], rows[y]);
    }
}

/// A row's bit for a source is the flag that the source records for the
/// row's token, and `false` if the source does not record the token.
pub proof fn lemma_merged_presence(r: Seq<Seq<Record>>, k: int, i: int)
    requires
        all_ascending(r),
        0 <= k < merged(r).len(),
        0 <= i < r.len(),
    ensures
        merged(r)[k].present.len() == r.len(),
        merged(r)[k].present[i] == recorded_present(r[i], merged(r)[k].token),
        !has_token(r[i], merged(r)[k].token) ==> !merged(r)[k].present[i],
    decreases k,
{
    lemma_merged_unfold(r);
    lemma_least_head(r);
    let m = least_head(r);
    let t = merged(r)[k].token;
    assert(ascending(r[i]));
    if k == 0 {
        if recorded_present(r[i], m) {
            let j = choose|j: int| 0 <= j < r[i].len() && (#[trigger] r[i][j]).token == m && r[i][j].present;
            if j > 0 {
                assert(lex_lt(r[i][0].token, r[i][j].token));
                assert(lex_le(m, r[i][0].token));
                lemma_lex_lt_total(m, r[i][0].token);
            }
        }
        if holds_front(r, i) && r[i][0].present {
            assert(r[i][0].token == m && r[i][0].present);
        }
    } else {
        let a = after_front(r);
        lemma_after_front_ascending(r);
        lemma_merged_presence(a, k - 1, i);
        lemma_merged_sound(a, k - 1);
        lemma_after_front_above(r, t);
        lemma_lex_lt_total(m, t);
        if recorded_present(a[i], t) {
            let j = choose|j: int| 0 <= j < a[i].len() && (#[trigger] a[i][j]).token == t && a[i][j].present;
            if holds_front(r, i) {
                assert(r[i][j + 1].token == t && r[i][j + 1].present);
            } else {
                assert(r[i][j].token == t && r[i][j].present);
            }
        }
        if recorded_present(r[i], t) {
            let j = choose|j: int| 0 <= j < r[i].len() && (#[trigger] r[i][j]).token == t && r[i][j].present;
            if holds_front(r, i) {
                assert(a[i][j - 1].token == t && a[i][j - 1].present);
            } else {
                assert(a[i][j].token == t && a[i][j].present);
            }
        }
    }
    if merged(r)[k].present[i] {
        let j = choose|j: int| 0 <= j < r[i].len() && (#[trigger] r[i][j]).token == t && r[i][j].present;
        assert(r[i][j].token == t);
    }
}

/// Some row of the table has token `t`.
pub open spec fn has_row(rows: Seq<Row>, t: Seq<u8>) -> bool {
    exists|k: int| 0 <= k < rows.len() && (#[trigger] rows[k]).token == t
}

/// What makes `rows` the merged table of the sources `r`: the rows ascend
/// strictly by token; every row's token is recorded by some source; every
/// recorded token has a row; and a row's bit for a source is the flag that
/// the source records for the row's token, `false` if it records none.
pub open spec fn is_merge_of(r: Seq<Seq<Record>>, rows: Seq<Row>) -> bool {
    &&& crate::token::strictly_ascending(tokens_of(rows))
    &&& forall|k: int| 0 <= k < rows.len() ==> occurs(r, (#[trigger] rows[k]).token)
    &&& forall|i: int, j: int|
        0 <= i < r.len() && 0 <= j < r[i].len() ==> has_row(rows, (#[trigger] r[i][j]).token)
    &&& forall|k: int| 0 <= k < rows.len() ==> (#[trigger] rows[k]).present.len() == r.len()
    &&& forall|k: int, i: int|
        0 <= k < rows.len() && 0 <= i < r.len() ==> (#[trigger] rows[k].present[i])
            == recorded_present(r[i], rows[k].token)
}

/// The table of ascending sources is sorted, complete and correct in every
/// bit.
pub proof fn lemma_merged_is_merge(r: Seq<Seq<Record>>)
    requires
        all_ascending(r),
    ensures
        is_merge_of(r, merged(r)),
{
    let rows = merged(r);
    lemma_merged_ascending(r);
    assert forall|k: int| 0 <= k < rows.len() implies occurs(r, (#[trigger] rows[k]).token) by {
        lemma_merged_sound(r, k);
    }
    assert forall|i: int, j: int| 0 <= i < r.len() && 0 <= j < r[i].len() implies has_row(
        rows,
        (#[trigger] r[i][j]).token,
    ) by {
        assert(has_token(r[i], r[i][j].token));
        let k = lemma_merged_complete(r, r[i][j].token);
        assert(rows[k].token == r[i][j].token);
    }
    assert forall|k: int| 0 <= k < rows.len() implies (#[trigger] rows[k]).present.len()
        == r.len() by {
        lemma_merged_sound(r, k);
        lemma_merged_presence(r, k, 0);
    }
    assert forall|k: int, i: int| 0 <= k < rows.len() && 0 <= i < r.len() implies (
    #[trigger] rows[k].present[i]) == recorded_present(r[i], rows[k].token) by {
        lemma_merged_presence(r, k, i);
    }
}

/// Two strictly ascending sequences with the same tokens are the same
/// sequence.
pub proof fn lemma_ascending_unique(a: Seq<Seq<u8>>, b: Seq<Seq<u8>>)
    requires
        crate::token::strictly_ascending(a),
        crate::token::strictly_ascending(b),
        forall|t: Seq<u8>| a.contains(t) <==> b.contains(t),
    ensures
        a == b,
    decreases a.len(),
{
    if a.len() == 0 {
        if b.len() > 0 {
            assert(b.contains(b[0]));
        }
        assert(a =~= b);
    } else {
        assert(a.contains(a[0]));
        let j = choose|j: int| 0 <= j < b.len() && b[j] == a[0];
        assert(b.contains(b[0]));
        let i = choose|i: int| 0 <= i < a.len() && a[i] == b[0];
        lemma_lex_lt_total(a[0], b[0]);
        if i > 0 {
            assert(lex_lt(a[0], a[i]));
        }
        if j > 0 {
            assert(lex_lt(b[0], b[j]));
        }
        assert(a[0] == b[0]);
        let a1 = a.skip(1);
        let b1 = b.skip(1);
        assert forall|x: int, y: int| 0 <= x < y < a1.len() implies lex_lt(
            #[trigger] a1[x],
            #[trigger] a1[y],
        ) by {
            assert(lex_lt(a[x + 1], a[y + 1]));
        }
        assert forall|x: int, y: int| 0 <= x < y < b1.len() implies lex_lt(
            #[trigger] b1[x],
            #[trigger] b1[y],
        ) by {
            assert(lex_lt(b[x + 1], b[y + 1]));
        }
        assert forall|t: Seq<u8>| a1.contains(t) <==> b1.contains(t) by {
            if a1.contains(t) {
                let x = choose|x: int| 0 <= x < a1.len() && a1[x] == t;
                assert(a[x + 1] == t);
                assert(lex_lt(a[0], a[x + 1]));
                lemma_lex_lt_total(a[0], t);
                assert(a.contains(t));
                let y = choose|y: int| 0 <= y < b.len() && b[y] == t;
                assert(b1[y - 1] == t);
            }
            if b1.contains(t) {
                let y = choose|y: int| 0 <= y < b1.len() && b1[y] == t;
                assert(b[y + 1] == t);
                assert(lex_lt(b[0], b[y + 1]));
                lemma_lex_lt_total(b[0], t);
                assert(b.contains(t));
                let x = choose|x: int| 0 <= x < a.len() && a[x] == t;
                assert(a1[x - 1] == t);
            }
        }
        lemma_ascending_unique(a1, b1);
        assert(a =~= seq![a[0]] + a1);
        assert(b =~= seq![b[0]] + b1);
    }
}

/// The sources have one merged table: any two tables that are sorted,
/// complete and correct in every bit are the same, row for row.
pub proof fn lemma_merge_unique(r: Seq<Seq<Record>>, a: Seq<Row>, b: Seq<Row>)
    requires
        is_merge_of(r, a),
        is_merge_of(r, b),
    ensures
        a == b,
{
    let ta = tokens_of(a);
    let tb = tokens_of(b);
    assert forall|t: Seq<u8>| ta.contains(t) <==> tb.contains(t) by {
        if ta.contains(t) {
            let k = choose|k: int| 0 <= k < ta.len() && ta[k] == t;
            lemma_row_in_both(r, a, b, k);
            let m = choose|m: int| 0 <= m < b.len() && (#[trigger] b[m]).token == t;
            assert(tb[m] == t);
        }
        if tb.contains(t) {
            let k = choose|k: int| 0 <= k < tb.len() && tb[k] == t;
            lemma_row_in_both(r, b, a, k);
            let m = choose|m: int| 0 <= m < a.len() && (#[trigger] a[m]).token == t;
            assert(ta[m] == t);
        }
    }
    lemma_ascending_unique(ta, tb);
    assert(a.len() == ta.len() && b.len() == tb.len());
    assert forall|k: int| 0 <= k < a.len() implies a[k] == b[k] by {
        assert(ta[k] == a[k].token);
        assert(tb[k] == b[k].token);
        assert(a[k].present.len() == b[k].present.len());
        assert forall|i: int| 0 <= i < r.len() implies a[k].present[i] == b[k].present[i] by {
            assert(a[k].present[i] == recorded_present(r[i], a[k].token));
            assert(b[k].present[i] == recorded_present(r[i], b[k].token));
        }
        assert(a[k].present =~= b[k].present);
    }
    assert(a =~= b);
}

/// A token with a row in one merged table of the sources has a row in
/// every other.
proof fn lemma_row_in_both(r: Seq<Seq<Record>>, a: Seq<Row>, b: Seq<Row>, k: int)
    requires
        is_merge_of(r, a),
        is_merge_of(r, b),
        0 <= k < a.len(),
    ensures
        has_row(b, a[k].token),
{
    let t = a[k].token;
    assert(occurs(r, t));
    let i = choose|i: int| 0 <= i < r.len() && has_token(#[trigger] r[i], t);
    let j = choose|j: int| 0 <= j < r[i].len() && (#[trigger] r[i][j]).token == t;
    assert(has_row(b, r[i][j].token));
}

} // verus!
