//! The merge scheduler: it keeps one stream per source in a priority queue
//! and hands out the rows of the merged table one at a time.

use vstd::prelude::*;
use crate::infile::{head_token, records, InFile};
use crate::queue::{stream_keys, StreamQueue};
use crate::rank::key_le;
use crate::record::{expand, KmerState, PositionInfo, Record, Row};
use crate::table::{
    after_front, all_ascending, all_empty, ascending, below_heads, front_row, holds_front,
    is_least_head, is_merge_of, least_head, lemma_after_front_ascending,
    lemma_least_head_unique, lemma_merged_is_merge, lemma_merged_unfold, lemma_total_len_update,
    merged, total_len,
};
use crate::token::{lemma_lex_lt_total, lemma_lex_lt_transitive, lex_le, lex_lt, token_equal};

verus! {

/// One input of the merge: the bytes of a listing, and whether its flags are
/// to be negated.
pub struct Source {
    pub data: Vec<u8>,
    pub inverted: bool,
}

/// The records of every source, as the streams report them.
pub open spec fn source_records(sources: Seq<Source>) -> Seq<Seq<Record>> {
    Seq::new(sources.len(), |i: int| records(sources[i].data@, sources[i].inverted))
}

/// The records that every stream has yet to hand out.
spec fn pendings(streams: Seq<InFile>) -> Seq<Seq<Record>> {
    Seq::new(streams.len(), |i: int| streams[i].pending())
}

/// The record that a row read from stream `origin` stands for.
spec fn record_of(row: Row, origin: int) -> Record {
    Record { token: row.token, present: row.present[origin] }
}

/// The streams' pending records with the record of the row in waiting put
/// back in front of the stream it was read from.
spec fn with_cursor(p: Seq<Seq<Record>>, cursor: Option<Row>, origin: int) -> Seq<
    Seq<Record>,
> {
    match cursor {
        Some(row) => p.update(origin, seq![record_of(row, origin)] + p[origin]),
        None => p,
    }
}

/// Stream `i` of `n` knows its column.
spec fn stream_ok(stream: InFile, i: int, n: int) -> bool {
    &&& stream.position().index == i
    &&& stream.position().out_of == n
}

/// Every stream stands at its own column.
spec fn streams_ok(streams: Seq<InFile>) -> bool {
    forall|i: int|
        0 <= i < streams.len() ==> stream_ok(#[trigger] streams[i], i, streams.len() as int)
}

/// Only bit `origin` of the row may be set.
spec fn single_bit(row: Row, origin: int) -> bool {
    forall|j: int| 0 <= j < row.present.len() && j != origin ==> !(#[trigger] row.present[j])
}

/// The state of a merge: the streams, the queue that ranks them, and the
/// row in waiting, which is the first record of the next row, already read
/// from stream `origin`.
struct Scheduler {
    streams: Vec<InFile>,
    queue: StreamQueue,
    cursor: Option<KmerState>,
    origin: usize,
}

impl Scheduler {
    /// The records that the merge has yet to put into rows, source by
    /// source.
    spec fn remaining(&self) -> Seq<Seq<Record>> {
        with_cursor(pendings(self.streams@), row_of(self.cursor), self.origin as int)
    }

    /// The scheduler's invariant: every stream stands at its own column, the
    /// queue is a heap over the streams' keys, and every stream outside the
    /// queue is exhausted. Without a row in waiting every stream is
    /// exhausted. With ascending sources, no stream holds a token before
    /// that of the row in waiting.
    spec fn wf(&self) -> bool {
        let n = self.streams@.len();
        let p = pendings(self.streams@);
        &&& streams_ok(self.streams@)
        &&& self.queue.wf(stream_keys(self.streams@))
        &&& forall|i: int|
            0 <= i < n && !self.queue.members().contains(i as usize) ==> (#[trigger] p[i]).len()
                == 0
        &&& match self.cursor {
            Some(state) => {
                &&& self.origin < n
                &&& state@.present.len() == n
                &&& single_bit(state@, self.origin as int)
                &&& all_ascending(self.remaining()) ==> below_heads(p, state@.token)
            },
            None => all_empty(p),
        }
    }

    /// Takes the first stream out of the queue and advances it. Returns the
    /// stream's number with what it handed out, or `None` if the queue is
    /// empty.
    fn serve(streams: &mut Vec<InFile>, queue: &mut StreamQueue) -> (served: Option<
        (usize, Option<KmerState>),
    >)
        requires
            streams_ok(old(streams)@),
            old(queue).wf(stream_keys(old(streams)@)),
        ensures
            streams_ok(final(streams)@),
            final(streams)@.len() == old(streams)@.len(),
            final(queue).wf(stream_keys(final(streams)@)),
            match served {
                Some((id, state)) => {
                    &&& id < old(streams)@.len()
                    &&& old(queue).members().contains(id)
                    &&& final(queue).members() == old(queue).members().remove(id)
                    &&& forall|other: usize|
                        old(queue).members().contains(other) && other < old(streams)@.len()
                            ==> key_le(
                            head_token(pendings(old(streams)@)[id as int]),
                            head_token(#[trigger] pendings(old(streams)@)[other as int]),
                        )
                    &&& match state {
                        Some(row) => {
                            &&& pendings(old(streams)@)[id as int].len() > 0
                            &&& row@ == expand(
                                pendings(old(streams)@)[id as int][0],
                                id as int,
                                old(streams)@.len() as int,
                            )
                            &&& pendings(final(streams)@) == pendings(old(streams)@).update(
                                id as int,
                                pendings(old(streams)@)[id as int].skip(1),
                            )
                        },
                        None => {
                            &&& pendings(old(streams)@)[id as int].len() == 0
                            &&& pendings(final(streams)@) == pendings(old(streams)@)
                        },
                    }
                },
                None => {
                    &&& old(queue).members() == Set::<usize>::empty()
                    &&& final(queue).members() == Set::<usize>::empty()
                    &&& final(streams)@ == old(streams)@
                },
            },
    {
        let ghost before = streams@;
        let ghost keys = stream_keys(before);
        let id = match queue.pop(streams) {
            Some(id) => id,
            None => {
                return None;
            },
        };
        proof {
            assert forall|other: usize|
                old(queue).members().contains(other) && other < before.len() implies key_le(
                head_token(pendings(before)[id as int]),
                head_token(#[trigger] pendings(before)[other as int]),
            ) by {
                assert(key_le(keys[id as int], keys[other as int]));
            }
        }
        assert(stream_ok(before[id as int], id as int, before.len() as int));
        let state = streams[id].advance();
        proof {
            let after = streams@;
            assert(after == before.update(id as int, after[id as int]));
            assert forall|i: int| 0 <= i < after.len() implies stream_ok(
                #[trigger] after[i],
                i,
                after.len() as int,
            ) by {
                if i != id {
                    assert(stream_ok(before[i], i, before.len() as int));
                }
            }
            queue.lemma_rekey(keys, stream_keys(after));
            if state is Some {
                assert(pendings(after) =~= pendings(before).update(
                    id as int,
                    pendings(before)[id as int].skip(1),
                ));
            } else {
                assert(after[id as int].pending() =~= before[id as int].pending());
                assert(pendings(after) =~= pendings(before));
            }
        }
        Some((id, state))
    }

    /// A scheduler without sources.
    fn idle() -> (scheduler: Scheduler)
        ensures
            scheduler.wf(),
            scheduler.remaining() == Seq::<Seq<Record>>::empty(),
    {
        let scheduler = Scheduler {
            streams: Vec::new(),
            queue: StreamQueue::new(),
            cursor: None,
            origin: 0,
        };
        assert(scheduler.remaining() =~= Seq::<Seq<Record>>::empty());
        scheduler
    }

    /// Opens one stream per source and readies the first row.
    fn new(sources: Vec<Source>) -> (scheduler: Scheduler)
        ensures
            scheduler.wf(),
            scheduler.remaining() == source_records(sources@),
    {
        let n = sources.len();
        let mut streams: Vec<InFile> = Vec::new();
        for source in iter: sources
            invariant
                n == sources@.len(),
                iter.seq() == sources@,
                streams@.len() == iter.index(),
                forall|i: int|
                    0 <= i < streams@.len() ==> stream_ok(#[trigger] streams@[i], i, n as int),
                forall|i: int|
                    0 <= i < streams@.len() ==> (#[trigger] streams@[i]).pending() == records(
                        sources@[i].data@,
                        sources@[i].inverted,
                    ),
        {
            let index = streams.len();
            let stream = InFile::new(
                source.data,
                source.inverted,
                PositionInfo { index, out_of: n },
            );
            streams.push(stream);
        }
        let ghost all = pendings(streams@);
        assert(all =~= source_records(sources@));
        let mut queue = StreamQueue::new();
        let mut id: usize = 0;
        while id < n
            invariant
                id <= n,
                n == streams@.len(),
                queue.wf(stream_keys(streams@)),
                queue.members() == Set::new(|i: usize| i < id),
            decreases n - id,
        {
            queue.push(&streams, id);
            id += 1;
            assert(queue.members() =~= Set::new(|i: usize| i < id));
        }
        let mut cursor: Option<KmerState> = None;
        let mut origin: usize = 0;
        match Self::serve(&mut streams, &mut queue) {
            Some((first, state)) => {
                let ghost members = Set::new(|i: usize| i < n);
                queue.push(&streams, first);
                proof {
                    assert(queue.members() =~= members);
                    if state is Some {
                        lemma_least_served_among(all, members, first as int);
                        lemma_cursor_taken(all, state.unwrap()@, first as int);
                        if all_ascending(all) {
                            lemma_heads_after_first(all, first as int);
                        }
                    } else {
                        lemma_all_exhausted(all, members, first as int);
                    }
                }
                cursor = state;
                origin = first;
            },
            None => {
                assert(n == 0) by {
                    if n > 0 {
                        assert(Set::new(|i: usize| i < n).contains(0usize));
                    }
                }
            },
        }
        Scheduler { streams, queue, cursor, origin }
    }

    /// Completes the row in waiting from the streams that hold its token,
    /// and puts the first record with another token in waiting.
    fn next_row(&mut self) -> (row: Option<KmerState>)
        requires
            old(self).wf(),
        ensures
            final(self).wf(),
            final(self).remaining().len() == old(self).remaining().len(),
            row is None <==> all_empty(old(self).remaining()),
            row is None ==> final(self).remaining() == old(self).remaining(),
            row is Some ==> {
                &&& row.unwrap()@.present.len() == old(self).remaining().len()
                &&& total_len(final(self).remaining()) < total_len(old(self).remaining())
            },
            row is Some && all_ascending(old(self).remaining()) ==> {
                &&& row.unwrap()@ == front_row(old(self).remaining())
                &&& final(self).remaining() == after_front(old(self).remaining())
            },
    {
        let ghost r0 = self.remaining();
        let ghost initial = pendings(self.streams@);
        let n = self.streams.len();
        let mut curr = match self.cursor.take() {
            Some(state) => state,
            None => {
                assert(self.remaining() == r0);
                return None;
            },
        };
        let ghost start = curr@;
        let ghost from = self.origin as int;
        proof {
            assert(r0[from].len() > 0);
            lemma_total_len_update(initial, from, seq![record_of(start, from)] + initial[from]);
            if all_ascending(r0) {
                lemma_folding_start(initial, start, from);
            }
        }
        let mut next: Option<KmerState> = None;
        let mut next_origin: usize = 0;
        loop
            invariant_except_break
                next is None,
                all_ascending(r0) ==> folding(r0, pendings(self.streams@), curr@.present),
            invariant
                n == self.streams@.len(),
                n == r0.len(),
                n == initial.len(),
                streams_ok(self.streams@),
                self.queue.wf(stream_keys(self.streams@)),
                forall|i: int|
                    0 <= i < n && !self.queue.members().contains(i as usize) ==> (
                    #[trigger] pendings(self.streams@)[i]).len() == 0,
                self.cursor is None,
                self.origin == old(self).origin,
                curr@.token == start.token,
                curr@.present.len() == n,
                total_len(pendings(self.streams@)) <= total_len(initial),
                all_ascending(r0) ==> least_head(r0) == start.token,
            ensures
                total_len(with_cursor(pendings(self.streams@), row_of(next), next_origin as int))
                    <= total_len(initial),
                match next {
                    Some(state) => {
                        &&& next_origin < n
                        &&& state@.present.len() == n
                        &&& single_bit(state@, next_origin as int)
                        &&& all_ascending(
                            with_cursor(
                                pendings(self.streams@),
                                row_of(next),
                                next_origin as int,
                            ),
                        ) ==> below_heads(pendings(self.streams@), state@.token)
                    },
                    None => all_empty(pendings(self.streams@)),
                },
                all_ascending(r0) ==> {
                    &&& with_cursor(pendings(self.streams@), row_of(next), next_origin as int)
                        == after_front(r0)
                    &&& curr@ == front_row(r0)
                },
            decreases total_len(pendings(self.streams@)) + self.queue.members().len(),
        {
            let ghost p = pendings(self.streams@);
            let ghost bits = curr@.present;
            let ghost members = self.queue.members();
            proof {
                self.queue.lemma_members_in_range(stream_keys(self.streams@));
            }
            match Self::serve(&mut self.streams, &mut self.queue) {
                None => {
                    proof {
                        assert(all_empty(p));
                        if all_ascending(r0) {
                            lemma_folding_complete(r0, p, bits);
                        }
                    }
                    break;
                },
                Some((id, None)) => {},
                Some((id, Some(read))) => {
                    let same = token_equal(&read.kmer, &curr.kmer);
                    if same {
                        curr.present[id] = read.present[id];
                    }
                    self.queue.push(&self.streams, id);
                    proof {
                        assert(self.queue.members() =~= members);
                        lemma_total_len_update(p, id as int, p[id as int].skip(1));
                        if same {
                            if all_ascending(r0) {
                                lemma_folding_step(r0, p, bits, id as int);
                            }
                        } else {
                            lemma_least_served_among(p, members, id as int);
                            lemma_cursor_taken(p, read@, id as int);
                            if all_ascending(r0) {
                                lemma_heads_above(r0, p, bits, id as int);
                                lemma_folding_complete(r0, p, bits);
                            }
                            if all_ascending(p) {
                                lemma_heads_after_first(p, id as int);
                            }
                        }
                    }
                    if !same {
                        next = Some(read);
                        next_origin = id;
                        break;
                    }
                },
            }
        }
        self.cursor = next;
        self.origin = next_origin;
        Some(curr)
    }
}

/// A merge in progress. It hands out the rows of the merged table one at a
/// time.
pub struct Merger {
    state: Scheduler,
}

impl Merger {
    /// The scheduler's invariant holds of every merger.
    #[verifier::type_invariant]
    closed spec fn inv(&self) -> bool {
        self.state.wf()
    }

    /// The records that the merge has yet to put into rows, source by
    /// source.
    pub closed spec fn remaining(&self) -> Seq<Seq<Record>> {
        self.state.remaining()
    }

    /// Opens one stream per source and readies the first row.
    pub fn new(sources: Vec<Source>) -> (merger: Merger)
        ensures
            merger.remaining() == source_records(sources@),
    {
        Merger { state: Scheduler::new(sources) }
    }

    /// The number of sources, which is the width of every row.
    pub fn width(&self) -> (n: usize)
        ensures
            n == self.remaining().len(),
    {
        proof {
            use_type_invariant(self);
        }
        self.state.streams.len()
    }

    /// Hands out the next row of the merged table, or `None` when every
    /// source is exhausted.
    ///
    /// The row holds the smallest token that any source has left, with the
    /// flag of every source that records it. That much is promised of
    /// sources whose tokens ascend strictly; of others only that the rows
    /// come to an end.
    pub fn next_row(&mut self) -> (row: Option<KmerState>)
        ensures
            final(self).remaining().len() == old(self).remaining().len(),
            row is None <==> all_empty(old(self).remaining()),
            row is None ==> final(self).remaining() == old(self).remaining(),
            row is Some ==> {
                &&& row.unwrap()@.present.len() == old(self).remaining().len()
                &&& total_len(final(self).remaining()) < total_len(old(self).remaining())
            },
            row is Some && all_ascending(old(self).remaining()) ==> {
                &&& row.unwrap()@ == front_row(old(self).remaining())
                &&& final(self).remaining() == after_front(old(self).remaining())
            },
    {
        proof {
            use_type_invariant(&*self);
        }
        let mut state = Scheduler::idle();
        core::mem::swap(&mut self.state, &mut state);
        let row = state.next_row();
        core::mem::swap(&mut self.state, &mut state);
        row
    }
}

/// The rows of a table, as contracts see them.
pub open spec fn table_of(rows: Seq<KmerState>) -> Seq<Row> {
    Seq::new(rows.len(), |k: int| rows[k]@)
}

/// Merges the sources into one table: a row for every distinct token, with
/// one presence bit per source.
///
/// The table is promised of sources whose tokens ascend strictly. Of others
/// only the width of the rows is.
pub fn merge(sources: Vec<Source>) -> (rows: Vec<KmerState>)
    ensures
        forall|k: int|
            0 <= k < rows@.len() ==> (#[trigger] rows@[k])@.present.len() == sources@.len(),
        all_ascending(source_records(sources@)) ==> table_of(rows@) == merged(
            source_records(sources@),
        ),
        all_ascending(source_records(sources@)) ==> is_merge_of(
            source_records(sources@),
            table_of(rows@),
        ),
{
    let ghost all = source_records(sources@);
    let mut merger = Merger::new(sources);
    let mut rows: Vec<KmerState> = Vec::new();
    loop
        invariant
            merger.remaining().len() == all.len(),
            forall|k: int|
                0 <= k < rows@.len() ==> (#[trigger] rows@[k])@.present.len() == all.len(),
            all_ascending(all) ==> all_ascending(merger.remaining()),
            all_ascending(all) ==> table_of(rows@) + merged(merger.remaining()) == merged(all),
        ensures
            all_ascending(all) ==> table_of(rows@) == merged(all),
            all_ascending(all) ==> is_merge_of(all, table_of(rows@)),
        decreases total_len(merger.remaining()),
    {
        let ghost left = merger.remaining();
        let ghost done = table_of(rows@);
        match merger.next_row() {
            Some(row) => {
                rows.push(row);
                proof {
                    if all_ascending(all) {
                        lemma_merged_unfold(left);
                        lemma_after_front_ascending(left);
                        assert(table_of(rows@) =~= done + seq![front_row(left)]);
                        assert(table_of(rows@) + merged(after_front(left)) =~= done + merged(
                            left,
                        ));
                    }
                }
            },
            None => {
                assert(table_of(rows@) + merged(left) =~= table_of(rows@));
                proof {
                    if all_ascending(all) {
                        lemma_merged_is_merge(all);
                    }
                }
                break;
            },
        }
    }
    rows
}

/// The row of a state, if there is one.
spec fn row_of(state: Option<KmerState>) -> Option<Row> {
    match state {
        Some(s) => Some(s@),
        None => None,
    }
}

/// How far the row under construction has come. Every source either has
/// given its first record to the row, or does not hold the row's token in
/// front as far as is known, its bit still unset.
spec fn folded(r0: Seq<Seq<Record>>, p: Seq<Seq<Record>>, bits: Seq<bool>, i: int) -> bool {
    ||| (holds_front(r0, i) && p[i] == r0[i].skip(1) && bits[i] == r0[i][0].present)
    ||| (p[i] == r0[i] && !bits[i])
}

/// The state of a row under construction: `r0` is what remained when the
/// row was begun, `p` what the streams hold now, `bits` the row's bits.
spec fn folding(r0: Seq<Seq<Record>>, p: Seq<Seq<Record>>, bits: Seq<bool>) -> bool {
    &&& p.len() == r0.len()
    &&& bits.len() == r0.len()
    &&& is_least_head(r0, least_head(r0))
    &&& forall|i: int| 0 <= i < r0.len() ==> folded(r0, p, bits, i)
}

/// A row freshly read from stream `origin`, whose token no stream's first
/// record precedes, begins the row of the smallest token.
proof fn lemma_folding_start(initial: Seq<Seq<Record>>, row: Row, origin: int)
    requires
        0 <= origin < initial.len(),
        row.present.len() == initial.len(),
        single_bit(row, origin),
        below_heads(initial, row.token),
    ensures
        folding(with_cursor(initial, Some(row), origin), initial, row.present),
        least_head(with_cursor(initial, Some(row), origin)) == row.token,
{
    let r0 = with_cursor(initial, Some(row), origin);
    assert(r0[origin][0].token == row.token);
    assert forall|i: int| 0 <= i < r0.len() && (#[trigger] r0[i]).len() > 0 implies lex_le(
        row.token,
        r0[i][0].token,
    ) by {
        if i != origin {
            assert(initial[i].len() > 0);
        }
    }
    lemma_least_head_unique(r0, row.token);
    assert forall|i: int| 0 <= i < r0.len() implies folded(r0, initial, row.present, i) by {
        if i == origin {
            assert(initial[i] =~= r0[i].skip(1));
        }
    }
}

/// A stream whose first record holds the row's token gives it to the row.
proof fn lemma_folding_step(r0: Seq<Seq<Record>>, p: Seq<Seq<Record>>, bits: Seq<bool>, id: int)
    requires
        all_ascending(r0),
        folding(r0, p, bits),
        0 <= id < p.len(),
        p[id].len() > 0,
        p[id][0].token == least_head(r0),
    ensures
        folding(r0, p.update(id, p[id].skip(1)), bits.update(id, p[id][0].present)),
{
    let stepped = p.update(id, p[id].skip(1));
    let bits_after = bits.update(id, p[id][0].present);
    assert(folded(r0, p, bits, id));
    assert(ascending(r0[id]));
    if p[id] == r0[id].skip(1) && r0[id].len() > 0 && r0[id][0].token == least_head(r0) {
        assert(lex_lt(r0[id][0].token, r0[id][1].token));
        assert(p[id][0] == r0[id][1]);
        lemma_lex_lt_total(r0[id][0].token, r0[id][1].token);
    }
    assert forall|i: int| 0 <= i < r0.len() implies folded(r0, stepped, bits_after, i) by {
        assert(folded(r0, p, bits, i));
    }
}

/// When a stream is served whose token differs from the row's, every
/// stream's first token sorts after the row's.
proof fn lemma_heads_above(r0: Seq<Seq<Record>>, p: Seq<Seq<Record>>, bits: Seq<bool>, id: int)
    requires
        all_ascending(r0),
        folding(r0, p, bits),
        0 <= id < p.len(),
        p[id].len() > 0,
        p[id][0].token != least_head(r0),
        below_heads(p, p[id][0].token),
    ensures
        forall|i: int|
            0 <= i < p.len() && (#[trigger] p[i]).len() > 0 ==> lex_lt(
                least_head(r0),
                p[i][0].token,
            ),
{
    let k = least_head(r0);
    let t = p[id][0].token;
    assert(folded(r0, p, bits, id));
    assert(ascending(r0[id]));
    assert(lex_lt(k, t)) by {
        if p[id] == r0[id] {
            assert(lex_le(k, r0[id][0].token));
        } else {
            assert(p[id][0] == r0[id][1]);
            assert(lex_lt(r0[id][0].token, r0[id][1].token));
        }
    }
    assert forall|i: int| 0 <= i < p.len() && (#[trigger] p[i]).len() > 0 implies lex_lt(
        k,
        p[i][0].token,
    ) by {
        assert(lex_le(t, p[i][0].token));
        if t != p[i][0].token {
            lemma_lex_lt_transitive(k, t, p[i][0].token);
        }
    }
}

/// Once every stream's first token sorts after the row's, the row is
/// complete and the streams hold what remains after it.
proof fn lemma_folding_complete(r0: Seq<Seq<Record>>, p: Seq<Seq<Record>>, bits: Seq<bool>)
    requires
        folding(r0, p, bits),
        forall|i: int|
            0 <= i < p.len() && (#[trigger] p[i]).len() > 0 ==> lex_lt(
                least_head(r0),
                p[i][0].token,
            ),
    ensures
        p == after_front(r0),
        bits == front_row(r0).present,
{
    let k = least_head(r0);
    assert forall|i: int| 0 <= i < r0.len() implies p[i] == after_front(r0)[i] && bits[i]
        == front_row(r0).present[i] by {
        assert(folded(r0, p, bits, i));
        if p[i] == r0[i] && !bits[i] {
            if r0[i].len() > 0 {
                assert(lex_lt(k, p[i][0].token));
                lemma_lex_lt_total(k, p[i][0].token);
            }
        }
    }
    assert(p =~= after_front(r0));
    assert(bits =~= front_row(r0).present);
}

/// The stream served first holds the smallest first token, given that the
/// streams outside the queue are exhausted.
proof fn lemma_least_served_among(p: Seq<Seq<Record>>, members: Set<usize>, id: int)
    requires
        0 <= id < p.len() <= usize::MAX,
        p[id].len() > 0,
        forall|i: int|
            0 <= i < p.len() && !members.contains(i as usize) ==> (#[trigger] p[i]).len() == 0,
        forall|other: usize|
            members.contains(other) && other < p.len() ==> key_le(
                head_token(p[id]),
                head_token(#[trigger] p[other as int]),
            ),
    ensures
        below_heads(p, p[id][0].token),
{
    assert forall|i: int| 0 <= i < p.len() && (#[trigger] p[i]).len() > 0 implies lex_le(
        p[id][0].token,
        p[i][0].token,
    ) by {
        assert(members.contains(i as usize));
        assert(key_le(head_token(p[id]), head_token(p[i as usize as int])));
        lemma_lex_lt_total(p[id][0].token, p[i][0].token);
    }
}

/// If the stream served first is exhausted, so is every stream.
proof fn lemma_all_exhausted(p: Seq<Seq<Record>>, members: Set<usize>, id: int)
    requires
        0 <= id < p.len() <= usize::MAX,
        p[id].len() == 0,
        forall|i: int|
            0 <= i < p.len() && !members.contains(i as usize) ==> (#[trigger] p[i]).len() == 0,
        forall|other: usize|
            members.contains(other) && other < p.len() ==> key_le(
                head_token(p[id]),
                head_token(#[trigger] p[other as int]),
            ),
    ensures
        all_empty(p),
{
    assert forall|i: int| 0 <= i < p.len() implies (#[trigger] p[i]).len() == 0 by {
        if members.contains(i as usize) {
            assert(key_le(head_token(p[id]), head_token(p[i as usize as int])));
        }
    }
}

/// A row read from stream `id`, put back in front of what the stream then
/// holds, restores what the stream held before.
proof fn lemma_cursor_taken(p: Seq<Seq<Record>>, row: Row, id: int)
    requires
        0 <= id < p.len(),
        p[id].len() > 0,
        row == expand(p[id][0], id, p.len() as int),
    ensures
        with_cursor(p.update(id, p[id].skip(1)), Some(row), id) == p,
        single_bit(row, id),
        row.present.len() == p.len(),
{
    let q = with_cursor(p.update(id, p[id].skip(1)), Some(row), id);
    assert(record_of(row, id) == p[id][0]);
    assert(q[id] =~= p[id]);
    assert(q =~= p);
}

/// In ascending streams, after the first record of the stream with the
/// smallest first token is taken, no stream's first token precedes it.
proof fn lemma_heads_after_first(p: Seq<Seq<Record>>, id: int)
    requires
        0 <= id < p.len(),
        p[id].len() > 0,
        below_heads(p, p[id][0].token),
        all_ascending(p),
    ensures
        below_heads(p.update(id, p[id].skip(1)), p[id][0].token),
{
    let q = p.update(id, p[id].skip(1));
    assert forall|i: int| 0 <= i < q.len() && (#[trigger] q[i]).len() > 0 implies lex_le(
        p[id][0].token,
        q[i][0].token,
    ) by {
        if i == id {
            assert(ascending(p[id]));
            assert(lex_lt(p[id][0].token, p[id][1].token));
        } else {
            assert(p[i].len() > 0);
        }
    }
}

} // verus!
