//! The priority structure of the merge: a binary heap of stream numbers,
//! ordered by the token that each stream holds ready.

use vstd::prelude::*;
use crate::infile::{head_token, InFile};
use crate::rank::{key_before, key_le, lemma_key_le_total, lemma_key_le_transitive};

verus! {

/// The key of every stream, by stream number.
pub open spec fn stream_keys(streams: Seq<InFile>) -> Seq<Option<Seq<u8>>> {
    Seq::new(streams.len(), |i: int| head_token(streams[i].pending()))
}

/// Slot `c` is one of the two heap slots below slot `p`.
spec fn is_child(p: int, c: int) -> bool {
    0 <= p && (c == 2 * p + 1 || c == 2 * p + 2)
}

/// The key of the stream whose number stands in slot `i`.
spec fn key_at(order: Seq<usize>, keys: Seq<Option<Seq<u8>>>, i: int) -> Option<
    Seq<u8>,
> {
    keys[order[i] as int]
}

/// Every slot but `hole` holds a key no smaller than its parent's.
spec fn ordered_except_at(
    order: Seq<usize>,
    keys: Seq<Option<Seq<u8>>>,
    hole: int,
) -> bool {
    forall|p: int, c: int|
        is_child(p, c) && c < order.len() && c != hole ==> key_le(
            #[trigger] key_at(order, keys, p),
            #[trigger] key_at(order, keys, c),
        )
}

/// Every slot but the children of `hole` holds a key no smaller than its
/// parent's.
spec fn ordered_except_below(
    order: Seq<usize>,
    keys: Seq<Option<Seq<u8>>>,
    hole: int,
) -> bool {
    forall|p: int, c: int|
        is_child(p, c) && c < order.len() && p != hole ==> key_le(
            #[trigger] key_at(order, keys, p),
            #[trigger] key_at(order, keys, c),
        )
}

/// The children of `hole` hold keys no smaller than the key above `hole`.
spec fn bridged(order: Seq<usize>, keys: Seq<Option<Seq<u8>>>, hole: int) -> bool {
    forall|g: int, c: int|
        is_child(g, hole) && is_child(hole, c) && c < order.len() ==> key_le(
            #[trigger] key_at(order, keys, g),
            #[trigger] key_at(order, keys, c),
        )
}

/// The stream numbers are distinct and each names a key.
spec fn valid_ids(order: Seq<usize>, keys: Seq<Option<Seq<u8>>>) -> bool {
    &&& order.no_duplicates()
    &&& forall|i: int| 0 <= i < order.len() ==> #[trigger] order[i] < keys.len()
}

/// The heap order: no slot holds a key smaller than its parent's.
spec fn heap_ordered(order: Seq<usize>, keys: Seq<Option<Seq<u8>>>) -> bool {
    forall|p: int, c: int|
        is_child(p, c) && c < order.len() ==> key_le(
            #[trigger] key_at(order, keys, p),
            #[trigger] key_at(order, keys, c),
        )
}

/// `order` with the contents of slots `i` and `j` exchanged.
spec fn swapped(order: Seq<usize>, i: int, j: int) -> Seq<usize> {
    order.update(i, order[j]).update(j, order[i])
}

/// Exchanging two slots keeps the set of stream numbers and their
/// distinctness.
proof fn lemma_swapped_members(order: Seq<usize>, i: int, j: int)
    requires
        0 <= i < order.len(),
        0 <= j < order.len(),
    ensures
        swapped(order, i, j).to_set() == order.to_set(),
        order.no_duplicates() ==> swapped(order, i, j).no_duplicates(),
        swapped(order, i, j).len() == order.len(),
{
    let after = swapped(order, i, j);
    assert forall|x: usize| after.contains(x) <==> order.contains(x) by {
        if after.contains(x) {
            let k = choose|k: int| 0 <= k < after.len() && after[k] == x;
            let from = if k == i {
                j
            } else if k == j {
                i
            } else {
                k
            };
            assert(order[from] == x);
        }
        if order.contains(x) {
            let k = choose|k: int| 0 <= k < order.len() && order[k] == x;
            let to = if k == i {
                j
            } else if k == j {
                i
            } else {
                k
            };
            assert(after[to] == x);
        }
    }
    assert(after.to_set() =~= order.to_set());
}

/// In a heap the root holds a least key.
proof fn lemma_root_is_least(order: Seq<usize>, keys: Seq<Option<Seq<u8>>>, i: int)
    requires
        heap_ordered(order, keys),
        0 <= i < order.len(),
    ensures
        key_le(key_at(order, keys, 0), key_at(order, keys, i)),
    decreases i,
{
    if i == 0 {
        lemma_key_le_total(key_at(order, keys, 0), key_at(order, keys, 0));
    } else {
        let up = (i - 1) / 2;
        assert(is_child(up, i));
        lemma_root_is_least(order, keys, up);
        lemma_key_le_transitive(
            key_at(order, keys, 0),
            key_at(order, keys, up),
            key_at(order, keys, i),
        );
    }
}

/// The streams that still take part in the merge, as a binary heap of their
/// numbers. The stream with the smallest token ready is at the root.
pub struct StreamQueue {
    order: Vec<usize>,
}

impl StreamQueue {
    /// The numbers of the streams in the queue.
    pub closed spec fn members(&self) -> Set<usize> {
        self.order@.to_set()
    }

    /// The queue's invariant against the streams' current keys: its numbers
    /// are distinct, each names a stream, and the heap order holds.
    pub closed spec fn wf(&self, keys: Seq<Option<Seq<u8>>>) -> bool {
        &&& valid_ids(self.order@, keys)
        &&& heap_ordered(self.order@, keys)
    }

    /// Every member names a stream.
    pub proof fn lemma_members_in_range(&self, keys: Seq<Option<Seq<u8>>>)
        requires
            self.wf(keys),
        ensures
            forall|id: usize| self.members().contains(id) ==> id < keys.len(),
            self.members().finite(),
    {
        assert forall|id: usize| self.members().contains(id) implies id < keys.len() by {
            let k = choose|k: int| 0 <= k < self.order@.len() && self.order@[k] == id;
            assert(self.order@[k] < keys.len());
        }
        vstd::seq_lib::seq_to_set_is_finite(self.order@);
    }

    /// The invariant only depends on the keys of the members: a stream
    /// outside the queue may change its key freely.
    pub proof fn lemma_rekey(
        &self,
        keys: Seq<Option<Seq<u8>>>,
        changed: Seq<Option<Seq<u8>>>,
    )
        requires
            self.wf(keys),
            keys.len() == changed.len(),
            forall|id: usize|
                self.members().contains(id) && id < keys.len() ==> keys[id as int]
                    == changed[id as int],
        ensures
            self.wf(changed),
    {
        let order = self.order@;
        assert forall|i: int| 0 <= i < order.len() implies key_at(order, keys, i) == key_at(
            order,
            changed,
            i,
        ) by {
            assert(order.contains(order[i]));
        }
        assert forall|p: int, c: int| is_child(p, c) && c < order.len() implies key_le(
            #[trigger] key_at(order, changed, p),
            #[trigger] key_at(order, changed, c),
        ) by {
            assert(key_le(key_at(order, keys, p), key_at(order, keys, c)));
        }
    }

    /// An empty queue.
    pub fn new() -> (queue: StreamQueue)
        ensures
            queue.members() == Set::<usize>::empty(),
            forall|keys: Seq<Option<Seq<u8>>>| queue.wf(keys),
    {
        let queue = StreamQueue { order: Vec::new() };
        assert(queue.order@.to_set() =~= Set::<usize>::empty());
        queue
    }

    /// Whether no stream is in the queue.
    pub fn is_empty(&self) -> (empty: bool)
        ensures
            empty <==> self.members() == Set::<usize>::empty(),
    {
        proof {
            if self.order@.len() > 0 {
                assert(self.order@.contains(self.order@[0]));
                assert(self.members().contains(self.order@[0]));
            } else {
                assert(self.order@.to_set() =~= Set::<usize>::empty());
            }
        }
        self.order.len() == 0
    }

    /// Exchanges the contents of two slots.
    fn swap_slots(&mut self, i: usize, j: usize)
        requires
            i < old(self).order@.len(),
            j < old(self).order@.len(),
        ensures
            final(self).order@ == swapped(old(self).order@, i as int, j as int),
    {
        let a = self.order[i];
        let b = self.order[j];
        self.order[i] = b;
        self.order[j] = a;
    }

    /// Whether the stream in slot `i` is served strictly before the one in
    /// slot `j`.
    fn slot_precedes(&self, streams: &Vec<InFile>, i: usize, j: usize) -> (r: bool)
        requires
            i < self.order@.len(),
            j < self.order@.len(),
            valid_ids(self.order@, stream_keys(streams@)),
        ensures
            r == key_before(
                key_at(self.order@, stream_keys(streams@), i as int),
                key_at(self.order@, stream_keys(streams@), j as int),
            ),
    {
        let a = self.order[i];
        let b = self.order[j];
        streams[a].precedes(&streams[b])
    }

    /// Moves the stream in slot `start` up until its parent's key is no
    /// greater than its own.
    fn sift_up(&mut self, streams: &Vec<InFile>, start: usize)
        requires
            start < old(self).order@.len(),
            valid_ids(old(self).order@, stream_keys(streams@)),
            ordered_except_at(old(self).order@, stream_keys(streams@), start as int),
            bridged(old(self).order@, stream_keys(streams@), start as int),
        ensures
            final(self).wf(stream_keys(streams@)),
            final(self).members() == old(self).members(),
    {
        let ghost keys = stream_keys(streams@);
        let mut pos = start;
        while pos > 0
            invariant_except_break
                ordered_except_at(self.order@, keys, pos as int),
                bridged(self.order@, keys, pos as int),
            invariant
                keys == stream_keys(streams@),
                pos < self.order@.len(),
                valid_ids(self.order@, keys),
                self.order@.to_set() == old(self).order@.to_set(),
            ensures
                heap_ordered(self.order@, keys),
            decreases pos,
        {
            let up = (pos - 1) / 2;
            let ghost before = self.order@;
            assert(is_child(up as int, pos as int));
            if !self.slot_precedes(streams, pos, up) {
                proof {
                    lemma_settled_at(before, keys, pos as int, up as int);
                }
                break;
            }
            self.swap_slots(pos, up);
            proof {
                lemma_swapped_members(before, pos as int, up as int);
                lemma_lifted(before, keys, pos as int, up as int);
            }
            pos = up;
        }
    }

    /// Moves the stream in slot `start` down until no child's key is smaller
    /// than its own.
    fn sift_down(&mut self, streams: &Vec<InFile>, start: usize)
        requires
            start < old(self).order@.len(),
            valid_ids(old(self).order@, stream_keys(streams@)),
            ordered_except_below(old(self).order@, stream_keys(streams@), start as int),
            bridged(old(self).order@, stream_keys(streams@), start as int),
        ensures
            final(self).wf(stream_keys(streams@)),
            final(self).members() == old(self).members(),
    {
        let ghost keys = stream_keys(streams@);
        let n = self.order.len();
        let mut pos = start;
        while pos < n / 2
            invariant_except_break
                ordered_except_below(self.order@, keys, pos as int),
                bridged(self.order@, keys, pos as int),
            invariant
                keys == stream_keys(streams@),
                n == self.order@.len(),
                pos < n,
                valid_ids(self.order@, keys),
                self.order@.to_set() == old(self).order@.to_set(),
            ensures
                heap_ordered(self.order@, keys),
            decreases n - pos,
        {
            let left = 2 * pos + 1;
            let right = left + 1;
            let least = if right < n && self.slot_precedes(streams, right, left) {
                right
            } else {
                left
            };
            let ghost before = self.order@;
            proof {
                let low = key_at(before, keys, least as int);
                lemma_key_le_total(low, key_at(before, keys, left as int));
                assert forall|c: int| is_child(pos as int, c) && c < before.len() implies key_le(
                    low,
                    #[trigger] key_at(before, keys, c),
                ) by {
                    if c == right {
                        lemma_key_le_total(low, key_at(before, keys, right as int));
                    }
                }
            }
            if !self.slot_precedes(streams, least, pos) {
                proof {
                    lemma_settled_below(before, keys, pos as int, least as int);
                }
                break;
            }
            self.swap_slots(pos, least);
            proof {
                lemma_swapped_members(before, pos as int, least as int);
                lemma_lowered(before, keys, pos as int, least as int);
            }
            pos = least;
        }
        proof {
            if pos >= n / 2 {
                lemma_leaf_settled(self.order@, keys, pos as int);
            }
        }
    }

    /// Adds a stream to the queue.
    pub fn push(&mut self, streams: &Vec<InFile>, id: usize)
        requires
            old(self).wf(stream_keys(streams@)),
            id < streams@.len(),
            !old(self).members().contains(id),
        ensures
            final(self).wf(stream_keys(streams@)),
            final(self).members() == old(self).members().insert(id),
    {
        let ghost keys = stream_keys(streams@);
        let ghost before = self.order@;
        self.order.push(id);
        proof {
            lemma_appended(before, keys, id);
        }
        let last = self.order.len() - 1;
        self.sift_up(streams, last);
    }

    /// Takes out the stream that is served first: one whose key is no
    /// greater than any other member's. Returns `None` if the queue is empty.
    pub fn pop(&mut self, streams: &Vec<InFile>) -> (first: Option<usize>)
        requires
            old(self).wf(stream_keys(streams@)),
        ensures
            final(self).wf(stream_keys(streams@)),
            match first {
                Some(id) => {
                    &&& old(self).members().contains(id)
                    &&& id < streams@.len()
                    &&& final(self).members() == old(self).members().remove(id)
                    &&& forall|other: usize|
                        old(self).members().contains(other) && other < streams@.len() ==> key_le(
                            stream_keys(streams@)[id as int],
                            #[trigger] stream_keys(streams@)[other as int],
                        )
                },
                None => {
                    &&& old(self).members() == Set::<usize>::empty()
                    &&& final(self).members() == Set::<usize>::empty()
                },
            },
    {
        let ghost keys = stream_keys(streams@);
        let ghost before = self.order@;
        let n = self.order.len();
        if n == 0 {
            assert(before.to_set() =~= Set::<usize>::empty());
            return None;
        }
        let top = self.order[0];
        proof {
            assert(before.contains(top));
            assert forall|other: usize|
                before.to_set().contains(other) && other < streams@.len() implies key_le(
                keys[top as int],
                #[trigger] keys[other as int],
            ) by {
                let k = choose|k: int| 0 <= k < before.len() && before[k] == other;
                lemma_root_is_least(before, keys, k);
            }
        }
        let last = self.order.pop().unwrap();
        if n > 1 {
            self.order[0] = last;
            proof {
                assert(self.order@ =~= before.update(0, before.last()).drop_last());
                lemma_root_replaced(before, keys);
            }
            self.sift_down(streams, 0);
        } else {
            assert(self.order@.to_set() =~= before.to_set().remove(top)) by {
                assert forall|x: usize| before.contains(x) implies x == top by {
                    let k = choose|k: int| 0 <= k < before.len() && before[k] == x;
                }
            }
        }
        Some(top)
    }
}

/// A slot whose key is not smaller than its parent's completes the heap
/// order.
proof fn lemma_settled_at(order: Seq<usize>, keys: Seq<Option<Seq<u8>>>, pos: int, up: int)
    requires
        0 < pos < order.len(),
        is_child(up, pos),
        ordered_except_at(order, keys, pos),
        !key_before(key_at(order, keys, pos), key_at(order, keys, up)),
    ensures
        heap_ordered(order, keys),
{
    assert forall|p: int, c: int| is_child(p, c) && c < order.len() implies key_le(
        #[trigger] key_at(order, keys, p),
        #[trigger] key_at(order, keys, c),
    ) by {
        if c == pos {
            assert(p == up);
        }
    }
}

/// Exchanging a slot with its parent, whose key is greater, moves the one
/// slot that may break the heap order up to the parent.
proof fn lemma_lifted(order: Seq<usize>, keys: Seq<Option<Seq<u8>>>, pos: int, up: int)
    requires
        0 < pos < order.len(),
        is_child(up, pos),
        ordered_except_at(order, keys, pos),
        bridged(order, keys, pos),
        key_before(key_at(order, keys, pos), key_at(order, keys, up)),
    ensures
        ordered_except_at(swapped(order, pos, up), keys, up),
        bridged(swapped(order, pos, up), keys, up),
{
    let after = swapped(order, pos, up);
    let low = key_at(order, keys, pos);
    let high = key_at(order, keys, up);
    lemma_key_le_total(low, high);
    assert(key_at(after, keys, up) == low);
    assert(key_at(after, keys, pos) == high);
    assert forall|p: int, c: int|
        is_child(p, c) && c < after.len() && c != up implies key_le(
        #[trigger] key_at(after, keys, p),
        #[trigger] key_at(after, keys, c),
    ) by {
        if c == pos {
            assert(p == up);
        } else if p == up {
            assert(key_le(high, key_at(order, keys, c)));
            lemma_key_le_transitive(low, high, key_at(order, keys, c));
        } else if p == pos {
            assert(key_le(key_at(order, keys, up), key_at(order, keys, c)));
        } else {
            assert(key_le(key_at(order, keys, p), key_at(order, keys, c)));
        }
    }
    assert forall|g: int, c: int|
        is_child(g, up) && is_child(up, c) && c < after.len() implies key_le(
        #[trigger] key_at(after, keys, g),
        #[trigger] key_at(after, keys, c),
    ) by {
        assert(key_le(key_at(order, keys, g), high));
        if c != pos {
            assert(key_le(high, key_at(order, keys, c)));
            lemma_key_le_transitive(key_at(order, keys, g), high, key_at(order, keys, c));
        }
    }
}

/// A slot whose smaller child's key is not smaller than its own completes
/// the heap order.
proof fn lemma_settled_below(
    order: Seq<usize>,
    keys: Seq<Option<Seq<u8>>>,
    pos: int,
    least: int,
)
    requires
        0 <= pos,
        least < order.len(),
        is_child(pos, least),
        ordered_except_below(order, keys, pos),
        forall|c: int|
            is_child(pos, c) && c < order.len() ==> key_le(
                key_at(order, keys, least),
                #[trigger] key_at(order, keys, c),
            ),
        !key_before(key_at(order, keys, least), key_at(order, keys, pos)),
    ensures
        heap_ordered(order, keys),
{
    assert forall|p: int, c: int| is_child(p, c) && c < order.len() implies key_le(
        #[trigger] key_at(order, keys, p),
        #[trigger] key_at(order, keys, c),
    ) by {
        if p == pos {
            assert(key_le(key_at(order, keys, least), key_at(order, keys, c)));
            lemma_key_le_transitive(
                key_at(order, keys, pos),
                key_at(order, keys, least),
                key_at(order, keys, c),
            );
        }
    }
}

/// Exchanging a slot with its smaller child, whose key is smaller, moves the
/// one slot that may break the heap order down to the child.
proof fn lemma_lowered(order: Seq<usize>, keys: Seq<Option<Seq<u8>>>, pos: int, least: int)
    requires
        0 <= pos,
        least < order.len(),
        is_child(pos, least),
        ordered_except_below(order, keys, pos),
        bridged(order, keys, pos),
        forall|c: int|
            is_child(pos, c) && c < order.len() ==> key_le(
                key_at(order, keys, least),
                #[trigger] key_at(order, keys, c),
            ),
        key_before(key_at(order, keys, least), key_at(order, keys, pos)),
    ensures
        ordered_except_below(swapped(order, pos, least), keys, least),
        bridged(swapped(order, pos, least), keys, least),
{
    let after = swapped(order, pos, least);
    let low = key_at(order, keys, least);
    let high = key_at(order, keys, pos);
    lemma_key_le_total(low, high);
    assert(key_at(after, keys, pos) == low);
    assert(key_at(after, keys, least) == high);
    assert forall|p: int, c: int|
        is_child(p, c) && c < after.len() && p != least implies key_le(
        #[trigger] key_at(after, keys, p),
        #[trigger] key_at(after, keys, c),
    ) by {
        if p == pos {
            if c != least {
                assert(key_le(low, key_at(order, keys, c)));
            }
        } else if c == pos {
            assert(key_le(key_at(order, keys, p), key_at(order, keys, least)));
        } else {
            assert(key_le(key_at(order, keys, p), key_at(order, keys, c)));
        }
    }
    assert forall|g: int, c: int|
        is_child(g, least) && is_child(least, c) && c < after.len() implies key_le(
        #[trigger] key_at(after, keys, g),
        #[trigger] key_at(after, keys, c),
    ) by {
        assert(g == pos);
        assert(key_le(key_at(order, keys, least), key_at(order, keys, c)));
    }
}

/// A slot without children cannot break the heap order below itself.
proof fn lemma_leaf_settled(order: Seq<usize>, keys: Seq<Option<Seq<u8>>>, pos: int)
    requires
        0 <= pos,
        pos >= order.len() / 2,
        ordered_except_below(order, keys, pos),
    ensures
        heap_ordered(order, keys),
{
    assert forall|p: int, c: int| is_child(p, c) && c < order.len() implies key_le(
        #[trigger] key_at(order, keys, p),
        #[trigger] key_at(order, keys, c),
    ) by {
        assert(p != pos);
    }
}

/// A number appended to a heap joins its members, and only the new last
/// slot may break the heap order.
proof fn lemma_appended(before: Seq<usize>, keys: Seq<Option<Seq<u8>>>, id: usize)
    requires
        valid_ids(before, keys),
        heap_ordered(before, keys),
        id < keys.len(),
        !before.to_set().contains(id),
    ensures
        valid_ids(before.push(id), keys),
        before.push(id).to_set() == before.to_set().insert(id),
        ordered_except_at(before.push(id), keys, before.len() as int),
        bridged(before.push(id), keys, before.len() as int),
{
    let after = before.push(id);
    assert forall|x: usize| after.contains(x) <==> (before.contains(x) || x == id) by {
        if after.contains(x) {
            let k = choose|k: int| 0 <= k < after.len() && after[k] == x;
            if k < before.len() {
                assert(before[k] == x);
            }
        }
        if before.contains(x) {
            let k = choose|k: int| 0 <= k < before.len() && before[k] == x;
            assert(after[k] == x);
        }
        if x == id {
            assert(after[before.len() as int] == x);
        }
    }
    assert(after.to_set() =~= before.to_set().insert(id));
    assert forall|i: int, j: int|
        0 <= i < after.len() && 0 <= j < after.len() && i != j implies after[i] != after[j] by {
        if i < before.len() {
            assert(before.contains(before[i]));
        }
        if j < before.len() {
            assert(before.contains(before[j]));
        }
    }
    assert forall|p: int, c: int|
        is_child(p, c) && c < after.len() && c != before.len() implies key_le(
        #[trigger] key_at(after, keys, p),
        #[trigger] key_at(after, keys, c),
    ) by {
        assert(key_le(key_at(before, keys, p), key_at(before, keys, c)));
    }
}

/// With the last number moved into the root of a heap of two or more, the
/// old root has left the members, and only the root may break the heap
/// order.
proof fn lemma_root_replaced(before: Seq<usize>, keys: Seq<Option<Seq<u8>>>)
    requires
        before.len() > 1,
        valid_ids(before, keys),
        heap_ordered(before, keys),
    ensures
        valid_ids(before.update(0, before.last()).drop_last(), keys),
        before.update(0, before.last()).drop_last().to_set() == before.to_set().remove(before[0]),
        ordered_except_below(before.update(0, before.last()).drop_last(), keys, 0),
        bridged(before.update(0, before.last()).drop_last(), keys, 0),
{
    let n = before.len() as int;
    let top = before[0];
    let after = before.update(0, before.last()).drop_last();
    assert forall|x: usize| after.contains(x) <==> (before.contains(x) && x != top) by {
        if after.contains(x) {
            let k = choose|k: int| 0 <= k < after.len() && after[k] == x;
            if k == 0 {
                assert(before[n - 1] == x);
            } else {
                assert(before[k] == x);
            }
        }
        if before.contains(x) && x != top {
            let k = choose|k: int| 0 <= k < before.len() && before[k] == x;
            if k == n - 1 {
                assert(after[0] == x);
            } else {
                assert(after[k] == x);
            }
        }
    }
    assert(after.to_set() =~= before.to_set().remove(top));
    assert forall|p: int, c: int| is_child(p, c) && c < after.len() && p != 0 implies key_le(
        #[trigger] key_at(after, keys, p),
        #[trigger] key_at(after, keys, c),
    ) by {
        assert(key_le(key_at(before, keys, p), key_at(before, keys, c)));
    }
}

} // verus!
