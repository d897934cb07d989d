//! The dead-ratio index of a segment manager: a priority structure that
//! keeps the closed segments in the order in which they are compacted.

use crate::nibble::manager::{lemma_precedes_transitive, precedes};
use crate::nibble::segment::Segment;
use vstd::prelude::*;

verus! {

/// The rank of a block whose segment is not in the index.
pub const UNRANKED: usize = usize::MAX;

/// The position above position `i`.
pub open spec fn parent(i: int) -> int {
    (i - 1) / 2
}

/// Whether the segment in block `a` is compacted before the one in block
/// `b`.
#[verifier::opaque]
pub open spec fn above(slots: Seq<Option<Segment>>, a: int, b: int) -> bool {
    precedes(slots[a]->0, slots[b]->0)
}

/// Whether block `j` holds a segment that can be ranked: one with bytes
/// written.
pub open spec fn rankable(slots: Seq<Option<Segment>>, j: int) -> bool {
    &&& 0 <= j < slots.len()
    &&& slots[j] is Some
    &&& 0 < slots[j]->0.dead_bytes + slots[j]->0.live_bytes <= usize::MAX
}

/// The identifier of the segment in block `j`.
pub open spec fn id_at(slots: Seq<Option<Segment>>, j: int) -> u64 {
    slots[j]->0.segment_id
}

/// Whether no two segments share an identifier.
pub open spec fn distinct_ids(slots: Seq<Option<Segment>>) -> bool {
    forall|a: int, b: int|
        0 <= a < slots.len() && 0 <= b < slots.len() && a != b && slots[a] is Some && slots[b] is Some
            ==> #[trigger] id_at(slots, a) != #[trigger] id_at(slots, b)
}

/// Whether `heap` lists blocks with segments that can be ranked, each
/// once, and `rank` gives for every block its position in the list.
pub open spec fn sound(slots: Seq<Option<Segment>>, heap: Seq<usize>, rank: Seq<usize>) -> bool {
    &&& rank.len() == slots.len()
    &&& forall|i: int|
        0 <= i < heap.len() ==> rankable(slots, #[trigger] heap[i] as int) && rank[heap[i] as int]
            == i
    &&& forall|j: int|
        0 <= j < rank.len() && #[trigger] rank[j] != UNRANKED ==> rank[j] < heap.len()
            && heap[rank[j] as int] == j
}

/// Whether the segment at position `i` comes after the one above it.
pub open spec fn ordered_at(slots: Seq<Option<Segment>>, heap: Seq<usize>, i: int) -> bool {
    above(slots, heap[parent(i)] as int, heap[i] as int)
}

/// Whether every segment but the first comes after the one above it.
pub open spec fn ordered(slots: Seq<Option<Segment>>, heap: Seq<usize>) -> bool {
    forall|i: int| 0 < i < heap.len() ==> #[trigger] ordered_at(slots, heap, i)
}

/// The order is transitive.
pub proof fn lemma_above_transitive(slots: Seq<Option<Segment>>, a: int, b: int, c: int)
    requires
        rankable(slots, a),
        rankable(slots, b),
        rankable(slots, c),
        above(slots, a, b),
        above(slots, b, c),
    ensures
        above(slots, a, c),
{
    reveal(above);
    lemma_precedes_transitive(slots[a]->0, slots[b]->0, slots[c]->0);
}

/// Of two segments with different identifiers one comes before the
/// other.
pub proof fn lemma_above_total(slots: Seq<Option<Segment>>, a: int, b: int)
    requires
        id_at(slots, a) != id_at(slots, b),
    ensures
        above(slots, a, b) || above(slots, b, a),
{
    reveal(above);
}

/// The order of two blocks depends on their segments only.
pub proof fn lemma_above_same(
    before: Seq<Option<Segment>>,
    after: Seq<Option<Segment>>,
    a: int,
    b: int,
)
    requires
        before[a] == after[a],
        before[b] == after[b],
    ensures
        above(before, a, b) == above(after, a, b),
{
    reveal(above);
}

/// A segment keeps its place before another when some of its live bytes
/// are counted as dead.
pub proof fn lemma_above_raised(
    before: Seq<Option<Segment>>,
    after: Seq<Option<Segment>>,
    a: int,
    c: int,
)
    requires
        before[c] == after[c],
        above(before, a, c),
        after[a]->0.segment_id == before[a]->0.segment_id,
        after[a]->0.dead_bytes >= before[a]->0.dead_bytes,
        after[a]->0.dead_bytes + after[a]->0.live_bytes == before[a]->0.dead_bytes
            + before[a]->0.live_bytes,
    ensures
        above(after, a, c),
{
    reveal(above);
    let more = after[a]->0.dead_bytes - before[a]->0.dead_bytes;
    let dead = before[a]->0.dead_bytes as int;
    let other = before[c]->0.dead_bytes + before[c]->0.live_bytes;
    assert((dead + more) * other == dead * other + more * other) by (nonlinear_arith);
    assert(more * other >= 0) by (nonlinear_arith)
        requires
            more >= 0,
            other >= 0,
    ;
}

/// The index survives a change of segments that it does not hold.
pub proof fn lemma_index_same(
    before: Seq<Option<Segment>>,
    after: Seq<Option<Segment>>,
    heap: Seq<usize>,
    rank: Seq<usize>,
)
    requires
        sound(before, heap, rank),
        ordered(before, heap),
        after.len() == before.len(),
        forall|i: int| 0 <= i < heap.len() ==> after[#[trigger] heap[i] as int] == before[heap[i] as int],
    ensures
        sound(after, heap, rank),
        ordered(after, heap),
{
    assert forall|i: int| 0 <= i < heap.len() implies rankable(after, #[trigger] heap[i] as int)
        && rank[heap[i] as int] == i by {
        assert(rankable(before, heap[i] as int));
    }
    assert forall|i: int| 0 < i < heap.len() implies #[trigger] ordered_at(after, heap, i) by {
        assert(ordered_at(before, heap, i));
        lemma_above_same(before, after, heap[parent(i)] as int, heap[i] as int);
    }
}

/// The first segment of an ordered index comes before every other.
pub proof fn lemma_first_above(
    slots: Seq<Option<Segment>>,
    heap: Seq<usize>,
    rank: Seq<usize>,
    i: int,
)
    requires
        sound(slots, heap, rank),
        ordered(slots, heap),
        0 < i < heap.len(),
    ensures
        above(slots, heap[0] as int, heap[i] as int),
    decreases i,
{
    assert(ordered_at(slots, heap, i));
    if parent(i) > 0 {
        lemma_first_above(slots, heap, rank, parent(i));
        lemma_above_transitive(slots, heap[0] as int, heap[parent(i)] as int, heap[i] as int);
    }
}

/// Whether the segment in block `a` is compacted before the one in block
/// `b`.
pub(crate) fn higher(slots: &Vec<Option<Segment>>, a: usize, b: usize) -> (yes: bool)
    requires
        rankable(slots@, a as int),
        rankable(slots@, b as int),
    ensures
        yes == above(slots@, a as int, b as int),
{
    proof {
        reveal(above);
    }
    match (&slots[a], &slots[b]) {
        (Some(x), Some(y)) => crate::nibble::manager::comes_before(x, y),
        _ => false,
    }
}

/// Exchanges the blocks at positions `p` and `q`.
fn exchange(heap: &mut Vec<usize>, rank: &mut Vec<usize>, p: usize, q: usize)
    requires
        p < old(heap)@.len(),
        q < old(heap)@.len(),
        p != q,
        old(heap)@[p as int] < old(rank)@.len(),
        old(heap)@[q as int] < old(rank)@.len(),
        old(heap)@[p as int] != old(heap)@[q as int],
    ensures
        final(heap)@ == old(heap)@.update(p as int, old(heap)@[q as int]).update(
            q as int,
            old(heap)@[p as int],
        ),
        final(rank)@ == old(rank)@.update(old(heap)@[q as int] as int, p).update(
            old(heap)@[p as int] as int,
            q,
        ),
{
    let x = heap[p];
    let y = heap[q];
    heap[p] = y;
    heap[q] = x;
    rank[y] = p;
    rank[x] = q;
}

/// What holds of an index in which the segment at position `p` may come
/// before the one above it: every other segment comes after the one above
/// it, and those below `p` come after the one above `p`.
pub open spec fn rising(slots: Seq<Option<Segment>>, heap: Seq<usize>, p: int) -> bool {
    &&& forall|i: int| 0 < i < heap.len() && i != p ==> #[trigger] ordered_at(slots, heap, i)
    &&& forall|i: int|
        0 < i < heap.len() && parent(i) == p && p > 0 ==> above(
            slots,
            heap[parent(p)] as int,
            #[trigger] heap[i] as int,
        )
}

/// Moves the segment at position `p` up until it comes after the one
/// above it.
pub(crate) fn sift_up(
    slots: &Vec<Option<Segment>>,
    heap: &mut Vec<usize>,
    rank: &mut Vec<usize>,
    p: usize,
)
    requires
        sound(slots@, old(heap)@, old(rank)@),
        distinct_ids(slots@),
        p < old(heap)@.len(),
        rising(slots@, old(heap)@, p as int),
    ensures
        sound(slots@, final(heap)@, final(rank)@),
        ordered(slots@, final(heap)@),
        final(heap)@.len() == old(heap)@.len(),
        forall|j: int|
            0 <= j < old(rank)@.len() ==> (#[trigger] final(rank)@[j] != UNRANKED) == (old(
                rank,
            )@[j] != UNRANKED),
{
    let mut p = p;
    while p > 0
        invariant
            sound(slots@, heap@, rank@),
            distinct_ids(slots@),
            p < heap@.len(),
            rising(slots@, heap@, p as int),
            heap@.len() == old(heap)@.len(),
            old(rank)@.len() == slots@.len(),
            forall|j: int|
                0 <= j < old(rank)@.len() ==> (#[trigger] rank@[j] != UNRANKED) == (old(rank)@[j]
                    != UNRANKED),
        ensures
            sound(slots@, heap@, rank@),
            ordered(slots@, heap@),
            heap@.len() == old(heap)@.len(),
            forall|j: int|
                0 <= j < old(rank)@.len() ==> (#[trigger] rank@[j] != UNRANKED) == (old(rank)@[j]
                    != UNRANKED),
        decreases p,
    {
        let q = (p - 1) / 2;
        let x = heap[p];
        let y = heap[q];
        proof {
            assert(rankable(slots@, heap@[p as int] as int));
            assert(rankable(slots@, heap@[q as int] as int));
            assert(rank@[x as int] == p && rank@[y as int] == q);
        }
        if !higher(slots, x, y) {
            proof {
                lemma_above_total(slots@, x as int, y as int);
                assert(ordered_at(slots@, heap@, p as int));
                assert forall|i: int| 0 < i < heap@.len() implies #[trigger] ordered_at(
                    slots@,
                    heap@,
                    i,
                ) by {}
            }
            break ;
        }
        let ghost before = heap@;
        let ghost ranks = rank@;
        exchange(heap, rank, p, q);
        proof {
            assert forall|i: int| 0 <= i < heap@.len() implies rankable(
                slots@,
                #[trigger] heap@[i] as int,
            ) && rank@[heap@[i] as int] == i by {
                assert(rankable(slots@, before[i] as int));
                if i != p && i != q {
                    assert(ranks[before[i] as int] == i);
                }
            }
            assert forall|j: int| 0 <= j < rank@.len() && #[trigger] rank@[j] != UNRANKED implies rank@[j]
                < heap@.len() && heap@[rank@[j] as int] == j by {
                if j != x && j != y {
                    assert(ranks[j] != UNRANKED);
                }
            }
            assert forall|i: int| 0 < i < heap@.len() && i != q implies #[trigger] ordered_at(
                slots@,
                heap@,
                i,
            ) by {
                if i == p {
                } else if parent(i) == p {
                    assert(above(slots@, before[parent(p as int)] as int, before[i] as int));
                } else if parent(i) == q {
                    assert(ordered_at(slots@, before, i));
                    assert(rankable(slots@, before[i] as int));
                    lemma_above_transitive(slots@, x as int, y as int, before[i] as int);
                } else {
                    assert(ordered_at(slots@, before, i));
                }
            }
            assert forall|i: int| 0 < i < heap@.len() && parent(i) == q && q > 0 implies above(
                slots@,
                heap@[parent(q as int)] as int,
                #[trigger] heap@[i] as int,
            ) by {
                assert(ordered_at(slots@, before, q as int));
                assert(rankable(slots@, before[parent(q as int)] as int));
                if i == p {
                } else {
                    assert(ordered_at(slots@, before, i));
                    assert(rankable(slots@, before[i] as int));
                    lemma_above_transitive(
                        slots@,
                        before[parent(q as int)] as int,
                        y as int,
                        before[i] as int,
                    );
                }
            }
            assert(rank@.len() == ranks.len() == old(rank)@.len());
            assert(heap.len() <= usize::MAX);
            assert forall|j: int| 0 <= j < old(rank)@.len() implies (#[trigger] rank@[j]
                != UNRANKED) == (old(rank)@[j] != UNRANKED) by {
                assert((ranks[j] != UNRANKED) == (old(rank)@[j] != UNRANKED));
                if j == x {
                    assert(ranks[j] == p);
                } else if j == y {
                    assert(ranks[j] == q);
                }
            }
        }
        p = q;
    }
    proof {
        if p == 0 {
            assert forall|i: int| 0 < i < heap@.len() implies #[trigger] ordered_at(
                slots@,
                heap@,
                i,
            ) by {}
        }
    }
}

/// What holds of an index in which the segments below position `p` may
/// come before the one at `p`: every other segment comes after the one
/// above it, and those below `p` come after the one above `p`.
pub open spec fn sinking(slots: Seq<Option<Segment>>, heap: Seq<usize>, p: int) -> bool {
    &&& forall|i: int|
        0 < i < heap.len() && parent(i) != p ==> #[trigger] ordered_at(slots, heap, i)
    &&& forall|i: int|
        0 < i < heap.len() && parent(i) == p && p > 0 ==> above(
            slots,
            heap[parent(p)] as int,
            #[trigger] heap[i] as int,
        )
}

/// Moves the segment at position `p` down until those below it come
/// after it.
pub(crate) fn sift_down(
    slots: &Vec<Option<Segment>>,
    heap: &mut Vec<usize>,
    rank: &mut Vec<usize>,
    p: usize,
)
    requires
        sound(slots@, old(heap)@, old(rank)@),
        distinct_ids(slots@),
        p < old(heap)@.len(),
        sinking(slots@, old(heap)@, p as int),
    ensures
        sound(slots@, final(heap)@, final(rank)@),
        ordered(slots@, final(heap)@),
        final(heap)@.len() == old(heap)@.len(),
        forall|j: int|
            0 <= j < old(rank)@.len() ==> (#[trigger] final(rank)@[j] != UNRANKED) == (old(
                rank,
            )@[j] != UNRANKED),
{
    let mut p = p;
    let n = heap.len();
    loop
        invariant_except_break
            sound(slots@, heap@, rank@),
            distinct_ids(slots@),
            p < heap@.len(),
            sinking(slots@, heap@, p as int),
        invariant
            n == heap@.len(),
            heap@.len() == old(heap)@.len(),
            old(rank)@.len() == slots@.len(),
            forall|j: int|
                0 <= j < old(rank)@.len() ==> (#[trigger] rank@[j] != UNRANKED) == (old(rank)@[j]
                    != UNRANKED),
        ensures
            sound(slots@, heap@, rank@),
            ordered(slots@, heap@),
        decreases n - p,
    {
        if n < 2 || p > (n - 2) / 2 {
            proof {
                assert forall|i: int| 0 < i < heap@.len() implies #[trigger] ordered_at(
                    slots@,
                    heap@,
                    i,
                ) by {
                    assert(parent(i) != p);
                }
            }
            break ;
        }
        let left = 2 * p + 1;
        let mut best = left;
        let x = heap[p];
        proof {
            assert(rankable(slots@, heap@[p as int] as int));
            assert(rankable(slots@, heap@[left as int] as int));
            assert(rank@[heap@[p as int] as int] == p);
            assert(rank@[heap@[left as int] as int] == left);
        }
        if left < n - 1 {
            proof {
                assert(rankable(slots@, heap@[left + 1] as int));
                assert(rank@[heap@[left + 1] as int] == left + 1);
            }
            if higher(slots, heap[left + 1], heap[left]) {
                best = left + 1;
            } else {
                proof {
                    lemma_above_total(slots@, heap@[left as int] as int, heap@[left + 1] as int);
                }
            }
        }
        let c = heap[best];
        proof {
            assert(rankable(slots@, heap@[best as int] as int));
            assert(rank@[c as int] == best);
        }
        if !higher(slots, c, x) {
            proof {
                lemma_above_total(slots@, x as int, c as int);
                assert forall|i: int| 0 < i < heap@.len() implies #[trigger] ordered_at(
                    slots@,
                    heap@,
                    i,
                ) by {
                    if parent(i) == p {
                        if i != best {
                            assert(rankable(slots@, heap@[i] as int));
                            lemma_above_transitive(slots@, x as int, c as int, heap@[i] as int);
                        }
                    }
                }
            }
            break ;
        }
        let ghost before = heap@;
        let ghost ranks = rank@;
        exchange(heap, rank, p, best);
        proof {
            assert(heap.len() <= usize::MAX);
            assert forall|i: int| 0 <= i < heap@.len() implies rankable(
                slots@,
                #[trigger] heap@[i] as int,
            ) && rank@[heap@[i] as int] == i by {
                assert(rankable(slots@, before[i] as int));
                if i != p && i != best {
                    assert(ranks[before[i] as int] == i);
                }
            }
            assert forall|j: int| 0 <= j < rank@.len() && #[trigger] rank@[j] != UNRANKED implies rank@[j]
                < heap@.len() && heap@[rank@[j] as int] == j by {
                if j != x && j != c {
                    assert(ranks[j] != UNRANKED);
                }
            }
            assert forall|i: int|
                0 < i < heap@.len() && parent(i) != best implies #[trigger] ordered_at(
                slots@,
                heap@,
                i,
            ) by {
                if i == p {
                    assert(above(slots@, before[parent(p as int)] as int, before[best as int] as int));
                } else if i == best {
                } else if parent(i) == p {
                    assert(rankable(slots@, before[i] as int));
                } else {
                    assert(ordered_at(slots@, before, i));
                }
            }
            assert forall|i: int|
                0 < i < heap@.len() && parent(i) == best && best > 0 implies above(
                slots@,
                heap@[parent(best as int)] as int,
                #[trigger] heap@[i] as int,
            ) by {
                assert(ordered_at(slots@, before, i));
            }
            assert forall|j: int| 0 <= j < old(rank)@.len() implies (#[trigger] rank@[j]
                != UNRANKED) == (old(rank)@[j] != UNRANKED) by {
                assert((ranks[j] != UNRANKED) == (old(rank)@[j] != UNRANKED));
                if j == x {
                    assert(ranks[j] == p);
                } else if j == c {
                    assert(ranks[j] == best);
                }
            }
        }
        p = best;
    }
}

/// Adds block `slot` to the index.
pub(crate) fn enter(
    slots: &Vec<Option<Segment>>,
    heap: &mut Vec<usize>,
    rank: &mut Vec<usize>,
    slot: usize,
)
    requires
        sound(slots@, old(heap)@, old(rank)@),
        distinct_ids(slots@),
        ordered(slots@, old(heap)@),
        rankable(slots@, slot as int),
        old(rank)@[slot as int] == UNRANKED,
    ensures
        sound(slots@, final(heap)@, final(rank)@),
        ordered(slots@, final(heap)@),
        final(heap)@.len() == old(heap)@.len() + 1,
        forall|j: int|
            0 <= j < old(rank)@.len() ==> (#[trigger] final(rank)@[j] != UNRANKED) == (j == slot
                || old(rank)@[j] != UNRANKED),
{
    let last = heap.len();
    heap.push(slot);
    rank[slot] = last;
    let ghost middle = rank@;
    proof {
        assert(heap.len() <= usize::MAX);
        assert forall|i: int| 0 <= i < heap@.len() implies rankable(
            slots@,
            #[trigger] heap@[i] as int,
        ) && rank@[heap@[i] as int] == i by {
            if i < last {
                assert(heap@[i] == old(heap)@[i]);
                assert(rankable(slots@, old(heap)@[i] as int));
                assert(old(rank)@[old(heap)@[i] as int] == i);
            }
        }
        assert forall|j: int| 0 <= j < rank@.len() && #[trigger] rank@[j] != UNRANKED implies rank@[j]
            < heap@.len() && heap@[rank@[j] as int] == j by {
            if j != slot {
                assert(old(rank)@[j] != UNRANKED);
            }
        }
        assert forall|i: int| 0 < i < heap@.len() && i != last implies #[trigger] ordered_at(
            slots@,
            heap@,
            i,
        ) by {
            assert(ordered_at(slots@, old(heap)@, i));
        }
    }
    sift_up(slots, heap, rank, last);
    proof {
        assert forall|j: int| 0 <= j < old(rank)@.len() implies (#[trigger] rank@[j] != UNRANKED)
            == (j == slot || old(rank)@[j] != UNRANKED) by {
            assert((rank@[j] != UNRANKED) == (middle[j] != UNRANKED));
        }
    }
}

/// Takes the first block out of the index and returns it.
pub(crate) fn leave_first(
    slots: &Vec<Option<Segment>>,
    heap: &mut Vec<usize>,
    rank: &mut Vec<usize>,
) -> (first: usize)
    requires
        sound(slots@, old(heap)@, old(rank)@),
        distinct_ids(slots@),
        ordered(slots@, old(heap)@),
        old(heap)@.len() > 0,
    ensures
        first == old(heap)@[0],
        sound(slots@, final(heap)@, final(rank)@),
        ordered(slots@, final(heap)@),
        final(heap)@.len() == old(heap)@.len() - 1,
        forall|j: int|
            0 <= j < old(rank)@.len() ==> (#[trigger] final(rank)@[j] != UNRANKED) == (j != first
                && old(rank)@[j] != UNRANKED),
{
    let first = heap[0];
    proof {
        assert(rankable(slots@, old(heap)@[0] as int));
        assert(old(rank)@[old(heap)@[0] as int] == 0);
        assert(rankable(slots@, old(heap)@[old(heap)@.len() - 1] as int));
        assert(old(rank)@[old(heap)@[old(heap)@.len() - 1] as int] == old(heap)@.len() - 1);
    }
    let last = heap.pop().unwrap();
    rank[first] = UNRANKED;
    if heap.len() == 0 {
        proof {
            assert forall|j: int| 0 <= j < rank@.len() && #[trigger] rank@[j] != UNRANKED implies rank@[j]
                < heap@.len() && heap@[rank@[j] as int] == j by {
                assert(old(rank)@[j] != UNRANKED);
            }
            assert forall|j: int| 0 <= j < old(rank)@.len() implies (#[trigger] rank@[j]
                != UNRANKED) == (j != first && old(rank)@[j] != UNRANKED) by {}
        }
        return first;
    }
    heap[0] = last;
    rank[last] = 0;
    let ghost middle = rank@;
    proof {
        let n = old(heap)@.len() as int;
        assert forall|i: int| 0 <= i < heap@.len() implies rankable(
            slots@,
            #[trigger] heap@[i] as int,
        ) && rank@[heap@[i] as int] == i by {
            if i > 0 {
                assert(heap@[i] == old(heap)@[i]);
                assert(rankable(slots@, old(heap)@[i] as int));
                assert(old(rank)@[old(heap)@[i] as int] == i);
            }
        }
        assert forall|j: int| 0 <= j < rank@.len() && #[trigger] rank@[j] != UNRANKED implies rank@[j]
            < heap@.len() && heap@[rank@[j] as int] == j by {
            if j != last {
                assert(old(rank)@[j] != UNRANKED);
            }
        }
        assert forall|i: int| 0 < i < heap@.len() && parent(i) != 0 implies #[trigger] ordered_at(
            slots@,
            heap@,
            i,
        ) by {
            assert(ordered_at(slots@, old(heap)@, i));
        }
    }
    sift_down(slots, heap, rank, 0);
    proof {
        assert(old(heap).len() <= usize::MAX);
        assert(old(rank)@[last as int] == old(heap)@.len() - 1);
        assert(old(rank)@[first as int] == 0);
        assert forall|j: int| 0 <= j < old(rank)@.len() implies (#[trigger] rank@[j] != UNRANKED)
            == (j != first && old(rank)@[j] != UNRANKED) by {
            assert((rank@[j] != UNRANKED) == (middle[j] != UNRANKED));
        }
    }
    first
}

} // verus!
