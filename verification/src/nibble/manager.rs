//! The segment manager of one socket: it hands out the blocks of the
//! socket's memory region as segments, takes them back once they are
//! retired, and picks the segments that are worth compacting.

use crate::nibble::record::{encode, record_size, VALUE_LIMIT};
use crate::nibble::ranking::{
    above, distinct_ids, enter, id_at, leave_first, lemma_above_raised, lemma_above_same,
    lemma_above_transitive, lemma_first_above, lemma_index_same, ordered, ordered_at, parent,
    rankable, sift_up, sound, UNRANKED,
};
use crate::nibble::region::Region;
use crate::nibble::segment::{Record, Segment, SegmentState};
use vstd::prelude::*;

verus! {

/// A compaction threshold: the fraction `num / den` of a segment's bytes.
#[derive(Clone, Copy, Debug)]
pub struct Ratio {
    pub num: u32,
    pub den: u32,
}

/// Whether `dead` of the `dead + live` bytes are more than the fraction
/// `threshold`.
pub open spec fn exceeds(dead: int, live: int, threshold: Ratio) -> bool {
    dead * threshold.den > threshold.num * (dead + live)
}

/// Whether a segment may be compacted: it is closed and its dead ratio is
/// above the threshold.
pub open spec fn is_candidate(segment: Segment, threshold: Ratio) -> bool {
    segment.state == SegmentState::Closed && exceeds(
        segment.dead_bytes as int,
        segment.live_bytes as int,
        threshold,
    )
}

/// Whether `a` is to be compacted before `b`: its dead ratio is higher, or
/// the two ratios are equal and `a` is the older segment.
pub open spec fn precedes(a: Segment, b: Segment) -> bool {
    let left = a.dead_bytes * (b.dead_bytes + b.live_bytes);
    let right = b.dead_bytes * (a.dead_bytes + a.live_bytes);
    left > right || (left == right && a.segment_id < b.segment_id)
}

/// Whether block `j` is in the pool of free blocks.
pub open spec fn pooled(free: Seq<usize>, j: int) -> bool {
    exists|i: int| 0 <= i < free.len() && #[trigger] free[i] == j
}

/// What a block holds after memory whose grace period is over was taken
/// back at epoch `now`.
pub open spec fn after_reclaim(block: Option<Segment>, now: u64) -> Option<Segment> {
    match block {
        Some(segment) => if segment.state == SegmentState::Retired && segment.retire_epoch
            <= now {
            None
        } else {
            block
        },
        None => None,
    }
}

/// The segments of one socket and the pool of its free blocks.
pub struct SegmentManager {
    /// The memory of the socket: one block per segment.
    pub region: Region,
    /// One entry per block of the region: the segment that lives in it.
    pub slots: Vec<Option<Segment>>,
    /// The blocks that hold no segment.
    pub free: Vec<usize>,
    /// The identifier of the next segment; identifiers grow with age.
    pub next_id: u64,
    /// The dead-ratio index: the blocks of the closed segments, as a heap
    /// in which every segment comes after the one above it in the order
    /// of compaction.
    pub order: Vec<usize>,
    /// For every block, the position of its segment in the dead-ratio
    /// index, or `UNRANKED`.
    pub rank: Vec<usize>,
}

/// A segment whose dead ratio is above a threshold has dead bytes.
pub proof fn lemma_exceeds_positive(dead: int, live: int, threshold: Ratio)
    requires
        0 <= dead,
        0 <= live,
        exceeds(dead, live, threshold),
    ensures
        dead > 0,
{
    assert(dead > 0) by (nonlinear_arith)
        requires
            0 <= dead,
            0 <= live,
            0 <= threshold.num,
            0 <= threshold.den,
            dead * threshold.den > threshold.num * (dead + live),
    ;
}

/// A segment that comes before one whose dead ratio is above a threshold
/// has a dead ratio above the threshold too.
pub proof fn lemma_precedes_exceeds(a: Segment, b: Segment, threshold: Ratio)
    requires
        precedes(a, b),
        a.dead_bytes + a.live_bytes > 0,
        b.dead_bytes + b.live_bytes > 0,
        exceeds(b.dead_bytes as int, b.live_bytes as int, threshold),
    ensures
        exceeds(a.dead_bytes as int, a.live_bytes as int, threshold),
{
    let d1 = a.dead_bytes as int;
    let t1 = a.dead_bytes + a.live_bytes;
    let d2 = b.dead_bytes as int;
    let t2 = b.dead_bytes + b.live_bytes;
    let num = threshold.num as int;
    let den = threshold.den as int;
    assert(d1 * t2 >= d2 * t1);
    assert((d1 * t2) * den >= (d2 * t1) * den) by (nonlinear_arith)
        requires
            d1 * t2 >= d2 * t1,
            den >= 0,
    ;
    assert((d2 * den) * t1 > (num * t2) * t1) by (nonlinear_arith)
        requires
            d2 * den > num * t2,
            t1 > 0,
    ;
    assert((d1 * t2) * den == (d1 * den) * t2) by (nonlinear_arith);
    assert((d2 * t1) * den == (d2 * den) * t1) by (nonlinear_arith);
    assert((num * t2) * t1 == (num * t1) * t2) by (nonlinear_arith);
    let x = d1 * den;
    let y = num * t1;
    assert(x * t2 > y * t2);
    assert(x > y) by (nonlinear_arith)
        requires
            x * t2 > y * t2,
            t2 > 0,
    ;
}

/// The order in which segments are compacted is transitive.
pub proof fn lemma_precedes_transitive(a: Segment, b: Segment, c: Segment)
    requires
        precedes(a, b),
        precedes(b, c),
        a.dead_bytes + a.live_bytes > 0,
        b.dead_bytes + b.live_bytes > 0,
        c.dead_bytes + c.live_bytes > 0,
    ensures
        precedes(a, c),
{
    let d1 = a.dead_bytes as int;
    let t1 = a.dead_bytes + a.live_bytes;
    let d2 = b.dead_bytes as int;
    let t2 = b.dead_bytes + b.live_bytes;
    let d3 = c.dead_bytes as int;
    let t3 = c.dead_bytes + c.live_bytes;
    assert(d1 * t2 >= d2 * t1);
    assert(d2 * t3 >= d3 * t2);
    assert((d1 * t2) * t3 >= (d2 * t1) * t3) by (nonlinear_arith)
        requires
            d1 * t2 >= d2 * t1,
            t3 > 0,
    ;
    assert((d2 * t3) * t1 >= (d3 * t2) * t1) by (nonlinear_arith)
        requires
            d2 * t3 >= d3 * t2,
            t1 > 0,
    ;
    assert((d1 * t2) * t3 == (d1 * t3) * t2) by (nonlinear_arith);
    assert((d2 * t1) * t3 == (d2 * t3) * t1) by (nonlinear_arith);
    assert((d3 * t2) * t1 == (d3 * t1) * t2) by (nonlinear_arith);
    if d1 * t2 > d2 * t1 {
        assert((d1 * t2) * t3 > (d2 * t1) * t3) by (nonlinear_arith)
            requires
                d1 * t2 > d2 * t1,
                t3 > 0,
        ;
    }
    if d2 * t3 > d3 * t2 {
        assert((d2 * t3) * t1 > (d3 * t2) * t1) by (nonlinear_arith)
            requires
                d2 * t3 > d3 * t2,
                t1 > 0,
        ;
    }
    let x = d1 * t3;
    let y = d3 * t1;
    assert(x * t2 >= y * t2);
    assert(x >= y) by (nonlinear_arith)
        requires
            x * t2 >= y * t2,
            t2 > 0,
    ;
    if d1 * t2 > d2 * t1 || d2 * t3 > d3 * t2 {
        assert(x * t2 > y * t2);
        assert(x > y) by (nonlinear_arith)
            requires
                x * t2 > y * t2,
                t2 > 0,
        ;
    }
}

/// Whether a segment may be compacted.
fn is_above(segment: &Segment, threshold: Ratio) -> (yes: bool)
    requires
        segment.wf(),
    ensures
        yes == is_candidate(*segment, threshold),
{
    if segment.state != SegmentState::Closed {
        return false;
    }
    let dead = segment.dead_bytes as u128;
    let total = segment.dead_bytes as u128 + segment.live_bytes as u128;
    assert(dead * threshold.den <= 0xffff_ffff_ffff_ffff * 0xffff_ffff) by (nonlinear_arith)
        requires
            0 <= dead <= 0xffff_ffff_ffff_ffff,
            0 <= threshold.den <= 0xffff_ffff,
    ;
    assert(threshold.num * total <= 0xffff_ffff * 0x1_ffff_ffff_ffff_fffe) by (nonlinear_arith)
        requires
            0 <= total <= 0x1_ffff_ffff_ffff_fffe,
            0 <= threshold.num <= 0xffff_ffff,
    ;
    dead * (threshold.den as u128) > (threshold.num as u128) * total
}

/// Whether `a` is to be compacted before `b`.
pub(crate) fn comes_before(a: &Segment, b: &Segment) -> (yes: bool)
    requires
        a.dead_bytes + a.live_bytes <= usize::MAX,
        b.dead_bytes + b.live_bytes <= usize::MAX,
    ensures
        yes == precedes(*a, *b),
{
    let a_dead = a.dead_bytes as u128;
    let a_total = a.dead_bytes as u128 + a.live_bytes as u128;
    let b_dead = b.dead_bytes as u128;
    let b_total = b.dead_bytes as u128 + b.live_bytes as u128;
    assert(a_dead * b_total <= 0xffff_ffff_ffff_ffff * 0xffff_ffff_ffff_ffff) by (nonlinear_arith)
        requires
            0 <= a_dead <= 0xffff_ffff_ffff_ffff,
            0 <= b_total <= 0xffff_ffff_ffff_ffff,
    ;
    assert(b_dead * a_total <= 0xffff_ffff_ffff_ffff * 0xffff_ffff_ffff_ffff) by (nonlinear_arith)
        requires
            0 <= b_dead <= 0xffff_ffff_ffff_ffff,
            0 <= a_total <= 0xffff_ffff_ffff_ffff,
    ;
    let left = a_dead * b_total;
    let right = b_dead * a_total;
    left > right || (left == right && a.segment_id < b.segment_id)
}

impl SegmentManager {
    /// Number of blocks in the region.
    pub open spec fn blocks(&self) -> nat {
        self.slots@.len()
    }

    /// Virtual address of the first byte of block `j`.
    pub open spec fn slot_base(&self, j: int) -> int {
        self.region.block_base(j)
    }

    /// The segment in block `j`.
    pub open spec fn segment(&self, j: int) -> Segment {
        self.slots@[j]->0
    }

    /// Whether block `j` holds a segment.
    pub open spec fn occupied(&self, j: int) -> bool {
        0 <= j < self.slots@.len() && self.slots@[j] is Some
    }

    /// The representation invariant: the region lies within the address
    /// range of an index entry; every segment is well formed and sits at
    /// the address of its block; no two segments share an identifier; and
    /// the pool holds exactly the blocks without a segment, each once.
    pub open spec fn wf(&self) -> bool {
        &&& self.region.wf()
        &&& self.region.blocks == self.slots@.len()
        &&& forall|j: int| #[trigger]
            self.occupied(j) ==> {
                &&& self.segment(j).wf()
                &&& self.segment(j).socket == self.region.socket
                &&& self.segment(j).base_addr == self.slot_base(j)
                &&& self.segment(j).size == self.region.block_size
                &&& self.segment(j).segment_id < self.next_id
            }
        &&& forall|i: int, j: int|
            #![trigger self.occupied(i), self.occupied(j)]
            self.occupied(i) && self.occupied(j) && i != j ==> self.segment(i).segment_id
                != self.segment(j).segment_id
        &&& forall|i: int|
            0 <= i < self.free@.len() ==> (#[trigger] self.free@[i]) < self.slots@.len()
                && !self.occupied(self.free@[i] as int)
        &&& forall|i: int, j: int|
            0 <= i < j < self.free@.len() ==> (#[trigger] self.free@[i]) != (
            #[trigger] self.free@[j])
        &&& forall|j: int|
            0 <= j < self.slots@.len() && !(#[trigger] self.occupied(j)) ==> pooled(self.free@, j)
        &&& self.indexed()
    }

    /// Whether the dead-ratio index holds the closed segments, all of
    /// them and no others, in the order of a heap.
    #[verifier::opaque]
    pub open spec fn indexed(&self) -> bool {
        &&& sound(self.slots@, self.order@, self.rank@)
        &&& ordered(self.slots@, self.order@)
        &&& forall|j: int| #[trigger]
            self.occupied(j) ==> (self.segment(j).state == SegmentState::Closed) == (self.rank@[j]
                != UNRANKED)
    }

    /// The segments of a well-formed manager have different identifiers.
    pub proof fn lemma_distinct_ids(self)
        requires
            self.wf(),
        ensures
            distinct_ids(self.slots@),
    {
        assert forall|a: int, b: int|
            0 <= a < self.slots@.len() && 0 <= b < self.slots@.len() && a != b
                && self.slots@[a] is Some && self.slots@[b] is Some implies #[trigger] id_at(
            self.slots@,
            a,
        ) != #[trigger] id_at(self.slots@, b) by {
            assert(self.occupied(a));
            assert(self.occupied(b));
        }
    }

    /// The dead-ratio index survives a change of the segments that
    /// leaves the closed segments as they are and closes no other.
    pub proof fn lemma_index_kept(self, before: SegmentManager)
        requires
            before.indexed(),
            self.order == before.order,
            self.rank == before.rank,
            self.slots@.len() == before.slots@.len(),
            forall|j: int|
                0 <= j < self.slots@.len() && ((before.slots@[j] matches Some(b) && b.state
                    == SegmentState::Closed) || (self.slots@[j] matches Some(a) && a.state
                    == SegmentState::Closed)) ==> #[trigger] self.slots@[j] == before.slots@[j],
        ensures
            self.indexed(),
    {
        reveal(SegmentManager::indexed);
        assert(before.order.len() <= usize::MAX);
        assert forall|i: int| 0 <= i < self.order@.len() implies self.slots@[
            #[trigger] self.order@[i] as int] == before.slots@[self.order@[i] as int] by {
            let j = self.order@[i] as int;
            assert(rankable(before.slots@, j));
            assert(before.occupied(j));
            assert(before.rank@[j] == i);
            assert(self.slots@[j] == before.slots@[j]);
        }
        lemma_index_same(before.slots@, self.slots@, self.order@, self.rank@);
        assert forall|j: int| #[trigger] self.occupied(j) implies (self.segment(j).state
            == SegmentState::Closed) == (self.rank@[j] != UNRANKED) by {
            if self.rank@[j] != UNRANKED {
                assert(rankable(before.slots@, before.order@[before.rank@[j] as int] as int));
                assert(before.occupied(j));
                assert(self.slots@[j] == before.slots@[j]);
            }
            if self.segment(j).state == SegmentState::Closed {
                assert(self.slots@[j] == before.slots@[j]);
                assert(before.occupied(j));
            }
        }
    }

    /// Whether a segment can be handed out: a block is free and the
    /// identifiers are not used up.
    pub open spec fn can_alloc(&self) -> bool {
        self.free@.len() > 0 && self.next_id < u64::MAX
    }

    /// A manager for `region`, with every block free.
    pub fn new(region: Region) -> (manager: SegmentManager)
        requires
            region.wf(),
        ensures
            manager.wf(),
            manager.region == region,
            manager.blocks() == region.blocks,
            manager.free@.len() == region.blocks,
            manager.next_id == 0,
            forall|j: int| 0 <= j < region.blocks ==> manager.slots@[j] is None,
    {
        let blocks = region.blocks;
        let mut slots: Vec<Option<Segment>> = Vec::new();
        let mut free: Vec<usize> = Vec::new();
        let mut rank: Vec<usize> = Vec::new();
        let mut j: usize = 0;
        while j < blocks
            invariant
                j <= blocks,
                slots@.len() == j,
                free@.len() == j,
                rank@.len() == j,
                forall|i: int| 0 <= i < j ==> slots@[i] is None,
                forall|i: int| 0 <= i < j ==> #[trigger] free@[i] == blocks - 1 - i,
                forall|i: int| 0 <= i < j ==> #[trigger] rank@[i] == UNRANKED,
            decreases blocks - j,
        {
            slots.push(None);
            free.push(blocks - 1 - j);
            rank.push(UNRANKED);
            j = j + 1;
        }
        let manager = SegmentManager { region, slots, free, next_id: 0, order: Vec::new(), rank };
        proof {
            reveal(SegmentManager::indexed);
            assert forall|j: int|
                0 <= j < manager.slots@.len() && !(#[trigger] manager.occupied(j)) implies pooled(
                manager.free@,
                j,
            ) by {
                assert(manager.free@[blocks - 1 - j] == j);
            }
        }
        manager
    }

    /// The block that holds the virtual address `address` and the offset
    /// of the address within the block, if the address lies in the region.
    pub fn locate(&self, address: u64) -> (found: Option<(usize, usize)>)
        requires
            self.wf(),
        ensures
            match found {
                Some((j, offset)) => j < self.blocks() && offset < self.region.block_size
                    && address == self.slot_base(j as int) + offset,
                None => address < self.region.base || address >= self.region.base
                    + self.region.len(),
            },
    {
        self.region.locate(address)
    }

    /// Removes one segment worth of blocks from the free pool and opens a
    /// segment in it. Returns the block, or `None` when nothing can be
    /// handed out.
    pub fn alloc_segment(&mut self) -> (slot: Option<usize>)
        requires
            old(self).wf(),
        ensures
            final(self).wf(),
            final(self).region == old(self).region,
            slot is Some <==> old(self).can_alloc(),
            match slot {
                Some(j) => {
                    &&& j < old(self).blocks()
                    &&& j == old(self).free@.last()
                    &&& !old(self).occupied(j as int)
                    &&& final(self).slots@ == old(self).slots@.update(
                        j as int,
                        Some(final(self).segment(j as int)),
                    )
                    &&& final(self).occupied(j as int)
                    &&& final(self).segment(j as int).state == SegmentState::Open
                    &&& final(self).segment(j as int).records@ == Seq::<Record>::empty()
                    &&& final(self).segment(j as int).data@ == Seq::<u8>::empty()
                    &&& final(self).segment(j as int).live_bytes == 0
                    &&& final(self).segment(j as int).dead_bytes == 0
                    &&& final(self).segment(j as int).segment_id == old(self).next_id
                    &&& final(self).next_id == old(self).next_id + 1
                    &&& final(self).free@ == old(self).free@.drop_last()
                },
                None => *final(self) == *old(self),
            },
    {
        if self.free.len() == 0 || self.next_id == u64::MAX {
            return None;
        }
        let j = self.free.pop().unwrap();
        proof {
            assert(j == old(self).free@[old(self).free@.len() - 1]);
        }
        let base = self.region.base_of(j);
        let segment = Segment::new(self.next_id, self.region.socket, base, self.region.block_size);
        self.slots[j] = Some(segment);
        self.next_id = self.next_id + 1;
        proof {
            let before = *old(self);
            self.lemma_index_kept(before);
            assert forall|i: int| #[trigger] self.occupied(i) implies {
                &&& self.segment(i).wf()
                &&& self.segment(i).socket == self.region.socket
                &&& self.segment(i).base_addr == self.slot_base(i)
                &&& self.segment(i).size == self.region.block_size
                &&& self.segment(i).segment_id < self.next_id
            } by {
                if i != j {
                    assert(before.occupied(i));
                }
            }
            assert forall|a: int, b: int|
                #![trigger self.occupied(a), self.occupied(b)]
                self.occupied(a) && self.occupied(b) && a != b implies self.segment(a).segment_id
                != self.segment(b).segment_id by {
                if a != j {
                    assert(before.occupied(a));
                }
                if b != j {
                    assert(before.occupied(b));
                }
            }
            assert forall|i: int| 0 <= i < self.free@.len() implies (#[trigger] self.free@[i])
                < self.slots@.len() && !self.occupied(self.free@[i] as int) by {
                assert(self.free@[i] == before.free@[i]);
                assert(before.free@[i] != before.free@[before.free@.len() - 1]);
            }
            assert forall|a: int, b: int| 0 <= a < b < self.free@.len() implies (
            #[trigger] self.free@[a]) != (#[trigger] self.free@[b]) by {
                assert(self.free@[a] == before.free@[a]);
                assert(self.free@[b] == before.free@[b]);
            }
            assert forall|i: int|
                0 <= i < self.slots@.len() && !(#[trigger] self.occupied(i)) implies pooled(
                self.free@,
                i,
            ) by {
                assert(!before.occupied(i));
                let w = choose|w: int| 0 <= w < before.free@.len() && #[trigger] before.free@[w] == i;
                assert(self.free@[w] == i);
            }
        }
        Some(j)
    }

    /// Retires the segment in block `slot`, which is under compaction and
    /// whose live records have all been moved out: its counters are
    /// cleared and its memory is scheduled to return to the pool at epoch
    /// `due`.
    pub fn retire_segment(&mut self, slot: usize, due: u64)
        requires
            old(self).wf(),
            old(self).occupied(slot as int),
            old(self).segment(slot as int).live_bytes == 0,
            old(self).segment(slot as int).state == SegmentState::Compacting,
        ensures
            final(self).wf(),
            final(self).region == old(self).region,
            final(self).next_id == old(self).next_id,
            final(self).free == old(self).free,
            final(self).slots@ == old(self).slots@.update(
                slot as int,
                Some(
                    Segment {
                        state: SegmentState::Retired,
                        live_bytes: 0,
                        dead_bytes: 0,
                        retire_epoch: due,
                        ..old(self).segment(slot as int)
                    },
                ),
            ),
    {
        match &mut self.slots[slot] {
            Some(segment) => {
                segment.state = SegmentState::Retired;
                segment.live_bytes = 0;
                segment.dead_bytes = 0;
                segment.retire_epoch = due;
            },
            None => {},
        }
        proof {
            let before = *old(self);
            assert(self.slots@ =~= before.slots@.update(
                slot as int,
                Some(
                    Segment {
                        state: SegmentState::Retired,
                        live_bytes: 0,
                        dead_bytes: 0,
                        retire_epoch: due,
                        ..before.segment(slot as int)
                    },
                ),
            ));
            assert forall|j: int| #[trigger] self.occupied(j) implies {
                &&& self.segment(j).wf()
                &&& self.segment(j).socket == before.segment(j).socket
                &&& self.segment(j).base_addr == before.segment(j).base_addr
                &&& self.segment(j).size == before.segment(j).size
                &&& self.segment(j).segment_id == before.segment(j).segment_id
            } by {
                assert(before.occupied(j));
            }
            self.lemma_same_blocks(before);
        }
    }

    /// Appends the record of `key` and `value` to the open segment in
    /// block `slot` and counts it as live. Returns the virtual address of
    /// its first byte.
    pub fn append_to(&mut self, slot: usize, key: u64, value: &[u8]) -> (address: u64)
        requires
            old(self).wf(),
            old(self).occupied(slot as int),
            old(self).segment(slot as int).state == SegmentState::Open,
            1 <= value@.len() <= VALUE_LIMIT,
            old(self).segment(slot as int).head_offset() + record_size(value@.len()) <= old(
                self,
            ).region.block_size,
        ensures
            final(self).wf(),
            final(self).region == old(self).region,
            final(self).next_id == old(self).next_id,
            final(self).free == old(self).free,
            final(self).slots@ == old(self).slots@.update(
                slot as int,
                Some(final(self).segment(slot as int)),
            ),
            final(self).occupied(slot as int),
            address == old(self).segment(slot as int).base_addr + old(self).segment(
                slot as int,
            ).head_offset(),
            final(self).segment(slot as int) == (Segment {
                data: final(self).segment(slot as int).data,
                live_bytes: (old(self).segment(slot as int).live_bytes + record_size(
                    value@.len(),
                )) as usize,
                records: Ghost(
                    old(self).segment(slot as int).records@.push(
                        Record {
                            offset: old(self).segment(slot as int).head_offset(),
                            key,
                            value: value@,
                        },
                    ),
                ),
                ..old(self).segment(slot as int)
            }),
            final(self).segment(slot as int).data@ == old(self).segment(slot as int).data@
                + encode(key, value@),
    {
        let address = match &mut self.slots[slot] {
            Some(segment) => segment.append(key, value),
            None => 0,
        };
        proof {
            let before = *old(self);
            assert(before.occupied(slot as int));
            assert(self.slots@ =~= before.slots@.update(
                slot as int,
                Some(self.segment(slot as int)),
            ));
            assert forall|j: int| #[trigger] self.occupied(j) implies {
                &&& self.segment(j).wf()
                &&& self.segment(j).socket == before.segment(j).socket
                &&& self.segment(j).base_addr == before.segment(j).base_addr
                &&& self.segment(j).size == before.segment(j).size
                &&& self.segment(j).segment_id == before.segment(j).segment_id
            } by {
                assert(before.occupied(j));
            }
            self.lemma_same_blocks(before);
        }
        address
    }

    /// Closes the segment in block `slot`, which holds records and is the
    /// head of the log or under compaction, and enters it in the
    /// dead-ratio index.
    pub fn close(&mut self, slot: usize)
        requires
            old(self).wf(),
            old(self).occupied(slot as int),
            old(self).segment(slot as int).state == SegmentState::Open || old(self).segment(
                slot as int,
            ).state == SegmentState::Compacting,
            old(self).segment(slot as int).head_offset() > 0,
        ensures
            final(self).wf(),
            final(self).region == old(self).region,
            final(self).next_id == old(self).next_id,
            final(self).free == old(self).free,
            final(self).slots@ == old(self).slots@.update(
                slot as int,
                Some(Segment { state: SegmentState::Closed, ..old(self).segment(slot as int) }),
            ),
    {
        match &mut self.slots[slot] {
            Some(segment) => {
                segment.state = SegmentState::Closed;
            },
            None => {},
        }
        let ghost before = *old(self);
        let ghost middle = *self;
        proof {
            reveal(SegmentManager::indexed);
            before.lemma_distinct_ids();
            assert(before.occupied(slot as int));
            assert(self.slots@ =~= before.slots@.update(
                slot as int,
                Some(Segment { state: SegmentState::Closed, ..before.segment(slot as int) }),
            ));
            assert(before.order.len() <= usize::MAX);
            assert forall|i: int| 0 <= i < self.order@.len() implies self.slots@[
                #[trigger] self.order@[i] as int] == before.slots@[self.order@[i] as int] by {
                assert(rankable(before.slots@, before.order@[i] as int));
                assert(before.rank@[before.order@[i] as int] == i);
                assert(before.occupied(before.order@[i] as int));
            }
            lemma_index_same(before.slots@, self.slots@, self.order@, self.rank@);
            assert(distinct_ids(self.slots@)) by {
                assert forall|a: int, b: int|
                    0 <= a < self.slots@.len() && 0 <= b < self.slots@.len() && a != b
                        && self.slots@[a] is Some && self.slots@[b] is Some implies #[trigger] id_at(
                    self.slots@,
                    a,
                ) != #[trigger] id_at(self.slots@, b) by {
                    assert(id_at(self.slots@, a) == id_at(before.slots@, a));
                    assert(id_at(self.slots@, b) == id_at(before.slots@, b));
                }
            }
        }
        enter(&self.slots, &mut self.order, &mut self.rank, slot);
        proof {
            assert(self.indexed()) by {
                assert forall|j: int| #[trigger] self.occupied(j) implies (self.segment(j).state
                    == SegmentState::Closed) == (self.rank@[j] != UNRANKED) by {
                    assert(before.occupied(j));
                    assert((self.rank@[j] != UNRANKED) == (j == slot || before.rank@[j]
                        != UNRANKED));
                }
            }
            self.lemma_block_changed(before, slot as int);
        }
    }

    /// Takes the closed segment with the highest dead ratio above
    /// `threshold` out of the dead-ratio index and puts it under
    /// compaction. Returns its block, or `None` if there is no such
    /// segment. Among segments of equal ratio the oldest wins.
    pub fn take_victim(&mut self, threshold: Ratio) -> (victim: Option<usize>)
        requires
            old(self).wf(),
        ensures
            final(self).wf(),
            final(self).region == old(self).region,
            final(self).next_id == old(self).next_id,
            final(self).free == old(self).free,
            match victim {
                Some(v) => {
                    &&& old(self).is_first(v as int, threshold)
                    &&& final(self).slots@ == old(self).slots@.update(
                        v as int,
                        Some(
                            Segment {
                                state: SegmentState::Compacting,
                                ..old(self).segment(v as int)
                            },
                        ),
                    )
                },
                None => old(self).none_above(threshold) && *final(self) == *old(self),
            },
    {
        let victim = match self.select_victim(threshold) {
            Some(victim) => victim,
            None => {
                return None;
            },
        };
        let ghost before = *old(self);
        proof {
            reveal(SegmentManager::indexed);
            before.lemma_distinct_ids();
            assert(before.occupied(victim as int));
            assert(before.rank@[victim as int] != UNRANKED);
        }
        let first = leave_first(&self.slots, &mut self.order, &mut self.rank);
        let ghost middle = *self;
        match &mut self.slots[victim] {
            Some(segment) => {
                segment.state = SegmentState::Compacting;
            },
            None => {},
        }
        proof {
            assert(self.slots@ =~= before.slots@.update(
                victim as int,
                Some(Segment { state: SegmentState::Compacting, ..before.segment(victim as int) }),
            ));
            assert(self.order.len() <= usize::MAX);
            assert forall|i: int| 0 <= i < self.order@.len() implies self.slots@[
                #[trigger] self.order@[i] as int] == before.slots@[self.order@[i] as int] by {
                assert(rankable(before.slots@, self.order@[i] as int));
                assert(self.rank@[self.order@[i] as int] == i);
            }
            lemma_index_same(before.slots@, self.slots@, self.order@, self.rank@);
            assert(self.indexed()) by {
                assert forall|j: int| #[trigger] self.occupied(j) implies (self.segment(j).state
                    == SegmentState::Closed) == (self.rank@[j] != UNRANKED) by {
                    assert(before.occupied(j));
                    assert((self.rank@[j] != UNRANKED) == (j != first && before.rank@[j]
                        != UNRANKED));
                }
            }
            self.lemma_block_changed(before, victim as int);
        }
        Some(victim)
    }

    /// Counts `amount` live bytes of the segment in block `slot` as dead,
    /// and moves a closed segment up in the dead-ratio index as far as its
    /// new ratio takes it.
    pub fn mark_dead(&mut self, slot: usize, amount: usize)
        requires
            old(self).wf(),
            old(self).occupied(slot as int),
            old(self).segment(slot as int).state != SegmentState::Retired,
            amount <= old(self).segment(slot as int).live_bytes,
        ensures
            final(self).wf(),
            final(self).region == old(self).region,
            final(self).next_id == old(self).next_id,
            final(self).free == old(self).free,
            final(self).slots@ == old(self).slots@.update(
                slot as int,
                Some(
                    Segment {
                        live_bytes: (old(self).segment(slot as int).live_bytes - amount) as usize,
                        dead_bytes: (old(self).segment(slot as int).dead_bytes + amount) as usize,
                        ..old(self).segment(slot as int)
                    },
                ),
            ),
    {
        match &mut self.slots[slot] {
            Some(segment) => {
                segment.mark_dead(amount);
            },
            None => {},
        }
        let ghost before = *old(self);
        proof {
            assert(before.occupied(slot as int));
            assert(self.slots@ =~= before.slots@.update(
                slot as int,
                Some(
                    Segment {
                        live_bytes: (before.segment(slot as int).live_bytes - amount) as usize,
                        dead_bytes: (before.segment(slot as int).dead_bytes + amount) as usize,
                        ..before.segment(slot as int)
                    },
                ),
            ));
        }
        proof {
            reveal(SegmentManager::indexed);
        }
        let p = self.rank[slot];
        if p == UNRANKED {
            proof {
                reveal(SegmentManager::indexed);
                self.lemma_index_kept(before);
                self.lemma_block_changed(before, slot as int);
            }
            return ;
        }
        proof {
            reveal(SegmentManager::indexed);
            before.lemma_distinct_ids();
            assert(before.order.len() <= usize::MAX);
            let slots = self.slots@;
            let heap = self.order@;
            assert(heap[p as int] == slot);
            assert forall|i: int| 0 <= i < heap.len() implies rankable(
                slots,
                #[trigger] heap[i] as int,
            ) && self.rank@[heap[i] as int] == i by {
                assert(rankable(before.slots@, heap[i] as int));
            }
            assert(distinct_ids(slots)) by {
                assert forall|a: int, b: int|
                    0 <= a < slots.len() && 0 <= b < slots.len() && a != b && slots[a] is Some
                        && slots[b] is Some implies #[trigger] id_at(slots, a) != #[trigger] id_at(
                    slots,
                    b,
                ) by {
                    assert(id_at(slots, a) == id_at(before.slots@, a));
                    assert(id_at(slots, b) == id_at(before.slots@, b));
                }
            }
            assert forall|i: int| 0 < i < heap.len() && i != p implies #[trigger] ordered_at(
                slots,
                heap,
                i,
            ) by {
                assert(ordered_at(before.slots@, heap, i));
                assert(self.rank@[heap[i] as int] == i);
                assert(rankable(before.slots@, heap[i] as int));
                assert(rankable(before.slots@, heap[parent(i)] as int));
                assert(self.rank@[heap[parent(i)] as int] == parent(i));
                if parent(i) == p {
                    lemma_above_raised(before.slots@, slots, slot as int, heap[i] as int);
                } else {
                    lemma_above_same(before.slots@, slots, heap[parent(i)] as int, heap[i] as int);
                }
            }
            assert forall|i: int| 0 < i < heap.len() && parent(i) == p && p > 0 implies above(
                slots,
                heap[parent(p as int)] as int,
                #[trigger] heap[i] as int,
            ) by {
                let up = heap[parent(p as int)] as int;
                assert(ordered_at(before.slots@, heap, i));
                assert(ordered_at(before.slots@, heap, p as int));
                assert(rankable(before.slots@, heap[i] as int));
                assert(rankable(before.slots@, up));
                assert(rankable(before.slots@, slot as int));
                assert(self.rank@[heap[i] as int] == i);
                assert(self.rank@[up] == parent(p as int));
                lemma_above_transitive(before.slots@, up, slot as int, heap[i] as int);
                lemma_above_same(before.slots@, slots, up, heap[i] as int);
            }
        }
        sift_up(&self.slots, &mut self.order, &mut self.rank, p);
        proof {
            assert(self.indexed()) by {
                assert forall|j: int| #[trigger] self.occupied(j) implies (self.segment(j).state
                    == SegmentState::Closed) == (self.rank@[j] != UNRANKED) by {
                    assert(before.occupied(j));
                    assert((self.rank@[j] != UNRANKED) == (before.rank@[j] != UNRANKED));
                }
            }
            self.lemma_block_changed(before, slot as int);
        }
    }

    /// Whether some retired segment's grace period is over at epoch `now`.
    pub open spec fn reclaimable(&self, now: u64) -> bool {
        exists|j: int| #[trigger]
            self.occupied(j) && self.segment(j).state == SegmentState::Retired && self.segment(
                j,
            ).retire_epoch <= now
    }

    /// Returns to the pool the blocks of the retired segments whose grace
    /// period is over at epoch `now`, and says how many these were.
    pub fn reclaim(&mut self, now: u64) -> (freed: usize)
        requires
            old(self).wf(),
        ensures
            final(self).wf(),
            final(self).region == old(self).region,
            final(self).next_id == old(self).next_id,
            final(self).blocks() == old(self).blocks(),
            forall|j: int|
                0 <= j < old(self).blocks() ==> #[trigger] final(self).slots@[j] == after_reclaim(
                    old(self).slots@[j],
                    now,
                ),
            final(self).free@.len() == old(self).free@.len() + freed,
            freed > 0 <==> old(self).reclaimable(now),
            !final(self).reclaimable(now),
    {
        let mut freed: usize = 0;
        let mut j: usize = 0;
        while j < self.slots.len()
            invariant
                j <= self.slots@.len(),
                freed <= j,
                self.wf(),
                self.region == old(self).region,
                self.next_id == old(self).next_id,
                self.slots@.len() == old(self).slots@.len(),
                forall|i: int|
                    0 <= i < j ==> #[trigger] self.slots@[i] == after_reclaim(
                        old(self).slots@[i],
                        now,
                    ),
                forall|i: int| j <= i < self.slots@.len() ==> self.slots@[i] == old(self).slots@[i],
                self.free@.len() == old(self).free@.len() + freed,
                freed > 0 <==> exists|i: int|
                    0 <= i < j && #[trigger] old(self).occupied(i) && old(self).segment(i).state
                        == SegmentState::Retired && old(self).segment(i).retire_epoch <= now,
            decreases self.slots@.len() - j,
        {
            let due = match &self.slots[j] {
                Some(segment) => segment.state == SegmentState::Retired && segment.retire_epoch
                    <= now,
                None => false,
            };
            let ghost before = *self;
            if due {
                self.slots[j] = None;
                self.free.push(j);
                freed = freed + 1;
                proof {
                    assert(before.occupied(j as int));
                    assert(old(self).occupied(j as int));
                    self.lemma_index_kept(before);
                    assert forall|i: int| #[trigger] self.occupied(i) implies {
                        &&& self.segment(i).wf()
                        &&& self.segment(i).socket == self.region.socket
                        &&& self.segment(i).base_addr == self.slot_base(i)
                        &&& self.segment(i).size == self.region.block_size
                        &&& self.segment(i).segment_id < self.next_id
                    } by {
                        assert(before.occupied(i));
                    }
                    assert forall|a: int, b: int|
                        #![trigger self.occupied(a), self.occupied(b)]
                        self.occupied(a) && self.occupied(b) && a != b implies self.segment(
                        a,
                    ).segment_id != self.segment(b).segment_id by {
                        assert(before.occupied(a));
                        assert(before.occupied(b));
                    }
                    assert forall|i: int| 0 <= i < self.free@.len() implies (
                    #[trigger] self.free@[i]) < self.slots@.len() && !self.occupied(
                        self.free@[i] as int,
                    ) by {
                        if i < before.free@.len() {
                            assert(self.free@[i] == before.free@[i]);
                            assert(!before.occupied(before.free@[i] as int));
                        }
                    }
                    assert forall|a: int, b: int| 0 <= a < b < self.free@.len() implies (
                    #[trigger] self.free@[a]) != (#[trigger] self.free@[b]) by {
                        assert(self.free@[a] == before.free@[a]);
                        assert(!before.occupied(before.free@[a] as int));
                        if b < before.free@.len() {
                            assert(self.free@[b] == before.free@[b]);
                        }
                    }
                    assert forall|i: int|
                        0 <= i < self.slots@.len() && !(#[trigger] self.occupied(
                            i,
                        )) implies pooled(self.free@, i) by {
                        if i == j {
                            assert(self.free@[before.free@.len() as int] == j);
                        } else {
                            assert(!before.occupied(i));
                            let w = choose|w: int|
                                0 <= w < before.free@.len() && #[trigger] before.free@[w] == i;
                            assert(self.free@[w] == i);
                        }
                    }
                }
            } else {
                proof {
                    if old(self).occupied(j as int) {
                    }
                }
            }
            j = j + 1;
        }
        proof {
            if self.reclaimable(now) {
                let w = choose|w: int| #[trigger]
                    self.occupied(w) && self.segment(w).state == SegmentState::Retired
                        && self.segment(w).retire_epoch <= now;
                assert(self.slots@[w] == after_reclaim(old(self).slots@[w], now));
            }
            if old(self).reclaimable(now) {
                let w = choose|w: int| #[trigger]
                    old(self).occupied(w) && old(self).segment(w).state == SegmentState::Retired
                        && old(self).segment(w).retire_epoch <= now;
                assert(old(self).occupied(w));
            }
        }
        freed
    }

    /// Whether the segment in block `v` is the one to compact next: it is
    /// closed with a dead ratio above the threshold, and it comes before
    /// every other such segment.
    pub open spec fn is_first(&self, v: int, threshold: Ratio) -> bool {
        &&& self.occupied(v)
        &&& is_candidate(self.segment(v), threshold)
        &&& forall|j: int|
            #![trigger self.occupied(j)]
            self.occupied(j) && j != v && is_candidate(self.segment(j), threshold) ==> precedes(
                self.segment(v),
                self.segment(j),
            )
    }

    /// Whether no segment is closed with a dead ratio above the
    /// threshold.
    pub open spec fn none_above(&self, threshold: Ratio) -> bool {
        forall|j: int|
            #![trigger self.occupied(j)]
            self.occupied(j) ==> !is_candidate(self.segment(j), threshold)
    }

    /// Returns the closed segment with the highest dead ratio above
    /// `threshold`, or `None` if there is none. Among segments of equal
    /// ratio the oldest wins. The segment is the first of the dead-ratio
    /// index, if that one's ratio is above the threshold.
    pub fn select_victim(&self, threshold: Ratio) -> (victim: Option<usize>)
        requires
            self.wf(),
        ensures
            match victim {
                Some(v) => self.is_first(v as int, threshold) && self.order@.len() > 0
                    && self.order@[0] == v,
                None => self.none_above(threshold),
            },
    {
        proof {
            reveal(SegmentManager::indexed);
            reveal(above);
            assert(self.order.len() <= usize::MAX);
        }
        if self.order.len() == 0 {
            proof {
                assert forall|j: int| #![trigger self.occupied(j)] self.occupied(j) implies !is_candidate(
                    self.segment(j),
                    threshold,
                ) by {
                    if self.segment(j).state == SegmentState::Closed {
                        assert(self.rank@[j] != UNRANKED);
                    }
                }
            }
            return None;
        }
        let first = self.order[0];
        proof {
            assert(rankable(self.slots@, self.order@[0] as int));
            assert(self.occupied(first as int));
            assert(self.rank@[first as int] == 0);
        }
        let worth = match &self.slots[first] {
            Some(segment) => is_above(segment, threshold),
            None => false,
        };
        proof {
            assert forall|j: int|
                #![trigger self.occupied(j)]
                self.occupied(j) && j != first && self.segment(j).state
                    == SegmentState::Closed implies precedes(
                self.segment(first as int),
                self.segment(j),
            ) by {
                let i = self.rank@[j] as int;
                assert(self.rank@[j] != UNRANKED);
                assert(self.order@[i] == j);
                lemma_first_above(self.slots@, self.order@, self.rank@, i);
            }
            if !worth {
                assert forall|j: int| #![trigger self.occupied(j)] self.occupied(j) implies !is_candidate(
                    self.segment(j),
                    threshold,
                ) by {
                    if j != first && is_candidate(self.segment(j), threshold) {
                        assert(rankable(self.slots@, self.order@[self.rank@[j] as int] as int));
                        lemma_precedes_exceeds(
                            self.segment(first as int),
                            self.segment(j),
                            threshold,
                        );
                    }
                }
            }
        }
        if worth {
            Some(first)
        } else {
            None
        }
    }

    /// A manager that differs from a well-formed one in the dead-ratio
    /// index and in one segment, which is well formed and has kept its
    /// identifier and its address, is well formed if its index is.
    pub proof fn lemma_block_changed(self, before: SegmentManager, slot: int)
        requires
            before.wf(),
            self.indexed(),
            self.region == before.region,
            self.next_id == before.next_id,
            self.free == before.free,
            before.occupied(slot),
            self.slots@ == before.slots@.update(slot, Some(self.segment(slot))),
            self.segment(slot).wf(),
            self.segment(slot).socket == before.segment(slot).socket,
            self.segment(slot).base_addr == before.segment(slot).base_addr,
            self.segment(slot).size == before.segment(slot).size,
            self.segment(slot).segment_id == before.segment(slot).segment_id,
        ensures
            self.wf(),
    {
        assert forall|j: int| #[trigger] self.occupied(j) implies {
            &&& self.segment(j).wf()
            &&& self.segment(j).socket == before.segment(j).socket
            &&& self.segment(j).base_addr == before.segment(j).base_addr
            &&& self.segment(j).size == before.segment(j).size
            &&& self.segment(j).segment_id == before.segment(j).segment_id
        } by {
            assert(before.occupied(j));
        }
        self.lemma_blocks_kept(before);
    }

    /// A manager that differs from a well-formed one in its segments and
    /// its dead-ratio index only, and whose segments are well formed and
    /// have kept their identifiers and addresses, is well formed if its
    /// index is.
    pub proof fn lemma_blocks_kept(self, before: SegmentManager)
        requires
            before.wf(),
            self.indexed(),
            self.region == before.region,
            self.next_id >= before.next_id,
            self.free == before.free,
            self.slots@.len() == before.slots@.len(),
            forall|j: int|
                0 <= j < self.slots@.len() ==> (#[trigger] self.slots@[j] is Some)
                    == before.slots@[j] is Some,
            forall|j: int| #[trigger]
                self.occupied(j) ==> {
                    &&& self.segment(j).wf()
                    &&& self.segment(j).socket == before.segment(j).socket
                    &&& self.segment(j).base_addr == before.segment(j).base_addr
                    &&& self.segment(j).size == before.segment(j).size
                    &&& self.segment(j).segment_id == before.segment(j).segment_id
                },
        ensures
            self.wf(),
    {
        assert forall|j: int| #[trigger] self.occupied(j) implies {
            &&& self.segment(j).wf()
            &&& self.segment(j).socket == self.region.socket
            &&& self.segment(j).base_addr == self.slot_base(j)
            &&& self.segment(j).size == self.region.block_size
            &&& self.segment(j).segment_id < self.next_id
        } by {
            assert(before.occupied(j));
        }
        assert forall|i: int, j: int|
            #![trigger self.occupied(i), self.occupied(j)]
            self.occupied(i) && self.occupied(j) && i != j implies self.segment(i).segment_id
            != self.segment(j).segment_id by {
            assert(before.occupied(i));
            assert(before.occupied(j));
        }
        assert forall|i: int| 0 <= i < self.free@.len() implies (#[trigger] self.free@[i])
            < self.slots@.len() && !self.occupied(self.free@[i] as int) by {
            assert(!before.occupied(before.free@[i] as int));
        }
        assert forall|j: int|
            0 <= j < self.slots@.len() && !(#[trigger] self.occupied(j)) implies pooled(
            self.free@,
            j,
        ) by {
            assert(!before.occupied(j));
        }
    }

    /// A manager whose blocks hold segments with the identifiers and
    /// addresses of those of a well-formed one, each well formed, is well
    /// formed.
    pub proof fn lemma_same_blocks(self, before: SegmentManager)
        requires
            before.wf(),
            self.region == before.region,
            self.next_id >= before.next_id,
            self.free == before.free,
            self.order == before.order,
            self.rank == before.rank,
            self.slots@.len() == before.slots@.len(),
            forall|j: int|
                0 <= j < self.slots@.len() && ((before.slots@[j] matches Some(b) && b.state
                    == SegmentState::Closed) || (self.slots@[j] matches Some(a) && a.state
                    == SegmentState::Closed)) ==> #[trigger] self.slots@[j] == before.slots@[j],
            forall|j: int|
                0 <= j < self.slots@.len() ==> (#[trigger] self.slots@[j] is Some)
                    == before.slots@[j] is Some,
            forall|j: int| #[trigger]
                self.occupied(j) ==> {
                    &&& self.segment(j).wf()
                    &&& self.segment(j).socket == before.segment(j).socket
                    &&& self.segment(j).base_addr == before.segment(j).base_addr
                    &&& self.segment(j).size == before.segment(j).size
                    &&& self.segment(j).segment_id == before.segment(j).segment_id
                },
        ensures
            self.wf(),
    {
        self.lemma_index_kept(before);
        assert forall|j: int| #[trigger] self.occupied(j) implies {
            &&& self.segment(j).wf()
            &&& self.segment(j).socket == self.region.socket
            &&& self.segment(j).base_addr == self.slot_base(j)
            &&& self.segment(j).size == self.region.block_size
            &&& self.segment(j).segment_id < self.next_id
        } by {
            assert(before.occupied(j));
        }
        assert forall|i: int, j: int|
            #![trigger self.occupied(i), self.occupied(j)]
            self.occupied(i) && self.occupied(j) && i != j implies self.segment(i).segment_id
            != self.segment(j).segment_id by {
            assert(before.occupied(i));
            assert(before.occupied(j));
        }
        assert forall|i: int| 0 <= i < self.free@.len() implies (#[trigger] self.free@[i])
            < self.slots@.len() && !self.occupied(self.free@[i] as int) by {
            assert(!before.occupied(before.free@[i] as int));
        }
        assert forall|j: int|
            0 <= j < self.slots@.len() && !(#[trigger] self.occupied(j)) implies pooled(
            self.free@,
            j,
        ) by {
            assert(!before.occupied(j));
        }
    }
}

} // verus!
