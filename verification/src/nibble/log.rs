//! The log of one socket: the append point of its memory.

use crate::nibble::common::ErrorCode;
use crate::nibble::manager::SegmentManager;
use crate::nibble::record::{record_size, size_of_record, VALUE_LIMIT};
use crate::nibble::region::Region;
use crate::nibble::segment::{Record, Segment, SegmentState};
use vstd::prelude::*;

verus! {

/// Where an appended record went.
#[derive(Clone, Copy, Debug)]
pub struct Placement {
    /// The block whose segment took the record.
    pub slot: usize,
    /// The virtual address of the record's first byte.
    pub address: u64,
}

/// The records of the segment in a block; none for a block without one.
pub open spec fn records_of(block: Option<Segment>) -> Seq<Record> {
    match block {
        Some(segment) => segment.records@,
        None => Seq::empty(),
    }
}

/// The live bytes of the segment in a block; none for a block without one.
pub open spec fn live_of(block: Option<Segment>) -> int {
    match block {
        Some(segment) => segment.live_bytes as int,
        None => 0,
    }
}

/// The bytes written to the segment in a block; none for a block without
/// one.
pub open spec fn written_of(block: Option<Segment>) -> nat {
    match block {
        Some(segment) => segment.head_offset(),
        None => 0,
    }
}

/// The dead bytes of the segment in a block; none for a block without one.
pub open spec fn dead_of(block: Option<Segment>) -> int {
    match block {
        Some(segment) => segment.dead_bytes as int,
        None => 0,
    }
}

/// What an append does to a block other than the one it writes to: nothing,
/// but that the head segment is closed when the log moves on.
pub open spec fn carried(before: Option<Segment>, after: Option<Segment>) -> bool {
    ||| after == before
    ||| (before matches Some(b) && b.state == SegmentState::Open && after == Some(
        Segment { state: SegmentState::Closed, ..b },
    ))
}

/// The append point of one socket, with the segment manager it draws on.
pub struct Log {
    pub manager: SegmentManager,
    /// The block of the head segment: the one open segment, if there is
    /// one.
    pub head: Option<usize>,
}

impl Log {
    /// The representation invariant: the manager's, and the head is the
    /// one open segment.
    pub open spec fn wf(&self) -> bool {
        &&& self.manager.wf()
        &&& (self.head matches Some(h) ==> self.manager.occupied(h as int) && self.manager.segment(
            h as int,
        ).state == SegmentState::Open)
        &&& forall|j: int| #[trigger]
            self.manager.occupied(j) && self.manager.segment(j).state == SegmentState::Open
                ==> (self.head matches Some(h) && h == j)
    }

    /// Whether the head segment has room for a record of `size` bytes.
    pub open spec fn head_has_room(&self, size: nat) -> bool {
        self.head matches Some(h) && self.manager.segment(h as int).head_offset() + size
            <= self.manager.region.block_size
    }

    /// Whether the head segment has room for a record of `size` bytes.
    pub fn head_fits(&self, size: usize) -> (fits: bool)
        requires
            self.wf(),
        ensures
            fits == self.head_has_room(size as nat),
    {
        match self.head {
            Some(h) => {
                assert(self.manager.occupied(h as int));
                match &self.manager.slots[h] {
                    Some(segment) => segment.has_room(size),
                    None => false,
                }
            },
            None => false,
        }
    }

    /// Bytes that the head segment can still take; none without a head
    /// segment.
    pub open spec fn head_room(&self) -> int {
        match self.head {
            Some(h) => self.manager.region.block_size - self.manager.segment(h as int).head_offset(),
            None => 0,
        }
    }

    /// Whether a segment can be opened at epoch `now`: a block is free or
    /// is handed back then, and the identifiers are not used up.
    pub open spec fn blocks_at(&self, now: u64) -> bool {
        (self.manager.free@.len() > 0 || self.manager.reclaimable(now)) && self.manager.next_id
            < u64::MAX
    }

    /// Whether records that take `budget` bytes in all can be appended
    /// from epoch `now` on, whatever their number and their sizes: the
    /// head segment has room for all of them, or a segment can be opened
    /// and they fit in one segment.
    pub open spec fn holds_room(&self, budget: int, now: u64) -> bool {
        budget <= self.head_room() || (self.blocks_at(now) && budget
            <= self.manager.region.block_size)
    }

    /// A segment that can be opened at one epoch can be opened at any
    /// later one.
    pub proof fn lemma_blocks_later(&self, now: u64, later: u64)
        requires
            self.blocks_at(now),
            now <= later,
        ensures
            self.blocks_at(later),
    {
        if self.manager.reclaimable(now) {
            let w = choose|w: int| #[trigger]
                self.manager.occupied(w) && self.manager.segment(w).state
                    == SegmentState::Retired && self.manager.segment(w).retire_epoch <= now;
            assert(self.manager.occupied(w));
        }
    }

    /// Whether a record of `size` bytes can be appended: the head segment
    /// has room for it, or a new segment can be opened.
    pub open spec fn has_room(&self, size: nat) -> bool {
        ||| (self.head matches Some(h) && self.manager.segment(h as int).head_offset() + size
            <= self.manager.region.block_size)
        ||| self.manager.can_alloc()
    }

    /// A log without a head segment over `region`, with every block free.
    pub fn new(region: Region) -> (log: Log)
        requires
            region.wf(),
        ensures
            log.wf(),
            log.head is None,
            log.manager.region == region,
            log.manager.blocks() == region.blocks,
            log.manager.next_id == 0,
            log.manager.free@.len() == region.blocks,
            forall|j: int| 0 <= j < region.blocks ==> log.manager.slots@[j] is None,
    {
        Log { manager: SegmentManager::new(region), head: None }
    }

    /// Appends the record of `key` and `value` to the head segment. When
    /// the head segment has no room for it, the segment is closed and a
    /// new one is opened. Says where the record went, or `OutOfMemory`
    /// when no segment could be opened.
    pub fn place(&mut self, key: u64, value: &[u8]) -> (placed: Result<Placement, ErrorCode>)
        requires
            old(self).wf(),
            1 <= value@.len() <= VALUE_LIMIT,
            record_size(value@.len()) <= old(self).manager.region.block_size,
        ensures
            final(self).wf(),
            final(self).manager.region == old(self).manager.region,
            final(self).manager.blocks() == old(self).manager.blocks(),
            placed is Ok <==> old(self).has_room(record_size(value@.len())),
            match placed {
                Ok(p) => {
                    let before = old(self).manager.slots@[p.slot as int];
                    let segment = final(self).manager.segment(p.slot as int);
                    let record = Record {
                        offset: (p.address - segment.base_addr) as nat,
                        key,
                        value: value@,
                    };
                    &&& final(self).manager.occupied(p.slot as int)
                    &&& final(self).head == Some(p.slot)
                    &&& segment.state == SegmentState::Open
                    &&& p.address == segment.base_addr + written_of(before)
                    &&& (old(self).head_has_room(record_size(value@.len())) ==> old(self).head
                        == Some(p.slot))
                    &&& (!old(self).head_has_room(record_size(value@.len())) ==> before is None
                        && p.slot == old(self).manager.free@.last())
                    &&& (before matches Some(b) ==> b.state == SegmentState::Open)
                    &&& segment.records@ == records_of(before).push(record)
                    &&& segment.live_bytes == live_of(before) + record_size(value@.len())
                    &&& segment.dead_bytes == dead_of(before)
                    &&& final(self).head_room() == (if old(self).head_has_room(
                        record_size(value@.len()),
                    ) {
                        old(self).head_room() - record_size(value@.len())
                    } else {
                        old(self).manager.region.block_size - record_size(value@.len())
                    })
                    &&& (old(self).head_has_room(record_size(value@.len())) ==> forall|now: u64|
                        old(self).blocks_at(now) ==> #[trigger] final(self).blocks_at(now))
                    &&& forall|j: int|
                        0 <= j < old(self).manager.blocks() && j != p.slot ==> carried(
                            old(self).manager.slots@[j],
                            #[trigger] final(self).manager.slots@[j],
                        )
                },
                Err(e) => {
                    &&& e == ErrorCode::OutOfMemory
                    &&& final(self).head is None
                    &&& !final(self).manager.can_alloc()
                    &&& forall|j: int|
                        0 <= j < old(self).manager.blocks() ==> carried(
                            old(self).manager.slots@[j],
                            #[trigger] final(self).manager.slots@[j],
                        )
                },
            },
    {
        let size = size_of_record(value.len());
        match self.head {
            Some(h) => {
                assert(self.manager.occupied(h as int));
                let fits = match &self.manager.slots[h] {
                    Some(segment) => segment.has_room(size),
                    None => false,
                };
                if fits {
                    let address = self.manager.append_to(h, key, value);
                    proof {
                        assert forall|j: int| #[trigger]
                            self.manager.occupied(j) && self.manager.segment(j).state
                                == SegmentState::Open implies (self.head matches Some(x) && x
                            == j) by {
                            assert(old(self).manager.occupied(j));
                        }
                        crate::nibble::record::lemma_record_appended(
                            old(self).manager.segment(h as int).data@,
                            key,
                            value@,
                        );
                        assert forall|now: u64| old(self).blocks_at(now) implies #[trigger] self.blocks_at(
                            now,
                        ) by {
                            if old(self).manager.reclaimable(now) {
                                let w = choose|w: int| #[trigger]
                                    old(self).manager.occupied(w) && old(self).manager.segment(
                                        w,
                                    ).state == SegmentState::Retired && old(self).manager.segment(
                                        w,
                                    ).retire_epoch <= now;
                                assert(self.manager.occupied(w));
                            }
                        }
                    }
                    return Ok(Placement { slot: h, address });
                }
                self.manager.close(h);
                self.head = None;
                proof {
                    assert forall|j: int| #[trigger]
                        self.manager.occupied(j) implies self.manager.segment(j).state
                        != SegmentState::Open by {
                        assert(old(self).manager.occupied(j));
                    }
                }
            },
            None => {},
        }
        let ghost middle = *self;
        assert(forall|j: int|
            0 <= j < old(self).manager.blocks() ==> carried(
                old(self).manager.slots@[j],
                #[trigger] middle.manager.slots@[j],
            ));
        match self.manager.alloc_segment() {
            Some(j) => {
                self.head = Some(j);
                let address = self.manager.append_to(j, key, value);
                proof {
                    assert(!middle.manager.occupied(j as int));
                    assert(old(self).manager.slots@[j as int] is None);
                    assert forall|i: int| #[trigger]
                        self.manager.occupied(i) && self.manager.segment(i).state
                            == SegmentState::Open implies (self.head matches Some(x) && x == i) by {
                        if i != j {
                            assert(middle.manager.occupied(i));
                        }
                    }
                    assert forall|i: int|
                        0 <= i < old(self).manager.blocks() && i != j implies carried(
                        old(self).manager.slots@[i],
                        #[trigger] self.manager.slots@[i],
                    ) by {
                        assert(self.manager.slots@[i] == middle.manager.slots@[i]);
                    }
                }
                Ok(Placement { slot: j, address })
            },
            None => Err(ErrorCode::OutOfMemory),
        }
    }

    /// Appends the record of `key` and `value` and returns the virtual
    /// address of its first byte, or `OutOfMemory` when the head segment
    /// has no room for it and no segment could be opened.
    pub fn append(&mut self, key: u64, value: &[u8]) -> (address: Result<u64, ErrorCode>)
        requires
            old(self).wf(),
            1 <= value@.len() <= VALUE_LIMIT,
            record_size(value@.len()) <= old(self).manager.region.block_size,
        ensures
            final(self).wf(),
            address is Ok <==> old(self).has_room(record_size(value@.len())),
            address matches Err(e) ==> e == ErrorCode::OutOfMemory,
            address matches Ok(a) ==> exists|j: int| #[trigger]
                final(self).manager.occupied(j) && (final(self).head matches Some(h) && h == j)
                    && final(self).manager.segment(j).records@ == records_of(
                    old(self).manager.slots@[j],
                ).push(
                    Record {
                        offset: (a - final(self).manager.segment(j).base_addr) as nat,
                        key,
                        value: value@,
                    },
                ),
    {
        match self.place(key, value) {
            Ok(p) => {
                assert(self.manager.occupied(p.slot as int));
                Ok(p.address)
            },
            Err(e) => Err(e),
        }
    }
}

} // verus!
