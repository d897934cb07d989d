//! Segments: fixed-size, append-only containers of object records.

use crate::nibble::index::ADDRESS_LIMIT;
use crate::nibble::record::{
    encode, holds_record, lemma_decode_encoded, lemma_record_appended, lemma_record_kept,
    lemma_record_size, read_key, read_len, record_size, size_of_record, write_record, copy_value,
    VALUE_LIMIT,
};
use vstd::prelude::*;

verus! {

/// Where a segment is in its life.
#[derive(Clone, Copy, Debug, PartialEq, Eq, Structural)]
pub enum SegmentState {
    /// The log appends to it.
    Open,
    /// Full, or set aside by the log; a candidate for compaction.
    Closed,
    /// The compactor is moving its live records out.
    Compacting,
    /// Emptied; its memory is freed once the grace period is over.
    Retired,
}

/// One record of a segment, as the proofs see it.
pub struct Record {
    /// Where the record starts, in bytes from the start of the segment.
    pub offset: nat,
    pub key: u64,
    pub value: Seq<u8>,
}

impl Record {
    /// Bytes the record takes.
    pub open spec fn size(self) -> nat {
        record_size(self.value.len())
    }

    /// Where the record ends, in bytes from the start of the segment.
    pub open spec fn end(self) -> nat {
        self.offset + self.size()
    }
}

/// Whether `data` is exactly the records of `records`, one after the other.
#[verifier::opaque]
pub open spec fn laid_out(records: Seq<Record>, data: Seq<u8>) -> bool {
    &&& forall|i: int|
        0 <= i < records.len() ==> holds_record(
            data,
            (#[trigger] records[i]).offset as int,
            records[i].key,
            records[i].value,
        )
    &&& forall|i: int|
        0 <= i < records.len() ==> (#[trigger] records[i]).end() == (if i + 1 < records.len() {
            records[i + 1].offset
        } else {
            data.len()
        })
    &&& forall|i: int, j: int|
        0 <= i < j < records.len() ==> (#[trigger] records[i]).end() <= (
        #[trigger] records[j]).offset
    &&& (if records.len() == 0 {
        data.len() == 0
    } else {
        records[0].offset == 0
    })
}

/// An append-only sequence of object records in a region of fixed size.
pub struct Segment {
    pub segment_id: u64,
    /// The socket that owns the segment.
    pub socket: u16,
    /// Virtual address of the first byte.
    pub base_addr: u64,
    /// Bytes the segment can hold.
    pub size: usize,
    /// The records written so far; its length is the append cursor.
    pub data: Vec<u8>,
    /// Bytes of records that the index refers to.
    pub live_bytes: usize,
    /// Bytes of records that the index no longer refers to.
    pub dead_bytes: usize,
    pub state: SegmentState,
    /// For a retired segment, the epoch from which its memory may be freed.
    pub retire_epoch: u64,
    pub records: Ghost<Seq<Record>>,
}

impl Segment {
    /// The append cursor: bytes written so far.
    pub open spec fn head_offset(&self) -> nat {
        self.data@.len()
    }

    /// The representation invariant: the segment lies within the address
    /// range of an index entry, its bytes are its records, and its two
    /// counters add up to the bytes written (or are zero once retired).
    pub open spec fn wf(&self) -> bool {
        &&& self.data@.len() <= self.size
        &&& self.base_addr + self.size <= ADDRESS_LIMIT
        &&& laid_out(self.records@, self.data@)
        &&& if self.state == SegmentState::Retired {
            self.live_bytes == 0 && self.dead_bytes == 0
        } else {
            self.live_bytes + self.dead_bytes == self.data@.len()
        }
    }

    /// Whether a record starts at `offset`, and is the one numbered `i`.
    pub open spec fn starts(&self, offset: int, i: int) -> bool {
        0 <= i < self.records@.len() && self.records@[i].offset == offset
    }

    /// The virtual address of the record numbered `i`.
    pub open spec fn address_of(&self, i: int) -> int {
        self.base_addr + self.records@[i].offset
    }

    /// Every record lies within the bytes written, and records that
    /// follow one another in number do so in the segment.
    pub proof fn lemma_record_within(self, i: int)
        requires
            self.wf(),
            0 <= i < self.records@.len(),
        ensures
            16 <= self.records@[i].size(),
            self.records@[i].end() <= self.head_offset(),
            1 <= self.records@[i].value.len() <= VALUE_LIMIT,
            self.records@[i].end() == (if i + 1 < self.records@.len() {
                self.records@[i + 1].offset
            } else {
                self.head_offset()
            }),
            self.records@[0].offset == 0,
    {
        reveal(laid_out);
        lemma_record_size(self.records@[i].value.len());
    }

    /// Records with different numbers start at different offsets.
    pub proof fn lemma_records_apart(self, i: int, j: int)
        requires
            self.wf(),
            0 <= i < self.records@.len(),
            0 <= j < self.records@.len(),
            self.records@[i].offset == self.records@[j].offset,
        ensures
            i == j,
    {
        reveal(laid_out);
        lemma_record_size(self.records@[i].value.len());
        lemma_record_size(self.records@[j].value.len());
    }

    /// An open segment without records.
    pub fn new(segment_id: u64, socket: u16, base_addr: u64, size: usize) -> (segment: Segment)
        requires
            base_addr + size <= ADDRESS_LIMIT,
        ensures
            segment.wf(),
            segment.segment_id == segment_id,
            segment.socket == socket,
            segment.base_addr == base_addr,
            segment.size == size,
            segment.state == SegmentState::Open,
            segment.records@ == Seq::<Record>::empty(),
            segment.data@ == Seq::<u8>::empty(),
            segment.live_bytes == 0,
            segment.dead_bytes == 0,
    {
        let segment = Segment {
            segment_id,
            socket,
            base_addr,
            size,
            data: Vec::new(),
            live_bytes: 0,
            dead_bytes: 0,
            state: SegmentState::Open,
            retire_epoch: 0,
            records: Ghost(Seq::empty()),
        };
        proof {
            reveal(laid_out);
        }
        segment
    }

    /// The append cursor: bytes written so far.
    pub fn head(&self) -> (offset: usize)
        ensures
            offset == self.head_offset(),
    {
        self.data.len()
    }

    /// Whether a record of `size` bytes still fits.
    pub fn has_room(&self, size: usize) -> (fits: bool)
        requires
            self.wf(),
        ensures
            fits == (self.head_offset() + size <= self.size),
    {
        size <= self.size - self.data.len()
    }

    /// Appends the record of `key` and `value` and counts it as live.
    /// Returns the virtual address of its first byte.
    pub fn append(&mut self, key: u64, value: &[u8]) -> (address: u64)
        requires
            old(self).wf(),
            old(self).state == SegmentState::Open,
            1 <= value@.len() <= VALUE_LIMIT,
            old(self).head_offset() + record_size(value@.len()) <= old(self).size,
        ensures
            final(self).wf(),
            address == old(self).base_addr + old(self).head_offset(),
            final(self).records@ == old(self).records@.push(
                Record { offset: old(self).head_offset(), key, value: value@ },
            ),
            final(self).data@ == old(self).data@ + encode(key, value@),
            final(self).live_bytes == old(self).live_bytes + record_size(value@.len()),
            final(self).dead_bytes == old(self).dead_bytes,
            final(self).segment_id == old(self).segment_id,
            final(self).socket == old(self).socket,
            final(self).base_addr == old(self).base_addr,
            final(self).size == old(self).size,
            final(self).state == old(self).state,
            final(self).retire_epoch == old(self).retire_epoch,
    {
        let offset = self.data.len();
        let size = size_of_record(value.len());
        write_record(&mut self.data, key, value);
        self.live_bytes = self.live_bytes + size;
        let ghost added = Record { offset: offset as nat, key, value: value@ };
        self.records = Ghost(self.records@.push(added));
        proof {
            reveal(laid_out);
            let before = old(self).records@;
            let bytes = encode(key, value@);
            lemma_record_appended(old(self).data@, key, value@);
            lemma_record_size(value@.len());
            assert forall|i: int| 0 <= i < self.records@.len() implies holds_record(
                self.data@,
                (#[trigger] self.records@[i]).offset as int,
                self.records@[i].key,
                self.records@[i].value,
            ) by {
                if i < before.len() {
                    assert(self.records@[i] == before[i]);
                    lemma_record_kept(
                        old(self).data@,
                        bytes,
                        before[i].offset as int,
                        before[i].key,
                        before[i].value,
                    );
                }
            }
            assert forall|i: int| 0 <= i < self.records@.len() implies (
            #[trigger] self.records@[i]).end() == (if i + 1 < self.records@.len() {
                self.records@[i + 1].offset
            } else {
                self.data@.len()
            }) by {
                if i < before.len() {
                    assert(self.records@[i] == before[i]);
                    if i + 1 < before.len() {
                        assert(self.records@[i + 1] == before[i + 1]);
                    }
                }
            }
            assert forall|i: int, j: int| 0 <= i < j < self.records@.len() implies (
            #[trigger] self.records@[i]).end() <= (#[trigger] self.records@[j]).offset by {
                assert(self.records@[i] == before[i]);
                if j < before.len() {
                    assert(self.records@[j] == before[j]);
                } else {
                    assert(holds_record(
                        old(self).data@,
                        before[i].offset as int,
                        before[i].key,
                        before[i].value,
                    ));
                }
            }
            if before.len() > 0 {
                assert(self.records@[0] == before[0]);
            }
        }
        self.base_addr + offset as u64
    }

    /// Counts `amount` bytes that were live as dead.
    pub fn mark_dead(&mut self, amount: usize)
        requires
            old(self).wf(),
            old(self).state != SegmentState::Retired,
            amount <= old(self).live_bytes,
        ensures
            final(self).wf(),
            final(self).live_bytes == old(self).live_bytes - amount,
            final(self).dead_bytes == old(self).dead_bytes + amount,
            final(self).records == old(self).records,
            final(self).data == old(self).data,
            final(self).segment_id == old(self).segment_id,
            final(self).socket == old(self).socket,
            final(self).base_addr == old(self).base_addr,
            final(self).size == old(self).size,
            final(self).state == old(self).state,
            final(self).retire_epoch == old(self).retire_epoch,
    {
        self.live_bytes = self.live_bytes - amount;
        self.dead_bytes = self.dead_bytes + amount;
    }

    /// The key of the record that starts at `offset`.
    pub(crate) fn key_at(&self, offset: usize, Ghost(i): Ghost<int>) -> (key: u64)
        requires
            self.wf(),
            self.starts(offset as int, i),
        ensures
            key == self.records@[i].key,
    {
        proof {
            reveal(laid_out);
            let r = self.records@[i];
            lemma_decode_encoded(self.data@, offset as int, r.key, r.value);
            lemma_record_size(r.value.len());
        }
        read_key(self.data.as_slice(), offset)
    }

    /// The length of the value of the record that starts at `offset`.
    pub(crate) fn value_len_at(&self, offset: usize, Ghost(i): Ghost<int>) -> (len: usize)
        requires
            self.wf(),
            self.starts(offset as int, i),
        ensures
            len == self.records@[i].value.len(),
            1 <= len <= VALUE_LIMIT,
            offset + record_size(len as nat) <= self.head_offset(),
    {
        proof {
            reveal(laid_out);
            let r = self.records@[i];
            lemma_decode_encoded(self.data@, offset as int, r.key, r.value);
            lemma_record_size(r.value.len());
        }
        read_len(self.data.as_slice(), offset) as usize
    }

    /// Bytes that the record that starts at `offset` takes.
    pub(crate) fn record_size_at(&self, offset: usize, Ghost(i): Ghost<int>) -> (size: usize)
        requires
            self.wf(),
            self.starts(offset as int, i),
        ensures
            size == self.records@[i].size(),
            offset + size <= self.head_offset(),
    {
        let len = self.value_len_at(offset, Ghost(i));
        proof {
            lemma_record_size(len as nat);
        }
        size_of_record(len)
    }

    /// Copies the value of the record that starts at `offset` to the front
    /// of `out`, which has room for it.
    pub(crate) fn read_value(&self, offset: usize, Ghost(i): Ghost<int>, out: &mut [u8]) -> (len: usize)
        requires
            self.wf(),
            self.starts(offset as int, i),
            self.records@[i].value.len() <= old(out)@.len(),
        ensures
            len == self.records@[i].value.len(),
            final(out)@.len() == old(out)@.len(),
            final(out)@.subrange(0, len as int) == self.records@[i].value,
            final(out)@.subrange(len as int, old(out)@.len() as int) == old(out)@.subrange(
                len as int,
                old(out)@.len() as int,
            ),
    {
        let len = self.value_len_at(offset, Ghost(i));
        proof {
            reveal(laid_out);
            let r = self.records@[i];
            lemma_decode_encoded(self.data@, offset as int, r.key, r.value);
            lemma_record_size(r.value.len());
        }
        copy_value(self.data.as_slice(), offset, len, out);
        len
    }
}

} // verus!
