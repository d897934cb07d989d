//! The store itself: it ties the index, the per-socket logs and the
//! compactor together behind PUT, GET and DEL.

use crate::nibble::common::ErrorCode;
use crate::nibble::epoch::{lemma_floor_grows, next_epoch, Epoch};
use crate::nibble::index::{
    entry_address, entry_of, entry_socket, extract, lemma_extract_merge, merge, Index, IndexEntry,
    ADDRESS_LIMIT, STASH_CAPACITY,
};
use crate::nibble::liveness::{
    is_live, lemma_live_sum_change, lemma_live_sum_covers, lemma_live_sum_prefix, live_sum,
    same_but, Location,
};
use crate::nibble::log::{carried, live_of, records_of, Log, Placement};
use crate::nibble::manager::{after_reclaim, Ratio};
use crate::nibble::model::{del_outcome, spec_del, spec_get, spec_put};
use crate::nibble::record::{record_size, size_of_record, VALUE_LIMIT};
use crate::nibble::region::Region;
use crate::nibble::segment::{Record, Segment, SegmentState};
use vstd::prelude::*;

verus! {

/// Bytes per segment unless configured otherwise: 32 MiB.
pub const SEGMENT_SIZE: usize = 0x200_0000;

/// The largest number of sockets: what the socket field of an index entry
/// can tell apart.
pub const SOCKET_LIMIT: usize = 0x1_0000;

/// What the store is built from.
#[derive(Clone, Copy, Debug)]
pub struct Config {
    /// Bytes of log memory, shared out evenly among the sockets.
    pub total_bytes: usize,
    /// Cells of the index; it never grows.
    pub index_capacity: usize,
    /// Bytes per segment: a power of two.
    pub segment_size: usize,
    /// The dead ratio above which a closed segment is compacted.
    pub compaction_threshold: Ratio,
    /// Compactor workers that the owner of the store runs per socket.
    pub compactor_threads_per_socket: usize,
    /// The longest value that PUT accepts.
    pub max_value_len: usize,
}

/// Whether `n` is a power of two.
pub open spec fn power_of_two(n: usize) -> bool {
    n > 0 && n & ((n - 1) as usize) == 0
}

fn is_power_of_two(n: usize) -> (yes: bool)
    ensures
        yes == power_of_two(n),
{
    n > 0 && n & (n - 1) == 0
}

impl Config {
    /// The configuration with the defaults: segments of 32 MiB, a
    /// compaction threshold of one half, one compactor per socket, and
    /// values as long as a segment can hold.
    pub open spec fn defaults(total_bytes: usize, index_capacity: usize) -> Config {
        Config {
            total_bytes,
            index_capacity,
            segment_size: SEGMENT_SIZE,
            compaction_threshold: Ratio { num: 1, den: 2 },
            compactor_threads_per_socket: 1,
            max_value_len: (SEGMENT_SIZE - 12) as usize,
        }
    }

    /// The configuration with the defaults.
    #[verifier::when_used_as_spec(defaults)]
    pub fn new(total_bytes: usize, index_capacity: usize) -> (config: Config)
        ensures
            config == Config::defaults(total_bytes, index_capacity),
    {
        Config {
            total_bytes,
            index_capacity,
            segment_size: SEGMENT_SIZE,
            compaction_threshold: Ratio { num: 1, den: 2 },
            compactor_threads_per_socket: 1,
            max_value_len: SEGMENT_SIZE - 12,
        }
    }

    /// Blocks of log memory that each of `sockets` sockets gets.
    pub open spec fn blocks_per_socket(&self, sockets: usize) -> int {
        (self.total_bytes as int / sockets as int) / self.segment_size as int
    }

    /// Whether a store for `sockets` sockets can be built from this: there
    /// are between one and 65536 sockets; the segment size is a power of
    /// two of at least 16; the threshold is a fraction of at most one;
    /// the longest value is not empty and fits in a segment; the log
    /// memory and one more segment fit in the 48 bits of an address; and
    /// the index has at least a cell per socket.
    pub open spec fn valid(&self, sockets: usize) -> bool {
        &&& 1 <= sockets <= SOCKET_LIMIT
        &&& self.segment_size >= 16
        &&& power_of_two(self.segment_size)
        &&& self.compaction_threshold.den > 0
        &&& self.compaction_threshold.num <= self.compaction_threshold.den
        &&& 1 <= self.max_value_len <= VALUE_LIMIT
        &&& self.max_value_len + 12 <= self.segment_size
        &&& self.total_bytes + self.segment_size <= ADDRESS_LIMIT
        &&& sockets <= self.index_capacity
        &&& self.index_capacity + STASH_CAPACITY <= usize::MAX
    }

    /// Whether a store for `sockets` sockets can be built from this.
    pub fn is_valid(&self, sockets: usize) -> (yes: bool)
        ensures
            yes == self.valid(sockets),
    {
        1 <= sockets && sockets <= SOCKET_LIMIT && self.segment_size >= 16 && is_power_of_two(
            self.segment_size,
        ) && self.compaction_threshold.den > 0 && self.compaction_threshold.num
            <= self.compaction_threshold.den && 1 <= self.max_value_len && self.max_value_len
            <= VALUE_LIMIT && self.max_value_len <= self.segment_size - 12
            && self.segment_size as u64 <= ADDRESS_LIMIT && self.total_bytes as u64
            <= ADDRESS_LIMIT - self.segment_size as u64 && sockets <= self.index_capacity
            && self.index_capacity <= usize::MAX - STASH_CAPACITY
    }
}

/// A power of two that is at least 16 is a multiple of the record
/// alignment.
pub proof fn lemma_power_of_two_aligned(segment_size: usize)
    requires
        segment_size >= 16,
        power_of_two(segment_size),
    ensures
        segment_size % 8 == 0,
{
    assert(segment_size >= 16 && segment_size & ((segment_size - 1) as usize) == 0
        ==> segment_size % 8 == 0) by (bit_vector);
}

/// A value that leaves room for the header in a segment whose size is a
/// multiple of the record alignment fits in the segment as a record.
pub proof fn lemma_aligned_fits(segment_size: nat, len: nat)
    requires
        segment_size % 8 == 0,
        len + 12 <= segment_size,
    ensures
        record_size(len) <= segment_size,
{
    let blocks = segment_size / 8;
    assert(segment_size == 8 * blocks);
    assert((len + 12 + 7) / 8 <= blocks);
}

/// A value that leaves room for the header in a segment fits in the
/// segment as a record.
pub proof fn lemma_value_fits(segment_size: usize, len: nat)
    requires
        segment_size >= 16,
        power_of_two(segment_size),
        len + 12 <= segment_size,
    ensures
        segment_size % 8 == 0,
        record_size(len) <= segment_size,
{
    lemma_power_of_two_aligned(segment_size);
    lemma_aligned_fits(segment_size as nat, len);
}

/// An object to store: a key and the bytes of its value.
pub struct ObjDesc<'a> {
    pub key: u64,
    pub value: &'a [u8],
}

impl<'a> ObjDesc<'a> {
    /// Describes the object of `key` and `value`.
    pub fn new(key: u64, value: &'a [u8]) -> (obj: ObjDesc<'a>)
        ensures
            obj.key == key,
            obj.value@ == value@,
    {
        ObjDesc { key, value }
    }

    /// Length of the value.
    pub fn len(&self) -> (n: usize)
        ensures
            n == self.value@.len(),
    {
        self.value.len()
    }
}

/// Where PUT stores an object.
#[derive(Clone, Copy, Debug)]
pub enum PutPolicy {
    /// On the socket of this number.
    Specific(usize),
    /// On the socket of the caller. The store does not know it and
    /// places the object as `Balanced` does.
    Local,
    /// On a socket drawn uniformly at random.
    Balanced,
}

/// The socket a policy selects among `sockets` sockets, given a number
/// `draw` drawn at random. A specific socket is selected as it is, whether
/// it exists or not.
pub open spec fn spec_resolve(policy: PutPolicy, sockets: usize, draw: u64) -> usize {
    match policy {
        PutPolicy::Specific(socket) => socket,
        _ => if sockets > 0 {
            (draw as int % sockets as int) as usize
        } else {
            0
        },
    }
}

/// The socket a policy selects among `sockets` sockets, given a number
/// `draw` drawn at random.
pub fn resolve(policy: PutPolicy, sockets: usize, draw: u64) -> (socket: usize)
    ensures
        socket == spec_resolve(policy, sockets, draw),
        !(policy is Specific) && sockets > 0 ==> socket < sockets,
{
    match policy {
        PutPolicy::Specific(socket) => socket,
        _ => if sockets > 0 {
            (draw % (sockets as u64)) as usize
        } else {
            0
        },
    }
}

/// Draws a number with `rand::random`, which takes it from the generator
/// of the calling thread. Nothing is claimed of the number.
#[verifier::external_body]
fn draw() -> (number: u64) {
    rand::random::<u64>()
}

/// The store: an index from keys to records, and one log per socket that
/// holds the records.
pub struct LSM {
    pub config: Config,
    pub index: Index,
    /// One log per socket.
    pub logs: Vec<Log>,
    /// Per socket, whether compaction is enabled.
    pub compacting: Vec<bool>,
    pub epoch: Epoch,
    /// For every key of the index, the place of the record that its entry
    /// refers to.
    pub places: Ghost<Map<u64, Location>>,
}

impl View for LSM {
    type V = Map<u64, Seq<u8>>;

    /// The mapping from keys to values that GET observes.
    open spec fn view(&self) -> Map<u64, Seq<u8>> {
        Map::new(
            |k: u64| self.places@.contains_key(k),
            |k: u64| self.record_at(self.places@[k]).value,
        )
    }
}

/// The bytes that the segment at `socket` and `slot` counts as live beyond
/// those of its live records, while an operation is under way.
pub open spec fn owed(owing: Option<(int, int, int)>, socket: int, slot: int) -> int {
    match owing {
        Some((s, j, amount)) => if s == socket && j == slot {
            amount
        } else {
            0
        },
        None => 0,
    }
}

/// Whether two states of a segment have the same records, the same live
/// bytes and the same address.
pub open spec fn same_content(before: Segment, after: Segment) -> bool {
    &&& after.records@ == before.records@
    &&& after.live_bytes == before.live_bytes
    &&& after.base_addr == before.base_addr
}

/// Whether two states of the store have the same sockets and the same
/// blocks.
pub open spec fn same_shape(before: LSM, after: LSM) -> bool {
    &&& after.logs@.len() == before.logs@.len()
    &&& forall|s: int|
        0 <= s < before.logs@.len() ==> (#[trigger] after.logs@[s]).manager.blocks()
            == before.logs@[s].manager.blocks()
}

/// Whether two states of the store count the same dead bytes in every
/// block.
pub open spec fn dead_kept(before: LSM, after: LSM) -> bool {
    forall|s: int, j: int| #[trigger] after.dead_in(s, j) == before.dead_in(s, j)
}

/// Whether two states of the store count the same dead bytes in every
/// block but block `slot` of `socket`.
pub open spec fn dead_kept_but(before: LSM, after: LSM, socket: int, slot: int) -> bool {
    forall|s: int, j: int|
        s != socket || j != slot ==> #[trigger] after.dead_in(s, j) == before.dead_in(s, j)
}

impl LSM {
    /// The dead bytes that the segment in block `j` of socket `s` counts;
    /// none for a block without a segment.
    pub open spec fn dead_in(&self, s: int, j: int) -> int {
        if self.has_segment(s, j) {
            self.segment(s, j).dead_bytes as int
        } else {
            0
        }
    }

    /// The dead bytes that the segments in the first `n` blocks of socket
    /// `s` count.
    pub open spec fn dead_on(&self, s: int, n: int) -> int
        decreases n,
    {
        if n <= 0 {
            0
        } else {
            self.dead_on(s, n - 1) + self.dead_in(s, n - 1)
        }
    }

    /// Two states that count the same dead bytes in every block of a
    /// socket but one differ in the dead bytes of the socket by what they
    /// count in that block.
    pub proof fn lemma_dead_on_change(self, before: LSM, s: int, v: int, n: int)
        requires
            dead_kept_but(before, self, s, v),
            0 <= n,
        ensures
            self.dead_on(s, n) - (if 0 <= v < n {
                self.dead_in(s, v)
            } else {
                0
            }) == before.dead_on(s, n) - (if 0 <= v < n {
                before.dead_in(s, v)
            } else {
                0
            }),
        decreases n,
    {
        if n > 0 {
            self.lemma_dead_on_change(before, s, v, n - 1);
            if n - 1 != v {
                assert(self.dead_in(s, n - 1) == before.dead_in(s, n - 1));
            }
        }
    }

    /// Whether the log of socket `s` can take no record: it has no head
    /// segment and cannot open one.
    pub open spec fn jammed(&self, s: int) -> bool {
        self.logs@[s].head is None && !self.logs@[s].manager.can_alloc()
    }

    /// The dead bytes of a socket are not negative.
    pub proof fn lemma_dead_on_bounds(self, s: int, n: int)
        ensures
            0 <= self.dead_on(s, n),
        decreases n,
    {
        if n > 0 {
            self.lemma_dead_on_bounds(s, n - 1);
        }
    }

    /// Number of sockets.
    pub open spec fn sockets(&self) -> nat {
        self.logs@.len()
    }

    /// Whether block `j` of socket `s` holds a segment.
    pub open spec fn has_segment(&self, s: int, j: int) -> bool {
        0 <= s < self.logs@.len() && self.logs@[s].manager.occupied(j)
    }

    /// The segment in block `j` of socket `s`.
    pub open spec fn segment(&self, s: int, j: int) -> Segment {
        self.logs@[s].manager.segment(j)
    }

    /// The record at a place.
    pub open spec fn record_at(&self, at: Location) -> Record {
        self.segment(at.socket, at.slot).records@[at.record]
    }

    /// Whether `at` is the place of a record of `key` in a segment that is
    /// not retired.
    pub open spec fn holds(&self, at: Location, key: u64) -> bool {
        &&& self.has_segment(at.socket, at.slot)
        &&& self.segment(at.socket, at.slot).state != SegmentState::Retired
        &&& 0 <= at.record < self.segment(at.socket, at.slot).records@.len()
        &&& self.record_at(at).key == key
    }

    /// The index entry that refers to the record at a place.
    pub open spec fn entry_for(&self, at: Location) -> int {
        entry_of(
            at.socket as u16,
            (self.segment(at.socket, at.slot).base_addr + self.record_at(at).offset) as u64,
        )
    }

    /// Whether the entry of `key` refers to a record of `key` in a segment
    /// that is not retired.
    pub open spec fn placed(&self, key: u64) -> bool {
        &&& self.holds(self.places@[key], key)
        &&& self.index@.contains_key(key)
        &&& self.index@[key] == self.entry_for(self.places@[key])
    }

    /// Whether the live bytes of the segment in block `j` of socket `s`
    /// are those of the records that the index refers to, and what is
    /// owed.
    pub open spec fn accounted(&self, s: int, j: int, owing: Option<(int, int, int)>) -> bool {
        self.segment(s, j).live_bytes == live_sum(
            self.segment(s, j).records@,
            self.places@,
            s,
            j,
            self.segment(s, j).records@.len() as int,
        ) + owed(owing, s, j)
    }

    /// The parts of the store are well formed and fit together: the
    /// configuration is valid; the index has one partition per socket; and
    /// there is one log per socket, with segments of the configured size.
    pub open spec fn grounded(&self) -> bool {
        &&& self.logs@.len() <= SOCKET_LIMIT
        &&& self.config.valid(self.logs@.len() as usize)
        &&& self.index.wf()
        &&& self.index.partition_count() == self.logs@.len()
        &&& self.compacting@.len() == self.logs@.len()
        &&& forall|s: int|
            0 <= s < self.logs@.len() ==> {
                &&& (#[trigger] self.logs@[s]).wf()
                &&& self.logs@[s].manager.region.socket == s
                &&& self.logs@[s].manager.region.block_size == self.config.segment_size
            }
    }

    /// The invariant of the store while an operation is under way. Every
    /// key of the index has a place, where a record of that key lies in a
    /// segment that is not retired, and its entry is that record's
    /// address. Every segment counts as live the bytes of the records that
    /// the index refers to; one segment may count `owing` more.
    pub open spec fn inv(&self, owing: Option<(int, int, int)>) -> bool {
        &&& self.grounded()
        &&& self.places@.dom() == self.index@.dom()
        &&& forall|k: u64| self.places@.contains_key(k) ==> #[trigger] self.placed(k)
        &&& forall|s: int, j: int| #[trigger]
            self.has_segment(s, j) ==> self.accounted(s, j, owing)
    }

    /// The invariant of the store between operations.
    pub open spec fn wf(&self) -> bool {
        self.inv(None)
    }

    /// Whether the store is as it is built from `config` for `sockets`
    /// sockets: well formed, without objects, at epoch zero, without
    /// registered threads, with compaction disabled everywhere; its index
    /// has one partition per socket and takes every key; and every log is
    /// without segments, all blocks of its region, which follows that of
    /// the socket before, being free.
    pub open spec fn fresh(&self, config: Config, sockets: usize) -> bool {
        &&& self.wf()
        &&& self@ == Map::<u64, Seq<u8>>::empty()
        &&& self.config == config
        &&& self.sockets() == sockets
        &&& self.epoch.global == 0
        &&& self.epoch.locals@ == Seq::<u64>::empty()
        &&& self.index@ == Map::<u64, u64>::empty()
        &&& self.index.partition_count() == sockets
        &&& self.index.capacity() == Index::cells(sockets, config.index_capacity)
        &&& forall|k: u64| self.index.accepts(k)
        &&& forall|s: int| 0 <= s < sockets ==> !(#[trigger] self.compacting@[s])
        &&& forall|s: int|
            0 <= s < sockets ==> {
                &&& (#[trigger] self.logs@[s]).head is None
                &&& self.logs@[s].manager.blocks() == config.blocks_per_socket(sockets)
                &&& self.logs@[s].manager.region.base == config.segment_size + s * (
                config.blocks_per_socket(sockets) * config.segment_size)
                &&& self.logs@[s].manager.free@.len() == config.blocks_per_socket(sockets)
                &&& self.logs@[s].manager.next_id == 0
            }
        &&& forall|s: int, j: int| !self.has_segment(s, j)
    }

    /// A store without objects, built from `config` for `sockets` sockets.
    /// The log memory is shared out evenly among the sockets, in whole
    /// segments. Fails with `InvalidArgument` when the configuration is
    /// not valid for that number of sockets.
    pub fn with_config(config: Config, sockets: usize) -> (made: Result<LSM, ErrorCode>)
        ensures
            made is Ok <==> config.valid(sockets),
            made matches Err(e) ==> e == ErrorCode::InvalidArgument,
            made matches Ok(lsm) ==> lsm.fresh(config, sockets),
    {
        if !config.is_valid(sockets) {
            return Err(ErrorCode::InvalidArgument);
        }
        let size = config.segment_size;
        let per_socket = config.total_bytes / sockets;
        let blocks = per_socket / size;
        assert(blocks * size <= per_socket && per_socket * sockets <= config.total_bytes)
            by (nonlinear_arith)
            requires
                blocks == per_socket / size,
                per_socket == config.total_bytes / sockets,
                size > 0,
                sockets > 0,
        ;
        let span = blocks * size;
        assert(sockets * span <= config.total_bytes) by (nonlinear_arith)
            requires
                span <= per_socket,
                per_socket * sockets <= config.total_bytes,
                sockets > 0,
        ;
        let mut logs: Vec<Log> = Vec::new();
        let mut compacting: Vec<bool> = Vec::new();
        let mut base: u64 = size as u64;
        let mut s: usize = 0;
        while s < sockets
            invariant
                s <= sockets <= SOCKET_LIMIT,
                size > 0,
                span == blocks * size,
                blocks == per_socket as int / size as int,
                base == size + s * span,
                base + (sockets - s) * span <= ADDRESS_LIMIT,
                logs@.len() == s,
                compacting@.len() == s,
                forall|i: int|
                    0 <= i < s ==> {
                        &&& (#[trigger] logs@[i]).wf()
                        &&& logs@[i].manager.region.socket == i
                        &&& logs@[i].manager.region.block_size == size
                        &&& logs@[i].manager.region.base == size + i * span
                        &&& logs@[i].head is None
                        &&& logs@[i].manager.blocks() == blocks
                        &&& logs@[i].manager.free@.len() == blocks
                        &&& logs@[i].manager.next_id == 0
                        &&& forall|j: int| 0 <= j < blocks ==> logs@[i].manager.slots@[j] is None
                    },
                forall|i: int| 0 <= i < s ==> !(#[trigger] compacting@[i]),
            decreases sockets - s,
        {
            assert((sockets - s) * span == (sockets - s - 1) * span + span) by (nonlinear_arith);
            assert((s + 1) * span == s * span + span) by (nonlinear_arith);
            assert(s * span >= 0) by (nonlinear_arith)
                requires
                    s >= 0,
                    span >= 0,
            ;
            assert((sockets - s - 1) * span >= 0) by (nonlinear_arith)
                requires
                    sockets - s - 1 >= 0,
                    span >= 0,
            ;
            let region = match Region::reserve(per_socket, s as u16, base, size) {
                Some(region) => region,
                None => {
                    return Err(ErrorCode::InvalidArgument);
                },
            };
            logs.push(Log::new(region));
            compacting.push(false);
            base = base + span as u64;
            s = s + 1;
        }
        let index = Index::new(sockets, config.index_capacity);
        let lsm = LSM {
            config,
            index,
            logs,
            compacting,
            epoch: Epoch::new(),
            places: Ghost(Map::empty()),
        };
        proof {
            assert(lsm@ =~= Map::<u64, Seq<u8>>::empty());
            assert(lsm.places@.dom() =~= lsm.index@.dom());
            assert forall|s: int, j: int| !lsm.has_segment(s, j) by {
                if 0 <= s < lsm.logs@.len() {
                    assert(lsm.logs@[s].wf());
                }
            }
        }
        Ok(lsm)
    }

    /// A store without objects and with the default configuration, for
    /// `sockets` sockets, with `total_bytes` bytes of log memory in all and
    /// an index of `index_capacity` cells.
    pub fn new(total_bytes: usize, index_capacity: usize, sockets: usize) -> (made: Result<
        LSM,
        ErrorCode,
    >)
        ensures
            made is Ok <==> Config::new(total_bytes, index_capacity).valid(sockets),
            made matches Err(e) ==> e == ErrorCode::InvalidArgument,
            made matches Ok(lsm) ==> lsm.fresh(Config::new(total_bytes, index_capacity), sockets),
    {
        LSM::with_config(Config::new(total_bytes, index_capacity), sockets)
    }

    /// The place that the index gives `key`, as what a segment is owed
    /// once the entry of `key` has moved on: the bytes of the record there.
    pub open spec fn debt_of(&self, key: u64) -> Option<(int, int, int)> {
        if self.places@.contains_key(key) {
            let at = self.places@[key];
            Some((at.socket, at.slot, self.record_at(at).size() as int))
        } else {
            None
        }
    }

    /// The invariant survives a change of the segments that keeps, for
    /// every segment, its records, its live bytes and its address, and
    /// that retires or removes only segments without live records. New
    /// segments start without records.
    pub proof fn lemma_frame(self, before: LSM, owing: Option<(int, int, int)>)
        requires
            before.inv(owing),
            self.grounded(),
            self.index@ == before.index@,
            self.places@ == before.places@,
            self.logs@.len() == before.logs@.len(),
            forall|s: int, j: int| #[trigger]
                self.has_segment(s, j) ==> {
                    ||| (before.has_segment(s, j) && same_content(
                        before.segment(s, j),
                        self.segment(s, j),
                    ))
                    ||| (self.segment(s, j).records@.len() == 0 && self.segment(s, j).live_bytes
                        == 0 && owed(owing, s, j) == 0)
                },
            forall|s: int, j: int| #[trigger]
                before.has_segment(s, j) && before.segment(s, j).state != SegmentState::Retired
                    ==> {
                    ||| (self.has_segment(s, j) && self.segment(s, j).state
                        != SegmentState::Retired && same_content(
                        before.segment(s, j),
                        self.segment(s, j),
                    ))
                    ||| before.segment(s, j).live_bytes == owed(owing, s, j)
                },
        ensures
            self.inv(owing),
            self@ == before@,
    {
        assert forall|k: u64| self.places@.contains_key(k) implies #[trigger] self.placed(k)
            && self.record_at(self.places@[k]) == before.record_at(before.places@[k]) by {
            assert(before.placed(k));
            let at = before.places@[k];
            assert(before.has_segment(at.socket, at.slot));
            assert(before.accounted(at.socket, at.slot, owing));
            lemma_live_sum_covers(
                before.segment(at.socket, at.slot).records@,
                before.places@,
                at.socket,
                at.slot,
                before.segment(at.socket, at.slot).records@.len() as int,
                at.record,
            );
            assert(before.logs@[at.socket].wf());
            assert(before.logs@[at.socket].manager.occupied(at.slot));
            before.segment(at.socket, at.slot).lemma_record_within(at.record);
        }
        assert forall|s: int, j: int| #[trigger] self.has_segment(s, j) implies self.accounted(
            s,
            j,
            owing,
        ) by {
            if before.has_segment(s, j) && same_content(before.segment(s, j), self.segment(s, j)) {
                assert(before.accounted(s, j, owing));
            }
        }
        assert forall|k: u64| self@.contains_key(k) implies self@[k] == before@[k] by {
            assert(self.placed(k));
        }
        assert(self@ =~= before@);
    }

    /// What a change of the entry of one key does to the invariant. The
    /// entry moves on to the record at `to`, which no entry referred to
    /// and whose bytes its segment was owed, or it is removed. Afterwards
    /// the segment of the record that the entry referred to before is owed
    /// that record's bytes.
    pub proof fn lemma_repoint(self, before: LSM, key: u64, to: Option<Location>)
        requires
            match to {
                Some(at) => {
                    &&& before.inv(Some((at.socket, at.slot, before.record_at(at).size() as int)))
                    &&& before.holds(at, key)
                    &&& forall|k: u64|
                        before.places@.contains_key(k) ==> #[trigger] before.places@[k] != at
                    &&& self.places@ == before.places@.insert(key, at)
                    &&& self.index@ == before.index@.insert(key, before.entry_for(at) as u64)
                },
                None => {
                    &&& before.inv(None)
                    &&& self.places@ == before.places@.remove(key)
                    &&& self.index@ == before.index@.remove(key)
                },
            },
            self.logs == before.logs,
            self.config == before.config,
            self.compacting@ == before.compacting@,
            self.index.wf(),
            self.index.partition_count() == before.index.partition_count(),
        ensures
            self.inv(before.debt_of(key)),
            self@ == (match to {
                Some(at) => before@.insert(key, before.record_at(at).value),
                None => before@.remove(key),
            }),
    {
        let owing = match to {
            Some(at) => Some((at.socket, at.slot, before.record_at(at).size() as int)),
            None => None,
        };
        assert(before.inv(owing));
        assert(self.places@.dom() =~= self.index@.dom());
        assert(same_but(before.places@, self.places@, key));
        if before.places@.contains_key(key) {
            assert(before.placed(key));
        }
        if to is Some {
            before.lemma_entry_parts(to->0, key);
        }
        assert forall|k: u64| self.places@.contains_key(k) implies #[trigger] self.placed(k) by {
            if k != key {
                assert(before.places@.contains_key(k));
                assert(before.placed(k));
            }
        }
        assert forall|s: int, j: int| #[trigger] self.has_segment(s, j) implies self.accounted(
            s,
            j,
            before.debt_of(key),
        ) by {
            assert(before.has_segment(s, j));
            assert(before.accounted(s, j, owing));
            let records = self.segment(s, j).records@;
            lemma_live_sum_change(
                records,
                before.places@,
                self.places@,
                s,
                j,
                records.len() as int,
                key,
            );
        }
        assert(self@ =~= (match to {
            Some(at) => before@.insert(key, before.record_at(at).value),
            None => before@.remove(key),
        }));
    }

    /// The invariant after a record was appended to the segment in block
    /// `slot` of `socket` and counted as live there: that segment is owed
    /// the record's bytes until an entry refers to the record.
    pub proof fn lemma_grow(self, before: LSM, socket: int, slot: int, record: Record)
        requires
            before.inv(None),
            self.grounded(),
            self.index@ == before.index@,
            self.places@ == before.places@,
            self.logs@.len() == before.logs@.len(),
            self.has_segment(socket, slot),
            0 <= slot < before.logs@[socket].manager.blocks(),
            self.segment(socket, slot).state != SegmentState::Retired,
            self.segment(socket, slot).records@ == records_of(
                before.logs@[socket].manager.slots@[slot],
            ).push(record),
            self.segment(socket, slot).live_bytes == live_of(
                before.logs@[socket].manager.slots@[slot],
            ) + record.size(),
            before.has_segment(socket, slot) ==> before.segment(socket, slot).state
                != SegmentState::Retired && before.segment(socket, slot).base_addr
                == self.segment(socket, slot).base_addr,
            forall|s: int, j: int|
                (s != socket || j != slot) && #[trigger] self.has_segment(s, j)
                    ==> before.has_segment(s, j) && same_content(
                    before.segment(s, j),
                    self.segment(s, j),
                ),
            forall|s: int, j: int|
                (s != socket || j != slot) && #[trigger] before.has_segment(s, j)
                    && before.segment(s, j).state != SegmentState::Retired ==> self.has_segment(
                    s,
                    j,
                ) && self.segment(s, j).state != SegmentState::Retired,
        ensures
            self.inv(Some((socket, slot, record.size() as int))),
            self@ == before@,
            forall|k: u64|
                before.places@.contains_key(k) ==> #[trigger] before.places@[k] != (Location {
                    socket,
                    slot,
                    record: self.segment(socket, slot).records@.len() - 1,
                }),
            self.holds(
                Location { socket, slot, record: self.segment(socket, slot).records@.len() - 1 },
                record.key,
            ),
            self.record_at(
                Location { socket, slot, record: self.segment(socket, slot).records@.len() - 1 },
            ) == record,
    {
        let old_records = records_of(before.logs@[socket].manager.slots@[slot]);
        let n = old_records.len() as int;
        let at = Location { socket, slot, record: n };
        let owing = Some((socket, slot, record.size() as int));
        assert forall|k: u64| before.places@.contains_key(k) implies #[trigger] before.places@[k]
            != at by {
            assert(before.placed(k));
        }
        assert forall|k: u64| self.places@.contains_key(k) implies #[trigger] self.placed(k)
            && self.record_at(self.places@[k]) == before.record_at(before.places@[k]) by {
            assert(before.placed(k));
            let p = before.places@[k];
            assert(before.has_segment(p.socket, p.slot));
            if p.socket == socket && p.slot == slot {
                assert(self.segment(socket, slot).records@[p.record] == old_records[p.record]);
            } else {
                assert(self.has_segment(p.socket, p.slot));
            }
        }
        assert forall|s: int, j: int| #[trigger] self.has_segment(s, j) implies self.accounted(
            s,
            j,
            owing,
        ) by {
            if s == socket && j == slot {
                let records = self.segment(s, j).records@;
                lemma_live_sum_prefix(old_records, records, self.places@, s, j, n);
                if before.has_segment(s, j) {
                    assert(before.accounted(s, j, None));
                } else {
                    assert(old_records.len() == 0);
                }
                if self.places@.contains_key(record.key) {
                    assert(before.places@[record.key] != at);
                }
                assert(!is_live(self.places@, at, records[n].key));
                assert(live_sum(records, self.places@, s, j, n + 1) == live_sum(
                    records,
                    self.places@,
                    s,
                    j,
                    n,
                ));
            } else {
                assert(before.has_segment(s, j));
                assert(before.accounted(s, j, None));
            }
        }
        assert forall|k: u64| self@.contains_key(k) implies self@[k] == before@[k] by {
            assert(self.placed(k));
        }
        assert(self@ =~= before@);
    }

    /// The index refers to the record at `at` exactly if the entry of the
    /// record's key is the record's address.
    pub proof fn lemma_owner(self, at: Location, key: u64)
        requires
            self.wf(),
            self.holds(at, key),
        ensures
            is_live(self.places@, at, key) <==> (self.index@.contains_key(key) && self.index@[key]
                == self.entry_for(at)),
    {
        if self.index@.contains_key(key) && self.index@[key] == self.entry_for(at) {
            assert(self.places@.contains_key(key));
            assert(self.placed(key));
            let p = self.places@[key];
            self.lemma_entry_parts(at, key);
            self.lemma_entry_parts(p, key);
            let manager = self.logs@[at.socket].manager;
            crate::nibble::region::lemma_block_unique(
                at.slot,
                self.record_at(at).offset as int,
                p.slot,
                self.record_at(p).offset as int,
                manager.region.block_size as int,
            );
            self.segment(at.socket, at.slot).lemma_records_apart(at.record, p.record);
        }
        if is_live(self.places@, at, key) {
            assert(self.placed(key));
        }
    }

    /// The entry of a record names the record's socket and an address in
    /// the block of the record's segment.
    pub proof fn lemma_entry_parts(self, at: Location, key: u64)
        requires
            self.grounded(),
            self.holds(at, key),
        ensures
            0 <= at.socket < self.sockets(),
            0 <= at.slot < self.logs@[at.socket].manager.blocks(),
            0 <= self.entry_for(at) <= u64::MAX,
            entry_socket(self.entry_for(at) as u64) == at.socket,
            entry_address(self.entry_for(at) as u64) == self.segment(at.socket, at.slot).base_addr
                + self.record_at(at).offset,
            self.segment(at.socket, at.slot).base_addr == self.logs@[at.socket].manager.slot_base(
                at.slot,
            ),
            self.record_at(at).offset < self.logs@[at.socket].manager.region.block_size,
            self.segment(at.socket, at.slot).wf(),
    {
        let segment = self.segment(at.socket, at.slot);
        let manager = self.logs@[at.socket].manager;
        assert(self.logs@[at.socket].wf());
        assert(manager.occupied(at.slot));
        segment.lemma_record_within(at.record);
        lemma_extract_merge(
            at.socket as u16,
            (segment.base_addr + segment.records@[at.record].offset) as u64,
        );
    }

    /// Finds the socket, the block and the offset in the block of the
    /// record that `entry` refers to.
    pub(crate) fn locate(
        &self,
        entry: IndexEntry,
        Ghost(at): Ghost<Location>,
        Ghost(key): Ghost<u64>,
    ) -> (found: (usize, usize, usize))
        requires
            self.grounded(),
            self.holds(at, key),
            entry == self.entry_for(at),
        ensures
            found.0 == at.socket,
            found.1 == at.slot,
            found.2 == self.record_at(at).offset,
    {
        let (socket, address) = extract(entry);
        proof {
            self.lemma_entry_parts(at, key);
            assert(self.logs@[at.socket].wf());
        }
        let found = self.logs[socket as usize].manager.locate(address);
        proof {
            let manager = self.logs@[at.socket].manager;
            crate::nibble::region::lemma_block_within(
                at.slot,
                manager.blocks() as int,
                manager.region.block_size as int,
            );
            assert(found is Some);
            let pair = found.unwrap();
            crate::nibble::region::lemma_block_unique(
                pair.0 as int,
                pair.1 as int,
                at.slot,
                self.record_at(at).offset as int,
                manager.region.block_size as int,
            );
        }
        match found {
            Some((slot, offset)) => (socket as usize, slot, offset),
            None => (0, 0, 0),
        }
    }

    /// Whether two states of the store give the log of socket `s` the
    /// same room: the head segment can take as much in the second as in
    /// the first, and a segment can be opened in the second whenever one
    /// can in the first.
    pub open spec fn steady(&self, before: LSM, s: int) -> bool {
        &&& self.logs@[s].head_room() == before.logs@[s].head_room()
        &&& forall|now: u64|
            before.logs@[s].blocks_at(now) ==> #[trigger] self.logs@[s].blocks_at(now)
    }

    /// Whether records that take `budget` bytes in all can be stored on
    /// `socket` from the next epoch on, whatever their number and their
    /// sizes, without memory running out.
    pub open spec fn holds_room(&self, socket: int, budget: int) -> bool {
        self.logs@[socket].holds_room(budget, self.epoch.next_horizon())
    }

    /// Whether a record of `size` bytes can be appended on `socket` at
    /// epoch `now`: the head segment has room for it, or a segment can be
    /// opened in a block that is free or that is handed back then.
    pub open spec fn room_at(&self, socket: int, size: nat, now: u64) -> bool {
        let log = self.logs@[socket];
        ||| (log.head matches Some(h) && log.manager.segment(h as int).head_offset() + size
            <= log.manager.region.block_size)
        ||| ((log.manager.free@.len() > 0 || log.manager.reclaimable(now)) && log.manager.next_id
            < u64::MAX)
    }

    /// Whether a record of `size` bytes can be appended on `socket` in the
    /// next epoch.
    pub open spec fn room_on(&self, socket: int, size: nat) -> bool {
        self.room_at(socket, size, self.epoch.next_horizon())
    }

    /// Moves on to the next epoch and hands back to the pool of `socket`
    /// the blocks of its retired segments whose grace period is over.
    pub(crate) fn refresh(&mut self, socket: usize)
        requires
            old(self).wf(),
            socket < old(self).sockets(),
        ensures
            final(self).wf(),
            final(self)@ == old(self)@,
            final(self).index == old(self).index,
            final(self).places == old(self).places,
            final(self).config == old(self).config,
            final(self).compacting == old(self).compacting,
            final(self).sockets() == old(self).sockets(),
            same_shape(*old(self), *final(self)),
            final(self).epoch.global == next_epoch(old(self).epoch.global),
            final(self).epoch.locals == old(self).epoch.locals,
            dead_kept(*old(self), *final(self)),
            forall|size: nat|
                final(self).logs@[socket as int].has_room(size) == old(self).room_on(
                    socket as int,
                    size,
                ),
            forall|s: int, j: int| #[trigger]
                old(self).has_segment(s, j) && old(self).segment(s, j).state
                    != SegmentState::Retired ==> final(self).has_segment(s, j) && final(self).segment(
                    s,
                    j,
                ) == old(self).segment(s, j),
            forall|s: int, j: int| #[trigger]
                final(self).has_segment(s, j) ==> old(self).has_segment(s, j) && final(self).segment(
                    s,
                    j,
                ) == old(self).segment(s, j),
    {
        self.epoch.advance();
        let ghost middle = *self;
        proof {
            self.lemma_frame(*old(self), None);
        }
        self.reclaim_on(socket);
        proof {
            assert forall|s: int, j: int| #[trigger] self.dead_in(s, j) == old(self).dead_in(
                s,
                j,
            ) by {
                assert(self.dead_in(s, j) == middle.dead_in(s, j));
            }
            assert forall|s: int, j: int| #[trigger]
                old(self).has_segment(s, j) && old(self).segment(s, j).state
                    != SegmentState::Retired implies self.has_segment(s, j) && self.segment(s, j)
                == old(self).segment(s, j) by {
                assert(middle.has_segment(s, j));
            }
            assert forall|s: int, j: int| #[trigger] self.has_segment(s, j) implies old(
                self,
            ).has_segment(s, j) && self.segment(s, j) == old(self).segment(s, j) by {
                assert(middle.has_segment(s, j));
            }
            assert forall|s: int|
                0 <= s < old(self).logs@.len() implies (#[trigger] self.logs@[s]).manager.blocks()
                == old(self).logs@[s].manager.blocks() by {
                assert(middle.logs@[s].manager.blocks() == old(self).logs@[s].manager.blocks());
            }
        }
    }

    /// Moves on to the next epoch and, if a record of `need` bytes has no
    /// room on `socket` otherwise, hands back to the pool of the socket
    /// the blocks of its retired segments whose grace period is over.
    pub(crate) fn refresh_for(&mut self, socket: usize, need: usize)
        requires
            old(self).wf(),
            socket < old(self).sockets(),
        ensures
            final(self).wf(),
            final(self)@ == old(self)@,
            final(self).index == old(self).index,
            final(self).places == old(self).places,
            final(self).config == old(self).config,
            final(self).compacting == old(self).compacting,
            final(self).sockets() == old(self).sockets(),
            same_shape(*old(self), *final(self)),
            final(self).epoch.global == next_epoch(old(self).epoch.global),
            final(self).epoch.locals == old(self).epoch.locals,
            final(self).logs@[socket as int].has_room(need as nat) == old(self).room_on(
                socket as int,
                need as nat,
            ),
            final(self).logs@[socket as int].head_has_room(need as nat) == old(
                self,
            ).logs@[socket as int].head_has_room(need as nat),
            final(self).steady(*old(self), socket as int),
    {
        self.epoch.advance();
        let ghost middle = *self;
        proof {
            self.lemma_frame(*old(self), None);
            assert(self.logs@[socket as int].wf());
        }
        if !self.logs[socket].head_fits(need) && self.logs[socket].manager.free.len() == 0 {
            self.reclaim_on(socket);
            proof {
                assert forall|now: u64|
                    old(self).logs@[socket as int].blocks_at(
                        now,
                    ) implies #[trigger] self.logs@[socket as int].blocks_at(now) by {
                    assert(middle.logs@[socket as int].blocks_at(now));
                }
                assert forall|s: int|
                    0 <= s < old(self).logs@.len() implies (
                #[trigger] self.logs@[s]).manager.blocks() == old(self).logs@[s].manager.blocks() by {
                    assert(middle.logs@[s].manager.blocks() == old(self).logs@[s].manager.blocks());
                }
            }
        }
    }

    /// Hands back to the pool of `socket` the blocks of its retired
    /// segments whose grace period is over.
    pub(crate) fn reclaim_on(&mut self, socket: usize)
        requires
            old(self).wf(),
            socket < old(self).sockets(),
        ensures
            final(self).wf(),
            final(self)@ == old(self)@,
            final(self).index == old(self).index,
            final(self).places == old(self).places,
            final(self).config == old(self).config,
            final(self).compacting == old(self).compacting,
            final(self).epoch == old(self).epoch,
            final(self).sockets() == old(self).sockets(),
            same_shape(*old(self), *final(self)),
            dead_kept(*old(self), *final(self)),
            !final(self).logs@[socket as int].manager.reclaimable(final(self).epoch.spec_horizon()),
            final(self).logs@[socket as int].head == old(self).logs@[socket as int].head,
            final(self).steady(*old(self), socket as int),
            forall|size: nat|
                final(self).logs@[socket as int].head_has_room(size) == old(
                    self,
                ).logs@[socket as int].head_has_room(size),
            forall|s: int|
                0 <= s < old(self).sockets() && s != socket ==> #[trigger] final(self).logs@[s]
                    == old(self).logs@[s],
            forall|size: nat|
                final(self).logs@[socket as int].has_room(size) == old(self).room_at(
                    socket as int,
                    size,
                    old(self).epoch.spec_horizon(),
                ),
            forall|s: int, j: int| #[trigger]
                old(self).has_segment(s, j) && old(self).segment(s, j).state
                    != SegmentState::Retired ==> final(self).has_segment(s, j) && final(self).segment(
                    s,
                    j,
                ) == old(self).segment(s, j),
            forall|s: int, j: int| #[trigger]
                final(self).has_segment(s, j) ==> old(self).has_segment(s, j) && final(self).segment(
                    s,
                    j,
                ) == old(self).segment(s, j),
    {
        let now = self.epoch.horizon();
        assert(old(self).logs@[socket as int].wf());
        let _ = self.logs[socket].manager.reclaim(now);
        proof {
            let before = *old(self);
            let was = before.logs@[socket as int];
            let log = self.logs@[socket as int];
            assert(self.logs@ =~= before.logs@.update(socket as int, log));
            assert forall|j: int| #[trigger] log.manager.occupied(j) implies was.manager.occupied(j)
                && log.manager.segment(j) == was.manager.segment(j) by {
                assert(log.manager.slots@[j] == after_reclaim(was.manager.slots@[j], now));
            }
            assert forall|j: int|
                #[trigger] was.manager.occupied(j) && was.manager.segment(j).state
                    != SegmentState::Retired implies log.manager.occupied(j)
                && log.manager.segment(j) == was.manager.segment(j) by {
                assert(log.manager.slots@[j] == after_reclaim(was.manager.slots@[j], now));
            }
            assert(log.wf()) by {
                if log.head is Some {
                    assert(was.manager.occupied(log.head->0 as int));
                }
            }
            assert forall|s: int| 0 <= s < self.logs@.len() implies {
                &&& (#[trigger] self.logs@[s]).wf()
                &&& self.logs@[s].manager.region.socket == s
                &&& self.logs@[s].manager.region.block_size == self.config.segment_size
            } by {
                assert(before.logs@[s].wf());
            }
            assert forall|s: int, j: int| #[trigger] self.has_segment(s, j) implies before.has_segment(
                s,
                j,
            ) && self.segment(s, j) == before.segment(s, j) by {
                if s == socket {
                    assert(log.manager.occupied(j));
                }
            }
            assert forall|s: int, j: int|
                #[trigger] before.has_segment(s, j) && before.segment(s, j).state
                    != SegmentState::Retired implies self.has_segment(s, j) && self.segment(s, j)
                == before.segment(s, j) by {
                if s == socket {
                    assert(was.manager.occupied(j));
                }
            }
            self.lemma_frame(before, None);
            assert forall|moment: u64| was.blocks_at(moment) implies #[trigger] log.blocks_at(
                moment,
            ) by {
                if was.manager.free@.len() == 0 {
                    let w = choose|w: int| #[trigger]
                        was.manager.occupied(w) && was.manager.segment(w).state
                            == SegmentState::Retired && was.manager.segment(w).retire_epoch
                            <= moment;
                    assert(log.manager.slots@[w] == after_reclaim(was.manager.slots@[w], now));
                    if was.manager.segment(w).retire_epoch <= now {
                        assert(was.manager.reclaimable(now));
                    } else {
                        assert(log.manager.occupied(w));
                    }
                }
            }
            if log.head is Some {
                assert(was.manager.occupied(log.head->0 as int));
            }
            assert forall|s: int, j: int| #[trigger] self.dead_in(s, j) == before.dead_in(s, j) by {
                if before.has_segment(s, j) {
                    assert(before.logs@[s].wf());
                    assert(before.logs@[s].manager.occupied(j));
                }
                if self.has_segment(s, j) {
                    assert(before.has_segment(s, j));
                }
            }
        }
    }

    /// Appends the record of `key` and `value` to the log of `socket` and
    /// counts it as live, though no entry refers to it yet.
    pub(crate) fn append_record(&mut self, socket: usize, key: u64, value: &[u8]) -> (placed: Result<
        Placement,
        ErrorCode,
    >)
        requires
            old(self).wf(),
            socket < old(self).sockets(),
            1 <= value@.len() <= VALUE_LIMIT,
            record_size(value@.len()) <= old(self).config.segment_size,
        ensures
            final(self).grounded(),
            final(self)@ == old(self)@,
            final(self).index == old(self).index,
            final(self).places == old(self).places,
            final(self).config == old(self).config,
            final(self).compacting == old(self).compacting,
            final(self).epoch == old(self).epoch,
            final(self).sockets() == old(self).sockets(),
            same_shape(*old(self), *final(self)),
            placed is Ok <==> old(self).logs@[socket as int].has_room(record_size(value@.len())),
            dead_kept(*old(self), *final(self)),
            match placed {
                Ok(p) => {
                    let at = Location {
                        socket: socket as int,
                        slot: p.slot as int,
                        record: final(self).segment(socket as int, p.slot as int).records@.len()
                            - 1,
                    };
                    &&& final(self).inv(
                        Some((socket as int, p.slot as int, record_size(value@.len()) as int)),
                    )
                    &&& final(self).holds(at, key)
                    &&& final(self).record_at(at).value == value@
                    &&& final(self).logs@[socket as int].head_room() == (if old(
                        self,
                    ).logs@[socket as int].head_has_room(record_size(value@.len())) {
                        old(self).logs@[socket as int].head_room() - record_size(value@.len())
                    } else {
                        old(self).config.segment_size - record_size(value@.len())
                    })
                    &&& (old(self).logs@[socket as int].head_has_room(record_size(value@.len()))
                        ==> forall|now: u64|
                        old(self).logs@[socket as int].blocks_at(now) ==> #[trigger] final(self).logs@[socket
                            as int].blocks_at(now))
                    &&& p.address == final(self).segment(socket as int, p.slot as int).base_addr
                        + final(self).record_at(at).offset
                    &&& forall|k: u64|
                        old(self).places@.contains_key(k) ==> #[trigger] old(self).places@[k]
                            != at
                },
                Err(e) => e == ErrorCode::OutOfMemory && final(self).wf() && final(self).jammed(
                    socket as int,
                ),
            },
            forall|s: int, j: int| #[trigger]
                old(self).has_segment(s, j) && old(self).segment(s, j).state
                    != SegmentState::Open ==> final(self).has_segment(s, j) && final(self).segment(
                    s,
                    j,
                ) == old(self).segment(s, j),
    {
        proof {
            assert(self.logs@[socket as int].wf());
        }
        let placed = self.logs[socket].place(key, value);
        proof {
            let before = *old(self);
            let was = before.logs@[socket as int];
            let log = self.logs@[socket as int];
            assert(self.logs@ =~= before.logs@.update(socket as int, log));
            assert forall|s: int| 0 <= s < self.logs@.len() implies {
                &&& (#[trigger] self.logs@[s]).wf()
                &&& self.logs@[s].manager.region.socket == s
                &&& self.logs@[s].manager.region.block_size == self.config.segment_size
            } by {
                assert(before.logs@[s].wf());
            }
            assert forall|s: int, j: int|
                #[trigger] before.has_segment(s, j) && before.segment(s, j).state
                    != SegmentState::Open implies self.has_segment(s, j) && self.segment(s, j)
                == before.segment(s, j) by {
                if s == socket {
                    assert(was.manager.occupied(j));
                    if placed is Ok && placed->Ok_0.slot == j {
                    } else {
                        assert(carried(was.manager.slots@[j], log.manager.slots@[j]));
                    }
                }
            }
            assert forall|s: int, j: int| #[trigger] self.dead_in(s, j) == before.dead_in(s, j) by {
                if s == socket && 0 <= j < was.manager.blocks() {
                    if placed is Ok && placed->Ok_0.slot == j {
                    } else {
                        assert(carried(was.manager.slots@[j], log.manager.slots@[j]));
                    }
                }
            }
            match placed {
                Ok(p) => {
                    let segment = log.manager.segment(p.slot as int);
                    let record = Record {
                        offset: (p.address - segment.base_addr) as nat,
                        key,
                        value: value@,
                    };
                    assert(log.manager.occupied(p.slot as int));
                    if was.manager.occupied(p.slot as int) {
                        assert(was.manager.segment(p.slot as int).base_addr
                            == was.manager.slot_base(p.slot as int));
                    }
                    assert forall|s: int, j: int|
                        (s != socket || j != p.slot) && #[trigger] self.has_segment(
                            s,
                            j,
                        ) implies before.has_segment(s, j) && same_content(
                        before.segment(s, j),
                        self.segment(s, j),
                    ) by {
                        if s == socket {
                            assert(carried(was.manager.slots@[j], log.manager.slots@[j]));
                        }
                    }
                    assert forall|s: int, j: int|
                        (s != socket || j != p.slot) && #[trigger] before.has_segment(s, j)
                            && before.segment(s, j).state
                            != SegmentState::Retired implies self.has_segment(s, j)
                        && self.segment(s, j).state != SegmentState::Retired by {
                        if s == socket {
                            assert(carried(was.manager.slots@[j], log.manager.slots@[j]));
                        }
                    }
                    self.lemma_grow(before, socket as int, p.slot as int, record);
                },
                Err(e) => {
                    assert forall|s: int, j: int| #[trigger] self.has_segment(s, j) implies (
                    before.has_segment(s, j) && same_content(
                        before.segment(s, j),
                        self.segment(s, j),
                    )) by {
                        if s == socket {
                            assert(carried(was.manager.slots@[j], log.manager.slots@[j]));
                        }
                    }
                    assert forall|s: int, j: int|
                        #[trigger] before.has_segment(s, j) && before.segment(s, j).state
                            != SegmentState::Retired implies (self.has_segment(s, j)
                        && self.segment(s, j).state != SegmentState::Retired && same_content(
                        before.segment(s, j),
                        self.segment(s, j),
                    )) by {
                        if s == socket {
                            assert(carried(was.manager.slots@[j], log.manager.slots@[j]));
                        }
                    }
                    self.lemma_frame(before, None);
                },
            }
        }
        placed
    }

    /// Makes the entry of `key` refer to the record at `at`, which was
    /// appended and counted as live. Returns the entry that the key had.
    pub(crate) fn publish(
        &mut self,
        key: u64,
        entry: IndexEntry,
        Ghost(at): Ghost<Location>,
    ) -> (prior: Option<IndexEntry>)
        requires
            old(self).inv(Some((at.socket, at.slot, old(self).record_at(at).size() as int))),
            old(self).holds(at, key),
            entry == old(self).entry_for(at),
            old(self).index.accepts(key),
            forall|k: u64| old(self).places@.contains_key(k) ==> #[trigger] old(self).places@[k] != at,
        ensures
            final(self).inv(old(self).debt_of(key)),
            final(self)@ == old(self)@.insert(key, old(self).record_at(at).value),
            final(self).logs == old(self).logs,
            final(self).config == old(self).config,
            final(self).compacting == old(self).compacting,
            final(self).epoch == old(self).epoch,
            final(self).places@ == old(self).places@.insert(key, at),
            final(self).index@ == old(self).index@.insert(key, entry),
            prior == (if old(self).places@.contains_key(key) {
                Some(old(self).entry_for(old(self).places@[key]) as u64)
            } else {
                None
            }),
    {
        let prior = self.index.update(key, entry);
        self.places = Ghost(self.places@.insert(key, at));
        proof {
            if old(self).places@.contains_key(key) {
                assert(old(self).placed(key));
            }
            self.lemma_repoint(*old(self), key, Some(at));
        }
        prior
    }

    /// Makes the entry of `key` refer to the record at `at`, a copy of the
    /// record that the entry refers to, if the entry still is `expected`.
    /// Says whether it did.
    pub(crate) fn repoint(
        &mut self,
        key: u64,
        expected: IndexEntry,
        entry: IndexEntry,
        Ghost(at): Ghost<Location>,
    ) -> (swapped: bool)
        requires
            old(self).inv(Some((at.socket, at.slot, old(self).record_at(at).size() as int))),
            old(self).holds(at, key),
            entry == old(self).entry_for(at),
            old(self).places@.contains_key(key),
            expected == old(self).entry_for(old(self).places@[key]),
            forall|k: u64| old(self).places@.contains_key(k) ==> #[trigger] old(self).places@[k] != at,
        ensures
            swapped,
            final(self).inv(old(self).debt_of(key)),
            final(self)@ == old(self)@.insert(key, old(self).record_at(at).value),
            final(self).logs == old(self).logs,
            final(self).config == old(self).config,
            final(self).compacting == old(self).compacting,
            final(self).epoch == old(self).epoch,
            final(self).places@ == old(self).places@.insert(key, at),
    {
        assert(old(self).placed(key));
        let swapped = self.index.compare_and_swap(key, expected, entry);
        self.places = Ghost(self.places@.insert(key, at));
        proof {
            self.lemma_repoint(*old(self), key, Some(at));
        }
        swapped
    }

    /// Counts as dead the record that `entry` refers to, whose bytes its
    /// segment is owed.
    pub(crate) fn bury(&mut self, entry: IndexEntry, Ghost(at): Ghost<Location>, Ghost(key): Ghost<u64>)
        requires
            old(self).inv(Some((at.socket, at.slot, old(self).record_at(at).size() as int))),
            old(self).holds(at, key),
            entry == old(self).entry_for(at),
        ensures
            final(self).wf(),
            final(self)@ == old(self)@,
            final(self).index == old(self).index,
            final(self).places == old(self).places,
            final(self).config == old(self).config,
            final(self).compacting == old(self).compacting,
            final(self).epoch == old(self).epoch,
            final(self).sockets() == old(self).sockets(),
            same_shape(*old(self), *final(self)),
            old(self).record_at(at).size() <= old(self).segment(at.socket, at.slot).live_bytes,
            dead_kept_but(*old(self), *final(self), at.socket, at.slot),
            forall|s: int| 0 <= s < old(self).sockets() ==> #[trigger] final(self).steady(*old(self), s),
            forall|s: int, j: int| #[trigger]
                final(self).has_segment(s, j) <==> old(self).has_segment(s, j),
            forall|s: int, j: int|
                (s != at.socket || j != at.slot) && #[trigger] old(self).has_segment(s, j)
                    ==> final(self).segment(s, j) == old(self).segment(s, j),
            final(self).segment(at.socket, at.slot) == (Segment {
                live_bytes: (old(self).segment(at.socket, at.slot).live_bytes - old(self).record_at(
                    at,
                ).size()) as usize,
                dead_bytes: (old(self).segment(at.socket, at.slot).dead_bytes + old(self).record_at(
                    at,
                ).size()) as usize,
                ..old(self).segment(at.socket, at.slot)
            }),
    {
        let (socket, slot, offset) = self.locate(entry, Ghost(at), Ghost(key));
        proof {
            self.lemma_entry_parts(at, key);
            assert(self.logs@[socket as int].wf());
            assert(self.logs@[socket as int].manager.occupied(slot as int));
            assert(self.has_segment(at.socket, at.slot));
            assert(self.accounted(
                at.socket,
                at.slot,
                Some((at.socket, at.slot, self.record_at(at).size() as int)),
            ));
            lemma_live_sum_covers(
                self.segment(at.socket, at.slot).records@,
                self.places@,
                at.socket,
                at.slot,
                self.segment(at.socket, at.slot).records@.len() as int,
                0,
            );
        }
        let size = match &self.logs[socket].manager.slots[slot] {
            Some(segment) => segment.record_size_at(offset, Ghost(at.record)),
            None => 0,
        };
        self.logs[socket].manager.mark_dead(slot, size);
        proof {
            let before = *old(self);
            let was = before.logs@[socket as int];
            let log = self.logs@[socket as int];
            assert(self.logs@ =~= before.logs@.update(socket as int, log));
            assert(log.wf()) by {
                assert forall|j: int| #[trigger]
                    log.manager.occupied(j) && log.manager.segment(j).state
                        == SegmentState::Open implies (log.head matches Some(h) && h == j) by {
                    assert(was.manager.occupied(j));
                }
            }
            assert forall|s: int| 0 <= s < self.logs@.len() implies {
                &&& (#[trigger] self.logs@[s]).wf()
                &&& self.logs@[s].manager.region.socket == s
                &&& self.logs@[s].manager.region.block_size == self.config.segment_size
            } by {
                assert(before.logs@[s].wf());
            }
            assert forall|s: int, j: int| #[trigger]
                self.has_segment(s, j) <==> before.has_segment(s, j) by {}
            assert forall|k: u64| self.places@.contains_key(k) implies #[trigger] self.placed(
                k,
            ) by {
                assert(before.placed(k));
            }
            assert forall|s: int, j: int| #[trigger] self.has_segment(s, j) implies self.accounted(
                s,
                j,
                None,
            ) by {
                assert(before.has_segment(s, j));
                assert(before.accounted(
                    s,
                    j,
                    Some((at.socket, at.slot, before.record_at(at).size() as int)),
                ));
            }
            assert forall|k: u64| self@.contains_key(k) implies self@[k] == before@[k] by {
                assert(before.placed(k));
            }
            assert(self@ =~= before@);
            assert forall|s: int| 0 <= s < before.sockets() implies #[trigger] self.steady(
                before,
                s,
            ) by {
                if s == socket {
                    if log.head is Some {
                        assert(was.manager.occupied(log.head->0 as int));
                    }
                    assert forall|now: u64| was.blocks_at(now) implies #[trigger] log.blocks_at(
                        now,
                    ) by {
                        if was.manager.reclaimable(now) {
                            let w = choose|w: int| #[trigger]
                                was.manager.occupied(w) && was.manager.segment(w).state
                                    == SegmentState::Retired && was.manager.segment(w).retire_epoch
                                    <= now;
                            assert(log.manager.occupied(w));
                        }
                    }
                }
            }
        }
    }

    /// What PUT of a value of `len` bytes for `key` on `socket` answers:
    /// `InvalidArgument` for an empty value, `ValueTooLarge` for one
    /// longer than the configured maximum, `InvalidArgument` for a socket
    /// that does not exist, `Fatal` when the index cannot take the key,
    /// `OutOfMemory` when the log of the socket has no room for the
    /// record, and success otherwise.
    pub open spec fn put_outcome(&self, key: u64, len: nat, socket: usize) -> Result<
        (),
        ErrorCode,
    > {
        if len == 0 {
            Err(ErrorCode::InvalidArgument)
        } else if len > self.config.max_value_len {
            Err(ErrorCode::ValueTooLarge)
        } else if socket >= self.sockets() {
            Err(ErrorCode::InvalidArgument)
        } else if !self.index.accepts(key) {
            Err(ErrorCode::Fatal)
        } else if !self.room_on(socket as int, record_size(len)) {
            Err(ErrorCode::OutOfMemory)
        } else {
            Ok(())
        }
    }

    /// Stores `value` under `key` on `socket`: appends a record to the log
    /// of the socket, makes the index refer to it, and counts the record
    /// that the index referred to before, if any, as dead. When the log
    /// has no room, the compactor of the socket, if enabled, is given a
    /// round before the error is returned: unless nothing is worth
    /// compacting or the log is jammed, a segment is then retired, and
    /// its memory makes room once its grace period is over.
    pub fn put_on(&mut self, key: u64, value: &[u8], socket: usize) -> (put: Result<(), ErrorCode>)
        requires
            old(self).wf(),
        ensures
            final(self).wf(),
            final(self).config == old(self).config,
            final(self).compacting == old(self).compacting,
            final(self).epoch.locals@ == old(self).epoch.locals@,
            final(self).sockets() == old(self).sockets(),
            same_shape(*old(self), *final(self)),
            put == old(self).put_outcome(key, value@.len(), socket),
            final(self)@ == (if put is Ok {
                spec_put(old(self)@, key, value@)
            } else {
                old(self)@
            }),
            put == Err::<(), ErrorCode>(ErrorCode::OutOfMemory) ==> {
                ||| !final(self).compacting@[socket as int]
                ||| final(self).no_victim(socket as int)
                ||| final(self).jammed(socket as int)
                ||| final(self).relieved(socket as int)
            },
            put matches Err(e) && e != ErrorCode::OutOfMemory ==> *final(self) == *old(self),
            put is Ok ==> final(self).index@.contains_key(key) && entry_socket(
                final(self).index@[key],
            ) == socket && final(self).index@ == spec_put(
                old(self).index@,
                key,
                final(self).index@[key],
            ),
            forall|budget: int|
                #[trigger] old(self).holds_room(socket as int, budget) && record_size(value@.len())
                    <= budget ==> put != Err::<(), ErrorCode>(ErrorCode::OutOfMemory) && (put is Ok
                    ==> final(self).holds_room(
                    socket as int,
                    budget - record_size(value@.len()),
                )),
    {
        let len = value.len();
        if len == 0 {
            return Err(ErrorCode::InvalidArgument);
        }
        if len > self.config.max_value_len {
            return Err(ErrorCode::ValueTooLarge);
        }
        if socket >= self.logs.len() {
            return Err(ErrorCode::InvalidArgument);
        }
        if !self.index.can_accept(key) {
            return Err(ErrorCode::Fatal);
        }
        proof {
            lemma_value_fits(self.config.segment_size, value@.len());
        }
        self.refresh_for(socket, size_of_record(len));
        let ghost ready = *self;
        match self.append_record(socket, key, value) {
            Err(e) => {
                let _ = self.compact(socket);
                Err(e)
            },
            Ok(p) => {
                let ghost at = Location {
                    socket: socket as int,
                    slot: p.slot as int,
                    record: self.segment(socket as int, p.slot as int).records@.len() - 1,
                };
                let ghost before = *self;
                let entry = merge(socket as u16, p.address);
                proof {
                    self.lemma_entry_parts(at, key);
                    lemma_extract_merge(socket as u16, p.address);
                }
                let prior = self.publish(key, entry, Ghost(at));
                let ghost pointed = *self;
                match prior {
                    Some(old_entry) => {
                        let ghost was = before.places@[key];
                        assert(before.placed(key));
                        self.bury(old_entry, Ghost(was), Ghost(key));
                    },
                    None => {},
                }
                proof {
                    let s = socket as int;
                    let size = record_size(value@.len()) as int;
                    let soon = old(self).epoch.next_horizon();
                    let later = self.epoch.next_horizon();
                    assert(self.steady(pointed, s));
                    assert(pointed.logs@[s] == before.logs@[s]);
                    assert(ready.steady(*old(self), s));
                    lemma_floor_grows(
                        self.epoch.locals@,
                        self.epoch.locals@.len() as int,
                        next_epoch(old(self).epoch.global),
                        next_epoch(self.epoch.global),
                    );
                    assert(soon <= later);
                    assert forall|budget: int|
                        #[trigger] old(self).holds_room(s, budget) && size
                            <= budget implies self.holds_room(s, budget - size) by {
                        if old(self).logs@[s].head_has_room(size as nat) {
                            if budget > old(self).logs@[s].head_room() {
                                assert(ready.logs@[s].blocks_at(soon));
                                assert(before.logs@[s].blocks_at(soon));
                                assert(self.logs@[s].blocks_at(soon));
                                self.logs@[s].lemma_blocks_later(soon, later);
                            }
                        }
                    }
                }
                Ok(())
            },
        }
    }

    /// Stores the object on the socket that `policy` selects, given the
    /// number `draw` drawn at random.
    pub fn put_drawn(&mut self, obj: &ObjDesc, policy: PutPolicy, draw: u64) -> (put: Result<
        (),
        ErrorCode,
    >)
        requires
            old(self).wf(),
        ensures
            final(self).wf(),
            final(self).config == old(self).config,
            final(self).compacting == old(self).compacting,
            final(self).epoch.locals@ == old(self).epoch.locals@,
            final(self).sockets() == old(self).sockets(),
            same_shape(*old(self), *final(self)),
            put == old(self).put_outcome(
                obj.key,
                obj.value@.len(),
                spec_resolve(policy, old(self).sockets() as usize, draw),
            ),
            final(self)@ == (if put is Ok {
                spec_put(old(self)@, obj.key, obj.value@)
            } else {
                old(self)@
            }),
            put == Err::<(), ErrorCode>(ErrorCode::OutOfMemory) ==> {
                ||| !final(self).compacting@[spec_resolve(policy, old(self).sockets() as usize, draw) as int]
                ||| final(self).no_victim(spec_resolve(policy, old(self).sockets() as usize, draw) as int)
                ||| final(self).jammed(spec_resolve(policy, old(self).sockets() as usize, draw) as int)
                ||| final(self).relieved(spec_resolve(policy, old(self).sockets() as usize, draw) as int)
            },
            put matches Err(e) && e != ErrorCode::OutOfMemory ==> *final(self) == *old(self),
            put is Ok ==> final(self).index@.contains_key(obj.key) && entry_socket(
                final(self).index@[obj.key],
            ) == spec_resolve(policy, old(self).sockets() as usize, draw) && final(self).index@
                == spec_put(old(self).index@, obj.key, final(self).index@[obj.key]),
            forall|budget: int|
                #[trigger] old(self).holds_room(spec_resolve(policy, old(self).sockets() as usize, draw) as int, budget) && record_size(obj.value@.len())
                    <= budget ==> put != Err::<(), ErrorCode>(ErrorCode::OutOfMemory) && (put is Ok
                    ==> final(self).holds_room(spec_resolve(policy, old(self).sockets() as usize, draw) as int, budget - record_size(obj.value@.len()))),
    {
        let socket = resolve(policy, self.logs.len(), draw);
        self.put_on(obj.key, obj.value, socket)
    }

    /// Stores the object where `policy` says: on a specific socket, or on
    /// one drawn at random. A number is drawn only if the policy asks for
    /// it.
    pub fn put_where(&mut self, obj: &ObjDesc, policy: PutPolicy) -> (put: Result<(), ErrorCode>)
        requires
            old(self).wf(),
        ensures
            final(self).wf(),
            final(self).config == old(self).config,
            final(self).compacting == old(self).compacting,
            final(self).epoch.locals@ == old(self).epoch.locals@,
            final(self).sockets() == old(self).sockets(),
            same_shape(*old(self), *final(self)),
            final(self)@ == (if put is Ok {
                spec_put(old(self)@, obj.key, obj.value@)
            } else {
                old(self)@
            }),
            put matches Err(e) && e != ErrorCode::OutOfMemory ==> *final(self) == *old(self),
            put is Ok ==> final(self).index@ == spec_put(
                old(self).index@,
                obj.key,
                final(self).index@[obj.key],
            ),
            exists|socket: usize|
                {
                    &&& (policy matches PutPolicy::Specific(s) ==> socket == s)
                    &&& (!(policy is Specific) ==> socket < old(self).sockets())
                    &&& put == #[trigger] old(self).put_outcome(
                        obj.key,
                        obj.value@.len(),
                        socket,
                    )
                    &&& (put is Ok ==> final(self).index@.contains_key(obj.key) && entry_socket(
                        final(self).index@[obj.key],
                    ) == socket)
                    &&& (put == Err::<(), ErrorCode>(ErrorCode::OutOfMemory) ==> {
                        ||| !final(self).compacting@[socket as int]
                        ||| final(self).no_victim(socket as int)
                        ||| final(self).jammed(socket as int)
                        ||| final(self).relieved(socket as int)
                    })
                    &&& forall|budget: int|
                        #[trigger] old(self).holds_room(socket as int, budget) && record_size(
                            obj.value@.len(),
                        ) <= budget ==> put != Err::<(), ErrorCode>(ErrorCode::OutOfMemory) && (put
                            is Ok ==> final(self).holds_room(
                            socket as int,
                            budget - record_size(obj.value@.len()),
                        ))
                },
    {
        let number = match policy {
            PutPolicy::Specific(_) => 0,
            _ => draw(),
        };
        let put = self.put_drawn(obj, policy, number);
        proof {
            let socket = spec_resolve(policy, old(self).sockets() as usize, number);
            assert(put == old(self).put_outcome(obj.key, obj.value@.len(), socket));
        }
        put
    }

    /// Removes the object of `key`: removes its entry from the index and
    /// counts its record as dead. Fails with `NotFound` when the key has
    /// no object.
    pub fn del_object(&mut self, key: u64) -> (deleted: Result<(), ErrorCode>)
        requires
            old(self).wf(),
        ensures
            final(self).wf(),
            final(self).config == old(self).config,
            final(self).compacting == old(self).compacting,
            final(self).epoch == old(self).epoch,
            final(self).sockets() == old(self).sockets(),
            same_shape(*old(self), *final(self)),
            deleted == del_outcome(old(self)@, key),
            final(self)@ == spec_del(old(self)@, key),
            final(self).index@ == spec_del(old(self).index@, key),
            deleted is Err ==> *final(self) == *old(self),
    {
        let ghost before = *self;
        match self.index.remove(key) {
            None => {
                proof {
                    assert(self.index@ =~= before.index@);
                    self.lemma_frame(before, None);
                    assert(before@.remove(key) =~= before@);
                }
                Err(ErrorCode::NotFound)
            },
            Some(entry) => {
                self.places = Ghost(self.places@.remove(key));
                proof {
                    assert(before.placed(key));
                    self.lemma_repoint(before, key, None);
                }
                self.bury(entry, Ghost(before.places@[key]), Ghost(key));
                Ok(())
            },
        }
    }

    /// Enables compaction on `socket`. Nothing happens for a socket that
    /// does not exist.
    pub fn enable_compaction(&mut self, socket: usize)
        requires
            old(self).wf(),
        ensures
            final(self).wf(),
            final(self)@ == old(self)@,
            final(self).config == old(self).config,
            final(self).index == old(self).index,
            final(self).logs == old(self).logs,
            final(self).epoch == old(self).epoch,
            final(self).places == old(self).places,
            final(self).compacting@ == (if socket < old(self).sockets() {
                old(self).compacting@.update(socket as int, true)
            } else {
                old(self).compacting@
            }),
    {
        if socket < self.compacting.len() {
            self.compacting[socket] = true;
        }
        proof {
            self.lemma_frame(*old(self), None);
        }
    }

    /// Registers a thread that reads records, at the current epoch, and
    /// returns its number. Until the thread announces with `observe` that
    /// it has moved on, no memory retired from now on is handed back for
    /// reuse.
    pub fn register_thread(&mut self) -> (thread: usize)
        requires
            old(self).wf(),
        ensures
            final(self).wf(),
            final(self)@ == old(self)@,
            final(self).config == old(self).config,
            final(self).index == old(self).index,
            final(self).logs == old(self).logs,
            final(self).places == old(self).places,
            final(self).compacting == old(self).compacting,
            thread == old(self).epoch.locals@.len(),
            final(self).epoch.global == old(self).epoch.global,
            final(self).epoch.locals@ == old(self).epoch.locals@.push(old(self).epoch.global),
    {
        let thread = self.epoch.register();
        proof {
            self.lemma_frame(*old(self), None);
        }
        thread
    }

    /// Announces that thread `thread` is between two operations and holds
    /// no address of a record: the thread takes note of the current
    /// epoch. Nothing happens for a thread that is not registered.
    pub fn observe(&mut self, thread: usize)
        requires
            old(self).wf(),
        ensures
            final(self).wf(),
            final(self)@ == old(self)@,
            final(self).config == old(self).config,
            final(self).index == old(self).index,
            final(self).logs == old(self).logs,
            final(self).places == old(self).places,
            final(self).compacting == old(self).compacting,
            final(self).epoch.global == old(self).epoch.global,
            final(self).epoch.locals@ == (if thread < old(self).epoch.locals@.len() {
                old(self).epoch.locals@.update(thread as int, old(self).epoch.global)
            } else {
                old(self).epoch.locals@
            }),
    {
        self.epoch.observe(thread);
        proof {
            self.lemma_frame(*old(self), None);
        }
    }

    /// Drains the epochs: moves on to the next epoch and hands back, on
    /// every socket, the blocks of the retired segments whose grace period
    /// is over.
    pub fn drain(&mut self)
        requires
            old(self).wf(),
        ensures
            final(self).wf(),
            final(self)@ == old(self)@,
            final(self).config == old(self).config,
            final(self).compacting == old(self).compacting,
            final(self).sockets() == old(self).sockets(),
            same_shape(*old(self), *final(self)),
            final(self).epoch.global == next_epoch(old(self).epoch.global),
            final(self).epoch.locals == old(self).epoch.locals,
            forall|s: int|
                0 <= s < old(self).sockets() ==> !(#[trigger] final(self).logs@[s]).manager.reclaimable(
                    final(self).epoch.spec_horizon(),
                ),
    {
        self.epoch.advance();
        proof {
            self.lemma_frame(*old(self), None);
        }
        let mut socket: usize = 0;
        while socket < self.logs.len()
            invariant
                socket <= self.sockets(),
                self.wf(),
                self@ == old(self)@,
                self.config == old(self).config,
                self.compacting == old(self).compacting,
                self.sockets() == old(self).sockets(),
                same_shape(*old(self), *self),
                self.epoch.global == next_epoch(old(self).epoch.global),
                self.epoch.locals == old(self).epoch.locals,
                forall|s: int|
                    0 <= s < socket ==> !(#[trigger] self.logs@[s]).manager.reclaimable(
                        self.epoch.spec_horizon(),
                    ),
            decreases self.sockets() - socket,
        {
            let ghost before = *self;
            self.reclaim_on(socket);
            proof {
                assert forall|s: int| 0 <= s < socket + 1 implies !(
                #[trigger] self.logs@[s]).manager.reclaimable(self.epoch.spec_horizon()) by {
                    if s < socket {
                        assert(self.logs@[s] == before.logs@[s]);
                    }
                }
                assert forall|s: int|
                    0 <= s < old(self).logs@.len() implies (
                #[trigger] self.logs@[s]).manager.blocks() == old(self).logs@[s].manager.blocks() by {
                    assert(before.logs@[s].manager.blocks() == old(self).logs@[s].manager.blocks());
                }
            }
            socket = socket + 1;
        }
    }

    /// Shuts the store down and returns the number of objects it held.
    /// The store is taken by value, so no PUT, GET, DEL or compaction is
    /// under way or can follow. The epochs are drained, and the memory of
    /// all segments is released with the store.
    pub fn shutdown(self) -> (objects: usize)
        requires
            self.wf(),
        ensures
            objects == self@.dom().len(),
    {
        let mut store = self;
        store.drain();
        store.len()
    }

    /// Number of objects in the store.
    pub fn len(&self) -> (n: usize)
        requires
            self.wf(),
        ensures
            n == self@.dom().len(),
            self@.dom().finite(),
    {
        assert(self@.dom() =~= self.index@.dom());
        self.index.len()
    }

    /// Copies the value of `key` to the front of `out` and returns its
    /// length. Fails with `NotFound` when the key has no object, and with
    /// `InvalidArgument` when `out` is too short for the value.
    pub fn get_object(&self, key: u64, out: &mut [u8]) -> (got: Result<usize, ErrorCode>)
        requires
            self.wf(),
        ensures
            final(out)@.len() == old(out)@.len(),
            match spec_get(self@, key) {
                Some(value) => if value.len() <= old(out)@.len() {
                    &&& got == Ok::<usize, ErrorCode>(value.len() as usize)
                    &&& final(out)@.subrange(0, value.len() as int) == value
                    &&& final(out)@.subrange(value.len() as int, old(out)@.len() as int) == old(
                        out,
                    )@.subrange(value.len() as int, old(out)@.len() as int)
                } else {
                    &&& got == Err::<usize, ErrorCode>(ErrorCode::InvalidArgument)
                    &&& final(out)@ == old(out)@
                },
                None => {
                    &&& got == Err::<usize, ErrorCode>(ErrorCode::NotFound)
                    &&& final(out)@ == old(out)@
                },
            },
    {
        let entry = match self.index.get(key) {
            Some(entry) => entry,
            None => {
                return Err(ErrorCode::NotFound);
            },
        };
        let ghost at = self.places@[key];
        assert(self.placed(key));
        let (socket, slot, offset) = self.locate(entry, Ghost(at), Ghost(key));
        assert(self.logs@[socket as int].manager.occupied(slot as int));
        match &self.logs[socket].manager.slots[slot] {
            Some(segment) => {
                let len = segment.value_len_at(offset, Ghost(at.record));
                if len > out.len() {
                    return Err(ErrorCode::InvalidArgument);
                }
                let n = segment.read_value(offset, Ghost(at.record), out);
                Ok(n)
            },
            None => Err(ErrorCode::NotFound),
        }
    }
}

} // verus!
