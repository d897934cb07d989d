//! The books of the store: what its segments count as live is what its
//! index refers to.

use crate::nibble::index::{entry_address, entry_socket};
use crate::nibble::liveness::{
    is_live, lemma_live_sum_change, lemma_live_sum_none, live_sum, same_but, Location,
};
use crate::nibble::lsm::LSM;
use crate::nibble::region::lemma_block_unique;
use crate::nibble::record::record_size;
use crate::nibble::segment::SegmentState;
use vstd::prelude::*;

verus! {

/// The sum of the values of a finite map.
pub open spec fn map_total(m: Map<u64, int>) -> int
    decreases m.dom().len(),
    when m.dom().finite()
{
    if m.dom().len() == 0 {
        0
    } else {
        let k = m.dom().choose();
        m[k] + map_total(m.remove(k))
    }
}

impl LSM {
    /// The live bytes that the segment in block `j` of socket `s` counts;
    /// none for a block without a segment.
    pub open spec fn live_in(&self, s: int, j: int) -> int {
        if self.has_segment(s, j) {
            self.segment(s, j).live_bytes as int
        } else {
            0
        }
    }

    /// The live bytes that the segments in the first `n` blocks of socket
    /// `s` count.
    pub open spec fn live_on(&self, s: int, n: int) -> int
        decreases n,
    {
        if n <= 0 {
            0
        } else {
            self.live_on(s, n - 1) + self.live_in(s, n - 1)
        }
    }

    /// The live bytes that the segments of the first `n` sockets count.
    pub open spec fn live_among(&self, n: int) -> int
        decreases n,
    {
        if n <= 0 {
            0
        } else {
            self.live_among(n - 1) + self.live_on(
                n - 1,
                self.logs@[n - 1].manager.blocks() as int,
            )
        }
    }

    /// The live bytes that all segments count.
    pub open spec fn live_total(&self) -> int {
        self.live_among(self.sockets() as int)
    }

    /// For every key of the index, the size of the record that its entry
    /// refers to.
    pub open spec fn entry_sizes(&self) -> Map<u64, int> {
        Map::new(
            |k: u64| self.index@.contains_key(k),
            |k: u64| record_size(self@[k].len()) as int,
        )
    }

    /// The bytes of the records that `places` refers to in block `j` of
    /// socket `s`.
    pub open spec fn tally_in(&self, places: Map<u64, Location>, s: int, j: int) -> int {
        if self.has_segment(s, j) {
            live_sum(
                self.segment(s, j).records@,
                places,
                s,
                j,
                self.segment(s, j).records@.len() as int,
            )
        } else {
            0
        }
    }

    /// The bytes of the records that `places` refers to in the first `n`
    /// blocks of socket `s`.
    pub open spec fn tally_on(&self, places: Map<u64, Location>, s: int, n: int) -> int
        decreases n,
    {
        if n <= 0 {
            0
        } else {
            self.tally_on(places, s, n - 1) + self.tally_in(places, s, n - 1)
        }
    }

    /// The bytes of the records that `places` refers to on the first `n`
    /// sockets.
    pub open spec fn tally_among(&self, places: Map<u64, Location>, n: int) -> int
        decreases n,
    {
        if n <= 0 {
            0
        } else {
            self.tally_among(places, n - 1) + self.tally_on(
                places,
                n - 1,
                self.logs@[n - 1].manager.blocks() as int,
            )
        }
    }

    /// Whether every place of `places` is that of a record of its key.
    pub open spec fn all_placed(&self, places: Map<u64, Location>) -> bool {
        forall|k: u64| #[trigger]
            places.contains_key(k) ==> {
                &&& self.has_segment(places[k].socket, places[k].slot)
                &&& 0 <= places[k].record < self.segment(
                    places[k].socket,
                    places[k].slot,
                ).records@.len()
                &&& self.record_at(places[k]).key == k
            }
    }

    /// For every key of `places`, the size of the record at its place.
    pub open spec fn sizes_at(&self, places: Map<u64, Location>) -> Map<u64, int> {
        Map::new(|k: u64| places.contains_key(k), |k: u64| self.record_at(places[k]).size() as int)
    }

    proof fn lemma_tally_on_step(
        self,
        places: Map<u64, Location>,
        rest: Map<u64, Location>,
        key: u64,
        s: int,
        n: int,
    )
        requires
            self.all_placed(places),
            places.contains_key(key),
            rest == places.remove(key),
            0 <= n,
        ensures
            self.tally_on(places, s, n) == self.tally_on(rest, s, n) + (if places[key].socket == s
                && places[key].slot < n {
                self.record_at(places[key]).size() as int
            } else {
                0
            }),
        decreases n,
    {
        if n > 0 {
            self.lemma_tally_on_step(places, rest, key, s, n - 1);
            let j = n - 1;
            assert(same_but(rest, places, key));
            if self.has_segment(s, j) {
                let records = self.segment(s, j).records@;
                lemma_live_sum_change(records, rest, places, s, j, records.len() as int, key);
            }
        }
    }

    proof fn lemma_tally_step(
        self,
        places: Map<u64, Location>,
        rest: Map<u64, Location>,
        key: u64,
        n: int,
    )
        requires
            self.all_placed(places),
            places.contains_key(key),
            rest == places.remove(key),
            0 <= n <= self.sockets(),
        ensures
            self.tally_among(places, n) == self.tally_among(rest, n) + (if places[key].socket < n {
                self.record_at(places[key]).size() as int
            } else {
                0
            }),
        decreases n,
    {
        if n > 0 {
            self.lemma_tally_step(places, rest, key, n - 1);
            self.lemma_tally_on_step(
                places,
                rest,
                key,
                n - 1,
                self.logs@[n - 1].manager.blocks() as int,
            );
        }
    }

    proof fn lemma_tally_empty_on(self, places: Map<u64, Location>, s: int, n: int)
        requires
            places.dom().len() == 0,
            places.dom().finite(),
            0 <= n,
        ensures
            self.tally_on(places, s, n) == 0,
        decreases n,
    {
        if n > 0 {
            self.lemma_tally_empty_on(places, s, n - 1);
            let j = n - 1;
            if self.has_segment(s, j) {
                let records = self.segment(s, j).records@;
                assert forall|i: int| 0 <= i < records.len() implies !is_live(
                    places,
                    Location { socket: s, slot: j, record: i },
                    records[i].key,
                ) by {
                    if places.contains_key(records[i].key) {
                        assert(places.dom().contains(records[i].key));
                    }
                }
                lemma_live_sum_none(records, places, s, j, records.len() as int);
            }
        }
    }

    proof fn lemma_tally_empty(self, places: Map<u64, Location>, n: int)
        requires
            places.dom().len() == 0,
            places.dom().finite(),
            0 <= n,
        ensures
            self.tally_among(places, n) == 0,
        decreases n,
    {
        if n > 0 {
            self.lemma_tally_empty(places, n - 1);
            self.lemma_tally_empty_on(places, n - 1, self.logs@[n - 1].manager.blocks() as int);
        }
    }

    /// The bytes of the records that a set of places refers to, counted
    /// segment by segment, are the sizes of those records, counted key by
    /// key.
    pub proof fn lemma_tally(self, places: Map<u64, Location>)
        requires
            places.dom().finite(),
            self.all_placed(places),
        ensures
            self.tally_among(places, self.sockets() as int) == map_total(self.sizes_at(places)),
        decreases places.dom().len(),
    {
        let sizes = self.sizes_at(places);
        assert(sizes.dom() =~= places.dom());
        if places.dom().len() == 0 {
            self.lemma_tally_empty(places, self.sockets() as int);
        } else {
            let key = places.dom().choose();
            let rest = places.remove(key);
            assert(places.contains_key(key));
            self.lemma_tally_step(places, rest, key, self.sockets() as int);
            assert(self.all_placed(rest)) by {
                assert forall|k: u64| #[trigger] rest.contains_key(k) implies {
                    &&& self.has_segment(rest[k].socket, rest[k].slot)
                    &&& 0 <= rest[k].record < self.segment(
                        rest[k].socket,
                        rest[k].slot,
                    ).records@.len()
                    &&& self.record_at(rest[k]).key == k
                } by {
                    assert(places.contains_key(k));
                }
            }
            self.lemma_tally(rest);
            assert(sizes.remove(key) =~= self.sizes_at(rest));
        }
    }

    proof fn lemma_live_is_tally_on(self, s: int, n: int)
        requires
            self.wf(),
            0 <= n,
        ensures
            self.live_on(s, n) == self.tally_on(self.places@, s, n),
        decreases n,
    {
        if n > 0 {
            self.lemma_live_is_tally_on(s, n - 1);
            if self.has_segment(s, n - 1) {
                assert(self.accounted(s, n - 1, None));
            }
        }
    }

    proof fn lemma_live_is_tally(self, n: int)
        requires
            self.wf(),
            0 <= n,
        ensures
            self.live_among(n) == self.tally_among(self.places@, n),
        decreases n,
    {
        if n > 0 {
            self.lemma_live_is_tally(n - 1);
            self.lemma_live_is_tally_on(n - 1, self.logs@[n - 1].manager.blocks() as int);
        }
    }

    /// The live bytes of all segments together are the sizes of the
    /// records that the entries of the index refer to.
    pub proof fn lemma_live_total(self)
        requires
            self.wf(),
        ensures
            self.live_total() == map_total(self.entry_sizes()),
    {
        self.index.lemma_finite();
        assert forall|k: u64| #[trigger] self.places@.contains_key(k) implies {
            &&& self.has_segment(self.places@[k].socket, self.places@[k].slot)
            &&& 0 <= self.places@[k].record < self.segment(
                self.places@[k].socket,
                self.places@[k].slot,
            ).records@.len()
            &&& self.record_at(self.places@[k]).key == k
        } by {
            assert(self.placed(k));
        }
        self.lemma_live_is_tally(self.sockets() as int);
        self.lemma_tally(self.places@);
        assert(self.sizes_at(self.places@) =~= self.entry_sizes());
    }

    /// In a segment that is not retired, the live and the dead bytes
    /// together are the bytes written, which are no more than the segment
    /// holds. In a retired segment both are zero.
    pub proof fn lemma_counters(self, s: int, j: int)
        requires
            self.wf(),
            self.has_segment(s, j),
        ensures
            self.segment(s, j).state != SegmentState::Retired ==> self.segment(s, j).live_bytes
                + self.segment(s, j).dead_bytes == self.segment(s, j).head_offset(),
            self.segment(s, j).state == SegmentState::Retired ==> self.segment(s, j).live_bytes
                == 0 && self.segment(s, j).dead_bytes == 0,
            self.segment(s, j).head_offset() <= self.segment(s, j).size,
    {
        assert(self.logs@[s].wf());
        assert(self.logs@[s].manager.occupied(j));
    }

    /// The entry of a key refers to the first byte of a record of that
    /// key, in a segment of the socket that the entry names which is not
    /// retired.
    pub proof fn lemma_entry_target(self, key: u64)
        requires
            self.wf(),
            self.index@.contains_key(key),
        ensures
            self.holds(self.places@[key], key),
            entry_socket(self.index@[key]) == self.places@[key].socket,
            entry_address(self.index@[key]) == self.segment(
                self.places@[key].socket,
                self.places@[key].slot,
            ).base_addr + self.record_at(self.places@[key]).offset,
            self@.contains_key(key),
            self@[key] == self.record_at(self.places@[key]).value,
    {
        assert(self.places@.contains_key(key));
        assert(self.placed(key));
        self.lemma_entry_parts(self.places@[key], key);
    }

    /// No entry of the index refers into a retired segment.
    pub proof fn lemma_retired_unreferenced(self, key: u64, s: int, j: int)
        requires
            self.wf(),
            self.index@.contains_key(key),
            self.has_segment(s, j),
            self.segment(s, j).state == SegmentState::Retired,
        ensures
            !(entry_socket(self.index@[key]) == s && self.segment(s, j).base_addr <= entry_address(
                self.index@[key],
            ) < self.segment(s, j).base_addr + self.segment(s, j).size),
    {
        self.lemma_entry_target(key);
        let at = self.places@[key];
        self.lemma_entry_parts(at, key);
        if at.socket == s {
            let manager = self.logs@[s].manager;
            assert(self.logs@[s].wf());
            assert(manager.occupied(j));
            assert(manager.occupied(at.slot));
            let address = entry_address(self.index@[key]);
            if self.segment(s, j).base_addr <= address < self.segment(s, j).base_addr
                + self.segment(s, j).size {
                lemma_block_unique(
                    at.slot,
                    self.record_at(at).offset as int,
                    j,
                    address - self.segment(s, j).base_addr,
                    manager.region.block_size as int,
                );
            }
        }
    }

    /// A retired segment is clean: it counts no live and no dead bytes,
    /// and no entry of the index refers into it, whatever PUTs, DELs and
    /// rounds of compaction came before.
    pub proof fn lemma_retired_clean(self, s: int, j: int)
        requires
            self.wf(),
            self.has_segment(s, j),
            self.segment(s, j).state == SegmentState::Retired,
        ensures
            self.segment(s, j).live_bytes == 0,
            self.segment(s, j).dead_bytes == 0,
            forall|key: u64| #[trigger]
                self.index@.contains_key(key) ==> !(entry_socket(self.index@[key]) == s
                    && self.segment(s, j).base_addr <= entry_address(self.index@[key])
                    < self.segment(s, j).base_addr + self.segment(s, j).size),
    {
        self.lemma_counters(s, j);
        assert forall|key: u64| #[trigger] self.index@.contains_key(key) implies !(entry_socket(
            self.index@[key],
        ) == s && self.segment(s, j).base_addr <= entry_address(self.index@[key])
            < self.segment(s, j).base_addr + self.segment(s, j).size) by {
            self.lemma_retired_unreferenced(key, s, j);
        }
    }
}

} // verus!
