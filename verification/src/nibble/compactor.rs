//! The compactor: it moves the live records out of segments that are
//! mostly dead, so that their memory can be used again.

use crate::nibble::epoch::next_epoch;
use crate::nibble::index::{lemma_extract_merge, merge};
use crate::nibble::liveness::{is_live, lemma_live_sum_covers, Location};
use crate::nibble::lsm::{dead_kept, dead_kept_but, same_content, same_shape, LSM};
use crate::nibble::liveness::lemma_live_sum_none;
use crate::nibble::manager::{is_candidate, precedes};
use crate::nibble::segment::{Segment, SegmentState};
use vstd::prelude::*;

verus! {

impl LSM {
    /// Closes again the segment in block `slot` of `socket`, which is
    /// under compaction.
    pub(crate) fn reclose(&mut self, socket: usize, slot: usize)
        requires
            old(self).wf(),
            old(self).has_segment(socket as int, slot as int),
            old(self).segment(socket as int, slot as int).state == SegmentState::Compacting,
            old(self).segment(socket as int, slot as int).head_offset() > 0,
        ensures
            final(self).wf(),
            final(self)@ == old(self)@,
            final(self).index == old(self).index,
            final(self).places == old(self).places,
            final(self).config == old(self).config,
            final(self).compacting == old(self).compacting,
            final(self).epoch == old(self).epoch,
            final(self).sockets() == old(self).sockets(),
            same_shape(*old(self), *final(self)),
            final(self).has_segment(socket as int, slot as int),
            final(self).segment(socket as int, slot as int) == (Segment {
                state: SegmentState::Closed,
                ..old(self).segment(socket as int, slot as int)
            }),
            dead_kept(*old(self), *final(self)),
            final(self).jammed(socket as int) == old(self).jammed(socket as int),
    {
        assert(self.logs@[socket as int].wf());
        self.logs[socket].manager.close(slot);
        proof {
            let before = *old(self);
            let was = before.logs@[socket as int];
            let log = self.logs@[socket as int];
            assert(self.logs@ =~= before.logs@.update(socket as int, log));
            assert(log.wf()) by {
                if log.head is Some {
                    assert(was.manager.occupied(log.head->0 as int));
                }
                assert forall|j: int| #[trigger]
                    log.manager.occupied(j) && log.manager.segment(j).state
                        == SegmentState::Open implies (log.head matches Some(h) && h == j) by {
                    assert(was.manager.occupied(j));
                }
            }
            assert forall|s: int| 0 <= s < self.logs@.len() implies {
                &&& (#[trigger] self.logs@[s]).wf()
                &&& self.logs@[s].manager.region.socket == s
                &&& self.logs@[s].manager.region.block_size == self.config.segment_size
            } by {
                assert(before.logs@[s].wf());
            }
            assert forall|s: int, j: int| #[trigger] self.has_segment(s, j) implies (
            before.has_segment(s, j) && same_content(before.segment(s, j), self.segment(s, j))) by {}
            assert forall|s: int, j: int|
                #[trigger] before.has_segment(s, j) && before.segment(s, j).state
                    != SegmentState::Retired implies (self.has_segment(s, j) && self.segment(
                s,
                j,
            ).state != SegmentState::Retired && same_content(
                before.segment(s, j),
                self.segment(s, j),
            )) by {}
            self.lemma_frame(before, None);
        }
    }

    /// Puts under compaction the segment of `socket` that is to be
    /// compacted next, and returns its block; `None` if no segment of the
    /// socket is worth compacting.
    pub(crate) fn take(&mut self, socket: usize) -> (victim: Option<usize>)
        requires
            old(self).wf(),
            socket < old(self).sockets(),
        ensures
            final(self).wf(),
            final(self)@ == old(self)@,
            final(self).index == old(self).index,
            final(self).places == old(self).places,
            final(self).config == old(self).config,
            final(self).compacting == old(self).compacting,
            final(self).epoch == old(self).epoch,
            final(self).sockets() == old(self).sockets(),
            same_shape(*old(self), *final(self)),
            dead_kept(*old(self), *final(self)),
            final(self).jammed(socket as int) == old(self).jammed(socket as int),
            match victim {
                Some(v) => {
                    &&& old(self).is_victim(socket as int, v as int)
                    &&& final(self).has_segment(socket as int, v as int)
                    &&& final(self).segment(socket as int, v as int) == (Segment {
                        state: SegmentState::Compacting,
                        ..old(self).segment(socket as int, v as int)
                    })
                },
                None => old(self).no_victim(socket as int) && final(self).logs@ == old(self).logs@,
            },
    {
        assert(self.logs@[socket as int].wf());
        let threshold = self.config.compaction_threshold;
        let victim = self.logs[socket].manager.take_victim(threshold);
        proof {
            let before = *old(self);
            let was = before.logs@[socket as int];
            let log = self.logs@[socket as int];
            if victim is None {
                assert(log == was);
                assert(self.logs@ =~= before.logs@);
                assert forall|j: int|
                    #![trigger before.has_segment(socket as int, j)]
                    before.has_segment(socket as int, j) implies !is_candidate(
                    before.segment(socket as int, j),
                    threshold,
                ) by {
                    assert(was.manager.occupied(j));
                }
            } else {
                let v = victim->0 as int;
                assert(was.manager.occupied(v));
                assert forall|j: int|
                    #![trigger before.has_segment(socket as int, j)]
                    before.has_segment(socket as int, j) && j != v && is_candidate(
                        before.segment(socket as int, j),
                        threshold,
                    ) implies precedes(
                    before.segment(socket as int, v),
                    before.segment(socket as int, j),
                ) by {
                    assert(was.manager.occupied(j));
                }
            }
        }
        proof {
            let before = *old(self);
            let was = before.logs@[socket as int];
            let log = self.logs@[socket as int];
            assert(self.logs@ =~= before.logs@.update(socket as int, log));
            assert(log.wf()) by {
                if log.head is Some {
                    assert(was.manager.occupied(log.head->0 as int));
                }
                assert forall|j: int| #[trigger]
                    log.manager.occupied(j) && log.manager.segment(j).state
                        == SegmentState::Open implies (log.head matches Some(h) && h == j) by {
                    assert(was.manager.occupied(j));
                }
            }
            assert forall|s: int| 0 <= s < self.logs@.len() implies {
                &&& (#[trigger] self.logs@[s]).wf()
                &&& self.logs@[s].manager.region.socket == s
                &&& self.logs@[s].manager.region.block_size == self.config.segment_size
            } by {
                assert(before.logs@[s].wf());
            }
            assert forall|s: int, j: int| #[trigger] self.has_segment(s, j) implies (
            before.has_segment(s, j) && same_content(before.segment(s, j), self.segment(s, j))) by {}
            assert forall|s: int, j: int|
                #[trigger] before.has_segment(s, j) && before.segment(s, j).state
                    != SegmentState::Retired implies (self.has_segment(s, j) && self.segment(
                s,
                j,
            ).state != SegmentState::Retired && same_content(
                before.segment(s, j),
                self.segment(s, j),
            )) by {}
            self.lemma_frame(before, None);
            if victim is Some {
                let v = victim->0 as int;
                assert(was.manager.is_first(v, threshold));
                assert(before.has_segment(socket as int, v));
                assert(is_candidate(before.segment(socket as int, v), threshold));
                assert(before.is_victim(socket as int, v));
                assert(log.manager.occupied(v));
            }
        }
        victim
    }

    /// Retires the segment in block `slot` of `socket`, which has no live
    /// bytes left: its memory returns to the pool in the next epoch.
    pub(crate) fn retire(&mut self, socket: usize, slot: usize)
        requires
            old(self).wf(),
            old(self).has_segment(socket as int, slot as int),
            old(self).segment(socket as int, slot as int).state == SegmentState::Compacting,
            old(self).segment(socket as int, slot as int).live_bytes == 0,
        ensures
            final(self).wf(),
            final(self)@ == old(self)@,
            final(self).index == old(self).index,
            final(self).places == old(self).places,
            final(self).config == old(self).config,
            final(self).compacting == old(self).compacting,
            final(self).epoch == old(self).epoch,
            final(self).sockets() == old(self).sockets(),
            same_shape(*old(self), *final(self)),
            final(self).has_segment(socket as int, slot as int),
            final(self).segment(socket as int, slot as int).state == SegmentState::Retired,
            final(self).segment(socket as int, slot as int).retire_epoch == next_epoch(
                old(self).epoch.global,
            ),
            final(self).dead_in(socket as int, slot as int) == 0,
            dead_kept_but(*old(self), *final(self), socket as int, slot as int),
    {
        assert(self.logs@[socket as int].wf());
        let due = self.epoch.grace();
        self.logs[socket].manager.retire_segment(slot, due);
        proof {
            let before = *old(self);
            let was = before.logs@[socket as int];
            let log = self.logs@[socket as int];
            assert(self.logs@ =~= before.logs@.update(socket as int, log));
            assert(log.wf()) by {
                if log.head is Some {
                    assert(was.manager.occupied(log.head->0 as int));
                }
                assert forall|j: int| #[trigger]
                    log.manager.occupied(j) && log.manager.segment(j).state
                        == SegmentState::Open implies (log.head matches Some(h) && h == j) by {
                    assert(was.manager.occupied(j));
                }
            }
            assert forall|s: int| 0 <= s < self.logs@.len() implies {
                &&& (#[trigger] self.logs@[s]).wf()
                &&& self.logs@[s].manager.region.socket == s
                &&& self.logs@[s].manager.region.block_size == self.config.segment_size
            } by {
                assert(before.logs@[s].wf());
            }
            assert forall|s: int, j: int| #[trigger] self.has_segment(s, j) implies (
            before.has_segment(s, j) && same_content(before.segment(s, j), self.segment(s, j))) by {}
            assert forall|s: int, j: int|
                #[trigger] before.has_segment(s, j) && before.segment(s, j).state
                    != SegmentState::Retired implies ((self.has_segment(s, j) && self.segment(
                s,
                j,
            ).state != SegmentState::Retired && same_content(
                before.segment(s, j),
                self.segment(s, j),
            )) || before.segment(s, j).live_bytes == 0) by {}
            self.lemma_frame(before, None);
        }
    }

    /// Looks at the record of the segment under compaction that starts at
    /// `offset`. A record that the index refers to is copied to the log,
    /// the index is made to refer to the copy, and the record is counted
    /// as dead; any other record is passed over. Returns the size of the
    /// record, or `None` when the log has no room for the copy.
    pub(crate) fn relocate(
        &mut self,
        socket: usize,
        victim: usize,
        offset: usize,
        Ghost(i): Ghost<int>,
    ) -> (step: Option<usize>)
        requires
            old(self).wf(),
            old(self).has_segment(socket as int, victim as int),
            old(self).segment(socket as int, victim as int).state == SegmentState::Compacting,
            old(self).segment(socket as int, victim as int).starts(offset as int, i),
        ensures
            final(self).wf(),
            final(self)@ == old(self)@,
            final(self).config == old(self).config,
            final(self).compacting == old(self).compacting,
            final(self).epoch == old(self).epoch,
            final(self).sockets() == old(self).sockets(),
            same_shape(*old(self), *final(self)),
            final(self).has_segment(socket as int, victim as int),
            final(self).segment(socket as int, victim as int).state == SegmentState::Compacting,
            final(self).segment(socket as int, victim as int).records == old(self).segment(
                socket as int,
                victim as int,
            ).records,
            final(self).segment(socket as int, victim as int).data == old(self).segment(
                socket as int,
                victim as int,
            ).data,
            final(self).segment(socket as int, victim as int).live_bytes <= old(self).segment(
                socket as int,
                victim as int,
            ).live_bytes,
            dead_kept_but(*old(self), *final(self), socket as int, victim as int),
            step is None ==> final(self).places == old(self).places && final(self).jammed(
                socket as int,
            ),
            forall|r: int|
                0 <= r < old(self).segment(socket as int, victim as int).records@.len()
                    && #[trigger] is_live(
                    final(self).places@,
                    Location { socket: socket as int, slot: victim as int, record: r },
                    old(self).segment(socket as int, victim as int).records@[r].key,
                ) ==> is_live(
                    old(self).places@,
                    Location { socket: socket as int, slot: victim as int, record: r },
                    old(self).segment(socket as int, victim as int).records@[r].key,
                ) && (r != i || step is None),
            step matches Some(size) ==> size == old(self).segment(
                socket as int,
                victim as int,
            ).records@[i].size(),
            step is None <==> is_live(
                old(self).places@,
                Location { socket: socket as int, slot: victim as int, record: i },
                old(self).segment(socket as int, victim as int).records@[i].key,
            ) && !old(self).logs@[socket as int].has_room(
                old(self).segment(socket as int, victim as int).records@[i].size(),
            ),
    {
        let ghost before = *self;
        let ghost here = Location { socket: socket as int, slot: victim as int, record: i };
        proof {
            assert(self.logs@[socket as int].wf());
            assert(self.logs@[socket as int].manager.occupied(victim as int));
            self.segment(socket as int, victim as int).lemma_record_within(i);
        }
        let (key, len, size, address) = match &self.logs[socket].manager.slots[victim] {
            Some(segment) => (
                segment.key_at(offset, Ghost(i)),
                segment.value_len_at(offset, Ghost(i)),
                segment.record_size_at(offset, Ghost(i)),
                segment.base_addr + offset as u64,
            ),
            None => (0, 0, 0, 0),
        };
        let mine = merge(socket as u16, address);
        let live = match self.index.get(key) {
            Some(entry) => entry == mine,
            None => false,
        };
        proof {
            self.lemma_owner(here, key);
        }
        if !live {
            return Some(size);
        }
        let mut buffer: Vec<u8> = vec![0u8; len];
        match &self.logs[socket].manager.slots[victim] {
            Some(segment) => {
                let _ = segment.read_value(offset, Ghost(i), buffer.as_mut_slice());
            },
            None => {},
        }
        proof {
            assert(buffer@ =~= self.record_at(here).value);
            assert(self.placed(key));
            assert(self.accounted(socket as int, victim as int, None));
        }
        match self.append_record(socket, key, buffer.as_slice()) {
            Err(_) => None,
            Ok(p) => {
                let ghost at = Location {
                    socket: socket as int,
                    slot: p.slot as int,
                    record: self.segment(socket as int, p.slot as int).records@.len() - 1,
                };
                let ghost middle = *self;
                let copy = merge(socket as u16, p.address);
                proof {
                    self.lemma_entry_parts(at, key);
                    lemma_extract_merge(socket as u16, p.address);
                    assert(self.record_at(here) == before.record_at(here));
                }
                let swapped = self.repoint(key, mine, copy, Ghost(at));
                let ghost pointed = *self;
                if swapped {
                    self.bury(mine, Ghost(here), Ghost(key));
                } else {
                    // The entry changed under us: the record was overwritten,
                    // and it is the copy that is dead. This cannot happen
                    // while the round has the store to itself.
                    self.bury(copy, Ghost(at), Ghost(key));
                }
                proof {
                    assert(self@ =~= before@);
                    assert forall|s: int, j: int|
                        s != socket || j != victim implies #[trigger] self.dead_in(s, j)
                        == before.dead_in(s, j) by {
                        assert(pointed.dead_in(s, j) == middle.dead_in(s, j));
                        assert(middle.dead_in(s, j) == before.dead_in(s, j));
                    }
                }
                Some(size)
            },
        }
    }

    /// Whether the segment in block `v` of `socket` is the one to compact
    /// next: it is closed with a dead ratio above the threshold, and it
    /// comes before every other such segment of the socket.
    pub open spec fn is_victim(&self, socket: int, v: int) -> bool {
        &&& self.has_segment(socket, v)
        &&& is_candidate(self.segment(socket, v), self.config.compaction_threshold)
        &&& forall|j: int|
            #![trigger self.has_segment(socket, j)]
            self.has_segment(socket, j) && j != v && is_candidate(
                self.segment(socket, j),
                self.config.compaction_threshold,
            ) ==> precedes(self.segment(socket, v), self.segment(socket, j))
    }

    /// Whether no segment of `socket` is worth compacting.
    pub open spec fn no_victim(&self, socket: int) -> bool {
        forall|j: int|
            #![trigger self.has_segment(socket, j)]
            self.has_segment(socket, j) ==> !is_candidate(
                self.segment(socket, j),
                self.config.compaction_threshold,
            )
    }

    /// One round of the compactor of `socket`, if compaction is enabled
    /// there: picks the closed segment with the highest dead ratio above
    /// the threshold, moves its live records to the head of the log, and
    /// retires it. Returns whether a segment was retired. A segment whose
    /// live records the log has no room for is closed again.
    pub fn compact(&mut self, socket: usize) -> (retired: bool)
        requires
            old(self).wf(),
        ensures
            final(self).wf(),
            final(self)@ == old(self)@,
            final(self).config == old(self).config,
            final(self).compacting == old(self).compacting,
            final(self).epoch.locals@ == old(self).epoch.locals@,
            final(self).sockets() == old(self).sockets(),
            same_shape(*old(self), *final(self)),
            socket >= old(self).sockets() || !old(self).compacting@[socket as int] ==> !retired
                && final(self).logs == old(self).logs && final(self).epoch == old(self).epoch
                && final(self).index == old(self).index,
            socket < old(self).sockets() && old(self).no_victim(socket as int) ==> !retired,
            !retired && socket < old(self).sockets() && old(self).compacting@[socket as int]
                ==> final(self).no_victim(socket as int) || final(self).jammed(socket as int),
            retired ==> final(self).relieved(socket as int),
            retired ==> final(self).dead_on(
                socket as int,
                old(self).logs@[socket as int].manager.blocks() as int,
            ) < old(self).dead_on(
                socket as int,
                old(self).logs@[socket as int].manager.blocks() as int,
            ),
            retired ==> exists|v: int|
                old(self).is_victim(socket as int, v) && #[trigger] final(self).has_segment(
                    socket as int,
                    v,
                ) && final(self).segment(socket as int, v).state == SegmentState::Retired
                    && final(self).segment(socket as int, v).retire_epoch == next_epoch(
                    final(self).epoch.global,
                ),
            socket < old(self).sockets() && old(self).compacting@[socket as int] && (exists|v: int|
                #[trigger] old(self).is_victim(socket as int, v) && old(self).segment(
                    socket as int,
                    v,
                ).live_bytes == 0) ==> retired,
    {
        if socket >= self.logs.len() || !self.compacting[socket] {
            return false;
        }
        self.refresh(socket);
        assert(self.logs@[socket as int].wf());
        let ghost middle = *self;
        let victim = match self.take(socket) {
            Some(victim) => victim,
            None => {
                proof {
                    assert forall|v: int| !old(self).is_victim(socket as int, v) by {
                        if old(self).has_segment(socket as int, v) && is_candidate(
                            old(self).segment(socket as int, v),
                            self.config.compaction_threshold,
                        ) {
                            assert(middle.has_segment(socket as int, v));
                        }
                    }
                    assert forall|j: int|
                        #![trigger self.has_segment(socket as int, j)]
                        self.has_segment(socket as int, j) implies !is_candidate(
                        self.segment(socket as int, j),
                        self.config.compaction_threshold,
                    ) by {
                        assert(middle.has_segment(socket as int, j));
                    }
                }
                return false;
            },
        };
        proof {
            assert(middle.has_segment(socket as int, victim as int));
            assert(old(self).has_segment(socket as int, victim as int));
            assert(old(self).is_victim(socket as int, victim as int)) by {
                assert forall|j: int|
                    #![trigger old(self).has_segment(socket as int, j)]
                    old(self).has_segment(socket as int, j) && j != victim && is_candidate(
                        old(self).segment(socket as int, j),
                        self.config.compaction_threshold,
                    ) implies precedes(
                    old(self).segment(socket as int, victim as int),
                    old(self).segment(socket as int, j),
                ) by {
                    assert(middle.has_segment(socket as int, j));
                }
            }
            assert forall|v: int| #[trigger]
                old(self).is_victim(socket as int, v) implies v == victim by {
                if v != victim {
                    assert(old(self).has_segment(socket as int, v));
                    assert(old(self).has_segment(socket as int, victim as int));
                    assert(old(self).logs@[socket as int].wf());
                    assert(old(self).logs@[socket as int].manager.occupied(v));
                    assert(old(self).logs@[socket as int].manager.occupied(victim as int));
                }
            }
            assert(old(self).no_victim(socket as int) ==> false);
            assert forall|s: int, j: int| s != socket || j != victim implies #[trigger] self.dead_in(
                s,
                j,
            ) == old(self).dead_in(s, j) by {
                assert(middle.dead_in(s, j) == old(self).dead_in(s, j));
            }
            assert forall|s: int|
                0 <= s < old(self).logs@.len() implies (#[trigger] self.logs@[s]).manager.blocks()
                == old(self).logs@[s].manager.blocks() by {
                assert(middle.logs@[s].manager.blocks() == old(self).logs@[s].manager.blocks());
            }
            crate::nibble::manager::lemma_exceeds_positive(
                old(self).segment(socket as int, victim as int).dead_bytes as int,
                old(self).segment(socket as int, victim as int).live_bytes as int,
                self.config.compaction_threshold,
            );
            assert(self.logs@[socket as int].wf());
            assert(self.logs@[socket as int].manager.occupied(victim as int));
        }
        let ghost first_live = self.segment(socket as int, victim as int).live_bytes;
        let ghost round = *self;
        let ghost records = self.segment(socket as int, victim as int).records@;
        assert(self.logs@[socket as int].manager.occupied(victim as int));
        let end = match &self.logs[socket].manager.slots[victim] {
            Some(segment) => segment.head(),
            None => 0,
        };
        let mut offset: usize = 0;
        let ghost mut i: int = 0;
        let mut stuck = false;
        proof {
            assert(self.logs@[socket as int].wf());
            if records.len() > 0 {
                self.segment(socket as int, victim as int).lemma_record_within(0);
            } else {
                reveal(crate::nibble::segment::laid_out);
            }
        }
        while offset < end && !stuck
            invariant
                self.wf(),
                self@ == old(self)@,
                self.config == old(self).config,
                self.compacting == old(self).compacting,
                self.epoch.locals@ == old(self).epoch.locals@,
                self.sockets() == old(self).sockets(),
                same_shape(*old(self), *self),
                dead_kept_but(*old(self), *self, socket as int, victim as int),
                self.epoch == round.epoch,
                socket < self.sockets(),
                self.has_segment(socket as int, victim as int),
                self.segment(socket as int, victim as int).state == SegmentState::Compacting,
                self.segment(socket as int, victim as int).records@ == records,
                self.segment(socket as int, victim as int).head_offset() == end,
                self.segment(socket as int, victim as int).live_bytes <= first_live,
                0 <= i <= records.len(),
                offset <= end,
                offset == (if i < records.len() {
                    records[i].offset
                } else {
                    end as nat
                }),
                forall|r: int|
                    0 <= r < i ==> !(#[trigger] is_live(
                        self.places@,
                        Location { socket: socket as int, slot: victim as int, record: r },
                        records[r].key,
                    )),
                stuck ==> self.segment(socket as int, victim as int).live_bytes > 0
                    && self.jammed(socket as int),
            decreases
                    end - offset + (if stuck {
                        0int
                    } else {
                        1int
                    }),
        {
            let ghost before = *self;
            proof {
                assert(self.logs@[socket as int].wf());
                assert(self.logs@[socket as int].manager.occupied(victim as int));
                self.segment(socket as int, victim as int).lemma_record_within(i);
            }
            match self.relocate(socket, victim, offset, Ghost(i)) {
                Some(size) => {
                    proof {
                        assert forall|r: int| 0 <= r < i + 1 implies !(#[trigger] is_live(
                            self.places@,
                            Location { socket: socket as int, slot: victim as int, record: r },
                            records[r].key,
                        )) by {
                            if is_live(
                                self.places@,
                                Location { socket: socket as int, slot: victim as int, record: r },
                                records[r].key,
                            ) {
                                assert(is_live(
                                    before.places@,
                                    Location {
                                        socket: socket as int,
                                        slot: victim as int,
                                        record: r,
                                    },
                                    records[r].key,
                                ));
                            }
                        }
                        i = i + 1;
                    }
                    offset = offset + size;
                },
                None => {
                    proof {
                        assert(self.accounted(socket as int, victim as int, None));
                        lemma_live_sum_covers(
                            records,
                            self.places@,
                            socket as int,
                            victim as int,
                            records.len() as int,
                            i,
                        );
                        before.segment(socket as int, victim as int).lemma_record_within(i);
                    }
                    stuck = true;
                },
            }
        }
        assert(self.logs@[socket as int].wf());
        assert(self.logs@[socket as int].manager.occupied(victim as int));
        proof {
            if !stuck {
                if i < records.len() {
                    self.segment(socket as int, victim as int).lemma_record_within(i);
                }
                assert(self.accounted(socket as int, victim as int, None));
                lemma_live_sum_none(
                    records,
                    self.places@,
                    socket as int,
                    victim as int,
                    records.len() as int,
                );
            }
        }
        let live = match &self.logs[socket].manager.slots[victim] {
            Some(segment) => segment.live_bytes,
            None => 0,
        };
        if live == 0 {
            self.retire(socket, victim);
            proof {
                let blocks = old(self).logs@[socket as int].manager.blocks() as int;
                self.lemma_dead_on_change(*old(self), socket as int, victim as int, blocks);
                crate::nibble::manager::lemma_exceeds_positive(
                    old(self).segment(socket as int, victim as int).dead_bytes as int,
                    old(self).segment(socket as int, victim as int).live_bytes as int,
                    self.config.compaction_threshold,
                );
            }
            true
        } else {
            self.reclose(socket, victim);
            false
        }
    }

    /// The memory of a retired segment returns: once the threads reach,
    /// with the next epoch, the epoch for which the segment is scheduled,
    /// the log of the socket has room for any record, unless the
    /// identifiers of segments are used up.
    pub proof fn lemma_room_after_retirement(self, socket: int, v: int, size: nat)
        requires
            self.wf(),
            self.has_segment(socket, v),
            self.segment(socket, v).state == SegmentState::Retired,
            self.segment(socket, v).retire_epoch <= self.epoch.next_horizon(),
            self.logs@[socket].manager.next_id < u64::MAX,
        ensures
            self.room_on(socket, size),
    {
        assert(self.logs@[socket].manager.occupied(v));
    }

    /// Whether a segment of `socket` is retired and scheduled for the next
    /// epoch or an earlier one.
    pub open spec fn relieved(&self, socket: int) -> bool {
        exists|v: int| #[trigger]
            self.has_segment(socket, v) && self.segment(socket, v).state
                == SegmentState::Retired && self.segment(socket, v).retire_epoch <= next_epoch(
                self.epoch.global,
            )
    }

    /// The memory of a retired segment is worth a segment: if a segment of
    /// the socket is retired and scheduled for the next epoch, and no
    /// registered thread is behind the current epoch, then records that
    /// take up to a segment's bytes in all can be stored on the socket,
    /// one PUT after the other, without memory running out, unless the
    /// identifiers of segments are used up.
    pub proof fn lemma_segment_worth(self, socket: int)
        requires
            self.wf(),
            self.relieved(socket),
            self.epoch.next_horizon() == next_epoch(self.epoch.global),
            self.logs@[socket].manager.next_id < u64::MAX,
        ensures
            self.holds_room(socket, self.config.segment_size as int),
            forall|budget: int|
                budget <= self.config.segment_size ==> #[trigger] self.holds_room(socket, budget),
    {
        let v = choose|v: int| #[trigger]
            self.has_segment(socket, v) && self.segment(socket, v).state == SegmentState::Retired
                && self.segment(socket, v).retire_epoch <= next_epoch(self.epoch.global);
        assert(self.logs@[socket].manager.occupied(v));
        assert(self.logs@[socket].wf());
    }

    /// A store without registered threads has none behind the current
    /// epoch.
    pub proof fn lemma_no_thread_behind(self)
        requires
            self.epoch.locals@.len() == 0,
        ensures
            self.epoch.next_horizon() == next_epoch(self.epoch.global),
    {
    }

    /// Runs rounds of the compactor of `socket` until one retires no
    /// segment: because compaction is not enabled there, or no segment is
    /// worth compacting, or the log cannot take the live records of the
    /// one that is. Returns whether a segment was retired.
    pub fn run_compaction(&mut self, socket: usize) -> (any: bool)
        requires
            old(self).wf(),
        ensures
            final(self).wf(),
            final(self)@ == old(self)@,
            final(self).config == old(self).config,
            final(self).compacting == old(self).compacting,
            final(self).epoch.locals@ == old(self).epoch.locals@,
            final(self).sockets() == old(self).sockets(),
            same_shape(*old(self), *final(self)),
            socket < old(self).sockets() && old(self).compacting@[socket as int]
                ==> final(self).no_victim(socket as int) || final(self).jammed(socket as int),
            socket >= old(self).sockets() || !old(self).compacting@[socket as int] ==> !any,
    {
        if socket >= self.logs.len() {
            return false;
        }
        let mut any = false;
        let ghost blocks = self.logs@[socket as int].manager.blocks() as int;
        loop
            invariant_except_break
                self.wf(),
                self@ == old(self)@,
                self.config == old(self).config,
                self.compacting == old(self).compacting,
                self.epoch.locals@ == old(self).epoch.locals@,
                self.sockets() == old(self).sockets(),
                same_shape(*old(self), *self),
                socket < self.sockets(),
                blocks == self.logs@[socket as int].manager.blocks(),
                !old(self).compacting@[socket as int] ==> !any,
            ensures
                self.wf(),
                self@ == old(self)@,
                self.config == old(self).config,
                self.compacting == old(self).compacting,
                self.epoch.locals@ == old(self).epoch.locals@,
                self.sockets() == old(self).sockets(),
                same_shape(*old(self), *self),
                old(self).compacting@[socket as int] ==> self.no_victim(socket as int)
                    || self.jammed(socket as int),
                !old(self).compacting@[socket as int] ==> !any,
            decreases self.dead_on(socket as int, blocks),
        {
            let ghost before = *self;
            proof {
                self.lemma_dead_on_bounds(socket as int, blocks);
            }
            let retired = self.compact(socket);
            proof {
                self.lemma_dead_on_bounds(socket as int, blocks);
                assert(self.logs@[socket as int].manager.blocks() == before.logs@[socket
                    as int].manager.blocks());
            }
            if !retired {
                break ;
            }
            any = true;
        }
        any
    }
}

} // verus!
