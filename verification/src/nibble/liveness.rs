//! Which records are live: the bookkeeping that ties the index to the
//! segments' byte counters.

use crate::nibble::segment::Record;
use vstd::prelude::*;

verus! {

/// The place of a record: its socket, the block of that socket's region
/// that holds its segment, and its number within the segment.
pub struct Location {
    pub socket: int,
    pub slot: int,
    pub record: int,
}

/// Whether the record of `key` at `at` is the one the index refers to.
pub open spec fn is_live(places: Map<u64, Location>, at: Location, key: u64) -> bool {
    places.contains_key(key) && places[key] == at
}

/// At most one record of a key is live.
pub proof fn lemma_one_live(places: Map<u64, Location>, a: Location, b: Location, key: u64)
    requires
        is_live(places, a, key),
        is_live(places, b, key),
    ensures
        a == b,
{
}

/// Bytes of the live records among the first `n` of a segment.
pub open spec fn live_sum(
    records: Seq<Record>,
    places: Map<u64, Location>,
    socket: int,
    slot: int,
    n: int,
) -> int
    decreases n,
{
    if n <= 0 {
        0
    } else {
        live_sum(records, places, socket, slot, n - 1) + if is_live(
            places,
            Location { socket, slot, record: n - 1 },
            records[n - 1].key,
        ) {
            records[n - 1].size() as int
        } else {
            0
        }
    }
}

/// The live bytes of a prefix do not depend on the records after it.
pub proof fn lemma_live_sum_prefix(
    a: Seq<Record>,
    b: Seq<Record>,
    places: Map<u64, Location>,
    socket: int,
    slot: int,
    n: int,
)
    requires
        0 <= n <= a.len(),
        n <= b.len(),
        forall|i: int| 0 <= i < n ==> a[i] == b[i],
    ensures
        live_sum(a, places, socket, slot, n) == live_sum(b, places, socket, slot, n),
    decreases n,
{
    if n > 0 {
        lemma_live_sum_prefix(a, b, places, socket, slot, n - 1);
    }
}

/// The live bytes of a segment are at least those of any one live record.
pub proof fn lemma_live_sum_covers(
    records: Seq<Record>,
    places: Map<u64, Location>,
    socket: int,
    slot: int,
    n: int,
    i: int,
)
    requires
        0 <= n <= records.len(),
    ensures
        0 <= live_sum(records, places, socket, slot, n),
        0 <= i < n && is_live(places, Location { socket, slot, record: i }, records[i].key)
            ==> live_sum(records, places, socket, slot, n) >= records[i].size(),
    decreases n,
{
    if n > 0 {
        lemma_live_sum_covers(records, places, socket, slot, n - 1, i);
    }
}

/// The live bytes of a segment without a live record are zero.
pub proof fn lemma_live_sum_none(
    records: Seq<Record>,
    places: Map<u64, Location>,
    socket: int,
    slot: int,
    n: int,
)
    requires
        0 <= n <= records.len(),
        forall|i: int|
            0 <= i < n ==> !is_live(places, Location { socket, slot, record: i }, records[i].key),
    ensures
        live_sum(records, places, socket, slot, n) == 0,
    decreases n,
{
    if n > 0 {
        lemma_live_sum_none(records, places, socket, slot, n - 1);
    }
}

/// What the record of `key` that `places` refers to adds to the live bytes
/// of the first `n` records of the segment at `socket` and `slot`.
pub open spec fn share(
    records: Seq<Record>,
    places: Map<u64, Location>,
    socket: int,
    slot: int,
    n: int,
    key: u64,
) -> int {
    if places.contains_key(key) && places[key].socket == socket && places[key].slot == slot && 0
        <= places[key].record < n && records[places[key].record].key == key {
        records[places[key].record].size() as int
    } else {
        0
    }
}

/// Whether two maps of places differ at most for `key`.
pub open spec fn same_but(before: Map<u64, Location>, after: Map<u64, Location>, key: u64) -> bool {
    forall|k: u64|
        k != key ==> (#[trigger] before.contains_key(k)) == after.contains_key(k) && (
        before.contains_key(k) ==> before[k] == after[k])
}

/// When the index changes for one key only, the live bytes of a segment
/// change by what the key's old record added and what its new record adds.
pub proof fn lemma_live_sum_change(
    records: Seq<Record>,
    before: Map<u64, Location>,
    after: Map<u64, Location>,
    socket: int,
    slot: int,
    n: int,
    key: u64,
)
    requires
        0 <= n <= records.len(),
        same_but(before, after, key),
    ensures
        live_sum(records, after, socket, slot, n) == live_sum(records, before, socket, slot, n)
            - share(records, before, socket, slot, n, key) + share(
            records,
            after,
            socket,
            slot,
            n,
            key,
        ),
    decreases n,
{
    if n > 0 {
        lemma_live_sum_change(records, before, after, socket, slot, n - 1, key);
        let k = records[n - 1].key;
        let at = Location { socket, slot, record: n - 1 };
        if k != key {
            assert(before.contains_key(k) == after.contains_key(k));
            assert(is_live(before, at, k) == is_live(after, at, k));
        } else {
            assert(is_live(before, at, k) ==> share(records, before, socket, slot, n, key)
                == records[n - 1].size());
            assert(is_live(after, at, k) ==> share(records, after, socket, slot, n, key)
                == records[n - 1].size());
        }
    }
}

} // verus!
