//! Index entries: fat pointers that name the socket and the virtual address
//! of an object record.

use crate::nibble::common::ErrorCode;
use crate::nibble::model::{spec_del, spec_get, spec_put};
use vstd::prelude::*;

verus! {

/// Fat pointer as the value in every index entry.
///
/// | Socket ID | Virtual Address |
/// |  16 bits  |     48 bits     |
pub type IndexEntry = u64;

/// Number of bits of an entry that hold the virtual address.
pub const ADDRESS_BITS: u32 = 48;

/// One more than the largest virtual address an entry can hold.
pub const ADDRESS_LIMIT: u64 = 0x1_0000_0000_0000;

/// The socket named by an entry.
pub open spec fn entry_socket(entry: u64) -> int {
    entry as int / 0x1_0000_0000_0000
}

/// The virtual address named by an entry.
pub open spec fn entry_address(entry: u64) -> int {
    entry as int % 0x1_0000_0000_0000
}

/// The entry that names `socket` and the low 48 bits of `va`.
pub open spec fn entry_of(socket: u16, va: u64) -> int {
    socket as int * 0x1_0000_0000_0000 + va as int % 0x1_0000_0000_0000
}

/// Decompose an index entry into its socket and its virtual address.
#[inline(always)]
pub fn extract(entry: IndexEntry) -> (parts: (u16, u64))
    ensures
        parts.0 as int == entry_socket(entry),
        parts.1 as int == entry_address(entry),
{
    assert(entry >> 48 <= 0xffff) by (bit_vector);
    assert(entry >> 48 == entry / 0x1_0000_0000_0000) by (bit_vector);
    assert(entry & 0xffff_ffff_ffff == entry % 0x1_0000_0000_0000) by (bit_vector);
    assert((1u64 << 48) - 1 == 0xffff_ffff_ffff) by (bit_vector);
    ((entry >> 48) as u16, entry & ((1u64 << 48) - 1))
}

/// Create an index entry from the socket and the virtual address. Bits of
/// `va` above the 48th are dropped.
#[inline(always)]
pub fn merge(socket: u16, va: u64) -> (entry: IndexEntry)
    ensures
        entry as int == entry_of(socket, va),
{
    let wide: u64 = socket as u64;
    assert((1u64 << 48) - 1 == 0xffff_ffff_ffff) by (bit_vector);
    assert((wide << 48) | (va & 0xffff_ffff_ffff) == wide * 0x1_0000_0000_0000 + va
        % 0x1_0000_0000_0000) by (bit_vector)
        requires
            wide <= 0xffff,
    ;
    (wide << 48) | (va & ((1u64 << 48) - 1))
}

/// Splitting a merged entry gives back the socket and the low 48 bits of the
/// address.
pub proof fn lemma_extract_merge(socket: u16, va: u64)
    ensures
        0 <= entry_of(socket, va) <= u64::MAX,
        entry_socket(entry_of(socket, va) as u64) == socket,
        entry_address(entry_of(socket, va) as u64) == va as int % 0x1_0000_0000_0000,
{
}

/// Merging the two parts of an entry gives back the entry.
pub proof fn lemma_merge_extract(entry: u64)
    ensures
        0 <= entry_socket(entry) <= u16::MAX,
        0 <= entry_address(entry) < 0x1_0000_0000_0000,
        entry_of(entry_socket(entry) as u16, entry_address(entry) as u64) == entry,
{
}


/// The largest number of partitions of an [`Index`].
pub const PARTITION_LIMIT: usize = 0x1_0000;

/// Number of entries that may live in the overflow stash of an [`Index`].
pub const STASH_CAPACITY: usize = 8;

/// Longest chain of moves by which an insertion frees a cell for its pair;
/// a pair for which no such chain is found goes to the stash.
pub const MAX_DISPLACEMENTS: usize = 16;

/// The odd factor of the hash that selects the partition of a key.
pub const SHARD_FACTOR: u64 = 0x9E37_79B9_7F4A_7C15;

/// The odd factor of the hash that selects the first cell of a key.
pub const FIRST_FACTOR: u64 = 0xC2B2_AE3D_27D4_EB4F;

/// The odd factor of the hash that selects the second cell of a key.
pub const SECOND_FACTOR: u64 = 0x1656_67B1_9E37_79F9;

/// One cell of the table.
#[derive(Clone, Copy)]
pub struct Slot {
    pub used: bool,
    pub key: u64,
    pub value: IndexEntry,
}

/// Where a key was found.
enum Place {
    /// In the table, at this position.
    Table(usize),
    /// In the stash, at this position.
    Stash(usize),
    /// Nowhere.
    Absent,
}

/// A multiplicative hash of `key`: the upper half of the product with an
/// odd `factor`.
pub open spec fn spec_spread(key: u64, factor: u64) -> u64 {
    key.wrapping_mul(factor) >> 32
}

fn spread(key: u64, factor: u64) -> (h: u64)
    ensures
        h == spec_spread(key, factor),
{
    key.wrapping_mul(factor) >> 32
}

/// The position in a table of `shards` partitions with `per_shard` cells
/// each at which `factor` places `key`. The partition is picked by a hash
/// of the key alone, so both candidate cells of a key share a partition.
#[verifier::opaque]
pub open spec fn spec_position(key: u64, factor: u64, shards: usize, per_shard: usize) -> int {
    (spec_spread(key, SHARD_FACTOR) as int % shards as int) * per_shard as int
        + spec_spread(key, factor) as int % per_shard as int
}

proof fn lemma_position_in_range(shard: int, offset: int, shards: int, per_shard: int)
    by (nonlinear_arith)
    requires
        0 <= shard < shards,
        0 <= offset < per_shard,
    ensures
        0 <= shard * per_shard + offset < shards * per_shard,
{
}

fn position(key: u64, factor: u64, shards: usize, per_shard: usize) -> (p: usize)
    requires
        shards >= 1,
        per_shard >= 1,
        shards * per_shard <= usize::MAX,
    ensures
        p == spec_position(key, factor, shards, per_shard),
        p < shards * per_shard,
{
    let shard: usize = (spread(key, SHARD_FACTOR) % (shards as u64)) as usize;
    let offset: usize = (spread(key, factor) % (per_shard as u64)) as usize;
    proof {
        reveal(spec_position);
        lemma_position_in_range(shard as int, offset as int, shards as int, per_shard as int);
    }
    shard * per_shard + offset
}

/// Number of cells in use among the first `n` of `slots`.
pub open spec fn count_used(slots: Seq<Slot>, n: int) -> int
    decreases n,
{
    if n <= 0 {
        0
    } else {
        count_used(slots, n - 1) + if slots[n - 1].used {
            1int
        } else {
            0int
        }
    }
}

proof fn lemma_count_used_bounds(slots: Seq<Slot>, n: int)
    requires
        0 <= n <= slots.len(),
    ensures
        0 <= count_used(slots, n) <= n,
    decreases n,
{
    if n > 0 {
        lemma_count_used_bounds(slots, n - 1);
    }
}

proof fn lemma_count_used_update(slots: Seq<Slot>, p: int, cell: Slot, n: int)
    requires
        0 <= p < slots.len(),
        0 <= n <= slots.len(),
    ensures
        count_used(slots.update(p, cell), n) == count_used(slots, n) + if p < n {
            (if cell.used {
                1int
            } else {
                0int
            }) - (if slots[p].used {
                1int
            } else {
                0int
            })
        } else {
            0int
        },
    decreases n,
{
    if n > 0 {
        lemma_count_used_update(slots, p, cell, n - 1);
    }
}

/// The positions of a chain as integers.
pub open spec fn ints(path: Seq<usize>) -> Seq<int> {
    Seq::new(path.len(), |i: int| path[i] as int)
}

/// Whether cell `p` is on `path`.
fn member(path: &Vec<usize>, p: usize) -> (yes: bool)
    ensures
        yes == ints(path@).contains(p as int),
{
    let mut i: usize = 0;
    while i < path.len()
        invariant
            i <= path@.len(),
            forall|j: int| 0 <= j < i ==> path@[j] != p,
        decreases path@.len() - i,
    {
        if path[i] == p {
            assert(ints(path@)[i as int] == p);
            return true;
        }
        i = i + 1;
    }
    proof {
        if ints(path@).contains(p as int) {
            let j = choose|j: int| 0 <= j < ints(path@).len() && ints(path@)[j] == p as int;
            assert(path@[j] == p);
        }
    }
    false
}

/// Whether some entry of `stash` holds `key`.
pub open spec fn stash_has(stash: Seq<(u64, u64)>, key: u64) -> bool {
    exists|i: int| 0 <= i < stash.len() && (#[trigger] stash[i]).0 == key
}

/// Index structure that allows us to retrieve objects from the log: a map
/// from keys to index entries, kept in a table of fixed size.
///
/// Every key has two cells, both in the partition that a hash of the key
/// selects, and is held in one of them. A key that finds both taken moves
/// an occupant on to its other cell, along a chain of bounded length; if
/// there is no such chain the key goes to a small stash; if the stash is
/// full the key cannot be given an entry. The table never grows.
pub struct Index {
    slots: Vec<Slot>,
    stash: Vec<(u64, u64)>,
    shards: usize,
    per_shard: usize,
    used_slots: usize,
    model: Ghost<Map<u64, u64>>,
}

impl View for Index {
    type V = Map<u64, u64>;

    closed spec fn view(&self) -> Map<u64, u64> {
        self.model@
    }
}

impl Index {
    /// First candidate cell of `key`.
    pub closed spec fn first(&self, key: u64) -> int {
        spec_position(key, FIRST_FACTOR, self.shards, self.per_shard)
    }

    /// Second candidate cell of `key`.
    pub closed spec fn second(&self, key: u64) -> int {
        spec_position(key, SECOND_FACTOR, self.shards, self.per_shard)
    }

    /// Whether the cell at `p` holds `key`.
    pub closed spec fn holds(&self, p: int, key: u64) -> bool {
        0 <= p < self.slots@.len() && self.slots@[p].used && self.slots@[p].key == key
    }

    /// Whether the cell at `p` is free.
    pub closed spec fn vacant(&self, p: int) -> bool {
        0 <= p < self.slots@.len() && !self.slots@[p].used
    }

    /// The sizes of the table and the stash, and the count of cells in use.
    pub closed spec fn sized(&self) -> bool {
        &&& self.shards >= 1
        &&& self.per_shard >= 1
        &&& self.slots@.len() == self.shards * self.per_shard
        &&& self.slots@.len() + STASH_CAPACITY <= usize::MAX
        &&& self.stash@.len() <= STASH_CAPACITY
        &&& self.used_slots == count_used(self.slots@, self.slots@.len() as int)
    }

    /// Every cell in use holds a pair of the map, at one of the two
    /// positions of its key, and its key is neither in the stash nor spare.
    pub closed spec fn cells_sound(&self, spare: Option<(u64, u64)>) -> bool {
        forall|p: int|
            0 <= p < self.slots@.len() && (#[trigger] self.slots@[p]).used ==> {
                &&& self.model@.contains_key(self.slots@[p].key)
                &&& self.model@[self.slots@[p].key] == self.slots@[p].value
                &&& (p == self.first(self.slots@[p].key) || p == self.second(self.slots@[p].key))
                &&& !stash_has(self.stash@, self.slots@[p].key)
                &&& (spare matches Some(pair) ==> pair.0 != self.slots@[p].key)
            }
    }

    /// Every entry of the stash is a pair of the map, and no key is in the
    /// stash twice or spare.
    pub closed spec fn stash_sound(&self, spare: Option<(u64, u64)>) -> bool {
        &&& forall|i: int|
            0 <= i < self.stash@.len() ==> {
                &&& self.model@.contains_key((#[trigger] self.stash@[i]).0)
                &&& self.model@[self.stash@[i].0] == self.stash@[i].1
                &&& (spare matches Some(pair) ==> pair.0 != self.stash@[i].0)
            }
        &&& forall|i: int, j: int|
            0 <= i < j < self.stash@.len() ==> (#[trigger] self.stash@[i]).0 != (
            #[trigger] self.stash@[j]).0
    }

    /// Every key of the map is held in one of its two cells or in the
    /// stash, or is the spare one.
    pub closed spec fn keys_held(&self, spare: Option<(u64, u64)>) -> bool {
        forall|k: u64| #[trigger]
            self.model@.contains_key(k) ==> {
                ||| self.holds(self.first(k), k)
                ||| self.holds(self.second(k), k)
                ||| stash_has(self.stash@, k)
                ||| spare == Some((k, self.model@[k]))
            }
    }

    /// No key is held in both of its cells.
    pub closed spec fn held_once(&self) -> bool {
        forall|k: u64|
            !(#[trigger] self.holds(self.first(k), k) && self.holds(self.second(k), k)
                && self.first(k) != self.second(k))
    }

    /// The table and the stash hold exactly the pairs of the map, each key
    /// once, each in a place where a lookup finds it. The one exception is
    /// `spare`: a pair of the map that is held nowhere yet, while its
    /// insertion is under way.
    pub closed spec fn inv(&self, spare: Option<(u64, u64)>) -> bool {
        &&& self.sized()
        &&& self.model@.dom().finite()
        &&& self.model@.dom().len() == self.used_slots + self.stash@.len() + (if spare is Some {
            1int
        } else {
            0int
        })
        &&& self.cells_sound(spare)
        &&& self.stash_sound(spare)
        &&& self.keys_held(spare)
        &&& self.held_once()
        &&& (spare matches Some(pair) ==> {
            &&& self.model@.contains_key(pair.0)
            &&& self.model@[pair.0] == pair.1
        })
    }

    /// The shape of the table, which fixes the two cells of every key.
    pub closed spec fn geometry(&self) -> (usize, usize, nat) {
        (self.shards, self.per_shard, self.slots@.len())
    }

    /// The representation invariant: the table and the stash hold exactly
    /// the pairs of the map, each key once, each in a place where a lookup
    /// finds it.
    pub closed spec fn wf(&self) -> bool {
        self.inv(None)
    }

    /// The other of the two cells of `key` than `p`.
    pub closed spec fn other(&self, key: u64, p: int) -> int {
        if p == self.first(key) {
            self.second(key)
        } else {
            self.first(key)
        }
    }

    /// Whether the chain of occupants that starts at cell `p` ends in a
    /// free cell: the occupant of `p` could move to its other cell if the
    /// occupant of that cell moved to its other cell, and so on, for at
    /// most `budget` moves and without coming back to a cell of `seen` or
    /// of the chain.
    pub closed spec fn reaches(&self, p: int, budget: nat, seen: Seq<int>) -> bool
        decreases budget,
    {
        if !(0 <= p < self.slots@.len()) {
            false
        } else if !self.slots@[p].used {
            true
        } else if budget == 0 || seen.contains(p) {
            false
        } else {
            self.reaches(self.other(self.slots@[p].key, p), (budget - 1) as nat, seen.push(p))
        }
    }

    /// Whether a chain ends in a free cell depends only on which cells
    /// are in use, and for which keys.
    proof fn lemma_reaches_same(self, before: Index, p: int, budget: nat, seen: Seq<int>)
        requires
            self.shards == before.shards,
            self.per_shard == before.per_shard,
            self.slots@.len() == before.slots@.len(),
            forall|q: int|
                0 <= q < self.slots@.len() ==> (#[trigger] self.slots@[q]).used
                    == before.slots@[q].used && self.slots@[q].key == before.slots@[q].key,
        ensures
            self.reaches(p, budget, seen) == before.reaches(p, budget, seen),
        decreases budget,
    {
        if 0 <= p < self.slots@.len() && self.slots@[p].used && budget > 0 && !seen.contains(p) {
            assert(before.slots@[p].used);
            self.lemma_reaches_same(
                before,
                self.other(self.slots@[p].key, p),
                (budget - 1) as nat,
                seen.push(p),
            );
        }
    }

    /// A chain that ends in a free cell still does when a cell is freed.
    proof fn lemma_reaches_freed(self, before: Index, freed: int, p: int, budget: nat, seen: Seq<int>)
        requires
            self.shards == before.shards,
            self.per_shard == before.per_shard,
            self.slots@.len() == before.slots@.len(),
            !self.slots@[freed].used,
            forall|q: int|
                0 <= q < self.slots@.len() && q != freed ==> #[trigger] self.slots@[q]
                    == before.slots@[q],
            before.reaches(p, budget, seen),
        ensures
            self.reaches(p, budget, seen),
        decreases budget,
    {
        if p != freed && self.slots@[p].used {
            assert(before.slots@[p] == self.slots@[p]);
            self.lemma_reaches_freed(
                before,
                freed,
                self.other(self.slots@[p].key, p),
                (budget - 1) as nat,
                seen.push(p),
            );
        }
    }

    /// Whether `path` is a chain of occupants that ends in a free cell:
    /// it visits no cell twice, every cell but the last is in use and
    /// followed by the other cell of its occupant, and the last is free.
    pub closed spec fn chain(&self, path: Seq<usize>) -> bool {
        &&& 1 <= path.len() <= MAX_DISPLACEMENTS + 1
        &&& forall|i: int| 0 <= i < path.len() ==> (#[trigger] path[i]) < self.slots@.len()
        &&& forall|i: int|
            0 <= i < path.len() - 1 ==> self.slots@[(#[trigger] path[i]) as int].used && path[i
                + 1] == self.other(self.slots@[path[i] as int].key, path[i] as int)
        &&& !self.slots@[path.last() as int].used
        &&& forall|i: int, j: int|
            0 <= i < j < path.len() ==> (#[trigger] path[i]) != (#[trigger] path[j])
    }

    /// The other of the two cells of `key` than `p`.
    fn alternate(&self, key: u64, p: usize) -> (q: usize)
        requires
            self.sized(),
        ensures
            q == self.other(key, p as int),
            q < self.slots@.len(),
    {
        let one = position(key, FIRST_FACTOR, self.shards, self.per_shard);
        let two = position(key, SECOND_FACTOR, self.shards, self.per_shard);
        if p == one {
            two
        } else {
            one
        }
    }

    /// Follows the chain of occupants that starts at cell `start` and
    /// returns it if it ends in a free cell.
    fn seek(&self, start: usize) -> (found: Option<Vec<usize>>)
        requires
            self.sized(),
            start < self.slots@.len(),
        ensures
            found is Some <==> self.reaches(
                start as int,
                MAX_DISPLACEMENTS as nat,
                Seq::<int>::empty(),
            ),
            found matches Some(path) ==> self.chain(path@) && path@[0] == start,
    {
        let mut path: Vec<usize> = Vec::new();
        let mut p = start;
        assert(ints(path@) =~= Seq::<int>::empty());
        loop
            invariant
                self.sized(),
                p < self.slots@.len(),
                path@.len() <= MAX_DISPLACEMENTS,
                forall|i: int|
                    0 <= i < path@.len() ==> (#[trigger] path@[i]) < self.slots@.len()
                        && self.slots@[path@[i] as int].used,
                forall|i: int|
                    0 <= i < path@.len() - 1 ==> path@[i + 1] == self.other(
                        self.slots@[(#[trigger] path@[i]) as int].key,
                        path@[i] as int,
                    ),
                forall|i: int, j: int|
                    0 <= i < j < path@.len() ==> (#[trigger] path@[i]) != (#[trigger] path@[j]),
                path@.len() == 0 ==> p == start,
                path@.len() > 0 ==> path@[0] == start && p == self.other(
                    self.slots@[path@.last() as int].key,
                    path@.last() as int,
                ),
                self.reaches(start as int, MAX_DISPLACEMENTS as nat, Seq::<int>::empty())
                    == self.reaches(
                    p as int,
                    (MAX_DISPLACEMENTS - path@.len()) as nat,
                    ints(path@),
                ),
            decreases MAX_DISPLACEMENTS - path@.len(),
        {
            let cell = self.slots[p];
            if !cell.used {
                let ghost before = path@;
                path.push(p);
                proof {
                    assert forall|i: int, j: int| 0 <= i < j < path@.len() implies (
                    #[trigger] path@[i]) != (#[trigger] path@[j]) by {
                        if j == before.len() {
                            assert(self.slots@[before[i] as int].used);
                        }
                    }
                }
                return Some(path);
            }
            if path.len() == MAX_DISPLACEMENTS || member(&path, p) {
                return None;
            }
            let ghost before = path@;
            path.push(p);
            proof {
                assert(ints(path@) =~= ints(before).push(p as int));
                assert forall|i: int, j: int| 0 <= i < j < path@.len() implies (
                #[trigger] path@[i]) != (#[trigger] path@[j]) by {
                    if j == before.len() {
                        assert(ints(before)[i] == before[i]);
                    }
                }
            }
            p = self.alternate(cell.key, p);
        }
    }

    /// Moves the occupant of cell `a` to its other cell `b`, which is
    /// free.
    fn shift(&mut self, a: usize, b: usize)
        requires
            old(self).wf(),
            a < old(self).slots@.len(),
            b < old(self).slots@.len(),
            old(self).slots@[a as int].used,
            !old(self).slots@[b as int].used,
            b == old(self).other(old(self).slots@[a as int].key, a as int),
        ensures
            final(self).wf(),
            final(self).model@ == old(self).model@,
            final(self).geometry() == old(self).geometry(),
            final(self).stash == old(self).stash,
            final(self).slots@ == old(self).slots@.update(b as int, old(self).slots@[a as int]).update(
                a as int,
                Slot { used: false, key: 0, value: 0 },
            ),
    {
        let cell = self.slots[a];
        let empty = Slot { used: false, key: 0, value: 0 };
        proof {
            lemma_count_used_update(self.slots@, b as int, cell, self.slots@.len() as int);
            lemma_count_used_update(
                self.slots@.update(b as int, cell),
                a as int,
                empty,
                self.slots@.len() as int,
            );
        }
        self.slots[b] = cell;
        self.slots[a] = empty;
        proof {
            let before = *old(self);
            let k = cell.key;
            assert(before.holds(a as int, k));
            assert(self.sized());
            assert(self.stash_sound(None));
            assert(self.cells_sound(None)) by {
                assert forall|q: int|
                    0 <= q < self.slots@.len() && (#[trigger] self.slots@[q]).used implies {
                    &&& self.model@.contains_key(self.slots@[q].key)
                    &&& self.model@[self.slots@[q].key] == self.slots@[q].value
                    &&& (q == self.first(self.slots@[q].key) || q == self.second(
                        self.slots@[q].key,
                    ))
                    &&& !stash_has(self.stash@, self.slots@[q].key)
                } by {
                    if q == b {
                        assert(before.slots@[a as int].used);
                    } else {
                        assert(before.slots@[q].used);
                    }
                }
            }
            assert(self.keys_held(None)) by {
                assert forall|x: u64| #[trigger] self.model@.contains_key(x) implies {
                    ||| self.holds(self.first(x), x)
                    ||| self.holds(self.second(x), x)
                    ||| stash_has(self.stash@, x)
                } by {
                    if x == k {
                        assert(self.holds(b as int, k));
                    } else if before.holds(before.first(x), x) {
                        assert(self.holds(self.first(x), x));
                    } else if before.holds(before.second(x), x) {
                        assert(self.holds(self.second(x), x));
                    }
                }
            }
            assert(self.held_once()) by {
                assert forall|x: u64|
                    !(#[trigger] self.holds(self.first(x), x) && self.holds(self.second(x), x)
                        && self.first(x) != self.second(x)) by {
                    if self.holds(self.first(x), x) && self.holds(self.second(x), x)
                        && self.first(x) != self.second(x) {
                        if x == k {
                            let q = if b == self.first(x) {
                                self.second(x)
                            } else {
                                self.first(x)
                            };
                            assert(before.slots@[q].used);
                            before.lemma_cell_unique(None, a as int, q);
                        } else {
                            assert(before.holds(before.first(x), x));
                            assert(before.holds(before.second(x), x));
                        }
                    }
                }
            }
        }
    }

    /// Frees the first cell of `path`: every occupant on the path moves
    /// on to the next cell, the last one first.
    fn clear(&mut self, path: &Vec<usize>)
        requires
            old(self).wf(),
            old(self).chain(path@),
        ensures
            final(self).wf(),
            final(self).model@ == old(self).model@,
            final(self).geometry() == old(self).geometry(),
            final(self).stash == old(self).stash,
            final(self).vacant(path@[0] as int),
    {
        let mut i = path.len() - 1;
        while i > 0
            invariant
                self.wf(),
                old(self).chain(path@),
                self.model@ == old(self).model@,
                self.geometry() == old(self).geometry(),
                self.stash == old(self).stash,
                i < path@.len(),
                !self.slots@[path@[i as int] as int].used,
                forall|j: int|
                    0 <= j < i ==> self.slots@[(#[trigger] path@[j]) as int] == old(
                        self,
                    ).slots@[path@[j] as int],
            decreases i,
        {
            let a = path[i - 1];
            let b = path[i];
            proof {
                assert(self.slots@[path@[i - 1] as int] == old(self).slots@[path@[i - 1] as int]);
                assert(path@[i - 1 + 1] == old(self).other(
                    old(self).slots@[path@[i - 1] as int].key,
                    path@[i - 1] as int,
                ));
            }
            self.shift(a, b);
            proof {
                assert forall|j: int| 0 <= j < i - 1 implies self.slots@[
                    (#[trigger] path@[j]) as int] == old(self).slots@[path@[j] as int] by {
                    assert(path@[j] != path@[i - 1]);
                    assert(path@[j] != path@[i as int]);
                }
            }
            i = i - 1;
        }
    }

    /// Whether `key` can be given an entry: it has one already, or one of
    /// its two cells is free or can be freed by a chain of at most
    /// `MAX_DISPLACEMENTS` moves, or the stash has room.
    pub closed spec fn accepts(&self, key: u64) -> bool {
        ||| self.model@.contains_key(key)
        ||| self.reaches(self.first(key), MAX_DISPLACEMENTS as nat, Seq::<int>::empty())
        ||| self.reaches(self.second(key), MAX_DISPLACEMENTS as nat, Seq::<int>::empty())
        ||| self.stash@.len() < STASH_CAPACITY
    }

    /// Number of cells of the table. It never changes.
    pub closed spec fn capacity(&self) -> nat {
        self.slots@.len()
    }

    /// Number of partitions of the table. It never changes.
    pub closed spec fn partition_count(&self) -> nat {
        self.shards as nat
    }

    /// Number of cells of every partition. It never changes.
    pub closed spec fn cells_per_partition(&self) -> nat {
        self.per_shard as nat
    }

    /// The cells of the table are those of its partitions, and both cells
    /// of a key are cells of the partition of the key.
    pub proof fn lemma_cells_in_partition(&self, key: u64)
        requires
            self.wf(),
        ensures
            0 <= self.partition_of(key) < self.partition_count(),
            self.capacity() == self.partition_count() * self.cells_per_partition(),
            self.partition_of(key) * self.cells_per_partition() <= self.first(key) < (
            self.partition_of(key) + 1) * self.cells_per_partition(),
            self.partition_of(key) * self.cells_per_partition() <= self.second(key) < (
            self.partition_of(key) + 1) * self.cells_per_partition(),
    {
        reveal(spec_position);
        let shard = self.partition_of(key);
        let per = self.per_shard as int;
        assert((shard + 1) * per == shard * per + per) by (nonlinear_arith);
    }

    /// The partition whose cells hold `key`: the one that a hash of the
    /// key selects.
    pub closed spec fn partition_of(&self, key: u64) -> int {
        spec_spread(key, SHARD_FACTOR) as int % self.shards as int
    }

    /// The number of partitions of an index for `nnodes` nodes: one per
    /// node, at least one and at most `PARTITION_LIMIT`.
    pub open spec fn partitions(nnodes: usize) -> usize {
        if nnodes == 0 {
            1
        } else if nnodes > PARTITION_LIMIT {
            PARTITION_LIMIT
        } else {
            nnodes
        }
    }

    /// The number of cells of an index that was asked to hold `capacity`
    /// cells for `nnodes` nodes: as many per partition as `capacity`
    /// allows, at least one, and no more in all than the machine can
    /// count.
    pub open spec fn cells(nnodes: usize, capacity: usize) -> nat {
        let shards = Index::partitions(nnodes);
        let wanted = if capacity < shards {
            shards
        } else if capacity > usize::MAX - STASH_CAPACITY {
            (usize::MAX - STASH_CAPACITY) as usize
        } else {
            capacity
        };
        ((wanted / shards) * shards) as nat
    }

    /// An empty index whose table is split into one partition per node and
    /// holds `capacity` cells in all, rounded down to a multiple of the
    /// number of partitions. Both cells of a key lie in the partition of
    /// the key.
    pub fn new(nnodes: usize, capacity: usize) -> (index: Index)
        ensures
            index.wf(),
            index@ == Map::<u64, u64>::empty(),
            index.partition_count() == Index::partitions(nnodes),
            index.capacity() == Index::cells(nnodes, capacity),
            forall|k: u64| index.accepts(k),
            forall|k: u64| 0 <= #[trigger] index.partition_of(k) < Index::partitions(nnodes),
    {
        let shards: usize = if nnodes == 0 {
            1
        } else if nnodes > PARTITION_LIMIT {
            PARTITION_LIMIT
        } else {
            nnodes
        };
        let wanted: usize = if capacity < shards {
            shards
        } else if capacity > usize::MAX - STASH_CAPACITY {
            usize::MAX - STASH_CAPACITY
        } else {
            capacity
        };
        let per_shard: usize = wanted / shards;
        assert(per_shard >= 1 && per_shard * shards <= wanted) by (nonlinear_arith)
            requires
                1 <= shards <= wanted,
                per_shard == wanted / shards,
        ;
        let total: usize = per_shard * shards;
        let mut slots: Vec<Slot> = Vec::new();
        let mut n: usize = 0;
        while n < total
            invariant
                n <= total,
                slots@.len() == n,
                forall|p: int| 0 <= p < n ==> !(#[trigger] slots@[p]).used,
                count_used(slots@, n as int) == 0,
            decreases total - n,
        {
            let ghost before = slots@;
            slots.push(Slot { used: false, key: 0, value: 0 });
            proof {
                lemma_count_used_prefix(before, slots@, n as int);
            }
            n = n + 1;
        }
        assert(shards * per_shard == per_shard * shards) by (nonlinear_arith);
        let index = Index {
            slots,
            stash: Vec::new(),
            shards,
            per_shard,
            used_slots: 0,
            model: Ghost(Map::empty()),
        };
        index
    }

    fn stash_find(&self, key: u64) -> (found: Option<usize>)
        ensures
            match found {
                Some(i) => i < self.stash@.len() && self.stash@[i as int].0 == key,
                None => !stash_has(self.stash@, key),
            },
    {
        let mut i: usize = 0;
        while i < self.stash.len()
            invariant
                i <= self.stash@.len(),
                forall|j: int| 0 <= j < i ==> (#[trigger] self.stash@[j]).0 != key,
            decreases self.stash@.len() - i,
        {
            if self.stash[i].0 == key {
                return Some(i);
            }
            i = i + 1;
        }
        None
    }

    fn find(&self, key: u64) -> (place: Place)
        requires
            self.wf(),
        ensures
            match place {
                Place::Table(p) => self.holds(p as int, key) && self@.contains_key(key)
                    && self@[key] == self.slots@[p as int].value,
                Place::Stash(i) => i < self.stash@.len() && self.stash@[i as int].0 == key
                    && self@.contains_key(key) && self@[key] == self.stash@[i as int].1,
                Place::Absent => !self@.contains_key(key),
            },
    {
        let near = position(key, FIRST_FACTOR, self.shards, self.per_shard);
        let c1 = self.slots[near];
        if c1.used && c1.key == key {
            return Place::Table(near);
        }
        let far = position(key, SECOND_FACTOR, self.shards, self.per_shard);
        let c2 = self.slots[far];
        if c2.used && c2.key == key {
            return Place::Table(far);
        }
        match self.stash_find(key) {
            Some(i) => Place::Stash(i),
            None => Place::Absent,
        }
    }

    /// Return the entry of `key` if it has one, else `None`.
    #[inline(always)]
    pub fn get(&self, key: u64) -> (found: Option<IndexEntry>)
        requires
            self.wf(),
        ensures
            found == spec_get(self@, key),
    {
        match self.find(key) {
            Place::Table(p) => Some(self.slots[p].value),
            Place::Stash(i) => Some(self.stash[i].1),
            Place::Absent => None,
        }
    }

    /// A key that has an entry can be given another.
    pub proof fn lemma_accepts_present(&self, key: u64)
        requires
            self@.contains_key(key),
        ensures
            self.accepts(key),
    {
    }

    /// An index holds finitely many entries.
    pub proof fn lemma_finite(&self)
        requires
            self.wf(),
        ensures
            self@.dom().finite(),
    {
    }

    /// Whether `key` can be given an entry.
    pub fn can_accept(&self, key: u64) -> (ok: bool)
        requires
            self.wf(),
        ensures
            ok == self.accepts(key),
    {
        if self.stash.len() < STASH_CAPACITY {
            return true;
        }
        match self.find(key) {
            Place::Absent => {},
            _ => {
                return true;
            },
        }
        let near = position(key, FIRST_FACTOR, self.shards, self.per_shard);
        if self.seek(near).is_some() {
            return true;
        }
        let far = position(key, SECOND_FACTOR, self.shards, self.per_shard);
        self.seek(far).is_some()
    }

    /// Replaces the entry of `key`, if it has one, and returns the entry
    /// it had.
    fn replace(&mut self, key: u64, value: IndexEntry) -> (prior: Option<IndexEntry>)
        requires
            old(self).wf(),
        ensures
            final(self).wf(),
            final(self).geometry() == old(self).geometry(),
            prior == (if old(self)@.contains_key(key) {
                Some(old(self)@[key])
            } else {
                None
            }),
            final(self)@ == (if old(self)@.contains_key(key) {
                old(self)@.insert(key, value)
            } else {
                old(self)@
            }),
            forall|k: u64| old(self).accepts(k) ==> final(self).accepts(k),
    {
        match self.find(key) {
            Place::Table(p) => Some(self.overwrite_cell(p, key, value)),
            Place::Stash(i) => Some(self.overwrite_stash(i, key, value)),
            Place::Absent => None,
        }
    }

    fn overwrite_cell(&mut self, p: usize, key: u64, value: IndexEntry) -> (prior: IndexEntry)
        requires
            old(self).wf(),
            old(self).holds(p as int, key),
        ensures
            final(self).wf(),
            final(self).geometry() == old(self).geometry(),
            old(self)@.contains_key(key),
            prior == old(self)@[key],
            final(self)@ == old(self)@.insert(key, value),
            forall|k: u64| old(self).accepts(k) ==> final(self).accepts(k),
    {
        let prior = self.slots[p].value;
        proof {
            lemma_count_used_update(
                self.slots@,
                p as int,
                Slot { used: true, key, value },
                self.slots@.len() as int,
            );
        }
        self.slots[p] = Slot { used: true, key, value };
        self.model = Ghost(self.model@.insert(key, value));
        proof {
            assert(self.model@.dom() =~= old(self).model@.dom());
            assert forall|q: int|
                0 <= q < self.slots@.len() && (#[trigger] self.slots@[q]).used implies self.model@[
                self.slots@[q].key] == self.slots@[q].value by {
                if q != p {
                    assert(old(self).slots@[q].used);
                    if old(self).slots@[q].key == key {
                        old(self).lemma_cell_unique(None, p as int, q);
                    }
                }
            }
            assert(self.stash_sound(None));
            self.lemma_same_cells(*old(self), None);
        }
        prior
    }

    fn overwrite_stash(&mut self, i: usize, key: u64, value: IndexEntry) -> (prior: IndexEntry)
        requires
            old(self).wf(),
            i < old(self).stash@.len(),
            old(self).stash@[i as int].0 == key,
        ensures
            final(self).wf(),
            final(self).geometry() == old(self).geometry(),
            old(self)@.contains_key(key),
            prior == old(self)@[key],
            final(self)@ == old(self)@.insert(key, value),
            forall|k: u64| old(self).accepts(k) ==> final(self).accepts(k),
    {
        let prior = self.stash[i].1;
        self.stash[i] = (key, value);
        self.model = Ghost(self.model@.insert(key, value));
        proof {
            assert(self.model@.dom() =~= old(self).model@.dom());
            assert forall|k: u64| stash_has(old(self).stash@, k) == stash_has(
                self.stash@,
                k,
            ) by {
                if stash_has(old(self).stash@, k) {
                    let j = choose|j: int|
                        0 <= j < old(self).stash@.len() && (#[trigger] old(self).stash@[j]).0
                            == k;
                    assert(self.stash@[j].0 == k);
                }
                if stash_has(self.stash@, k) {
                    let j = choose|j: int|
                        0 <= j < self.stash@.len() && (#[trigger] self.stash@[j]).0 == k;
                    assert(old(self).stash@[j].0 == k);
                }
            }
            assert(self.stash_sound(None));
            self.lemma_same_cells(*old(self), None);
        }
        prior
    }

    /// Puts the spare pair into one of its two cells, which is free.
    fn settle(&mut self, p: usize, key: u64, value: IndexEntry)
        requires
            old(self).inv(Some((key, value))),
            old(self).vacant(p as int),
            p == old(self).first(key) || p == old(self).second(key),
        ensures
            final(self).inv(None),
            final(self).model@ == old(self).model@,
            final(self).geometry() == old(self).geometry(),
    {
        proof {
            lemma_count_used_update(
                self.slots@,
                p as int,
                Slot { used: true, key, value },
                self.slots@.len() as int,
            );
            lemma_count_used_bounds(
                self.slots@.update(p as int, Slot { used: true, key, value }),
                self.slots@.len() as int,
            );
        }
        self.slots[p] = Slot { used: true, key, value };
        self.used_slots = self.used_slots + 1;
        proof {
            let before = *old(self);
            assert(self.sized());
            assert(self.stash_sound(None));
            assert(self.cells_sound(None)) by {
                assert forall|q: int|
                    0 <= q < self.slots@.len() && (#[trigger] self.slots@[q]).used implies {
                    &&& self.model@.contains_key(self.slots@[q].key)
                    &&& self.model@[self.slots@[q].key] == self.slots@[q].value
                    &&& (q == self.first(self.slots@[q].key) || q == self.second(
                        self.slots@[q].key,
                    ))
                    &&& !stash_has(self.stash@, self.slots@[q].key)
                } by {
                    if q != p {
                        assert(before.slots@[q].used);
                    }
                }
            }
            assert(self.keys_held(None)) by {
                assert forall|k: u64| #[trigger] self.model@.contains_key(k) implies {
                    ||| self.holds(self.first(k), k)
                    ||| self.holds(self.second(k), k)
                    ||| stash_has(self.stash@, k)
                } by {
                    if k == key {
                        assert(self.holds(p as int, k));
                    } else if before.holds(before.first(k), k) {
                        assert(self.holds(self.first(k), k));
                    } else if before.holds(before.second(k), k) {
                        assert(self.holds(self.second(k), k));
                    }
                }
            }
            assert(self.held_once()) by {
                assert forall|k: u64|
                    !(#[trigger] self.holds(self.first(k), k) && self.holds(self.second(k), k)
                        && self.first(k) != self.second(k)) by {
                    if self.holds(self.first(k), k) && self.holds(self.second(k), k)
                        && self.first(k) != self.second(k) {
                        if k == key {
                            let q = if p == self.first(k) {
                                self.second(k)
                            } else {
                                self.first(k)
                            };
                            assert(before.slots@[q].used);
                        } else {
                            assert(before.holds(before.first(k), k));
                            assert(before.holds(before.second(k), k));
                        }
                    }
                }
            }
        }
    }

    /// Puts the spare pair into the stash.
    fn stow(&mut self, key: u64, value: IndexEntry)
        requires
            old(self).inv(Some((key, value))),
            old(self).stash@.len() < STASH_CAPACITY,
        ensures
            final(self).inv(None),
            final(self).model@ == old(self).model@,
            final(self).geometry() == old(self).geometry(),
    {
        self.stash.push((key, value));
        proof {
            let before = *old(self);
            let last = before.stash@.len() as int;
            assert(self.stash@[last].0 == key);
            assert forall|k: u64| stash_has(self.stash@, k) == (k == key || stash_has(
                before.stash@,
                k,
            )) by {
                if stash_has(before.stash@, k) {
                    let j = choose|j: int|
                        0 <= j < before.stash@.len() && (#[trigger] before.stash@[j]).0 == k;
                    assert(self.stash@[j].0 == k);
                }
                if stash_has(self.stash@, k) && k != key {
                    let j = choose|j: int|
                        0 <= j < self.stash@.len() && (#[trigger] self.stash@[j]).0 == k;
                    assert(before.stash@[j].0 == k);
                }
            }
            assert(self.sized());
            assert(self.stash_sound(None)) by {
                assert forall|i: int| 0 <= i < self.stash@.len() implies {
                    &&& self.model@.contains_key((#[trigger] self.stash@[i]).0)
                    &&& self.model@[self.stash@[i].0] == self.stash@[i].1
                } by {
                    if i < last {
                        assert(self.stash@[i] == before.stash@[i]);
                    }
                }
                assert forall|i: int, j: int| 0 <= i < j < self.stash@.len() implies (
                #[trigger] self.stash@[i]).0 != (#[trigger] self.stash@[j]).0 by {
                    assert(self.stash@[i] == before.stash@[i]);
                    if j < last {
                        assert(self.stash@[j] == before.stash@[j]);
                    }
                }
            }
            assert(self.cells_sound(None)) by {
                assert forall|q: int|
                    0 <= q < self.slots@.len() && (#[trigger] self.slots@[q]).used implies {
                    &&& self.model@.contains_key(self.slots@[q].key)
                    &&& self.model@[self.slots@[q].key] == self.slots@[q].value
                    &&& (q == self.first(self.slots@[q].key) || q == self.second(
                        self.slots@[q].key,
                    ))
                    &&& !stash_has(self.stash@, self.slots@[q].key)
                } by {
                    assert(before.slots@[q].used);
                }
            }
            assert(self.keys_held(None)) by {
                assert forall|k: u64| #[trigger] self.model@.contains_key(k) implies {
                    ||| self.holds(self.first(k), k)
                    ||| self.holds(self.second(k), k)
                    ||| stash_has(self.stash@, k)
                } by {
                    if k == key {
                    } else if before.holds(before.first(k), k) {
                        assert(self.holds(self.first(k), k));
                    } else if before.holds(before.second(k), k) {
                        assert(self.holds(self.second(k), k));
                    }
                }
            }
            assert(self.held_once()) by {
                assert forall|k: u64|
                    !(#[trigger] self.holds(self.first(k), k) && self.holds(self.second(k), k)
                        && self.first(k) != self.second(k)) by {
                    if self.holds(self.first(k), k) && self.holds(self.second(k), k) {
                        assert(before.holds(before.first(k), k));
                        assert(before.holds(before.second(k), k));
                    }
                }
            }
        }
    }

    /// Adds the pair of `key` and `value` to the map, as the spare pair
    /// that is held nowhere yet.
    fn adopt(&mut self, key: u64, value: IndexEntry)
        requires
            old(self).wf(),
            !old(self)@.contains_key(key),
        ensures
            final(self).inv(Some((key, value))),
            final(self).model@ == old(self).model@.insert(key, value),
            final(self).slots == old(self).slots,
            final(self).stash == old(self).stash,
            final(self).geometry() == old(self).geometry(),
    {
        self.model = Ghost(self.model@.insert(key, value));
        proof {
            let before = *old(self);
            assert(self.stash_sound(Some((key, value))));
            assert(self.cells_sound(Some((key, value)))) by {
                assert forall|q: int|
                    0 <= q < self.slots@.len() && (#[trigger] self.slots@[q]).used implies {
                    &&& self.model@.contains_key(self.slots@[q].key)
                    &&& self.model@[self.slots@[q].key] == self.slots@[q].value
                    &&& (q == self.first(self.slots@[q].key) || q == self.second(
                        self.slots@[q].key,
                    ))
                    &&& !stash_has(self.stash@, self.slots@[q].key)
                    &&& key != self.slots@[q].key
                } by {
                    assert(before.slots@[q].used);
                }
            }
            assert(self.keys_held(Some((key, value)))) by {
                assert forall|k: u64| #[trigger] self.model@.contains_key(k) implies {
                    ||| self.holds(self.first(k), k)
                    ||| self.holds(self.second(k), k)
                    ||| stash_has(self.stash@, k)
                    ||| Some((key, value)) == Some((k, self.model@[k]))
                } by {
                    if k != key {
                        assert(before.model@.contains_key(k));
                    }
                }
            }
            assert(self.held_once()) by {
                assert forall|k: u64|
                    !(#[trigger] self.holds(self.first(k), k) && self.holds(self.second(k), k)
                        && self.first(k) != self.second(k)) by {
                    if self.holds(self.first(k), k) && self.holds(self.second(k), k) {
                        assert(before.holds(before.first(k), k));
                        assert(before.holds(before.second(k), k));
                    }
                }
            }
        }
    }

    /// Gives an entry to a key that has none. The pair goes to the first
    /// cell of the key if that cell is free or can be freed by moving its
    /// occupant to its other cell, whose occupant moves on in turn, along
    /// a chain of at most `MAX_DISPLACEMENTS` moves; else to the second
    /// cell, on the same terms; else to the stash.
    fn place(&mut self, key: u64, value: IndexEntry)
        requires
            old(self).wf(),
            !old(self)@.contains_key(key),
            old(self).accepts(key),
        ensures
            final(self).wf(),
            final(self)@ == old(self)@.insert(key, value),
            final(self).geometry() == old(self).geometry(),
    {
        let near = position(key, FIRST_FACTOR, self.shards, self.per_shard);
        match self.seek(near) {
            Some(path) => {
                self.clear(&path);
                self.adopt(key, value);
                self.settle(near, key, value);
                return ;
            },
            None => {},
        }
        let far = position(key, SECOND_FACTOR, self.shards, self.per_shard);
        match self.seek(far) {
            Some(path) => {
                self.clear(&path);
                self.adopt(key, value);
                self.settle(far, key, value);
                return ;
            },
            None => {},
        }
        self.adopt(key, value);
        self.stow(key, value);
    }

    /// Update location of object in the index. Returns `None` if the key
    /// was newly inserted, or the entry that it had before.
    #[inline(always)]
    pub fn update(&mut self, key: u64, value: IndexEntry) -> (prior: Option<IndexEntry>)
        requires
            old(self).wf(),
            old(self).accepts(key),
        ensures
            final(self).wf(),
            final(self)@ == spec_put(old(self)@, key, value),
            prior == spec_get(old(self)@, key),
            final(self).capacity() == old(self).capacity(),
            final(self).partition_count() == old(self).partition_count(),
    {
        let prior = self.replace(key, value);
        if prior.is_none() {
            self.place(key, value);
        }
        prior
    }

    /// Gives `key` the entry `value` if the table can take the key, and
    /// returns the entry that the key had. Answers `Fatal`, and changes
    /// nothing, if the table cannot take the key.
    pub fn try_update(&mut self, key: u64, value: IndexEntry) -> (outcome: Result<
        Option<IndexEntry>,
        ErrorCode,
    >)
        requires
            old(self).wf(),
        ensures
            final(self).wf(),
            final(self).capacity() == old(self).capacity(),
            final(self).partition_count() == old(self).partition_count(),
            outcome is Ok <==> old(self).accepts(key),
            match outcome {
                Ok(prior) => final(self)@ == spec_put(old(self)@, key, value) && prior == spec_get(
                    old(self)@,
                    key,
                ),
                Err(e) => e == ErrorCode::Fatal && *final(self) == *old(self),
            },
    {
        if self.can_accept(key) {
            Ok(self.update(key, value))
        } else {
            Err(ErrorCode::Fatal)
        }
    }

    /// Gives `key` the entry `new` if the entry it has is `expected`, and
    /// says whether it did.
    pub fn compare_and_swap(&mut self, key: u64, expected: IndexEntry, new: IndexEntry) -> (swapped:
        bool)
        requires
            old(self).wf(),
        ensures
            final(self).wf(),
            swapped == (spec_get(old(self)@, key) == Some(expected)),
            final(self)@ == (if swapped {
                spec_put(old(self)@, key, new)
            } else {
                old(self)@
            }),
            !swapped ==> *final(self) == *old(self),
            final(self).capacity() == old(self).capacity(),
            final(self).partition_count() == old(self).partition_count(),
            forall|k: u64| old(self).accepts(k) ==> final(self).accepts(k),
    {
        match self.get(key) {
            Some(current) => {
                if current == expected {
                    let _ = self.replace(key, new);
                    true
                } else {
                    false
                }
            },
            None => false,
        }
    }

    fn vacate_cell(&mut self, p: usize, key: u64) -> (prior: IndexEntry)
        requires
            old(self).wf(),
            old(self).holds(p as int, key),
        ensures
            final(self).wf(),
            old(self)@.contains_key(key),
            prior == old(self)@[key],
            final(self)@ == old(self)@.remove(key),
            final(self).geometry() == old(self).geometry(),
            forall|k: u64| old(self).accepts(k) ==> final(self).accepts(k),
    {
        let prior = self.slots[p].value;
        proof {
            let cell = Slot { used: false, key: 0, value: 0 };
            lemma_count_used_update(self.slots@, p as int, cell, self.slots@.len() as int);
            lemma_count_used_bounds(self.slots@.update(p as int, cell), self.slots@.len() as int);
        }
        self.slots[p] = Slot { used: false, key: 0, value: 0 };
        self.used_slots = self.used_slots - 1;
        self.model = Ghost(self.model@.remove(key));
        proof {
            let before = *old(self);
            assert(self.sized());
            assert(self.stash_sound(None));
            assert(self.cells_sound(None)) by {
                assert forall|q: int|
                    0 <= q < self.slots@.len() && (#[trigger] self.slots@[q]).used implies {
                    &&& self.model@.contains_key(self.slots@[q].key)
                    &&& self.model@[self.slots@[q].key] == self.slots@[q].value
                    &&& (q == self.first(self.slots@[q].key) || q == self.second(
                        self.slots@[q].key,
                    ))
                    &&& !stash_has(self.stash@, self.slots@[q].key)
                } by {
                    assert(before.slots@[q].used);
                    if before.slots@[q].key == key {
                        before.lemma_cell_unique(None, p as int, q);
                    }
                }
            }
            assert(self.keys_held(None)) by {
                assert forall|k: u64| #[trigger] self.model@.contains_key(k) implies {
                    ||| self.holds(self.first(k), k)
                    ||| self.holds(self.second(k), k)
                    ||| stash_has(self.stash@, k)
                } by {
                    assert(before.model@.contains_key(k));
                    if before.holds(before.first(k), k) {
                        assert(self.holds(self.first(k), k));
                    } else if before.holds(before.second(k), k) {
                        assert(self.holds(self.second(k), k));
                    }
                }
            }
            assert(self.held_once()) by {
                assert forall|k: u64|
                    !(#[trigger] self.holds(self.first(k), k) && self.holds(self.second(k), k)
                        && self.first(k) != self.second(k)) by {
                    if self.holds(self.first(k), k) && self.holds(self.second(k), k) {
                        assert(before.holds(before.first(k), k));
                        assert(before.holds(before.second(k), k));
                    }
                }
            }
            assert forall|k: u64| before.accepts(k) implies self.accepts(k) by {
                let none = Seq::<int>::empty();
                let budget = MAX_DISPLACEMENTS as nat;
                if before.reaches(before.first(k), budget, none) {
                    self.lemma_reaches_freed(before, p as int, self.first(k), budget, none);
                } else if before.reaches(before.second(k), budget, none) {
                    self.lemma_reaches_freed(before, p as int, self.second(k), budget, none);
                } else if before.model@.contains_key(k) && k == key {
                    assert(self.reaches(p as int, budget, none));
                }
            }
        }
        prior
    }

    fn vacate_stash(&mut self, i: usize, key: u64) -> (prior: IndexEntry)
        requires
            old(self).wf(),
            i < old(self).stash@.len(),
            old(self).stash@[i as int].0 == key,
        ensures
            final(self).wf(),
            old(self)@.contains_key(key),
            prior == old(self)@[key],
            final(self)@ == old(self)@.remove(key),
            final(self).geometry() == old(self).geometry(),
            forall|k: u64| old(self).accepts(k) ==> final(self).accepts(k),
    {
        let pair = self.stash.swap_remove(i);
        self.model = Ghost(self.model@.remove(key));
        proof {
            let before = *old(self);
            let last = before.stash@.len() - 1;
            assert forall|j: int| 0 <= j < self.stash@.len() implies #[trigger] self.stash@[j]
                == before.stash@[if j == i {
                last
            } else {
                j
            }] by {}
            assert forall|k: u64| stash_has(self.stash@, k) == (k != key && stash_has(
                before.stash@,
                k,
            )) by {
                if stash_has(before.stash@, k) && k != key {
                    let j = choose|j: int|
                        0 <= j < before.stash@.len() && (#[trigger] before.stash@[j]).0 == k;
                    if j == last {
                        assert(self.stash@[i as int].0 == k);
                    } else {
                        assert(self.stash@[j].0 == k);
                    }
                }
                if stash_has(self.stash@, k) {
                    let j = choose|j: int|
                        0 <= j < self.stash@.len() && (#[trigger] self.stash@[j]).0 == k;
                    let src = if j == i {
                        last
                    } else {
                        j
                    };
                    assert(before.stash@[src].0 == k);
                    if k == key {
                        assert(before.stash@[i as int].0 == key);
                    }
                }
            }
            assert(self.sized());
            assert(self.stash_sound(None)) by {
                assert forall|a: int| 0 <= a < self.stash@.len() implies {
                    &&& self.model@.contains_key((#[trigger] self.stash@[a]).0)
                    &&& self.model@[self.stash@[a].0] == self.stash@[a].1
                } by {
                    let src = if a == i {
                        last
                    } else {
                        a
                    };
                    assert(self.stash@[a] == before.stash@[src]);
                    assert(before.stash@[src].0 != before.stash@[i as int].0);
                }
                assert forall|a: int, b: int| 0 <= a < b < self.stash@.len() implies (
                #[trigger] self.stash@[a]).0 != (#[trigger] self.stash@[b]).0 by {
                    let sa = if a == i {
                        last
                    } else {
                        a
                    };
                    let sb = if b == i {
                        last
                    } else {
                        b
                    };
                    assert(self.stash@[a] == before.stash@[sa]);
                    assert(self.stash@[b] == before.stash@[sb]);
                    assert(before.stash@[sa].0 != before.stash@[sb].0);
                }
            }
            assert(self.cells_sound(None)) by {
                assert forall|q: int|
                    0 <= q < self.slots@.len() && (#[trigger] self.slots@[q]).used implies {
                    &&& self.model@.contains_key(self.slots@[q].key)
                    &&& self.model@[self.slots@[q].key] == self.slots@[q].value
                    &&& (q == self.first(self.slots@[q].key) || q == self.second(
                        self.slots@[q].key,
                    ))
                    &&& !stash_has(self.stash@, self.slots@[q].key)
                } by {
                    assert(before.slots@[q].used);
                    if before.slots@[q].key == key {
                        assert(stash_has(before.stash@, key));
                    }
                }
            }
            assert(self.keys_held(None)) by {
                assert forall|k: u64| #[trigger] self.model@.contains_key(k) implies {
                    ||| self.holds(self.first(k), k)
                    ||| self.holds(self.second(k), k)
                    ||| stash_has(self.stash@, k)
                } by {
                    assert(before.model@.contains_key(k));
                    if before.holds(before.first(k), k) {
                        assert(self.holds(self.first(k), k));
                    } else if before.holds(before.second(k), k) {
                        assert(self.holds(self.second(k), k));
                    }
                }
            }
            assert(self.held_once()) by {
                assert forall|k: u64|
                    !(#[trigger] self.holds(self.first(k), k) && self.holds(self.second(k), k)
                        && self.first(k) != self.second(k)) by {
                    if self.holds(self.first(k), k) && self.holds(self.second(k), k) {
                        assert(before.holds(before.first(k), k));
                        assert(before.holds(before.second(k), k));
                    }
                }
            }
        }
        pair.1
    }

    /// Remove an entry. If it existed, return its value, else return
    /// `None`.
    #[inline(always)]
    pub fn remove(&mut self, key: u64) -> (prior: Option<IndexEntry>)
        requires
            old(self).wf(),
        ensures
            final(self).wf(),
            final(self)@ == spec_del(old(self)@, key),
            prior == spec_get(old(self)@, key),
            prior is None ==> *final(self) == *old(self),
            final(self).capacity() == old(self).capacity(),
            final(self).partition_count() == old(self).partition_count(),
            forall|k: u64| old(self).accepts(k) ==> final(self).accepts(k),
    {
        match self.find(key) {
            Place::Table(p) => Some(self.vacate_cell(p, key)),
            Place::Stash(i) => Some(self.vacate_stash(i, key)),
            Place::Absent => {
                assert(self.model@.remove(key) =~= self.model@);
                None
            },
        }
    }

    /// Two cells in use for the same key are the same cell.
    proof fn lemma_cell_unique(self, spare: Option<(u64, u64)>, p: int, q: int)
        requires
            self.inv(spare),
            0 <= p < self.slots@.len(),
            0 <= q < self.slots@.len(),
            self.slots@[p].used,
            self.slots@[q].used,
            self.slots@[p].key == self.slots@[q].key,
        ensures
            p == q,
    {
        let k = self.slots@[p].key;
        if p != q {
            assert(self.holds(p, k));
            assert(self.holds(q, k));
            assert(self.holds(self.first(k), k));
            assert(self.holds(self.second(k), k));
        }
    }

    /// What follows for a table whose cells are in use for the same keys as
    /// those of `before`, and whose stash holds the same keys.
    proof fn lemma_same_cells(self, before: Index, spare: Option<(u64, u64)>)
        requires
            before.inv(spare),
            self.shards == before.shards,
            self.per_shard == before.per_shard,
            self.used_slots == before.used_slots,
            self.slots@.len() == before.slots@.len(),
            self.stash@.len() == before.stash@.len(),
            self.used_slots == count_used(self.slots@, self.slots@.len() as int),
            forall|p: int|
                0 <= p < self.slots@.len() ==> (#[trigger] self.slots@[p]).used
                    == before.slots@[p].used && self.slots@[p].key == before.slots@[p].key,
            forall|k: u64| stash_has(before.stash@, k) == stash_has(self.stash@, k),
            self.model@.dom() == before.model@.dom(),
            forall|p: int|
                0 <= p < self.slots@.len() && (#[trigger] self.slots@[p]).used
                    ==> self.model@[self.slots@[p].key] == self.slots@[p].value,
            self.stash_sound(spare),
            spare matches Some(pair) ==> self.model@[pair.0] == pair.1,
        ensures
            self.inv(spare),
            forall|k: u64| before.accepts(k) ==> self.accepts(k),
    {
        assert(self.sized());
        assert(self.cells_sound(spare)) by {
            assert forall|p: int|
                0 <= p < self.slots@.len() && (#[trigger] self.slots@[p]).used implies {
                &&& self.model@.contains_key(self.slots@[p].key)
                &&& self.model@[self.slots@[p].key] == self.slots@[p].value
                &&& (p == self.first(self.slots@[p].key) || p == self.second(self.slots@[p].key))
                &&& !stash_has(self.stash@, self.slots@[p].key)
                &&& (spare matches Some(pair) ==> pair.0 != self.slots@[p].key)
            } by {
                assert(before.slots@[p].used);
            }
        }
        assert(self.keys_held(spare)) by {
            assert forall|k: u64| #[trigger] self.model@.contains_key(k) implies {
                ||| self.holds(self.first(k), k)
                ||| self.holds(self.second(k), k)
                ||| stash_has(self.stash@, k)
                ||| spare == Some((k, self.model@[k]))
            } by {
                assert(before.model@.contains_key(k));
                if before.holds(before.first(k), k) {
                    assert(self.holds(self.first(k), k));
                } else if before.holds(before.second(k), k) {
                    assert(self.holds(self.second(k), k));
                }
            }
        }
        assert(self.held_once()) by {
            assert forall|k: u64|
                !(#[trigger] self.holds(self.first(k), k) && self.holds(self.second(k), k)
                    && self.first(k) != self.second(k)) by {
                if self.holds(self.first(k), k) && self.holds(self.second(k), k) {
                    assert(before.holds(before.first(k), k));
                    assert(before.holds(before.second(k), k));
                }
            }
        }
        assert forall|k: u64| before.accepts(k) implies self.accepts(k) by {
            self.lemma_reaches_same(
                before,
                self.first(k),
                MAX_DISPLACEMENTS as nat,
                Seq::<int>::empty(),
            );
            self.lemma_reaches_same(
                before,
                self.second(k),
                MAX_DISPLACEMENTS as nat,
                Seq::<int>::empty(),
            );
        }
    }

    /// Number of keys that have an entry.
    pub fn len(&self) -> (n: usize)
        requires
            self.wf(),
        ensures
            n == self@.dom().len(),
            self@.dom().finite(),
    {
        proof {
            lemma_count_used_bounds(self.slots@, self.slots@.len() as int);
        }
        self.used_slots + self.stash.len()
    }
}

proof fn lemma_count_used_prefix(a: Seq<Slot>, b: Seq<Slot>, n: int)
    requires
        0 <= n <= a.len(),
        n <= b.len(),
        forall|p: int| 0 <= p < n ==> a[p] == b[p],
    ensures
        count_used(a, n) == count_used(b, n),
    decreases n,
{
    if n > 0 {
        lemma_count_used_prefix(a, b, n - 1);
    }
}

} // verus!
