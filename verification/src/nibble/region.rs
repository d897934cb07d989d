//! Memory regions: the range of virtual addresses of one socket, carved
//! into blocks of one size.

use crate::nibble::index::ADDRESS_LIMIT;
use vstd::prelude::*;

verus! {

/// A contiguous range of virtual addresses that belongs to one socket and
/// is carved into blocks of one size.
#[derive(Clone, Copy, Debug)]
pub struct Region {
    /// The socket that the range belongs to.
    pub socket: u16,
    /// Virtual address of the first byte.
    pub base: u64,
    /// Bytes per block.
    pub block_size: usize,
    /// Number of blocks.
    pub blocks: usize,
}

proof fn lemma_block_range(j: int, blocks: int, size: int)
    by (nonlinear_arith)
    requires
        0 <= j < blocks,
        0 <= size,
    ensures
        0 <= j * size,
        j * size + size <= blocks * size,
{
}

proof fn lemma_block_of(offset: int, j: int, within: int, size: int)
    by (nonlinear_arith)
    requires
        0 <= j,
        0 <= within < size,
        offset == j * size + within,
    ensures
        offset / size == j,
        offset % size == within,
{
}

proof fn lemma_block_split(offset: int, size: int)
    by (nonlinear_arith)
    requires
        0 <= offset,
        0 < size,
    ensures
        0 <= offset / size,
        offset == (offset / size) * size + offset % size,
        0 <= offset % size < size,
{
}

proof fn lemma_block_below(offset: int, blocks: int, size: int)
    by (nonlinear_arith)
    requires
        0 <= offset < blocks * size,
        0 < size,
    ensures
        offset / size < blocks,
{
}

/// An address lies in one block only.
pub proof fn lemma_block_unique(j: int, within: int, k: int, inside: int, size: int)
    requires
        0 <= j,
        0 <= k,
        0 <= within < size,
        0 <= inside < size,
        j * size + within == k * size + inside,
    ensures
        j == k,
        within == inside,
{
    lemma_block_of(j * size + within, j, within, size);
    lemma_block_of(k * size + inside, k, inside, size);
}

/// Every block lies within the region.
pub proof fn lemma_block_within(j: int, blocks: int, size: int)
    requires
        0 <= j < blocks,
        0 <= size,
    ensures
        0 <= j * size,
        j * size + size <= blocks * size,
{
    lemma_block_range(j, blocks, size);
}

impl Region {
    /// Bytes of the region.
    pub open spec fn len(&self) -> int {
        self.blocks * self.block_size
    }

    /// The representation invariant: the blocks are not empty, and the
    /// region lies within the address range of an index entry.
    pub open spec fn wf(&self) -> bool {
        &&& self.block_size > 0
        &&& self.base + self.len() <= ADDRESS_LIMIT
    }

    /// Virtual address of the first byte of block `j`.
    pub open spec fn block_base(&self, j: int) -> int {
        self.base + j * self.block_size
    }

    /// Whether a region of whole blocks within `total_bytes` bytes can
    /// start at `base`.
    pub open spec fn fits(total_bytes: usize, base: u64, block_size: usize) -> bool {
        block_size > 0 && base + (total_bytes as int / block_size as int) * block_size
            <= ADDRESS_LIMIT
    }

    /// Reserves for `socket` the range of addresses that starts at `base`
    /// and holds as many blocks of `block_size` bytes as fit in
    /// `total_bytes` bytes. Returns `None` when the blocks would be empty
    /// or the range would not lie within the addresses of an index entry.
    pub fn reserve(total_bytes: usize, socket: u16, base: u64, block_size: usize) -> (region:
        Option<Region>)
        ensures
            region is Some <==> Region::fits(total_bytes, base, block_size),
            region matches Some(r) ==> r.wf() && r == (Region {
                socket,
                base,
                block_size,
                blocks: (total_bytes as int / block_size as int) as usize,
            }),
    {
        if block_size == 0 || base > ADDRESS_LIMIT {
            proof {
                if block_size > 0 {
                    assert((total_bytes as int / block_size as int) * block_size >= 0)
                        by (nonlinear_arith)
                        requires
                            total_bytes >= 0,
                            block_size > 0,
                    ;
                }
            }
            return None;
        }
        let blocks = total_bytes / block_size;
        assert(0 <= blocks * block_size <= total_bytes) by (nonlinear_arith)
            requires
                blocks == total_bytes / block_size,
                block_size > 0,
        ;
        let len = blocks * block_size;
        if len as u64 > ADDRESS_LIMIT - base {
            return None;
        }
        Some(Region { socket, base, block_size, blocks })
    }

    /// The block that holds the virtual address `address` and the offset
    /// of the address within the block, if the address lies in the region.
    pub fn locate(&self, address: u64) -> (found: Option<(usize, usize)>)
        requires
            self.wf(),
        ensures
            match found {
                Some((j, offset)) => j < self.blocks && offset < self.block_size && address
                    == self.block_base(j as int) + offset,
                None => address < self.base || address >= self.base + self.len(),
            },
    {
        if address < self.base {
            return None;
        }
        let offset = address - self.base;
        let j = offset / (self.block_size as u64);
        let within = offset % (self.block_size as u64);
        proof {
            lemma_block_split(offset as int, self.block_size as int);
            if offset < self.blocks * self.block_size {
                lemma_block_below(offset as int, self.blocks as int, self.block_size as int);
            } else {
                assert(j >= self.blocks) by (nonlinear_arith)
                    requires
                        offset >= self.blocks * self.block_size,
                        offset == j * self.block_size + within,
                        within < self.block_size,
                        self.block_size > 0,
                ;
            }
        }
        if j < self.blocks as u64 {
            Some((j as usize, within as usize))
        } else {
            None
        }
    }

    /// Virtual address of the first byte of block `j`.
    pub fn base_of(&self, j: usize) -> (address: u64)
        requires
            self.wf(),
            j < self.blocks,
        ensures
            address == self.block_base(j as int),
            address + self.block_size <= ADDRESS_LIMIT,
    {
        proof {
            lemma_block_range(j as int, self.blocks as int, self.block_size as int);
        }
        self.base + (j as u64) * (self.block_size as u64)
    }
}

} // verus!
