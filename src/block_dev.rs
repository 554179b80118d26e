//! Block devices: the storage under the file system, addressed by block id.
use vstd::prelude::*;

use crate::BLOCK_SZ;

verus! {

/// A device that stores fixed-size blocks addressed by a 0-based block id.
pub trait BlockDevice {
    /// The contents of every block, in block-id order.
    spec fn blocks(&self) -> Seq<Seq<u8>>;

    /// How many block writes the device has carried out so far.
    spec fn write_count(&self) -> nat;

    /// Number of blocks the device holds.
    fn num_blocks(&self) -> (r: usize)
        ensures
            r == self.blocks().len(),
    ;

    /// Reads block `block_id` into `buf`.
    fn read_block(&self, block_id: usize, buf: &mut [u8; BLOCK_SZ])
        requires
            block_id < self.blocks().len(),
        ensures
            final(buf)@ == self.blocks()[block_id as int],
    ;

    /// Writes `buf` to block `block_id`: exactly one device write.
    fn write_block(&mut self, block_id: usize, buf: &[u8; BLOCK_SZ])
        requires
            block_id < old(self).blocks().len(),
        ensures
            final(self).blocks() == old(self).blocks().update(block_id as int, buf@),
            final(self).write_count() == old(self).write_count() + 1,
    ;
}

/// Every block of `blocks` is exactly one block long.
pub open spec fn blocks_sized(blocks: Seq<Seq<u8>>) -> bool {
    forall|b: int| 0 <= b < blocks.len() ==> (#[trigger] blocks[b]).len() == BLOCK_SZ
}

/// A block device held in memory: a RAM disk.
pub struct MemDevice {
    data: Vec<[u8; BLOCK_SZ]>,
    writes: usize,
    wraps: Ghost<nat>,
}

impl MemDevice {
    /// A device of `num_blocks` zero-filled blocks.
    pub fn new(num_blocks: usize) -> (r: Self)
        ensures
            r.blocks().len() == num_blocks,
            forall|b: int| 0 <= b < num_blocks ==> #[trigger] r.blocks()[b] == Seq::new(
                BLOCK_SZ as nat,
                |i: int| 0u8,
            ),
            blocks_sized(r.blocks()),
            r.write_count() == 0,
    {
        let mut data: Vec<[u8; BLOCK_SZ]> = Vec::new();
        let mut i: usize = 0;
        while i < num_blocks
            invariant
                i <= num_blocks,
                data@.len() == i,
                forall|b: int| 0 <= b < i ==> #[trigger] data@[b]@ == Seq::new(
                    BLOCK_SZ as nat,
                    |k: int| 0u8,
                ),
            decreases num_blocks - i,
        {
            let zero: [u8; BLOCK_SZ] = [0u8; 512];
            assert(zero@ =~= Seq::new(BLOCK_SZ as nat, |k: int| 0u8));
            data.push(zero);
            i = i + 1;
        }
        let r = MemDevice { data, writes: 0, wraps: Ghost(0) };
        assert forall|b: int| 0 <= b < num_blocks implies #[trigger] r.blocks()[b] == Seq::new(
            BLOCK_SZ as nat,
            |i: int| 0u8,
        ) by {
            assert(r.blocks()[b] == r.data@[b]@);
        }
        r
    }
}

impl MemDevice {
    /// How many block writes the device has received (counted modulo the
    /// range of `usize`).
    pub fn writes(&self) -> (r: usize)
        ensures
            self.write_count() <= usize::MAX ==> r == self.write_count(),
    {
        proof {
            assert(self.write_count() == self.wraps@ * (usize::MAX as nat + 1) + self.writes as nat);
            if self.wraps@ > 0 {
                assert(self.wraps@ * (usize::MAX as nat + 1) >= usize::MAX as nat + 1) by (nonlinear_arith)
                    requires
                        self.wraps@ > 0,
                ;
            }
        }
        self.writes
    }
}

impl BlockDevice for MemDevice {
    closed spec fn blocks(&self) -> Seq<Seq<u8>> {
        Seq::new(self.data@.len(), |b: int| self.data@[b]@)
    }

    closed spec fn write_count(&self) -> nat {
        self.wraps@ * (usize::MAX as nat + 1) + self.writes as nat
    }

    fn num_blocks(&self) -> usize {
        self.data.len()
    }

    fn read_block(&self, block_id: usize, buf: &mut [u8; BLOCK_SZ]) {
        *buf = self.data[block_id];
    }

    fn write_block(&mut self, block_id: usize, buf: &[u8; BLOCK_SZ]) {
        self.data.set(block_id, *buf);
        if self.writes == usize::MAX {
            self.writes = 0;
            self.wraps = Ghost(self.wraps@ + 1);
            assert((self.wraps@ - 1) * (usize::MAX as nat + 1) + usize::MAX + 1 == self.wraps@ * (
            usize::MAX as nat + 1)) by (nonlinear_arith);
        } else {
            self.writes = self.writes + 1;
        }
        assert(self.blocks() =~= old(self).blocks().update(block_id as int, buf@));
    }
}

} // verus!
