//! In-memory copies of disk blocks, and the bounded pool that hands them
//! out, writing modified blocks back when they leave the pool.
use vstd::prelude::*;

use crate::block_dev::{blocks_sized, BlockDevice};
use crate::BLOCK_SZ;

verus! {

/// `s` with `bytes` written over it from `offset` on.
pub open spec fn overwrite(s: Seq<u8>, offset: int, bytes: Seq<u8>) -> Seq<u8> {
    Seq::new(
        s.len(),
        |i: int|
            if offset <= i < offset + bytes.len() {
                bytes[i - offset]
            } else {
                s[i]
            },
    )
}

/// One disk block held in memory, with a flag telling whether it differs
/// from what the device was last given.
#[derive(Clone, Copy)]
pub struct BlockCache {
    cache: [u8; BLOCK_SZ],
    block_id: usize,
    modified: bool,
}

impl BlockCache {
    /// The cached bytes.
    pub closed spec fn data(&self) -> Seq<u8> {
        self.cache@
    }

    /// The block this entry mirrors.
    pub closed spec fn id(&self) -> usize {
        self.block_id
    }

    /// Whether the entry was modified since it was last written back.
    pub closed spec fn dirty(&self) -> bool {
        self.modified
    }

    /// A cached block is one block long.
    pub proof fn lemma_data_len(&self)
        ensures
            self.data().len() == BLOCK_SZ,
    {
    }

    /// Loads block `block_id` from the device.
    pub fn new<D: BlockDevice>(block_id: usize, block_device: &D) -> (r: Self)
        requires
            block_id < block_device.blocks().len(),
        ensures
            r.data() == block_device.blocks()[block_id as int],
            r.id() == block_id,
            !r.dirty(),
    {
        let mut cache: [u8; BLOCK_SZ] = [0u8; 512];
        block_device.read_block(block_id, &mut cache);
        BlockCache { cache, block_id, modified: false }
    }

    /// The id of the cached block.
    pub fn block_id(&self) -> (r: usize)
        ensures
            r == self.id(),
    {
        self.block_id
    }

    /// Whether the entry has to be written back.
    pub fn is_modified(&self) -> (r: bool)
        ensures
            r == self.dirty(),
    {
        self.modified
    }

    /// Copies `len` bytes starting at `offset` out of the block.
    pub fn read(&self, offset: usize, len: usize) -> (r: Vec<u8>)
        requires
            offset + len <= BLOCK_SZ,
        ensures
            r@ == self.data().subrange(offset as int, offset + len),
    {
        let mut out: Vec<u8> = Vec::with_capacity(len);
        let mut i: usize = 0;
        while i < len
            invariant
                offset + len <= BLOCK_SZ,
                i <= len,
                out@ == self.data().subrange(offset as int, offset + i),
            decreases len - i,
        {
            out.push(self.cache[offset + i]);
            i = i + 1;
            assert(out@ =~= self.data().subrange(offset as int, offset + i));
        }
        out
    }

    /// Writes `bytes` into the block at `offset`. The entry is marked
    /// modified whatever the bytes are.
    pub fn modify(&mut self, offset: usize, bytes: &[u8])
        requires
            offset + bytes@.len() <= BLOCK_SZ,
        ensures
            final(self).data() == overwrite(old(self).data(), offset as int, bytes@),
            final(self).id() == old(self).id(),
            final(self).dirty(),
    {
        let n = bytes.len();
        let mut i: usize = 0;
        while i < n
            invariant
                n == bytes@.len(),
                offset + n <= BLOCK_SZ,
                i <= n,
                self.block_id == old(self).block_id,
                self.cache@ =~= overwrite(old(self).data(), offset as int, bytes@.subrange(0, i as int)),
            decreases n - i,
        {
            self.cache[offset + i] = bytes[i];
            i = i + 1;
            assert(self.cache@ =~= overwrite(
                old(self).data(),
                offset as int,
                bytes@.subrange(0, i as int),
            ));
        }
        assert(bytes@.subrange(0, n as int) =~= bytes@);
        self.modified = true;
    }

    /// Writes the block back to the device if it was modified, and clears
    /// the flag.
    pub fn sync<D: BlockDevice>(&mut self, block_device: &mut D)
        requires
            old(self).id() < old(block_device).blocks().len(),
        ensures
            final(self).data() == old(self).data(),
            final(self).id() == old(self).id(),
            !final(self).dirty(),
            old(self).dirty() ==> final(block_device).blocks() == old(block_device).blocks().update(
                old(self).id() as int,
                old(self).data(),
            ) && final(block_device).write_count() == old(block_device).write_count() + 1,
            !old(self).dirty() ==> *final(block_device) == *old(block_device),
    {
        if self.modified {
            self.modified = false;
            block_device.write_block(self.block_id, &self.cache);
        }
    }
}

/// How many of `flags` are set.
pub open spec fn dirty_count(flags: Seq<bool>) -> nat
    decreases flags.len(),
{
    if flags.len() == 0 {
        0
    } else {
        dirty_count(flags.drop_last()) + if flags.last() {
            1nat
        } else {
            0nat
        }
    }
}

/// Most blocks the manager keeps in memory at once.
pub const BLOCK_CACHE_SIZE: usize = 16;

/// A resident block with the number of handles callers hold on it.
#[derive(Clone, Copy)]
pub struct CacheEntry {
    cache: BlockCache,
    handles: usize,
}

/// A bounded pool of cached blocks over one device, kept in the order the
/// blocks were loaded.
pub struct BlockCacheManager<D: BlockDevice> {
    device: D,
    queue: Vec<CacheEntry>,
}

impl<D: BlockDevice> BlockCacheManager<D> {
    /// The device under the cache.
    pub closed spec fn dev(&self) -> D {
        self.device
    }

    /// Number of blocks of the device.
    pub closed spec fn num_blocks(&self) -> nat {
        self.device.blocks().len()
    }

    /// Ids of the resident blocks, oldest first.
    pub closed spec fn resident(&self) -> Seq<usize> {
        Seq::new(self.queue@.len(), |i: int| self.queue@[i].cache.block_id)
    }

    /// Handles held on each resident block, in the order of `resident`.
    pub closed spec fn handle_counts(&self) -> Seq<usize> {
        Seq::new(self.queue@.len(), |i: int| self.queue@[i].handles)
    }

    /// Whether each resident block was modified since it was last written
    /// back, in the order of `resident`.
    pub closed spec fn dirty_flags(&self) -> Seq<bool> {
        Seq::new(self.queue@.len(), |i: int| self.queue@[i].cache.modified)
    }

    /// The cached bytes of each resident block, in the order of `resident`.
    pub closed spec fn cached(&self) -> Seq<Seq<u8>> {
        Seq::new(self.queue@.len(), |i: int| self.queue@[i].cache.cache@)
    }

    /// Room for one more block: the pool is not full, or some resident block
    /// has no handle on it.
    pub open spec fn has_room(&self) -> bool {
        ||| self.resident().len() < BLOCK_CACHE_SIZE
        ||| exists|i: int| 0 <= i < self.handle_counts().len() && self.handle_counts()[i] == 0
    }

    /// The oldest resident block that no caller holds.
    pub open spec fn first_free(&self) -> int {
        choose|i: int|
            0 <= i < self.handle_counts().len() && self.handle_counts()[i] == 0 && forall|j: int|
                0 <= j < i ==> self.handle_counts()[j] != 0
    }

    /// Bringing in block `b` evicts an entry: `b` is not resident and the
    /// pool is full.
    pub open spec fn evicts(&self, b: usize) -> bool {
        !self.resident().contains(b) && self.resident().len() >= BLOCK_CACHE_SIZE
    }

    /// The pool after bringing in `b`: unchanged when `b` is resident, `b`
    /// appended when there is room, else the oldest entry no caller holds
    /// removed and `b` appended.
    pub open spec fn loaded_pool(&self, b: usize) -> Seq<usize> {
        if self.resident().contains(b) {
            self.resident()
        } else if !self.evicts(b) {
            self.resident().push(b)
        } else {
            self.resident().remove(self.first_free()).push(b)
        }
    }

    /// The handle counts after bringing in `b`, in the order of `loaded_pool`.
    pub open spec fn loaded_handles(&self, b: usize) -> Seq<usize> {
        if self.resident().contains(b) {
            self.handle_counts()
        } else if !self.evicts(b) {
            self.handle_counts().push(0)
        } else {
            self.handle_counts().remove(self.first_free()).push(0)
        }
    }

    /// The modified flags after bringing in `b`: a block just read is clean.
    pub open spec fn loaded_dirty(&self, b: usize) -> Seq<bool> {
        if self.resident().contains(b) {
            self.dirty_flags()
        } else if !self.evicts(b) {
            self.dirty_flags().push(false)
        } else {
            self.dirty_flags().remove(self.first_free()).push(false)
        }
    }

    /// Bringing in `b` writes a block back: it evicts a modified entry.
    pub open spec fn load_writes_back(&self, b: usize) -> bool {
        self.evicts(b) && self.dirty_flags()[self.first_free()]
    }

    /// The device's blocks after bringing in `b`: the evicted entry written
    /// back if it was modified, nothing else written.
    pub open spec fn loaded_blocks(&self, b: usize) -> Seq<Seq<u8>> {
        if self.load_writes_back(b) {
            self.dev().blocks().update(
                self.resident()[self.first_free()] as int,
                self.cached()[self.first_free()],
            )
        } else {
            self.dev().blocks()
        }
    }

    /// `self` is the pool and device that bringing `b` into `before` gives:
    /// the pool as `loaded_pool` says, and the device written only where an
    /// evicted modified entry goes back.
    pub open spec fn loaded_from(&self, before: Self, b: usize) -> bool {
        &&& self.resident() == before.loaded_pool(b)
        &&& self.dev().blocks() == before.loaded_blocks(b)
        &&& self.dev().write_count() == before.dev().write_count() + if before.load_writes_back(b) {
            1int
        } else {
            0int
        }
        &&& !before.load_writes_back(b) ==> self.dev() == before.dev()
    }

    proof fn lemma_first_free(&self, k: int)
        requires
            0 <= k < self.handle_counts().len(),
            self.handle_counts()[k] == 0,
            forall|j: int| 0 <= j < k ==> self.handle_counts()[j] != 0,
        ensures
            self.first_free() == k,
    {
        let m = self.first_free();
        assert(0 <= m < self.handle_counts().len() && self.handle_counts()[m] == 0 && forall|j: int|
            0 <= j < m ==> self.handle_counts()[j] != 0);
        if m < k {
            assert(self.handle_counts()[m] != 0);
        } else if m > k {
            assert(self.handle_counts()[k] != 0);
        }
    }

    /// After bringing in a block that was not resident there is room again;
    /// after a hit, room is as it was.
    pub proof fn lemma_loaded_room(&self, b: usize, after: Self)
        requires
            after.handle_counts() == self.loaded_handles(b),
            after.resident() == self.loaded_pool(b),
        ensures
            self.has_room() ==> after.has_room(),
            !self.resident().contains(b) ==> after.has_room(),
    {
        if !self.resident().contains(b) {
            let n = after.handle_counts().len() - 1;
            assert(after.handle_counts()[n] == 0);
        }
    }

    /// A block that a caller holds is resident.
    pub proof fn lemma_pinned_resident(&self, b: int)
        requires
            self.wf(),
            self.pins(b) > 0,
        ensures
            0 <= b,
            self.resident().contains(b as usize),
    {
        let i = self.slot(b);
        assert(self.holds(b));
        assert(self.resident()[i] == b);
    }

    /// With no handle outstanding there is room.
    pub proof fn lemma_unpinned_room(&self)
        requires
            self.wf(),
            self.unpinned(),
        ensures
            self.has_room(),
    {
        if self.resident().len() >= BLOCK_CACHE_SIZE {
            self.lemma_slot(0);
            assert(self.pins(self.queue@[0].cache.block_id as int) == 0);
            assert(self.handle_counts()[0] == 0);
        }
    }

    spec fn holds(&self, b: int) -> bool {
        exists|i: int| 0 <= i < self.queue@.len() && self.queue@[i].cache.block_id == b
    }

    spec fn slot(&self, b: int) -> int {
        choose|i: int| 0 <= i < self.queue@.len() && self.queue@[i].cache.block_id == b
    }

    /// What block `b` holds as callers see it: the cached copy where there is
    /// one, else the device's.
    spec fn current(&self, b: int) -> Seq<u8> {
        if self.holds(b) {
            self.queue@[self.slot(b)].cache.cache@
        } else {
            self.device.blocks()[b]
        }
    }

    /// The disk as callers see it.
    pub closed spec fn disk(&self) -> Seq<Seq<u8>> {
        Seq::new(self.device.blocks().len(), |b: int| self.current(b))
    }

    /// Handles held on block `b` (none where it is not resident).
    pub closed spec fn pins(&self, b: int) -> nat {
        if self.holds(b) {
            self.queue@[self.slot(b)].handles as nat
        } else {
            0
        }
    }

    pub closed spec fn wf(&self) -> bool {
        &&& self.queue@.len() <= BLOCK_CACHE_SIZE
        &&& self.device.blocks().len() <= usize::MAX
        &&& blocks_sized(self.device.blocks())
        &&& forall|i: int|
            0 <= i < self.queue@.len() ==> (#[trigger] self.queue@[i]).cache.block_id
                < self.device.blocks().len()
        &&& forall|i: int, j: int|
            0 <= i < self.queue@.len() && 0 <= j < self.queue@.len() && i != j
                ==> #[trigger] self.queue@[i].cache.block_id != #[trigger] self.queue@[j].cache.block_id
        &&& forall|i: int|
            0 <= i < self.queue@.len() && !(#[trigger] self.queue@[i]).cache.modified
                ==> self.queue@[i].cache.cache@ == self.device.blocks()[self.queue@[i].cache.block_id as int]
    }

    /// No caller holds a handle on any block.
    pub open spec fn unpinned(&self) -> bool {
        forall|b: int| #[trigger] self.pins(b) == 0
    }

    /// Block `b` can be brought in: it is resident, there is room, or some
    /// resident block has no handle on it and can be evicted.
    pub open spec fn can_load(&self, b: int) -> bool {
        ||| self.resident().contains(b as usize)
        ||| self.resident().len() < BLOCK_CACHE_SIZE
        ||| exists|i: int| 0 <= i < self.handle_counts().len() && self.handle_counts()[i] == 0
    }

    proof fn lemma_slot(&self, i: int)
        requires
            self.wf(),
            0 <= i < self.queue@.len(),
        ensures
            self.holds(self.queue@[i].cache.block_id as int),
            self.slot(self.queue@[i].cache.block_id as int) == i,
            self.current(self.queue@[i].cache.block_id as int) == self.queue@[i].cache.cache@,
            self.pins(self.queue@[i].cache.block_id as int) == self.queue@[i].handles,
    {
        let b = self.queue@[i].cache.block_id as int;
        assert(self.holds(b));
        let j = self.slot(b);
        if j != i {
            assert(self.queue@[i].cache.block_id != self.queue@[j].cache.block_id);
        }
    }

    /// Every block of the disk view is one block long, and the view has a
    /// block for each block of the device.
    pub proof fn lemma_disk_sized(&self)
        requires
            self.wf(),
        ensures
            blocks_sized(self.disk()),
            self.disk().len() == self.num_blocks(),
            self.num_blocks() <= usize::MAX,
    {
        assert forall|b: int| 0 <= b < self.disk().len() implies (#[trigger] self.disk()[b]).len()
            == BLOCK_SZ by {
            if self.holds(b) {
                let i = self.slot(b);
                self.queue@[i].cache.lemma_data_len();
            }
        }
    }

    /// The manager never holds more than `BLOCK_CACHE_SIZE` blocks.
    pub proof fn lemma_resident_bound(&self)
        requires
            self.wf(),
        ensures
            self.resident().len() <= BLOCK_CACHE_SIZE,
            self.handle_counts().len() == self.resident().len(),
    {
    }

    /// When all `BLOCK_CACHE_SIZE` resident blocks are held by callers, a
    /// block that is not resident cannot be brought in: `get_block_cache`,
    /// `read` and `modify` refuse it.
    pub proof fn lemma_full_and_pinned(&self, b: int)
        requires
            self.wf(),
            self.resident().len() == BLOCK_CACHE_SIZE,
            forall|i: int| 0 <= i < self.handle_counts().len() ==> #[trigger] self.handle_counts()[i] > 0,
            !self.resident().contains(b as usize),
        ensures
            !self.can_load(b),
    {
    }

    /// With no handle outstanding every block can be loaded.
    pub proof fn lemma_unpinned_can_load(&self, b: int)
        requires
            self.wf(),
            self.unpinned(),
        ensures
            self.can_load(b),
    {
        if self.resident().len() >= BLOCK_CACHE_SIZE {
            self.lemma_slot(0);
            assert(self.pins(self.queue@[0].cache.block_id as int) == 0);
            assert(self.handle_counts()[0] == 0);
        }
    }

    /// A manager over `device`, with nothing cached.
    pub fn new(device: D) -> (r: Self)
        requires
            blocks_sized(device.blocks()),
            device.blocks().len() <= usize::MAX,
        ensures
            r.wf(),
            r.dev() == device,
            r.num_blocks() == device.blocks().len(),
            r.disk() == device.blocks(),
            r.resident().len() == 0,
            r.unpinned(),
    {
        let r = BlockCacheManager { device, queue: Vec::new() };
        assert(r.disk() =~= device.blocks());
        r
    }

    /// The device under the cache.
    pub fn device(&self) -> (r: &D)
        ensures
            *r == self.dev(),
    {
        &self.device
    }

    /// Number of blocks of the device.
    pub fn block_count(&self) -> (r: usize)
        ensures
            r == self.num_blocks(),
    {
        self.device.num_blocks()
    }

    /// Number of resident blocks.
    pub fn resident_count(&self) -> (r: usize)
        ensures
            r == self.resident().len(),
    {
        self.queue.len()
    }

    /// Whether block `block_id` could be brought in now.
    pub fn can_get(&self, block_id: usize) -> (r: bool)
        requires
            self.wf(),
        ensures
            r == self.can_load(block_id as int),
    {
        let mut i: usize = 0;
        let mut free = false;
        while i < self.queue.len()
            invariant
                i <= self.queue@.len(),
                free == exists|k: int| 0 <= k < i && self.handle_counts()[k] == 0,
                !self.resident().subrange(0, i as int).contains(block_id),
            decreases self.queue@.len() - i,
        {
            if self.queue[i].cache.block_id == block_id {
                assert(self.resident()[i as int] == block_id);
                return true;
            }
            assert(self.handle_counts()[i as int] == self.queue@[i as int].handles);
            if self.queue[i].handles == 0 {
                free = true;
            }
            assert(free == exists|k: int| 0 <= k < i + 1 && self.handle_counts()[k] == 0);
            assert(self.resident().subrange(0, i + 1) =~= self.resident().subrange(0, i as int).push(
                self.resident()[i as int],
            ));
            i = i + 1;
        }
        assert(self.resident().subrange(0, i as int) =~= self.resident());
        free || self.queue.len() < BLOCK_CACHE_SIZE
    }

    /// Finds the entry of `block_id`, loading the block (and evicting the
    /// oldest entry that no caller holds, when the pool is full) if needed.
    fn load(&mut self, block_id: usize) -> (idx: usize)
        requires
            old(self).wf(),
            block_id < old(self).num_blocks(),
            old(self).can_load(block_id as int),
        ensures
            final(self).wf(),
            final(self).disk() == old(self).disk(),
            final(self).num_blocks() == old(self).num_blocks(),
            forall|b: int| #[trigger] final(self).pins(b) == old(self).pins(b),
            idx < final(self).queue@.len(),
            final(self).queue@[idx as int].cache.block_id == block_id,
            final(self).resident() == old(self).loaded_pool(block_id),
            final(self).handle_counts() == old(self).loaded_handles(block_id),
            final(self).dirty_flags() == old(self).loaded_dirty(block_id),
            final(self).dev().blocks() == old(self).loaded_blocks(block_id),
            final(self).dev().write_count() == old(self).dev().write_count() + if old(self).load_writes_back(
                block_id,
            ) {
                1int
            } else {
                0int
            },
            !old(self).load_writes_back(block_id) ==> final(self).dev() == old(self).dev(),
            old(self).resident().contains(block_id) ==> *final(self) == *old(self),
    {
        let mut i: usize = 0;
        while i < self.queue.len()
            invariant
                self.wf(),
                i <= self.queue@.len(),
                forall|k: int| 0 <= k < i ==> self.queue@[k].cache.block_id != block_id,
            decreases self.queue@.len() - i,
        {
            if self.queue[i].cache.block_id == block_id {
                proof {
                    assert(self.resident()[i as int] == block_id);
                }
                return i;
            }
            i = i + 1;
        }
        assert(!self.holds(block_id as int));
        let ghost mut evicted: int = -1;
        assert(!self.resident().contains(block_id)) by {
            if self.resident().contains(block_id) {
                let k = choose|k: int| 0 <= k < self.resident().len() && self.resident()[k] == block_id;
                assert(self.queue@[k].cache.block_id == block_id);
            }
        }
        if self.queue.len() == BLOCK_CACHE_SIZE {
            let mut k: usize = 0;
            while k < self.queue.len() && self.queue[k].handles != 0
                invariant
                    k <= self.queue@.len(),
                    forall|j: int| 0 <= j < k ==> self.queue@[j].handles != 0,
                decreases self.queue@.len() - k,
            {
                k = k + 1;
            }
            assert(k < self.queue@.len()) by {
                if k == self.queue@.len() {
                    let j = choose|j: int|
                        0 <= j < self.handle_counts().len() && self.handle_counts()[j] == 0;
                    assert(self.queue@[j].handles == 0);
                }
            }
            let ghost pre = *self;
            proof {
                evicted = k as int;
                assert(self.handle_counts()[k as int] == 0);
                assert forall|j: int| 0 <= j < k implies self.handle_counts()[j] != 0 by {
                    assert(self.queue@[j].handles != 0);
                }
                self.lemma_first_free(k as int);
            }
            let mut victim = self.queue.remove(k);
            let ghost vic = victim;
            victim.cache.sync(&mut self.device);
            proof {
                assert(vic == pre.queue@[k as int]);
                assert(pre.dirty_flags()[k as int] == vic.cache.modified);
                assert(pre.cached()[k as int] == vic.cache.cache@);
                assert(pre.resident()[k as int] == vic.cache.block_id);
            }
            proof {
                let vid = victim.cache.block_id as int;
                pre.lemma_slot(k as int);
                assert(self.queue@ == pre.queue@.remove(k as int));
                assert forall|i: int, j: int|
                    0 <= i < self.queue@.len() && 0 <= j < self.queue@.len() && i != j
                        implies #[trigger] self.queue@[i].cache.block_id
                        != #[trigger] self.queue@[j].cache.block_id by {
                    let pi = if i < k { i } else { i + 1 };
                    let pj = if j < k { j } else { j + 1 };
                    assert(pre.queue@[pi].cache.block_id != pre.queue@[pj].cache.block_id);
                }
                assert forall|i: int|
                    0 <= i < self.queue@.len() && !(#[trigger] self.queue@[i]).cache.modified
                        implies self.queue@[i].cache.cache@
                        == self.device.blocks()[self.queue@[i].cache.block_id as int] by {
                    let pi = if i < k { i } else { i + 1 };
                    assert(pre.queue@[pi] == self.queue@[i]);
                    assert(pre.queue@[pi].cache.block_id != pre.queue@[k as int].cache.block_id);
                }
                assert(blocks_sized(self.device.blocks())) by {
                    assert forall|b: int| 0 <= b < self.device.blocks().len() implies (
                    #[trigger] self.device.blocks()[b]).len() == BLOCK_SZ by {
                        if b == vid {
                            victim.cache.lemma_data_len();
                        }
                    }
                }
                assert forall|b: int| 0 <= b < self.device.blocks().len() implies #[trigger] self.current(b)
                    == pre.current(b) && self.pins(b) == pre.pins(b) by {
                    if self.holds(b) {
                        let i = self.slot(b);
                        let pi = if i < k { i } else { i + 1 };
                        assert(pre.queue@[pi] == self.queue@[i]);
                        pre.lemma_slot(pi);
                        self.lemma_slot(i);
                    } else if b == vid {
                        assert(!self.holds(b));
                    } else {
                        if pre.holds(b) {
                            let pi = pre.slot(b);
                            if pi != k {
                                let i = if pi < k { pi } else { pi - 1 };
                                assert(self.queue@[i] == pre.queue@[pi]);
                            }
                        }
                    }
                }
                assert forall|b: int| #[trigger] self.pins(b) == pre.pins(b) by {
                    if self.holds(b) {
                        let i = self.slot(b);
                        let pi = if i < k { i } else { i + 1 };
                        assert(pre.queue@[pi] == self.queue@[i]);
                        pre.lemma_slot(pi);
                        self.lemma_slot(i);
                    } else if pre.holds(b) {
                        let pi = pre.slot(b);
                        if pi != k {
                            let i = if pi < k { pi } else { pi - 1 };
                            assert(self.queue@[i] == pre.queue@[pi]);
                        }
                    }
                }
                assert(self.disk() =~= pre.disk());
                assert(!self.holds(block_id as int));
            }
        }
        let ghost mid = *self;
        let cache = BlockCache::new(block_id, &self.device);
        self.queue.push(CacheEntry { cache, handles: 0 });
        let idx = self.queue.len() - 1;
        proof {
            let o = *old(self);
            if evicted < 0 {
                assert(!o.evicts(block_id));
                assert(self.resident() =~= o.resident().push(block_id));
                assert(self.handle_counts() =~= o.handle_counts().push(0usize));
                assert(self.dirty_flags() =~= o.dirty_flags().push(false));
            } else {
                assert(o.evicts(block_id));
                assert(o.first_free() == evicted);
                assert(mid.queue@ == o.queue@.remove(evicted));
                assert(self.resident() =~= o.resident().remove(evicted).push(block_id));
                assert(self.handle_counts() =~= o.handle_counts().remove(evicted).push(0usize));
                assert(self.dirty_flags() =~= o.dirty_flags().remove(evicted).push(false));
            }
        }
        proof {
            assert forall|i: int, j: int|
                0 <= i < self.queue@.len() && 0 <= j < self.queue@.len() && i != j
                    implies #[trigger] self.queue@[i].cache.block_id
                    != #[trigger] self.queue@[j].cache.block_id by {
                if i < idx && j < idx {
                    assert(mid.queue@[i].cache.block_id != mid.queue@[j].cache.block_id);
                } else if i < idx {
                    assert(mid.queue@[i].cache.block_id != block_id);
                } else if j < idx {
                    assert(mid.queue@[j].cache.block_id != block_id);
                }
            }
            assert forall|i: int|
                0 <= i < self.queue@.len() && !(#[trigger] self.queue@[i]).cache.modified
                    implies self.queue@[i].cache.cache@
                    == self.device.blocks()[self.queue@[i].cache.block_id as int] by {
                if i < idx {
                    assert(mid.queue@[i] == self.queue@[i]);
                }
            }
            assert forall|b: int| 0 <= b < self.device.blocks().len() implies #[trigger] self.current(b)
                == mid.current(b) by {
                if b == block_id {
                    self.lemma_slot(idx as int);
                } else if self.holds(b) {
                    let i = self.slot(b);
                    assert(i != idx);
                    mid.lemma_slot(i);
                } else if mid.holds(b) {
                    let i = mid.slot(b);
                    assert(self.queue@[i] == mid.queue@[i]);
                }
            }
            assert forall|b: int| #[trigger] self.pins(b) == mid.pins(b) by {
                if b == block_id {
                    self.lemma_slot(idx as int);
                } else if self.holds(b) {
                    let i = self.slot(b);
                    assert(i != idx);
                    mid.lemma_slot(i);
                    self.lemma_slot(i);
                } else if mid.holds(b) {
                    let i = mid.slot(b);
                    assert(self.queue@[i] == mid.queue@[i]);
                }
            }
            assert(self.disk() =~= mid.disk());
        }
        idx
    }

    /// Copies `len` bytes at `offset` out of block `block_id`.
    pub fn read(&mut self, block_id: usize, offset: usize, len: usize) -> (r: Vec<u8>)
        requires
            old(self).wf(),
            block_id < old(self).num_blocks(),
            offset + len <= BLOCK_SZ,
            old(self).can_load(block_id as int),
        ensures
            final(self).wf(),
            final(self).disk() == old(self).disk(),
            final(self).num_blocks() == old(self).num_blocks(),
            forall|b: int| #[trigger] final(self).pins(b) == old(self).pins(b),
            r@ == old(self).disk()[block_id as int].subrange(offset as int, offset + len),
            final(self).loaded_from(*old(self), block_id),
            final(self).handle_counts() == old(self).loaded_handles(block_id),
            final(self).dirty_flags() == old(self).loaded_dirty(block_id),
            old(self).resident().contains(block_id) ==> *final(self) == *old(self),
            old(self).has_room() ==> final(self).has_room(),
    {
        let idx = self.load(block_id);
        proof {
            self.lemma_slot(idx as int);
            old(self).lemma_loaded_room(block_id, *self);
        }
        self.queue[idx].cache.read(offset, len)
    }

    /// Writes `bytes` into block `block_id` at `offset`; the block is then
    /// modified in the cache and written back later.
    pub fn modify(&mut self, block_id: usize, offset: usize, bytes: &[u8])
        requires
            old(self).wf(),
            block_id < old(self).num_blocks(),
            offset + bytes@.len() <= BLOCK_SZ,
            old(self).can_load(block_id as int),
        ensures
            final(self).wf(),
            final(self).disk() == old(self).disk().update(
                block_id as int,
                overwrite(old(self).disk()[block_id as int], offset as int, bytes@),
            ),
            final(self).num_blocks() == old(self).num_blocks(),
            forall|b: int| #[trigger] final(self).pins(b) == old(self).pins(b),
            final(self).loaded_from(*old(self), block_id),
            final(self).handle_counts() == old(self).loaded_handles(block_id),
            forall|i: int|
                0 <= i < final(self).resident().len() ==> #[trigger] final(self).dirty_flags()[i] == (
                final(self).resident()[i] == block_id || old(self).loaded_dirty(block_id)[i]),
            final(self).dirty_flags().len() == final(self).resident().len(),
            old(self).has_room() ==> final(self).has_room(),
    {
        let idx = self.load(block_id);
        let ghost mid = *self;
        proof {
            mid.lemma_slot(idx as int);
        }
        let mut e = self.queue[idx];
        e.cache.modify(offset, bytes);
        self.queue.set(idx, e);
        proof {
            assert(self.resident() =~= mid.resident());
            assert(self.handle_counts() =~= mid.handle_counts());
            assert(self.dirty_flags() =~= mid.dirty_flags().update(idx as int, true));
            assert forall|i: int| 0 <= i < self.resident().len() implies #[trigger] self.dirty_flags()[i] == (
                self.resident()[i] == block_id || old(self).loaded_dirty(block_id)[i]) by {
                if i != idx {
                    assert(mid.queue@[i].cache.block_id != mid.queue@[idx as int].cache.block_id);
                }
            }
            old(self).lemma_loaded_room(block_id, *self);
        }
        proof {
            self.lemma_entry_replaced(mid, idx as int);
            assert(self.disk() =~= mid.disk().update(
                block_id as int,
                overwrite(mid.disk()[block_id as int], offset as int, bytes@),
            ));
        }
    }

    /// After entry `k` of `pre` is replaced by one for the same block with
    /// the same handles, only that block's contents may differ.
    proof fn lemma_entry_replaced(&self, pre: Self, k: int)
        requires
            pre.wf(),
            0 <= k < pre.queue@.len(),
            self.device == pre.device,
            self.queue@.len() == pre.queue@.len(),
            self.queue@ == pre.queue@.update(k, self.queue@[k]),
            self.queue@[k].cache.block_id == pre.queue@[k].cache.block_id,
            self.queue@[k].handles == pre.queue@[k].handles,
            self.queue@[k].cache.modified || self.queue@[k].cache == pre.queue@[k].cache,
        ensures
            self.wf(),
            forall|b: int| #[trigger] self.pins(b) == pre.pins(b),
            forall|b: int|
                0 <= b < self.num_blocks() && b != pre.queue@[k].cache.block_id
                    ==> #[trigger] self.disk()[b] == pre.disk()[b],
            self.disk()[pre.queue@[k].cache.block_id as int] == self.queue@[k].cache.cache@,
            self.disk().len() == pre.disk().len(),
    {
        assert forall|i: int, j: int|
            0 <= i < self.queue@.len() && 0 <= j < self.queue@.len() && i != j
                implies #[trigger] self.queue@[i].cache.block_id
                != #[trigger] self.queue@[j].cache.block_id by {
            assert(pre.queue@[i].cache.block_id != pre.queue@[j].cache.block_id);
        }
        assert forall|i: int|
            0 <= i < self.queue@.len() && !(#[trigger] self.queue@[i]).cache.modified
                implies self.queue@[i].cache.cache@
                == self.device.blocks()[self.queue@[i].cache.block_id as int] by {
            if i != k {
                assert(self.queue@[i] == pre.queue@[i]);
            } else {
                assert(self.queue@[i].cache == pre.queue@[i].cache);
            }
        }
        assert forall|i: int|
            0 <= i < self.queue@.len() implies (#[trigger] self.queue@[i]).cache.block_id
                < self.device.blocks().len() by {
            assert(self.queue@[i].cache.block_id == pre.queue@[i].cache.block_id);
        }
        assert(self.wf());
        self.lemma_slot(k);
        assert forall|b: int| #[trigger] self.pins(b) == pre.pins(b) by {
            if self.holds(b) {
                let i = self.slot(b);
                self.lemma_slot(i);
                pre.lemma_slot(i);
            } else if pre.holds(b) {
                let i = pre.slot(b);
                assert(self.queue@[i].cache.block_id == pre.queue@[i].cache.block_id);
            }
        }
        assert forall|b: int|
            0 <= b < self.num_blocks() && b != pre.queue@[k].cache.block_id
                implies #[trigger] self.disk()[b] == pre.disk()[b] by {
            if self.holds(b) {
                let i = self.slot(b);
                self.lemma_slot(i);
                pre.lemma_slot(i);
            } else if pre.holds(b) {
                let i = pre.slot(b);
                assert(self.queue@[i].cache.block_id == pre.queue@[i].cache.block_id);
            }
        }
    }

    /// Takes a handle on block `block_id`, bringing it in if needed; while
    /// the handle is held the block is not evicted.
    pub fn get_block_cache(&mut self, block_id: usize)
        requires
            old(self).wf(),
            block_id < old(self).num_blocks(),
            old(self).can_load(block_id as int),
            old(self).pins(block_id as int) < usize::MAX,
        ensures
            final(self).wf(),
            final(self).disk() == old(self).disk(),
            final(self).num_blocks() == old(self).num_blocks(),
            final(self).resident().contains(block_id),
            final(self).pins(block_id as int) == old(self).pins(block_id as int) + 1,
            forall|b: int| b != block_id ==> #[trigger] final(self).pins(b) == old(self).pins(b),
            final(self).loaded_from(*old(self), block_id),
            final(self).dirty_flags() == old(self).loaded_dirty(block_id),
            final(self).handle_counts().len() == final(self).resident().len(),
            forall|i: int|
                0 <= i < final(self).resident().len() ==> #[trigger] final(self).handle_counts()[i]
                    == old(self).loaded_handles(block_id)[i] + if final(self).resident()[i] == block_id {
                    1int
                } else {
                    0int
                },
    {
        let idx = self.load(block_id);
        let ghost mid = *self;
        proof {
            mid.lemma_slot(idx as int);
        }
        let mut e = self.queue[idx];
        e.handles = e.handles + 1;
        self.queue.set(idx, e);
        proof {
            assert(self.resident() =~= mid.resident());
            assert(self.dirty_flags() =~= mid.dirty_flags());
            assert forall|i: int| 0 <= i < self.resident().len() implies #[trigger] self.handle_counts()[i]
                == old(self).loaded_handles(block_id)[i] + if self.resident()[i] == block_id {
                1int
            } else {
                0int
            } by {
                if i != idx {
                    assert(mid.queue@[i].cache.block_id != mid.queue@[idx as int].cache.block_id);
                }
            }
        }
        proof {
            self.lemma_handles_changed(mid, idx as int);
            self.lemma_slot(idx as int);
            assert(self.resident()[idx as int] == block_id);
        }
    }

    /// Gives back a handle on block `block_id`.
    pub fn release(&mut self, block_id: usize)
        requires
            old(self).wf(),
            old(self).pins(block_id as int) > 0,
        ensures
            final(self).wf(),
            final(self).disk() == old(self).disk(),
            final(self).num_blocks() == old(self).num_blocks(),
            final(self).resident() == old(self).resident(),
            final(self).dev() == old(self).dev(),
            final(self).dirty_flags() == old(self).dirty_flags(),
            final(self).pins(block_id as int) == old(self).pins(block_id as int) - 1,
            forall|b: int| b != block_id ==> #[trigger] final(self).pins(b) == old(self).pins(b),
    {
        let mut i: usize = 0;
        while i < self.queue.len() && self.queue[i].cache.block_id != block_id
            invariant
                self.wf(),
                self.pins(block_id as int) > 0,
                i <= self.queue@.len(),
                forall|k: int| 0 <= k < i ==> self.queue@[k].cache.block_id != block_id,
            decreases self.queue@.len() - i,
        {
            i = i + 1;
        }
        let ghost mid = *self;
        proof {
            if i == self.queue@.len() {
                assert(!self.holds(block_id as int));
            }
            mid.lemma_slot(i as int);
        }
        let mut e = self.queue[i];
        e.handles = e.handles - 1;
        self.queue.set(i, e);
        proof {
            self.lemma_handles_changed(mid, i as int);
            self.lemma_slot(i as int);
            assert(self.resident() =~= mid.resident());
            assert(self.dirty_flags() =~= mid.dirty_flags());
        }
    }

    proof fn lemma_handles_changed(&self, pre: Self, k: int)
        requires
            pre.wf(),
            0 <= k < pre.queue@.len(),
            self.device == pre.device,
            self.queue@.len() == pre.queue@.len(),
            self.queue@ == pre.queue@.update(k, self.queue@[k]),
            self.queue@[k].cache == pre.queue@[k].cache,
        ensures
            self.wf(),
            self.disk() == pre.disk(),
            forall|b: int|
                b != pre.queue@[k].cache.block_id ==> #[trigger] self.pins(b) == pre.pins(b),
    {
        assert forall|i: int, j: int|
            0 <= i < self.queue@.len() && 0 <= j < self.queue@.len() && i != j
                implies #[trigger] self.queue@[i].cache.block_id
                != #[trigger] self.queue@[j].cache.block_id by {
            assert(pre.queue@[i].cache.block_id != pre.queue@[j].cache.block_id);
        }
        assert(self.queue@.len() == pre.queue@.len());
        assert forall|i: int|
            0 <= i < self.queue@.len() implies (#[trigger] self.queue@[i]).cache == pre.queue@[i].cache by {
        }
        assert forall|i: int|
            0 <= i < self.queue@.len() && !(#[trigger] self.queue@[i]).cache.modified
                implies self.queue@[i].cache.cache@
                == self.device.blocks()[self.queue@[i].cache.block_id as int] by {
            assert(self.queue@[i].cache == pre.queue@[i].cache);
        }
        assert(self.wf());
        assert forall|b: int|
            b != pre.queue@[k].cache.block_id implies #[trigger] self.pins(b) == pre.pins(b) by {
            if self.holds(b) {
                let i = self.slot(b);
                self.lemma_slot(i);
                pre.lemma_slot(i);
            } else if pre.holds(b) {
                let i = pre.slot(b);
                assert(self.queue@[i].cache.block_id == pre.queue@[i].cache.block_id);
            }
        }
        assert forall|b: int| 0 <= b < self.num_blocks() implies #[trigger] self.current(b)
            == pre.current(b) by {
            if self.holds(b) {
                let i = self.slot(b);
                self.lemma_slot(i);
                pre.lemma_slot(i);
            } else if pre.holds(b) {
                let i = pre.slot(b);
                assert(self.queue@[i].cache.block_id == pre.queue@[i].cache.block_id);
            }
        }
        assert(self.disk() =~= pre.disk());
    }

    /// Writes every modified resident block back to the device.
    pub fn sync_all(&mut self)
        requires
            old(self).wf(),
        ensures
            final(self).wf(),
            final(self).disk() == old(self).disk(),
            final(self).dev().blocks() == old(self).disk(),
            final(self).num_blocks() == old(self).num_blocks(),
            final(self).resident() == old(self).resident(),
            final(self).handle_counts() == old(self).handle_counts(),
            final(self).cached() == old(self).cached(),
            forall|b: int| #[trigger] final(self).pins(b) == old(self).pins(b),
            forall|i: int| 0 <= i < final(self).dirty_flags().len() ==> !#[trigger] final(self).dirty_flags()[i],
            final(self).dirty_flags().len() == old(self).dirty_flags().len(),
            final(self).dev().write_count() == old(self).dev().write_count() + dirty_count(old(self).dirty_flags()),
    {
        let mut i: usize = 0;
        while i < self.queue.len()
            invariant
                self.wf(),
                i <= self.queue@.len(),
                self.queue@.len() == old(self).queue@.len(),
                self.disk() == old(self).disk(),
                self.resident() == old(self).resident(),
                self.handle_counts() == old(self).handle_counts(),
                self.cached() == old(self).cached(),
                forall|b: int| #[trigger] self.pins(b) == old(self).pins(b),
                forall|k: int| 0 <= k < i ==> !self.queue@[k].cache.modified,
                forall|k: int| i <= k < self.queue@.len() ==> self.queue@[k].cache.modified == old(self).queue@[k].cache.modified,
                self.device.write_count() == old(self).device.write_count() + dirty_count(old(self).dirty_flags().subrange(0, i as int)),
            decreases self.queue@.len() - i,
        {
            proof {
                let f = old(self).dirty_flags();
                assert(f.subrange(0, i + 1).drop_last() =~= f.subrange(0, i as int));
                assert(f.subrange(0, i + 1).last() == f[i as int]);
            }
            let ghost pre = *self;
            let mut e = self.queue[i];
            proof {
                pre.lemma_slot(i as int);
            }
            e.cache.sync(&mut self.device);
            self.queue.set(i, e);
            proof {
                let id = e.cache.block_id as int;
                assert forall|a: int, c: int|
                    0 <= a < self.queue@.len() && 0 <= c < self.queue@.len() && a != c
                        implies #[trigger] self.queue@[a].cache.block_id
                        != #[trigger] self.queue@[c].cache.block_id by {
                    assert(pre.queue@[a].cache.block_id != pre.queue@[c].cache.block_id);
                }
                assert forall|a: int|
                    0 <= a < self.queue@.len() && !(#[trigger] self.queue@[a]).cache.modified
                        implies self.queue@[a].cache.cache@
                        == self.device.blocks()[self.queue@[a].cache.block_id as int] by {
                    if a != i {
                        assert(pre.queue@[a].cache.block_id != pre.queue@[i as int].cache.block_id);
                    }
                }
                assert(blocks_sized(self.device.blocks())) by {
                    assert forall|b: int| 0 <= b < self.device.blocks().len() implies (
                    #[trigger] self.device.blocks()[b]).len() == BLOCK_SZ by {
                        if b == id {
                            e.cache.lemma_data_len();
                        }
                    }
                }
                assert(self.wf());
                assert forall|b: int| #[trigger] self.pins(b) == pre.pins(b) by {
                    if self.holds(b) {
                        let a = self.slot(b);
                        self.lemma_slot(a);
                        pre.lemma_slot(a);
                    } else if pre.holds(b) {
                        let a = pre.slot(b);
                        assert(self.queue@[a].cache.block_id == pre.queue@[a].cache.block_id);
                    }
                }
                assert forall|b: int| 0 <= b < self.num_blocks() implies #[trigger] self.current(b)
                    == pre.current(b) by {
                    if self.holds(b) {
                        let a = self.slot(b);
                        self.lemma_slot(a);
                        pre.lemma_slot(a);
                    } else if pre.holds(b) {
                        let a = pre.slot(b);
                        assert(self.queue@[a].cache.block_id == pre.queue@[a].cache.block_id);
                    }
                }
                assert(self.disk() =~= pre.disk());
                assert(self.resident() =~= pre.resident());
                assert(self.handle_counts() =~= pre.handle_counts());
                assert(self.cached() =~= pre.cached());
            }
            i = i + 1;
        }
        proof {
            assert(old(self).dirty_flags().subrange(0, i as int) =~= old(self).dirty_flags());
            assert(self.dirty_flags().len() == old(self).dirty_flags().len());
        }
        proof {
            assert forall|b: int| 0 <= b < self.num_blocks() implies #[trigger] self.device.blocks()[b]
                == self.current(b) by {
                if self.holds(b) {
                    let a = self.slot(b);
                    self.lemma_slot(a);
                }
            }
            assert(self.device.blocks() =~= self.disk());
        }
    }
}

/// Writes every modified block held by `manager` back to its device.
pub fn block_cache_sync_all<D: BlockDevice>(manager: &mut BlockCacheManager<D>)
    requires
        old(manager).wf(),
    ensures
        final(manager).wf(),
        final(manager).disk() == old(manager).disk(),
        final(manager).dev().blocks() == old(manager).disk(),
        final(manager).num_blocks() == old(manager).num_blocks(),
        final(manager).resident() == old(manager).resident(),
        final(manager).handle_counts() == old(manager).handle_counts(),
        final(manager).cached() == old(manager).cached(),
        forall|b: int| #[trigger] final(manager).pins(b) == old(manager).pins(b),
        forall|i: int| 0 <= i < final(manager).dirty_flags().len() ==> !#[trigger] final(manager).dirty_flags()[i],
        final(manager).dirty_flags().len() == old(manager).dirty_flags().len(),
        final(manager).dev().write_count() == old(manager).dev().write_count() + dirty_count(old(manager).dirty_flags()),
{
    manager.sync_all();
}

} // verus!
