//! The volume: superblock geometry, the inode and data bitmaps, formatting
//! and opening, and allocation of inodes and data blocks.
use vstd::prelude::*;

use crate::bitmap::{allocated, bit_set, word_of, Bitmap, BLOCK_BITS};
use crate::block_cache::{overwrite, BlockCacheManager};
use crate::block_dev::{blocks_sized, BlockDevice};
use crate::layout::{
    disk_inode_bytes, le_u32, super_block_bytes, super_block_of, DiskInode,
    DiskInodeType, SuperBlock, DISK_INODE_SZ, EFS_MAGIC, INODE_DIRECT_COUNT,
};
use crate::vfs::Inode;
use crate::BLOCK_SZ;

verus! {

/// A block of zeros.
pub open spec fn zero_block() -> Seq<u8> {
    Seq::new(BLOCK_SZ as nat, |i: int| 0u8)
}

/// The superblock in block 0 of `blocks` describes a volume that fits on
/// them: magic number, regions in order, enough inode records for every
/// inode bit, and a data bitmap with a bit for every data block.
pub open spec fn volume_ok(blocks: Seq<Seq<u8>>) -> bool {
    blocks.len() > 0 && blocks[0].len() == BLOCK_SZ && {
        let sb = super_block_of(blocks[0]);
        &&& sb.magic == EFS_MAGIC
        &&& 1 + sb.inode_bitmap_blocks + sb.inode_area_blocks + sb.data_bitmap_blocks
            + sb.data_area_blocks <= blocks.len()
        &&& blocks.len() <= u32::MAX
        &&& sb.inode_bitmap_blocks * 4096 <= sb.inode_area_blocks * 4
        &&& sb.inode_bitmap_blocks * 4096 <= u32::MAX
        &&& sb.data_bitmap_blocks * 4096 <= u32::MAX
        &&& sb.data_area_blocks <= sb.data_bitmap_blocks * 4096
    }
}

/// `s` holds, from `at` on, the record of an empty directory: size 0, every
/// block id 0, type tag 1.
pub open spec fn empty_dir_at(s: Seq<u8>, at: int) -> bool {
    &&& le_u32(s, at) == 0
    &&& forall|k: int| 0 <= k < INODE_DIRECT_COUNT ==> #[trigger] le_u32(s, at + 4 + 4 * k) == 0
    &&& le_u32(s, at + 116) == 0
    &&& le_u32(s, at + 120) == 0
    &&& le_u32(s, at + 124) == 1
}

proof fn lemma_empty_dir_bytes(di: DiskInode, s: Seq<u8>)
    requires
        di.size == 0,
        di.direct@ == Seq::new(INODE_DIRECT_COUNT as nat, |i: int| 0u32),
        di.indirect1 == 0,
        di.indirect2 == 0,
        di.type_ == DiskInodeType::Directory,
        s.len() == BLOCK_SZ,
        s.subrange(0, 128) == disk_inode_bytes(di),
    ensures
        empty_dir_at(s, 0),
{
    let e = disk_inode_bytes(di);
    assert forall|k: int| 0 <= k < 124 implies #[trigger] e[k] == 0 by {
        if 4 <= k < 116 {
            assert(di.direct@[(k - 4) / 4] == 0);
        }
    }
    assert(e[124] == 1);
    assert forall|k: int| 0 <= k < 124 implies #[trigger] s[k] == 0 by {
        assert(s.subrange(0, 128)[k] == s[k]);
    }
    assert(s[124] == e[124]) by {
        assert(s.subrange(0, 128)[124] == s[124]);
    }
    assert(s[125] == e[125] && s[126] == e[126] && s[127] == e[127]) by {
        assert(s.subrange(0, 128)[125] == s[125]);
        assert(s.subrange(0, 128)[126] == s[126]);
        assert(s.subrange(0, 128)[127] == s[127]);
    }
    assert forall|k: int| 0 <= k < INODE_DIRECT_COUNT implies #[trigger] le_u32(s, 4 + 4 * k) == 0 by {
        assert(s[4 + 4 * k] == 0 && s[5 + 4 * k] == 0 && s[6 + 4 * k] == 0 && s[7 + 4 * k] == 0);
    }
}

/// In a bitmap whose blocks are all zero, no bit is set.
proof fn lemma_zero_bitmap(disk: Seq<Seq<u8>>, start: int, len: int)
    requires
        0 <= start,
        0 <= len,
        start + len <= disk.len(),
        forall|b: int| start <= b < start + len ==> #[trigger] disk[b] == zero_block(),
    ensures
        allocated(disk, start, len) == Set::<int>::empty(),
{
    assert forall|i: int| 0 <= i < len * 4096 implies !#[trigger] bit_set(disk, start, i) by {
        vstd::arithmetic::div_mod::lemma_div_is_ordered(i, len * 4096 - 1, 4096);
        vstd::arithmetic::div_mod::lemma_div_multiples_vanish_fancy(len - 1, 4095, 4096);
        vstd::arithmetic::div_mod::lemma_mod_bound(i, 4096);
        vstd::arithmetic::div_mod::lemma_div_is_ordered(i % 4096, 4095, 64);
        vstd::arithmetic::div_mod::lemma_mod_bound(i, 64);
        let blk = disk[start + i / 4096];
        let at = 8 * ((i % 4096) / 64);
        assert(blk[at] == 0 && blk[at + 1] == 0 && blk[at + 2] == 0 && blk[at + 3] == 0 && blk[at
            + 4] == 0 && blk[at + 5] == 0 && blk[at + 6] == 0 && blk[at + 7] == 0);
        let z: u8 = 0;
        assert((z as u64) | ((z as u64) << 8u64) | ((z as u64) << 16u64) | ((z as u64) << 24u64)
            | ((z as u64) << 32u64) | ((z as u64) << 40u64) | ((z as u64) << 48u64) | ((z as u64)
            << 56u64) == 0) by (bit_vector)
            requires
                z == 0,
        ;
        assert(word_of(disk, start, i) == 0);
        let k = (i % 64) as u64;
        assert((0u64 >> k) & 1 == 0) by (bit_vector);
    }
    assert(allocated(disk, start, len) =~= Set::<int>::empty());
}

/// Region sizes for a volume of `total_blocks` blocks with
/// `inode_bitmap_blocks` bitmap blocks: the inode area holds a record for
/// every inode bit, and the data bitmap has a bit for every data block.
fn geometry(total_blocks: u32, inode_bitmap_blocks: u32) -> (r: (u32, u32, u32))
    requires
        inode_bitmap_blocks >= 1,
        1 + 1025 * inode_bitmap_blocks <= total_blocks,
    ensures
        r.0 == 1024 * inode_bitmap_blocks,
        r.1 == (total_blocks - 1 - 1025 * inode_bitmap_blocks + 4096) / 4097,
        r.2 == total_blocks - 1 - 1025 * inode_bitmap_blocks - r.1,
        r.2 <= 4096 * r.1,
        4096 * r.1 <= u32::MAX,
        1 + inode_bitmap_blocks + r.0 + r.1 + r.2 == total_blocks,
{
    let inode_num = inode_bitmap_blocks as u64 * 4096;
    let inode_area_blocks = ((inode_num * DISK_INODE_SZ as u64 + 511) / 512) as u32;
    proof {
        vstd::arithmetic::div_mod::lemma_fundamental_div_mod_converse(
            (inode_num * 128 + 511) as int,
            512,
            1024 * inode_bitmap_blocks as int,
            511,
        );
    }
    let inode_total_blocks = inode_bitmap_blocks + inode_area_blocks;
    let data_total_blocks = total_blocks - 1 - inode_total_blocks;
    let data_bitmap_blocks = ((data_total_blocks as u64 + 4096) / 4097) as u32;
    proof {
        vstd::arithmetic::div_mod::lemma_fundamental_div_mod((data_total_blocks + 4096) as int, 4097);
        vstd::arithmetic::div_mod::lemma_mod_bound((data_total_blocks + 4096) as int, 4097);
    }
    let data_area_blocks = data_total_blocks - data_bitmap_blocks;
    proof {
        assert(4097 * data_bitmap_blocks <= data_total_blocks + 4096);
        assert(4096 * data_bitmap_blocks <= u32::MAX);
    }
    (inode_area_blocks, data_bitmap_blocks, data_area_blocks)
}

/// Writes `sb` at the start of block 0.
fn write_super_block<D: BlockDevice>(cache: &mut BlockCacheManager<D>, sb: &SuperBlock)
    requires
        old(cache).wf(),
        old(cache).unpinned(),
        old(cache).num_blocks() > 0,
    ensures
        final(cache).wf(),
        final(cache).unpinned(),
        final(cache).num_blocks() == old(cache).num_blocks(),
        super_block_of(final(cache).disk()[0]) == *sb,
        forall|b: int| 0 < b < old(cache).num_blocks() ==> #[trigger] final(cache).disk()[b] == old(cache).disk()[b],
{
    let sb_bytes = sb.encode();
    proof {
        cache.lemma_unpinned_can_load(0);
        cache.lemma_disk_sized();
    }
    cache.modify(0, 0, sb_bytes.as_slice());
    proof {
        cache.lemma_disk_sized();
        let blk = cache.disk()[0];
        crate::layout::lemma_super_block_round_trip(*sb, blk.subrange(24, 512));
        assert(blk =~= super_block_bytes(*sb) + blk.subrange(24, 512));
    }
}

/// Fills blocks `0..total_blocks` with zeros.
fn zero_blocks<D: BlockDevice>(cache: &mut BlockCacheManager<D>, total_blocks: u32)
    requires
        old(cache).wf(),
        old(cache).unpinned(),
        total_blocks <= old(cache).num_blocks(),
    ensures
        final(cache).wf(),
        final(cache).unpinned(),
        final(cache).num_blocks() == old(cache).num_blocks(),
        forall|b: int| 0 <= b < total_blocks ==> #[trigger] final(cache).disk()[b] == zero_block(),
{
    let zeros: Vec<u8> = vec![0u8; 512];
    assert(zeros@ =~= zero_block());
    let mut i: u32 = 0;
    while i < total_blocks
        invariant
            cache.wf(),
            cache.unpinned(),
            cache.num_blocks() == old(cache).num_blocks(),
            total_blocks <= cache.num_blocks(),
            zeros@ == zero_block(),
            i <= total_blocks,
            forall|b: int| 0 <= b < i ==> #[trigger] cache.disk()[b] == zero_block(),
        decreases total_blocks - i,
    {
        proof {
            cache.lemma_unpinned_can_load(i as int);
            cache.lemma_disk_sized();
        }
        cache.modify(i as usize, 0, zeros.as_slice());
        proof {
            assert(cache.disk()[i as int] =~= zero_block());
        }
        i = i + 1;
    }
}

/// A volume: its geometry, its two bitmaps, and the block cache over its
/// device.
pub struct EasyFileSystem<D: BlockDevice> {
    cache: BlockCacheManager<D>,
    inode_bitmap: Bitmap,
    data_bitmap: Bitmap,
    inode_area_start_block: u32,
    inode_area_blocks: u32,
    data_area_start_block: u32,
    data_area_blocks: u32,
}

impl<D: BlockDevice> EasyFileSystem<D> {
    /// The block cache (and through it the device).
    pub closed spec fn cache_view(&self) -> BlockCacheManager<D> {
        self.cache
    }

    /// The disk as the volume sees it.
    pub open spec fn disk(&self) -> Seq<Seq<u8>> {
        self.cache_view().disk()
    }

    pub closed spec fn inode_bitmap_view(&self) -> Bitmap {
        self.inode_bitmap
    }

    pub closed spec fn data_bitmap_view(&self) -> Bitmap {
        self.data_bitmap
    }

    pub closed spec fn inode_area_start(&self) -> int {
        self.inode_area_start_block as int
    }

    pub closed spec fn data_area_start(&self) -> int {
        self.data_area_start_block as int
    }

    pub closed spec fn data_area_len(&self) -> int {
        self.data_area_blocks as int
    }

    /// Number of inode ids the volume has.
    pub open spec fn inode_count(&self) -> int {
        self.inode_bitmap_view().len() * 4096
    }

    /// The set of inode ids in use.
    pub open spec fn used_inodes(&self) -> Set<int> {
        allocated(self.disk(), self.inode_bitmap_view().start(), self.inode_bitmap_view().len())
    }

    /// The set of data blocks in use, as offsets in the data area.
    pub open spec fn used_data(&self) -> Set<int> {
        allocated(self.disk(), self.data_bitmap_view().start(), self.data_bitmap_view().len())
    }

    /// The data blocks not in use, as offsets in the data area.
    pub open spec fn free_data(&self) -> Set<int> {
        Set::new(|i: int| 0 <= i < self.data_area_len() && !self.used_data().contains(i))
    }

    /// The free data blocks are finitely many.
    pub proof fn lemma_free_data_finite(&self)
        requires
            self.wf(),
        ensures
            self.free_data().finite(),
    {
        vstd::set_lib::lemma_int_range(0, self.data_area_len());
        vstd::set_lib::lemma_len_subset(self.free_data(), vstd::set_lib::set_int_range(0, self.data_area_len()));
    }

    /// Where the record of inode `inode_id` lies: its block and its offset in
    /// the block.
    pub open spec fn inode_pos(&self, inode_id: int) -> (int, int) {
        (self.inode_area_start() + inode_id / 4, (inode_id % 4) * DISK_INODE_SZ)
    }

    pub closed spec fn wf(&self) -> bool {
        &&& self.cache.wf()
        &&& self.cache.unpinned()
        &&& self.cache.num_blocks() <= u32::MAX
        &&& self.inode_bitmap.len() * 4096 <= u32::MAX
        &&& self.data_bitmap.len() * 4096 <= u32::MAX
        &&& self.inode_bitmap.start() == 1
        &&& self.inode_area_start_block == 1 + self.inode_bitmap.len()
        &&& self.inode_bitmap.len() * 4096 <= self.inode_area_blocks * 4
        &&& self.data_bitmap.start() == self.inode_area_start_block + self.inode_area_blocks
        &&& self.data_area_start_block == self.data_bitmap.start() + self.data_bitmap.len()
        &&& self.data_area_start_block + self.data_area_blocks <= self.cache.num_blocks()
        &&& self.data_area_blocks <= self.data_bitmap.len() * 4096
    }

    proof fn lemma_wf(&self)
        requires
            self.wf(),
        ensures
            self.inode_bitmap.len() * BLOCK_BITS <= usize::MAX,
            self.data_bitmap.len() * BLOCK_BITS <= usize::MAX,
            self.inode_bitmap.start() + self.inode_bitmap.len() <= self.cache.num_blocks(),
            self.data_bitmap.start() + self.data_bitmap.len() <= self.cache.num_blocks(),
    {
        self.cache.lemma_disk_sized();
    }

    /// `self` and `other` have the same geometry and bitmaps.
    pub closed spec fn same_layout(&self, other: &Self) -> bool {
        &&& self.inode_bitmap == other.inode_bitmap
        &&& self.data_bitmap == other.data_bitmap
        &&& self.inode_area_start_block == other.inode_area_start_block
        &&& self.inode_area_blocks == other.inode_area_blocks
        &&& self.data_area_start_block == other.data_area_start_block
        &&& self.data_area_blocks == other.data_area_blocks
    }

    /// A volume with the layout of a well-formed one, over a cache in good
    /// order and of the same size, is well formed.
    pub proof fn lemma_rebuild(&self, other: &Self)
        requires
            other.wf(),
            self.same_layout(other),
            self.cache_view().wf(),
            self.cache_view().unpinned(),
            self.cache_view().num_blocks() == other.cache_view().num_blocks(),
        ensures
            self.wf(),
    {
    }

    /// Having the same layout carries over from one volume to the next.
    pub proof fn lemma_same_layout_trans(&self, b: &Self, c: &Self)
        requires
            self.same_layout(b),
            b.same_layout(c),
        ensures
            self.same_layout(c),
    {
    }

    /// A volume has its own layout.
    pub proof fn lemma_same_layout_refl(&self)
        ensures
            self.same_layout(self),
    {
    }

    /// Volumes with the same layout place inodes and regions alike.
    pub proof fn lemma_same_layout(&self, other: &Self)
        requires
            self.same_layout(other),
        ensures
            self.inode_count() == other.inode_count(),
            self.inode_area_start() == other.inode_area_start(),
            self.data_area_start() == other.data_area_start(),
            self.data_area_len() == other.data_area_len(),
            self.inode_bitmap_view() == other.inode_bitmap_view(),
            self.data_bitmap_view() == other.data_bitmap_view(),
            forall|id: int| #[trigger] self.inode_pos(id) == other.inode_pos(id),
            other.same_layout(self),
    {
    }

    /// Every inode record lies in the inode area, before the data bitmap.
    pub proof fn lemma_layout_order(&self)
        requires
            self.wf(),
        ensures
            self.inode_area_start() >= 1,
            self.inode_count() > 0 ==> self.inode_area_start() + (self.inode_count() - 1) / 4
                < self.data_bitmap_view().start(),
            self.data_bitmap_view().start() <= self.data_area_start(),
            self.data_area_start() <= self.disk().len(),
    {
        self.cache.lemma_disk_sized();
        self.inode_bitmap.lemma_nonneg();
        self.data_bitmap.lemma_nonneg();
        assert(self.inode_area_start() == 1 + self.inode_bitmap.len());
        assert(self.data_bitmap_view().start() <= self.data_area_start());
        assert(self.data_area_start() <= self.disk().len());
        if self.inode_count() > 0 {
            assert(self.inode_area_blocks * 4 >= self.inode_count());
            vstd::arithmetic::div_mod::lemma_div_is_ordered(self.inode_count() - 1, self.inode_area_blocks * 4 - 1, 4);
            vstd::arithmetic::div_mod::lemma_fundamental_div_mod_converse(
                self.inode_area_blocks * 4 - 1,
                4,
                self.inode_area_blocks - 1,
                3,
            );
        }
    }

    /// The disk view has a block for each block of the device.
    pub proof fn lemma_disk_len(&self)
        requires
            self.wf(),
        ensures
            self.disk().len() == self.cache_view().num_blocks(),
    {
        self.cache.lemma_disk_sized();
    }

    /// A well-formed volume's cache is in good order with no handle held,
    /// and its inode records fit on the device.
    pub proof fn lemma_wf_cache(&self)
        requires
            self.wf(),
        ensures
            self.cache_view().wf(),
            self.cache_view().unpinned(),
            self.cache_view().has_room(),
            self.inode_count() <= u32::MAX,
            self.inode_area_start() + self.inode_count() / 4 <= self.cache_view().num_blocks(),
            self.cache_view().num_blocks() <= u32::MAX,
            self.same_layout(self),
    {
        assert(self.inode_bitmap.len() * 1024 <= self.inode_area_blocks);
        self.cache.lemma_unpinned_room();
    }

    /// The block cache, for operations that work on it directly.
    pub(crate) fn cache_mut(&mut self) -> (r: &mut BlockCacheManager<D>)
        ensures
            *r == old(self).cache_view(),
            final(self).cache_view() == *final(r),
            final(self).same_layout(old(self)),
    {
        &mut self.cache
    }

    /// Copies `len` bytes at `offset` out of block `block_id`.
    pub fn read_block(&mut self, block_id: usize, offset: usize, len: usize) -> (r: Vec<u8>)
        requires
            old(self).wf(),
            block_id < old(self).disk().len(),
            offset + len <= BLOCK_SZ,
        ensures
            final(self).wf(),
            final(self).same_layout(old(self)),
            final(self).disk() == old(self).disk(),
            r@ == old(self).disk()[block_id as int].subrange(offset as int, offset + len),
    {
        proof {
            self.cache.lemma_disk_sized();
            self.cache.lemma_unpinned_can_load(block_id as int);
        }
        let r = self.cache.read(block_id, offset, len);
        proof {
            assert(self.cache.unpinned());
        }
        r
    }

    /// Writes `bytes` into block `block_id` (which must lie outside both
    /// bitmaps) at `offset`.
    pub fn modify_block(&mut self, block_id: usize, offset: usize, bytes: &[u8])
        requires
            old(self).wf(),
            old(self).inode_area_start() <= block_id < old(self).disk().len(),
            block_id < old(self).data_bitmap_view().start() || block_id >= old(self).data_area_start(),
            offset + bytes@.len() <= BLOCK_SZ,
        ensures
            final(self).wf(),
            final(self).same_layout(old(self)),
            final(self).disk() == old(self).disk().update(
                block_id as int,
                overwrite(old(self).disk()[block_id as int], offset as int, bytes@),
            ),
            final(self).used_inodes() == old(self).used_inodes(),
            final(self).used_data() == old(self).used_data(),
    {
        proof {
            self.cache.lemma_disk_sized();
            self.cache.lemma_unpinned_can_load(block_id as int);
        }
        let ghost d0 = self.cache.disk();
        self.cache.modify(block_id, offset, bytes);
        proof {
            assert(self.cache.unpinned());
            self.cache.lemma_disk_sized();
            self.lemma_outside_bitmaps(d0, block_id as int);
        }
    }

    /// Whether `block_id` is a data block in use.
    pub fn data_in_use(&mut self, block_id: u32) -> (r: bool)
        requires
            old(self).wf(),
        ensures
            final(self).wf(),
            final(self).same_layout(old(self)),
            final(self).disk() == old(self).disk(),
            r == (old(self).data_area_start() <= block_id < old(self).data_area_start() + old(self).data_area_len()
                && old(self).used_data().contains(block_id - old(self).data_area_start())),
    {
        if block_id < self.data_area_start_block || block_id - self.data_area_start_block >= self.data_area_blocks {
            return false;
        }
        let bit = (block_id - self.data_area_start_block) as usize;
        proof {
            self.lemma_wf();
            self.cache.lemma_disk_sized();
        }
        let (block_pos, bits64_pos, inner_pos) = crate::bitmap::decomposition(bit);
        proof {
            vstd::arithmetic::div_mod::lemma_div_is_ordered(bit as int, self.data_bitmap.len() * 4096 - 1, 4096);
            vstd::arithmetic::div_mod::lemma_div_multiples_vanish_fancy(self.data_bitmap.len() - 1, 4095, 4096);
        }
        let blk = self.data_bitmap.start_block() + block_pos;
        let bytes = self.read_block(blk, bits64_pos * 8, 8);
        let word = crate::bitmap::get_u64(bytes.as_slice(), 0);
        proof {
            let s = self.disk()[blk as int];
            let o = bits64_pos * 8;
            assert(bytes@[0] == s[o] && bytes@[1] == s[o + 1] && bytes@[2] == s[o + 2] && bytes@[3]
                == s[o + 3] && bytes@[4] == s[o + 4] && bytes@[5] == s[o + 5] && bytes@[6] == s[o + 6]
                && bytes@[7] == s[o + 7]);
            assert(word == word_of(self.disk(), self.data_bitmap.start(), bit as int));
        }
        (word >> (inner_pos as u64)) & 1 == 1
    }

    /// The volume's disk as the cache shows it.
    pub fn cache(&self) -> (r: &BlockCacheManager<D>)
        ensures
            *r == self.cache_view(),
    {
        &self.cache
    }

    /// Writes every modified cached block back to the device.
    pub fn sync(&mut self)
        requires
            old(self).wf(),
        ensures
            final(self).wf(),
            final(self).same_layout(old(self)),
            final(self).disk() == old(self).disk(),
            final(self).cache_view().dev().blocks() == old(self).disk(),
            final(self).inode_area_start() == old(self).inode_area_start(),
            final(self).inode_bitmap_view() == old(self).inode_bitmap_view(),
            final(self).data_bitmap_view() == old(self).data_bitmap_view(),
            final(self).data_area_start() == old(self).data_area_start(),
            final(self).data_area_len() == old(self).data_area_len(),
    {
        self.cache.sync_all();
        assert(self.cache.unpinned());
    }

    /// Number of inode ids the volume has.
    pub fn inode_total(&self) -> (r: u32)
        requires
            self.wf(),
        ensures
            r == self.inode_count(),
    {
        (self.inode_bitmap.maximum()) as u32
    }

    /// Block and offset of the record of inode `inode_id`.
    pub fn get_disk_inode_position(&self, inode_id: u32) -> (r: (u32, usize))
        requires
            self.wf(),
            inode_id < self.inode_count(),
        ensures
            r.0 == self.inode_pos(inode_id as int).0,
            r.1 == self.inode_pos(inode_id as int).1,
            r.0 < self.cache_view().num_blocks(),
            r.1 + DISK_INODE_SZ <= BLOCK_SZ,
    {
        proof {
            self.lemma_wf();
            vstd::arithmetic::div_mod::lemma_mod_bound(inode_id as int, 4);
        }
        let inodes_per_block: u32 = 4;
        let block_id = inode_id / inodes_per_block + self.inode_area_start_block;
        (block_id, (inode_id % inodes_per_block) as usize * DISK_INODE_SZ)
    }

    /// Absolute block id of data block `data_block_id` of the data area.
    pub fn get_data_block_id(&self, data_block_id: u32) -> (r: u32)
        requires
            self.wf(),
            data_block_id < self.data_area_len(),
        ensures
            r == self.data_area_start() + data_block_id,
    {
        self.data_area_start_block + data_block_id
    }

    /// Takes the lowest free inode id, or `None` when all are in use.
    pub fn alloc_inode(&mut self) -> (r: Option<u32>)
        requires
            old(self).wf(),
        ensures
            final(self).wf(),
            final(self).same_layout(old(self)),
            final(self).inode_bitmap_view() == old(self).inode_bitmap_view(),
            final(self).data_bitmap_view() == old(self).data_bitmap_view(),
            final(self).inode_area_start() == old(self).inode_area_start(),
            final(self).data_area_start() == old(self).data_area_start(),
            final(self).data_area_len() == old(self).data_area_len(),
            final(self).used_data() == old(self).used_data(),
            match r {
                None => final(self).disk() == old(self).disk() && forall|i: int|
                    0 <= i < old(self).inode_count() ==> #[trigger] old(self).used_inodes().contains(i),
                Some(id) => {
                    &&& id < old(self).inode_count()
                    &&& !old(self).used_inodes().contains(id as int)
                    &&& forall|i: int| 0 <= i < id ==> #[trigger] old(self).used_inodes().contains(i)
                    &&& final(self).used_inodes() == old(self).used_inodes().insert(id as int)
                    &&& forall|b: int|
                        0 <= b < old(self).disk().len() && b != 1 + id / 4096 ==> #[trigger] final(self).disk()[b]
                            == old(self).disk()[b]
                },
            },
    {
        proof {
            self.lemma_wf();
            self.cache.lemma_disk_sized();
        }
        let ghost d0 = self.cache.disk();
        proof {
            self.cache.lemma_unpinned_room();
        }
        let r = self.inode_bitmap.alloc_bit(&mut self.cache);
        proof {
            self.cache.lemma_disk_sized();
            self.lemma_bitmaps_apart(d0, r);
            if r is None {
                assert forall|i: int| 0 <= i < old(self).inode_count() implies #[trigger] old(self).used_inodes().contains(i) by {
                    assert(bit_set(d0, 1, i));
                }
            }
        }
        match r {
            Some(bit) => Some(bit as u32),
            None => None,
        }
    }

    /// Allocating in the inode bitmap leaves the data bitmap alone.
    proof fn lemma_bitmaps_apart(&self, d0: Seq<Seq<u8>>, r: Option<usize>)
        requires
            self.wf(),
            d0.len() == self.cache.disk().len(),
            forall|b: int| 0 <= b < d0.len() ==> (#[trigger] d0[b]).len() == BLOCK_SZ,
            r is None ==> self.cache.disk() == d0,
            r is Some ==> forall|b: int|
                0 <= b < d0.len() && b != 1 + r->0 / BLOCK_BITS ==> #[trigger] self.cache.disk()[b] == d0[b],
            r is Some ==> r->0 < self.inode_bitmap.len() * BLOCK_BITS,
        ensures
            self.used_data() == allocated(d0, self.data_bitmap.start(), self.data_bitmap.len()),
    {
        self.lemma_wf();
        self.cache.lemma_disk_sized();
        if r is Some {
            let k = r->0 as int;
            vstd::arithmetic::div_mod::lemma_div_is_ordered(k, self.inode_bitmap.len() * 4096 - 1, 4096);
            vstd::arithmetic::div_mod::lemma_div_multiples_vanish_fancy(self.inode_bitmap.len() - 1, 4095, 4096);
            assert forall|i: int| 0 <= i < self.data_bitmap.len() * 4096 implies #[trigger] bit_set(
                self.cache.disk(),
                self.data_bitmap.start(),
                i,
            ) == bit_set(d0, self.data_bitmap.start(), i) by {
                vstd::arithmetic::div_mod::lemma_div_is_ordered(i, self.data_bitmap.len() * 4096 - 1, 4096);
                vstd::arithmetic::div_mod::lemma_div_multiples_vanish_fancy(self.data_bitmap.len() - 1, 4095, 4096);
                let b = self.data_bitmap.start() + i / 4096;
                assert(self.cache.disk()[b] == d0[b]);
            }
            assert(self.used_data() =~= allocated(d0, self.data_bitmap.start(), self.data_bitmap.len()));
        }
    }

    /// Takes the lowest free data block and returns its absolute block id,
    /// or `None` when the data area has no free block.
    pub fn alloc_data(&mut self) -> (r: Option<u32>)
        requires
            old(self).wf(),
        ensures
            final(self).wf(),
            final(self).same_layout(old(self)),
            final(self).inode_bitmap_view() == old(self).inode_bitmap_view(),
            final(self).data_bitmap_view() == old(self).data_bitmap_view(),
            final(self).inode_area_start() == old(self).inode_area_start(),
            final(self).data_area_start() == old(self).data_area_start(),
            final(self).data_area_len() == old(self).data_area_len(),
            final(self).used_inodes() == old(self).used_inodes(),
            match r {
                None => forall|i: int|
                    0 <= i < old(self).data_area_len() ==> #[trigger] old(self).used_data().contains(i),
                Some(id) => {
                    let bit = id - old(self).data_area_start();
                    &&& old(self).data_area_start() <= id < old(self).data_area_start() + old(self).data_area_len()
                    &&& !old(self).used_data().contains(bit)
                    &&& forall|i: int| 0 <= i < bit ==> #[trigger] old(self).used_data().contains(i)
                    &&& final(self).used_data() == old(self).used_data().insert(bit)
                    &&& forall|b: int|
                        0 <= b < old(self).disk().len() && b != old(self).data_bitmap_view().start() + bit / 4096
                            ==> #[trigger] final(self).disk()[b] == old(self).disk()[b]
                },
            },
            r is None ==> old(self).free_data() == Set::<int>::empty(),
            r is Some ==> final(self).free_data() == old(self).free_data().remove(r->0 - old(self).data_area_start())
                && old(self).free_data().contains(r->0 - old(self).data_area_start()),
    {
        proof {
            self.lemma_wf();
            self.cache.lemma_disk_sized();
        }
        let ghost d0 = self.cache.disk();
        proof {
            self.cache.lemma_unpinned_room();
        }
        let r = self.data_bitmap.alloc_bit(&mut self.cache);
        proof {
            self.cache.lemma_disk_sized();
            self.lemma_data_alloc_apart(d0, r);
        }
        let res = match r {
            Some(bit) => {
                if bit >= self.data_area_blocks as usize {
                    None
                } else {
                    Some(bit as u32 + self.data_area_start_block)
                }
            },
            None => None,
        };
        proof {
            if res is None {
                assert(old(self).free_data() =~= Set::<int>::empty());
            } else {
                let bit = res->0 - old(self).data_area_start();
                assert(self.free_data() =~= old(self).free_data().remove(bit));
            }
        }
        res
    }

    /// Allocating in the data bitmap leaves the inode bitmap alone.
    proof fn lemma_data_alloc_apart(&self, d0: Seq<Seq<u8>>, r: Option<usize>)
        requires
            self.wf(),
            d0.len() == self.cache.disk().len(),
            forall|b: int| 0 <= b < d0.len() ==> (#[trigger] d0[b]).len() == BLOCK_SZ,
            r is None ==> self.cache.disk() == d0,
            r is Some ==> forall|b: int|
                0 <= b < d0.len() && b != self.data_bitmap.start() + r->0 / BLOCK_BITS ==> #[trigger] self.cache.disk()[b] == d0[b],
        ensures
            self.used_inodes() == allocated(d0, self.inode_bitmap.start(), self.inode_bitmap.len()),
    {
        self.lemma_wf();
        self.cache.lemma_disk_sized();
        if r is Some {
            assert forall|i: int| 0 <= i < self.inode_bitmap.len() * 4096 implies #[trigger] bit_set(
                self.cache.disk(),
                self.inode_bitmap.start(),
                i,
            ) == bit_set(d0, self.inode_bitmap.start(), i) by {
                vstd::arithmetic::div_mod::lemma_div_is_ordered(i, self.inode_bitmap.len() * 4096 - 1, 4096);
                vstd::arithmetic::div_mod::lemma_div_multiples_vanish_fancy(self.inode_bitmap.len() - 1, 4095, 4096);
                let b = self.inode_bitmap.start() + i / 4096;
                assert(self.cache.disk()[b] == d0[b]);
            }
            assert(self.used_inodes() =~= allocated(d0, self.inode_bitmap.start(), self.inode_bitmap.len()));
        }
    }

    /// Zeroes data block `block_id` (an absolute id in the data area) and
    /// marks it free.
    pub fn dealloc_data(&mut self, block_id: u32)
        requires
            old(self).wf(),
            old(self).data_area_start() <= block_id < old(self).data_area_start() + old(self).data_area_len(),
            old(self).used_data().contains(block_id - old(self).data_area_start()),
        ensures
            final(self).wf(),
            final(self).same_layout(old(self)),
            final(self).inode_bitmap_view() == old(self).inode_bitmap_view(),
            final(self).data_bitmap_view() == old(self).data_bitmap_view(),
            final(self).inode_area_start() == old(self).inode_area_start(),
            final(self).data_area_start() == old(self).data_area_start(),
            final(self).data_area_len() == old(self).data_area_len(),
            final(self).used_inodes() == old(self).used_inodes(),
            final(self).used_data() == old(self).used_data().remove(block_id - old(self).data_area_start()),
            final(self).disk().len() == old(self).disk().len(),
            final(self).disk()[block_id as int] == zero_block(),
    {
        proof {
            self.lemma_wf();
            self.cache.lemma_unpinned_can_load(block_id as int);
            self.cache.lemma_disk_sized();
        }
        let ghost d0 = self.cache.disk();
        let zeros: Vec<u8> = vec![0u8; 512];
        self.cache.modify(block_id as usize, 0, zeros.as_slice());
        let ghost d1 = self.cache.disk();
        proof {
            assert(d1[block_id as int] =~= zero_block());
            self.lemma_outside_bitmaps(d0, block_id as int);
            self.cache.lemma_disk_sized();
        }
        let bit = (block_id - self.data_area_start_block) as usize;
        proof {
            self.cache.lemma_unpinned_room();
        }
        self.data_bitmap.dealloc(&mut self.cache, bit);
        proof {
            self.cache.lemma_disk_sized();
            self.lemma_data_alloc_apart(d1, Some(bit));
            vstd::arithmetic::div_mod::lemma_div_is_ordered(bit as int, self.data_bitmap.len() * 4096 - 1, 4096);
            vstd::arithmetic::div_mod::lemma_div_multiples_vanish_fancy(self.data_bitmap.len() - 1, 4095, 4096);
        }
    }

    /// Writing a block outside both bitmaps leaves both sets as they were.
    proof fn lemma_outside_bitmaps(&self, d0: Seq<Seq<u8>>, b: int)
        requires
            self.wf(),
            d0.len() == self.cache.disk().len(),
            b >= self.inode_area_start(),
            b < self.data_bitmap.start() || b >= self.data_area_start(),
            forall|c: int| 0 <= c < d0.len() && c != b ==> #[trigger] self.cache.disk()[c] == d0[c],
        ensures
            self.used_inodes() == allocated(d0, self.inode_bitmap.start(), self.inode_bitmap.len()),
            self.used_data() == allocated(d0, self.data_bitmap.start(), self.data_bitmap.len()),
    {
        self.lemma_wf();
        self.cache.lemma_disk_sized();
        assert forall|i: int| 0 <= i < self.inode_bitmap.len() * 4096 implies #[trigger] bit_set(
            self.cache.disk(),
            self.inode_bitmap.start(),
            i,
        ) == bit_set(d0, self.inode_bitmap.start(), i) by {
            vstd::arithmetic::div_mod::lemma_div_is_ordered(i, self.inode_bitmap.len() * 4096 - 1, 4096);
            vstd::arithmetic::div_mod::lemma_div_multiples_vanish_fancy(self.inode_bitmap.len() - 1, 4095, 4096);
            let c = self.inode_bitmap.start() + i / 4096;
            assert(self.cache.disk()[c] == d0[c]);
        }
        assert forall|i: int| 0 <= i < self.data_bitmap.len() * 4096 implies #[trigger] bit_set(
            self.cache.disk(),
            self.data_bitmap.start(),
            i,
        ) == bit_set(d0, self.data_bitmap.start(), i) by {
            vstd::arithmetic::div_mod::lemma_div_is_ordered(i, self.data_bitmap.len() * 4096 - 1, 4096);
            vstd::arithmetic::div_mod::lemma_div_multiples_vanish_fancy(self.data_bitmap.len() - 1, 4095, 4096);
            let c = self.data_bitmap.start() + i / 4096;
            assert(self.cache.disk()[c] == d0[c]);
        }
        assert(self.used_inodes() =~= allocated(d0, self.inode_bitmap.start(), self.inode_bitmap.len()));
        assert(self.used_data() =~= allocated(d0, self.data_bitmap.start(), self.data_bitmap.len()));
    }

    /// Formats the device as a volume of `total_blocks` blocks with
    /// `inode_bitmap_blocks` blocks of inode bitmap: writes the superblock,
    /// zeroes every other block, and creates the root directory as inode 0.
    /// Everything is written back to the device before returning.
    pub fn create(block_device: D, total_blocks: u32, inode_bitmap_blocks: u32) -> (r: Self)
        requires
            blocks_sized(block_device.blocks()),
            block_device.blocks().len() <= u32::MAX,
            total_blocks <= block_device.blocks().len(),
            inode_bitmap_blocks >= 1,
            1 + 1025 * inode_bitmap_blocks <= total_blocks,
            4096 * inode_bitmap_blocks <= u32::MAX,
        ensures
            r.wf(),
            super_block_of(r.disk()[0]) == ({
                let dt = total_blocks - 1 - 1025 * inode_bitmap_blocks;
                SuperBlock {
                    magic: EFS_MAGIC,
                    total_blocks,
                    inode_bitmap_blocks,
                    inode_area_blocks: (1024 * inode_bitmap_blocks) as u32,
                    data_bitmap_blocks: ((dt + 4096) / 4097) as u32,
                    data_area_blocks: (dt - (dt + 4096) / 4097) as u32,
                }
            }),
            r.inode_area_start() == 1 + inode_bitmap_blocks,
            r.inode_bitmap_view().len() == inode_bitmap_blocks,
            empty_dir_at(r.disk()[r.inode_area_start()], 0),
            r.used_inodes() == Set::<int>::empty().insert(0),
            r.used_data() == Set::<int>::empty(),
            r.cache_view().dev().blocks() == r.disk(),
    {
        let mut efs = Self::format(block_device, total_blocks, inode_bitmap_blocks);
        efs.init_root();
        efs.sync();
        efs
    }

    /// Zeroes the first `total_blocks` blocks and writes the superblock; no
    /// inode is in use yet.
    fn format(block_device: D, total_blocks: u32, inode_bitmap_blocks: u32) -> (r: Self)
        requires
            blocks_sized(block_device.blocks()),
            block_device.blocks().len() <= u32::MAX,
            total_blocks <= block_device.blocks().len(),
            inode_bitmap_blocks >= 1,
            1 + 1025 * inode_bitmap_blocks <= total_blocks,
            4096 * inode_bitmap_blocks <= u32::MAX,
        ensures
            r.wf(),
            super_block_of(r.disk()[0]) == ({
                let dt = total_blocks - 1 - 1025 * inode_bitmap_blocks;
                SuperBlock {
                    magic: EFS_MAGIC,
                    total_blocks,
                    inode_bitmap_blocks,
                    inode_area_blocks: (1024 * inode_bitmap_blocks) as u32,
                    data_bitmap_blocks: ((dt + 4096) / 4097) as u32,
                    data_area_blocks: (dt - (dt + 4096) / 4097) as u32,
                }
            }),
            r.inode_area_start() == 1 + inode_bitmap_blocks,
            r.inode_bitmap_view().len() == inode_bitmap_blocks,
            r.inode_count() > 0,
            r.disk()[r.inode_area_start()] == zero_block(),
            r.used_inodes() == Set::<int>::empty(),
            r.used_data() == Set::<int>::empty(),
    {
        let inode_bitmap = Bitmap::new(1, inode_bitmap_blocks as usize);
        let (inode_area_blocks, data_bitmap_blocks, data_area_blocks) = geometry(total_blocks, inode_bitmap_blocks);
        let inode_total_blocks = inode_bitmap_blocks + inode_area_blocks;
        let data_bitmap = Bitmap::new((1 + inode_total_blocks) as usize, data_bitmap_blocks as usize);
        let mut cache = BlockCacheManager::new(block_device);
        zero_blocks(&mut cache, total_blocks);
        let mut super_block = SuperBlock {
            magic: 0,
            total_blocks: 0,
            inode_bitmap_blocks: 0,
            inode_area_blocks: 0,
            data_bitmap_blocks: 0,
            data_area_blocks: 0,
        };
        super_block.initialize(
            total_blocks,
            inode_bitmap_blocks,
            inode_area_blocks,
            data_bitmap_blocks,
            data_area_blocks,
        );
        write_super_block(&mut cache, &super_block);
        let mut efs = EasyFileSystem {
            cache,
            inode_bitmap,
            data_bitmap,
            inode_area_start_block: 1 + inode_bitmap_blocks,
            inode_area_blocks,
            data_area_start_block: 1 + inode_total_blocks + data_bitmap_blocks,
            data_area_blocks,
        };
        proof {
            assert(inode_bitmap_blocks * 4096 <= inode_area_blocks * 4) by (nonlinear_arith)
                requires
                    inode_area_blocks == 1024 * inode_bitmap_blocks,
            ;
            assert(data_area_blocks <= data_bitmap_blocks * 4096) by (nonlinear_arith)
                requires
                    data_area_blocks <= 4096 * data_bitmap_blocks,
            ;
            efs.cache.lemma_disk_sized();
            lemma_zero_bitmap(efs.cache.disk(), 1, inode_bitmap_blocks as int);
            lemma_zero_bitmap(efs.cache.disk(), 1 + inode_total_blocks as int, data_bitmap_blocks as int);
            assert(efs.wf());
            assert(efs.used_inodes() =~= Set::<int>::empty());
            assert(efs.used_data() =~= Set::<int>::empty());
            assert(!efs.used_inodes().contains(0));
        }
        efs
    }

    /// Takes inode 0 in a volume with no inode in use and writes an empty
    /// directory record for it.
    fn init_root(&mut self)
        requires
            old(self).wf(),
            old(self).used_inodes() == Set::<int>::empty(),
            old(self).inode_count() > 0,
            old(self).disk()[old(self).inode_area_start()] == zero_block(),
        ensures
            final(self).wf(),
            final(self).inode_bitmap_view() == old(self).inode_bitmap_view(),
            final(self).data_bitmap_view() == old(self).data_bitmap_view(),
            final(self).inode_area_start() == old(self).inode_area_start(),
            final(self).data_area_start() == old(self).data_area_start(),
            final(self).data_area_len() == old(self).data_area_len(),
            final(self).used_inodes() == Set::<int>::empty().insert(0),
            final(self).used_data() == old(self).used_data(),
            final(self).disk()[0] == old(self).disk()[0],
            empty_dir_at(final(self).disk()[final(self).inode_area_start()], 0),
    {
        let ghost d0 = self.cache.disk();
        proof {
            self.cache.lemma_disk_sized();
        }
        let root = self.alloc_inode();
        proof {
            assert(!old(self).used_inodes().contains(0));
            if root is Some {
                if root->0 > 0 {
                    assert(old(self).used_inodes().contains(0));
                }
            }
            assert(root == Some(0u32));
            self.cache.lemma_disk_sized();
            assert(self.cache.disk()[0] == d0[0]);
            assert(self.cache.disk()[self.inode_area_start()] == d0[self.inode_area_start()]);
        }
        let (root_block, root_offset) = self.get_disk_inode_position(0);
        let mut root_inode = DiskInode {
            size: 0,
            direct: [0u32; 28],
            indirect1: 0,
            indirect2: 0,
            type_: DiskInodeType::File,
        };
        root_inode.initialize(DiskInodeType::Directory);
        let root_bytes = root_inode.encode();
        let ghost d1 = self.cache.disk();
        proof {
            self.cache.lemma_unpinned_can_load(root_block as int);
        }
        self.cache.modify(root_block as usize, 0, root_bytes.as_slice());
        proof {
            self.cache.lemma_disk_sized();
            self.lemma_outside_bitmaps(d1, root_block as int);
            assert(self.cache.disk()[root_block as int].subrange(0, 128) =~= disk_inode_bytes(root_inode));
            lemma_empty_dir_bytes(root_inode, self.cache.disk()[root_block as int]);
        }
    }

    /// Opens the volume on `block_device` from its superblock.
    pub fn open(block_device: D) -> (r: Self)
        requires
            blocks_sized(block_device.blocks()),
            volume_ok(block_device.blocks()),
        ensures
            r.wf(),
            r.disk() == block_device.blocks(),
            ({
                let sb = super_block_of(block_device.blocks()[0]);
                &&& r.inode_bitmap_view().start() == 1
                &&& r.inode_bitmap_view().len() == sb.inode_bitmap_blocks
                &&& r.inode_area_start() == 1 + sb.inode_bitmap_blocks
                &&& r.data_bitmap_view().start() == 1 + sb.inode_bitmap_blocks + sb.inode_area_blocks
                &&& r.data_bitmap_view().len() == sb.data_bitmap_blocks
                &&& r.data_area_start() == 1 + sb.inode_bitmap_blocks + sb.inode_area_blocks
                    + sb.data_bitmap_blocks
                &&& r.data_area_len() == sb.data_area_blocks
            }),
    {
        let cache = BlockCacheManager::new(block_device);
        let mut efs_cache = cache;
        proof {
            efs_cache.lemma_unpinned_can_load(0);
        }
        let bytes = efs_cache.read(0, 0, 24);
        let sb = SuperBlock::decode(bytes.as_slice());
        proof {
            let blk = block_device.blocks()[0];
            assert(bytes@ == blk.subrange(0, 24));
            assert(super_block_of(bytes@) == super_block_of(blk)) by {
                assert(bytes@[0] == blk[0]);
                assert(forall|k: int| 0 <= k < 24 ==> #[trigger] bytes@[k] == blk[k]);
            }
        }
        let inode_total_blocks = sb.inode_bitmap_blocks + sb.inode_area_blocks;
        EasyFileSystem {
            cache: efs_cache,
            inode_bitmap: Bitmap::new(1, sb.inode_bitmap_blocks as usize),
            data_bitmap: Bitmap::new((1 + inode_total_blocks) as usize, sb.data_bitmap_blocks as usize),
            inode_area_start_block: 1 + sb.inode_bitmap_blocks,
            inode_area_blocks: sb.inode_area_blocks,
            data_area_start_block: 1 + inode_total_blocks + sb.data_bitmap_blocks,
            data_area_blocks: sb.data_area_blocks,
        }
    }

    /// Whether `block_device` holds a volume that `open` accepts.
    pub fn can_open(block_device: &D) -> (r: bool)
        requires
            blocks_sized(block_device.blocks()),
        ensures
            r == volume_ok(block_device.blocks()),
    {
        let n = block_device.num_blocks();
        if n == 0 {
            return false;
        }
        let mut buf: [u8; BLOCK_SZ] = [0u8; 512];
        block_device.read_block(0, &mut buf);
        let sb = SuperBlock::decode(&buf);
        if n as u64 > u32::MAX as u64 {
            return false;
        }
        let used = 1u64 + sb.inode_bitmap_blocks as u64 + sb.inode_area_blocks as u64
            + sb.data_bitmap_blocks as u64 + sb.data_area_blocks as u64;
        sb.magic == EFS_MAGIC && used <= n as u64 && sb.inode_bitmap_blocks as u64 * 4096
            <= sb.inode_area_blocks as u64 * 4 && sb.inode_bitmap_blocks as u64 * 4096 <= u32::MAX as u64
            && sb.data_bitmap_blocks as u64 * 4096 <= u32::MAX as u64 && sb.data_area_blocks as u64
            <= sb.data_bitmap_blocks as u64 * 4096
    }

    /// The handle of the root directory, inode 0.
    pub fn root_inode(&self) -> (r: Inode)
        requires
            self.wf(),
            self.inode_count() > 0,
        ensures
            r.block() == self.inode_pos(0).0,
            r.offset() == self.inode_pos(0).1,
    {
        let (block_id, block_offset) = self.get_disk_inode_position(0);
        Inode::new(block_id as usize, block_offset)
    }
}

} // verus!
