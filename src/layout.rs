//! The on-disk formats: superblock, inode record with its two-level block
//! index, and directory entries; and the inode operations that walk the
//! block index.
use vstd::prelude::*;

use crate::block_cache::{overwrite, BlockCacheManager};
use crate::block_dev::BlockDevice;
use crate::BLOCK_SZ;

verus! {

/// Magic number that marks a formatted volume.
pub const EFS_MAGIC: u32 = 0x3b800001;

/// Number of direct block ids in an inode.
pub const INODE_DIRECT_COUNT: usize = 28;

/// Longest file name, in bytes.
pub const NAME_LENGTH_LIMIT: usize = 27;

/// Number of block ids held by one index block.
pub const INODE_INDIRECT1_COUNT: usize = 128;

/// Number of data blocks reached through the doubly indirect block.
pub const INODE_INDIRECT2_COUNT: usize = 16384;

/// Inner block indices below this are direct.
pub const DIRECT_BOUND: usize = 28;

/// Inner block indices below this (and not direct) go through `indirect1`.
pub const INDIRECT1_BOUND: usize = 156;

/// Inner block indices below this go through `indirect2`.
pub const INDIRECT2_BOUND: usize = 16540;

/// Bytes of one on-disk inode record.
pub const DISK_INODE_SZ: usize = 128;

/// Bytes of one directory entry.
pub const DIRENT_SZ: usize = 32;

/// Bytes of the superblock record.
pub const SUPER_BLOCK_SZ: usize = 24;

// ----- little-endian u32 fields -----

/// The u32 stored little-endian in the four bytes of `s` from `at` on.
pub open spec fn le_u32(s: Seq<u8>, at: int) -> u32 {
    (s[at] as int + s[at + 1] as int * 256 + s[at + 2] as int * 65536 + s[at + 3] as int
        * 16777216) as u32
}

/// The four little-endian bytes of `v`.
pub open spec fn u32_bytes(v: u32) -> Seq<u8> {
    seq![
        (v % 256) as u8,
        ((v / 256) % 256) as u8,
        ((v / 65536) % 256) as u8,
        (v / 16777216) as u8,
    ]
}

/// The bytes of a u32 read back as that u32.
pub proof fn lemma_u32_round_trip(v: u32)
    ensures
        le_u32(u32_bytes(v), 0) == v,
{
    let s = u32_bytes(v);
    assert(s[0] as int == v % 256);
    assert(s[1] as int == (v / 256) % 256);
    assert(s[2] as int == (v / 65536) % 256);
    assert(s[3] as int == v / 16777216);
    assert((v % 256) + ((v / 256) % 256) * 256 + ((v / 65536) % 256) * 65536 + (v / 16777216)
        * 16777216 == v) by (nonlinear_arith);
}

/// Reads the u32 stored at `at` in `bytes`.
pub fn get_u32(bytes: &[u8], at: usize) -> (r: u32)
    requires
        at + 4 <= bytes@.len(),
    ensures
        r == le_u32(bytes@, at as int),
{
    bytes[at] as u32 + bytes[at + 1] as u32 * 256 + bytes[at + 2] as u32 * 65536 + bytes[at + 3]
        as u32 * 16777216
}

/// Appends the four bytes of `v` to `out`.
pub fn put_u32(out: &mut Vec<u8>, v: u32)
    ensures
        final(out)@ == old(out)@ + u32_bytes(v),
{
    out.push((v % 256) as u8);
    out.push(((v / 256) % 256) as u8);
    out.push(((v / 65536) % 256) as u8);
    out.push((v / 16777216) as u8);
    assert(final(out)@ =~= old(out)@ + u32_bytes(v));
}

/// The `k`-th u32 of block `b` of `disk`.
pub open spec fn block_u32(disk: Seq<Seq<u8>>, b: int, k: int) -> u32 {
    le_u32(disk[b], 4 * k)
}

// ----- superblock -----

/// The record at the start of block 0 that gives the volume's geometry.
pub struct SuperBlock {
    pub magic: u32,
    pub total_blocks: u32,
    pub inode_bitmap_blocks: u32,
    pub inode_area_blocks: u32,
    pub data_bitmap_blocks: u32,
    pub data_area_blocks: u32,
}

/// The bytes of a superblock record.
pub open spec fn super_block_bytes(sb: SuperBlock) -> Seq<u8> {
    u32_bytes(sb.magic) + u32_bytes(sb.total_blocks) + u32_bytes(sb.inode_bitmap_blocks)
        + u32_bytes(sb.inode_area_blocks) + u32_bytes(sb.data_bitmap_blocks) + u32_bytes(
        sb.data_area_blocks,
    )
}

/// The superblock record stored at the start of `s`.
pub open spec fn super_block_of(s: Seq<u8>) -> SuperBlock {
    SuperBlock {
        magic: le_u32(s, 0),
        total_blocks: le_u32(s, 4),
        inode_bitmap_blocks: le_u32(s, 8),
        inode_area_blocks: le_u32(s, 12),
        data_bitmap_blocks: le_u32(s, 16),
        data_area_blocks: le_u32(s, 20),
    }
}

impl SuperBlock {
    /// Fills in the geometry and the magic number.
    pub fn initialize(
        &mut self,
        total_blocks: u32,
        inode_bitmap_blocks: u32,
        inode_area_blocks: u32,
        data_bitmap_blocks: u32,
        data_area_blocks: u32,
    )
        ensures
            *final(self) == (SuperBlock {
                magic: EFS_MAGIC,
                total_blocks,
                inode_bitmap_blocks,
                inode_area_blocks,
                data_bitmap_blocks,
                data_area_blocks,
            }),
    {
        self.magic = EFS_MAGIC;
        self.total_blocks = total_blocks;
        self.inode_bitmap_blocks = inode_bitmap_blocks;
        self.inode_area_blocks = inode_area_blocks;
        self.data_bitmap_blocks = data_bitmap_blocks;
        self.data_area_blocks = data_area_blocks;
    }

    /// Whether the record carries the magic number.
    pub fn is_valid(&self) -> (r: bool)
        ensures
            r == (self.magic == EFS_MAGIC),
    {
        self.magic == EFS_MAGIC
    }

    /// The record's bytes.
    pub fn encode(&self) -> (r: Vec<u8>)
        ensures
            r@ == super_block_bytes(*self),
            r@.len() == SUPER_BLOCK_SZ,
    {
        let mut out: Vec<u8> = Vec::new();
        put_u32(&mut out, self.magic);
        put_u32(&mut out, self.total_blocks);
        put_u32(&mut out, self.inode_bitmap_blocks);
        put_u32(&mut out, self.inode_area_blocks);
        put_u32(&mut out, self.data_bitmap_blocks);
        put_u32(&mut out, self.data_area_blocks);
        assert(out@ =~= super_block_bytes(*self));
        out
    }

    /// The record stored at the start of `bytes`.
    pub fn decode(bytes: &[u8]) -> (r: SuperBlock)
        requires
            bytes@.len() >= SUPER_BLOCK_SZ,
        ensures
            r == super_block_of(bytes@),
    {
        SuperBlock {
            magic: get_u32(bytes, 0),
            total_blocks: get_u32(bytes, 4),
            inode_bitmap_blocks: get_u32(bytes, 8),
            inode_area_blocks: get_u32(bytes, 12),
            data_bitmap_blocks: get_u32(bytes, 16),
            data_area_blocks: get_u32(bytes, 20),
        }
    }
}

/// A u32 written at `at` reads back.
pub proof fn lemma_le_u32_at(s: Seq<u8>, at: int, v: u32)
    requires
        0 <= at,
        at + 4 <= s.len(),
        s.subrange(at, at + 4) == u32_bytes(v),
    ensures
        le_u32(s, at) == v,
{
    lemma_u32_round_trip(v);
    assert(s[at] == u32_bytes(v)[0]);
    assert(s[at + 1] == u32_bytes(v)[1]);
    assert(s[at + 2] == u32_bytes(v)[2]);
    assert(s[at + 3] == u32_bytes(v)[3]);
}

/// Decoding an encoded superblock gives it back.
pub proof fn lemma_super_block_round_trip(sb: SuperBlock, rest: Seq<u8>)
    ensures
        super_block_of(super_block_bytes(sb) + rest) == sb,
{
    let a = u32_bytes(sb.magic);
    let b = u32_bytes(sb.total_blocks);
    let c = u32_bytes(sb.inode_bitmap_blocks);
    let d = u32_bytes(sb.inode_area_blocks);
    let e = u32_bytes(sb.data_bitmap_blocks);
    let f = u32_bytes(sb.data_area_blocks);
    let s = a + b + c + d + e + f + rest;
    assert(super_block_bytes(sb) + rest == s);
    assert(s.subrange(0, 4) =~= a);
    assert(s.subrange(4, 8) =~= b);
    assert(s.subrange(8, 12) =~= c);
    assert(s.subrange(12, 16) =~= d);
    assert(s.subrange(16, 20) =~= e);
    assert(s.subrange(20, 24) =~= f);
    lemma_le_u32_at(s, 0, sb.magic);
    lemma_le_u32_at(s, 4, sb.total_blocks);
    lemma_le_u32_at(s, 8, sb.inode_bitmap_blocks);
    lemma_le_u32_at(s, 12, sb.inode_area_blocks);
    lemma_le_u32_at(s, 16, sb.data_bitmap_blocks);
    lemma_le_u32_at(s, 20, sb.data_area_blocks);
}

// ----- inode -----

/// What an inode holds.
#[derive(PartialEq, Eq, Structural, Clone, Copy, Debug)]
pub enum DiskInodeType {
    File,
    Directory,
}

/// The on-disk inode record: size in bytes, type, and the block index tree.
#[derive(Clone, Copy)]
pub struct DiskInode {
    pub size: u32,
    pub direct: [u32; INODE_DIRECT_COUNT],
    pub indirect1: u32,
    pub indirect2: u32,
    pub type_: DiskInodeType,
}

/// Blocks needed to hold `size` bytes.
pub open spec fn ceil_blocks(size: nat) -> nat {
    (size + 511) / 512
}

/// Blocks, data and index together, that a file of `size` bytes occupies.
pub open spec fn total_blocks_of(size: nat) -> nat {
    let d = ceil_blocks(size);
    if d <= 28 {
        d
    } else if d <= 156 {
        d + 1
    } else {
        d + 2 + ((d - 156) as nat + 127) / 128
    }
}

/// `total_blocks_of` never decreases as the size grows.
pub proof fn lemma_total_blocks_monotonic(s1: nat, s2: nat)
    requires
        s1 <= s2,
    ensures
        total_blocks_of(s1) <= total_blocks_of(s2),
{
    let d1 = ceil_blocks(s1);
    let d2 = ceil_blocks(s2);
    vstd::arithmetic::div_mod::lemma_div_is_ordered((s1 + 511) as int, (s2 + 511) as int, 512);
    if d1 > 156 {
        vstd::arithmetic::div_mod::lemma_div_is_ordered(
            (d1 - 156 + 127) as int,
            (d2 - 156 + 127) as int,
            128,
        );
    }
    if d1 <= 156 && d2 > 156 {
        assert(((d2 - 156) as nat + 127) / 128 >= 0);
    }
}

/// The index block id reached for `inner` inside the tree of `di` on `disk`.
pub open spec fn inode_block_id(di: DiskInode, disk: Seq<Seq<u8>>, inner: int) -> u32 {
    if inner < DIRECT_BOUND {
        di.direct@[inner]
    } else if inner < INDIRECT1_BOUND {
        block_u32(disk, di.indirect1 as int, inner - DIRECT_BOUND)
    } else {
        let k = inner - INDIRECT1_BOUND;
        block_u32(disk, block_u32(disk, di.indirect2 as int, k / 128) as int, k % 128)
    }
}

/// An inode record's type makes it a directory or a file, never both:
/// initialized as a directory, `is_dir` holds and `is_file` does not, and
/// the other way round for a file.
pub proof fn lemma_kind_exclusive(di: DiskInode, t: DiskInodeType)
    requires
        di.type_ == t,
    ensures
        (di.type_ == DiskInodeType::Directory) == (t == DiskInodeType::Directory),
        (di.type_ == DiskInodeType::File) == (t == DiskInodeType::File),
        (di.type_ == DiskInodeType::Directory) != (di.type_ == DiskInodeType::File),
{
}

/// Inner blocks 0 and 27 are the first and last direct entries, 28 and 155
/// the first and last entries of `indirect1`, and 156 the first entry of
/// the first index block listed in `indirect2`.
pub proof fn lemma_index_routes(di: DiskInode, disk: Seq<Seq<u8>>)
    ensures
        inode_block_id(di, disk, 0) == di.direct@[0],
        inode_block_id(di, disk, 27) == di.direct@[27],
        inode_block_id(di, disk, 28) == block_u32(disk, di.indirect1 as int, 0),
        inode_block_id(di, disk, 155) == block_u32(disk, di.indirect1 as int, 127),
        inode_block_id(di, disk, 156) == block_u32(
            disk,
            block_u32(disk, di.indirect2 as int, 0) as int,
            0,
        ),
{
}

/// The index blocks on the way to entry `inner` lie on the device.
pub open spec fn index_path_ok(di: DiskInode, disk: Seq<Seq<u8>>, inner: int) -> bool {
    if inner < DIRECT_BOUND {
        true
    } else if inner < INDIRECT1_BOUND {
        di.indirect1 < disk.len()
    } else {
        let k = inner - INDIRECT1_BOUND;
        di.indirect2 < disk.len() && block_u32(disk, di.indirect2 as int, k / 128) < disk.len()
    }
}

impl DiskInode {
    /// Whether the inode is a directory.
    pub open spec fn spec_is_dir(&self) -> bool {
        self.type_ == DiskInodeType::Directory
    }

    /// An empty inode of the given type, with every block id zero.
    pub fn initialize(&mut self, type_: DiskInodeType)
        ensures
            final(self).size == 0,
            final(self).direct@ == Seq::new(INODE_DIRECT_COUNT as nat, |i: int| 0u32),
            final(self).indirect1 == 0,
            final(self).indirect2 == 0,
            final(self).type_ == type_,
    {
        self.size = 0;
        let mut i: usize = 0;
        while i < INODE_DIRECT_COUNT
            invariant
                self.size == 0,
                i <= INODE_DIRECT_COUNT,
                forall|k: int| 0 <= k < i ==> self.direct@[k] == 0,
            decreases INODE_DIRECT_COUNT - i,
        {
            self.direct[i] = 0;
            i = i + 1;
        }
        assert(self.direct@ =~= Seq::new(INODE_DIRECT_COUNT as nat, |i: int| 0u32));
        self.indirect1 = 0;
        self.indirect2 = 0;
        self.type_ = type_;
    }

    /// Whether the inode is a directory.
    pub fn is_dir(&self) -> (r: bool)
        ensures
            r == (self.type_ == DiskInodeType::Directory),
    {
        match self.type_ {
            DiskInodeType::Directory => true,
            DiskInodeType::File => false,
        }
    }

    /// Whether the inode is a regular file.
    pub fn is_file(&self) -> (r: bool)
        ensures
            r == (self.type_ == DiskInodeType::File),
    {
        match self.type_ {
            DiskInodeType::Directory => false,
            DiskInodeType::File => true,
        }
    }

    /// Data blocks that hold the inode's bytes.
    pub fn data_blocks(&self) -> (r: u32)
        ensures
            r == ceil_blocks(self.size as nat),
    {
        Self::_data_blocks(self.size)
    }

    fn _data_blocks(size: u32) -> (r: u32)
        ensures
            r == ceil_blocks(size as nat),
    {
        ((size as u64 + 511) / 512) as u32
    }

    /// Blocks, data and index together, needed for `size` bytes.
    pub fn total_blocks(size: u32) -> (r: u32)
        ensures
            r == total_blocks_of(size as nat),
    {
        let data_blocks = Self::_data_blocks(size);
        let mut total = data_blocks;
        if data_blocks > INODE_DIRECT_COUNT as u32 {
            total = total + 1;
        }
        if data_blocks > INDIRECT1_BOUND as u32 {
            total = total + 1;
            total = total + (data_blocks - INDIRECT1_BOUND as u32 + INODE_INDIRECT1_COUNT as u32
                - 1) / INODE_INDIRECT1_COUNT as u32;
        }
        total
    }

    /// Extra blocks needed to grow the inode to `new_size` bytes.
    pub fn blocks_num_needed(&self, new_size: u32) -> (r: u32)
        requires
            new_size >= self.size,
        ensures
            r == total_blocks_of(new_size as nat) - total_blocks_of(self.size as nat),
    {
        proof {
            lemma_total_blocks_monotonic(self.size as nat, new_size as nat);
        }
        Self::total_blocks(new_size) - Self::total_blocks(self.size)
    }

    /// The id of the data block that holds inner block `inner_id` of the
    /// inode: a direct entry, an entry of `indirect1`, or an entry of an
    /// index block listed in `indirect2`.
    pub fn get_block_id<D: BlockDevice>(&self, inner_id: u32, cache: &mut BlockCacheManager<D>) -> (r: u32)
        requires
            old(cache).wf(),
            old(cache).has_room(),
            inner_id < INDIRECT2_BOUND,
            index_path_ok(*self, old(cache).disk(), inner_id as int),
        ensures
            final(cache).wf(),
            final(cache).has_room(),
            forall|b: int| #[trigger] final(cache).pins(b) == old(cache).pins(b),
            final(cache).disk() == old(cache).disk(),
            final(cache).num_blocks() == old(cache).num_blocks(),
            r == inode_block_id(*self, old(cache).disk(), inner_id as int),
    {
        proof {
            old(cache).lemma_disk_sized();
        }
        let inner = inner_id as usize;
        if inner < DIRECT_BOUND {
            self.direct[inner]
        } else if inner < INDIRECT1_BOUND {
            let bytes = cache.read(self.indirect1 as usize, (inner - DIRECT_BOUND) * 4, 4);
            get_u32(bytes.as_slice(), 0)
        } else {
            let last = inner - INDIRECT1_BOUND;
            let bytes = cache.read(self.indirect2 as usize, (last / INODE_INDIRECT1_COUNT) * 4, 4);
            let indirect1 = get_u32(bytes.as_slice(), 0);
            let bytes2 = cache.read(indirect1 as usize, (last % INODE_INDIRECT1_COUNT) * 4, 4);
            get_u32(bytes2.as_slice(), 0)
        }
    }

    /// Whether every data block of the inode can be reached and lies on the
    /// device.
    #[verifier::spinoff_prover]
    pub fn is_readable<D: BlockDevice>(&self, cache: &mut BlockCacheManager<D>) -> (r: bool)
        requires
            old(cache).wf(),
            old(cache).has_room(),
        ensures
            final(cache).wf(),
            final(cache).has_room(),
            forall|b: int| #[trigger] final(cache).pins(b) == old(cache).pins(b),
            final(cache).disk() == old(cache).disk(),
            final(cache).num_blocks() == old(cache).num_blocks(),
            r == inode_readable(*self, old(cache).disk()),
    {
        if self.size as usize > INDIRECT2_BOUND * BLOCK_SZ {
            return false;
        }
        proof {
            old(cache).lemma_disk_sized();
            vstd::arithmetic::div_mod::lemma_div_is_ordered(self.size + 511, INDIRECT2_BOUND * 512 + 511, 512);
            vstd::arithmetic::div_mod::lemma_fundamental_div_mod_converse(INDIRECT2_BOUND * 512 + 511, 512, INDIRECT2_BOUND as int, 511);
        }
        let n = self.data_blocks();
        let mut i: u32 = 0;
        proof {
            reveal(blocks_ok);
        }
        while i < n
            invariant
                cache.wf(),
                cache.has_room(),
                forall|b: int| #[trigger] cache.pins(b) == old(cache).pins(b),
                cache.disk() == old(cache).disk(),
                cache.num_blocks() == old(cache).num_blocks(),
                cache.disk().len() == cache.num_blocks(),
                n == inode_blocks(*self),
                n <= INDIRECT2_BOUND,
                i <= n,
                blocks_ok(*self, cache.disk(), i as int),
            decreases n - i,
        {
            let ghost before = cache.disk();
            let found = self.checked_block_id(i, cache);
            if found.is_none() {
                proof {
                    reveal(blocks_ok);
                }
                return false;
            }
            proof {
                reveal(blocks_ok);
                assert(found is Some);
                assert(index_path_ok(*self, before, i as int));
                assert(inode_block_id(*self, before, i as int) < before.len());
                assert(cache.disk() == before);
                assert forall|j: int| 0 <= j < i + 1 implies #[trigger] block_ok(*self, before, j) by {
                    if j < i {
                        assert(blocks_ok(*self, before, i as int));
                    }
                }
            }
            i = i + 1;
        }
        proof {
            reveal(blocks_ok);
            let d = old(cache).disk();
            assert(blocks_ok(*self, d, n as int));
            assert forall|j: int| 0 <= j < inode_blocks(*self) implies #[trigger] index_path_ok(*self, d, j)
                && inode_block_id(*self, d, j) < d.len() by {
                lemma_blocks_ok_at(*self, d, n as int, j);
            }
            assert(self.size as int <= INDIRECT2_BOUND * BLOCK_SZ);
            assert(inode_readable(*self, d));
        }
        true
    }

    /// `get_block_id`, or `None` where the index blocks on the way, or the
    /// block found, lie off the device.
    fn checked_block_id<D: BlockDevice>(&self, inner_id: u32, cache: &mut BlockCacheManager<D>) -> (r: Option<u32>)
        requires
            old(cache).wf(),
            old(cache).has_room(),
        ensures
            final(cache).wf(),
            final(cache).has_room(),
            forall|b: int| #[trigger] final(cache).pins(b) == old(cache).pins(b),
            final(cache).disk() == old(cache).disk(),
            final(cache).num_blocks() == old(cache).num_blocks(),
            r is Some <==> (inner_id < INDIRECT2_BOUND && index_path_ok(*self, old(cache).disk(), inner_id as int)
                && inode_block_id(*self, old(cache).disk(), inner_id as int) < old(cache).num_blocks()),
            r is Some ==> r->0 == inode_block_id(*self, old(cache).disk(), inner_id as int),
    {
        proof {
            cache.lemma_disk_sized();
        }
        if inner_id as usize >= INDIRECT2_BOUND {
            return None;
        }
        let n = cache.block_count();
        let inner = inner_id as usize;
        if inner >= DIRECT_BOUND && inner < INDIRECT1_BOUND {
            if self.indirect1 as usize >= n {
                return None;
            }
        } else if inner >= INDIRECT1_BOUND {
            if self.indirect2 as usize >= n {
                return None;
            }
            let last = inner - INDIRECT1_BOUND;
            let bytes = cache.read(self.indirect2 as usize, (last / INODE_INDIRECT1_COUNT) * 4, 4);
            let child = get_u32(bytes.as_slice(), 0);
            if child as usize >= n {
                return None;
            }
        }
        let id = self.get_block_id(inner_id, cache);
        if id as usize >= n {
            None
        } else {
            Some(id)
        }
    }
}


/// The bytes of `di` as stored on disk: size, the direct ids, `indirect1`,
/// `indirect2`, then the type tag (0 for a file, 1 for a directory).
pub open spec fn disk_inode_bytes(di: DiskInode) -> Seq<u8> {
    u32_bytes(di.size) + Seq::new(112, |i: int| u32_bytes(di.direct@[i / 4])[i % 4]) + u32_bytes(
        di.indirect1,
    ) + u32_bytes(di.indirect2) + u32_bytes(
        if di.type_ == DiskInodeType::Directory {
            1u32
        } else {
            0u32
        },
    )
}

/// `di` is the inode record stored in `s` from `at` on.
pub open spec fn disk_inode_at(s: Seq<u8>, at: int, di: DiskInode) -> bool {
    &&& di.size == le_u32(s, at)
    &&& forall|k: int| 0 <= k < INODE_DIRECT_COUNT ==> #[trigger] di.direct@[k] == le_u32(s, at + 4 + 4 * k)
    &&& di.indirect1 == le_u32(s, at + 116)
    &&& di.indirect2 == le_u32(s, at + 120)
    &&& di.type_ == if le_u32(s, at + 124) == 1 {
        DiskInodeType::Directory
    } else {
        DiskInodeType::File
    }
}

/// Number of data blocks of `di`.
pub open spec fn inode_blocks(di: DiskInode) -> int {
    ceil_blocks(di.size as nat) as int
}

/// Every data block of `di` can be reached on `disk` and lies on it.
pub open spec fn inode_readable(di: DiskInode, disk: Seq<Seq<u8>>) -> bool {
    &&& di.size as int <= INDIRECT2_BOUND * BLOCK_SZ
    &&& forall|i: int|
        0 <= i < inode_blocks(di) ==> #[trigger] index_path_ok(di, disk, i) && inode_block_id(
            di,
            disk,
            i,
        ) < disk.len()
}

/// Data block `j` of `di` can be reached and lies on `disk`.
pub open spec fn block_ok(di: DiskInode, disk: Seq<Seq<u8>>, j: int) -> bool {
    index_path_ok(di, disk, j) && inode_block_id(di, disk, j) < disk.len()
}

/// The first `k` data blocks of `di` can be reached and lie on `disk`.
#[verifier::opaque]
pub open spec fn blocks_ok(di: DiskInode, disk: Seq<Seq<u8>>, k: int) -> bool {
    forall|j: int| 0 <= j < k ==> #[trigger] block_ok(di, disk, j)
}

#[verifier::spinoff_prover]
proof fn lemma_blocks_ok_at(di: DiskInode, disk: Seq<Seq<u8>>, k: int, j: int)
    requires
        blocks_ok(di, disk, k),
        0 <= j < k,
    ensures
        index_path_ok(di, disk, j),
        inode_block_id(di, disk, j) < disk.len(),
{
    reveal(blocks_ok);
    assert(block_ok(di, disk, j));
}

/// The bytes of the file that `di` describes, read off `disk`.
pub open spec fn inode_content(di: DiskInode, disk: Seq<Seq<u8>>) -> Seq<u8> {
    Seq::new(di.size as nat, |k: int| disk[inode_block_id(di, disk, k / 512) as int][k % 512])
}

impl DiskInode {
    /// The record's bytes.
    pub fn encode(&self) -> (r: Vec<u8>)
        ensures
            r@ == disk_inode_bytes(*self),
            r@.len() == DISK_INODE_SZ,
    {
        let mut out: Vec<u8> = Vec::new();
        put_u32(&mut out, self.size);
        let mut i: usize = 0;
        while i < INODE_DIRECT_COUNT
            invariant
                i <= INODE_DIRECT_COUNT,
                out@ =~= u32_bytes(self.size) + Seq::new(
                    (4 * i) as nat,
                    |j: int| u32_bytes(self.direct@[j / 4])[j % 4],
                ),
            decreases INODE_DIRECT_COUNT - i,
        {
            let ghost before = out@;
            put_u32(&mut out, self.direct[i]);
            assert(out@ =~= u32_bytes(self.size) + Seq::new(
                (4 * (i + 1)) as nat,
                |j: int| u32_bytes(self.direct@[j / 4])[j % 4],
            ));
            i = i + 1;
        }
        put_u32(&mut out, self.indirect1);
        put_u32(&mut out, self.indirect2);
        let tag: u32 = match self.type_ {
            DiskInodeType::Directory => 1,
            DiskInodeType::File => 0,
        };
        put_u32(&mut out, tag);
        assert(out@ =~= disk_inode_bytes(*self));
        out
    }

    /// The record stored in `bytes` from `at` on.
    pub fn decode(bytes: &[u8], at: usize) -> (r: DiskInode)
        requires
            at + DISK_INODE_SZ <= bytes@.len(),
        ensures
            disk_inode_at(bytes@, at as int, r),
    {
        let n = bytes.len();
        let mut direct: [u32; INODE_DIRECT_COUNT] = [0u32; 28];
        let mut i: usize = 0;
        while i < INODE_DIRECT_COUNT
            invariant
                n == bytes@.len(),
                at + DISK_INODE_SZ <= bytes@.len(),
                i <= INODE_DIRECT_COUNT,
                forall|k: int| 0 <= k < i ==> #[trigger] direct@[k] == le_u32(bytes@, at + 4 + 4 * k),
            decreases INODE_DIRECT_COUNT - i,
        {
            direct[i] = get_u32(bytes, at + 4 + 4 * i);
            i = i + 1;
        }
        let tag = get_u32(bytes, at + 124);
        DiskInode {
            size: get_u32(bytes, at),
            direct,
            indirect1: get_u32(bytes, at + 116),
            indirect2: get_u32(bytes, at + 120),
            type_: if tag == 1 {
                DiskInodeType::Directory
            } else {
                DiskInodeType::File
            },
        }
    }

    /// Copies the inode's bytes from `offset` on into `buf`, as many as fit
    /// before the end of the file, and returns how many were copied.
    pub fn read_at<D: BlockDevice>(
        &self,
        offset: usize,
        buf: &mut [u8],
        cache: &mut BlockCacheManager<D>,
    ) -> (r: usize)
        requires
            old(cache).wf(),
            old(cache).has_room(),
        ensures
            final(cache).wf(),
            final(cache).has_room(),
            forall|b: int| #[trigger] final(cache).pins(b) == old(cache).pins(b),
            final(cache).disk() == old(cache).disk(),
            final(cache).num_blocks() == old(cache).num_blocks(),
            final(buf)@.len() == old(buf)@.len(),
            r <= if offset < self.size {
                vstd::math::min(offset + old(buf)@.len(), self.size as int) - offset
            } else {
                0
            },
            inode_readable(*self, old(cache).disk()) ==> r == if offset < self.size {
                vstd::math::min(offset + old(buf)@.len(), self.size as int) - offset
            } else {
                0
            },
            r > 0 ==> final(buf)@.subrange(0, r as int) == inode_content(
                *self,
                old(cache).disk(),
            ).subrange(offset as int, offset + r),
            final(buf)@.subrange(r as int, old(buf)@.len() as int) == old(buf)@.subrange(
                r as int,
                old(buf)@.len() as int,
            ),
    {
        let ghost d0 = cache.disk();
        let ghost content = inode_content(*self, d0);
        proof {
            cache.lemma_disk_sized();
        }
        let len = buf.len();
        let mut start = offset;
        if offset >= self.size as usize {
            return 0;
        }
        let end = if len > self.size as usize - offset {
            self.size as usize
        } else {
            offset + len
        };
        if start >= end {
            return 0;
        }
        let mut read_size: usize = 0;
        let mut failed = false;
        while start < end && !failed
            invariant
                inode_readable(*self, d0) ==> !failed,
                cache.wf(),
                cache.has_room(),
                forall|b: int| #[trigger] cache.pins(b) == old(cache).pins(b),
                cache.disk() == d0,
                d0 == old(cache).disk(),
                cache.num_blocks() == old(cache).num_blocks(),
                d0.len() == cache.num_blocks(),
                forall|b: int| 0 <= b < d0.len() ==> (#[trigger] d0[b]).len() == BLOCK_SZ,
                content == inode_content(*self, d0),
                end <= self.size,
                end == offset + len || end == self.size,
                end <= offset + len,
                offset <= start <= end,
                read_size == start - offset,
                buf@.len() == len,
                len == old(buf)@.len(),
                buf@.subrange(0, read_size as int) == content.subrange(offset as int, start as int),
                buf@.subrange(read_size as int, len as int) == old(buf)@.subrange(
                    read_size as int,
                    len as int,
                ),
            decreases end - start + if failed { 0int } else { 1int },
        {
            let inner = start / BLOCK_SZ;
            let in_block = start % BLOCK_SZ;
            let block_end = if end - start < BLOCK_SZ - in_block {
                end - start
            } else {
                BLOCK_SZ - in_block
            };
            proof {
                assert(inner < inode_blocks(*self)) by {
                    vstd::arithmetic::div_mod::lemma_div_is_ordered(start as int, self.size + 511, 512);
                    vstd::arithmetic::div_mod::lemma_fundamental_div_mod(start as int, 512);
                    vstd::arithmetic::div_mod::lemma_fundamental_div_mod(self.size + 511, 512);
                }
                vstd::arithmetic::div_mod::lemma_div_is_ordered(start as int, 0xffff_ffff, 512);
            }
            let found = self.checked_block_id(inner as u32, cache);
            if found.is_none() {
                proof {
                    if inode_readable(*self, d0) {
                        vstd::arithmetic::div_mod::lemma_div_is_ordered(start as int, self.size - 1, 512);
                        vstd::arithmetic::div_mod::lemma_div_is_ordered(self.size as int - 1, INDIRECT2_BOUND * 512 - 1, 512);
                        assert(index_path_ok(*self, d0, inner as int));
                    }
                }
                failed = true;
                continue;
            }
            let block_id = found.unwrap();
            let data = cache.read(block_id as usize, in_block, block_end);
            let ghost before = buf@;
            let mut k: usize = 0;
            while k < block_end
                invariant
                    k <= block_end,
                    read_size + block_end <= len,
                    buf@.len() == len,
                    data@.len() == block_end,
                    forall|j: int| 0 <= j < read_size + k ==> #[trigger] buf@[j] == if j < read_size {
                        before[j]
                    } else {
                        data@[j - read_size]
                    },
                    forall|j: int| read_size + k <= j < len ==> #[trigger] buf@[j] == before[j],
                decreases block_end - k,
            {
                buf[read_size + k] = data[k];
                k = k + 1;
            }
            proof {
                let ns = start + block_end;
                assert forall|j: int| read_size <= j < read_size + block_end implies #[trigger] buf@[j]
                    == content[offset + j] by {
                    let p = offset + j;
                    vstd::arithmetic::div_mod::lemma_fundamental_div_mod(start as int, 512);
                    vstd::arithmetic::div_mod::lemma_fundamental_div_mod_converse(
                        p,
                        512,
                        inner as int,
                        in_block + (j - read_size),
                    );
                }
                assert(buf@.subrange(0, read_size + block_end) =~= content.subrange(
                    offset as int,
                    ns as int,
                ));
                assert forall|j: int| read_size + block_end <= j < len implies buf@[j] == old(buf)@[j] by {
                    assert(before.subrange(read_size as int, len as int)[j - read_size] == before[j]);
                }
                assert(buf@.subrange((read_size + block_end) as int, len as int) =~= old(buf)@.subrange(
                    (read_size + block_end) as int,
                    len as int,
                ));
            }
            read_size = read_size + block_end;
            start = start + block_end;
        }
        read_size
    }
}

/// An encoded inode record decodes to the same record.
pub proof fn lemma_disk_inode_round_trip(di: DiskInode, s: Seq<u8>, at: int)
    requires
        0 <= at,
        at + DISK_INODE_SZ <= s.len(),
        s.subrange(at, at + DISK_INODE_SZ) == disk_inode_bytes(di),
    ensures
        disk_inode_at(s, at, di),
{
    let e = disk_inode_bytes(di);
    assert forall|o: int| 0 <= o < DISK_INODE_SZ implies #[trigger] s[at + o] == e[o] by {
        assert(s.subrange(at, at + DISK_INODE_SZ)[o] == s[at + o]);
    }
    assert(s.subrange(at, at + 4) =~= u32_bytes(di.size)) by {
        assert forall|t: int| 0 <= t < 4 implies s.subrange(at, at + 4)[t] == u32_bytes(di.size)[t] by {
            assert(s[at + t] == e[t]);
        }
    }
    lemma_le_u32_at(s, at, di.size);
    assert forall|k: int| 0 <= k < INODE_DIRECT_COUNT implies #[trigger] di.direct@[k] == le_u32(s, at + 4 + 4 * k) by {
        assert(s.subrange(at + 4 + 4 * k, at + 8 + 4 * k) =~= u32_bytes(di.direct@[k])) by {
            assert forall|t: int| 0 <= t < 4 implies s.subrange(at + 4 + 4 * k, at + 8 + 4 * k)[t]
                == u32_bytes(di.direct@[k])[t] by {
                assert(s[at + 4 + 4 * k + t] == e[4 + 4 * k + t]);
                assert((4 * k + t) / 4 == k && (4 * k + t) % 4 == t) by {
                    vstd::arithmetic::div_mod::lemma_fundamental_div_mod_converse(4 * k + t, 4, k, t);
                }
            }
        }
        lemma_le_u32_at(s, at + 4 + 4 * k, di.direct@[k]);
    }
    assert(s.subrange(at + 116, at + 120) =~= u32_bytes(di.indirect1)) by {
        assert forall|t: int| 0 <= t < 4 implies s.subrange(at + 116, at + 120)[t] == u32_bytes(di.indirect1)[t] by {
            assert(s[at + 116 + t] == e[116 + t]);
        }
    }
    lemma_le_u32_at(s, at + 116, di.indirect1);
    assert(s.subrange(at + 120, at + 124) =~= u32_bytes(di.indirect2)) by {
        assert forall|t: int| 0 <= t < 4 implies s.subrange(at + 120, at + 124)[t] == u32_bytes(di.indirect2)[t] by {
            assert(s[at + 120 + t] == e[120 + t]);
        }
    }
    lemma_le_u32_at(s, at + 120, di.indirect2);
    let tag: u32 = if di.type_ == DiskInodeType::Directory { 1 } else { 0 };
    assert(s.subrange(at + 124, at + 128) =~= u32_bytes(tag)) by {
        assert forall|t: int| 0 <= t < 4 implies s.subrange(at + 124, at + 128)[t] == u32_bytes(tag)[t] by {
            assert(s[at + 124 + t] == e[124 + t]);
        }
    }
    lemma_le_u32_at(s, at + 124, tag);
}

/// Reading back the range just written gives the bytes written: the
/// content `write_at` leaves holds, at the written range, exactly what
/// `read_at` of that range returns.
pub proof fn lemma_write_then_read(content: Seq<u8>, offset: int, data: Seq<u8>)
    requires
        0 <= offset,
        offset + data.len() <= content.len(),
    ensures
        overwrite(content, offset, data).len() == content.len(),
        overwrite(content, offset, data).subrange(offset, offset + data.len()) == data,
        forall|i: int|
            0 <= i < content.len() && !(offset <= i < offset + data.len()) ==> #[trigger] overwrite(
                content,
                offset,
                data,
            )[i] == content[i],
{
    assert(overwrite(content, offset, data).subrange(offset, offset + data.len()) =~= data);
}

/// Whether block `b` is one of the index blocks in use by `di`: `indirect1`
/// once there are direct blocks beyond the direct ones, `indirect2` and the
/// index blocks it lists once the second level is in use.
pub open spec fn is_index_block(di: DiskInode, disk: Seq<Seq<u8>>, b: int) -> bool {
    let n = inode_blocks(di);
    ||| n > DIRECT_BOUND && b == di.indirect1
    ||| n > INDIRECT1_BOUND && b == di.indirect2
    ||| n > INDIRECT1_BOUND && exists|a: int|
        0 <= a < (n - INDIRECT1_BOUND + 127) / 128 && b == #[trigger] block_u32(
            disk,
            di.indirect2 as int,
            a,
        )
}

/// The data blocks of `di` are distinct, readable, and none of them is an
/// index block of `di`.
pub open spec fn inode_sound(di: DiskInode, disk: Seq<Seq<u8>>) -> bool {
    &&& inode_readable(di, disk)
    &&& forall|i: int, j: int|
        0 <= i < inode_blocks(di) && 0 <= j < inode_blocks(di) && i != j ==> #[trigger] inode_block_id(
            di,
            disk,
            i,
        ) != #[trigger] inode_block_id(di, disk, j)
    &&& forall|i: int|
        0 <= i < inode_blocks(di) ==> !is_index_block(di, disk, #[trigger] inode_block_id(di, disk, i) as int)
}

/// Where the index blocks of `di` hold the same bytes, the block tree reads
/// the same.
pub proof fn lemma_index_frame(di: DiskInode, d0: Seq<Seq<u8>>, d1: Seq<Seq<u8>>)
    requires
        d0.len() == d1.len(),
        inode_readable(di, d0),
        forall|b: int| 0 <= b < d0.len() && is_index_block(di, d0, b) ==> #[trigger] d1[b] == d0[b],
    ensures
        forall|i: int| 0 <= i < inode_blocks(di) ==> #[trigger] inode_block_id(di, d1, i) == inode_block_id(di, d0, i),
        forall|b: int| #[trigger] is_index_block(di, d1, b) == is_index_block(di, d0, b),
        inode_readable(di, d1),
{
    let n = inode_blocks(di);
    if n > INDIRECT1_BOUND {
        assert(is_index_block(di, d0, di.indirect2 as int));
        assert(index_path_ok(di, d0, INDIRECT1_BOUND as int));
        assert(d1[di.indirect2 as int] == d0[di.indirect2 as int]);
    }
    assert forall|i: int| 0 <= i < inode_blocks(di) implies #[trigger] inode_block_id(di, d1, i)
        == inode_block_id(di, d0, i) && index_path_ok(di, d1, i) by {
        assert(index_path_ok(di, d0, i));
        if i >= DIRECT_BOUND && i < INDIRECT1_BOUND {
            assert(is_index_block(di, d0, di.indirect1 as int));
        } else if i >= INDIRECT1_BOUND {
            let a = (i - INDIRECT1_BOUND) / 128;
            vstd::arithmetic::div_mod::lemma_div_is_ordered(i - INDIRECT1_BOUND, n - INDIRECT1_BOUND + 127 - 128, 128);
            vstd::arithmetic::div_mod::lemma_div_plus_one(n - INDIRECT1_BOUND + 127 - 128, 128);
            assert(block_u32(d1, di.indirect2 as int, a) == block_u32(d0, di.indirect2 as int, a));
            let c = block_u32(d0, di.indirect2 as int, a) as int;
            assert(is_index_block(di, d0, c));
        }
    }
    assert forall|b: int| #[trigger] is_index_block(di, d1, b) == is_index_block(di, d0, b) by {
        if n > INDIRECT1_BOUND {
            let lim = (n - INDIRECT1_BOUND + 127) / 128;
            if exists|a: int| 0 <= a < lim && b == #[trigger] block_u32(d1, di.indirect2 as int, a) {
                let a = choose|a: int| 0 <= a < lim && b == #[trigger] block_u32(d1, di.indirect2 as int, a);
                assert(block_u32(d0, di.indirect2 as int, a) == b);
            }
            if exists|a: int| 0 <= a < lim && b == #[trigger] block_u32(d0, di.indirect2 as int, a) {
                let a = choose|a: int| 0 <= a < lim && b == #[trigger] block_u32(d0, di.indirect2 as int, a);
                assert(block_u32(d1, di.indirect2 as int, a) == b);
            }
        }
    }
    assert forall|i: int| 0 <= i < inode_blocks(di) implies #[trigger] index_path_ok(di, d1, i)
        && inode_block_id(di, d1, i) < d1.len() by {
        assert(index_path_ok(di, d0, i));
        assert(inode_block_id(di, d1, i) == inode_block_id(di, d0, i));
    }
}

impl DiskInode {
    /// Copies `buf` into the inode's bytes from `offset` on, as much as fits
    /// before the end of the file, and returns how many bytes were written.
    /// The inode does not grow here.
    pub fn write_at<D: BlockDevice>(
        &self,
        offset: usize,
        buf: &[u8],
        cache: &mut BlockCacheManager<D>,
    ) -> (r: usize)
        requires
            old(cache).wf(),
            old(cache).has_room(),
            offset <= self.size,
        ensures
            final(cache).wf(),
            final(cache).has_room(),
            forall|b: int| #[trigger] final(cache).pins(b) == old(cache).pins(b),
            final(cache).num_blocks() == old(cache).num_blocks(),
            r <= vstd::math::min(offset + buf@.len(), self.size as int) - offset,
            inode_sound(*self, old(cache).disk()) ==> {
                &&& r == vstd::math::min(offset + buf@.len(), self.size as int) - offset
                &&& inode_sound(*self, final(cache).disk())
                &&& inode_content(*self, final(cache).disk()) == overwrite(
                    inode_content(*self, old(cache).disk()),
                    offset as int,
                    buf@.subrange(0, r as int),
                )
                &&& forall|b: int|
                    0 <= b < old(cache).num_blocks() && (forall|i: int|
                        0 <= i < inode_blocks(*self) ==> b != #[trigger] inode_block_id(
                            *self,
                            old(cache).disk(),
                            i,
                        )) ==> #[trigger] final(cache).disk()[b] == old(cache).disk()[b]
            },
    {
        let ghost d0 = cache.disk();
        let ghost sound = inode_sound(*self, d0);
        proof {
            cache.lemma_disk_sized();
        }
        let len = buf.len();
        let mut start = offset;
        let end = if len > self.size as usize - offset {
            self.size as usize
        } else {
            offset + len
        };
        let mut written: usize = 0;
        let mut failed = false;
        while start < end && !failed
            invariant
                cache.wf(),
                cache.has_room(),
                forall|b: int| #[trigger] cache.pins(b) == old(cache).pins(b),
                d0 == old(cache).disk(),
                cache.num_blocks() == old(cache).num_blocks(),
                d0.len() == cache.num_blocks(),
                cache.disk().len() == d0.len(),
                forall|b: int| 0 <= b < d0.len() ==> (#[trigger] d0[b]).len() == BLOCK_SZ,
                sound == inode_sound(*self, d0),
                end <= self.size,
                end == offset + len || end == self.size,
                end <= offset + len,
                offset <= start <= end,
                written == start - offset,
                len == buf@.len(),
                sound ==> !failed,
                sound ==> {
                    &&& forall|b: int|
                        0 <= b < d0.len() && is_index_block(*self, d0, b) ==> #[trigger] cache.disk()[b]
                            == d0[b]
                    &&& inode_content(*self, cache.disk()) == overwrite(
                        inode_content(*self, d0),
                        offset as int,
                        buf@.subrange(0, written as int),
                    )
                    &&& forall|b: int|
                        0 <= b < d0.len() && (forall|i: int|
                            0 <= i < inode_blocks(*self) ==> b != #[trigger] inode_block_id(
                                *self,
                                d0,
                                i,
                            )) ==> #[trigger] cache.disk()[b] == d0[b]
                },
            decreases end - start + if failed { 0int } else { 1int },
        {
            let ghost dk = cache.disk();
            proof {
                cache.lemma_disk_sized();
            }
            let inner = start / BLOCK_SZ;
            let in_block = start % BLOCK_SZ;
            let block_end = if end - start < BLOCK_SZ - in_block {
                end - start
            } else {
                BLOCK_SZ - in_block
            };
            proof {
                assert(inner < inode_blocks(*self)) by {
                    vstd::arithmetic::div_mod::lemma_div_is_ordered(start as int, self.size + 511, 512);
                    vstd::arithmetic::div_mod::lemma_fundamental_div_mod(start as int, 512);
                    vstd::arithmetic::div_mod::lemma_fundamental_div_mod(self.size + 511, 512);
                }
                vstd::arithmetic::div_mod::lemma_div_is_ordered(start as int, 0xffff_ffff, 512);
                if sound {
                    lemma_index_frame(*self, d0, dk);
                }
            }
            let found = self.checked_block_id(inner as u32, cache);
            if found.is_none() {
                proof {
                    if sound {
                        vstd::arithmetic::div_mod::lemma_div_is_ordered(start as int, self.size - 1, 512);
                        vstd::arithmetic::div_mod::lemma_div_is_ordered(self.size as int - 1, INDIRECT2_BOUND * 512 - 1, 512);
                        assert(index_path_ok(*self, dk, inner as int));
                    }
                }
                failed = true;
                continue;
            }
            let block_id = found.unwrap();
            let piece = slice_range(buf, written, block_end);
            cache.modify(block_id as usize, in_block, piece.as_slice());
            proof {
                if sound {
                    lemma_write_step(*self, d0, dk, cache.disk(), offset as int, buf@, written as int,
                        block_end as int, start as int, block_id as int);
                }
            }
            written = written + block_end;
            start = start + block_end;
        }
        proof {
            if sound {
                lemma_index_frame(*self, d0, cache.disk());
                let d1 = cache.disk();
                assert forall|i: int, j: int|
                    0 <= i < inode_blocks(*self) && 0 <= j < inode_blocks(*self) && i != j implies #[trigger] inode_block_id(
                        *self,
                        d1,
                        i,
                    ) != #[trigger] inode_block_id(*self, d1, j) by {
                    assert(inode_block_id(*self, d0, i) != inode_block_id(*self, d0, j));
                }
                assert forall|i: int| 0 <= i < inode_blocks(*self) implies !is_index_block(
                    *self,
                    d1,
                    #[trigger] inode_block_id(*self, d1, i) as int,
                ) by {
                    assert(!is_index_block(*self, d0, inode_block_id(*self, d0, i) as int));
                }
            }
        }
        written
    }
}

/// One step of `write_at` on a sound inode: writing the piece of `buf` that
/// falls in the block holding byte `start` keeps the index blocks, extends
/// the written prefix, and touches no block outside the file.
proof fn lemma_write_step(
    di: DiskInode,
    d0: Seq<Seq<u8>>,
    dk: Seq<Seq<u8>>,
    d1: Seq<Seq<u8>>,
    offset: int,
    buf: Seq<u8>,
    written: int,
    block_end: int,
    start: int,
    block_id: int,
)
    requires
        inode_sound(di, d0),
        d0.len() == dk.len(),
        forall|b: int| 0 <= b < d0.len() ==> (#[trigger] d0[b]).len() == BLOCK_SZ,
        forall|b: int| 0 <= b < dk.len() ==> (#[trigger] dk[b]).len() == BLOCK_SZ,
        0 <= offset <= start,
        written == start - offset,
        0 < block_end,
        start % 512 + block_end <= 512,
        start + block_end <= di.size,
        written + block_end <= buf.len(),
        forall|b: int| 0 <= b < d0.len() && is_index_block(di, d0, b) ==> #[trigger] dk[b] == d0[b],
        inode_content(di, dk) == overwrite(inode_content(di, d0), offset, buf.subrange(0, written)),
        forall|b: int|
            0 <= b < d0.len() && (forall|i: int|
                0 <= i < inode_blocks(di) ==> b != #[trigger] inode_block_id(di, d0, i)) ==> #[trigger] dk[b]
                == d0[b],
        block_id == inode_block_id(di, dk, start / 512),
        block_id < d0.len(),
        d1 == dk.update(block_id, overwrite(dk[block_id], start % 512, buf.subrange(written, written + block_end))),
    ensures
        forall|b: int| 0 <= b < d0.len() && is_index_block(di, d0, b) ==> #[trigger] d1[b] == d0[b],
        inode_content(di, d1) == overwrite(inode_content(di, d0), offset, buf.subrange(0, written + block_end)),
        forall|b: int|
            0 <= b < d0.len() && (forall|i: int|
                0 <= i < inode_blocks(di) ==> b != #[trigger] inode_block_id(di, d0, i)) ==> #[trigger] d1[b]
                == d0[b],
{
    let inner = start / 512;
    let in_block = start % 512;
    vstd::arithmetic::div_mod::lemma_fundamental_div_mod(start, 512);
    vstd::arithmetic::div_mod::lemma_mod_bound(start, 512);
    assert(inner < inode_blocks(di)) by {
        vstd::arithmetic::div_mod::lemma_div_is_ordered(start, di.size + 511, 512);
        vstd::arithmetic::div_mod::lemma_fundamental_div_mod(di.size + 511, 512);
    }
    lemma_index_frame(di, d0, dk);
    assert(block_id == inode_block_id(di, d0, inner));
    assert(!is_index_block(di, d0, block_id));
    assert forall|b: int| 0 <= b < d0.len() && is_index_block(di, d0, b) implies #[trigger] d1[b] == d0[b] by {}
    lemma_index_frame(di, d0, d1);
    let c0 = inode_content(di, d0);
    let ck = inode_content(di, dk);
    let c1 = inode_content(di, d1);
    let piece = buf.subrange(written, written + block_end);
    let nb = buf.subrange(0, written + block_end);
    let ob = buf.subrange(0, written);
    assert forall|p: int| 0 <= p < di.size implies #[trigger] c1[p] == overwrite(c0, offset, nb)[p] by {
        let ip = p / 512;
        vstd::arithmetic::div_mod::lemma_div_is_ordered(p, di.size + 511, 512);
        vstd::arithmetic::div_mod::lemma_fundamental_div_mod(p, 512);
        vstd::arithmetic::div_mod::lemma_fundamental_div_mod(di.size + 511, 512);
        vstd::arithmetic::div_mod::lemma_mod_bound(p, 512);
        assert(0 <= ip < inode_blocks(di));
        assert(index_path_ok(di, d0, ip));
        let bp = inode_block_id(di, d0, ip) as int;
        assert(inode_block_id(di, d1, ip) == bp);
        assert(inode_block_id(di, dk, ip) == bp);
        assert(c1[p] == d1[bp][p % 512]);
        assert(ck[p] == dk[bp][p % 512]);
        assert(ck[p] == overwrite(c0, offset, ob)[p]);
        if start <= p < start + block_end {
            vstd::arithmetic::div_mod::lemma_fundamental_div_mod_converse(p, 512, inner, in_block + (p - start));
            assert(bp == block_id);
            assert(d1[bp][p % 512] == piece[p % 512 - in_block]);
            assert(piece[p - start] == buf[written + p - start]);
            assert(nb[p - offset] == buf[p - offset]);
        } else if ip == inner {
            assert(bp == block_id);
            assert(p % 512 < in_block || p % 512 >= in_block + block_end) by {
                if in_block <= p % 512 < in_block + block_end {
                    assert(p == inner * 512 + p % 512);
                }
            }
            assert(d1[bp][p % 512] == dk[bp][p % 512]);
            if offset <= p < start {
                assert(ob[p - offset] == nb[p - offset]);
            }
        } else {
            assert(bp != inode_block_id(di, d0, inner));
            assert(d1[bp] == dk[bp]);
            if offset <= p < start {
                assert(ob[p - offset] == nb[p - offset]);
            }
        }
    }
    assert(c1 =~= overwrite(c0, offset, nb));
    assert forall|b: int|
        0 <= b < d0.len() && (forall|i: int|
            0 <= i < inode_blocks(di) ==> b != #[trigger] inode_block_id(di, d0, i)) implies #[trigger] d1[b]
        == d0[b] by {
        if b == block_id {
            assert(b == inode_block_id(di, d0, inner));
        }
    }
}

/// The `len` bytes of `buf` from `from` on.
pub(crate) fn slice_range(buf: &[u8], from: usize, len: usize) -> (r: Vec<u8>)
    requires
        from + len <= buf@.len(),
    ensures
        r@ == buf@.subrange(from as int, from + len),
{
    let n = buf.len();
    let mut out: Vec<u8> = Vec::with_capacity(len);
    let mut i: usize = 0;
    while i < len
        invariant
            n == buf@.len(),
            from + len <= buf@.len(),
            i <= len,
            out@ == buf@.subrange(from as int, from + i),
        decreases len - i,
    {
        out.push(buf[from + i]);
        i = i + 1;
        assert(out@ =~= buf@.subrange(from as int, from + i));
    }
    out
}

/// The first `count` u32 entries of block `block`.
fn read_entries<D: BlockDevice>(cache: &mut BlockCacheManager<D>, block: u32, count: usize) -> (r: Vec<u32>)
    requires
        old(cache).wf(),
        old(cache).has_room(),
        block < old(cache).num_blocks(),
        count <= INODE_INDIRECT1_COUNT,
    ensures
        final(cache).wf(),
        final(cache).has_room(),
        forall|b: int| #[trigger] final(cache).pins(b) == old(cache).pins(b),
        final(cache).disk() == old(cache).disk(),
        final(cache).num_blocks() == old(cache).num_blocks(),
        r@.len() == count,
        forall|k: int| 0 <= k < count ==> #[trigger] r@[k] == block_u32(old(cache).disk(), block as int, k),
{
    proof {
        cache.lemma_disk_sized();
    }
    let bytes = cache.read(block as usize, 0, BLOCK_SZ);
    let mut out: Vec<u32> = Vec::new();
    let mut k: usize = 0;
    while k < count
        invariant
            k <= count <= INODE_INDIRECT1_COUNT,
            bytes@ == cache.disk()[block as int].subrange(0, 512),
            cache.disk()[block as int].len() == 512,
            out@.len() == k,
            forall|j: int| 0 <= j < k ==> #[trigger] out@[j] == block_u32(cache.disk(), block as int, j),
        decreases count - k,
    {
        let v = get_u32(bytes.as_slice(), 4 * k);
        proof {
            let o = 4 * k as int;
            assert(bytes@[o] == cache.disk()[block as int][o]);
            assert(bytes@[o + 1] == cache.disk()[block as int][o + 1]);
            assert(bytes@[o + 2] == cache.disk()[block as int][o + 2]);
            assert(bytes@[o + 3] == cache.disk()[block as int][o + 3]);
        }
        out.push(v);
        k = k + 1;
    }
    out
}

/// Stores `v` as entry `k` of index block `block`.
fn write_entry<D: BlockDevice>(cache: &mut BlockCacheManager<D>, block: u32, k: usize, v: u32)
    requires
        old(cache).wf(),
        old(cache).has_room(),
        block < old(cache).num_blocks(),
        k < INODE_INDIRECT1_COUNT,
    ensures
        final(cache).wf(),
        final(cache).has_room(),
        forall|b: int| #[trigger] final(cache).pins(b) == old(cache).pins(b),
        final(cache).num_blocks() == old(cache).num_blocks(),
        final(cache).disk() == old(cache).disk().update(
            block as int,
            overwrite(old(cache).disk()[block as int], 4 * k, u32_bytes(v)),
        ),
{
    let mut bytes: Vec<u8> = Vec::new();
    put_u32(&mut bytes, v);
    assert(bytes@ =~= u32_bytes(v));
    cache.modify(block as usize, 4 * k, bytes.as_slice());
}

/// What growing `old` to `new` with `new_blocks` does to the record's own
/// fields.
pub open spec fn fields_grown(old: DiskInode, new: DiskInode, new_blocks: Seq<u32>, new_size: u32) -> bool {
    &&& new.size == new_size
    &&& new.type_ == old.type_
    &&& forall|i: int|
        0 <= i < INODE_DIRECT_COUNT && i < inode_blocks(old) ==> #[trigger] new.direct@[i] == old.direct@[i]
    &&& forall|i: int|
        inode_blocks(old) <= i < INODE_DIRECT_COUNT && i < inode_blocks(new) ==> #[trigger] new.direct@[i]
            == new_blocks[i - inode_blocks(old)]
    &&& forall|i: int|
        0 <= i < INODE_DIRECT_COUNT && i >= inode_blocks(new) && i >= inode_blocks(old) ==> #[trigger] new.direct@[i]
            == old.direct@[i]
    &&& new.indirect1 == if inode_blocks(old) <= DIRECT_BOUND < inode_blocks(new) {
        new_blocks[DIRECT_BOUND - inode_blocks(old)]
    } else {
        old.indirect1
    }
    &&& inode_blocks(new) <= INDIRECT1_BOUND ==> new.indirect2 == old.indirect2
}

/// Entry `t` of index block `x` of the second level is inner block
/// `156 + 128 * x + t`.
proof fn lemma_coords_2(x: int, t: int)
    requires
        0 <= x,
        0 <= t < 128,
    ensures
        (128 * x + t) / 128 == x,
        (128 * x + t) % 128 == t,
{
    vstd::arithmetic::div_mod::lemma_fundamental_div_mod_converse(128 * x + t, 128, x, t);
}

/// Index blocks of the second level that growing from `old_n` data blocks
/// takes up to and including the one that holds inner block `i`.
pub open spec fn children_taken(old_n: int, i: int) -> int {
    if i < INDIRECT1_BOUND {
        0
    } else {
        let first = if old_n <= INDIRECT1_BOUND {
            0
        } else {
            (old_n - INDIRECT1_BOUND + 127) / 128
        };
        let last = (i - INDIRECT1_BOUND) / 128;
        if last >= first {
            last - first + 1
        } else {
            0
        }
    }
}

/// Index blocks that growing from `old_n` data blocks takes from the list
/// before data block `i`: `indirect1`, `indirect2`, and the index blocks of
/// the second level.
pub open spec fn index_taken(old_n: int, i: int) -> int {
    (if old_n <= DIRECT_BOUND <= i {
        1int
    } else {
        0int
    }) + (if old_n <= INDIRECT1_BOUND <= i {
        1int
    } else {
        0int
    }) + children_taken(old_n, i)
}

/// Where in the list of new blocks the data block for inner block `i`
/// comes, growing from `old_n` data blocks.
pub open spec fn grow_pos(old_n: int, i: int) -> int {
    (i - old_n) + index_taken(old_n, i)
}

proof fn lemma_children_taken_mono(old_n: int, i: int, j: int)
    requires
        0 <= old_n <= i <= j,
    ensures
        children_taken(old_n, i) <= children_taken(old_n, j),
        children_taken(old_n, j) <= children_taken(old_n, i) + (j - i),
{
    if i >= INDIRECT1_BOUND {
        vstd::arithmetic::div_mod::lemma_div_is_ordered(i - 156, j - 156, 128);
        lemma_div_step(i - 156, j - 156);
    } else if j >= INDIRECT1_BOUND {
        vstd::arithmetic::div_mod::lemma_div_is_ordered(0, j - 156, 128);
        lemma_div_step(0, j - 156);
    }
}

/// `y / 128` exceeds `x / 128` by at most `y - x`.
proof fn lemma_div_step(x: int, y: int)
    requires
        0 <= x <= y,
    ensures
        y / 128 - x / 128 <= y - x,
        x / 128 <= y / 128,
{
    vstd::arithmetic::div_mod::lemma_div_is_ordered(x, y, 128);
    vstd::arithmetic::div_mod::lemma_fundamental_div_mod(x, 128);
    vstd::arithmetic::div_mod::lemma_fundamental_div_mod(y, 128);
    vstd::arithmetic::div_mod::lemma_mod_bound(x, 128);
    vstd::arithmetic::div_mod::lemma_mod_bound(y, 128);
}

/// Later data blocks come later in the list.
proof fn lemma_grow_pos_mono(old_n: int, i: int, j: int)
    requires
        0 <= old_n <= i < j,
    ensures
        grow_pos(old_n, i) < grow_pos(old_n, j),
        index_taken(old_n, i) <= index_taken(old_n, j),
{
    lemma_children_taken_mono(old_n, i, j);
}

/// Growing takes exactly the blocks counted by `total_blocks_of`: the last
/// new data block is the last one of the list.
proof fn lemma_grow_count_exact(s0: nat, s1: nat)
    requires
        ceil_blocks(s0) < ceil_blocks(s1),
    ensures
        total_blocks_of(s1) - total_blocks_of(s0) == grow_pos(
            ceil_blocks(s0) as int,
            ceil_blocks(s1) - 1,
        ) + 1,
{
    let d0 = ceil_blocks(s0) as int;
    let d1 = ceil_blocks(s1) as int;
    if d1 > 156 {
        vstd::arithmetic::div_mod::lemma_fundamental_div_mod(d1 - 157, 128);
        vstd::arithmetic::div_mod::lemma_mod_bound(d1 - 157, 128);
        vstd::arithmetic::div_mod::lemma_fundamental_div_mod_converse(
            d1 - 156 + 127,
            128,
            (d1 - 157) / 128 + 1,
            (d1 - 157) % 128,
        );
        if d0 > 156 {
            vstd::arithmetic::div_mod::lemma_div_is_ordered(d0 - 156 + 127, d1 - 156 + 127, 128);
        }
    }
}

/// Growing from `d0` to `d1` data blocks takes at least the new data
/// blocks, plus `indirect1` where it comes into use.
proof fn lemma_grow_count(s0: nat, s1: nat)
    requires
        s0 <= s1,
    ensures
        total_blocks_of(s1) - total_blocks_of(s0) >= ceil_blocks(s1) - ceil_blocks(s0) + if ceil_blocks(s0)
            <= DIRECT_BOUND < ceil_blocks(s1) {
            1int
        } else {
            0int
        },
{
    let d0 = ceil_blocks(s0);
    let d1 = ceil_blocks(s1);
    vstd::arithmetic::div_mod::lemma_div_is_ordered((s0 + 511) as int, (s1 + 511) as int, 512);
    if d0 > 156 {
        vstd::arithmetic::div_mod::lemma_div_is_ordered((d0 - 156 + 127) as int, (d1 - 156 + 127) as int, 128);
    }
}

/// Number of second-level index blocks in use by an inode of `n` data
/// blocks.
pub open spec fn children_count(n: int) -> int {
    if n > INDIRECT1_BOUND {
        (n - INDIRECT1_BOUND + 127) / 128
    } else {
        0
    }
}

/// The index blocks of `di` on `disk` are pairwise distinct.
pub open spec fn index_distinct(di: DiskInode, disk: Seq<Seq<u8>>) -> bool {
    let n = inode_blocks(di);
    &&& n > INDIRECT1_BOUND ==> di.indirect1 != di.indirect2
    &&& forall|a: int|
        0 <= a < children_count(n) ==> #[trigger] block_u32(disk, di.indirect2 as int, a) != di.indirect1
            && block_u32(disk, di.indirect2 as int, a) != di.indirect2
    &&& forall|a: int, b: int|
        0 <= a < children_count(n) && 0 <= b < children_count(n) && a != b ==> #[trigger] block_u32(
            disk,
            di.indirect2 as int,
            a,
        ) != #[trigger] block_u32(disk, di.indirect2 as int, b)
}

/// The blocks `nb` handed to `increase_size` are fresh for `di`: distinct,
/// on the device, and none of them an index block of `di`; and `di` itself
/// can be read and has distinct index blocks.
pub open spec fn grow_fresh(di: DiskInode, disk: Seq<Seq<u8>>, nb: Seq<u32>) -> bool {
    &&& inode_readable(di, disk)
    &&& index_distinct(di, disk)
    &&& nb.no_duplicates()
    &&& forall|k: int|
        0 <= k < nb.len() ==> (#[trigger] nb[k]) < disk.len() && !is_index_block(di, disk, nb[k] as int)
}

/// `indirect1` after growing from `o` to `m` data blocks with `nb`.
pub open spec fn grown_ind1(di: DiskInode, nb: Seq<u32>, o: int, m: int) -> u32 {
    if o <= DIRECT_BOUND < m {
        nb[DIRECT_BOUND - o]
    } else {
        di.indirect1
    }
}

/// `indirect2` after growing from `o` to `m` data blocks with `nb`.
pub open spec fn grown_ind2(di: DiskInode, nb: Seq<u32>, o: int, m: int) -> u32 {
    if o <= INDIRECT1_BOUND < m {
        nb[grow_pos(o, INDIRECT1_BOUND as int) - 2]
    } else {
        di.indirect2
    }
}

/// Second-level index block `a` after growing from `o` data blocks.
pub open spec fn grown_child(di: DiskInode, disk: Seq<Seq<u8>>, nb: Seq<u32>, o: int, a: int) -> u32 {
    if INDIRECT1_BOUND + 128 * a >= o {
        nb[grow_pos(o, INDIRECT1_BOUND + 128 * a) - 1]
    } else {
        block_u32(disk, di.indirect2 as int, a)
    }
}

/// Data block for inner block `i` after growing from `o` data blocks: the
/// old one below `o`, else the one at its place in `nb`.
pub open spec fn grown_block(di: DiskInode, disk: Seq<Seq<u8>>, nb: Seq<u32>, o: int, i: int) -> u32 {
    if i < o {
        inode_block_id(di, disk, i)
    } else {
        nb[grow_pos(o, i)]
    }
}

/// Storing `v` as entry `e` of block `x` changes that entry and no other.
proof fn lemma_entry_store(disk: Seq<Seq<u8>>, x: int, e: int, v: u32, y: int, e2: int)
    requires
        0 <= x < disk.len(),
        0 <= y < disk.len(),
        disk[x].len() == BLOCK_SZ,
        0 <= e < 128,
        0 <= e2 < 128,
    ensures
        block_u32(disk.update(x, overwrite(disk[x], 4 * e, u32_bytes(v))), y, e2) == if x == y && e
            == e2 {
            v
        } else {
            block_u32(disk, y, e2)
        },
{
    let d1 = disk.update(x, overwrite(disk[x], 4 * e, u32_bytes(v)));
    if x == y {
        let s = d1[x];
        if e == e2 {
            assert(s.subrange(4 * e, 4 * e + 4) =~= u32_bytes(v));
            lemma_le_u32_at(s, 4 * e, v);
        } else {
            assert(s[4 * e2] == disk[x][4 * e2]);
            assert(s[4 * e2 + 1] == disk[x][4 * e2 + 1]);
            assert(s[4 * e2 + 2] == disk[x][4 * e2 + 2]);
            assert(s[4 * e2 + 3] == disk[x][4 * e2 + 3]);
        }
    }
}

/// The index blocks of the grown tree are distinct and on the device, and
/// every new data block's place lies in the list.
proof fn lemma_grown_distinct(di: DiskInode, disk: Seq<Seq<u8>>, nb: Seq<u32>, o: int, m: int)
    requires
        grow_fresh(di, disk, nb),
        o == inode_blocks(di),
        o < m <= INDIRECT2_BOUND,
        nb.len() == grow_pos(o, m - 1) + 1,
    ensures
        m > DIRECT_BOUND ==> grown_ind1(di, nb, o, m) < disk.len(),
        m > INDIRECT1_BOUND ==> grown_ind2(di, nb, o, m) < disk.len() && grown_ind1(di, nb, o, m)
            != grown_ind2(di, nb, o, m),
        forall|a: int|
            0 <= a < children_count(m) ==> #[trigger] grown_child(di, disk, nb, o, a) < disk.len()
                && grown_child(di, disk, nb, o, a) != grown_ind1(di, nb, o, m) && grown_child(
                di,
                disk,
                nb,
                o,
                a,
            ) != grown_ind2(di, nb, o, m),
        forall|a: int, b: int|
            0 <= a < children_count(m) && 0 <= b < children_count(m) && a != b ==> #[trigger] grown_child(
                di,
                disk,
                nb,
                o,
                a,
            ) != #[trigger] grown_child(di, disk, nb, o, b),
        forall|i: int| o <= i < m ==> 0 <= #[trigger] grow_pos(o, i) < nb.len(),
{
    let ind1 = grown_ind1(di, nb, o, m);
    let ind2 = grown_ind2(di, nb, o, m);
    assert forall|i: int| o <= i < m implies 0 <= #[trigger] grow_pos(o, i) < nb.len() by {
        if i < m - 1 {
            lemma_grow_pos_mono(o, i, m - 1);
        }
        lemma_children_taken_mono(o, o, i);
    }
    if o <= DIRECT_BOUND < m {
        assert(grow_pos(o, DIRECT_BOUND as int) == DIRECT_BOUND - o + 1);
        assert(0 <= grow_pos(o, DIRECT_BOUND as int));
    }
    if m > DIRECT_BOUND && o > DIRECT_BOUND {
        assert(index_path_ok(di, disk, DIRECT_BOUND as int));
        assert(is_index_block(di, disk, di.indirect1 as int));
    }
    if m > INDIRECT1_BOUND {
        if o <= INDIRECT1_BOUND {
            assert(0 <= grow_pos(o, INDIRECT1_BOUND as int));
            assert(children_taken(o, INDIRECT1_BOUND as int) == 1);
            assert(grow_pos(o, INDIRECT1_BOUND as int) >= 2);
            if o <= DIRECT_BOUND {
                assert(grow_pos(o, INDIRECT1_BOUND as int) - 2 > DIRECT_BOUND - o);
            }
        } else {
            assert(index_path_ok(di, disk, INDIRECT1_BOUND as int));
            assert(is_index_block(di, disk, di.indirect2 as int));
        }
    }
    assert forall|a: int| 0 <= a < children_count(m) implies #[trigger] grown_child(di, disk, nb, o, a) < disk.len()
        && grown_child(di, disk, nb, o, a) != ind1 && grown_child(di, disk, nb, o, a) != ind2 by {
        lemma_child_range(m, a);
        let i = INDIRECT1_BOUND + 128 * a;
        if i >= o {
            lemma_children_taken_mono(o, o, i);
            assert(children_taken(o, i) >= 1) by {
                lemma_child_first(o, a);
            }
            let k = grow_pos(o, i) - 1;
            assert(0 <= k < nb.len());
            if o <= DIRECT_BOUND {
                lemma_grow_pos_mono(o, DIRECT_BOUND as int, i);
                assert(k != DIRECT_BOUND - o);
            }
            if o <= INDIRECT1_BOUND {
                if i > INDIRECT1_BOUND {
                    lemma_grow_pos_mono(o, INDIRECT1_BOUND as int, i);
                }
                assert(k != grow_pos(o, INDIRECT1_BOUND as int) - 2);
            }
        } else {
            lemma_child_range(o, a);
            lemma_coords_2(a, 0);
            assert(index_path_ok(di, disk, i));
            assert(inode_blocks(di) == o);
            assert(is_index_block(di, disk, block_u32(disk, di.indirect2 as int, a) as int));
        }
    }
    assert forall|a: int, b: int|
        0 <= a < children_count(m) && 0 <= b < children_count(m) && a != b implies #[trigger] grown_child(
            di,
            disk,
            nb,
            o,
            a,
        ) != #[trigger] grown_child(di, disk, nb, o, b) by {
        let ia = INDIRECT1_BOUND + 128 * a;
        let ib = INDIRECT1_BOUND + 128 * b;
        lemma_child_range(m, a);
        lemma_child_range(m, b);
        if ia >= o && ib >= o {
            lemma_child_first(o, a);
            lemma_child_first(o, b);
            if a < b {
                lemma_grow_pos_mono(o, ia, ib);
            } else {
                lemma_grow_pos_mono(o, ib, ia);
            }
            lemma_children_taken_mono(o, o, ia);
            lemma_children_taken_mono(o, o, ib);
        } else if ia < o && ib < o {
            lemma_child_range(o, a);
            lemma_child_range(o, b);
        } else if ia < o {
            lemma_child_range(o, a);
            lemma_child_first(o, b);
            lemma_children_taken_mono(o, o, ib);
            assert(is_index_block(di, disk, block_u32(disk, di.indirect2 as int, a) as int));
        } else {
            lemma_child_range(o, b);
            lemma_child_first(o, a);
            lemma_children_taken_mono(o, o, ia);
            assert(is_index_block(di, disk, block_u32(disk, di.indirect2 as int, b) as int));
        }
    }
}

/// Index block `a` of the second level is in use by an inode of `n` data
/// blocks exactly when its first inner block is below `n`.
proof fn lemma_child_range(n: int, a: int)
    requires
        0 <= a,
    ensures
        a < children_count(n) <==> INDIRECT1_BOUND + 128 * a < n,
{
    if n > INDIRECT1_BOUND {
        vstd::arithmetic::div_mod::lemma_fundamental_div_mod(n - 157, 128);
        vstd::arithmetic::div_mod::lemma_mod_bound(n - 157, 128);
        vstd::arithmetic::div_mod::lemma_fundamental_div_mod_converse(
            n - 156 + 127,
            128,
            (n - 157) / 128 + 1,
            (n - 157) % 128,
        );
    }
}

/// Growing from `o`, index block `a` of the second level is a new one when
/// its first inner block is at or past `o`; it is then counted among the
/// index blocks taken up to that inner block.
proof fn lemma_child_first(o: int, a: int)
    requires
        0 <= o,
        0 <= a,
        INDIRECT1_BOUND + 128 * a >= o,
    ensures
        children_taken(o, INDIRECT1_BOUND + 128 * a) >= 1,
{
    let i = INDIRECT1_BOUND + 128 * a;
    lemma_coords_2(a, 0);
    if o > INDIRECT1_BOUND {
        vstd::arithmetic::div_mod::lemma_div_is_ordered(o - 156 + 127, 128 * a + 127, 128);
        vstd::arithmetic::div_mod::lemma_fundamental_div_mod_converse(128 * a + 127, 128, a, 127);
    }
}

/// The entries of level-one index block `ind1` below `e_end` read as the
/// grown tree says.
pub open spec fn level1_done(
    disk: Seq<Seq<u8>>,
    ind1: u32,
    di: DiskInode,
    d0: Seq<Seq<u8>>,
    nb: Seq<u32>,
    o: int,
    e_end: int,
) -> bool {
    forall|e: int|
        0 <= e < e_end ==> #[trigger] block_u32(disk, ind1 as int, e) == grown_block(
            di,
            d0,
            nb,
            o,
            DIRECT_BOUND + e,
        )
}

/// The entries of `ind2` below `a_end` list the grown tree's second-level
/// index blocks.
pub open spec fn level2_index_done(
    disk: Seq<Seq<u8>>,
    ind2: u32,
    di: DiskInode,
    d0: Seq<Seq<u8>>,
    nb: Seq<u32>,
    o: int,
    a_end: int,
) -> bool {
    forall|a: int|
        0 <= a < a_end ==> #[trigger] block_u32(disk, ind2 as int, a) == grown_child(di, d0, nb, o, a)
}

/// The second-level entries for level-two indices below `k` read as the
/// grown tree says.
pub open spec fn level2_data_done(
    disk: Seq<Seq<u8>>,
    di: DiskInode,
    d0: Seq<Seq<u8>>,
    nb: Seq<u32>,
    o: int,
    k: int,
) -> bool {
    forall|a: int, b: int|
        #![trigger block_u32(disk, grown_child(di, d0, nb, o, a) as int, b)]
        0 <= a && 0 <= b < 128 && 128 * a + b < k ==> block_u32(
            disk,
            grown_child(di, d0, nb, o, a) as int,
            b,
        ) == grown_block(di, d0, nb, o, INDIRECT1_BOUND + 128 * a + b)
}

/// One more data block at the second level: the list position moves by
/// one, and by one more when a new index block starts there.
proof fn lemma_grow_pos_next(o: int, i: int)
    requires
        0 <= o <= i,
        INDIRECT1_BOUND <= i,
    ensures
        grow_pos(o, i + 1) == grow_pos(o, i) + 1 + if (i + 1 - INDIRECT1_BOUND) % 128 == 0 {
            1int
        } else {
            0int
        },
{
    let x = i - 156;
    vstd::arithmetic::div_mod::lemma_fundamental_div_mod(x, 128);
    vstd::arithmetic::div_mod::lemma_fundamental_div_mod(x + 1, 128);
    vstd::arithmetic::div_mod::lemma_mod_bound(x, 128);
    vstd::arithmetic::div_mod::lemma_mod_bound(x + 1, 128);
    if o > 156 {
        let y = o - 156;
        vstd::arithmetic::div_mod::lemma_div_is_ordered(y + 127, x + 128, 128);
        vstd::arithmetic::div_mod::lemma_div_plus_one(x, 128);
        vstd::arithmetic::div_mod::lemma_fundamental_div_mod(y + 127, 128);
        vstd::arithmetic::div_mod::lemma_mod_bound(y + 127, 128);
    }
}

/// The grown tree, once every level reads as it should, maps each inner
/// block to `grown_block`, and can be read.
proof fn lemma_grow_final(
    di0: DiskInode,
    di1: DiskInode,
    d0: Seq<Seq<u8>>,
    d1: Seq<Seq<u8>>,
    nb: Seq<u32>,
    o: int,
    m: int,
    new_size: u32,
)
    requires
        grow_fresh(di0, d0, nb),
        o == inode_blocks(di0),
        o < m,
        m == inode_blocks(di1),
        m <= INDIRECT2_BOUND,
        nb.len() == grow_pos(o, m - 1) + 1,
        fields_grown(di0, di1, nb, new_size),
        d1.len() == d0.len(),
        m > DIRECT_BOUND ==> level1_done(
            d1,
            di1.indirect1,
            di0,
            d0,
            nb,
            o,
            vstd::math::min(m, INDIRECT1_BOUND as int) - DIRECT_BOUND,
        ),
        m > INDIRECT1_BOUND ==> di1.indirect2 == grown_ind2(di0, nb, o, m) && level2_index_done(
            d1,
            di1.indirect2,
            di0,
            d0,
            nb,
            o,
            children_count(m),
        ) && level2_data_done(d1, di0, d0, nb, o, m - INDIRECT1_BOUND),
    ensures
        inode_readable(di1, d1),
        forall|i: int|
            0 <= i < m ==> #[trigger] inode_block_id(di1, d1, i) == grown_block(di0, d0, nb, o, i),
{
    lemma_grown_distinct(di0, d0, nb, o, m);
    assert forall|i: int| 0 <= i < m implies #[trigger] inode_block_id(di1, d1, i) == grown_block(
        di0,
        d0,
        nb,
        o,
        i,
    ) && index_path_ok(di1, d1, i) && inode_block_id(di1, d1, i) < d1.len() by {
        if i < o {
            assert(index_path_ok(di0, d0, i));
        }
        if i < DIRECT_BOUND {
            if i >= o {
                assert(index_taken(o, i) == 0);
            }
        } else if i < INDIRECT1_BOUND {
            assert(di1.indirect1 == grown_ind1(di0, nb, o, m));
            assert(block_u32(d1, di1.indirect1 as int, i - DIRECT_BOUND) == grown_block(di0, d0, nb, o, i));
        } else {
            let x = i - INDIRECT1_BOUND;
            let a = x / 128;
            let b = x % 128;
            vstd::arithmetic::div_mod::lemma_fundamental_div_mod(x, 128);
            vstd::arithmetic::div_mod::lemma_mod_bound(x, 128);
            assert(INDIRECT1_BOUND + 128 * a <= i);
            lemma_child_range(m, a);
            assert(block_u32(d1, di1.indirect2 as int, a) == grown_child(di0, d0, nb, o, a));
            assert(block_u32(d1, grown_child(di0, d0, nb, o, a) as int, b) == grown_block(
                di0,
                d0,
                nb,
                o,
                INDIRECT1_BOUND + 128 * a + b,
            ));
        }
        if i >= o {
            assert(0 <= grow_pos(o, i) < nb.len());
        }
    }
    assert(di1.size as int <= INDIRECT2_BOUND * BLOCK_SZ) by {
        vstd::arithmetic::div_mod::lemma_fundamental_div_mod(di1.size + 511, 512);
    }
}

/// At the start of the second level, the entries already there read as the
/// grown tree says.
proof fn lemma_level2_start(
    di0: DiskInode,
    d0: Seq<Seq<u8>>,
    d1: Seq<Seq<u8>>,
    nb: Seq<u32>,
    o: int,
    m: int,
    ind1: u32,
    ind2: u32,
    cur: int,
)
    requires
        grow_fresh(di0, d0, nb),
        o == inode_blocks(di0),
        o < m,
        INDIRECT1_BOUND < m <= INDIRECT2_BOUND,
        nb.len() == grow_pos(o, m - 1) + 1,
        d1.len() == d0.len(),
        ind1 == grown_ind1(di0, nb, o, m),
        ind2 == grown_ind2(di0, nb, o, m),
        forall|b: int| 0 <= b < d0.len() && b != ind1 ==> #[trigger] d1[b] == d0[b],
        cur == if o <= INDIRECT1_BOUND { 0 } else { o - INDIRECT1_BOUND },
    ensures
        level2_index_done(d1, ind2, di0, d0, nb, o, if cur % 128 != 0 { cur / 128 + 1 } else { cur / 128 }),
        level2_data_done(d1, di0, d0, nb, o, cur),
{
    lemma_grown_distinct(di0, d0, nb, o, m);
    vstd::arithmetic::div_mod::lemma_fundamental_div_mod(cur, 128);
    vstd::arithmetic::div_mod::lemma_mod_bound(cur, 128);
    if o > INDIRECT1_BOUND {
        assert(index_path_ok(di0, d0, INDIRECT1_BOUND as int));
        assert(ind2 == di0.indirect2);
        assert(d1[ind2 as int] == d0[ind2 as int]);
        let a_end = if cur % 128 != 0 { cur / 128 + 1 } else { cur / 128 };
        assert forall|a: int| 0 <= a < a_end implies #[trigger] block_u32(d1, ind2 as int, a) == grown_child(
            di0,
            d0,
            nb,
            o,
            a,
        ) by {
            assert(INDIRECT1_BOUND + 128 * a < o);
        }
        assert forall|a: int, b: int|
            #![trigger block_u32(d1, grown_child(di0, d0, nb, o, a) as int, b)]
            0 <= a && 0 <= b < 128 && 128 * a + b < cur implies block_u32(
                d1,
                grown_child(di0, d0, nb, o, a) as int,
                b,
            ) == grown_block(di0, d0, nb, o, INDIRECT1_BOUND + 128 * a + b) by {
            assert(INDIRECT1_BOUND + 128 * a < o);
            lemma_child_range(m, a);
            let c = grown_child(di0, d0, nb, o, a);
            assert(c != ind1);
            assert(d1[c as int] == d0[c as int]);
            lemma_coords_2(a, b);
            assert(index_path_ok(di0, d0, INDIRECT1_BOUND + 128 * a + b));
        }
    }
}

/// Listing second-level index block `a0` in `ind2` keeps what was done and
/// adds that entry.
proof fn lemma_level2_index_step(
    di0: DiskInode,
    d0: Seq<Seq<u8>>,
    dk: Seq<Seq<u8>>,
    d1: Seq<Seq<u8>>,
    nb: Seq<u32>,
    o: int,
    m: int,
    ind1: u32,
    ind2: u32,
    a0: int,
    child: u32,
)
    requires
        grow_fresh(di0, d0, nb),
        o == inode_blocks(di0),
        o < m,
        INDIRECT1_BOUND < m <= INDIRECT2_BOUND,
        nb.len() == grow_pos(o, m - 1) + 1,
        dk.len() == d0.len(),
        forall|b: int| 0 <= b < dk.len() ==> (#[trigger] dk[b]).len() == BLOCK_SZ,
        ind1 == grown_ind1(di0, nb, o, m),
        ind2 == grown_ind2(di0, nb, o, m),
        0 <= a0 < children_count(m),
        a0 < 128,
        child == grown_child(di0, d0, nb, o, a0),
        d1 == dk.update(ind2 as int, overwrite(dk[ind2 as int], 4 * a0, u32_bytes(child))),
        level1_done(dk, ind1, di0, d0, nb, o, INODE_INDIRECT1_COUNT as int),
        level2_index_done(dk, ind2, di0, d0, nb, o, a0),
        level2_data_done(dk, di0, d0, nb, o, 128 * a0),
    ensures
        d1.len() == d0.len(),
        level1_done(d1, ind1, di0, d0, nb, o, INODE_INDIRECT1_COUNT as int),
        level2_index_done(d1, ind2, di0, d0, nb, o, a0 + 1),
        level2_data_done(d1, di0, d0, nb, o, 128 * a0),
{
    lemma_grown_distinct(di0, d0, nb, o, m);
    assert forall|e: int| 0 <= e < INODE_INDIRECT1_COUNT implies #[trigger] block_u32(d1, ind1 as int, e)
        == grown_block(di0, d0, nb, o, DIRECT_BOUND + e) by {
        lemma_entry_store(dk, ind2 as int, a0, child, ind1 as int, e);
    }
    assert forall|a: int| 0 <= a < a0 + 1 implies #[trigger] block_u32(d1, ind2 as int, a) == grown_child(
        di0,
        d0,
        nb,
        o,
        a,
    ) by {
        lemma_entry_store(dk, ind2 as int, a0, child, ind2 as int, a);
    }
    assert forall|a: int, b: int|
        #![trigger block_u32(d1, grown_child(di0, d0, nb, o, a) as int, b)]
        0 <= a && 0 <= b < 128 && 128 * a + b < 128 * a0 implies block_u32(
            d1,
            grown_child(di0, d0, nb, o, a) as int,
            b,
        ) == grown_block(di0, d0, nb, o, INDIRECT1_BOUND + 128 * a + b) by {
        assert(a < a0);
        let c = grown_child(di0, d0, nb, o, a);
        lemma_entry_store(dk, ind2 as int, a0, child, c as int, b);
    }
}

/// Storing the data block for level-two index `128 * a0 + b0` keeps what
/// was done and adds that entry.
proof fn lemma_level2_data_step(
    di0: DiskInode,
    d0: Seq<Seq<u8>>,
    dk: Seq<Seq<u8>>,
    d1: Seq<Seq<u8>>,
    nb: Seq<u32>,
    o: int,
    m: int,
    ind1: u32,
    ind2: u32,
    a0: int,
    b0: int,
    child: u32,
    pos: int,
)
    requires
        grow_fresh(di0, d0, nb),
        o == inode_blocks(di0),
        o < m,
        INDIRECT1_BOUND < m <= INDIRECT2_BOUND,
        nb.len() == grow_pos(o, m - 1) + 1,
        dk.len() == d0.len(),
        forall|b: int| 0 <= b < dk.len() ==> (#[trigger] dk[b]).len() == BLOCK_SZ,
        ind1 == grown_ind1(di0, nb, o, m),
        ind2 == grown_ind2(di0, nb, o, m),
        0 <= a0,
        0 <= b0 < 128,
        INDIRECT1_BOUND + 128 * a0 + b0 < m,
        o <= INDIRECT1_BOUND + 128 * a0 + b0,
        child == grown_child(di0, d0, nb, o, a0),
        pos == grow_pos(o, INDIRECT1_BOUND + 128 * a0 + b0),
        d1 == dk.update(child as int, overwrite(dk[child as int], 4 * b0, u32_bytes(nb[pos]))),
        level1_done(dk, ind1, di0, d0, nb, o, INODE_INDIRECT1_COUNT as int),
        level2_index_done(dk, ind2, di0, d0, nb, o, a0 + 1),
        level2_data_done(dk, di0, d0, nb, o, 128 * a0 + b0),
    ensures
        d1.len() == d0.len(),
        level1_done(d1, ind1, di0, d0, nb, o, INODE_INDIRECT1_COUNT as int),
        level2_index_done(d1, ind2, di0, d0, nb, o, a0 + 1),
        level2_data_done(d1, di0, d0, nb, o, 128 * a0 + b0 + 1),
{
    lemma_grown_distinct(di0, d0, nb, o, m);
    lemma_child_range(m, a0);
    assert(child < dk.len());
    assert forall|e: int| 0 <= e < INODE_INDIRECT1_COUNT implies #[trigger] block_u32(d1, ind1 as int, e)
        == grown_block(di0, d0, nb, o, DIRECT_BOUND + e) by {
        lemma_entry_store(dk, child as int, b0, nb[pos], ind1 as int, e);
    }
    assert forall|a: int| 0 <= a < a0 + 1 implies #[trigger] block_u32(d1, ind2 as int, a) == grown_child(
        di0,
        d0,
        nb,
        o,
        a,
    ) by {
        lemma_entry_store(dk, child as int, b0, nb[pos], ind2 as int, a);
    }
    assert forall|a: int, b: int|
        #![trigger block_u32(d1, grown_child(di0, d0, nb, o, a) as int, b)]
        0 <= a && 0 <= b < 128 && 128 * a + b < 128 * a0 + b0 + 1 implies block_u32(
            d1,
            grown_child(di0, d0, nb, o, a) as int,
            b,
        ) == grown_block(di0, d0, nb, o, INDIRECT1_BOUND + 128 * a + b) by {
        let c = grown_child(di0, d0, nb, o, a);
        assert(a <= a0);
        lemma_child_range(m, a);
        lemma_entry_store(dk, child as int, b0, nb[pos], c as int, b);
        if a == a0 && b == b0 {
            assert(grown_block(di0, d0, nb, o, INDIRECT1_BOUND + 128 * a + b) == nb[pos]);
        }
    }
}


/// Growing from `o` past the start of the second level: the list position
/// of data block `o` counts the index block it needs only when `o` starts a
/// new one.
proof fn lemma_children_taken_at(o: int)
    requires
        o > INDIRECT1_BOUND,
    ensures
        children_taken(o, o) == if (o - INDIRECT1_BOUND) % 128 == 0 { 1int } else { 0int },
{
    let x = o - 156;
    vstd::arithmetic::div_mod::lemma_fundamental_div_mod(x, 128);
    vstd::arithmetic::div_mod::lemma_mod_bound(x, 128);
    vstd::arithmetic::div_mod::lemma_fundamental_div_mod(x + 127, 128);
    vstd::arithmetic::div_mod::lemma_mod_bound(x + 127, 128);
}

/// `children_count` of `156 + 128 * a + b` data blocks.
proof fn lemma_children_count_split(a: int, b: int)
    requires
        0 <= a,
        0 <= b < 128,
        128 * a + b > 0,
    ensures
        children_count(INDIRECT1_BOUND + 128 * a + b) == if b != 0 { a + 1 } else { a },
{
    let x = 128 * a + b + 127;
    if b != 0 {
        vstd::arithmetic::div_mod::lemma_fundamental_div_mod_converse(x, 128, a + 1, b - 1);
    } else {
        vstd::arithmetic::div_mod::lemma_fundamental_div_mod_converse(x, 128, a, 127);
    }
}

impl DiskInode {
    /// Grows the inode to `new_size` bytes. `new_blocks` are the blocks it
    /// takes, in order: new data blocks fill the direct entries, then the
    /// entries of `indirect1` (taking a block for `indirect1` itself first if
    /// it was not in use), then the second level, where `indirect2` and each
    /// index block it lists are taken just before their first data block.
    /// Where those blocks are fresh (`grow_fresh`), the grown block tree is
    /// exactly that: old data blocks stay where they were and new inner block
    /// `i` is the block at `grow_pos` in the list.
    #[verifier::spinoff_prover]
    #[verifier::rlimit(80)]
    pub fn increase_size<D: BlockDevice>(
        &mut self,
        new_size: u32,
        new_blocks: Vec<u32>,
        cache: &mut BlockCacheManager<D>,
    )
        requires
            old(cache).wf(),
            old(cache).has_room(),
            new_size >= old(self).size,
            ceil_blocks(new_size as nat) <= INDIRECT2_BOUND,
            new_blocks@.len() == total_blocks_of(new_size as nat) - total_blocks_of(old(self).size as nat),
        ensures
            final(cache).wf(),
            final(cache).has_room(),
            forall|b: int| #[trigger] final(cache).pins(b) == old(cache).pins(b),
            final(cache).num_blocks() == old(cache).num_blocks(),
            fields_grown(*old(self), *final(self), new_blocks@, new_size),
            grow_fresh(*old(self), old(cache).disk(), new_blocks@) ==> {
                &&& inode_readable(*final(self), final(cache).disk())
                &&& forall|i: int|
                    0 <= i < inode_blocks(*final(self)) ==> #[trigger] inode_block_id(
                        *final(self),
                        final(cache).disk(),
                        i,
                    ) == grown_block(
                        *old(self),
                        old(cache).disk(),
                        new_blocks@,
                        inode_blocks(*old(self)),
                        i,
                    )
            },
    {
        proof {
            cache.lemma_disk_sized();
            lemma_grow_count(old(self).size as nat, new_size as nat);
            lemma_total_blocks_monotonic(old(self).size as nat, new_size as nat);
        }
        let ghost o = inode_blocks(*self);
        let ghost m = ceil_blocks(new_size as nat) as int;
        let ghost d0 = cache.disk();
        let ghost nb = new_blocks@;
        let ghost di0 = *self;
        let ghost fresh = grow_fresh(*self, d0, nb);
        if Self::_data_blocks(new_size) == self.data_blocks() {
            self.size = new_size;
            proof {
                assert(o == m);
                assert forall|i: int| 0 <= i < m implies #[trigger] inode_block_id(*self, d0, i) == inode_block_id(
                    di0,
                    d0,
                    i,
                ) && index_path_ok(*self, d0, i) == index_path_ok(di0, d0, i) by {}
                if fresh {
                    assert(self.size as int <= INDIRECT2_BOUND * BLOCK_SZ) by {
                        vstd::arithmetic::div_mod::lemma_fundamental_div_mod(new_size + 511, 512);
                    }
                    assert forall|i: int| 0 <= i < inode_blocks(*self) implies #[trigger] index_path_ok(*self, d0, i)
                        && inode_block_id(*self, d0, i) < d0.len() by {
                        assert(index_path_ok(di0, d0, i));
                    }
                }
            }
            return;
        }
        proof {
            vstd::arithmetic::div_mod::lemma_div_is_ordered(
                old(self).size + 511,
                new_size + 511,
                512,
            );
            assert(o < m);
            lemma_grow_count_exact(old(self).size as nat, new_size as nat);
            if fresh {
                lemma_grown_distinct(di0, d0, nb, o, m);
            }
        }
        let count = new_blocks.len();
        let n = cache.block_count();
        let mut current_blocks = self.data_blocks();
        self.size = new_size;
        let mut total_blocks = self.data_blocks();
        let mut next: usize = 0;
        while current_blocks < total_blocks && current_blocks < INODE_DIRECT_COUNT as u32
            invariant
                current_blocks <= total_blocks,
                total_blocks == ceil_blocks(new_size as nat),
                self.size == new_size,
                self.type_ == old(self).type_,
                self.indirect1 == old(self).indirect1,
                self.indirect2 == old(self).indirect2,
                o == ceil_blocks(old(self).size as nat),
                o <= current_blocks,
                current_blocks <= INODE_DIRECT_COUNT || current_blocks == o,
                next == current_blocks - o,
                count == new_blocks@.len(),
                count >= total_blocks - o + if o <= DIRECT_BOUND < total_blocks { 1int } else { 0int },
                forall|i: int| 0 <= i < INODE_DIRECT_COUNT && i < o ==> #[trigger] self.direct@[i] == old(self).direct@[i],
                forall|i: int| o <= i < INODE_DIRECT_COUNT && i < current_blocks ==> #[trigger] self.direct@[i] == new_blocks@[i - o],
                forall|i: int| 0 <= i < INODE_DIRECT_COUNT && i >= current_blocks ==> #[trigger] self.direct@[i] == old(self).direct@[i],
            decreases total_blocks - current_blocks,
        {
            self.direct[current_blocks as usize] = new_blocks[next];
            next = next + 1;
            current_blocks = current_blocks + 1;
        }
        if total_blocks <= INODE_DIRECT_COUNT as u32 {
            proof {
                if fresh {
                    lemma_grow_final(di0, *self, d0, cache.disk(), nb, o, m, new_size);
                }
            }
            return;
        }
        if current_blocks == INODE_DIRECT_COUNT as u32 {
            self.indirect1 = new_blocks[next];
            next = next + 1;
        }
        let ghost fixed = *self;
        assert(fields_grown(*old(self), *self, new_blocks@, new_size));
        current_blocks = current_blocks - INODE_DIRECT_COUNT as u32;
        total_blocks = total_blocks - INODE_DIRECT_COUNT as u32;
        let indirect1 = self.indirect1;
        proof {
            if fresh {
                assert(indirect1 == grown_ind1(di0, nb, o, m));
            }
        }
        if indirect1 as usize >= n {
            return;
        }
        while current_blocks < total_blocks && current_blocks < INODE_INDIRECT1_COUNT as u32
            invariant
                cache.wf(),
                cache.has_room(),
                forall|b: int| #[trigger] cache.pins(b) == old(cache).pins(b),
                cache.num_blocks() == old(cache).num_blocks(),
                n == cache.num_blocks(),
                indirect1 < n,
                *self == fixed,
                fields_grown(*old(self), *self, new_blocks@, new_size),
                current_blocks <= total_blocks,
                total_blocks == m - DIRECT_BOUND,
                count == new_blocks@.len(),
                count == grow_pos(o, m - 1) + 1,
                fresh == grow_fresh(di0, d0, nb),
                d0 == old(cache).disk(),
                nb == new_blocks@,
                di0 == *old(self),
                o == inode_blocks(di0),
                o < m <= INDIRECT2_BOUND,
                m == inode_blocks(*self),
                o <= current_blocks + DIRECT_BOUND,
                current_blocks <= INODE_INDIRECT1_COUNT || current_blocks + DIRECT_BOUND == o,
                fresh ==> {
                    &&& next == current_blocks + DIRECT_BOUND - o + if o <= DIRECT_BOUND { 1int } else { 0int }
                    &&& indirect1 == grown_ind1(di0, nb, o, m)
                    &&& level1_done(cache.disk(), indirect1, di0, d0, nb, o, vstd::math::min(current_blocks as int, 128))
                    &&& forall|b: int| 0 <= b < d0.len() && b != indirect1 ==> #[trigger] cache.disk()[b] == d0[b]
                    &&& cache.disk().len() == d0.len()
                },
            decreases total_blocks - current_blocks,
        {
            proof {
                if fresh {
                    let c = current_blocks + DIRECT_BOUND;
                    assert(index_taken(o, c as int) == if o <= DIRECT_BOUND { 1int } else { 0int });
                    assert(grow_pos(o, c as int) == next);
                    if c < m - 1 {
                        lemma_grow_pos_mono(o, c as int, m - 1);
                    }
                }
            }
            if next >= count {
                return;
            }
            let ghost dk = cache.disk();
            proof {
                cache.lemma_disk_sized();
            }
            write_entry(cache, indirect1, current_blocks as usize, new_blocks[next]);
            proof {
                if fresh {
                    cache.lemma_disk_sized();
                    assert forall|e: int| 0 <= e < current_blocks + 1 implies #[trigger] block_u32(
                        cache.disk(),
                        indirect1 as int,
                        e,
                    ) == grown_block(di0, d0, nb, o, DIRECT_BOUND + e) by {
                        lemma_entry_store(dk, indirect1 as int, current_blocks as int, nb[next as int], indirect1 as int, e);
                    }
                    assert forall|b: int| 0 <= b < d0.len() && b != indirect1 implies #[trigger] cache.disk()[b] == d0[b] by {
                        assert(cache.disk()[b] == dk[b]);
                    }
                }
            }
            next = next + 1;
            current_blocks = current_blocks + 1;
        }
        if total_blocks <= INODE_INDIRECT1_COUNT as u32 {
            proof {
                if fresh {
                    lemma_grow_final(di0, *self, d0, cache.disk(), nb, o, m, new_size);
                }
            }
            return;
        }
        proof {
            if fresh && o <= INDIRECT1_BOUND {
                assert(children_taken(o, INDIRECT1_BOUND as int) == 1);
                assert(next == grow_pos(o, INDIRECT1_BOUND as int) - 2);
                if INDIRECT1_BOUND < m - 1 {
                    lemma_grow_pos_mono(o, INDIRECT1_BOUND as int, m - 1);
                }
            }
        }
        if current_blocks == INODE_INDIRECT1_COUNT as u32 {
            if next >= count {
                return;
            }
            self.indirect2 = new_blocks[next];
            next = next + 1;
        }
        let ghost fixed2 = *self;
        assert(fields_grown(*old(self), *self, new_blocks@, new_size));
        current_blocks = current_blocks - INODE_INDIRECT1_COUNT as u32;
        total_blocks = total_blocks - INODE_INDIRECT1_COUNT as u32;
        let indirect2 = self.indirect2;
        proof {
            if fresh {
                assert(indirect2 == grown_ind2(di0, nb, o, m));
            }
        }
        if indirect2 as usize >= n {
            return;
        }
        let mut a0 = current_blocks as usize / INODE_INDIRECT1_COUNT;
        let mut b0 = current_blocks as usize % INODE_INDIRECT1_COUNT;
        let a1 = total_blocks as usize / INODE_INDIRECT1_COUNT;
        let b1 = total_blocks as usize % INODE_INDIRECT1_COUNT;
        proof {
            vstd::arithmetic::div_mod::lemma_div_is_ordered(total_blocks as int, 16384, 128);
            vstd::arithmetic::div_mod::lemma_div_is_ordered(current_blocks as int, total_blocks as int, 128);
            vstd::arithmetic::div_mod::lemma_fundamental_div_mod(total_blocks as int, 128);
            vstd::arithmetic::div_mod::lemma_fundamental_div_mod(current_blocks as int, 128);
            vstd::arithmetic::div_mod::lemma_mod_bound(current_blocks as int, 128);
            if fresh {
                lemma_level2_start(di0, d0, cache.disk(), nb, o, m, indirect1, indirect2, current_blocks as int);
                if o > INDIRECT1_BOUND {
                    lemma_children_taken_at(o);
                }
            }
        }
        let mut child: u32 = 0;
        if b0 != 0 {
            let entries = read_entries(cache, indirect2, a0 + 1);
            child = entries[a0];
            proof {
                if fresh {
                    assert(block_u32(cache.disk(), indirect2 as int, a0 as int) == grown_child(di0, d0, nb, o, a0 as int));
                }
            }
        }
        while a0 < a1 || (a0 == a1 && b0 < b1)
            invariant
                cache.wf(),
                cache.has_room(),
                forall|b: int| #[trigger] cache.pins(b) == old(cache).pins(b),
                cache.num_blocks() == old(cache).num_blocks(),
                n == cache.num_blocks(),
                indirect2 < n,
                *self == fixed2,
                fields_grown(*old(self), *self, new_blocks@, new_size),
                a0 <= a1 <= 128,
                b0 < 128,
                b1 < 128,
                a1 * 128 + b1 <= 16384,
                a1 * 128 + b1 == m - INDIRECT1_BOUND,
                count == new_blocks@.len(),
                count == grow_pos(o, m - 1) + 1,
                fresh == grow_fresh(di0, d0, nb),
                d0 == old(cache).disk(),
                nb == new_blocks@,
                di0 == *old(self),
                o == inode_blocks(di0),
                o < m <= INDIRECT2_BOUND,
                m == inode_blocks(*self),
                o <= INDIRECT1_BOUND + a0 * 128 + b0,
                fresh ==> {
                    &&& indirect1 == grown_ind1(di0, nb, o, m)
                    &&& indirect2 == grown_ind2(di0, nb, o, m)
                    &&& self.indirect2 == indirect2
                    &&& next == grow_pos(o, INDIRECT1_BOUND + a0 * 128 + b0) - if b0 == 0 { 1int } else { 0int }
                    &&& b0 != 0 ==> child == grown_child(di0, d0, nb, o, a0 as int)
                    &&& level1_done(cache.disk(), indirect1, di0, d0, nb, o, INODE_INDIRECT1_COUNT as int)
                    &&& level2_index_done(cache.disk(), indirect2, di0, d0, nb, o, if b0 != 0 { a0 + 1 } else { a0 as int })
                    &&& level2_data_done(cache.disk(), di0, d0, nb, o, a0 * 128 + b0)
                    &&& cache.disk().len() == d0.len()
                },
            decreases (a1 * 128 + b1) - (a0 * 128 + b0),
        {
            let ghost k = a0 * 128 + b0;
            proof {
                cache.lemma_disk_sized();
                if fresh {
                    lemma_grown_distinct(di0, d0, nb, o, m);
                    lemma_child_range(m, a0 as int);
                    if INDIRECT1_BOUND + k < m - 1 {
                        lemma_grow_pos_mono(o, INDIRECT1_BOUND + k, m - 1);
                    }
                }
            }
            if b0 == 0 {
                if next >= count {
                    return;
                }
                child = new_blocks[next];
                proof {
                    if fresh {
                        assert(child == grown_child(di0, d0, nb, o, a0 as int));
                    }
                }
                next = next + 1;
                let ghost dk = cache.disk();
                proof {
                    cache.lemma_disk_sized();
                }
                write_entry(cache, indirect2, a0, child);
                proof {
                    if fresh {
                        lemma_level2_index_step(di0, d0, dk, cache.disk(), nb, o, m, indirect1, indirect2, a0 as int, child);
                    }
                }
            }
            if next >= count || child as usize >= n {
                return;
            }
            let ghost dk2 = cache.disk();
            proof {
                cache.lemma_disk_sized();
            }
            write_entry(cache, child, b0, new_blocks[next]);
            proof {
                if fresh {
                    lemma_level2_data_step(di0, d0, dk2, cache.disk(), nb, o, m, indirect1, indirect2, a0 as int, b0 as int, child, next as int);
                    lemma_grow_pos_next(o, INDIRECT1_BOUND + k);
                    vstd::arithmetic::div_mod::lemma_fundamental_div_mod_converse(k + 1, 128, if b0 + 1 == 128 { a0 + 1 } else { a0 as int }, if b0 + 1 == 128 { 0 } else { b0 + 1 });
                }
            }
            next = next + 1;
            b0 = b0 + 1;
            if b0 == INODE_INDIRECT1_COUNT {
                b0 = 0;
                a0 = a0 + 1;
            }
        }
        proof {
            if fresh {
                lemma_children_count_split(a0 as int, b0 as int);
                lemma_grow_final(di0, *self, d0, cache.disk(), nb, o, m, new_size);
            }
        }
    }

    /// Shrinks the inode to size 0 and returns every block it used: the data
    /// blocks and the index blocks (`indirect1`, `indirect2` and the index
    /// blocks `indirect2` lists).
    pub fn clear_size<D: BlockDevice>(&mut self, cache: &mut BlockCacheManager<D>) -> (r: Vec<u32>)
        requires
            old(cache).wf(),
            old(cache).has_room(),
            inode_readable(*old(self), old(cache).disk()),
        ensures
            final(cache).wf(),
            final(cache).has_room(),
            forall|b: int| #[trigger] final(cache).pins(b) == old(cache).pins(b),
            final(cache).num_blocks() == old(cache).num_blocks(),
            final(cache).disk() == old(cache).disk(),
            final(self).size == 0,
            final(self).type_ == old(self).type_,
            forall|i: int| 0 <= i < INODE_DIRECT_COUNT ==> #[trigger] final(self).direct@[i] == if i < inode_blocks(*old(self)) {
                0
            } else {
                old(self).direct@[i]
            },
            final(self).indirect1 == if inode_blocks(*old(self)) > DIRECT_BOUND { 0 } else { old(self).indirect1 },
            final(self).indirect2 == if inode_blocks(*old(self)) > INDIRECT1_BOUND { 0 } else { old(self).indirect2 },
            r@.len() == total_blocks_of(old(self).size as nat),
            forall|i: int| 0 <= i < inode_blocks(*old(self)) ==> r@.contains(#[trigger] inode_block_id(*old(self), old(cache).disk(), i)),
            forall|b: int| #[trigger] is_index_block(*old(self), old(cache).disk(), b) ==> r@.contains(b as u32),
    {
        let ghost d = cache.disk();
        let ghost di = *self;
        let mut v: Vec<u32> = Vec::new();
        let mut data_blocks = self.data_blocks() as usize;
        self.size = 0;
        let mut current_blocks: usize = 0;
        while current_blocks < data_blocks && current_blocks < INODE_DIRECT_COUNT
            invariant
                data_blocks == inode_blocks(di),
                current_blocks <= data_blocks,
                current_blocks <= INODE_DIRECT_COUNT,
                self.size == 0,
                self.type_ == di.type_,
                self.indirect1 == di.indirect1,
                self.indirect2 == di.indirect2,
                v@.len() == current_blocks,
                forall|i: int| 0 <= i < current_blocks ==> #[trigger] v@[i] == di.direct@[i],
                forall|i: int| 0 <= i < INODE_DIRECT_COUNT ==> #[trigger] self.direct@[i] == if i < current_blocks {
                    0
                } else {
                    di.direct@[i]
                },
            decreases data_blocks - current_blocks,
        {
            v.push(self.direct[current_blocks]);
            self.direct[current_blocks] = 0;
            current_blocks = current_blocks + 1;
        }
        assert forall|i: int| 0 <= i < current_blocks implies v@.contains(#[trigger] inode_block_id(di, d, i)) by {
            assert(v@[i] == inode_block_id(di, d, i));
        }
        if data_blocks <= INODE_DIRECT_COUNT {
            proof {
                assert forall|b: int| #[trigger] is_index_block(di, d, b) implies v@.contains(b as u32) by {}
            }
            return v;
        }
        assert(index_path_ok(di, d, DIRECT_BOUND as int));
        proof {
            cache.lemma_disk_sized();
        }
        let ghost v_direct = v@;
        assert(v_direct.len() == 28);
        v.push(self.indirect1);
        data_blocks = data_blocks - INODE_DIRECT_COUNT;
        let take1 = if data_blocks < INODE_INDIRECT1_COUNT { data_blocks } else { INODE_INDIRECT1_COUNT };
        let entries = read_entries(cache, self.indirect1, take1);
        let mut k: usize = 0;
        while k < take1
            invariant
                cache.disk() == d,
                k <= take1 <= INODE_INDIRECT1_COUNT,
                entries@.len() == take1,
                forall|j: int| 0 <= j < take1 ==> #[trigger] entries@[j] == block_u32(d, di.indirect1 as int, j),
                v@.len() == 29 + k,
                v@[28] == di.indirect1,
                forall|i: int| 0 <= i < 28 ==> #[trigger] v@[i] == v_direct[i],
                forall|j: int| 0 <= j < k ==> #[trigger] v@[29 + j] == entries@[j],
            decreases take1 - k,
        {
            v.push(entries[k]);
            k = k + 1;
        }
        self.indirect1 = 0;
        proof {
            assert forall|i: int| 0 <= i < 28 + take1 implies v@.contains(#[trigger] inode_block_id(di, d, i)) by {
                if i < 28 {
                    assert(v@[i] == inode_block_id(di, d, i));
                } else {
                    assert(v@[29 + (i - 28)] == inode_block_id(di, d, i));
                }
            }
            assert(v@[28] == di.indirect1);
        }
        if data_blocks <= INODE_INDIRECT1_COUNT {
            proof {
                assert forall|b: int| #[trigger] is_index_block(di, d, b) implies v@.contains(b as u32) by {
                    assert(v@[28] == di.indirect1);
                }
            }
            return v;
        }
        assert(index_path_ok(di, d, INDIRECT1_BOUND as int));
        v.push(self.indirect2);
        data_blocks = data_blocks - INODE_INDIRECT1_COUNT;
        let a1 = data_blocks / INODE_INDIRECT1_COUNT;
        let b1 = data_blocks % INODE_INDIRECT1_COUNT;
        proof {
            vstd::arithmetic::div_mod::lemma_fundamental_div_mod(data_blocks as int, 128);
            vstd::arithmetic::div_mod::lemma_div_is_ordered(data_blocks as int, 16384, 128);
        }
        let nchildren = if b1 > 0 { a1 + 1 } else { a1 };
        let children = read_entries(cache, self.indirect2, nchildren);
        let ghost v2 = v@;
        let mut a: usize = 0;
        while a < nchildren
            invariant
                cache.wf(),
                cache.has_room(),
                forall|b: int| #[trigger] cache.pins(b) == old(cache).pins(b),
                cache.disk() == d,
                cache.num_blocks() == old(cache).num_blocks(),
                d.len() == cache.num_blocks(),
                inode_readable(di, d),
                data_blocks == inode_blocks(di) - 156,
                data_blocks == 128 * a1 + b1,
                b1 < 128,
                nchildren == if b1 > 0 { a1 + 1 } else { a1 as int },
                nchildren <= 128,
                a <= nchildren,
                children@.len() == nchildren,
                forall|j: int| 0 <= j < nchildren ==> #[trigger] children@[j] == block_u32(d, di.indirect2 as int, j),
                v2.len() == 158,
                v@.len() == if a <= a1 { 158 + 129 * a } else { 158 + 129 * a1 + 1 + b1 },
                forall|i: int| 0 <= i < 158 ==> #[trigger] v@[i] == v2[i],
                forall|x: int, j: int| 0 <= x < a && 0 <= j < 128 && 128 * x + j < data_blocks ==> #[trigger] v@[159 + 129 * x + j]
                    == inode_block_id(di, d, 156 + 128 * x + j),
                forall|x: int| 0 <= x < a ==> #[trigger] v@[158 + 129 * x] == children@[x],
            decreases nchildren - a,
        {
            let child = children[a];
            proof {
                assert(index_path_ok(di, d, 156 + 128 * a));
                assert((128 * a as int) / 128 == a) by {
                    vstd::arithmetic::div_mod::lemma_div_multiples_vanish(a as int, 128);
                }
            }
            let ghost base = v@;
            v.push(child);
            let cnt = if a < a1 { INODE_INDIRECT1_COUNT } else { b1 };
            let es = read_entries(cache, child, cnt);
            let mut j: usize = 0;
            while j < cnt
                invariant
                    j <= cnt <= 128,
                    es@.len() == cnt,
                    base.len() == 158 + 129 * a,
                    v@.len() == 159 + 129 * a + j,
                    forall|i: int| 0 <= i < base.len() ==> #[trigger] v@[i] == base[i],
                    v@[158 + 129 * a] == child,
                    forall|t: int| 0 <= t < j ==> #[trigger] v@[159 + 129 * a + t] == es@[t],
                decreases cnt - j,
            {
                v.push(es[j]);
                j = j + 1;
            }
            proof {
                assert forall|x: int, t: int| 0 <= x < a + 1 && 0 <= t < 128 && 128 * x + t < data_blocks
                    implies #[trigger] v@[159 + 129 * x + t] == inode_block_id(di, d, 156 + 128 * x + t) by {
                    lemma_coords_2(x, t);
                    if x < a {
                        assert(v@[159 + 129 * x + t] == base[159 + 129 * x + t]);
                    } else {
                        assert(t < cnt);
                        assert(v@[159 + 129 * a + t] == es@[t]);
                    }
                }
                assert forall|x: int| 0 <= x < a + 1 implies #[trigger] v@[158 + 129 * x] == children@[x] by {
                    if x < a {
                        assert(v@[158 + 129 * x] == base[158 + 129 * x]);
                    }
                }
            }
            a = a + 1;
        }
        self.indirect2 = 0;
        proof {
            let n = inode_blocks(di);
            assert(v@.len() == total_blocks_of(di.size as nat)) by {
                vstd::arithmetic::div_mod::lemma_fundamental_div_mod_converse(
                    data_blocks + 127,
                    128,
                    nchildren as int,
                    if b1 > 0 { b1 - 1 } else { 127 },
                );
                if b1 > 0 {
                    assert(a == a1 + 1);
                }
            }
            assert forall|i: int| 0 <= i < n implies v@.contains(#[trigger] inode_block_id(di, d, i)) by {
                if i < 28 {
                    assert(v@[i] == inode_block_id(di, d, i));
                } else if i < 156 {
                    assert(v@[29 + (i - 28)] == inode_block_id(di, d, i));
                } else {
                    let x = (i - 156) / 128;
                    let t = (i - 156) % 128;
                    vstd::arithmetic::div_mod::lemma_fundamental_div_mod(i - 156, 128);
                    vstd::arithmetic::div_mod::lemma_mod_bound(i - 156, 128);
                    vstd::arithmetic::div_mod::lemma_div_is_ordered(i - 156, data_blocks - 1, 128);
                    assert(0 <= x < a);
                    assert(v@[159 + 129 * x + t] == inode_block_id(di, d, 156 + 128 * x + t));
                }
            }
            assert forall|b: int| #[trigger] is_index_block(di, d, b) implies v@.contains(b as u32) by {
                if n > 156 && exists|x: int| 0 <= x < (n - 156 + 127) / 128 && b == #[trigger] block_u32(d, di.indirect2 as int, x) {
                    let x = choose|x: int| 0 <= x < (n - 156 + 127) / 128 && b == #[trigger] block_u32(d, di.indirect2 as int, x);
                    assert(v@[158 + 129 * x] == children@[x]);
                } else if b == di.indirect2 && n > 156 {
                    assert(v@[157] == di.indirect2);
                } else {
                    assert(v@[28] == di.indirect1);
                }
            }
        }
        v
    }
}

/// A directory entry: a name of at most 27 bytes, zero-padded to 28, and an
/// inode number.
#[derive(Clone, Copy)]
pub struct DirEntry {
    name: [u8; 28],
    inode_number: u32,
}

/// The bytes of a name field: the name, then zeros up to 28 bytes.
pub open spec fn name_field(name: Seq<u8>) -> Seq<u8> {
    Seq::new(28, |i: int| if i < name.len() { name[i] } else { 0u8 })
}

/// The name held in a name field: the bytes before the first zero.
pub open spec fn field_name(field: Seq<u8>) -> Seq<u8> {
    let n = if exists|i: int| 0 <= i < field.len() && field[i] == 0 {
        choose|i: int| 0 <= i < field.len() && field[i] == 0 && forall|j: int| 0 <= j < i ==> field[j] != 0
    } else {
        field.len() as int
    };
    field.subrange(0, n)
}

/// A valid name: at most 27 bytes, none of them zero.
pub open spec fn valid_name(name: Seq<u8>) -> bool {
    name.len() <= NAME_LENGTH_LIMIT && forall|i: int| 0 <= i < name.len() ==> #[trigger] name[i] != 0
}

impl DirEntry {
    pub closed spec fn field(&self) -> Seq<u8> {
        self.name@
    }

    /// The entry's name.
    pub open spec fn spec_name(&self) -> Seq<u8> {
        field_name(self.field())
    }

    /// The inode the entry points at.
    pub closed spec fn spec_inode(&self) -> u32 {
        self.inode_number
    }

    /// The record's bytes: the name field, then the inode number.
    pub open spec fn bytes(&self) -> Seq<u8> {
        self.field() + u32_bytes(self.spec_inode())
    }

    /// An entry with an empty name and inode number 0.
    pub fn empty() -> (r: Self)
        ensures
            r.field() == Seq::new(28, |i: int| 0u8),
            r.spec_inode() == 0,
    {
        let name: [u8; 28] = [0u8; 28];
        assert(name@ =~= Seq::new(28, |i: int| 0u8));
        DirEntry { name, inode_number: 0 }
    }

    /// An entry for `name` pointing at `inode_number`.
    pub fn new(name: &[u8], inode_number: u32) -> (r: Self)
        requires
            valid_name(name@),
        ensures
            r.field() == name_field(name@),
            r.spec_name() == name@,
            r.spec_inode() == inode_number,
    {
        let mut field: [u8; 28] = [0u8; 28];
        let mut i: usize = 0;
        while i < name.len()
            invariant
                name@.len() <= 27,
                i <= name@.len(),
                forall|k: int| 0 <= k < i ==> #[trigger] field@[k] == name@[k],
                forall|k: int| i <= k < 28 ==> #[trigger] field@[k] == 0,
            decreases name@.len() - i,
        {
            field[i] = name[i];
            i = i + 1;
        }
        let r = DirEntry { name: field, inode_number };
        proof {
            assert(field@ =~= name_field(name@));
            lemma_field_name(name@);
        }
        r
    }

    /// The entry's name.
    pub fn name(&self) -> (r: Vec<u8>)
        ensures
            r@ == self.spec_name(),
    {
        let mut n: usize = 0;
        while n < 28 && self.name[n] != 0
            invariant
                n <= 28,
                forall|j: int| 0 <= j < n ==> self.name@[j] != 0,
            decreases 28 - n,
        {
            n = n + 1;
        }
        let mut out: Vec<u8> = Vec::new();
        let mut i: usize = 0;
        while i < n
            invariant
                i <= n <= 28,
                out@ == self.name@.subrange(0, i as int),
            decreases n - i,
        {
            out.push(self.name[i]);
            i = i + 1;
            assert(out@ =~= self.name@.subrange(0, i as int));
        }
        proof {
            let f = self.name@;
            if n < 28 {
                assert(exists|i: int| 0 <= i < f.len() && f[i] == 0);
                let c = choose|i: int| 0 <= i < f.len() && f[i] == 0 && forall|j: int| 0 <= j < i ==> f[j] != 0;
                assert(f[n as int] == 0);
                if c < n {
                    assert(f[c] != 0);
                } else if c > n {
                    assert(f[n as int] != 0);
                }
            } else {
                assert(!exists|i: int| 0 <= i < f.len() && f[i] == 0);
            }
        }
        out
    }

    /// The inode the entry points at.
    pub fn inode_number(&self) -> (r: u32)
        ensures
            r == self.spec_inode(),
    {
        self.inode_number
    }

    /// The record's bytes.
    pub fn as_bytes(&self) -> (r: Vec<u8>)
        ensures
            r@ == self.bytes(),
            r@.len() == DIRENT_SZ,
    {
        let mut out: Vec<u8> = Vec::new();
        let mut i: usize = 0;
        while i < 28
            invariant
                i <= 28,
                out@ == self.name@.subrange(0, i as int),
            decreases 28 - i,
        {
            out.push(self.name[i]);
            i = i + 1;
            assert(out@ =~= self.name@.subrange(0, i as int));
        }
        put_u32(&mut out, self.inode_number);
        assert(self.name@.subrange(0, 28) =~= self.name@);
        out
    }

    /// The entry stored in `bytes` from `at` on.
    pub fn decode(bytes: &[u8], at: usize) -> (r: DirEntry)
        requires
            at + DIRENT_SZ <= bytes@.len(),
        ensures
            r.field() == bytes@.subrange(at as int, at + 28),
            r.spec_inode() == le_u32(bytes@, at + 28),
    {
        let n = bytes.len();
        let mut field: [u8; 28] = [0u8; 28];
        let mut i: usize = 0;
        while i < 28
            invariant
                n == bytes@.len(),
                at + DIRENT_SZ <= bytes@.len(),
                i <= 28,
                forall|k: int| 0 <= k < i ==> #[trigger] field@[k] == bytes@[at + k],
            decreases 28 - i,
        {
            field[i] = bytes[at + i];
            i = i + 1;
        }
        assert(field@ =~= bytes@.subrange(at as int, at + 28));
        DirEntry { name: field, inode_number: get_u32(bytes, at + 28) }
    }
}

/// The name read back from the field of a valid name is that name.
pub proof fn lemma_field_name(name: Seq<u8>)
    requires
        valid_name(name),
    ensures
        field_name(name_field(name)) == name,
{
    let f = name_field(name);
    let n = name.len() as int;
    assert(f[n] == 0);
    assert(exists|i: int| 0 <= i < f.len() && f[i] == 0);
    let c = choose|i: int| 0 <= i < f.len() && f[i] == 0 && forall|j: int| 0 <= j < i ==> f[j] != 0;
    assert(0 <= c < f.len() && f[c] == 0 && forall|j: int| 0 <= j < c ==> f[j] != 0) by {
        assert(0 <= n < f.len() && f[n] == 0 && forall|j: int| 0 <= j < n ==> f[j] != 0);
    }
    if c < n {
        assert(f[c] == name[c]);
    } else if c > n {
        assert(f[n] != 0);
    }
    assert(f.subrange(0, n) =~= name);
}

} // verus!
