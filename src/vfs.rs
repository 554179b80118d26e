//! Handles on inodes: reading and writing files, and looking up, listing
//! and creating directory entries.
use vstd::prelude::*;

use crate::block_dev::BlockDevice;
use crate::efs::EasyFileSystem;
use crate::layout::{
    disk_inode_at, disk_inode_bytes, field_name, index_path_ok, inode_block_id, inode_blocks,
    inode_content, inode_readable, inode_sound, is_index_block, le_u32,
    lemma_disk_inode_round_trip, valid_name, ceil_blocks, total_blocks_of, DirEntry, DiskInode,
    DiskInodeType, DIRENT_SZ, DISK_INODE_SZ, INDIRECT2_BOUND,
};
use crate::block_cache::overwrite;
use crate::BLOCK_SZ;
use vstd::string::StringSliceAdditionalSpecFns;

verus! {

/// Name of entry `k` of a directory whose bytes are `content`.
pub open spec fn entry_name(content: Seq<u8>, k: int) -> Seq<u8> {
    field_name(content.subrange(DIRENT_SZ * k, DIRENT_SZ * k + 28))
}

/// Inode number of entry `k` of a directory whose bytes are `content`.
pub open spec fn entry_inode(content: Seq<u8>, k: int) -> u32 {
    le_u32(content, DIRENT_SZ * k + 28)
}

/// Number of entries of directory `di`.
pub open spec fn entry_count(di: DiskInode) -> int {
    di.size as int / DIRENT_SZ as int
}

/// The names in directory `di`, in the order of its entries.
pub open spec fn dir_names(di: DiskInode, disk: Seq<Seq<u8>>) -> Seq<Seq<u8>> {
    Seq::new(entry_count(di) as nat, |k: int| entry_name(inode_content(di, disk), k))
}

/// The inode number that directory `di` lists under `name`, taken from
/// the first entry with that name; `None` when no entry has it.
pub open spec fn dir_lookup(di: DiskInode, disk: Seq<Seq<u8>>, name: Seq<u8>) -> Option<u32> {
    let c = inode_content(di, disk);
    if exists|k: int| 0 <= k < entry_count(di) && #[trigger] entry_name(c, k) == name {
        let k = choose|k: int|
            0 <= k < entry_count(di) && #[trigger] entry_name(c, k) == name && forall|j: int|
                0 <= j < k ==> entry_name(c, j) != name;
        Some(entry_inode(c, k))
    } else {
        None
    }
}

/// A path of one component: not empty, and no `/` in it.
pub open spec fn single_name(path: Seq<u8>) -> bool {
    path.len() > 0 && forall|i: int| 0 <= i < path.len() ==> #[trigger] path[i] != 47u8
}

/// The first entry named `name` is the one `dir_lookup` reports.
proof fn lemma_dir_lookup_first(di: DiskInode, disk: Seq<Seq<u8>>, name: Seq<u8>, k: int)
    requires
        0 <= k < entry_count(di),
        entry_name(inode_content(di, disk), k) == name,
        forall|j: int| 0 <= j < k ==> #[trigger] entry_name(inode_content(di, disk), j) != name,
    ensures
        dir_lookup(di, disk, name) == Some(entry_inode(inode_content(di, disk), k)),
{
    let c = inode_content(di, disk);
    let m = choose|m: int|
        0 <= m < entry_count(di) && #[trigger] entry_name(c, m) == name && forall|j: int|
            0 <= j < m ==> entry_name(c, j) != name;
    assert(0 <= m < entry_count(di) && entry_name(c, m) == name && forall|j: int|
        0 <= j < m ==> entry_name(c, j) != name);
    if m < k {
        assert(entry_name(c, m) != name);
    } else if m > k {
        assert(entry_name(c, k) != name);
    }
}

/// Creating `name` in directory `di` on `fs` has all it needs: `di` is a
/// readable directory, `name` is a valid name not listed in it, an inode id
/// is free, and the data area has the blocks that growing the directory by
/// one entry takes.
pub open spec fn create_room<D: BlockDevice>(fs: &EasyFileSystem<D>, di: DiskInode, name: Seq<u8>) -> bool {
    let new_size = (di.size / 32 + 1) * 32;
    &&& di.spec_is_dir()
    &&& inode_readable(di, fs.disk())
    &&& valid_name(name)
    &&& name.len() > 0
    &&& !dir_names(di, fs.disk()).contains(name)
    &&& exists|id: int| 0 <= id < fs.inode_count() && !fs.used_inodes().contains(id)
    &&& ceil_blocks(new_size as nat) <= INDIRECT2_BOUND
    &&& fs.free_data().len() >= total_blocks_of(new_size as nat) - total_blocks_of(di.size as nat)
}

/// Whether `a` and `b` hold the same bytes.
fn bytes_eq(a: &[u8], b: &[u8]) -> (r: bool)
    ensures
        r == (a@ == b@),
{
    if a.len() != b.len() {
        return false;
    }
    let mut i: usize = 0;
    while i < a.len()
        invariant
            a@.len() == b@.len(),
            i <= a@.len(),
            forall|j: int| 0 <= j < i ==> a@[j] == b@[j],
        decreases a@.len() - i,
    {
        if a[i] != b[i] {
            return false;
        }
        i = i + 1;
    }
    assert(a@ =~= b@);
    true
}

/// A handle on one inode: where its record lies. It holds no file data;
/// every access goes through the volume's block cache.
pub struct Inode {
    block_id: usize,
    block_offset: usize,
}

impl Inode {
    /// Block that holds the record.
    pub closed spec fn block(&self) -> int {
        self.block_id as int
    }

    /// Offset of the record in its block.
    pub closed spec fn offset(&self) -> int {
        self.block_offset as int
    }

    /// The handle points at a record slot of the inode area of `fs`.
    pub open spec fn placed<D: BlockDevice>(&self, fs: &EasyFileSystem<D>) -> bool {
        exists|id: int|
            0 <= id < fs.inode_count() && #[trigger] fs.inode_pos(id) == (self.block(), self.offset())
    }

    /// `di` is the record the handle points at on `fs`.
    pub open spec fn holds<D: BlockDevice>(&self, fs: &EasyFileSystem<D>, di: DiskInode) -> bool {
        disk_inode_at(fs.disk()[self.block()], self.offset(), di)
    }

    /// The handle of the record at `block_offset` in block `block_id`.
    pub fn new(block_id: usize, block_offset: usize) -> (r: Self)
        ensures
            r.block() == block_id,
            r.offset() == block_offset,
    {
        Inode { block_id, block_offset }
    }

    proof fn lemma_placed<D: BlockDevice>(&self, fs: &EasyFileSystem<D>)
        requires
            fs.wf(),
            self.placed(fs),
        ensures
            fs.inode_area_start() <= self.block() < fs.disk().len(),
            self.block() < fs.data_bitmap_view().start(),
            0 <= self.offset(),
            self.offset() + DISK_INODE_SZ <= BLOCK_SZ,
    {
        let id = choose|id: int|
            0 <= id < fs.inode_count() && #[trigger] fs.inode_pos(id) == (self.block(), self.offset());
        fs.lemma_wf_cache();
        fs.cache_view().lemma_disk_sized();
        vstd::arithmetic::div_mod::lemma_mod_bound(id, 4);
        vstd::arithmetic::div_mod::lemma_div_is_ordered(id, fs.inode_count() - 1, 4);
        fs.lemma_layout_order();
    }

    /// Reads the record the handle points at.
    fn read_disk_inode<D: BlockDevice>(&self, fs: &mut EasyFileSystem<D>) -> (r: DiskInode)
        requires
            old(fs).wf(),
            self.placed(old(fs)),
        ensures
            final(fs).wf(),
            final(fs).same_layout(old(fs)),
            final(fs).disk() == old(fs).disk(),
            self.holds(old(fs), r),
    {
        proof {
            self.lemma_placed(fs);
            fs.lemma_wf_cache();
            fs.cache_view().lemma_disk_sized();
            assert(fs.disk()[self.block()].len() == BLOCK_SZ);
        }
        let bytes = fs.read_block(self.block_id, self.block_offset, DISK_INODE_SZ);
        let di = DiskInode::decode(bytes.as_slice(), 0);
        proof {
            let s = old(fs).disk()[self.block()];
            let o = self.offset();
            assert forall|t: int| 0 <= t < DISK_INODE_SZ implies #[trigger] bytes@[t] == s[o + t] by {}
            assert(le_u32(bytes@, 0) == le_u32(s, o));
            assert(le_u32(bytes@, 116) == le_u32(s, o + 116));
            assert(le_u32(bytes@, 120) == le_u32(s, o + 120));
            assert(le_u32(bytes@, 124) == le_u32(s, o + 124));
            assert forall|k: int| 0 <= k < 28 implies #[trigger] di.direct@[k] == le_u32(s, o + 4 + 4 * k) by {
                assert(le_u32(bytes@, 4 + 4 * k) == le_u32(s, o + 4 + 4 * k));
            }
        }
        di
    }

    /// Writes `di` as the record the handle points at.
    fn write_disk_inode<D: BlockDevice>(&self, fs: &mut EasyFileSystem<D>, di: &DiskInode)
        requires
            old(fs).wf(),
            self.placed(old(fs)),
        ensures
            final(fs).wf(),
            final(fs).same_layout(old(fs)),
            self.holds(final(fs), *di),
            self.placed(final(fs)),
            final(fs).used_inodes() == old(fs).used_inodes(),
            final(fs).used_data() == old(fs).used_data(),
            forall|b: int| 0 <= b < old(fs).disk().len() && b != self.block() ==> #[trigger] final(fs).disk()[b] == old(fs).disk()[b],
            final(fs).disk().len() == old(fs).disk().len(),
    {
        proof {
            self.lemma_placed(fs);
        }
        let bytes = di.encode();
        fs.modify_block(self.block_id, self.block_offset, bytes.as_slice());
        proof {
            fs.lemma_wf_cache();
            fs.cache_view().lemma_disk_sized();
            let s = fs.disk()[self.block()];
            assert(s.subrange(self.offset(), self.offset() + DISK_INODE_SZ) =~= disk_inode_bytes(*di));
            lemma_disk_inode_round_trip(*di, s, self.offset());
            self.lemma_placed_transfer(old(fs), fs);
        }
    }

    proof fn lemma_placed_transfer<D: BlockDevice>(&self, a: &EasyFileSystem<D>, b: &EasyFileSystem<D>)
        requires
            self.placed(a),
            b.same_layout(a),
        ensures
            self.placed(b),
    {
        b.lemma_same_layout(a);
        let id = choose|id: int|
            0 <= id < a.inode_count() && #[trigger] a.inode_pos(id) == (self.block(), self.offset());
        assert(b.inode_pos(id) == a.inode_pos(id));
    }

    /// Copies bytes of the file from `offset` on into `buf`, as many as fit
    /// before the end of the file, and returns how many were copied.
    pub fn read_at<D: BlockDevice>(&self, offset: usize, buf: &mut [u8], fs: &mut EasyFileSystem<D>) -> (r: usize)
        requires
            old(fs).wf(),
            self.placed(old(fs)),
        ensures
            final(fs).wf(),
            final(fs).same_layout(old(fs)),
            final(fs).disk() == old(fs).disk(),
            final(buf)@.len() == old(buf)@.len(),
            forall|di: DiskInode|
                #![trigger self.holds(old(fs), di)]
                self.holds(old(fs), di) ==> {
                    &&& r <= if offset < di.size {
                        vstd::math::min(offset + old(buf)@.len(), di.size as int) - offset
                    } else {
                        0
                    }
                    &&& inode_readable(di, old(fs).disk()) ==> r == if offset < di.size {
                        vstd::math::min(offset + old(buf)@.len(), di.size as int) - offset
                    } else {
                        0
                    }
                    &&& r > 0 ==> final(buf)@.subrange(0, r as int) == inode_content(di, old(fs).disk()).subrange(
                        offset as int,
                        offset + r,
                    )
                },
    {
        let di = self.read_disk_inode(fs);
        proof {
            fs.lemma_wf_cache();
        }
        let ghost fs1 = *fs;
        let r = di.read_at(offset, buf, fs.cache_mut());
        proof {
            fs.lemma_rebuild(&fs1);
            fs.lemma_same_layout_trans(&fs1, old(fs));
            lemma_holds_unique(self, *old(fs), di);
        }
        r
    }

    /// Grows the record `di` to `new_size` bytes, taking the blocks it needs
    /// from the data bitmap. Returns false, with `di` unchanged, when the
    /// size is past what an inode can hold or the data area runs out; blocks
    /// taken before running out stay taken.
    fn increase_size<D: BlockDevice>(&self, new_size: u32, di: &mut DiskInode, fs: &mut EasyFileSystem<D>) -> (r: bool)
        requires
            old(fs).wf(),
        ensures
            final(fs).wf(),
            final(fs).same_layout(old(fs)),
            r ==> final(di).size == if new_size > old(di).size { new_size } else { old(di).size },
            !r ==> *final(di) == *old(di),
            final(di).type_ == old(di).type_,
            new_size <= old(di).size ==> r && *final(di) == *old(di) && *final(fs) == *old(fs),
            ceil_blocks(new_size as nat) <= INDIRECT2_BOUND && old(fs).free_data().len() >= total_blocks_of(
                new_size as nat,
            ) - total_blocks_of(old(di).size as nat) ==> r,
    {
        proof {
            fs.lemma_same_layout_refl();
        }
        if new_size <= di.size {
            return true;
        }
        if ceil_blocks_u32(new_size) as usize > INDIRECT2_BOUND {
            return false;
        }
        let needed = di.blocks_num_needed(new_size);
        proof {
            fs.lemma_free_data_finite();
        }
        let mut v: Vec<u32> = Vec::new();
        let mut i: u32 = 0;
        while i < needed
            invariant
                fs.wf(),
                fs.same_layout(old(fs)),
                *di == *old(di),
                new_size > old(di).size,
                i <= needed,
                v@.len() == i,
                needed == total_blocks_of(new_size as nat) - total_blocks_of(old(di).size as nat),
                fs.free_data().finite(),
                old(fs).free_data().len() >= needed ==> fs.free_data().len() >= needed - i,
            decreases needed - i,
        {
            let ghost prev = *fs;
            proof {
                fs.lemma_free_data_finite();
            }
            let got = fs.alloc_data();
            proof {
                fs.lemma_free_data_finite();
                if got is Some {
                    vstd::set::axiom_set_remove_len(prev.free_data(), got->0 - prev.data_area_start());
                }
            }
            proof {
                fs.lemma_same_layout_trans(&prev, old(fs));
            }
            match got {
                Some(b) => v.push(b),
                None => {
                    return false;
                },
            }
            i = i + 1;
        }
        proof {
            fs.lemma_wf_cache();
        }
        let ghost fs1 = *fs;
        di.increase_size(new_size, v, fs.cache_mut());
        proof {
            fs.lemma_rebuild(&fs1);
            fs.lemma_same_layout_trans(&fs1, old(fs));
        }
        true
    }
}

impl Inode {
    /// Writes `buf` into the file from `offset` on, growing the file first
    /// when the write goes past its end, and returns how many bytes were
    /// written. Everything is written back to the device before returning.
    pub fn write_at<D: BlockDevice>(&self, offset: usize, buf: &[u8], fs: &mut EasyFileSystem<D>) -> (r: usize)
        requires
            old(fs).wf(),
            self.placed(old(fs)),
        ensures
            final(fs).wf(),
            final(fs).same_layout(old(fs)),
            final(fs).cache_view().dev().blocks() == final(fs).disk(),
            r <= buf@.len(),
            forall|di: DiskInode|
                #![trigger self.holds(old(fs), di)]
                self.holds(old(fs), di) ==> (exists|dn: DiskInode|
                    #![trigger self.holds(final(fs), dn)]
                    self.holds(final(fs), dn) && dn.type_ == di.type_ && (dn.size == di.size || dn.size
                        == offset + buf@.len()) && (r > 0 ==> dn.size >= offset + r)),
            forall|di: DiskInode|
                #![trigger self.holds(old(fs), di)]
                self.holds(old(fs), di) && offset + buf@.len() <= di.size && inode_sound(di, old(fs).disk())
                    && record_apart(di, old(fs).disk(), self.block()) ==> {
                    &&& r == buf@.len()
                    &&& self.holds(final(fs), di)
                    &&& inode_content(di, final(fs).disk()) == overwrite(
                        inode_content(di, old(fs).disk()),
                        offset as int,
                        buf@,
                    )
                },
            forall|di: DiskInode|
                #![trigger self.holds(old(fs), di)]
                self.holds(old(fs), di) && di.size < offset + buf@.len() <= u32::MAX && ceil_blocks(
                    (offset + buf@.len()) as nat,
                ) <= INDIRECT2_BOUND && old(fs).free_data().len() >= total_blocks_of(
                    (offset + buf@.len()) as nat,
                ) - total_blocks_of(di.size as nat) ==> exists|dn: DiskInode|
                    #![trigger self.holds(final(fs), dn)]
                    self.holds(final(fs), dn) && dn.type_ == di.type_ && dn.size == offset + buf@.len(),
    {
        let mut di = self.read_disk_inode(fs);
        let ghost di0 = di;
        proof {
            self.lemma_placed_transfer(old(fs), fs);
            lemma_holds_unique(self, *old(fs), di);
            fs.lemma_same_layout_refl();
        }
        let mut r: usize = 0;
        if offset <= u32::MAX as usize && buf.len() <= u32::MAX as usize - offset {
            let end = (offset + buf.len()) as u32;
            let ghost fs_a = *fs;
            proof {
                fs_a.lemma_same_layout(old(fs));
                assert(fs_a.free_data() =~= old(fs).free_data());
            }
            let grown = self.increase_size(end, &mut di, fs);
            proof {
                fs.lemma_same_layout_trans(&fs_a, old(fs));
            }
            if grown {
                proof {
                    self.lemma_placed_transfer(old(fs), fs);
                    fs.lemma_wf_cache();
                }
                let ghost fs1 = *fs;
                r = di.write_at(offset, buf, fs.cache_mut());
                proof {
                    fs.lemma_rebuild(&fs1);
                    fs.lemma_same_layout_trans(&fs1, old(fs));
                    assert(r <= buf@.len());
                    fs.lemma_disk_len();
                    fs1.lemma_disk_len();
                    old(fs).lemma_disk_len();
                    fs_a.lemma_disk_len();
                    if end <= di0.size {
                        assert(fs1 == fs_a);
                        assert(fs.disk().len() == old(fs).disk().len());
                    }
                }
            }
        }
        proof {
            self.lemma_placed_transfer(old(fs), fs);
        }
        let ghost fs2 = *fs;
        self.write_disk_inode(fs, &di);
        proof {
            fs.lemma_same_layout_trans(&fs2, old(fs));
        }
        let ghost fs3 = *fs;
        fs.sync();
        proof {
            fs.lemma_same_layout_trans(&fs3, old(fs));
            assert(self.holds(&fs3, di));
            assert(self.holds(fs, di));
            assert forall|d: DiskInode| #[trigger] self.holds(old(fs), d) implies (exists|dn: DiskInode|
                #![trigger self.holds(fs, dn)]
                self.holds(fs, dn) && dn.type_ == d.type_ && (dn.size == d.size || dn.size
                    == offset + buf@.len()) && (r > 0 ==> dn.size >= offset + r)) by {
                assert(d == di0);
            }
            assert forall|d: DiskInode| #[trigger] self.holds(old(fs), d) && d.size < offset + buf@.len() <= u32::MAX
                && ceil_blocks((offset + buf@.len()) as nat) <= INDIRECT2_BOUND && old(fs).free_data().len()
                >= total_blocks_of((offset + buf@.len()) as nat) - total_blocks_of(d.size as nat) implies exists|dn: DiskInode|
                #![trigger self.holds(fs, dn)]
                self.holds(fs, dn) && dn.type_ == d.type_ && dn.size == offset + buf@.len() by {
                assert(d == di0);
                assert(di.size == offset + buf@.len());
            }
            if offset + buf@.len() <= di0.size && inode_sound(di0, old(fs).disk()) && record_apart(
                di0,
                old(fs).disk(),
                self.block(),
            ) {
                assert(di == di0);
                old(fs).lemma_wf_cache();
                old(fs).cache_view().lemma_disk_sized();
                fs2.lemma_wf_cache();
                fs2.cache_view().lemma_disk_sized();
                assert(fs2.disk().len() == old(fs).disk().len());
                assert forall|b: int|
                    0 <= b < old(fs).disk().len() && is_index_block(di0, old(fs).disk(), b) implies #[trigger] fs2.disk()[b]
                        == old(fs).disk()[b] by {
                    assert forall|i: int| 0 <= i < inode_blocks(di0) implies b != #[trigger] inode_block_id(
                        di0,
                        old(fs).disk(),
                        i,
                    ) by {
                        assert(!is_index_block(di0, old(fs).disk(), inode_block_id(di0, old(fs).disk(), i) as int));
                    }
                }
                crate::layout::lemma_index_frame(di0, old(fs).disk(), fs2.disk());
                assert(record_apart(di0, fs2.disk(), self.block())) by {
                    assert forall|i: int| 0 <= i < inode_blocks(di0) implies #[trigger] inode_block_id(di0, fs2.disk(), i)
                        != self.block() by {
                        assert(inode_block_id(di0, old(fs).disk(), i) != self.block());
                    }
                }
                fs.lemma_wf_cache();
                fs.cache_view().lemma_disk_sized();
                lemma_content_frame(di0, fs2.disk(), fs.disk(), self.block());
                assert(buf@.subrange(0, buf@.len() as int) =~= buf@);
            }
        }
        r
    }

    /// The inode number listed under `name` in directory `di`, the first
    /// such entry where there are several.
    fn find_inode_id<D: BlockDevice>(&self, name: &[u8], di: &DiskInode, fs: &mut EasyFileSystem<D>) -> (r: Option<u32>)
        requires
            old(fs).wf(),
        ensures
            final(fs).wf(),
            final(fs).same_layout(old(fs)),
            final(fs).disk() == old(fs).disk(),
            inode_readable(*di, old(fs).disk()) ==> {
                &&& r is None <==> !dir_names(*di, old(fs).disk()).contains(name@)
                &&& r == dir_lookup(*di, old(fs).disk(), name@)
            },
    {
        let ghost d = fs.disk();
        let ghost content = inode_content(*di, d);
        let file_count = (di.size as usize) / DIRENT_SZ;
        let mut i: usize = 0;
        proof {
            fs.lemma_same_layout_refl();
        }
        while i < file_count
            invariant
                fs.wf(),
                fs.same_layout(old(fs)),
                fs.disk() == d,
                d == old(fs).disk(),
                content == inode_content(*di, d),
                file_count == entry_count(*di),
                i <= file_count,
                inode_readable(*di, d) ==> forall|j: int| 0 <= j < i ==> #[trigger] entry_name(content, j) != name@,
            decreases file_count - i,
        {
            let mut buf: Vec<u8> = vec![0u8; 32];
            proof {
                fs.lemma_wf_cache();
            }
            let ghost fs1 = *fs;
            let n = di.read_at(DIRENT_SZ * i, buf.as_mut_slice(), fs.cache_mut());
            proof {
                fs.lemma_rebuild(&fs1);
                fs.lemma_same_layout_trans(&fs1, old(fs));
            }
            if n == DIRENT_SZ {
                let dirent = DirEntry::decode(buf.as_slice(), 0);
                let dname = dirent.name();
                proof {
                    if inode_readable(*di, d) {
                        lemma_entry_bytes(content, buf@, i as int);
                    }
                }
                if bytes_eq(dname.as_slice(), name) {
                    proof {
                        if inode_readable(*di, d) {
                            assert(dir_names(*di, d)[i as int] == name@);
                            lemma_dir_lookup_first(*di, d, name@, i as int);
                        }
                    }
                    return Some(dirent.inode_number());
                }
            } else {
                proof {
                    if inode_readable(*di, d) {
                        assert(DIRENT_SZ * i + DIRENT_SZ <= di.size) by {
                            vstd::arithmetic::div_mod::lemma_fundamental_div_mod(di.size as int, 32);
                        }
                    }
                }
            }
            i = i + 1;
        }
        proof {
            if inode_readable(*di, d) {
                if dir_names(*di, d).contains(name@) {
                    let k = choose|k: int| 0 <= k < dir_names(*di, d).len() && dir_names(*di, d)[k] == name@;
                    assert(entry_name(content, k) == name@);
                }
                assert(!exists|k: int| 0 <= k < entry_count(*di) && #[trigger] entry_name(content, k) == name@);
            }
        }
        None
    }

    /// The names in the directory, in the order of its entries.
    pub fn readdir<D: BlockDevice>(&self, fs: &mut EasyFileSystem<D>) -> (r: Vec<Vec<u8>>)
        requires
            old(fs).wf(),
            self.placed(old(fs)),
        ensures
            final(fs).wf(),
            final(fs).same_layout(old(fs)),
            final(fs).disk() == old(fs).disk(),
            forall|di: DiskInode|
                #![trigger self.holds(old(fs), di)]
                self.holds(old(fs), di) && inode_readable(di, old(fs).disk()) ==> {
                    &&& r@.len() == entry_count(di)
                    &&& forall|k: int| 0 <= k < r@.len() ==> #[trigger] r@[k]@ == dir_names(di, old(fs).disk())[k]
                },
    {
        let di = self.read_disk_inode(fs);
        let ghost d = fs.disk();
        let ghost content = inode_content(di, d);
        proof {
            lemma_holds_unique(self, *old(fs), di);
            fs.lemma_same_layout_refl();
        }
        let file_count = (di.size as usize) / DIRENT_SZ;
        let mut v: Vec<Vec<u8>> = Vec::new();
        let mut i: usize = 0;
        while i < file_count
            invariant
                fs.wf(),
                fs.same_layout(old(fs)),
                fs.disk() == d,
                d == old(fs).disk(),
                content == inode_content(di, d),
                file_count == entry_count(di),
                i <= file_count,
                v@.len() == i,
                inode_readable(di, d) ==> forall|j: int| 0 <= j < i ==> #[trigger] v@[j]@ == entry_name(content, j),
            decreases file_count - i,
        {
            let mut buf: Vec<u8> = vec![0u8; 32];
            proof {
                fs.lemma_wf_cache();
            }
            let ghost fs1 = *fs;
            let n = di.read_at(DIRENT_SZ * i, buf.as_mut_slice(), fs.cache_mut());
            proof {
                fs.lemma_rebuild(&fs1);
                fs.lemma_same_layout_trans(&fs1, old(fs));
                if inode_readable(di, d) {
                    assert(DIRENT_SZ * i + DIRENT_SZ <= di.size) by {
                        vstd::arithmetic::div_mod::lemma_fundamental_div_mod(di.size as int, 32);
                    }
                }
            }
            let dirent = DirEntry::decode(buf.as_slice(), 0);
            let dname = dirent.name();
            proof {
                if inode_readable(di, d) {
                    lemma_entry_bytes(content, buf@, i as int);
                }
            }
            v.push(dname);
            i = i + 1;
        }
        v
    }

    /// The entry `name` of this directory: `None` when this is not a
    /// directory, or the name is not listed, or is listed with an inode
    /// number past the last inode.
    fn step<D: BlockDevice>(&self, name: &[u8], fs: &mut EasyFileSystem<D>) -> (r: Option<Inode>)
        requires
            old(fs).wf(),
            self.placed(old(fs)),
        ensures
            final(fs).wf(),
            final(fs).same_layout(old(fs)),
            final(fs).disk() == old(fs).disk(),
            r is Some ==> r->0.placed(final(fs)),
            forall|di: DiskInode|
                #![trigger self.holds(old(fs), di)]
                self.holds(old(fs), di) && inode_readable(di, old(fs).disk()) ==> match r {
                    Some(ino) => di.spec_is_dir() && exists|id: u32|
                        dir_lookup(di, old(fs).disk(), name@) == Some(id) && id < old(fs).inode_count()
                            && #[trigger] old(fs).inode_pos(id as int) == (ino.block(), ino.offset()),
                    None => !di.spec_is_dir() || dir_lookup(di, old(fs).disk(), name@) is None
                        || dir_lookup(di, old(fs).disk(), name@)->0 >= old(fs).inode_count(),
                },
    {
        let di = self.read_disk_inode(fs);
        proof {
            lemma_holds_unique(self, *old(fs), di);
        }
        if !di.is_dir() {
            return None;
        }
        let ghost fs1 = *fs;
        let found = self.find_inode_id(name, &di, fs);
        proof {
            fs.lemma_same_layout_trans(&fs1, old(fs));
            fs.lemma_same_layout(old(fs));
        }
        match found {
            None => None,
            Some(id) => {
                if id >= fs.inode_total() {
                    return None;
                }
                let (b, o) = fs.get_disk_inode_position(id);
                let ino = Inode::new(b as usize, o);
                proof {
                    assert(fs.inode_pos(id as int) == (ino.block(), ino.offset()));
                    assert(old(fs).inode_pos(id as int) == (ino.block(), ino.offset()));
                }
                Some(ino)
            },
        }
    }

    /// The inode reached from this directory by `path`: its components,
    /// separated by `/`, are looked up one directory after the other. `None`
    /// when a component is missing or names a file that is not the last one.
    pub fn find<D: BlockDevice>(&self, path: &str, fs: &mut EasyFileSystem<D>) -> (r: Option<Inode>)
        requires
            old(fs).wf(),
            self.placed(old(fs)),
        ensures
            final(fs).wf(),
            final(fs).same_layout(old(fs)),
            final(fs).disk() == old(fs).disk(),
            r is Some ==> r->0.placed(final(fs)),
            forall|di: DiskInode|
                #![trigger self.holds(old(fs), di)]
                self.holds(old(fs), di) && di.spec_is_dir() && inode_readable(di, old(fs).disk())
                    && single_name(path.spec_bytes()) ==> match r {
                    Some(ino) => exists|id: u32|
                        dir_lookup(di, old(fs).disk(), path.spec_bytes()) == Some(id) && id
                            < old(fs).inode_count() && #[trigger] old(fs).inode_pos(id as int) == (
                            ino.block(),
                            ino.offset(),
                        ),
                    None => dir_lookup(di, old(fs).disk(), path.spec_bytes()) is None || dir_lookup(
                        di,
                        old(fs).disk(),
                        path.spec_bytes(),
                    )->0 >= old(fs).inode_count(),
                },
    {
        let bytes = path.as_bytes();
        if is_single_name(bytes) {
            return self.step(bytes, fs);
        }
        let len = bytes.len();
        let mut cur = Inode::new(self.block_id, self.block_offset);
        let mut i: usize = 0;
        proof {
            fs.lemma_same_layout_refl();
        }
        while i < len
            invariant
                fs.wf(),
                fs.same_layout(old(fs)),
                fs.disk() == old(fs).disk(),
                len == bytes@.len(),
                i <= len,
                cur.placed(fs),
                !single_name(path.spec_bytes()),
            decreases len - i,
        {
            if bytes[i] == 47u8 {
                i = i + 1;
            } else {
                let start = i;
                while i < len && bytes[i] != 47u8
                    invariant
                        len == bytes@.len(),
                        start <= i <= len,
                    decreases len - i,
                {
                    i = i + 1;
                }
                let comp = crate::layout::slice_range(bytes, start, i - start);
                let ghost fs0 = *fs;
                let next = cur.step(comp.as_slice(), fs);
                proof {
                    fs.lemma_same_layout_trans(&fs0, old(fs));
                }
                match next {
                    None => {
                        return None;
                    },
                    Some(n) => {
                        cur = n;
                    },
                }
            }
        }
        Some(cur)
    }
}

impl Inode {
    /// Creates an empty file called `name` in this directory and returns its
    /// handle. `None` when this is not a directory, `name` is not a valid
    /// name (1 to 27 bytes, none of them zero) or is taken already, or no
    /// inode or data block is left. Everything is written back to the device
    /// before returning.
    #[verifier::spinoff_prover]
    #[verifier::rlimit(60)]
    pub fn create<D: BlockDevice>(&self, name: &str, fs: &mut EasyFileSystem<D>) -> (r: Option<Inode>)
        requires
            old(fs).wf(),
            self.placed(old(fs)),
        ensures
            final(fs).wf(),
            final(fs).same_layout(old(fs)),
            !valid_name(name.spec_bytes()) || name.spec_bytes().len() == 0 ==> r is None,
            forall|di: DiskInode|
                #![trigger self.holds(old(fs), di)]
                self.holds(old(fs), di) && (!di.spec_is_dir() || (inode_readable(di, old(fs).disk())
                    && dir_names(di, old(fs).disk()).contains(name.spec_bytes()))) ==> r is None,
            r is Some ==> r->0.placed(final(fs)) && exists|id: int|
                0 <= id < old(fs).inode_count() && !old(fs).used_inodes().contains(id)
                    && #[trigger] old(fs).inode_pos(id) == (r->0.block(), r->0.offset()),
            forall|di: DiskInode|
                #![trigger self.holds(old(fs), di)]
                self.holds(old(fs), di) && r is Some ==> exists|dn: DiskInode|
                    #![trigger self.holds(final(fs), dn)]
                    self.holds(final(fs), dn) && dn.type_ == di.type_ && dn.size == (di.size / 32 + 1) * 32,
            forall|di: DiskInode|
                #![trigger self.holds(old(fs), di)]
                self.holds(old(fs), di) && create_room(old(fs), di, name.spec_bytes()) ==> r is Some,
    {
        let nb = name.as_bytes();
        proof {
            fs.lemma_same_layout_refl();
        }
        if !name_ok(nb) {
            return None;
        }
        let mut di = self.read_disk_inode(fs);
        let ghost di0 = di;
        proof {
            lemma_holds_unique(self, *old(fs), di);
        }
        if !di.is_dir() {
            return None;
        }
        let ghost fs1 = *fs;
        let existing = self.find_inode_id(nb, &di, fs);
        proof {
            fs.lemma_same_layout_trans(&fs1, old(fs));
        }
        if existing.is_some() {
            return None;
        }
        let ghost fs2 = *fs;
        let ghost ok = create_room(old(fs), di0, nb@);
        proof {
            fs2.lemma_same_layout(old(fs));
            assert(fs2.used_inodes() == old(fs).used_inodes());
            assert(fs2.free_data() =~= old(fs).free_data());
        }
        let new_id = match fs.alloc_inode() {
            Some(id) => id,
            None => {
                proof {
                    fs.lemma_same_layout_trans(&fs2, old(fs));
                    if ok {
                        let id = choose|id: int| 0 <= id < old(fs).inode_count() && !old(fs).used_inodes().contains(id);
                        assert(fs2.used_inodes().contains(id));
                    }
                }
                return None;
            },
        };
        proof {
            fs.lemma_same_layout_trans(&fs2, old(fs));
            fs2.lemma_same_layout(old(fs));
            assert(fs2.used_inodes() == old(fs).used_inodes());
        }
        let (new_block, new_offset) = fs.get_disk_inode_position(new_id);
        let new_inode = Inode::new(new_block as usize, new_offset);
        proof {
            assert(fs.inode_pos(new_id as int) == (new_inode.block(), new_inode.offset()));
            fs.lemma_same_layout(old(fs));
        }
        let mut record = DiskInode {
            size: 0,
            direct: [0u32; 28],
            indirect1: 0,
            indirect2: 0,
            type_: DiskInodeType::File,
        };
        record.initialize(DiskInodeType::File);
        let ghost fs3 = *fs;
        new_inode.write_disk_inode(fs, &record);
        proof {
            fs.lemma_same_layout_trans(&fs3, old(fs));
            self.lemma_placed_transfer(old(fs), fs);
        }
        let file_count = di.size / (DIRENT_SZ as u32);
        if file_count >= 134217727 {
            return None;
        }
        let new_size = (file_count + 1) * (DIRENT_SZ as u32);
        let ghost fs4 = *fs;
        proof {
            fs4.lemma_same_layout(old(fs));
            assert(fs4.used_data() == fs2.used_data());
            assert(fs4.free_data() =~= old(fs).free_data());
        }
        let grown = self.increase_size(new_size, &mut di, fs);
        proof {
            fs.lemma_same_layout_trans(&fs4, old(fs));
            self.lemma_placed_transfer(old(fs), fs);
            new_inode.lemma_placed_transfer(old(fs), fs);
        }
        if !grown {
            return None;
        }
        let dirent = DirEntry::new(nb, new_id);
        let entry = dirent.as_bytes();
        proof {
            fs.lemma_wf_cache();
        }
        let ghost fs5 = *fs;
        if (file_count as usize) * DIRENT_SZ <= di.size as usize {
            di.write_at((file_count as usize) * DIRENT_SZ, entry.as_slice(), fs.cache_mut());
        }
        proof {
            fs.lemma_rebuild(&fs5);
            fs.lemma_same_layout_trans(&fs5, old(fs));
            self.lemma_placed_transfer(old(fs), fs);
            new_inode.lemma_placed_transfer(old(fs), fs);
        }
        let ghost fs6 = *fs;
        self.write_disk_inode(fs, &di);
        proof {
            fs.lemma_same_layout_trans(&fs6, old(fs));
            new_inode.lemma_placed_transfer(old(fs), fs);
        }
        let ghost fs7 = *fs;
        fs.sync();
        proof {
            fs.lemma_same_layout_trans(&fs7, old(fs));
            new_inode.lemma_placed_transfer(old(fs), fs);
            assert(self.holds(&fs7, di));
            assert(self.holds(fs, di));
            assert forall|d: DiskInode| #[trigger] self.holds(old(fs), d) implies exists|dn: DiskInode|
                #![trigger self.holds(fs, dn)]
                self.holds(fs, dn) && dn.type_ == d.type_ && dn.size == (d.size / 32 + 1) * 32 by {
                assert(d == di0);
            }
        }
        Some(new_inode)
    }

    /// Empties the file: its size becomes 0 and its data and index blocks
    /// go back to the data bitmap. A record whose blocks cannot all be
    /// reached is left as it is. Everything is written back to the device
    /// before returning.
    pub fn clear<D: BlockDevice>(&self, fs: &mut EasyFileSystem<D>)
        requires
            old(fs).wf(),
            self.placed(old(fs)),
        ensures
            final(fs).wf(),
            final(fs).same_layout(old(fs)),
            final(fs).used_inodes() == old(fs).used_inodes(),
            forall|di: DiskInode|
                #![trigger self.holds(old(fs), di)]
                self.holds(old(fs), di) && inode_readable(di, old(fs).disk()) ==> {
                    &&& exists|dn: DiskInode|
                        #![trigger self.holds(final(fs), dn)]
                        self.holds(final(fs), dn) && dn.size == 0 && dn.type_ == di.type_
                    &&& forall|i: int|
                        0 <= i < crate::layout::inode_blocks(di) ==> {
                            let b = #[trigger] crate::layout::inode_block_id(di, old(fs).disk(), i) as int;
                            old(fs).data_area_start() <= b < old(fs).data_area_start() + old(fs).data_area_len()
                                ==> !final(fs).used_data().contains(b - old(fs).data_area_start())
                        }
                },
    {
        let mut di = self.read_disk_inode(fs);
        let ghost di0 = di;
        let ghost d0 = fs.disk();
        proof {
            lemma_holds_unique(self, *old(fs), di);
            fs.lemma_same_layout_refl();
            fs.lemma_wf_cache();
        }
        let ghost fs1 = *fs;
        let readable = di.is_readable(fs.cache_mut());
        proof {
            fs.lemma_rebuild(&fs1);
            fs.lemma_same_layout_trans(&fs1, old(fs));
        }
        if !readable {
            proof {
                fs.lemma_same_layout(old(fs));
            }
            return;
        }
        proof {
            fs.lemma_wf_cache();
        }
        let ghost fs2 = *fs;
        let v = di.clear_size(fs.cache_mut());
        proof {
            fs.lemma_rebuild(&fs2);
            fs.lemma_same_layout_trans(&fs2, old(fs));
            fs.lemma_same_layout(old(fs));
            assert(fs.disk() == old(fs).disk());
        }
        let mut k: usize = 0;
        while k < v.len()
            invariant
                fs.wf(),
                fs.same_layout(old(fs)),
                fs.used_inodes() == old(fs).used_inodes(),
                fs.disk().len() == old(fs).disk().len(),
                fs.data_area_start() == old(fs).data_area_start(),
                fs.data_area_len() == old(fs).data_area_len(),
                k <= v@.len(),
                forall|j: int|
                    0 <= j < k && old(fs).data_area_start() <= v@[j] < old(fs).data_area_start()
                        + old(fs).data_area_len() ==> !(#[trigger] fs.used_data().contains(
                        v@[j] - old(fs).data_area_start(),
                    )),
            decreases v@.len() - k,
        {
            let id = v[k];
            let ghost fsa = *fs;
            let ghost start = old(fs).data_area_start();
            let ghost lim = old(fs).data_area_start() + old(fs).data_area_len();
            let used = fs.data_in_use(id);
            proof {
                fs.lemma_same_layout_trans(&fsa, old(fs));
                fs.lemma_same_layout(&fsa);
                fs.lemma_same_layout(old(fs));
            }
            if used {
                let ghost fsb = *fs;
                fs.dealloc_data(id);
                proof {
                    fs.lemma_same_layout_trans(&fsb, old(fs));
                    fs.lemma_same_layout(old(fs));
                    fs.lemma_wf_cache();
                    fs.cache_view().lemma_disk_sized();
                    fsb.lemma_wf_cache();
                    fsb.cache_view().lemma_disk_sized();
                }
            }
            proof {
                assert forall|j: int|
                    0 <= j < k + 1 && start <= v@[j] < lim implies !(#[trigger] fs.used_data().contains(
                        v@[j] - start,
                    )) by {
                    if j < k {
                        assert(!fsa.used_data().contains(v@[j] - start));
                    }
                }
            }
            k = k + 1;
        }
        proof {
            self.lemma_placed_transfer(old(fs), fs);
        }
        let ghost fs3 = *fs;
        self.write_disk_inode(fs, &di);
        proof {
            fs.lemma_same_layout_trans(&fs3, old(fs));
        }
        let ghost fs4 = *fs;
        fs.sync();
        proof {
            fs.lemma_same_layout_trans(&fs4, old(fs));
            assert(self.holds(&fs4, di));
            assert(self.holds(fs, di));
            assert forall|d: DiskInode|
                #[trigger] self.holds(old(fs), d) && inode_readable(d, old(fs).disk()) implies {
                    &&& exists|dn: DiskInode|
                        #![trigger self.holds(fs, dn)]
                        self.holds(fs, dn) && dn.size == 0 && dn.type_ == d.type_
                    &&& forall|i: int|
                        0 <= i < crate::layout::inode_blocks(d) ==> {
                            let b = #[trigger] crate::layout::inode_block_id(d, old(fs).disk(), i) as int;
                            old(fs).data_area_start() <= b < old(fs).data_area_start() + old(fs).data_area_len()
                                ==> !fs.used_data().contains(b - old(fs).data_area_start())
                        }
                } by {
                assert(d == di0);
                assert forall|i: int| 0 <= i < crate::layout::inode_blocks(d) implies {
                    let b = #[trigger] crate::layout::inode_block_id(d, old(fs).disk(), i) as int;
                    old(fs).data_area_start() <= b < old(fs).data_area_start() + old(fs).data_area_len()
                        ==> !fs.used_data().contains(b - old(fs).data_area_start())
                } by {
                    let b = crate::layout::inode_block_id(d, old(fs).disk(), i);
                    assert(v@.contains(b));
                    let j = choose|j: int| 0 <= j < v@.len() && v@[j] == b;
                    assert(fs3.used_data() == fs.used_data());
                }
            }
        }
    }
}

/// Whether `path` is a single, non-empty component.
fn is_single_name(path: &[u8]) -> (r: bool)
    ensures
        r == single_name(path@),
{
    let n = path.len();
    if n == 0 {
        return false;
    }
    let mut i: usize = 0;
    while i < n
        invariant
            n == path@.len(),
            i <= n,
            forall|j: int| 0 <= j < i ==> #[trigger] path@[j] != 47u8,
        decreases n - i,
    {
        if path[i] == 47u8 {
            return false;
        }
        i = i + 1;
    }
    true
}

/// Whether `name` is a valid, non-empty file name.
fn name_ok(name: &[u8]) -> (r: bool)
    ensures
        r == (valid_name(name@) && name@.len() > 0),
{
    let n = name.len();
    if n == 0 || n > crate::layout::NAME_LENGTH_LIMIT {
        return false;
    }
    let mut i: usize = 0;
    while i < n
        invariant
            n == name@.len(),
            i <= n,
            forall|j: int| 0 <= j < i ==> #[trigger] name@[j] != 0,
        decreases n - i,
    {
        if name[i] == 0 {
            return false;
        }
        i = i + 1;
    }
    true
}

/// No data or index block of `di` is block `b`.
pub open spec fn record_apart(di: DiskInode, disk: Seq<Seq<u8>>, b: int) -> bool {
    &&& !is_index_block(di, disk, b)
    &&& forall|i: int| 0 <= i < inode_blocks(di) ==> #[trigger] inode_block_id(di, disk, i) != b
}

/// Rewriting block `b`, when it holds none of the file's blocks, leaves the
/// file's bytes alone.
proof fn lemma_content_frame(di: DiskInode, d0: Seq<Seq<u8>>, d1: Seq<Seq<u8>>, b: int)
    requires
        inode_readable(di, d0),
        record_apart(di, d0, b),
        d0.len() == d1.len(),
        forall|c: int| 0 <= c < d0.len() && c != b ==> #[trigger] d1[c] == d0[c],
    ensures
        inode_content(di, d1) == inode_content(di, d0),
        record_apart(di, d1, b),
        inode_readable(di, d1),
{
    crate::layout::lemma_index_frame(di, d0, d1);
    assert forall|p: int| 0 <= p < di.size implies #[trigger] inode_content(di, d1)[p] == inode_content(di, d0)[p] by {
        let ip = p / 512;
        vstd::arithmetic::div_mod::lemma_div_is_ordered(p, di.size + 511, 512);
        vstd::arithmetic::div_mod::lemma_fundamental_div_mod(p, 512);
        vstd::arithmetic::div_mod::lemma_fundamental_div_mod(di.size + 511, 512);
        assert(0 <= ip < inode_blocks(di));
        assert(index_path_ok(di, d0, ip));
        assert(inode_block_id(di, d0, ip) != b);
    }
    assert(inode_content(di, d1) =~= inode_content(di, d0));
    assert forall|i: int| 0 <= i < inode_blocks(di) implies #[trigger] inode_block_id(di, d1, i) != b by {
        assert(inode_block_id(di, d0, i) != b);
    }
}

/// The 32 bytes of entry `k` of a directory, read off its content, name
/// that entry.
proof fn lemma_entry_bytes(content: Seq<u8>, buf: Seq<u8>, k: int)
    requires
        0 <= k,
        DIRENT_SZ * k + DIRENT_SZ <= content.len(),
        buf.len() == DIRENT_SZ,
        buf.subrange(0, DIRENT_SZ as int) == content.subrange(DIRENT_SZ * k, DIRENT_SZ * k + DIRENT_SZ),
    ensures
        buf.subrange(0, 28) == content.subrange(DIRENT_SZ * k, DIRENT_SZ * k + 28),
        le_u32(buf, 28) == entry_inode(content, k),
{
    assert forall|t: int| 0 <= t < DIRENT_SZ implies #[trigger] buf[t] == content[DIRENT_SZ * k + t] by {
        assert(buf.subrange(0, DIRENT_SZ as int)[t] == buf[t]);
    }
    assert(buf.subrange(0, 28) =~= content.subrange(DIRENT_SZ * k, DIRENT_SZ * k + 28));
}

/// Data blocks needed for `size` bytes.
fn ceil_blocks_u32(size: u32) -> (r: u32)
    ensures
        r == ceil_blocks(size as nat),
{
    ((size as u64 + 511) / 512) as u32
}

/// Two records that the same bytes hold are the same record.
proof fn lemma_holds_unique<D: BlockDevice>(ino: &Inode, fs: EasyFileSystem<D>, di: DiskInode)
    requires
        ino.holds(&fs, di),
    ensures
        forall|e: DiskInode| #[trigger] ino.holds(&fs, e) ==> e == di,
{
    assert forall|e: DiskInode| #[trigger] ino.holds(&fs, e) implies e == di by {
        assert(e.direct =~= di.direct);
    }
}

} // verus!
