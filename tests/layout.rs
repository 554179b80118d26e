use easy_fs::layout::{
    DirEntry, DiskInode, DiskInodeType, SuperBlock, EFS_MAGIC, INODE_DIRECT_COUNT,
};
use easy_fs::{BlockCacheManager, MemDevice, BLOCK_SZ};

#[test]
fn test_layout() {
    let mut superblock = SuperBlock {
        magic: 0x3b800001,
        total_blocks: 512,
        inode_bitmap_blocks: 1,
        inode_area_blocks: 1,
        data_bitmap_blocks: 1,
        data_area_blocks: 1,
    };
    (&mut superblock).initialize(0x3b800001, 10, 10, 10, 10);
    assert_eq!(true, (&superblock).is_valid());

    let mut diskinode = DiskInode {
        size: 0,
        direct: [0; INODE_DIRECT_COUNT],
        indirect1: 0,
        indirect2: 0,
        type_: DiskInodeType::File,
    };
    (&mut diskinode).initialize(DiskInodeType::Directory);
    assert_eq!(true, (&diskinode).is_dir());

    (&mut diskinode).initialize(DiskInodeType::File);
    assert_eq!(true, (&diskinode).is_file());
    let datablocks = (&diskinode).data_blocks();
    assert_eq!(0, datablocks);
    let tolal1 = DiskInode::total_blocks(4096);
    let tolal2 = DiskInode::total_blocks(13825);
    let tolal3 = DiskInode::total_blocks(79360);
    assert_eq!(8, tolal1);
    assert_eq!(28, tolal2);
    assert_eq!(156, tolal3);
    let needed1 = (&diskinode).blocks_num_needed(4096);
    assert_eq!(8, needed1);
}

fn blank_inode() -> DiskInode {
    DiskInode {
        size: 0,
        direct: [0; INODE_DIRECT_COUNT],
        indirect1: 0,
        indirect2: 0,
        type_: DiskInodeType::File,
    }
}

#[test]
fn inode_type_tests_are_exclusive() {
    let mut d = blank_inode();
    d.initialize(DiskInodeType::Directory);
    assert!(d.is_dir());
    assert!(!d.is_file());
    d.initialize(DiskInodeType::File);
    assert!(d.is_file());
    assert!(!d.is_dir());
}

#[test]
fn initialize_clears_every_field() {
    let mut d = DiskInode {
        size: 77,
        direct: [9; INODE_DIRECT_COUNT],
        indirect1: 5,
        indirect2: 6,
        type_: DiskInodeType::File,
    };
    d.initialize(DiskInodeType::Directory);
    assert_eq!(d.size, 0);
    assert_eq!(d.direct, [0; INODE_DIRECT_COUNT]);
    assert_eq!(d.indirect1, 0);
    assert_eq!(d.indirect2, 0);
    assert_eq!(d.type_, DiskInodeType::Directory);
}

#[test]
fn total_blocks_values_and_order() {
    assert_eq!(DiskInode::total_blocks(0), 0);
    assert_eq!(DiskInode::total_blocks(1), 1);
    assert_eq!(DiskInode::total_blocks(512), 1);
    assert_eq!(DiskInode::total_blocks(513), 2);
    // 28 data blocks: still direct only
    assert_eq!(DiskInode::total_blocks(28 * 512), 28);
    // 29 data blocks: indirect1 comes in
    assert_eq!(DiskInode::total_blocks(28 * 512 + 1), 30);
    // 156 data blocks: indirect1 full
    assert_eq!(DiskInode::total_blocks(156 * 512), 157);
    // 157 data blocks: indirect2 and its first index block
    assert_eq!(DiskInode::total_blocks(156 * 512 + 1), 160);
    // 157 + 128 data blocks: a second index block under indirect2
    assert_eq!(DiskInode::total_blocks((156 + 128) * 512 + 1), 160 + 128 + 1);
    let mut last = 0;
    let mut size = 0u32;
    while size < 200_000 {
        let t = DiskInode::total_blocks(size);
        assert!(t >= last);
        last = t;
        size += 97;
    }
}

#[test]
fn blocks_num_needed_is_the_difference() {
    let mut d = blank_inode();
    d.size = 4096;
    assert_eq!(d.blocks_num_needed(4096), 0);
    assert_eq!(d.blocks_num_needed(28 * 512 + 1), 30 - 8);
    assert_eq!(
        d.blocks_num_needed(79360),
        DiskInode::total_blocks(79360) - DiskInode::total_blocks(4096)
    );
}

#[test]
fn data_blocks_rounds_up() {
    let mut d = blank_inode();
    d.size = 600;
    assert_eq!(d.data_blocks(), 2);
    d.size = 1024;
    assert_eq!(d.data_blocks(), 2);
    d.size = 1025;
    assert_eq!(d.data_blocks(), 3);
}

#[test]
fn super_block_round_trip() {
    let mut sb = SuperBlock {
        magic: 0,
        total_blocks: 0,
        inode_bitmap_blocks: 0,
        inode_area_blocks: 0,
        data_bitmap_blocks: 0,
        data_area_blocks: 0,
    };
    assert!(!sb.is_valid());
    sb.initialize(8192, 1, 1024, 2, 7164);
    assert_eq!(sb.magic, EFS_MAGIC);
    let bytes = sb.encode();
    assert_eq!(bytes.len(), 24);
    assert_eq!(&bytes[0..4], &[0x01, 0x00, 0x80, 0x3b]);
    assert_eq!(&bytes[4..8], &[0x00, 0x20, 0x00, 0x00]);
    let back = SuperBlock::decode(&bytes);
    assert!(back.is_valid());
    assert_eq!(back.total_blocks, 8192);
    assert_eq!(back.inode_area_blocks, 1024);
    assert_eq!(back.data_area_blocks, 7164);
}

#[test]
fn disk_inode_round_trip() {
    let mut d = blank_inode();
    d.initialize(DiskInodeType::Directory);
    d.size = 0x0102_0304;
    d.direct[0] = 7;
    d.direct[27] = 0xdead_beef;
    d.indirect1 = 99;
    d.indirect2 = 100;
    let bytes = d.encode();
    assert_eq!(bytes.len(), 128);
    assert_eq!(&bytes[0..4], &[4, 3, 2, 1]);
    assert_eq!(&bytes[124..128], &[1, 0, 0, 0]);
    let back = DiskInode::decode(&bytes, 0);
    assert_eq!(back.size, d.size);
    assert_eq!(back.direct, d.direct);
    assert_eq!(back.indirect1, 99);
    assert_eq!(back.indirect2, 100);
    assert!(back.is_dir());
}

#[test]
fn dir_entry_bytes() {
    let e = DirEntry::new(b"hello", 42);
    assert_eq!(e.name(), b"hello".to_vec());
    assert_eq!(e.inode_number(), 42);
    let bytes = e.as_bytes();
    assert_eq!(bytes.len(), 32);
    assert_eq!(&bytes[0..5], b"hello");
    assert!(bytes[5..28].iter().all(|b| *b == 0));
    assert_eq!(&bytes[28..32], &[42, 0, 0, 0]);
    let back = DirEntry::decode(&bytes, 0);
    assert_eq!(back.name(), b"hello".to_vec());
    assert_eq!(back.inode_number(), 42);
    let long = DirEntry::new(&[b'x'; 27], 1);
    assert_eq!(long.name().len(), 27);
    let empty = DirEntry::empty();
    assert_eq!(empty.name(), Vec::<u8>::new());
    assert_eq!(empty.inode_number(), 0);
}

fn put_u32(cache: &mut BlockCacheManager<MemDevice>, block: usize, index: usize, v: u32) {
    cache.modify(block, index * 4, &v.to_le_bytes());
}

#[test]
fn get_block_id_routes_through_each_level() {
    let mut cache = BlockCacheManager::new(MemDevice::new(64));
    let mut d = blank_inode();
    for i in 0..INODE_DIRECT_COUNT {
        d.direct[i] = 100 + i as u32;
    }
    d.indirect1 = 10;
    d.indirect2 = 11;
    for k in 0..128 {
        put_u32(&mut cache, 10, k, 1000 + k as u32);
    }
    put_u32(&mut cache, 11, 0, 12);
    put_u32(&mut cache, 11, 1, 13);
    put_u32(&mut cache, 12, 0, 5000);
    put_u32(&mut cache, 12, 127, 5127);
    put_u32(&mut cache, 13, 0, 6000);
    d.size = (16_540 * BLOCK_SZ) as u32;
    assert_eq!(d.get_block_id(0, &mut cache), 100);
    assert_eq!(d.get_block_id(27, &mut cache), 127);
    assert_eq!(d.get_block_id(28, &mut cache), 1000);
    assert_eq!(d.get_block_id(155, &mut cache), 1127);
    assert_eq!(d.get_block_id(156, &mut cache), 5000);
    assert_eq!(d.get_block_id(156 + 127, &mut cache), 5127);
    assert_eq!(d.get_block_id(156 + 128, &mut cache), 6000);
}

#[test]
fn grow_then_clear_returns_every_block() {
    let mut cache = BlockCacheManager::new(MemDevice::new(400));
    let mut d = blank_inode();
    // 160 data blocks: 28 direct, 128 under indirect1, 4 under indirect2
    let size = 160 * 512;
    let needed = d.blocks_num_needed(size) as usize;
    assert_eq!(needed, 160 + 1 + 2);
    let blocks: Vec<u32> = (200..200 + needed as u32).collect();
    d.increase_size(size, blocks.clone(), &mut cache);
    assert_eq!(d.size, size);
    assert_eq!(d.direct[0], 200);
    assert_eq!(d.direct[27], 227);
    assert_eq!(d.indirect1, 228);
    assert_eq!(d.get_block_id(28, &mut cache), 229);
    assert_eq!(d.get_block_id(155, &mut cache), 356);
    assert_eq!(d.indirect2, 357);
    assert_eq!(d.get_block_id(156, &mut cache), 359);
    assert_eq!(d.get_block_id(159, &mut cache), 362);
    let mut freed = d.clear_size(&mut cache);
    assert_eq!(d.size, 0);
    assert_eq!(d.indirect1, 0);
    assert_eq!(d.indirect2, 0);
    freed.sort();
    assert_eq!(freed, blocks);
}

#[test]
fn write_then_read_inside_one_inode() {
    let mut cache = BlockCacheManager::new(MemDevice::new(64));
    let mut d = blank_inode();
    let blocks: Vec<u32> = (20..23).collect();
    d.increase_size(1200, blocks, &mut cache);
    let data: Vec<u8> = (0..1200).map(|i| (i % 251) as u8).collect();
    assert_eq!(d.write_at(0, &data, &mut cache), 1200);
    let mut buf = vec![0u8; 2000];
    assert_eq!(d.read_at(0, &mut buf, &mut cache), 1200);
    assert_eq!(&buf[..1200], &data[..]);
    let mut part = vec![0u8; 100];
    assert_eq!(d.read_at(1150, &mut part, &mut cache), 50);
    assert_eq!(&part[..50], &data[1150..]);
    assert_eq!(d.read_at(1200, &mut part, &mut cache), 0);
    // a write that runs past the end stops at the end
    assert_eq!(d.write_at(1190, &[7u8; 30], &mut cache), 10);
}
