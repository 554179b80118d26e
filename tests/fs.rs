use easy_fs::{BlockDevice, EasyFileSystem, MemDevice};

fn fresh() -> EasyFileSystem<MemDevice> {
    EasyFileSystem::create(MemDevice::new(4096), 4096, 1)
}

#[test]
fn lib_test_efs() {
    let mut efs = fresh();
    efs.sync();
    let dev = efs.cache().device();
    assert!(EasyFileSystem::can_open(dev));
    let copy = copy_device(dev);
    let mut reopened = EasyFileSystem::open(copy);
    let root = reopened.root_inode();
    assert_eq!(root.readdir(&mut reopened), Vec::<Vec<u8>>::new());
}

fn copy_device(dev: &MemDevice) -> MemDevice {
    let n = dev.num_blocks();
    let mut out = MemDevice::new(n);
    let mut buf = [0u8; 512];
    for b in 0..n {
        dev.read_block(b, &mut buf);
        out.write_block(b, &buf);
    }
    out
}

#[test]
fn test_test_efs() {
    let mut efs = fresh();
    // inode 0 is the root directory; the next inode is 1
    assert_eq!(efs.alloc_inode(), Some(1));
    let (block, offset) = efs.get_disk_inode_position(1);
    assert_eq!(block, 2);
    assert_eq!(offset, 128);
    assert_eq!(efs.get_disk_inode_position(5), (3, 128));
    // data blocks start after the superblock, 1 inode bitmap block,
    // 1024 inode area blocks and 1 data bitmap block
    let first = efs.alloc_data().unwrap();
    assert_eq!(first, 1027);
    assert_eq!(efs.get_data_block_id(0), 1027);
    assert!(efs.data_in_use(first));
    efs.modify_block(first as usize, 0, &[0xaa; 16]);
    efs.dealloc_data(first);
    assert!(!efs.data_in_use(first));
    assert_eq!(efs.read_block(first as usize, 0, 16), vec![0u8; 16]);
    assert_eq!(efs.alloc_data(), Some(first));
}

#[test]
fn blank_device_cannot_be_opened() {
    let dev = MemDevice::new(16);
    assert!(!EasyFileSystem::can_open(&dev));
    let empty = MemDevice::new(0);
    assert!(!EasyFileSystem::can_open(&empty));
}

#[test]
fn superblock_of_a_new_volume() {
    let mut efs = fresh();
    let sb = easy_fs::SuperBlock::decode(&efs.read_block(0, 0, 24));
    assert!(sb.is_valid());
    assert_eq!(sb.total_blocks, 4096);
    assert_eq!(sb.inode_bitmap_blocks, 1);
    assert_eq!(sb.inode_area_blocks, 1024);
    assert_eq!(sb.data_bitmap_blocks, 1);
    assert_eq!(sb.data_area_blocks, 4096 - 1 - 1 - 1024 - 1);
}

#[test]
fn data_area_runs_out() {
    // 1 + 1025 + 1 bitmap block + 3 data blocks
    let mut efs = EasyFileSystem::create(MemDevice::new(1030), 1030, 1);
    assert_eq!(efs.alloc_data(), Some(1027));
    assert_eq!(efs.alloc_data(), Some(1028));
    assert_eq!(efs.alloc_data(), Some(1029));
    assert_eq!(efs.alloc_data(), None);
}

#[test]
fn lib_test_file() {
    let mut efs = fresh();
    let root = efs.root_inode();
    let f = root.create("f", &mut efs).unwrap();
    let data: Vec<u8> = (0..600u32).map(|i| (i * 7 % 256) as u8).collect();
    assert_eq!(f.write_at(0, &data, &mut efs), 600);
    let mut buf = vec![0u8; 600];
    assert_eq!(f.read_at(0, &mut buf, &mut efs), 600);
    assert_eq!(buf, data);
}

#[test]
fn test_test_file() {
    let mut efs = fresh();
    let root = efs.root_inode();
    let f = root.create("big", &mut efs).unwrap();
    // cross into the second level of the index
    let len = 160 * 512 + 17;
    let data: Vec<u8> = (0..len).map(|i| (i % 253) as u8).collect();
    assert_eq!(f.write_at(0, &data, &mut efs), len);
    let mut buf = vec![0u8; len + 100];
    assert_eq!(f.read_at(0, &mut buf, &mut efs), len);
    assert_eq!(&buf[..len], &data[..]);
    // overwrite in the middle
    assert_eq!(f.write_at(1000, b"hello", &mut efs), 5);
    let mut small = [0u8; 7];
    assert_eq!(f.read_at(999, &mut small, &mut efs), 7);
    assert_eq!(&small, &[data[999], b'h', b'e', b'l', b'l', b'o', data[1005]]);
    // reading past the end gives nothing
    assert_eq!(f.read_at(len, &mut small, &mut efs), 0);
    // clearing gives the blocks back and empties the file
    f.clear(&mut efs);
    assert_eq!(f.read_at(0, &mut small, &mut efs), 0);
    let g = root.create("g", &mut efs).unwrap();
    assert_eq!(g.write_at(0, b"abc", &mut efs), 3);
    // the freed blocks are reused from the lowest one on
    assert_eq!(efs.alloc_data(), Some(1027 + 2));
}

#[test]
fn test_vfs() {
    let mut efs = fresh();
    let root = efs.root_inode();
    assert!(root.create("a", &mut efs).is_some());
    assert!(root.create("b", &mut efs).is_some());
    assert!(root.create("c", &mut efs).is_some());
    let names = root.readdir(&mut efs);
    assert_eq!(names, vec![b"a".to_vec(), b"b".to_vec(), b"c".to_vec()]);
    assert!(root.find("b", &mut efs).is_some());
    assert!(root.find("/b", &mut efs).is_some());
    assert!(root.find("d", &mut efs).is_none());
    // a file cannot be walked through
    assert!(root.find("a/x", &mut efs).is_none());
}

#[test]
fn create_refuses_taken_and_bad_names() {
    let mut efs = fresh();
    let root = efs.root_inode();
    assert!(root.create("x", &mut efs).is_some());
    assert!(root.create("x", &mut efs).is_none());
    assert!(root.create("", &mut efs).is_none());
    let long = "y".repeat(28);
    assert!(root.create(&long, &mut efs).is_none());
    let ok = "z".repeat(27);
    assert!(root.create(&ok, &mut efs).is_some());
    assert_eq!(root.readdir(&mut efs).len(), 2);
}

#[test]
fn found_file_shares_its_data() {
    let mut efs = fresh();
    let root = efs.root_inode();
    let f = root.create("notes", &mut efs).unwrap();
    assert_eq!(f.write_at(0, b"first", &mut efs), 5);
    let again = root.find("notes", &mut efs).unwrap();
    let mut buf = [0u8; 5];
    assert_eq!(again.read_at(0, &mut buf, &mut efs), 5);
    assert_eq!(&buf, b"first");
    // a write past the end grows the file and leaves a zero gap
    assert_eq!(again.write_at(10, b"!", &mut efs), 1);
    let mut all = [9u8; 11];
    assert_eq!(f.read_at(0, &mut all, &mut efs), 11);
    assert_eq!(&all, b"first\0\0\0\0\0!");
}

#[test]
fn many_entries_span_blocks() {
    let mut efs = fresh();
    let root = efs.root_inode();
    for i in 0..40 {
        let name = format!("file{}", i);
        assert!(root.create(&name, &mut efs).is_some());
    }
    let names = root.readdir(&mut efs);
    assert_eq!(names.len(), 40);
    assert_eq!(names[39], b"file39".to_vec());
    assert!(root.find("file17", &mut efs).is_some());
}

#[test]
fn contents_survive_reopening() {
    let mut efs = fresh();
    let root = efs.root_inode();
    let f = root.create("keep", &mut efs).unwrap();
    assert_eq!(f.write_at(0, b"persisted", &mut efs), 9);
    let copy = copy_device(efs.cache().device());
    let mut again = EasyFileSystem::open(copy);
    let root2 = again.root_inode();
    let g = root2.find("keep", &mut again).unwrap();
    let mut buf = [0u8; 9];
    assert_eq!(g.read_at(0, &mut buf, &mut again), 9);
    assert_eq!(&buf, b"persisted");
}
