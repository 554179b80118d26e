use easy_fs::bitmap::Bitmap;
use easy_fs::{BlockCacheManager, MemDevice};

const VIRTIO0: usize = 0x10001000;

#[test]
fn lib_test_bitmap() {
    let bitmap1 = Bitmap::new(VIRTIO0, 100);
    assert_eq!(409600, (&bitmap1).maximum());
}

#[test]
fn maximum_of_ten_blocks() {
    assert_eq!(Bitmap::new(1, 10).maximum(), 40960);
    assert_eq!(Bitmap::new(0, 0).maximum(), 0);
}

#[test]
fn alloc_takes_lowest_free_bit() {
    let mut cache = BlockCacheManager::new(MemDevice::new(8));
    let bm = Bitmap::new(2, 2);
    for i in 0..70 {
        assert_eq!(bm.alloc_bit(&mut cache), Some(i));
    }
    bm.dealloc(&mut cache, 3);
    bm.dealloc(&mut cache, 65);
    assert_eq!(bm.alloc_bit(&mut cache), Some(3));
    assert_eq!(bm.alloc_bit(&mut cache), Some(65));
    assert_eq!(bm.alloc_bit(&mut cache), Some(70));
    // bit 5 is byte 0, bit 5 of block 2; bit 65 is word 1, bit 1
    assert_eq!(cache.read(2, 0, 1), vec![0xff]);
    assert_eq!(cache.read(2, 8, 1)[0] & 0b10, 0b10);
}

#[test]
fn alloc_moves_to_the_next_block_and_runs_out() {
    let mut cache = BlockCacheManager::new(MemDevice::new(4));
    let bm = Bitmap::new(1, 2);
    for i in 0..8192 {
        assert_eq!(bm.alloc_bit(&mut cache), Some(i));
    }
    assert_eq!(bm.alloc_bit(&mut cache), None);
    bm.dealloc(&mut cache, 4096);
    assert_eq!(bm.alloc_bit(&mut cache), Some(4096));
    assert_eq!(bm.alloc_bit(&mut cache), None);
}

#[test]
fn free_all_in_any_order_restores_a_clear_bitmap() {
    let mut cache = BlockCacheManager::new(MemDevice::new(4));
    let bm = Bitmap::new(1, 1);
    let max = bm.maximum();
    let n = 300;
    let mut got = Vec::new();
    for _ in 0..n {
        got.push(bm.alloc_bit(&mut cache).unwrap());
    }
    // free in a scrambled order
    let mut order: Vec<usize> = (0..n).map(|i| (i * 7) % n).collect();
    order.dedup();
    assert_eq!(order.len(), n);
    for i in order {
        bm.dealloc(&mut cache, got[i]);
    }
    assert_eq!(cache.read(1, 0, 512), vec![0u8; 512]);
    assert_eq!(bm.maximum(), max);
    assert_eq!(bm.alloc_bit(&mut cache), Some(0));
}

#[test]
fn test_test_bitmap() {
    let device = MemDevice::new(131072);
    let bitmap1 = Bitmap::new(VIRTIO0, 100);
    assert_eq!(bitmap1.maximum(), 409600);
    let mut cache = BlockCacheManager::new(device);
    let near = Bitmap::new(131072 - 100, 100);
    assert_eq!(near.alloc_bit(&mut cache), Some(0));
    near.dealloc(&mut cache, 0);
    assert_eq!(near.alloc_bit(&mut cache), Some(0));
}
