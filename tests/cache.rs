use easy_fs::block_cache::BLOCK_CACHE_SIZE;
use easy_fs::{block_cache_sync_all, BlockCache, BlockCacheManager, BlockDevice, MemDevice, BLOCK_SZ};

#[test]
fn lib_test_block_cache() {
    let manager: BlockCacheManager<MemDevice> = BlockCacheManager::new(MemDevice::new(8));
    assert_eq!(manager.resident_count(), 0);
}

#[test]
fn test_test_block_cache() {
    let mut manager = BlockCacheManager::new(MemDevice::new(64));
    manager.modify(3, 10, &[1, 2, 3]);
    assert_eq!(manager.read(3, 9, 5), vec![0, 1, 2, 3, 0]);
    assert_eq!(manager.resident_count(), 1);
    // still only in memory
    let mut raw = [0u8; BLOCK_SZ];
    manager.device().read_block(3, &mut raw);
    assert_eq!(&raw[9..14], &[0, 0, 0, 0, 0]);
    block_cache_sync_all(&mut manager);
    manager.device().read_block(3, &mut raw);
    assert_eq!(&raw[9..14], &[0, 1, 2, 3, 0]);
}

#[test]
fn modify_marks_dirty_and_sync_writes_once() {
    let mut dev = MemDevice::new(4);
    let mut cache = BlockCache::new(2, &dev);
    assert!(!cache.is_modified());
    cache.sync(&mut dev);
    assert_eq!(dev.writes(), 0);
    cache.modify(0, &[]);
    assert!(cache.is_modified());
    cache.sync(&mut dev);
    assert_eq!(dev.writes(), 1);
    assert!(!cache.is_modified());
    cache.sync(&mut dev);
    assert_eq!(dev.writes(), 1);
    cache.modify(500, &[9, 9]);
    cache.sync(&mut dev);
    assert_eq!(dev.writes(), 2);
    let mut raw = [0u8; BLOCK_SZ];
    dev.read_block(2, &mut raw);
    assert_eq!(&raw[500..502], &[9, 9]);
    assert_eq!(cache.block_id(), 2);
    assert_eq!(cache.read(499, 3), vec![0, 9, 9]);
}

#[test]
fn eviction_writes_back_the_oldest_unheld_block() {
    let mut manager = BlockCacheManager::new(MemDevice::new(40));
    for b in 0..BLOCK_CACHE_SIZE {
        manager.modify(b, 0, &[b as u8 + 1]);
    }
    assert_eq!(manager.resident_count(), BLOCK_CACHE_SIZE);
    assert_eq!(manager.device().writes(), 0);
    // a 17th block pushes out block 0, which is written back
    assert_eq!(manager.read(20, 0, 1), vec![0]);
    assert_eq!(manager.resident_count(), BLOCK_CACHE_SIZE);
    assert_eq!(manager.device().writes(), 1);
    let mut raw = [0u8; BLOCK_SZ];
    manager.device().read_block(0, &mut raw);
    assert_eq!(raw[0], 1);
    // the evicted block reads back the same
    assert_eq!(manager.read(0, 0, 1), vec![1]);
}

#[test]
fn pinned_blocks_are_not_evicted() {
    let mut manager = BlockCacheManager::new(MemDevice::new(40));
    for b in 0..BLOCK_CACHE_SIZE {
        assert!(manager.can_get(b));
        manager.get_block_cache(b);
    }
    assert_eq!(manager.resident_count(), 16);
    // a resident block can still be handed out, a new one cannot
    assert!(manager.can_get(5));
    assert!(!manager.can_get(16));
    manager.release(7);
    assert!(manager.can_get(16));
    manager.modify(16, 0, &[5]);
    assert_eq!(manager.resident_count(), 16);
    assert_eq!(manager.read(16, 0, 1), vec![5]);
    // block 16 is held by nobody, so it can make room for block 7
    assert!(manager.can_get(7));
    manager.get_block_cache(16);
    assert!(!manager.can_get(7));
}

#[test]
fn sync_all_flushes_everything() {
    let mut manager = BlockCacheManager::new(MemDevice::new(8));
    manager.modify(1, 0, &[1]);
    manager.modify(2, 0, &[2]);
    let _ = manager.read(3, 0, 4);
    manager.sync_all();
    assert_eq!(manager.device().writes(), 2);
    manager.sync_all();
    assert_eq!(manager.device().writes(), 2);
    assert_eq!(manager.block_count(), 8);
}
