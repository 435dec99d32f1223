use easy_fs::{block_cache_syn_all, BlockCache, BlockCacheManager, BlockDevice, MemBlockDevice};

#[test]
fn fresh_device_reads_zeroes() {
    let dev = MemBlockDevice::new();
    let mut buf = Vec::new();
    dev.read_block(42, &mut buf);
    assert_eq!(buf.len(), 512);
    assert!(buf.iter().all(|b| *b == 0));
}

#[test]
fn device_write_then_read_back() {
    let mut dev = MemBlockDevice::new();
    let block: Vec<u8> = (0..512).map(|i| (i % 251) as u8).collect();
    dev.write_block(7, &block);
    let mut buf = Vec::new();
    dev.read_block(7, &mut buf);
    assert_eq!(buf, block);
    let mut other = Vec::new();
    dev.read_block(8, &mut other);
    assert!(other.iter().all(|b| *b == 0));
}

#[test]
fn block_cache_modify_read_sync() {
    let mut dev = MemBlockDevice::new();
    let mut cache = BlockCache::new(3, &dev);
    let data = vec![0xabu8, 0xcd, 0xef];
    cache.modify(100, &data);
    assert_eq!(cache.read(100, 3), data);
    // Not yet on the device.
    let mut raw = Vec::new();
    dev.read_block(3, &mut raw);
    assert_eq!(raw[100], 0);
    cache.sync(&mut dev);
    dev.read_block(3, &mut raw);
    assert_eq!(&raw[100..103], &data[..]);
}

#[test]
fn same_id_twice_shares_the_same_bytes() {
    let mut dev = MemBlockDevice::new();
    let mut cm = BlockCacheManager::new();
    // First handle.
    cm.get_block_cache(9, &mut dev);
    let payload = vec![1u8, 2, 3, 4];
    cm.write_bytes(9, 10, &payload, &mut dev);
    // Second handle while the first is still held: mutations through the
    // first are visible through the second.
    cm.get_block_cache(9, &mut dev);
    assert_eq!(cm.read_bytes(9, 10, 4, &mut dev), payload);
    cm.release_block_cache(9);
    cm.release_block_cache(9);
}

#[test]
fn evicted_dirty_block_survives_on_device() {
    let mut dev = MemBlockDevice::new();
    let mut cm = BlockCacheManager::new();
    let payload = vec![9u8, 8, 7, 6, 5];
    cm.write_bytes(100, 0, &payload, &mut dev);
    // Touch 16 other blocks so block 100 is evicted (written back first).
    for id in 0..16 {
        cm.get_block_cache(id, &mut dev);
        cm.release_block_cache(id);
    }
    assert!(!cm.is_resident(100));
    let mut raw = Vec::new();
    dev.read_block(100, &mut raw);
    assert_eq!(&raw[0..5], &payload[..]);
    // Reading through the cache sees the same bytes again.
    assert_eq!(cm.read_bytes(100, 0, 5, &mut dev), payload);
}

#[test]
fn seventeenth_block_evicts_first_inserted() {
    let mut dev = MemBlockDevice::new();
    let mut cm = BlockCacheManager::new();
    for id in 0..17 {
        cm.get_block_cache(id, &mut dev);
        cm.release_block_cache(id);
    }
    // Capacity is 16: the 17th distinct block pushed out the first.
    assert!(!cm.is_resident(0));
    for id in 1..17 {
        assert!(cm.is_resident(id));
    }
}

#[test]
fn all_pinned_cache_refuses_seventeenth() {
    let mut dev = MemBlockDevice::new();
    let mut cm = BlockCacheManager::new();
    for id in 0..16 {
        cm.get_block_cache(id, &mut dev);
    }
    // Every slot is pinned: no eviction candidate for a 17th block.
    assert!(!cm.try_get_block_cache(16, &mut dev));
    // A resident block can still be obtained.
    assert!(cm.try_get_block_cache(3, &mut dev));
    cm.release_block_cache(3);
    // Releasing one pin makes room again.
    cm.release_block_cache(5);
    assert!(cm.try_get_block_cache(16, &mut dev));
    cm.release_block_cache(16);
}

#[test]
fn sync_all_flushes_every_dirty_block() {
    let mut dev = MemBlockDevice::new();
    let mut cm = BlockCacheManager::new();
    for id in 0..5u8 {
        let payload = vec![id + 1; 4];
        cm.write_bytes(id as usize, 0, &payload, &mut dev);
    }
    block_cache_syn_all(&mut cm, &mut dev);
    for id in 0..5u8 {
        let mut raw = Vec::new();
        dev.read_block(id as usize, &mut raw);
        assert_eq!(&raw[0..4], &[id + 1; 4][..]);
    }
}
