use easy_fs::{BlockCacheManager, DiskInode, DiskInodeType, MemBlockDevice};

fn ids(from: u32, count: u32) -> Vec<u32> {
    (from..from + count).collect()
}

#[test]
fn data_blocks_is_ceiling_of_size() {
    let mut ino = DiskInode::new(DiskInodeType::File);
    assert_eq!(ino.data_blocks(), 0);
    ino.size = 1;
    assert_eq!(ino.data_blocks(), 1);
    ino.size = 511;
    assert_eq!(ino.data_blocks(), 1);
    ino.size = 512;
    assert_eq!(ino.data_blocks(), 1);
    ino.size = 513;
    assert_eq!(ino.data_blocks(), 2);
    ino.size = 28 * 512;
    assert_eq!(ino.data_blocks(), 28);
}

#[test]
fn total_blocks_counts_index_blocks() {
    assert_eq!(DiskInode::total_blocks(0), 0);
    assert_eq!(DiskInode::total_blocks(512), 1);
    assert_eq!(DiskInode::total_blocks(28 * 512), 28);
    // One more byte crosses into the indirect tier: data 29 plus the
    // indirect block.
    assert_eq!(DiskInode::total_blocks(28 * 512 + 1), 30);
    assert_eq!(DiskInode::total_blocks(156 * 512), 157);
    // Crossing into the double indirect tier adds the double indirect
    // block and the first second-level index block.
    assert_eq!(DiskInode::total_blocks(156 * 512 + 1), 160);
    assert_eq!(DiskInode::total_blocks(160 * 512), 163);
}

#[test]
fn total_blocks_is_monotonic() {
    let sizes = [
        0u32,
        1,
        511,
        512,
        513,
        28 * 512 - 1,
        28 * 512,
        28 * 512 + 1,
        100 * 512,
        156 * 512,
        156 * 512 + 1,
        200 * 512,
        16540 * 512,
    ];
    for w in sizes.windows(2) {
        assert!(DiskInode::total_blocks(w[0]) <= DiskInode::total_blocks(w[1]));
    }
}

#[test]
fn kind_and_initialize() {
    let ino = DiskInode::new(DiskInodeType::Directory);
    assert!(ino.is_dir());
    assert!(!ino.is_file());
    let mut ino2 = ino;
    ino2.initialize(DiskInodeType::File);
    assert!(ino2.is_file());
    assert_eq!(ino2.size, 0);
}

#[test]
fn growth_wires_supplied_ids_in_tier_order() {
    let mut dev = MemBlockDevice::new();
    let mut cm = BlockCacheManager::new();
    let mut ino = DiskInode::new(DiskInodeType::File);
    // First growth: 10 data blocks, ids 1..=10.
    let n1 = ino.block_num_needed(10 * 512);
    assert_eq!(n1, 10);
    ino.increase_size(10 * 512, ids(1, n1), &mut cm, &mut dev);
    assert_eq!(ino.size, 10 * 512);
    for i in 0..10 {
        assert_eq!(ino.get_block_id(i, &mut cm, &mut dev), 1 + i);
    }
    // Second growth into the indirect tier: ids 11..=41.
    let n2 = ino.block_num_needed(40 * 512);
    assert_eq!(n2, 31);
    ino.increase_size(40 * 512, ids(11, n2), &mut cm, &mut dev);
    // Remaining direct slots first.
    for i in 10..28 {
        assert_eq!(ino.get_block_id(i, &mut cm, &mut dev), 1 + i);
    }
    // Then the indirect block (id 29) was consumed, then its entries.
    assert_eq!(ino.indirect1, 29);
    for i in 28..40 {
        assert_eq!(ino.get_block_id(i, &mut cm, &mut dev), 2 + i);
    }
}

#[test]
fn clear_size_returns_every_consumed_id_in_order() {
    let mut dev = MemBlockDevice::new();
    let mut cm = BlockCacheManager::new();
    let mut ino = DiskInode::new(DiskInodeType::File);
    let n1 = ino.block_num_needed(10 * 512);
    ino.increase_size(10 * 512, ids(1, n1), &mut cm, &mut dev);
    let n2 = ino.block_num_needed(40 * 512);
    ino.increase_size(40 * 512, ids(11, n2), &mut cm, &mut dev);
    let freed = ino.clear_size(&mut cm, &mut dev);
    // The union of both growths, and in exactly consumption order here.
    assert_eq!(freed, ids(1, 41));
    assert_eq!(ino.size, 0);
    assert_eq!(ino.data_blocks(), 0);
    assert_eq!(ino.indirect1, 0);
    assert_eq!(ino.indirect2, 0);
    assert!(ino.is_file());
}

#[test]
fn double_indirect_growth_and_clear() {
    let mut dev = MemBlockDevice::new();
    let mut cm = BlockCacheManager::new();
    let mut ino = DiskInode::new(DiskInodeType::File);
    let n = ino.block_num_needed(160 * 512);
    assert_eq!(n, 163);
    ino.increase_size(160 * 512, ids(1, n), &mut cm, &mut dev);
    // Direct, then indirect block 29 with entries 30..=157, then double
    // indirect block 158, second-level block 159, and data 160..=163.
    assert_eq!(ino.get_block_id(0, &mut cm, &mut dev), 1);
    assert_eq!(ino.get_block_id(27, &mut cm, &mut dev), 28);
    assert_eq!(ino.indirect1, 29);
    assert_eq!(ino.get_block_id(28, &mut cm, &mut dev), 30);
    assert_eq!(ino.get_block_id(155, &mut cm, &mut dev), 157);
    assert_eq!(ino.indirect2, 158);
    assert_eq!(ino.get_block_id(156, &mut cm, &mut dev), 160);
    assert_eq!(ino.get_block_id(159, &mut cm, &mut dev), 163);
    let freed = ino.clear_size(&mut cm, &mut dev);
    assert_eq!(freed, ids(1, 163));
}

#[test]
fn write_then_read_round_trip_within_one_block() {
    let mut dev = MemBlockDevice::new();
    let mut cm = BlockCacheManager::new();
    let mut ino = DiskInode::new(DiskInodeType::File);
    let n = ino.block_num_needed(2 * 512);
    ino.increase_size(2 * 512, ids(50, n), &mut cm, &mut dev);
    let data: Vec<u8> = (0u32..100).map(|x| (x * 3 % 256) as u8).collect();
    let written = ino.write_at(17, &data, &mut cm, &mut dev);
    assert_eq!(written, 100);
    let mut buf = vec![0u8; 100];
    let read = ino.read_at(17, &mut buf, &mut cm, &mut dev);
    assert_eq!(read, 100);
    assert_eq!(buf, data);
}

#[test]
fn round_trip_straddles_direct_and_indirect_boundaries() {
    let mut dev = MemBlockDevice::new();
    let mut cm = BlockCacheManager::new();
    let mut ino = DiskInode::new(DiskInodeType::File);
    let n = ino.block_num_needed(160 * 512);
    ino.increase_size(160 * 512, ids(1, n), &mut cm, &mut dev);
    // Across the 28-block boundary.
    let a: Vec<u8> = (0u32..20).map(|x| (x + 100) as u8).collect();
    assert_eq!(ino.write_at(28 * 512 - 10, &a, &mut cm, &mut dev), 20);
    let mut abuf = vec![0u8; 20];
    assert_eq!(ino.read_at(28 * 512 - 10, &mut abuf, &mut cm, &mut dev), 20);
    assert_eq!(abuf, a);
    // Across the 28+128-block boundary into the double indirect tier.
    let b: Vec<u8> = (0u32..14).map(|x| (x + 200) as u8).collect();
    assert_eq!(ino.write_at(156 * 512 - 7, &b, &mut cm, &mut dev), 14);
    let mut bbuf = vec![0u8; 14];
    assert_eq!(ino.read_at(156 * 512 - 7, &mut bbuf, &mut cm, &mut dev), 14);
    assert_eq!(bbuf, b);
    // The write across one boundary did not disturb the other range.
    let mut again = vec![0u8; 20];
    assert_eq!(ino.read_at(28 * 512 - 10, &mut again, &mut cm, &mut dev), 20);
    assert_eq!(again, a);
}

#[test]
fn reads_and_writes_clamp_to_the_current_size() {
    let mut dev = MemBlockDevice::new();
    let mut cm = BlockCacheManager::new();
    let mut ino = DiskInode::new(DiskInodeType::File);
    let n = ino.block_num_needed(512);
    ino.increase_size(512, ids(5, n), &mut cm, &mut dev);
    // Writing past the end is truncated, never allocated.
    let data = vec![7u8; 100];
    assert_eq!(ino.write_at(500, &data, &mut cm, &mut dev), 12);
    assert_eq!(ino.size, 512);
    // Reading past the end stops at the end; at or beyond it reads nothing.
    let mut buf = vec![0xffu8; 100];
    assert_eq!(ino.read_at(500, &mut buf, &mut cm, &mut dev), 12);
    assert_eq!(&buf[0..12], &[7u8; 12][..]);
    assert_eq!(&buf[12..], &[0xffu8; 88][..]);
    assert_eq!(ino.read_at(512, &mut buf, &mut cm, &mut dev), 0);
    assert_eq!(ino.write_at(600, &data, &mut cm, &mut dev), 0);
    // Zero-length transfers are no error.
    let empty: Vec<u8> = Vec::new();
    assert_eq!(ino.write_at(0, &empty, &mut cm, &mut dev), 0);
    let mut nothing: Vec<u8> = Vec::new();
    assert_eq!(ino.read_at(0, &mut nothing, &mut cm, &mut dev), 0);
}

#[test]
fn growth_preserves_existing_content() {
    let mut dev = MemBlockDevice::new();
    let mut cm = BlockCacheManager::new();
    let mut ino = DiskInode::new(DiskInodeType::File);
    let n1 = ino.block_num_needed(3 * 512);
    ino.increase_size(3 * 512, ids(10, n1), &mut cm, &mut dev);
    let data: Vec<u8> = (0u32..1536).map(|x| (x % 251) as u8).collect();
    assert_eq!(ino.write_at(0, &data, &mut cm, &mut dev), 1536);
    let n2 = ino.block_num_needed(40 * 512);
    ino.increase_size(40 * 512, ids(100, n2), &mut cm, &mut dev);
    let mut buf = vec![0u8; 1536];
    assert_eq!(ino.read_at(0, &mut buf, &mut cm, &mut dev), 1536);
    assert_eq!(buf, data);
}

#[test]
fn inode_ops_run_while_another_block_is_pinned() {
    let mut dev = MemBlockDevice::new();
    let mut cm = BlockCacheManager::new();
    // Hold a handle to an unrelated block for the whole operation.
    cm.get_block_cache(999, &mut dev);
    let mut ino = DiskInode::new(DiskInodeType::File);
    let n = ino.block_num_needed(2 * 512);
    ino.increase_size(2 * 512, ids(1, n), &mut cm, &mut dev);
    let data = vec![42u8; 600];
    assert_eq!(ino.write_at(0, &data, &mut cm, &mut dev), 600);
    let mut buf = vec![0u8; 600];
    assert_eq!(ino.read_at(0, &mut buf, &mut cm, &mut dev), 600);
    assert_eq!(buf, data);
    // The pinned block stayed resident throughout.
    assert!(cm.is_resident(999));
    cm.release_block_cache(999);
}
