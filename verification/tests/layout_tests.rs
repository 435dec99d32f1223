use easy_fs::{DirEntry, SuperBlock};

#[test]
fn superblock_initialize_then_valid() {
    let mut sb = SuperBlock::empty();
    assert!(!sb.is_valid());
    sb.initialize(4096, 1, 50, 1, 4043);
    assert!(sb.is_valid());
    assert_eq!(sb.total_blocks, 4096);
    assert_eq!(sb.inode_bitmap_blocks, 1);
    assert_eq!(sb.inode_area_blocks, 50);
    assert_eq!(sb.data_bitmap_blocks, 1);
    assert_eq!(sb.data_area_blocks, 4043);
}

#[test]
fn superblock_byte_round_trip() {
    let mut sb = SuperBlock::empty();
    sb.initialize(2048, 1, 25, 1, 2020);
    let bytes = sb.to_bytes();
    assert_eq!(bytes.len(), 24);
    let back = SuperBlock::from_bytes(&bytes);
    assert!(back.is_valid());
    assert_eq!(back.total_blocks, 2048);
    assert_eq!(back.inode_bitmap_blocks, 1);
    assert_eq!(back.inode_area_blocks, 25);
    assert_eq!(back.data_bitmap_blocks, 1);
    assert_eq!(back.data_area_blocks, 2020);
}

#[test]
fn superblock_corrupt_magic_detected() {
    let mut sb = SuperBlock::empty();
    sb.initialize(4096, 1, 50, 1, 4043);
    let mut bytes = sb.to_bytes();
    bytes[0] ^= 0xff;
    let back = SuperBlock::from_bytes(&bytes);
    assert!(!back.is_valid());
}

#[test]
fn superblock_corruption_of_each_magic_byte_detected() {
    for k in 0..4 {
        let mut sb = SuperBlock::empty();
        sb.initialize(100, 1, 2, 1, 95);
        let mut bytes = sb.to_bytes();
        bytes[k] = bytes[k].wrapping_add(1);
        let back = SuperBlock::from_bytes(&bytes);
        assert!(!back.is_valid());
    }
}

#[test]
fn dirent_new_round_trip() {
    let e = DirEntry::new("foo", 5);
    let bytes = e.as_bytes();
    assert_eq!(bytes.len(), 32);
    let back = DirEntry::from_bytes(&bytes);
    assert_eq!(back.name(), "foo");
    assert_eq!(back.inode_number(), 5);
}

#[test]
fn dirent_empty_is_blank() {
    let e = DirEntry::empty();
    assert_eq!(e.name(), "");
    assert_eq!(e.inode_number(), 0);
    let bytes = e.as_bytes();
    assert_eq!(bytes.len(), 32);
    assert!(bytes.iter().all(|b| *b == 0));
}

#[test]
fn dirent_longest_name_round_trip() {
    let name = "abcdefghijklmnopqrstuvwxyz0";
    assert_eq!(name.len(), 27);
    let e = DirEntry::new(name, 77);
    let bytes = e.as_bytes();
    let back = DirEntry::from_bytes(&bytes);
    assert_eq!(back.name(), name);
    assert_eq!(back.inode_number(), 77);
}

#[test]
fn dirent_layout_is_name_then_le_inode_number() {
    let e = DirEntry::new("ab", 0x01020304);
    let bytes = e.as_bytes();
    assert_eq!(bytes[0], b'a');
    assert_eq!(bytes[1], b'b');
    assert!(bytes[2..28].iter().all(|b| *b == 0));
    assert_eq!(&bytes[28..32], &[0x04, 0x03, 0x02, 0x01]);
}
