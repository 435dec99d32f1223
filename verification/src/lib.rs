//! Core of a simple block filesystem: the write-back block cache and the
//! on-disk layout (superblock, inodes with direct/indirect/double-indirect
//! block indexing, and directory entries).
use vstd::prelude::*;

pub mod block_cache;
pub mod block_dev;
pub mod inode;
pub mod layout;

pub use block_cache::block_cache_syn_all;
pub use block_cache::BlockCache;
pub use block_cache::BlockCacheManager;
pub use block_dev::BlockDevice;
pub use block_dev::MemBlockDevice;
pub use inode::DiskInode;
pub use inode::DiskInodeType;
pub use layout::DirEntry;
pub use layout::SuperBlock;

verus! {

/// Number of bytes in one disk block.
pub const BLOCK_SIZE: usize = 512;

/// Greatest number of blocks the cache keeps in memory at once.
pub const BLOCK_CACHE_SIZE: usize = 16;

/// Number of bytes in one serialized directory entry.
pub const DIRENT_SIZE: usize = 32;

} // verus!
