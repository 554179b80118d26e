//! A small disk file system: a block cache over a block device, bitmaps of
//! free blocks, the on-disk layout of superblock, inodes and directory
//! entries, a volume manager and an inode layer; and the saved register
//! state of a thread.
use vstd::prelude::*;

pub mod bitmap;
pub mod block_cache;
pub mod block_dev;
pub mod context;
pub mod efs;
pub mod layout;
pub mod vfs;

pub use bitmap::Bitmap;
pub use block_cache::{block_cache_sync_all, BlockCache, BlockCacheManager};
pub use block_dev::{BlockDevice, MemDevice};
pub use context::LocalContext;
pub use efs::EasyFileSystem;
pub use layout::{DirEntry, DiskInode, DiskInodeType, SuperBlock};
pub use vfs::Inode;

verus! {

/// Size of one disk block in bytes.
pub const BLOCK_SZ: usize = 512;

} // verus!
