pub mod superblock;
pub mod block_group;
pub mod group_descriptor;
pub mod dentry;
pub mod extent;
pub mod inode;
pub mod fs;
pub mod identity;

use vstd::prelude::*;

verus! {

/// The first block of the partition is padded with 1024 bytes. If the block size is also 1024 bytes, the entire first
/// block is padding, and the first block group starts with the second block.
pub const FIRST_BLOCK_PADDING: u64 = 1024;

/// There is no inode with number 0.
pub const FIRST_EXISTING_INODE: InodeNo = 1;
pub const FIRST_NON_RESERVED_INODE: InodeNo = 11;

pub type BlockSize = u32;
pub type BlockGroupCount = u32;
pub type BlockGroupIdx = BlockGroupCount;
pub type InodeCount = u32;
pub type InodeNo = InodeCount;
pub type BlockCount = u64;
pub type BlockIdx = BlockCount;

#[allow(non_snake_case)]
pub fn BlockCount_from(n: u32) -> (r: BlockCount)
    ensures
        r == n,
{
    n as BlockCount
}

#[allow(non_snake_case)]
pub fn BlockIdx_from(n: u32) -> (r: BlockIdx)
    ensures
        r == n,
{
    n as BlockIdx
}

} // verus!
