use vstd::prelude::*;
use std::ops::Range;
use crate::bitmap::Bitmap;
use crate::error::ConvertError;
use crate::ext4::superblock::{HasSuperBlock, SuperBlock, ROOT_INODE_NO};
use crate::ext4::{BlockCount, BlockGroupIdx, BlockIdx, BlockSize, InodeCount, FIRST_EXISTING_INODE, FIRST_NON_RESERVED_INODE};

verus! {

/// Whether inode `inode_no` is reserved and marked as used from the start: every reserved inode but the root
/// directory, which is allocated when the root is built.
pub open spec fn is_special_inode(inode_no: int) -> bool {
    FIRST_EXISTING_INODE <= inode_no < FIRST_NON_RESERVED_INODE && inode_no != ROOT_INODE_NO
}

/// The number of special inodes.
pub const SPECIAL_INODE_COUNT: u32 = 9;

/// Where the superblock copy of a block group lies, if it has one.
#[derive(Debug, Clone, Copy)]
pub enum SuperBlockConstructionInfo {
    Yes { group_descriptor_count: u32, superblock_start_byte: u64 },
    No,
}

/// The layout of one block group, computed from the superblock.
#[derive(Debug, Clone, Copy)]
pub struct Ext4BlockGroupConstructionInfo {
    pub start_block: BlockIdx,
    pub block_bitmap_block: BlockIdx,
    pub inode_bitmap_block: BlockIdx,
    pub inode_table_start_block: BlockIdx,
    pub blocks_count: BlockCount,
    pub inodes_count: InodeCount,
    pub reserved_inode_count: InodeCount,
    pub inode_table_block_count: BlockCount,
    pub superblock_construction_info: SuperBlockConstructionInfo,
    pub block_size: BlockSize,
    pub is_first_block_group: bool,
    pub overhead: BlockCount,
}

impl Ext4BlockGroupConstructionInfo {
    /// The layout describes a block group whose metadata fits into it and whose counts fit the fields of a group
    /// descriptor.
    pub open spec fn wf(self) -> bool {
        &&& self.overhead <= self.blocks_count
        &&& self.blocks_count <= u32::MAX
        &&& self.reserved_inode_count <= self.inodes_count
        &&& 1024 <= self.block_size <= 65536
        &&& self.inodes_count <= self.block_size * 8
        &&& self.blocks_count <= self.block_size * 8
    }

    /// The information is the one of block group `g` of the filesystem that `superblock` describes.
    pub open spec fn is_construction_info(self, superblock: SuperBlock, g: int) -> bool {
        &&& self.start_block == superblock.spec_block_group_start(g)
        &&& self.block_bitmap_block == self.start_block + superblock.spec_superblock_copy_overhead(
            superblock.spec_has_superblock(g),
        )
        &&& self.inode_bitmap_block == self.block_bitmap_block + 1
        &&& self.inode_table_start_block == self.inode_bitmap_block + 1
        &&& self.blocks_count == (if superblock.spec_block_count_without_padding() - g
            * superblock.s_blocks_per_group < superblock.s_blocks_per_group {
            superblock.spec_block_count_without_padding() - g * superblock.s_blocks_per_group
        } else {
            superblock.s_blocks_per_group as int
        })
        &&& self.inodes_count == superblock.s_inodes_per_group
        &&& self.reserved_inode_count == (if g == 0 { SPECIAL_INODE_COUNT } else { 0 })
        &&& self.inode_table_block_count == superblock.spec_inode_table_block_count()
        &&& self.block_size == superblock.spec_block_size()
        &&& self.is_first_block_group == (g == 0)
        &&& self.overhead == superblock.spec_block_group_overhead(superblock.spec_has_superblock(g))
        &&& match self.superblock_construction_info {
            SuperBlockConstructionInfo::No => superblock.spec_has_superblock(g) == HasSuperBlock::No,
            SuperBlockConstructionInfo::Yes { group_descriptor_count, superblock_start_byte } => {
                &&& superblock.spec_has_superblock(g) != HasSuperBlock::No
                &&& group_descriptor_count == superblock.spec_block_group_count()
                &&& superblock_start_byte == (if g == 0 && superblock.s_first_data_block != 1 {
                    1024int
                } else {
                    0
                })
            },
        }
    }

    pub fn new(superblock: &SuperBlock, block_group_idx: BlockGroupIdx) -> (r: Self)
        requires
            superblock.wf(),
            block_group_idx < superblock.spec_block_group_count(),
        ensures
            r.is_construction_info(*superblock, block_group_idx as int),
    {
        let has_superblock = superblock.block_group_has_superblock(block_group_idx);
        let start_block = superblock.block_group_start_block(block_group_idx);
        let copy_overhead = superblock.superblock_copy_overhead(has_superblock);
        proof {
            assert(superblock.s_blocks_per_group * block_group_idx <= 0xFFFF_FFFF * 0xFFFF_FFFF) by (nonlinear_arith)
                requires
                    block_group_idx <= 0xFFFF_FFFF,
                    superblock.s_blocks_per_group <= 0xFFFF_FFFF,
            ;
            assert(block_group_idx * superblock.s_blocks_per_group < superblock.spec_block_count_without_padding())
                by (nonlinear_arith)
                requires
                    block_group_idx < superblock.spec_block_group_count(),
                    superblock.spec_block_group_count() == superblock.spec_block_count_without_padding()
                        / (superblock.s_blocks_per_group as int) + if superblock.spec_block_count_without_padding()
                        % (superblock.s_blocks_per_group as int) == 0 {
                        0int
                    } else {
                        1int
                    },
                    superblock.s_blocks_per_group > 0,
                    superblock.spec_block_count_without_padding() >= 0,
            ;
        }
        let block_bitmap_block = start_block + copy_overhead;
        let inode_bitmap_block = block_bitmap_block + 1;
        let inode_table_start_block = inode_bitmap_block + 1;

        let max_block_count = superblock.block_count_without_padding() - (block_group_idx as u64)
            * (superblock.s_blocks_per_group as u64);
        let blocks_count = if max_block_count < superblock.s_blocks_per_group as u64 {
            max_block_count
        } else {
            superblock.s_blocks_per_group as u64
        };

        let superblock_construction_info = match has_superblock {
            HasSuperBlock::No => SuperBlockConstructionInfo::No,
            HasSuperBlock::YesOriginal => SuperBlockConstructionInfo::Yes {
                superblock_start_byte: superblock.start_byte_within_block(),
                group_descriptor_count: superblock.block_group_count(),
            },
            HasSuperBlock::YesBackup => SuperBlockConstructionInfo::Yes {
                superblock_start_byte: 0,
                group_descriptor_count: superblock.block_group_count(),
            },
        };

        Ext4BlockGroupConstructionInfo {
            start_block,
            block_bitmap_block,
            inode_bitmap_block,
            inode_table_start_block,
            blocks_count,
            inodes_count: superblock.s_inodes_per_group,
            reserved_inode_count: if block_group_idx == 0 { SPECIAL_INODE_COUNT } else { 0 },
            inode_table_block_count: superblock.inode_table_block_count(),
            superblock_construction_info,
            block_size: superblock.block_size(),
            overhead: superblock.block_group_overhead(has_superblock),
            is_first_block_group: block_group_idx == 0,
        }
    }

    /// Checks `self.wf()`, failing with `FilesystemTooLarge` where it does not hold: then the metadata of the block
    /// group does not fit into it.
    pub fn check(&self) -> (r: Result<(), ConvertError>)
        ensures
            r is Ok <==> self.wf(),
            r matches Err(e) ==> e == ConvertError::FilesystemTooLarge,
    {
        if self.overhead <= self.blocks_count && self.blocks_count <= u32::MAX as u64
            && self.reserved_inode_count <= self.inodes_count && 1024 <= self.block_size && self.block_size <= 65536
            && (self.inodes_count as u64) <= (self.block_size as u64) * 8 && self.blocks_count <= (
        self.block_size as u64) * 8 {
            Ok(())
        } else {
            Err(ConvertError::FilesystemTooLarge)
        }
    }
}

/// The bitmaps of a block group. Its superblock copy, group descriptor table and inode table are written to the
/// partition by `Ext4Fs`.
pub struct BlockGroup {
    pub info: Ext4BlockGroupConstructionInfo,
    pub data_block_bitmap: Bitmap,
    pub inode_bitmap: Bitmap,
}

impl BlockGroup {
    /// The bitmaps have one bit per block and per inode that a block of the group's size can track.
    pub open spec fn wf(&self) -> bool {
        &&& self.info.wf()
        &&& self.data_block_bitmap@.len() == self.info.block_size * 8
        &&& self.data_block_bitmap.bytes().len() == self.info.block_size
        &&& self.inode_bitmap@.len() == self.info.block_size * 8
        &&& self.inode_bitmap.bytes().len() == self.info.block_size
    }

    /// A block group in which only the metadata blocks and the special inodes are used.
    pub fn new(info: Ext4BlockGroupConstructionInfo) -> (r: Self)
        requires
            info.wf(),
        ensures
            r.wf(),
            r.info == info,
            r.data_block_bitmap@.len() == info.block_size * 8,
            r.inode_bitmap@.len() == info.block_size * 8,
            forall|i: int|
                0 <= i < r.data_block_bitmap@.len() ==> #[trigger] r.data_block_bitmap@[i] == (i < info.overhead || i
                    >= info.blocks_count),
            forall|i: int|
                0 <= i < r.inode_bitmap@.len() ==> #[trigger] r.inode_bitmap@[i] == (i >= info.inodes_count || (
                info.is_first_block_group && is_special_inode(i + FIRST_EXISTING_INODE))),
    {
        let data_block_bitmap = Self::init_data_block_bitmap(info);
        let inode_bitmap = Self::init_inode_bitmap(info);
        BlockGroup { info, data_block_bitmap, inode_bitmap }
    }

    fn zeroed_bitmap(block_size: BlockSize) -> (r: Bitmap)
        requires
            1024 <= block_size <= 65536,
        ensures
            r@.len() == block_size * 8,
            r.bytes().len() == block_size,
            forall|i: int| 0 <= i < r@.len() ==> !#[trigger] r@[i],
    {
        let mut bytes: Vec<u8> = Vec::new();
        let mut i: u32 = 0;
        while i < block_size
            invariant
                i <= block_size,
                bytes@.len() == i,
            decreases block_size - i,
        {
            bytes.push(0u8);
            i += 1;
        }
        let mut bitmap = Bitmap::new(bytes);
        bitmap.clear_all();
        bitmap
    }


    fn init_data_block_bitmap(info: Ext4BlockGroupConstructionInfo) -> (r: Bitmap)
        requires
            info.wf(),
        ensures
            r@.len() == info.block_size * 8,
            r.bytes().len() == info.block_size,
            forall|i: int| 0 <= i < r@.len() ==> #[trigger] r@[i] == (i < info.overhead || i >= info.blocks_count),
    {
        let mut bitmap = Self::zeroed_bitmap(info.block_size);
        let len = bitmap.len();
        let mut idx: u64 = 0;
        while idx < info.overhead
            invariant
                info.wf(),
                idx <= info.overhead,
                len == bitmap@.len(),
                bitmap@.len() == info.block_size * 8,
                bitmap.bytes().len() == info.block_size,
                forall|i: int| 0 <= i < bitmap@.len() ==> #[trigger] bitmap@[i] == (i < idx),
            decreases info.overhead - idx,
        {
            bitmap.set(idx as usize);
            idx += 1;
        }
        let mut idx: usize = info.blocks_count as usize;
        while idx < len
            invariant
                info.wf(),
                info.blocks_count <= idx <= len,
                len == bitmap@.len(),
                bitmap@.len() == info.block_size * 8,
                bitmap.bytes().len() == info.block_size,
                forall|i: int|
                    0 <= i < bitmap@.len() ==> #[trigger] bitmap@[i] == (i < info.overhead || (info.blocks_count <= i
                        < idx)),
            decreases len - idx,
        {
            bitmap.set(idx);
            idx += 1;
        }
        bitmap
    }

    fn init_inode_bitmap(info: Ext4BlockGroupConstructionInfo) -> (r: Bitmap)
        requires
            info.wf(),
        ensures
            r@.len() == info.block_size * 8,
            r.bytes().len() == info.block_size,
            forall|i: int|
                0 <= i < r@.len() ==> #[trigger] r@[i] == (i >= info.inodes_count || (info.is_first_block_group
                    && is_special_inode(i + FIRST_EXISTING_INODE))),
    {
        let mut bitmap = Self::zeroed_bitmap(info.block_size);
        let len = bitmap.len();
        if info.is_first_block_group {
            Self::mark_special_inodes_as_used(&mut bitmap);
        }
        let mut idx: usize = info.inodes_count as usize;
        while idx < len
            invariant
                info.wf(),
                info.inodes_count <= idx <= len,
                len == bitmap@.len(),
                bitmap@.len() == info.block_size * 8,
                bitmap.bytes().len() == info.block_size,
                forall|i: int|
                    0 <= i < bitmap@.len() ==> #[trigger] bitmap@[i] == ((info.inodes_count <= i < idx) || (
                    info.is_first_block_group && is_special_inode(i + FIRST_EXISTING_INODE))),
            decreases len - idx,
        {
            bitmap.set(idx);
            idx += 1;
        }
        bitmap
    }

    fn mark_special_inodes_as_used(inode_bitmap: &mut Bitmap)
        requires
            old(inode_bitmap)@.len() >= FIRST_NON_RESERVED_INODE,
        ensures
            final(inode_bitmap)@.len() == old(inode_bitmap)@.len(),
            final(inode_bitmap).bytes().len() == old(inode_bitmap).bytes().len(),
            forall|i: int|
                0 <= i < final(inode_bitmap)@.len() ==> #[trigger] final(inode_bitmap)@[i] == (old(inode_bitmap)@[i]
                    || is_special_inode(i + FIRST_EXISTING_INODE)),
    {
        let mut inode_no: u32 = FIRST_EXISTING_INODE;
        while inode_no < FIRST_NON_RESERVED_INODE
            invariant
                FIRST_EXISTING_INODE <= inode_no <= FIRST_NON_RESERVED_INODE,
                inode_bitmap@.len() == old(inode_bitmap)@.len(),
                inode_bitmap.bytes().len() == old(inode_bitmap).bytes().len(),
                inode_bitmap@.len() >= FIRST_NON_RESERVED_INODE,
                forall|i: int|
                    0 <= i < inode_bitmap@.len() ==> #[trigger] inode_bitmap@[i] == (old(inode_bitmap)@[i] || (
                    is_special_inode(i + FIRST_EXISTING_INODE) && i + FIRST_EXISTING_INODE < inode_no)),
            decreases FIRST_NON_RESERVED_INODE - inode_no,
        {
            if inode_no != ROOT_INODE_NO {
                inode_bitmap.set((inode_no - FIRST_EXISTING_INODE) as usize);
            }
            inode_no += 1;
        }
    }

    /// Marks the data blocks of `relative_range`, counted from the start of the block group, as used.
    pub fn mark_relative_range_as_used(&mut self, relative_range: Range<BlockIdx>)
        requires
            old(self).wf(),
            relative_range.start <= relative_range.end <= old(self).data_block_bitmap@.len(),
        ensures
            final(self).wf(),
            final(self).info == old(self).info,
            final(self).inode_bitmap@ == old(self).inode_bitmap@,
            final(self).data_block_bitmap@.len() == old(self).data_block_bitmap@.len(),
            forall|i: int|
                0 <= i < final(self).data_block_bitmap@.len() ==> #[trigger] final(self).data_block_bitmap@[i] == (old(
                    self,
                ).data_block_bitmap@[i] || (relative_range.start <= i < relative_range.end)),
    {
        let mut block_idx = relative_range.start;
        while block_idx < relative_range.end
            invariant
                relative_range.start <= block_idx <= relative_range.end,
                relative_range.end <= self.data_block_bitmap@.len(),
                self.wf(),
                self.info == old(self).info,
                self.inode_bitmap@ == old(self).inode_bitmap@,
                self.data_block_bitmap@.len() == old(self).data_block_bitmap@.len(),
                forall|i: int|
                    0 <= i < self.data_block_bitmap@.len() ==> #[trigger] self.data_block_bitmap@[i] == (old(
                        self,
                    ).data_block_bitmap@[i] || (relative_range.start <= i < block_idx)),
            decreases relative_range.end - block_idx,
        {
            self.data_block_bitmap.set(block_idx as usize);
            block_idx += 1;
        }
    }

    /// Marks inode `relative_inode_no`, counted from the first inode of the block group, as used, and returns the
    /// byte offset of its slot in the partition.
    pub fn allocate_relative_inode(&mut self, relative_inode_no: InodeCount, inode_size: u16) -> (r: u64)
        requires
            old(self).wf(),
            relative_inode_no < old(self).info.inodes_count,
            !old(self).inode_bitmap@[relative_inode_no as int],
            old(self).info.inode_table_start_block <= u32::MAX,
        ensures
            final(self).wf(),
            final(self).info == old(self).info,
            final(self).data_block_bitmap@ == old(self).data_block_bitmap@,
            final(self).inode_bitmap@ == old(self).inode_bitmap@.update(relative_inode_no as int, true),
            r == old(self).info.inode_table_start_block * old(self).info.block_size + relative_inode_no * inode_size,
    {
        self.inode_bitmap.set(relative_inode_no as usize);
        proof {
            assert(self.info.inode_table_start_block * self.info.block_size <= 0xFFFF_FFFF * 65536)
                by (nonlinear_arith)
                requires
                    self.info.inode_table_start_block <= 0xFFFF_FFFF,
                    self.info.block_size <= 65536,
            ;
            assert(relative_inode_no * inode_size <= 0xFFFF_FFFF * 0xFFFF) by (nonlinear_arith);
        }
        self.info.inode_table_start_block * (self.info.block_size as u64) + (relative_inode_no as u64) * (
        inode_size as u64)
    }
}

} // verus!
