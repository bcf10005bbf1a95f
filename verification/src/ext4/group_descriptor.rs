use vstd::prelude::*;
use crate::bytes::{
    lemma_le_u16_append, lemma_le_u16_at, lemma_le_u16_prepend, lemma_le_u32_append, lemma_le_u32_at,
    lemma_le_u32_prepend, le_u16, le_u32, push_u16, push_u32, u16_bytes, u32_bytes,
};
use crate::ext4::block_group::Ext4BlockGroupConstructionInfo;
use crate::ext4::InodeCount;
use crate::lohi::{join_u16_u16, split_u16_u16, split_u32_u32};

verus! {

/// The size of an encoded group descriptor (the 64-bit layout).
pub const GROUP_DESCRIPTOR_SIZE: usize = 64;

/// An entry of the group descriptor table: where the metadata of a block group lies and how much of it is free.
#[derive(Debug, Clone, Copy)]
pub struct Ext4GroupDescriptor {
    pub bg_block_bitmap_lo: u32,
    pub bg_inode_bitmap_lo: u32,
    pub bg_inode_table_lo: u32,
    pub bg_free_blocks_count_lo: u16,
    pub bg_free_inodes_count_lo: u16,
    pub bg_used_dirs_count_lo: u16,
    pub bg_flags: u16,
    pub bg_exclude_bitmap_lo: u32,
    pub bg_block_bitmap_csum_lo: u16,
    pub bg_inode_bitmap_csum_lo: u16,
    pub bg_itable_unused_lo: u16,
    pub bg_checksum: u16,
    pub bg_block_bitmap_hi: u32,
    pub bg_inode_bitmap_hi: u32,
    pub bg_inode_table_hi: u32,
    pub bg_free_blocks_count_hi: u16,
    pub bg_free_inodes_count_hi: u16,
    pub bg_used_dirs_count_hi: u16,
    pub bg_itable_unused_hi: u16,
    pub bg_exclude_bitmap_hi: u32,
    pub bg_block_bitmap_csum_hi: u16,
    pub bg_inode_bitmap_csum_hi: u16,
    pub bg_reserved: u32,
}

impl Ext4GroupDescriptor {
    pub open spec fn spec_free_inodes_count(self) -> int {
        self.bg_free_inodes_count_hi * 0x1_0000 + self.bg_free_inodes_count_lo
    }

    pub open spec fn spec_free_blocks_count(self) -> int {
        self.bg_free_blocks_count_hi * 0x1_0000 + self.bg_free_blocks_count_lo
    }

    pub open spec fn spec_used_dirs_count(self) -> int {
        self.bg_used_dirs_count_hi * 0x1_0000 + self.bg_used_dirs_count_lo
    }

    pub open spec fn spec_block_bitmap(self) -> int {
        self.bg_block_bitmap_hi * 0x1_0000_0000 + self.bg_block_bitmap_lo
    }

    pub open spec fn spec_inode_bitmap(self) -> int {
        self.bg_inode_bitmap_hi * 0x1_0000_0000 + self.bg_inode_bitmap_lo
    }

    pub open spec fn spec_inode_table(self) -> int {
        self.bg_inode_table_hi * 0x1_0000_0000 + self.bg_inode_table_lo
    }

    /// The descriptor is the one of the block group that `info` describes before any data block or inode was used:
    /// it gives the group's metadata locations and free counts, and every other field is zero.
    pub open spec fn is_new_descriptor(self, info: Ext4BlockGroupConstructionInfo) -> bool {
        &&& self.spec_block_bitmap() == info.block_bitmap_block
        &&& self.spec_inode_bitmap() == info.inode_bitmap_block
        &&& self.spec_inode_table() == info.inode_table_start_block
        &&& self.spec_free_inodes_count() == info.inodes_count - info.reserved_inode_count
        &&& self.spec_free_blocks_count() == info.blocks_count - info.overhead
        &&& self.spec_used_dirs_count() == 0
        &&& self.bg_flags == 0
        &&& self.bg_exclude_bitmap_lo == 0 && self.bg_exclude_bitmap_hi == 0
        &&& self.bg_block_bitmap_csum_lo == 0 && self.bg_block_bitmap_csum_hi == 0
        &&& self.bg_inode_bitmap_csum_lo == 0 && self.bg_inode_bitmap_csum_hi == 0
        &&& self.bg_itable_unused_lo == 0 && self.bg_itable_unused_hi == 0
        &&& self.bg_checksum == 0
        &&& self.bg_reserved == 0
    }

    /// The descriptor of the block group that `info` describes, before any data block or inode was used.
    pub fn new(info: Ext4BlockGroupConstructionInfo) -> (r: Self)
        requires
            info.wf(),
        ensures
            r.is_new_descriptor(info),
    {
        let free_inodes_count = info.inodes_count - info.reserved_inode_count;
        let free_blocks_count = (info.blocks_count - info.overhead) as u32;
        let (block_bitmap_lo, block_bitmap_hi) = split_u32_u32(info.block_bitmap_block);
        let (inode_bitmap_lo, inode_bitmap_hi) = split_u32_u32(info.inode_bitmap_block);
        let (inode_table_lo, inode_table_hi) = split_u32_u32(info.inode_table_start_block);
        let (free_inodes_lo, free_inodes_hi) = split_u16_u16(free_inodes_count);
        let (free_blocks_lo, free_blocks_hi) = split_u16_u16(free_blocks_count);
        Ext4GroupDescriptor {
            bg_block_bitmap_lo: block_bitmap_lo,
            bg_inode_bitmap_lo: inode_bitmap_lo,
            bg_inode_table_lo: inode_table_lo,
            bg_free_blocks_count_lo: free_blocks_lo,
            bg_free_inodes_count_lo: free_inodes_lo,
            bg_used_dirs_count_lo: 0,
            bg_flags: 0,
            bg_exclude_bitmap_lo: 0,
            bg_block_bitmap_csum_lo: 0,
            bg_inode_bitmap_csum_lo: 0,
            bg_itable_unused_lo: 0,
            bg_checksum: 0,
            bg_block_bitmap_hi: block_bitmap_hi,
            bg_inode_bitmap_hi: inode_bitmap_hi,
            bg_inode_table_hi: inode_table_hi,
            bg_free_blocks_count_hi: free_blocks_hi,
            bg_free_inodes_count_hi: free_inodes_hi,
            bg_used_dirs_count_hi: 0,
            bg_itable_unused_hi: 0,
            bg_exclude_bitmap_hi: 0,
            bg_block_bitmap_csum_hi: 0,
            bg_inode_bitmap_csum_hi: 0,
            bg_reserved: 0,
        }
    }

    pub fn free_inodes_count(&self) -> (r: InodeCount)
        ensures
            r == self.spec_free_inodes_count(),
    {
        join_u16_u16(self.bg_free_inodes_count_lo, self.bg_free_inodes_count_hi)
    }

    pub fn free_blocks_count(&self) -> (r: u32)
        ensures
            r == self.spec_free_blocks_count(),
    {
        join_u16_u16(self.bg_free_blocks_count_lo, self.bg_free_blocks_count_hi)
    }

    pub fn decrement_free_blocks_count(&mut self, count: u32)
        requires
            count <= old(self).spec_free_blocks_count(),
        ensures
            final(self).spec_free_blocks_count() == old(self).spec_free_blocks_count() - count,
            final(self).spec_free_inodes_count() == old(self).spec_free_inodes_count(),
            final(self).spec_used_dirs_count() == old(self).spec_used_dirs_count(),
            *final(self) == (Ext4GroupDescriptor {
                bg_free_blocks_count_lo: final(self).bg_free_blocks_count_lo,
                bg_free_blocks_count_hi: final(self).bg_free_blocks_count_hi,
                ..*old(self)
            }),
    {
        let (lo, hi) = split_u16_u16(self.free_blocks_count() - count);
        self.bg_free_blocks_count_lo = lo;
        self.bg_free_blocks_count_hi = hi;
    }

    pub fn decrement_free_inode_count(&mut self)
        requires
            old(self).spec_free_inodes_count() >= 1,
        ensures
            final(self).spec_free_inodes_count() == old(self).spec_free_inodes_count() - 1,
            final(self).spec_free_blocks_count() == old(self).spec_free_blocks_count(),
            final(self).spec_used_dirs_count() == old(self).spec_used_dirs_count(),
            *final(self) == (Ext4GroupDescriptor {
                bg_free_inodes_count_lo: final(self).bg_free_inodes_count_lo,
                bg_free_inodes_count_hi: final(self).bg_free_inodes_count_hi,
                ..*old(self)
            }),
    {
        let (lo, hi) = split_u16_u16(self.free_inodes_count() - 1);
        self.bg_free_inodes_count_lo = lo;
        self.bg_free_inodes_count_hi = hi;
    }

    pub fn increment_used_directory_count(&mut self)
        requires
            old(self).spec_used_dirs_count() < u32::MAX,
        ensures
            final(self).spec_used_dirs_count() == old(self).spec_used_dirs_count() + 1,
            final(self).spec_free_blocks_count() == old(self).spec_free_blocks_count(),
            final(self).spec_free_inodes_count() == old(self).spec_free_inodes_count(),
            *final(self) == (Ext4GroupDescriptor {
                bg_used_dirs_count_lo: final(self).bg_used_dirs_count_lo,
                bg_used_dirs_count_hi: final(self).bg_used_dirs_count_hi,
                ..*old(self)
            }),
    {
        let used = join_u16_u16(self.bg_used_dirs_count_lo, self.bg_used_dirs_count_hi);
        let (lo, hi) = split_u16_u16(used + 1);
        self.bg_used_dirs_count_lo = lo;
        self.bg_used_dirs_count_hi = hi;
    }

    /// A group descriptor is written in the 64-byte ext4 layout: the low halves of the block bitmap, inode bitmap and
    /// inode table locations at offsets 0, 4 and 8, the low halves of the free block, free inode and directory
    /// counts at 12, 14 and 16, the flags at 18, then the exclude bitmap, checksums and unused inode count, and the
    /// high halves from offset 32 on, in the same order.
    #[verifier::spinoff_prover]
    #[verifier::rlimit(60)]
    pub proof fn law_group_descriptor_layout(self)
        ensures
            self.spec_bytes().len() == 64,
            le_u32(self.spec_bytes(), 0) + le_u32(self.spec_bytes(), 32) * 0x1_0000_0000 == self.spec_block_bitmap(),
            le_u32(self.spec_bytes(), 4) + le_u32(self.spec_bytes(), 36) * 0x1_0000_0000 == self.spec_inode_bitmap(),
            le_u32(self.spec_bytes(), 8) + le_u32(self.spec_bytes(), 40) * 0x1_0000_0000 == self.spec_inode_table(),
            le_u16(self.spec_bytes(), 12) + le_u16(self.spec_bytes(), 44) * 0x1_0000 == self.spec_free_blocks_count(),
            le_u16(self.spec_bytes(), 14) + le_u16(self.spec_bytes(), 46) * 0x1_0000 == self.spec_free_inodes_count(),
            le_u16(self.spec_bytes(), 16) + le_u16(self.spec_bytes(), 48) * 0x1_0000 == self.spec_used_dirs_count(),
            le_u32(self.spec_bytes(), 0) == self.bg_block_bitmap_lo,
            le_u32(self.spec_bytes(), 4) == self.bg_inode_bitmap_lo,
            le_u32(self.spec_bytes(), 8) == self.bg_inode_table_lo,
            le_u16(self.spec_bytes(), 12) == self.bg_free_blocks_count_lo,
            le_u16(self.spec_bytes(), 14) == self.bg_free_inodes_count_lo,
            le_u16(self.spec_bytes(), 16) == self.bg_used_dirs_count_lo,
            le_u16(self.spec_bytes(), 18) == self.bg_flags,
            le_u32(self.spec_bytes(), 20) == self.bg_exclude_bitmap_lo,
            le_u16(self.spec_bytes(), 24) == self.bg_block_bitmap_csum_lo,
            le_u16(self.spec_bytes(), 26) == self.bg_inode_bitmap_csum_lo,
            le_u16(self.spec_bytes(), 28) == self.bg_itable_unused_lo,
            le_u16(self.spec_bytes(), 30) == self.bg_checksum,
            le_u32(self.spec_bytes(), 32) == self.bg_block_bitmap_hi,
            le_u32(self.spec_bytes(), 36) == self.bg_inode_bitmap_hi,
            le_u32(self.spec_bytes(), 40) == self.bg_inode_table_hi,
            le_u16(self.spec_bytes(), 44) == self.bg_free_blocks_count_hi,
            le_u16(self.spec_bytes(), 46) == self.bg_free_inodes_count_hi,
            le_u16(self.spec_bytes(), 48) == self.bg_used_dirs_count_hi,
            le_u16(self.spec_bytes(), 50) == self.bg_itable_unused_hi,
            le_u32(self.spec_bytes(), 52) == self.bg_exclude_bitmap_hi,
            le_u16(self.spec_bytes(), 56) == self.bg_block_bitmap_csum_hi,
            le_u16(self.spec_bytes(), 58) == self.bg_inode_bitmap_csum_hi,
            le_u32(self.spec_bytes(), 60) == self.bg_reserved,
    {
        self.lemma_chunks();
        self.lemma_layout_chunk0();
        self.lemma_layout_chunk1();
        self.lemma_layout_chunk2();
        self.lemma_layout_chunk3();
        self.lemma_layout_chunk4();
        self.lemma_layout_chunk5();
    }

    spec fn chunk0(self) -> Seq<u8> {
        u32_bytes(self.bg_block_bitmap_lo) + u32_bytes(self.bg_inode_bitmap_lo) + u32_bytes(self.bg_inode_table_lo)
    }

    spec fn chunk1(self) -> Seq<u8> {
        u16_bytes(self.bg_free_blocks_count_lo) + u16_bytes(self.bg_free_inodes_count_lo) + u16_bytes(self.bg_used_dirs_count_lo) + u16_bytes(self.bg_flags)
    }

    spec fn chunk2(self) -> Seq<u8> {
        u32_bytes(self.bg_exclude_bitmap_lo) + u16_bytes(self.bg_block_bitmap_csum_lo) + u16_bytes(self.bg_inode_bitmap_csum_lo) + u16_bytes(self.bg_itable_unused_lo) + u16_bytes(self.bg_checksum)
    }

    spec fn chunk3(self) -> Seq<u8> {
        u32_bytes(self.bg_block_bitmap_hi) + u32_bytes(self.bg_inode_bitmap_hi) + u32_bytes(self.bg_inode_table_hi)
    }

    spec fn chunk4(self) -> Seq<u8> {
        u16_bytes(self.bg_free_blocks_count_hi) + u16_bytes(self.bg_free_inodes_count_hi) + u16_bytes(self.bg_used_dirs_count_hi) + u16_bytes(self.bg_itable_unused_hi)
    }

    spec fn chunk5(self) -> Seq<u8> {
        u32_bytes(self.bg_exclude_bitmap_hi) + u16_bytes(self.bg_block_bitmap_csum_hi) + u16_bytes(self.bg_inode_bitmap_csum_hi) + u32_bytes(self.bg_reserved)
    }

    #[verifier::spinoff_prover]
    #[verifier::rlimit(60)]
    proof fn lemma_chunks(self)
        ensures
            self.spec_bytes().len() == 64,
            self.spec_bytes() == self.chunk0() + self.chunk1() + self.chunk2() + self.chunk3() + self.chunk4() + self.chunk5(),
    {
        assert(self.spec_bytes() =~= self.chunk0() + self.chunk1() + self.chunk2() + self.chunk3() + self.chunk4() + self.chunk5());
    }

    #[verifier::spinoff_prover]
    #[verifier::rlimit(80)]
    proof fn lemma_layout_chunk0(self)
        ensures
            le_u32(self.spec_bytes(), 0) == self.bg_block_bitmap_lo,
            le_u32(self.spec_bytes(), 4) == self.bg_inode_bitmap_lo,
            le_u32(self.spec_bytes(), 8) == self.bg_inode_table_lo,
    {
        self.lemma_chunks();
        assert(le_u32(self.chunk0(), 0) == self.bg_block_bitmap_lo) by {
            assert(self.chunk0().subrange(0, 4) =~= u32_bytes(self.bg_block_bitmap_lo));
            lemma_le_u32_at(self.chunk0(), 0, self.bg_block_bitmap_lo);
        }
        lemma_le_u32_append(self.chunk0(), self.chunk1(), 0);
        lemma_le_u32_append(self.chunk0() + self.chunk1(), self.chunk2(), 0);
        lemma_le_u32_append(self.chunk0() + self.chunk1() + self.chunk2(), self.chunk3(), 0);
        lemma_le_u32_append(self.chunk0() + self.chunk1() + self.chunk2() + self.chunk3(), self.chunk4(), 0);
        lemma_le_u32_append(self.chunk0() + self.chunk1() + self.chunk2() + self.chunk3() + self.chunk4(), self.chunk5(), 0);
        assert(le_u32(self.chunk0(), 4) == self.bg_inode_bitmap_lo) by {
            assert(self.chunk0().subrange(4, 8) =~= u32_bytes(self.bg_inode_bitmap_lo));
            lemma_le_u32_at(self.chunk0(), 4, self.bg_inode_bitmap_lo);
        }
        lemma_le_u32_append(self.chunk0(), self.chunk1(), 4);
        lemma_le_u32_append(self.chunk0() + self.chunk1(), self.chunk2(), 4);
        lemma_le_u32_append(self.chunk0() + self.chunk1() + self.chunk2(), self.chunk3(), 4);
        lemma_le_u32_append(self.chunk0() + self.chunk1() + self.chunk2() + self.chunk3(), self.chunk4(), 4);
        lemma_le_u32_append(self.chunk0() + self.chunk1() + self.chunk2() + self.chunk3() + self.chunk4(), self.chunk5(), 4);
        assert(le_u32(self.chunk0(), 8) == self.bg_inode_table_lo) by {
            assert(self.chunk0().subrange(8, 12) =~= u32_bytes(self.bg_inode_table_lo));
            lemma_le_u32_at(self.chunk0(), 8, self.bg_inode_table_lo);
        }
        lemma_le_u32_append(self.chunk0(), self.chunk1(), 8);
        lemma_le_u32_append(self.chunk0() + self.chunk1(), self.chunk2(), 8);
        lemma_le_u32_append(self.chunk0() + self.chunk1() + self.chunk2(), self.chunk3(), 8);
        lemma_le_u32_append(self.chunk0() + self.chunk1() + self.chunk2() + self.chunk3(), self.chunk4(), 8);
        lemma_le_u32_append(self.chunk0() + self.chunk1() + self.chunk2() + self.chunk3() + self.chunk4(), self.chunk5(), 8);
    }

    #[verifier::spinoff_prover]
    #[verifier::rlimit(80)]
    proof fn lemma_layout_chunk1(self)
        ensures
            le_u16(self.spec_bytes(), 12) == self.bg_free_blocks_count_lo,
            le_u16(self.spec_bytes(), 14) == self.bg_free_inodes_count_lo,
            le_u16(self.spec_bytes(), 16) == self.bg_used_dirs_count_lo,
            le_u16(self.spec_bytes(), 18) == self.bg_flags,
    {
        self.lemma_chunks();
        assert(le_u16(self.chunk1(), 0) == self.bg_free_blocks_count_lo) by {
            assert(self.chunk1().subrange(0, 2) =~= u16_bytes(self.bg_free_blocks_count_lo));
            lemma_le_u16_at(self.chunk1(), 0, self.bg_free_blocks_count_lo);
        }
        lemma_le_u16_prepend(self.chunk0(), self.chunk1(), 0);
        lemma_le_u16_append(self.chunk0() + self.chunk1(), self.chunk2(), 12);
        lemma_le_u16_append(self.chunk0() + self.chunk1() + self.chunk2(), self.chunk3(), 12);
        lemma_le_u16_append(self.chunk0() + self.chunk1() + self.chunk2() + self.chunk3(), self.chunk4(), 12);
        lemma_le_u16_append(self.chunk0() + self.chunk1() + self.chunk2() + self.chunk3() + self.chunk4(), self.chunk5(), 12);
        assert(le_u16(self.chunk1(), 2) == self.bg_free_inodes_count_lo) by {
            assert(self.chunk1().subrange(2, 4) =~= u16_bytes(self.bg_free_inodes_count_lo));
            lemma_le_u16_at(self.chunk1(), 2, self.bg_free_inodes_count_lo);
        }
        lemma_le_u16_prepend(self.chunk0(), self.chunk1(), 2);
        lemma_le_u16_append(self.chunk0() + self.chunk1(), self.chunk2(), 14);
        lemma_le_u16_append(self.chunk0() + self.chunk1() + self.chunk2(), self.chunk3(), 14);
        lemma_le_u16_append(self.chunk0() + self.chunk1() + self.chunk2() + self.chunk3(), self.chunk4(), 14);
        lemma_le_u16_append(self.chunk0() + self.chunk1() + self.chunk2() + self.chunk3() + self.chunk4(), self.chunk5(), 14);
        assert(le_u16(self.chunk1(), 4) == self.bg_used_dirs_count_lo) by {
            assert(self.chunk1().subrange(4, 6) =~= u16_bytes(self.bg_used_dirs_count_lo));
            lemma_le_u16_at(self.chunk1(), 4, self.bg_used_dirs_count_lo);
        }
        lemma_le_u16_prepend(self.chunk0(), self.chunk1(), 4);
        lemma_le_u16_append(self.chunk0() + self.chunk1(), self.chunk2(), 16);
        lemma_le_u16_append(self.chunk0() + self.chunk1() + self.chunk2(), self.chunk3(), 16);
        lemma_le_u16_append(self.chunk0() + self.chunk1() + self.chunk2() + self.chunk3(), self.chunk4(), 16);
        lemma_le_u16_append(self.chunk0() + self.chunk1() + self.chunk2() + self.chunk3() + self.chunk4(), self.chunk5(), 16);
        assert(le_u16(self.chunk1(), 6) == self.bg_flags) by {
            assert(self.chunk1().subrange(6, 8) =~= u16_bytes(self.bg_flags));
            lemma_le_u16_at(self.chunk1(), 6, self.bg_flags);
        }
        lemma_le_u16_prepend(self.chunk0(), self.chunk1(), 6);
        lemma_le_u16_append(self.chunk0() + self.chunk1(), self.chunk2(), 18);
        lemma_le_u16_append(self.chunk0() + self.chunk1() + self.chunk2(), self.chunk3(), 18);
        lemma_le_u16_append(self.chunk0() + self.chunk1() + self.chunk2() + self.chunk3(), self.chunk4(), 18);
        lemma_le_u16_append(self.chunk0() + self.chunk1() + self.chunk2() + self.chunk3() + self.chunk4(), self.chunk5(), 18);
    }

    #[verifier::spinoff_prover]
    #[verifier::rlimit(80)]
    proof fn lemma_layout_chunk2(self)
        ensures
            le_u32(self.spec_bytes(), 20) == self.bg_exclude_bitmap_lo,
            le_u16(self.spec_bytes(), 24) == self.bg_block_bitmap_csum_lo,
            le_u16(self.spec_bytes(), 26) == self.bg_inode_bitmap_csum_lo,
            le_u16(self.spec_bytes(), 28) == self.bg_itable_unused_lo,
            le_u16(self.spec_bytes(), 30) == self.bg_checksum,
    {
        self.lemma_chunks();
        assert(le_u32(self.chunk2(), 0) == self.bg_exclude_bitmap_lo) by {
            assert(self.chunk2().subrange(0, 4) =~= u32_bytes(self.bg_exclude_bitmap_lo));
            lemma_le_u32_at(self.chunk2(), 0, self.bg_exclude_bitmap_lo);
        }
        lemma_le_u32_prepend(self.chunk0() + self.chunk1(), self.chunk2(), 0);
        lemma_le_u32_append(self.chunk0() + self.chunk1() + self.chunk2(), self.chunk3(), 20);
        lemma_le_u32_append(self.chunk0() + self.chunk1() + self.chunk2() + self.chunk3(), self.chunk4(), 20);
        lemma_le_u32_append(self.chunk0() + self.chunk1() + self.chunk2() + self.chunk3() + self.chunk4(), self.chunk5(), 20);
        assert(le_u16(self.chunk2(), 4) == self.bg_block_bitmap_csum_lo) by {
            assert(self.chunk2().subrange(4, 6) =~= u16_bytes(self.bg_block_bitmap_csum_lo));
            lemma_le_u16_at(self.chunk2(), 4, self.bg_block_bitmap_csum_lo);
        }
        lemma_le_u16_prepend(self.chunk0() + self.chunk1(), self.chunk2(), 4);
        lemma_le_u16_append(self.chunk0() + self.chunk1() + self.chunk2(), self.chunk3(), 24);
        lemma_le_u16_append(self.chunk0() + self.chunk1() + self.chunk2() + self.chunk3(), self.chunk4(), 24);
        lemma_le_u16_append(self.chunk0() + self.chunk1() + self.chunk2() + self.chunk3() + self.chunk4(), self.chunk5(), 24);
        assert(le_u16(self.chunk2(), 6) == self.bg_inode_bitmap_csum_lo) by {
            assert(self.chunk2().subrange(6, 8) =~= u16_bytes(self.bg_inode_bitmap_csum_lo));
            lemma_le_u16_at(self.chunk2(), 6, self.bg_inode_bitmap_csum_lo);
        }
        lemma_le_u16_prepend(self.chunk0() + self.chunk1(), self.chunk2(), 6);
        lemma_le_u16_append(self.chunk0() + self.chunk1() + self.chunk2(), self.chunk3(), 26);
        lemma_le_u16_append(self.chunk0() + self.chunk1() + self.chunk2() + self.chunk3(), self.chunk4(), 26);
        lemma_le_u16_append(self.chunk0() + self.chunk1() + self.chunk2() + self.chunk3() + self.chunk4(), self.chunk5(), 26);
        assert(le_u16(self.chunk2(), 8) == self.bg_itable_unused_lo) by {
            assert(self.chunk2().subrange(8, 10) =~= u16_bytes(self.bg_itable_unused_lo));
            lemma_le_u16_at(self.chunk2(), 8, self.bg_itable_unused_lo);
        }
        lemma_le_u16_prepend(self.chunk0() + self.chunk1(), self.chunk2(), 8);
        lemma_le_u16_append(self.chunk0() + self.chunk1() + self.chunk2(), self.chunk3(), 28);
        lemma_le_u16_append(self.chunk0() + self.chunk1() + self.chunk2() + self.chunk3(), self.chunk4(), 28);
        lemma_le_u16_append(self.chunk0() + self.chunk1() + self.chunk2() + self.chunk3() + self.chunk4(), self.chunk5(), 28);
        assert(le_u16(self.chunk2(), 10) == self.bg_checksum) by {
            assert(self.chunk2().subrange(10, 12) =~= u16_bytes(self.bg_checksum));
            lemma_le_u16_at(self.chunk2(), 10, self.bg_checksum);
        }
        lemma_le_u16_prepend(self.chunk0() + self.chunk1(), self.chunk2(), 10);
        lemma_le_u16_append(self.chunk0() + self.chunk1() + self.chunk2(), self.chunk3(), 30);
        lemma_le_u16_append(self.chunk0() + self.chunk1() + self.chunk2() + self.chunk3(), self.chunk4(), 30);
        lemma_le_u16_append(self.chunk0() + self.chunk1() + self.chunk2() + self.chunk3() + self.chunk4(), self.chunk5(), 30);
    }

    #[verifier::spinoff_prover]
    #[verifier::rlimit(80)]
    proof fn lemma_layout_chunk3(self)
        ensures
            le_u32(self.spec_bytes(), 32) == self.bg_block_bitmap_hi,
            le_u32(self.spec_bytes(), 36) == self.bg_inode_bitmap_hi,
            le_u32(self.spec_bytes(), 40) == self.bg_inode_table_hi,
    {
        self.lemma_chunks();
        assert(le_u32(self.chunk3(), 0) == self.bg_block_bitmap_hi) by {
            assert(self.chunk3().subrange(0, 4) =~= u32_bytes(self.bg_block_bitmap_hi));
            lemma_le_u32_at(self.chunk3(), 0, self.bg_block_bitmap_hi);
        }
        lemma_le_u32_prepend(self.chunk0() + self.chunk1() + self.chunk2(), self.chunk3(), 0);
        lemma_le_u32_append(self.chunk0() + self.chunk1() + self.chunk2() + self.chunk3(), self.chunk4(), 32);
        lemma_le_u32_append(self.chunk0() + self.chunk1() + self.chunk2() + self.chunk3() + self.chunk4(), self.chunk5(), 32);
        assert(le_u32(self.chunk3(), 4) == self.bg_inode_bitmap_hi) by {
            assert(self.chunk3().subrange(4, 8) =~= u32_bytes(self.bg_inode_bitmap_hi));
            lemma_le_u32_at(self.chunk3(), 4, self.bg_inode_bitmap_hi);
        }
        lemma_le_u32_prepend(self.chunk0() + self.chunk1() + self.chunk2(), self.chunk3(), 4);
        lemma_le_u32_append(self.chunk0() + self.chunk1() + self.chunk2() + self.chunk3(), self.chunk4(), 36);
        lemma_le_u32_append(self.chunk0() + self.chunk1() + self.chunk2() + self.chunk3() + self.chunk4(), self.chunk5(), 36);
        assert(le_u32(self.chunk3(), 8) == self.bg_inode_table_hi) by {
            assert(self.chunk3().subrange(8, 12) =~= u32_bytes(self.bg_inode_table_hi));
            lemma_le_u32_at(self.chunk3(), 8, self.bg_inode_table_hi);
        }
        lemma_le_u32_prepend(self.chunk0() + self.chunk1() + self.chunk2(), self.chunk3(), 8);
        lemma_le_u32_append(self.chunk0() + self.chunk1() + self.chunk2() + self.chunk3(), self.chunk4(), 40);
        lemma_le_u32_append(self.chunk0() + self.chunk1() + self.chunk2() + self.chunk3() + self.chunk4(), self.chunk5(), 40);
    }

    #[verifier::spinoff_prover]
    #[verifier::rlimit(80)]
    proof fn lemma_layout_chunk4(self)
        ensures
            le_u16(self.spec_bytes(), 44) == self.bg_free_blocks_count_hi,
            le_u16(self.spec_bytes(), 46) == self.bg_free_inodes_count_hi,
            le_u16(self.spec_bytes(), 48) == self.bg_used_dirs_count_hi,
            le_u16(self.spec_bytes(), 50) == self.bg_itable_unused_hi,
    {
        self.lemma_chunks();
        assert(le_u16(self.chunk4(), 0) == self.bg_free_blocks_count_hi) by {
            assert(self.chunk4().subrange(0, 2) =~= u16_bytes(self.bg_free_blocks_count_hi));
            lemma_le_u16_at(self.chunk4(), 0, self.bg_free_blocks_count_hi);
        }
        lemma_le_u16_prepend(self.chunk0() + self.chunk1() + self.chunk2() + self.chunk3(), self.chunk4(), 0);
        lemma_le_u16_append(self.chunk0() + self.chunk1() + self.chunk2() + self.chunk3() + self.chunk4(), self.chunk5(), 44);
        assert(le_u16(self.chunk4(), 2) == self.bg_free_inodes_count_hi) by {
            assert(self.chunk4().subrange(2, 4) =~= u16_bytes(self.bg_free_inodes_count_hi));
            lemma_le_u16_at(self.chunk4(), 2, self.bg_free_inodes_count_hi);
        }
        lemma_le_u16_prepend(self.chunk0() + self.chunk1() + self.chunk2() + self.chunk3(), self.chunk4(), 2);
        lemma_le_u16_append(self.chunk0() + self.chunk1() + self.chunk2() + self.chunk3() + self.chunk4(), self.chunk5(), 46);
        assert(le_u16(self.chunk4(), 4) == self.bg_used_dirs_count_hi) by {
            assert(self.chunk4().subrange(4, 6) =~= u16_bytes(self.bg_used_dirs_count_hi));
            lemma_le_u16_at(self.chunk4(), 4, self.bg_used_dirs_count_hi);
        }
        lemma_le_u16_prepend(self.chunk0() + self.chunk1() + self.chunk2() + self.chunk3(), self.chunk4(), 4);
        lemma_le_u16_append(self.chunk0() + self.chunk1() + self.chunk2() + self.chunk3() + self.chunk4(), self.chunk5(), 48);
        assert(le_u16(self.chunk4(), 6) == self.bg_itable_unused_hi) by {
            assert(self.chunk4().subrange(6, 8) =~= u16_bytes(self.bg_itable_unused_hi));
            lemma_le_u16_at(self.chunk4(), 6, self.bg_itable_unused_hi);
        }
        lemma_le_u16_prepend(self.chunk0() + self.chunk1() + self.chunk2() + self.chunk3(), self.chunk4(), 6);
        lemma_le_u16_append(self.chunk0() + self.chunk1() + self.chunk2() + self.chunk3() + self.chunk4(), self.chunk5(), 50);
    }

    #[verifier::spinoff_prover]
    #[verifier::rlimit(80)]
    proof fn lemma_layout_chunk5(self)
        ensures
            le_u32(self.spec_bytes(), 52) == self.bg_exclude_bitmap_hi,
            le_u16(self.spec_bytes(), 56) == self.bg_block_bitmap_csum_hi,
            le_u16(self.spec_bytes(), 58) == self.bg_inode_bitmap_csum_hi,
            le_u32(self.spec_bytes(), 60) == self.bg_reserved,
    {
        self.lemma_chunks();
        assert(le_u32(self.chunk5(), 0) == self.bg_exclude_bitmap_hi) by {
            assert(self.chunk5().subrange(0, 4) =~= u32_bytes(self.bg_exclude_bitmap_hi));
            lemma_le_u32_at(self.chunk5(), 0, self.bg_exclude_bitmap_hi);
        }
        lemma_le_u32_prepend(self.chunk0() + self.chunk1() + self.chunk2() + self.chunk3() + self.chunk4(), self.chunk5(), 0);
        assert(le_u16(self.chunk5(), 4) == self.bg_block_bitmap_csum_hi) by {
            assert(self.chunk5().subrange(4, 6) =~= u16_bytes(self.bg_block_bitmap_csum_hi));
            lemma_le_u16_at(self.chunk5(), 4, self.bg_block_bitmap_csum_hi);
        }
        lemma_le_u16_prepend(self.chunk0() + self.chunk1() + self.chunk2() + self.chunk3() + self.chunk4(), self.chunk5(), 4);
        assert(le_u16(self.chunk5(), 6) == self.bg_inode_bitmap_csum_hi) by {
            assert(self.chunk5().subrange(6, 8) =~= u16_bytes(self.bg_inode_bitmap_csum_hi));
            lemma_le_u16_at(self.chunk5(), 6, self.bg_inode_bitmap_csum_hi);
        }
        lemma_le_u16_prepend(self.chunk0() + self.chunk1() + self.chunk2() + self.chunk3() + self.chunk4(), self.chunk5(), 6);
        assert(le_u32(self.chunk5(), 8) == self.bg_reserved) by {
            assert(self.chunk5().subrange(8, 12) =~= u32_bytes(self.bg_reserved));
            lemma_le_u32_at(self.chunk5(), 8, self.bg_reserved);
        }
        lemma_le_u32_prepend(self.chunk0() + self.chunk1() + self.chunk2() + self.chunk3() + self.chunk4(), self.chunk5(), 8);
    }

    /// The on-disk encoding: every field in little-endian order, one after the other.
    pub open spec fn spec_bytes(self) -> Seq<u8> {
        u32_bytes(self.bg_block_bitmap_lo) + u32_bytes(self.bg_inode_bitmap_lo) + u32_bytes(self.bg_inode_table_lo)
            + u16_bytes(self.bg_free_blocks_count_lo) + u16_bytes(self.bg_free_inodes_count_lo) + u16_bytes(
            self.bg_used_dirs_count_lo,
        ) + u16_bytes(self.bg_flags) + u32_bytes(self.bg_exclude_bitmap_lo) + u16_bytes(self.bg_block_bitmap_csum_lo)
            + u16_bytes(self.bg_inode_bitmap_csum_lo) + u16_bytes(self.bg_itable_unused_lo) + u16_bytes(
            self.bg_checksum,
        ) + u32_bytes(self.bg_block_bitmap_hi) + u32_bytes(self.bg_inode_bitmap_hi) + u32_bytes(self.bg_inode_table_hi)
            + u16_bytes(self.bg_free_blocks_count_hi) + u16_bytes(self.bg_free_inodes_count_hi) + u16_bytes(
            self.bg_used_dirs_count_hi,
        ) + u16_bytes(self.bg_itable_unused_hi) + u32_bytes(self.bg_exclude_bitmap_hi) + u16_bytes(
            self.bg_block_bitmap_csum_hi,
        ) + u16_bytes(self.bg_inode_bitmap_csum_hi) + u32_bytes(self.bg_reserved)
    }

    /// Appends the on-disk encoding to `v`.
    #[verifier::spinoff_prover]
    #[verifier::rlimit(60)]
    pub fn push_bytes(&self, v: &mut Vec<u8>)
        ensures
            final(v)@ == old(v)@ + self.spec_bytes(),
    {
        push_u32(v, self.bg_block_bitmap_lo);
        push_u32(v, self.bg_inode_bitmap_lo);
        push_u32(v, self.bg_inode_table_lo);
        push_u16(v, self.bg_free_blocks_count_lo);
        push_u16(v, self.bg_free_inodes_count_lo);
        push_u16(v, self.bg_used_dirs_count_lo);
        push_u16(v, self.bg_flags);
        push_u32(v, self.bg_exclude_bitmap_lo);
        push_u16(v, self.bg_block_bitmap_csum_lo);
        push_u16(v, self.bg_inode_bitmap_csum_lo);
        push_u16(v, self.bg_itable_unused_lo);
        push_u16(v, self.bg_checksum);
        push_u32(v, self.bg_block_bitmap_hi);
        push_u32(v, self.bg_inode_bitmap_hi);
        push_u32(v, self.bg_inode_table_hi);
        push_u16(v, self.bg_free_blocks_count_hi);
        push_u16(v, self.bg_free_inodes_count_hi);
        push_u16(v, self.bg_used_dirs_count_hi);
        push_u16(v, self.bg_itable_unused_hi);
        push_u32(v, self.bg_exclude_bitmap_hi);
        push_u16(v, self.bg_block_bitmap_csum_hi);
        push_u16(v, self.bg_inode_bitmap_csum_hi);
        push_u32(v, self.bg_reserved);
        assert(v@ =~= old(v)@ + self.spec_bytes());
    }
}

} // verus!
