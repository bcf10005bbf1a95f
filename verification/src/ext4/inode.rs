use vstd::prelude::*;
use crate::allocator::Allocator;
use crate::bytes::{
    lemma_le_u16_append, lemma_le_u16_at, lemma_le_u16_prepend, lemma_le_u32_append, lemma_le_u32_at,
    lemma_le_u32_prepend, le_u16, le_u32, push_u16, push_u32, u16_bytes, u32_bytes,
};
use crate::error::ConvertError;
use crate::ext4::extent::{
    allocated_between, level_bytes, Extent, ExtentTree, ExtentView, EXTENT_ELEMENT_SIZE, EXTENT_ENTRIES_IN_INODE,
};
use crate::ext4::{BlockCount, BlockIdx, BlockSize};
use crate::lohi::{join_u32_u16, join_u32_u32, split_u32_u16, split_u32_u32};
use crate::serialization::dentry::DentryRepresentation;

verus! {

/// Directory with permissions rwxr-xr-x.
pub const MODE_DIRECTORY: u16 = 0o40755;
/// Directory with permissions rwx------, the mode of lost+found.
pub const MODE_PRIVATE_DIRECTORY: u16 = 0o40700;
/// Regular file with permissions rw-r--r--.
pub const MODE_REGULAR_FILE: u16 = 0o100644;
/// The inode stores its data blocks in an extent tree.
pub const INODE_FLAG_EXTENTS: u32 = 0x80000;
/// The size of the inode fields beyond the first 128 bytes.
pub const INODE_EXTRA_SIZE: u16 = 32;
/// The size of the encoded inode fields.
pub const INODE_FIELDS_SIZE: usize = 160;

/// The fields of an ext4 inode, except the extent tree that it holds.
#[derive(Debug, Clone, Copy)]
pub struct InodeInner {
    pub i_mode: u16,
    pub i_uid: u16,
    pub i_size_lo: u32,
    pub i_atime: u32,
    pub i_ctime: u32,
    pub i_mtime: u32,
    pub i_dtime: u32,
    pub i_gid: u16,
    pub i_links_count: u16,
    pub i_blocks_lo: u32,
    pub i_flags: u32,
    pub l_i_version: u32,
    pub i_generation: u32,
    pub i_file_acl_lo: u32,
    pub i_size_high: u32,
    pub i_obso_faddr: u32,
    pub l_i_blocks_high: u16,
    pub l_i_file_acl_high: u16,
    pub l_i_uid_high: u16,
    pub l_i_gid_high: u16,
    pub l_i_checksum_lo: u16,
    pub l_i_reserved: u16,
    pub i_extra_isize: u16,
    pub i_checksum_hi: u16,
    pub i_ctime_extra: u32,
    pub i_mtime_extra: u32,
    pub i_atime_extra: u32,
    pub i_crtime: u32,
    pub i_crtime_extra: u32,
    pub i_version_hi: u32,
    pub i_projid: u32,
}

/// `a` and `b` agree in the type, flags, link count and times of the file.
pub open spec fn keeps_metadata(a: InodeInner, b: InodeInner) -> bool {
    &&& a.i_mode == b.i_mode
    &&& a.i_flags == b.i_flags
    &&& a.i_links_count == b.i_links_count
    &&& a.i_atime == b.i_atime
    &&& a.i_ctime == b.i_ctime
    &&& a.i_crtime == b.i_crtime
    &&& a.i_mtime == b.i_mtime
}

/// `a` and `b` agree in every field but the block count.
pub open spec fn same_but_blocks(a: InodeInner, b: InodeInner) -> bool {
    a == (InodeInner { i_blocks_lo: a.i_blocks_lo, l_i_blocks_high: a.l_i_blocks_high, ..b })
}

impl InodeInner {
    /// An inode with every field zero.
    pub fn zeroed() -> (r: Self)
        ensures
            r.spec_size() == 0,
            r.spec_blocks() == 0,
            r.i_links_count == 0,
            r.i_mode == 0,
    {
        InodeInner {
            i_mode: 0,
            i_uid: 0,
            i_size_lo: 0,
            i_atime: 0,
            i_ctime: 0,
            i_mtime: 0,
            i_dtime: 0,
            i_gid: 0,
            i_links_count: 0,
            i_blocks_lo: 0,
            i_flags: 0,
            l_i_version: 0,
            i_generation: 0,
            i_file_acl_lo: 0,
            i_size_high: 0,
            i_obso_faddr: 0,
            l_i_blocks_high: 0,
            l_i_file_acl_high: 0,
            l_i_uid_high: 0,
            l_i_gid_high: 0,
            l_i_checksum_lo: 0,
            l_i_reserved: 0,
            i_extra_isize: 0,
            i_checksum_hi: 0,
            i_ctime_extra: 0,
            i_mtime_extra: 0,
            i_atime_extra: 0,
            i_crtime: 0,
            i_crtime_extra: 0,
            i_version_hi: 0,
            i_projid: 0,
        }
    }

    /// The file size in bytes.
    pub open spec fn spec_size(self) -> int {
        self.i_size_high * 0x1_0000_0000 + self.i_size_lo
    }

    /// The number of 512-byte units that the file occupies.
    pub open spec fn spec_blocks(self) -> int {
        self.l_i_blocks_high * 0x1_0000_0000 + self.i_blocks_lo
    }

    /// The encoding of the fields before the extent tree.
    pub open spec fn spec_head_bytes(self) -> Seq<u8> {
        u16_bytes(self.i_mode) + u16_bytes(self.i_uid) + u32_bytes(self.i_size_lo) + u32_bytes(self.i_atime)
            + u32_bytes(self.i_ctime) + u32_bytes(self.i_mtime) + u32_bytes(self.i_dtime) + u16_bytes(self.i_gid)
            + u16_bytes(self.i_links_count) + u32_bytes(self.i_blocks_lo) + u32_bytes(self.i_flags) + u32_bytes(
            self.l_i_version,
        )
    }

    /// The encoding of the fields after the extent tree.
    pub open spec fn spec_tail_bytes(self) -> Seq<u8> {
        u32_bytes(self.i_generation) + u32_bytes(self.i_file_acl_lo) + u32_bytes(self.i_size_high) + u32_bytes(
            self.i_obso_faddr,
        ) + u16_bytes(self.l_i_blocks_high) + u16_bytes(self.l_i_file_acl_high) + u16_bytes(self.l_i_uid_high)
            + u16_bytes(self.l_i_gid_high) + u16_bytes(self.l_i_checksum_lo) + u16_bytes(self.l_i_reserved)
            + u16_bytes(self.i_extra_isize) + u16_bytes(self.i_checksum_hi) + u32_bytes(self.i_ctime_extra)
            + u32_bytes(self.i_mtime_extra) + u32_bytes(self.i_atime_extra) + u32_bytes(self.i_crtime) + u32_bytes(
            self.i_crtime_extra,
        ) + u32_bytes(self.i_version_hi) + u32_bytes(self.i_projid)
    }

    /// An inode is written in the 160-byte ext4 layout: mode, owner, low half of the size and the access, change,
    /// modification and deletion times from offset 0, group, link count, low half of the 512-byte block count,
    /// flags and version up to offset 40, the extent tree root in the 60 bytes from offset 40, then generation,
    /// extended attribute block, high half of the size from offset 100 on, the high halves of the block count, owner
    /// and group from offset 116, and the extra fields, creation time at offset 144 among them.
    pub proof fn law_inode_layout(self, extents: Seq<u8>)
        requires
            extents.len() == 60,
        ensures
            self.spec_bytes(extents).len() == 160,
            self.spec_bytes(extents).subrange(40, 100) == extents,
            le_u32(self.spec_bytes(extents), 4) + le_u32(self.spec_bytes(extents), 108) * 0x1_0000_0000 == self.spec_size(),
            le_u32(self.spec_bytes(extents), 28) + le_u16(self.spec_bytes(extents), 116) * 0x1_0000_0000 == self.spec_blocks(),
            le_u16(self.spec_bytes(extents), 0) == self.i_mode,
            le_u16(self.spec_bytes(extents), 2) == self.i_uid,
            le_u32(self.spec_bytes(extents), 4) == self.i_size_lo,
            le_u32(self.spec_bytes(extents), 8) == self.i_atime,
            le_u32(self.spec_bytes(extents), 12) == self.i_ctime,
            le_u32(self.spec_bytes(extents), 16) == self.i_mtime,
            le_u32(self.spec_bytes(extents), 20) == self.i_dtime,
            le_u16(self.spec_bytes(extents), 24) == self.i_gid,
            le_u16(self.spec_bytes(extents), 26) == self.i_links_count,
            le_u32(self.spec_bytes(extents), 28) == self.i_blocks_lo,
            le_u32(self.spec_bytes(extents), 32) == self.i_flags,
            le_u32(self.spec_bytes(extents), 36) == self.l_i_version,
            le_u32(self.spec_bytes(extents), 100) == self.i_generation,
            le_u32(self.spec_bytes(extents), 104) == self.i_file_acl_lo,
            le_u32(self.spec_bytes(extents), 108) == self.i_size_high,
            le_u32(self.spec_bytes(extents), 112) == self.i_obso_faddr,
            le_u16(self.spec_bytes(extents), 116) == self.l_i_blocks_high,
            le_u16(self.spec_bytes(extents), 118) == self.l_i_file_acl_high,
            le_u16(self.spec_bytes(extents), 120) == self.l_i_uid_high,
            le_u16(self.spec_bytes(extents), 122) == self.l_i_gid_high,
            le_u16(self.spec_bytes(extents), 124) == self.l_i_checksum_lo,
            le_u16(self.spec_bytes(extents), 126) == self.l_i_reserved,
            le_u16(self.spec_bytes(extents), 128) == self.i_extra_isize,
            le_u16(self.spec_bytes(extents), 130) == self.i_checksum_hi,
            le_u32(self.spec_bytes(extents), 132) == self.i_ctime_extra,
            le_u32(self.spec_bytes(extents), 136) == self.i_mtime_extra,
            le_u32(self.spec_bytes(extents), 140) == self.i_atime_extra,
            le_u32(self.spec_bytes(extents), 144) == self.i_crtime,
            le_u32(self.spec_bytes(extents), 148) == self.i_crtime_extra,
            le_u32(self.spec_bytes(extents), 152) == self.i_version_hi,
            le_u32(self.spec_bytes(extents), 156) == self.i_projid,
    {
        self.lemma_head_chunks();
        self.lemma_tail_chunks();
        assert(self.spec_bytes(extents).subrange(40, 100) =~= extents);
        self.lemma_head_layout0(extents);
        self.lemma_head_layout1(extents);
        self.lemma_head_layout2(extents);
        self.lemma_head_layout3(extents);
        self.lemma_tail_layout0(extents);
        self.lemma_tail_layout1(extents);
        self.lemma_tail_layout2(extents);
        self.lemma_tail_layout3(extents);
        self.lemma_tail_layout4(extents);
    }

    spec fn head_chunk0(self) -> Seq<u8> {
        u16_bytes(self.i_mode) + u16_bytes(self.i_uid) + u32_bytes(self.i_size_lo)
    }

    spec fn head_chunk1(self) -> Seq<u8> {
        u32_bytes(self.i_atime) + u32_bytes(self.i_ctime) + u32_bytes(self.i_mtime)
    }

    spec fn head_chunk2(self) -> Seq<u8> {
        u32_bytes(self.i_dtime) + u16_bytes(self.i_gid) + u16_bytes(self.i_links_count)
    }

    spec fn head_chunk3(self) -> Seq<u8> {
        u32_bytes(self.i_blocks_lo) + u32_bytes(self.i_flags) + u32_bytes(self.l_i_version)
    }

    proof fn lemma_head_chunks(self)
        ensures
            self.spec_head_bytes() == self.head_chunk0() + self.head_chunk1() + self.head_chunk2() + self.head_chunk3(),
            self.spec_head_bytes().len() == 40,
    {
        assert(self.spec_head_bytes() =~= self.head_chunk0() + self.head_chunk1() + self.head_chunk2() + self.head_chunk3());
    }

    spec fn tail_chunk0(self) -> Seq<u8> {
        u32_bytes(self.i_generation) + u32_bytes(self.i_file_acl_lo) + u32_bytes(self.i_size_high) + u32_bytes(self.i_obso_faddr)
    }

    spec fn tail_chunk1(self) -> Seq<u8> {
        u16_bytes(self.l_i_blocks_high) + u16_bytes(self.l_i_file_acl_high) + u16_bytes(self.l_i_uid_high) + u16_bytes(self.l_i_gid_high)
    }

    spec fn tail_chunk2(self) -> Seq<u8> {
        u16_bytes(self.l_i_checksum_lo) + u16_bytes(self.l_i_reserved) + u16_bytes(self.i_extra_isize) + u16_bytes(self.i_checksum_hi)
    }

    spec fn tail_chunk3(self) -> Seq<u8> {
        u32_bytes(self.i_ctime_extra) + u32_bytes(self.i_mtime_extra) + u32_bytes(self.i_atime_extra)
    }

    spec fn tail_chunk4(self) -> Seq<u8> {
        u32_bytes(self.i_crtime) + u32_bytes(self.i_crtime_extra) + u32_bytes(self.i_version_hi) + u32_bytes(self.i_projid)
    }

    proof fn lemma_tail_chunks(self)
        ensures
            self.spec_tail_bytes() == self.tail_chunk0() + self.tail_chunk1() + self.tail_chunk2() + self.tail_chunk3() + self.tail_chunk4(),
            self.spec_tail_bytes().len() == 60,
    {
        assert(self.spec_tail_bytes() =~= self.tail_chunk0() + self.tail_chunk1() + self.tail_chunk2() + self.tail_chunk3() + self.tail_chunk4());
    }

    proof fn lemma_head_layout0(self, extents: Seq<u8>)
        requires
            extents.len() == 60,
        ensures
            le_u16(self.spec_bytes(extents), 0) == self.i_mode,
            le_u16(self.spec_bytes(extents), 2) == self.i_uid,
            le_u32(self.spec_bytes(extents), 4) == self.i_size_lo,
    {
        self.lemma_head_chunks();
        assert(le_u16(self.head_chunk0(), 0) == self.i_mode) by {
            assert(self.head_chunk0().subrange(0, 2) =~= u16_bytes(self.i_mode));
            lemma_le_u16_at(self.head_chunk0(), 0, self.i_mode);
        }
        lemma_le_u16_append(self.head_chunk0(), self.head_chunk1(), 0);
        lemma_le_u16_append(self.head_chunk0() + self.head_chunk1(), self.head_chunk2(), 0);
        lemma_le_u16_append(self.head_chunk0() + self.head_chunk1() + self.head_chunk2(), self.head_chunk3(), 0);
        lemma_le_u16_append(self.spec_head_bytes(), extents, 0);
        lemma_le_u16_append(self.spec_head_bytes() + extents, self.spec_tail_bytes(), 0);
        assert(le_u16(self.head_chunk0(), 2) == self.i_uid) by {
            assert(self.head_chunk0().subrange(2, 4) =~= u16_bytes(self.i_uid));
            lemma_le_u16_at(self.head_chunk0(), 2, self.i_uid);
        }
        lemma_le_u16_append(self.head_chunk0(), self.head_chunk1(), 2);
        lemma_le_u16_append(self.head_chunk0() + self.head_chunk1(), self.head_chunk2(), 2);
        lemma_le_u16_append(self.head_chunk0() + self.head_chunk1() + self.head_chunk2(), self.head_chunk3(), 2);
        lemma_le_u16_append(self.spec_head_bytes(), extents, 2);
        lemma_le_u16_append(self.spec_head_bytes() + extents, self.spec_tail_bytes(), 2);
        assert(le_u32(self.head_chunk0(), 4) == self.i_size_lo) by {
            assert(self.head_chunk0().subrange(4, 8) =~= u32_bytes(self.i_size_lo));
            lemma_le_u32_at(self.head_chunk0(), 4, self.i_size_lo);
        }
        lemma_le_u32_append(self.head_chunk0(), self.head_chunk1(), 4);
        lemma_le_u32_append(self.head_chunk0() + self.head_chunk1(), self.head_chunk2(), 4);
        lemma_le_u32_append(self.head_chunk0() + self.head_chunk1() + self.head_chunk2(), self.head_chunk3(), 4);
        lemma_le_u32_append(self.spec_head_bytes(), extents, 4);
        lemma_le_u32_append(self.spec_head_bytes() + extents, self.spec_tail_bytes(), 4);
    }

    proof fn lemma_head_layout1(self, extents: Seq<u8>)
        requires
            extents.len() == 60,
        ensures
            le_u32(self.spec_bytes(extents), 8) == self.i_atime,
            le_u32(self.spec_bytes(extents), 12) == self.i_ctime,
            le_u32(self.spec_bytes(extents), 16) == self.i_mtime,
    {
        self.lemma_head_chunks();
        assert(le_u32(self.head_chunk1(), 0) == self.i_atime) by {
            assert(self.head_chunk1().subrange(0, 4) =~= u32_bytes(self.i_atime));
            lemma_le_u32_at(self.head_chunk1(), 0, self.i_atime);
        }
        lemma_le_u32_prepend(self.head_chunk0(), self.head_chunk1(), 0);
        lemma_le_u32_append(self.head_chunk0() + self.head_chunk1(), self.head_chunk2(), 8);
        lemma_le_u32_append(self.head_chunk0() + self.head_chunk1() + self.head_chunk2(), self.head_chunk3(), 8);
        lemma_le_u32_append(self.spec_head_bytes(), extents, 8);
        lemma_le_u32_append(self.spec_head_bytes() + extents, self.spec_tail_bytes(), 8);
        assert(le_u32(self.head_chunk1(), 4) == self.i_ctime) by {
            assert(self.head_chunk1().subrange(4, 8) =~= u32_bytes(self.i_ctime));
            lemma_le_u32_at(self.head_chunk1(), 4, self.i_ctime);
        }
        lemma_le_u32_prepend(self.head_chunk0(), self.head_chunk1(), 4);
        lemma_le_u32_append(self.head_chunk0() + self.head_chunk1(), self.head_chunk2(), 12);
        lemma_le_u32_append(self.head_chunk0() + self.head_chunk1() + self.head_chunk2(), self.head_chunk3(), 12);
        lemma_le_u32_append(self.spec_head_bytes(), extents, 12);
        lemma_le_u32_append(self.spec_head_bytes() + extents, self.spec_tail_bytes(), 12);
        assert(le_u32(self.head_chunk1(), 8) == self.i_mtime) by {
            assert(self.head_chunk1().subrange(8, 12) =~= u32_bytes(self.i_mtime));
            lemma_le_u32_at(self.head_chunk1(), 8, self.i_mtime);
        }
        lemma_le_u32_prepend(self.head_chunk0(), self.head_chunk1(), 8);
        lemma_le_u32_append(self.head_chunk0() + self.head_chunk1(), self.head_chunk2(), 16);
        lemma_le_u32_append(self.head_chunk0() + self.head_chunk1() + self.head_chunk2(), self.head_chunk3(), 16);
        lemma_le_u32_append(self.spec_head_bytes(), extents, 16);
        lemma_le_u32_append(self.spec_head_bytes() + extents, self.spec_tail_bytes(), 16);
    }

    proof fn lemma_head_layout2(self, extents: Seq<u8>)
        requires
            extents.len() == 60,
        ensures
            le_u32(self.spec_bytes(extents), 20) == self.i_dtime,
            le_u16(self.spec_bytes(extents), 24) == self.i_gid,
            le_u16(self.spec_bytes(extents), 26) == self.i_links_count,
    {
        self.lemma_head_chunks();
        assert(le_u32(self.head_chunk2(), 0) == self.i_dtime) by {
            assert(self.head_chunk2().subrange(0, 4) =~= u32_bytes(self.i_dtime));
            lemma_le_u32_at(self.head_chunk2(), 0, self.i_dtime);
        }
        lemma_le_u32_prepend(self.head_chunk0() + self.head_chunk1(), self.head_chunk2(), 0);
        lemma_le_u32_append(self.head_chunk0() + self.head_chunk1() + self.head_chunk2(), self.head_chunk3(), 20);
        lemma_le_u32_append(self.spec_head_bytes(), extents, 20);
        lemma_le_u32_append(self.spec_head_bytes() + extents, self.spec_tail_bytes(), 20);
        assert(le_u16(self.head_chunk2(), 4) == self.i_gid) by {
            assert(self.head_chunk2().subrange(4, 6) =~= u16_bytes(self.i_gid));
            lemma_le_u16_at(self.head_chunk2(), 4, self.i_gid);
        }
        lemma_le_u16_prepend(self.head_chunk0() + self.head_chunk1(), self.head_chunk2(), 4);
        lemma_le_u16_append(self.head_chunk0() + self.head_chunk1() + self.head_chunk2(), self.head_chunk3(), 24);
        lemma_le_u16_append(self.spec_head_bytes(), extents, 24);
        lemma_le_u16_append(self.spec_head_bytes() + extents, self.spec_tail_bytes(), 24);
        assert(le_u16(self.head_chunk2(), 6) == self.i_links_count) by {
            assert(self.head_chunk2().subrange(6, 8) =~= u16_bytes(self.i_links_count));
            lemma_le_u16_at(self.head_chunk2(), 6, self.i_links_count);
        }
        lemma_le_u16_prepend(self.head_chunk0() + self.head_chunk1(), self.head_chunk2(), 6);
        lemma_le_u16_append(self.head_chunk0() + self.head_chunk1() + self.head_chunk2(), self.head_chunk3(), 26);
        lemma_le_u16_append(self.spec_head_bytes(), extents, 26);
        lemma_le_u16_append(self.spec_head_bytes() + extents, self.spec_tail_bytes(), 26);
    }

    proof fn lemma_head_layout3(self, extents: Seq<u8>)
        requires
            extents.len() == 60,
        ensures
            le_u32(self.spec_bytes(extents), 28) == self.i_blocks_lo,
            le_u32(self.spec_bytes(extents), 32) == self.i_flags,
            le_u32(self.spec_bytes(extents), 36) == self.l_i_version,
    {
        self.lemma_head_chunks();
        assert(le_u32(self.head_chunk3(), 0) == self.i_blocks_lo) by {
            assert(self.head_chunk3().subrange(0, 4) =~= u32_bytes(self.i_blocks_lo));
            lemma_le_u32_at(self.head_chunk3(), 0, self.i_blocks_lo);
        }
        lemma_le_u32_prepend(self.head_chunk0() + self.head_chunk1() + self.head_chunk2(), self.head_chunk3(), 0);
        lemma_le_u32_append(self.spec_head_bytes(), extents, 28);
        lemma_le_u32_append(self.spec_head_bytes() + extents, self.spec_tail_bytes(), 28);
        assert(le_u32(self.head_chunk3(), 4) == self.i_flags) by {
            assert(self.head_chunk3().subrange(4, 8) =~= u32_bytes(self.i_flags));
            lemma_le_u32_at(self.head_chunk3(), 4, self.i_flags);
        }
        lemma_le_u32_prepend(self.head_chunk0() + self.head_chunk1() + self.head_chunk2(), self.head_chunk3(), 4);
        lemma_le_u32_append(self.spec_head_bytes(), extents, 32);
        lemma_le_u32_append(self.spec_head_bytes() + extents, self.spec_tail_bytes(), 32);
        assert(le_u32(self.head_chunk3(), 8) == self.l_i_version) by {
            assert(self.head_chunk3().subrange(8, 12) =~= u32_bytes(self.l_i_version));
            lemma_le_u32_at(self.head_chunk3(), 8, self.l_i_version);
        }
        lemma_le_u32_prepend(self.head_chunk0() + self.head_chunk1() + self.head_chunk2(), self.head_chunk3(), 8);
        lemma_le_u32_append(self.spec_head_bytes(), extents, 36);
        lemma_le_u32_append(self.spec_head_bytes() + extents, self.spec_tail_bytes(), 36);
    }

    proof fn lemma_tail_layout0(self, extents: Seq<u8>)
        requires
            extents.len() == 60,
        ensures
            le_u32(self.spec_bytes(extents), 100) == self.i_generation,
            le_u32(self.spec_bytes(extents), 104) == self.i_file_acl_lo,
            le_u32(self.spec_bytes(extents), 108) == self.i_size_high,
            le_u32(self.spec_bytes(extents), 112) == self.i_obso_faddr,
    {
        self.lemma_tail_chunks();
        assert(le_u32(self.tail_chunk0(), 0) == self.i_generation) by {
            assert(self.tail_chunk0().subrange(0, 4) =~= u32_bytes(self.i_generation));
            lemma_le_u32_at(self.tail_chunk0(), 0, self.i_generation);
        }
        lemma_le_u32_append(self.tail_chunk0(), self.tail_chunk1(), 0);
        lemma_le_u32_append(self.tail_chunk0() + self.tail_chunk1(), self.tail_chunk2(), 0);
        lemma_le_u32_append(self.tail_chunk0() + self.tail_chunk1() + self.tail_chunk2(), self.tail_chunk3(), 0);
        lemma_le_u32_append(self.tail_chunk0() + self.tail_chunk1() + self.tail_chunk2() + self.tail_chunk3(), self.tail_chunk4(), 0);
        lemma_le_u32_prepend(self.spec_head_bytes() + extents, self.spec_tail_bytes(), 0);
        self.lemma_head_chunks();
        assert(le_u32(self.tail_chunk0(), 4) == self.i_file_acl_lo) by {
            assert(self.tail_chunk0().subrange(4, 8) =~= u32_bytes(self.i_file_acl_lo));
            lemma_le_u32_at(self.tail_chunk0(), 4, self.i_file_acl_lo);
        }
        lemma_le_u32_append(self.tail_chunk0(), self.tail_chunk1(), 4);
        lemma_le_u32_append(self.tail_chunk0() + self.tail_chunk1(), self.tail_chunk2(), 4);
        lemma_le_u32_append(self.tail_chunk0() + self.tail_chunk1() + self.tail_chunk2(), self.tail_chunk3(), 4);
        lemma_le_u32_append(self.tail_chunk0() + self.tail_chunk1() + self.tail_chunk2() + self.tail_chunk3(), self.tail_chunk4(), 4);
        lemma_le_u32_prepend(self.spec_head_bytes() + extents, self.spec_tail_bytes(), 4);
        self.lemma_head_chunks();
        assert(le_u32(self.tail_chunk0(), 8) == self.i_size_high) by {
            assert(self.tail_chunk0().subrange(8, 12) =~= u32_bytes(self.i_size_high));
            lemma_le_u32_at(self.tail_chunk0(), 8, self.i_size_high);
        }
        lemma_le_u32_append(self.tail_chunk0(), self.tail_chunk1(), 8);
        lemma_le_u32_append(self.tail_chunk0() + self.tail_chunk1(), self.tail_chunk2(), 8);
        lemma_le_u32_append(self.tail_chunk0() + self.tail_chunk1() + self.tail_chunk2(), self.tail_chunk3(), 8);
        lemma_le_u32_append(self.tail_chunk0() + self.tail_chunk1() + self.tail_chunk2() + self.tail_chunk3(), self.tail_chunk4(), 8);
        lemma_le_u32_prepend(self.spec_head_bytes() + extents, self.spec_tail_bytes(), 8);
        self.lemma_head_chunks();
        assert(le_u32(self.tail_chunk0(), 12) == self.i_obso_faddr) by {
            assert(self.tail_chunk0().subrange(12, 16) =~= u32_bytes(self.i_obso_faddr));
            lemma_le_u32_at(self.tail_chunk0(), 12, self.i_obso_faddr);
        }
        lemma_le_u32_append(self.tail_chunk0(), self.tail_chunk1(), 12);
        lemma_le_u32_append(self.tail_chunk0() + self.tail_chunk1(), self.tail_chunk2(), 12);
        lemma_le_u32_append(self.tail_chunk0() + self.tail_chunk1() + self.tail_chunk2(), self.tail_chunk3(), 12);
        lemma_le_u32_append(self.tail_chunk0() + self.tail_chunk1() + self.tail_chunk2() + self.tail_chunk3(), self.tail_chunk4(), 12);
        lemma_le_u32_prepend(self.spec_head_bytes() + extents, self.spec_tail_bytes(), 12);
        self.lemma_head_chunks();
    }

    proof fn lemma_tail_layout1(self, extents: Seq<u8>)
        requires
            extents.len() == 60,
        ensures
            le_u16(self.spec_bytes(extents), 116) == self.l_i_blocks_high,
            le_u16(self.spec_bytes(extents), 118) == self.l_i_file_acl_high,
            le_u16(self.spec_bytes(extents), 120) == self.l_i_uid_high,
            le_u16(self.spec_bytes(extents), 122) == self.l_i_gid_high,
    {
        self.lemma_tail_chunks();
        assert(le_u16(self.tail_chunk1(), 0) == self.l_i_blocks_high) by {
            assert(self.tail_chunk1().subrange(0, 2) =~= u16_bytes(self.l_i_blocks_high));
            lemma_le_u16_at(self.tail_chunk1(), 0, self.l_i_blocks_high);
        }
        lemma_le_u16_prepend(self.tail_chunk0(), self.tail_chunk1(), 0);
        lemma_le_u16_append(self.tail_chunk0() + self.tail_chunk1(), self.tail_chunk2(), 16);
        lemma_le_u16_append(self.tail_chunk0() + self.tail_chunk1() + self.tail_chunk2(), self.tail_chunk3(), 16);
        lemma_le_u16_append(self.tail_chunk0() + self.tail_chunk1() + self.tail_chunk2() + self.tail_chunk3(), self.tail_chunk4(), 16);
        lemma_le_u16_prepend(self.spec_head_bytes() + extents, self.spec_tail_bytes(), 16);
        self.lemma_head_chunks();
        assert(le_u16(self.tail_chunk1(), 2) == self.l_i_file_acl_high) by {
            assert(self.tail_chunk1().subrange(2, 4) =~= u16_bytes(self.l_i_file_acl_high));
            lemma_le_u16_at(self.tail_chunk1(), 2, self.l_i_file_acl_high);
        }
        lemma_le_u16_prepend(self.tail_chunk0(), self.tail_chunk1(), 2);
        lemma_le_u16_append(self.tail_chunk0() + self.tail_chunk1(), self.tail_chunk2(), 18);
        lemma_le_u16_append(self.tail_chunk0() + self.tail_chunk1() + self.tail_chunk2(), self.tail_chunk3(), 18);
        lemma_le_u16_append(self.tail_chunk0() + self.tail_chunk1() + self.tail_chunk2() + self.tail_chunk3(), self.tail_chunk4(), 18);
        lemma_le_u16_prepend(self.spec_head_bytes() + extents, self.spec_tail_bytes(), 18);
        self.lemma_head_chunks();
        assert(le_u16(self.tail_chunk1(), 4) == self.l_i_uid_high) by {
            assert(self.tail_chunk1().subrange(4, 6) =~= u16_bytes(self.l_i_uid_high));
            lemma_le_u16_at(self.tail_chunk1(), 4, self.l_i_uid_high);
        }
        lemma_le_u16_prepend(self.tail_chunk0(), self.tail_chunk1(), 4);
        lemma_le_u16_append(self.tail_chunk0() + self.tail_chunk1(), self.tail_chunk2(), 20);
        lemma_le_u16_append(self.tail_chunk0() + self.tail_chunk1() + self.tail_chunk2(), self.tail_chunk3(), 20);
        lemma_le_u16_append(self.tail_chunk0() + self.tail_chunk1() + self.tail_chunk2() + self.tail_chunk3(), self.tail_chunk4(), 20);
        lemma_le_u16_prepend(self.spec_head_bytes() + extents, self.spec_tail_bytes(), 20);
        self.lemma_head_chunks();
        assert(le_u16(self.tail_chunk1(), 6) == self.l_i_gid_high) by {
            assert(self.tail_chunk1().subrange(6, 8) =~= u16_bytes(self.l_i_gid_high));
            lemma_le_u16_at(self.tail_chunk1(), 6, self.l_i_gid_high);
        }
        lemma_le_u16_prepend(self.tail_chunk0(), self.tail_chunk1(), 6);
        lemma_le_u16_append(self.tail_chunk0() + self.tail_chunk1(), self.tail_chunk2(), 22);
        lemma_le_u16_append(self.tail_chunk0() + self.tail_chunk1() + self.tail_chunk2(), self.tail_chunk3(), 22);
        lemma_le_u16_append(self.tail_chunk0() + self.tail_chunk1() + self.tail_chunk2() + self.tail_chunk3(), self.tail_chunk4(), 22);
        lemma_le_u16_prepend(self.spec_head_bytes() + extents, self.spec_tail_bytes(), 22);
        self.lemma_head_chunks();
    }

    proof fn lemma_tail_layout2(self, extents: Seq<u8>)
        requires
            extents.len() == 60,
        ensures
            le_u16(self.spec_bytes(extents), 124) == self.l_i_checksum_lo,
            le_u16(self.spec_bytes(extents), 126) == self.l_i_reserved,
            le_u16(self.spec_bytes(extents), 128) == self.i_extra_isize,
            le_u16(self.spec_bytes(extents), 130) == self.i_checksum_hi,
    {
        self.lemma_tail_chunks();
        assert(le_u16(self.tail_chunk2(), 0) == self.l_i_checksum_lo) by {
            assert(self.tail_chunk2().subrange(0, 2) =~= u16_bytes(self.l_i_checksum_lo));
            lemma_le_u16_at(self.tail_chunk2(), 0, self.l_i_checksum_lo);
        }
        lemma_le_u16_prepend(self.tail_chunk0() + self.tail_chunk1(), self.tail_chunk2(), 0);
        lemma_le_u16_append(self.tail_chunk0() + self.tail_chunk1() + self.tail_chunk2(), self.tail_chunk3(), 24);
        lemma_le_u16_append(self.tail_chunk0() + self.tail_chunk1() + self.tail_chunk2() + self.tail_chunk3(), self.tail_chunk4(), 24);
        lemma_le_u16_prepend(self.spec_head_bytes() + extents, self.spec_tail_bytes(), 24);
        self.lemma_head_chunks();
        assert(le_u16(self.tail_chunk2(), 2) == self.l_i_reserved) by {
            assert(self.tail_chunk2().subrange(2, 4) =~= u16_bytes(self.l_i_reserved));
            lemma_le_u16_at(self.tail_chunk2(), 2, self.l_i_reserved);
        }
        lemma_le_u16_prepend(self.tail_chunk0() + self.tail_chunk1(), self.tail_chunk2(), 2);
        lemma_le_u16_append(self.tail_chunk0() + self.tail_chunk1() + self.tail_chunk2(), self.tail_chunk3(), 26);
        lemma_le_u16_append(self.tail_chunk0() + self.tail_chunk1() + self.tail_chunk2() + self.tail_chunk3(), self.tail_chunk4(), 26);
        lemma_le_u16_prepend(self.spec_head_bytes() + extents, self.spec_tail_bytes(), 26);
        self.lemma_head_chunks();
        assert(le_u16(self.tail_chunk2(), 4) == self.i_extra_isize) by {
            assert(self.tail_chunk2().subrange(4, 6) =~= u16_bytes(self.i_extra_isize));
            lemma_le_u16_at(self.tail_chunk2(), 4, self.i_extra_isize);
        }
        lemma_le_u16_prepend(self.tail_chunk0() + self.tail_chunk1(), self.tail_chunk2(), 4);
        lemma_le_u16_append(self.tail_chunk0() + self.tail_chunk1() + self.tail_chunk2(), self.tail_chunk3(), 28);
        lemma_le_u16_append(self.tail_chunk0() + self.tail_chunk1() + self.tail_chunk2() + self.tail_chunk3(), self.tail_chunk4(), 28);
        lemma_le_u16_prepend(self.spec_head_bytes() + extents, self.spec_tail_bytes(), 28);
        self.lemma_head_chunks();
        assert(le_u16(self.tail_chunk2(), 6) == self.i_checksum_hi) by {
            assert(self.tail_chunk2().subrange(6, 8) =~= u16_bytes(self.i_checksum_hi));
            lemma_le_u16_at(self.tail_chunk2(), 6, self.i_checksum_hi);
        }
        lemma_le_u16_prepend(self.tail_chunk0() + self.tail_chunk1(), self.tail_chunk2(), 6);
        lemma_le_u16_append(self.tail_chunk0() + self.tail_chunk1() + self.tail_chunk2(), self.tail_chunk3(), 30);
        lemma_le_u16_append(self.tail_chunk0() + self.tail_chunk1() + self.tail_chunk2() + self.tail_chunk3(), self.tail_chunk4(), 30);
        lemma_le_u16_prepend(self.spec_head_bytes() + extents, self.spec_tail_bytes(), 30);
        self.lemma_head_chunks();
    }

    proof fn lemma_tail_layout3(self, extents: Seq<u8>)
        requires
            extents.len() == 60,
        ensures
            le_u32(self.spec_bytes(extents), 132) == self.i_ctime_extra,
            le_u32(self.spec_bytes(extents), 136) == self.i_mtime_extra,
            le_u32(self.spec_bytes(extents), 140) == self.i_atime_extra,
    {
        self.lemma_tail_chunks();
        assert(le_u32(self.tail_chunk3(), 0) == self.i_ctime_extra) by {
            assert(self.tail_chunk3().subrange(0, 4) =~= u32_bytes(self.i_ctime_extra));
            lemma_le_u32_at(self.tail_chunk3(), 0, self.i_ctime_extra);
        }
        lemma_le_u32_prepend(self.tail_chunk0() + self.tail_chunk1() + self.tail_chunk2(), self.tail_chunk3(), 0);
        lemma_le_u32_append(self.tail_chunk0() + self.tail_chunk1() + self.tail_chunk2() + self.tail_chunk3(), self.tail_chunk4(), 32);
        lemma_le_u32_prepend(self.spec_head_bytes() + extents, self.spec_tail_bytes(), 32);
        self.lemma_head_chunks();
        assert(le_u32(self.tail_chunk3(), 4) == self.i_mtime_extra) by {
            assert(self.tail_chunk3().subrange(4, 8) =~= u32_bytes(self.i_mtime_extra));
            lemma_le_u32_at(self.tail_chunk3(), 4, self.i_mtime_extra);
        }
        lemma_le_u32_prepend(self.tail_chunk0() + self.tail_chunk1() + self.tail_chunk2(), self.tail_chunk3(), 4);
        lemma_le_u32_append(self.tail_chunk0() + self.tail_chunk1() + self.tail_chunk2() + self.tail_chunk3(), self.tail_chunk4(), 36);
        lemma_le_u32_prepend(self.spec_head_bytes() + extents, self.spec_tail_bytes(), 36);
        self.lemma_head_chunks();
        assert(le_u32(self.tail_chunk3(), 8) == self.i_atime_extra) by {
            assert(self.tail_chunk3().subrange(8, 12) =~= u32_bytes(self.i_atime_extra));
            lemma_le_u32_at(self.tail_chunk3(), 8, self.i_atime_extra);
        }
        lemma_le_u32_prepend(self.tail_chunk0() + self.tail_chunk1() + self.tail_chunk2(), self.tail_chunk3(), 8);
        lemma_le_u32_append(self.tail_chunk0() + self.tail_chunk1() + self.tail_chunk2() + self.tail_chunk3(), self.tail_chunk4(), 40);
        lemma_le_u32_prepend(self.spec_head_bytes() + extents, self.spec_tail_bytes(), 40);
        self.lemma_head_chunks();
    }

    proof fn lemma_tail_layout4(self, extents: Seq<u8>)
        requires
            extents.len() == 60,
        ensures
            le_u32(self.spec_bytes(extents), 144) == self.i_crtime,
            le_u32(self.spec_bytes(extents), 148) == self.i_crtime_extra,
            le_u32(self.spec_bytes(extents), 152) == self.i_version_hi,
            le_u32(self.spec_bytes(extents), 156) == self.i_projid,
    {
        self.lemma_tail_chunks();
        assert(le_u32(self.tail_chunk4(), 0) == self.i_crtime) by {
            assert(self.tail_chunk4().subrange(0, 4) =~= u32_bytes(self.i_crtime));
            lemma_le_u32_at(self.tail_chunk4(), 0, self.i_crtime);
        }
        lemma_le_u32_prepend(self.tail_chunk0() + self.tail_chunk1() + self.tail_chunk2() + self.tail_chunk3(), self.tail_chunk4(), 0);
        lemma_le_u32_prepend(self.spec_head_bytes() + extents, self.spec_tail_bytes(), 44);
        self.lemma_head_chunks();
        assert(le_u32(self.tail_chunk4(), 4) == self.i_crtime_extra) by {
            assert(self.tail_chunk4().subrange(4, 8) =~= u32_bytes(self.i_crtime_extra));
            lemma_le_u32_at(self.tail_chunk4(), 4, self.i_crtime_extra);
        }
        lemma_le_u32_prepend(self.tail_chunk0() + self.tail_chunk1() + self.tail_chunk2() + self.tail_chunk3(), self.tail_chunk4(), 4);
        lemma_le_u32_prepend(self.spec_head_bytes() + extents, self.spec_tail_bytes(), 48);
        self.lemma_head_chunks();
        assert(le_u32(self.tail_chunk4(), 8) == self.i_version_hi) by {
            assert(self.tail_chunk4().subrange(8, 12) =~= u32_bytes(self.i_version_hi));
            lemma_le_u32_at(self.tail_chunk4(), 8, self.i_version_hi);
        }
        lemma_le_u32_prepend(self.tail_chunk0() + self.tail_chunk1() + self.tail_chunk2() + self.tail_chunk3(), self.tail_chunk4(), 8);
        lemma_le_u32_prepend(self.spec_head_bytes() + extents, self.spec_tail_bytes(), 52);
        self.lemma_head_chunks();
        assert(le_u32(self.tail_chunk4(), 12) == self.i_projid) by {
            assert(self.tail_chunk4().subrange(12, 16) =~= u32_bytes(self.i_projid));
            lemma_le_u32_at(self.tail_chunk4(), 12, self.i_projid);
        }
        lemma_le_u32_prepend(self.tail_chunk0() + self.tail_chunk1() + self.tail_chunk2() + self.tail_chunk3(), self.tail_chunk4(), 12);
        lemma_le_u32_prepend(self.spec_head_bytes() + extents, self.spec_tail_bytes(), 56);
        self.lemma_head_chunks();
    }

    /// The on-disk encoding, with `extents` in place of the extent tree.
    pub open spec fn spec_bytes(self, extents: Seq<u8>) -> Seq<u8> {
        self.spec_head_bytes() + extents + self.spec_tail_bytes()
    }

    fn head_bytes(&self) -> (r: Vec<u8>)
        ensures
            r@ == self.spec_head_bytes(),
            r@.len() == 40,
    {
        let mut w: Vec<u8> = Vec::new();
        push_u16(&mut w, self.i_mode);
        assert(w@ =~= u16_bytes(self.i_mode));
        push_u16(&mut w, self.i_uid);
        push_u32(&mut w, self.i_size_lo);
        push_u32(&mut w, self.i_atime);
        push_u32(&mut w, self.i_ctime);
        push_u32(&mut w, self.i_mtime);
        push_u32(&mut w, self.i_dtime);
        push_u16(&mut w, self.i_gid);
        push_u16(&mut w, self.i_links_count);
        push_u32(&mut w, self.i_blocks_lo);
        push_u32(&mut w, self.i_flags);
        push_u32(&mut w, self.l_i_version);
        assert(w@ == self.spec_head_bytes());
        w
    }

    fn tail_bytes(&self) -> (r: Vec<u8>)
        ensures
            r@ == self.spec_tail_bytes(),
            r@.len() == 60,
    {
        let mut w: Vec<u8> = Vec::new();
        push_u32(&mut w, self.i_generation);
        assert(w@ =~= u32_bytes(self.i_generation));
        push_u32(&mut w, self.i_file_acl_lo);
        push_u32(&mut w, self.i_size_high);
        push_u32(&mut w, self.i_obso_faddr);
        push_u16(&mut w, self.l_i_blocks_high);
        push_u16(&mut w, self.l_i_file_acl_high);
        push_u16(&mut w, self.l_i_uid_high);
        push_u16(&mut w, self.l_i_gid_high);
        push_u16(&mut w, self.l_i_checksum_lo);
        push_u16(&mut w, self.l_i_reserved);
        push_u16(&mut w, self.i_extra_isize);
        push_u16(&mut w, self.i_checksum_hi);
        push_u32(&mut w, self.i_ctime_extra);
        push_u32(&mut w, self.i_mtime_extra);
        push_u32(&mut w, self.i_atime_extra);
        push_u32(&mut w, self.i_crtime);
        push_u32(&mut w, self.i_crtime_extra);
        push_u32(&mut w, self.i_version_hi);
        push_u32(&mut w, self.i_projid);
        assert(w@ == self.spec_tail_bytes());
        w
    }

    /// The on-disk encoding, with `extents` in place of the extent tree.
    pub fn to_bytes(&self, extents: &[u8]) -> (r: Vec<u8>)
        ensures
            r@ == self.spec_bytes(extents@),
            r@.len() == 100 + extents@.len(),
    {
        let mut w = self.head_bytes();
        crate::bytes::push_bytes(&mut w, extents);
        let tail = self.tail_bytes();
        crate::bytes::push_bytes(&mut w, tail.as_slice());
        w
    }
}

/// An inode of the new filesystem, with its number and the extent tree of its data blocks.
pub struct Inode {
    pub inode_no: u32,
    /// Where the inode's slot in the inode table starts in the partition.
    pub byte_offset: u64,
    pub inner: InodeInner,
    pub extent_tree: ExtentTree,
}

impl Inode {
    /// A zeroed inode with number `inode_no` and an empty extent tree for blocks of `block_size` bytes.
    pub fn new(inode_no: u32, byte_offset: u64, block_size: BlockSize) -> (r: Self)
        requires
            EXTENT_ENTRIES_IN_INODE * EXTENT_ELEMENT_SIZE <= block_size <= 65536,
        ensures
            r.inode_no == inode_no,
            r.byte_offset == byte_offset,
            r.inner.spec_size() == 0,
            r.inner.spec_blocks() == 0,
            r.inner.i_links_count == 0,
            r.extent_tree.wf(),
            r.extent_tree.spec_extents() == Seq::<ExtentView>::empty(),
            r.extent_tree.entries_per_block == (block_size as int) / (EXTENT_ELEMENT_SIZE as int),
    {
        Inode { inode_no, byte_offset, inner: InodeInner::zeroed(), extent_tree: ExtentTree::new(block_size) }
    }

    /// Adds `size` bytes to the file size.
    pub fn increment_size(&mut self, size: u64)
        requires
            old(self).inner.spec_size() + size <= u64::MAX,
        ensures
            final(self).inner == (InodeInner {
                i_size_lo: final(self).inner.i_size_lo,
                i_size_high: final(self).inner.i_size_high,
                ..old(self).inner
            }),
            final(self).inner.spec_size() == old(self).inner.spec_size() + size,
            final(self).inode_no == old(self).inode_no,
            final(self).byte_offset == old(self).byte_offset,
            final(self).extent_tree == old(self).extent_tree,
    {
        let current = join_u32_u32(self.inner.i_size_lo, self.inner.i_size_high);
        self.set_size(current + size);
    }

    /// Sets the file size in bytes.
    pub fn set_size(&mut self, size: u64)
        ensures
            final(self).inner == (InodeInner {
                i_size_lo: final(self).inner.i_size_lo,
                i_size_high: final(self).inner.i_size_high,
                ..old(self).inner
            }),
            final(self).inner.spec_size() == size,
            final(self).inode_no == old(self).inode_no,
            final(self).byte_offset == old(self).byte_offset,
            final(self).extent_tree == old(self).extent_tree,
    {
        let (lo, hi) = split_u32_u32(size);
        self.inner.i_size_lo = lo;
        self.inner.i_size_high = hi;
    }

    pub fn increment_link_count(&mut self)
        requires
            old(self).inner.i_links_count < u16::MAX,
        ensures
            final(self).inner == (InodeInner { i_links_count: (old(self).inner.i_links_count + 1) as u16, ..old(self).inner }),
            final(self).inode_no == old(self).inode_no,
            final(self).byte_offset == old(self).byte_offset,
            final(self).extent_tree == old(self).extent_tree,
    {
        self.inner.i_links_count = self.inner.i_links_count + 1;
    }

    /// Adds the links that the `..` entries of `count` subdirectories make, or fails with `DirectoryTooLarge` if
    /// the link count cannot hold them.
    pub fn add_link_count_from_subdirs(&mut self, count: u64) -> (r: Result<(), ConvertError>)
        ensures
            match r {
                Ok(_) => old(self).inner.i_links_count + count <= u16::MAX && final(self).inner == (InodeInner {
                    i_links_count: (old(self).inner.i_links_count + count) as u16,
                    ..old(self).inner
                }),
                Err(e) => e == ConvertError::DirectoryTooLarge && old(self).inner.i_links_count + count > u16::MAX
                    && final(self).inner == old(self).inner,
            },
            final(self).inode_no == old(self).inode_no,
            final(self).byte_offset == old(self).byte_offset,
            final(self).extent_tree == old(self).extent_tree,
    {
        if count > (u16::MAX - self.inner.i_links_count) as u64 {
            return Err(ConvertError::DirectoryTooLarge);
        }
        self.inner.i_links_count = self.inner.i_links_count + count as u16;
        Ok(())
    }

    /// Appends `extent` to the file's extent tree, allocating tree blocks from `allocator` where needed; returns
    /// them.
    pub fn add_extent(&mut self, extent: Extent, allocator: &mut Allocator) -> (r: Result<Vec<BlockIdx>, ConvertError>)
        requires
            old(self).extent_tree.wf(),
            old(allocator).wf(),
        ensures
            r matches Err(e) ==> (e == ConvertError::NoFreeClusters ==> final(allocator).exhausted()),
            final(self).extent_tree.wf(),
            final(self).extent_tree.entries_per_block == old(self).extent_tree.entries_per_block,
            final(self).inner == old(self).inner,
            final(self).inode_no == old(self).inode_no,
            final(self).byte_offset == old(self).byte_offset,
            match r {
                Ok(blocks) => {
                    &&& final(self).extent_tree.spec_extents() == old(self).extent_tree.spec_extents().push(extent@)
                    &&& allocated_between(*old(allocator), *final(allocator), blocks@)
                },
                Err(e) => {
                    &&& final(self).extent_tree.spec_extents() == old(self).extent_tree.spec_extents()
                    &&& (e == ConvertError::ExtentTreeFull || e == ConvertError::NoFreeClusters)
                    &&& allocated_between(*old(allocator), *final(allocator), Seq::empty())
                },
            },
            old(self).extent_tree.root.header.depth == 0 && old(self).extent_tree.root.header.valid_entry_count
                < old(self).extent_tree.root.header.max_entry_count ==> (r matches Ok(blocks) && blocks@.len() == 0),
    {
        self.extent_tree.add_extent(extent, allocator)
    }

    /// Adds the 512-byte units of `block_count` blocks of `block_size` bytes to the count of used units.
    pub fn increment_used_blocks(&mut self, block_count: u64, block_size: u32)
        requires
            block_count * block_size <= u64::MAX,
            old(self).inner.spec_blocks() + block_count * block_size / 512 < 0x1_0000_0000_0000,
        ensures
            final(self).inner == (InodeInner {
                i_blocks_lo: final(self).inner.i_blocks_lo,
                l_i_blocks_high: final(self).inner.l_i_blocks_high,
                ..old(self).inner
            }),
            final(self).inner.spec_blocks() == old(self).inner.spec_blocks() + block_count * block_size / 512,
            final(self).inode_no == old(self).inode_no,
            final(self).byte_offset == old(self).byte_offset,
            final(self).extent_tree == old(self).extent_tree,
    {
        // number of 512-byte units
        let mini_block_count = block_count * (block_size as u64) / 512;
        let current = join_u32_u16(self.inner.i_blocks_lo, self.inner.l_i_blocks_high);
        let (lo, hi) = split_u32_u16(current + mini_block_count);
        self.inner.i_blocks_lo = lo;
        self.inner.l_i_blocks_high = hi;
    }

    /// Sets the fields that every inode of the new filesystem has: extents in use, extra inode size.
    fn init_common(&mut self, mode: u16)
        ensures
            final(self).inner.i_mode == mode,
            final(self).inner.i_flags == INODE_FLAG_EXTENTS,
            final(self).inner.i_extra_isize == INODE_EXTRA_SIZE,
            final(self).inner.spec_size() == old(self).inner.spec_size(),
            final(self).inner.spec_blocks() == old(self).inner.spec_blocks(),
            final(self).inner.i_links_count == old(self).inner.i_links_count,
            final(self).inode_no == old(self).inode_no,
            final(self).byte_offset == old(self).byte_offset,
            final(self).extent_tree == old(self).extent_tree,
    {
        self.inner.i_mode = mode;
        self.inner.i_flags = INODE_FLAG_EXTENTS;
        self.inner.i_extra_isize = INODE_EXTRA_SIZE;
    }

    /// Initializes the root directory inode; its links come from its `.` and `..` entries and subdirectories.
    pub fn init_root(&mut self)
        ensures
            final(self).inner.i_mode == MODE_DIRECTORY,
            final(self).inner.i_flags == INODE_FLAG_EXTENTS,
            final(self).inner.i_extra_isize == INODE_EXTRA_SIZE,
            final(self).inner.i_links_count == 0,
            final(self).inner.spec_size() == old(self).inner.spec_size(),
            final(self).inner.spec_blocks() == old(self).inner.spec_blocks(),
            final(self).inode_no == old(self).inode_no,
            final(self).byte_offset == old(self).byte_offset,
            final(self).extent_tree == old(self).extent_tree,
    {
        self.init_common(MODE_DIRECTORY);
        self.inner.i_links_count = 0;
    }

    /// Initializes the lost+found directory inode, linked once from the root directory.
    pub fn init_lost_found(&mut self)
        ensures
            final(self).inner.i_mode == MODE_PRIVATE_DIRECTORY,
            final(self).inner.i_flags == INODE_FLAG_EXTENTS,
            final(self).inner.i_extra_isize == INODE_EXTRA_SIZE,
            final(self).inner.i_links_count == 1,
            final(self).inner.spec_size() == old(self).inner.spec_size(),
            final(self).inner.spec_blocks() == old(self).inner.spec_blocks(),
            final(self).inode_no == old(self).inode_no,
            final(self).byte_offset == old(self).byte_offset,
            final(self).extent_tree == old(self).extent_tree,
    {
        self.init_common(MODE_PRIVATE_DIRECTORY);
        self.inner.i_links_count = 1;
    }

    /// Initializes the inode of the file that `dentry` describes, linked once from its parent directory.
    pub fn init_from_dentry(&mut self, dentry: DentryRepresentation)
        ensures
            final(self).inner.i_mode == (if dentry.is_dir { MODE_DIRECTORY } else { MODE_REGULAR_FILE }),
            final(self).inner.i_flags == INODE_FLAG_EXTENTS,
            final(self).inner.i_extra_isize == INODE_EXTRA_SIZE,
            final(self).inner.i_links_count == 1,
            final(self).inner.i_atime == dentry.access_time,
            final(self).inner.i_ctime == dentry.create_time,
            final(self).inner.i_crtime == dentry.create_time,
            final(self).inner.i_mtime == dentry.mod_time,
            final(self).inner.spec_size() == old(self).inner.spec_size(),
            final(self).inner.spec_blocks() == old(self).inner.spec_blocks(),
            final(self).inode_no == old(self).inode_no,
            final(self).byte_offset == old(self).byte_offset,
            final(self).extent_tree == old(self).extent_tree,
    {
        self.init_common(if dentry.is_dir { MODE_DIRECTORY } else { MODE_REGULAR_FILE });
        self.inner.i_links_count = 1;
        self.inner.i_atime = dentry.access_time;
        self.inner.i_ctime = dentry.create_time;
        self.inner.i_crtime = dentry.create_time;
        self.inner.i_mtime = dentry.mod_time;
    }

    /// The on-disk encoding of the inode fields, the root of the extent tree included.
    pub open spec fn spec_bytes(&self) -> Seq<u8> {
        self.inner.spec_bytes(level_bytes(self.extent_tree.root, (EXTENT_ENTRIES_IN_INODE * EXTENT_ELEMENT_SIZE) as int))
    }

    /// The on-disk encoding of the inode fields, the root of the extent tree included.
    pub fn to_bytes(&self) -> (r: Vec<u8>)
        requires
            self.extent_tree.wf(),
        ensures
            r@ == self.spec_bytes(),
            r@.len() == INODE_FIELDS_SIZE,
    {
        let extents = self.extent_tree.root_bytes();
        self.inner.to_bytes(extents.as_slice())
    }
}

} // verus!
