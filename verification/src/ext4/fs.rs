use vstd::prelude::*;
use std::ops::Range;
use crate::allocator::Allocator;
use crate::bytes::{spliced, write_at, zero_at};
use crate::error::ConvertError;
use crate::ext4::block_group::{is_special_inode, BlockGroup, Ext4BlockGroupConstructionInfo, SuperBlockConstructionInfo};
use crate::ext4::extent::{allocated_between, level_blocks, logical_ends_fit, Extent, ExtentView, spec_from_ranges, EXTENT_ELEMENT_SIZE};
use crate::ext4::group_descriptor::Ext4GroupDescriptor;
use crate::ext4::inode::{same_but_blocks, Inode, INODE_FIELDS_SIZE};
use crate::ext4::superblock::{ceil_div, HasSuperBlock, SuperBlock, INODE_SIZE, LOST_FOUND_INODE_NO, ROOT_INODE_NO};
use crate::ext4::{BlockGroupIdx, BlockIdx, InodeNo, FIRST_EXISTING_INODE, FIRST_NON_RESERVED_INODE};
use crate::fat::boot_sector::BootSector;

verus! {

broadcast use vstd::std_specs::control_flow::group_control_flow_axioms;

/// The ext4 filesystem under construction: its superblock, group descriptors and block group bitmaps, which are
/// written to the partition by `finish`.
/// The encoding of a group descriptor table.
pub open spec fn gdt_spec_bytes(gdt: Seq<Ext4GroupDescriptor>) -> Seq<u8>
    decreases gdt.len(),
{
    if gdt.len() == 0 {
        Seq::empty()
    } else {
        gdt_spec_bytes(gdt.drop_last()) + gdt.last().spec_bytes()
    }
}

/// `p` with the metadata of block group `g` written: its copy of the superblock `sb` (but for the first group,
/// whose superblock is written last) and of the group descriptor table `gdt` if it has them, and its bitmaps.
pub open spec fn group_metadata_written(p: Seq<u8>, group: BlockGroup, g: int, sb: Seq<u8>, gdt: Seq<u8>) -> Seq<u8> {
    let info = group.info;
    let bs = info.block_size as int;
    let p1 = match info.superblock_construction_info {
        SuperBlockConstructionInfo::Yes { superblock_start_byte, .. } => {
            let q = if g > 0 {
                spliced(p, info.start_block * bs + superblock_start_byte, sb)
            } else {
                p
            };
            spliced(q, (info.start_block + 1) * bs, gdt)
        },
        SuperBlockConstructionInfo::No => p,
    };
    let p2 = spliced(p1, info.block_bitmap_block * bs, group.data_block_bitmap.bytes());
    spliced(p2, info.inode_bitmap_block * bs, group.inode_bitmap.bytes())
}

/// The metadata of block group `g` fits into a partition of `plen` bytes, with a superblock of `sb_len` bytes and
/// a group descriptor table of `gdt_len` bytes, and its blocks have indices that a cluster index can hold.
pub open spec fn group_metadata_fits(group: BlockGroup, g: int, plen: int, sb_len: int, gdt_len: int) -> bool {
    let info = group.info;
    let bs = info.block_size as int;
    &&& info.block_bitmap_block <= u32::MAX
    &&& info.inode_bitmap_block <= u32::MAX
    &&& info.start_block < u32::MAX
    &&& match info.superblock_construction_info {
        SuperBlockConstructionInfo::Yes { superblock_start_byte, .. } => {
            &&& g > 0 ==> superblock_start_byte <= bs && info.start_block * bs + superblock_start_byte + sb_len <= plen
            &&& (info.start_block + 1) * bs + gdt_len <= plen
        },
        SuperBlockConstructionInfo::No => true,
    }
    &&& info.block_bitmap_block * bs + group.data_block_bitmap.bytes().len() <= plen
    &&& info.inode_bitmap_block * bs + group.inode_bitmap.bytes().len() <= plen
}

/// `p` with the metadata of the first `n` block groups of `groups` written, one group after the other.
pub open spec fn metadata_written(p: Seq<u8>, groups: Seq<BlockGroup>, sb: Seq<u8>, gdt: Seq<u8>, n: int) -> Seq<u8>
    decreases n,
{
    if n <= 0 {
        p
    } else {
        group_metadata_written(metadata_written(p, groups, sb, gdt, n - 1), groups[n - 1], n - 1, sb, gdt)
    }
}

/// Whether byte `b` of the partition lies in the inode table of `group`, for blocks of `bs` bytes.
pub open spec fn in_inode_table_of(group: BlockGroup, bs: int, b: int) -> bool {
    group.info.inode_table_start_block * bs <= b < group.info.inode_table_start_block * bs
        + group.info.inode_table_block_count * bs
}

/// The layout of block group `g` of the filesystem that `superblock` describes holds together: its metadata fits
/// into it, its counts fit the fields of a group descriptor, and its inode table lies within a partition of `plen`
/// bytes at a block index that a cluster index can hold.
pub open spec fn group_fits(superblock: SuperBlock, g: int, plen: int) -> bool {
    let bs = superblock.spec_block_size();
    let bpg = superblock.s_blocks_per_group as int;
    let ipg = superblock.s_inodes_per_group as int;
    let has_superblock = superblock.spec_has_superblock(g);
    let table_start = superblock.spec_block_group_start(g) + superblock.spec_superblock_copy_overhead(has_superblock) + 2;
    let rest = superblock.spec_block_count_without_padding() - g * bpg;
    let blocks = if rest < bpg { rest } else { bpg };
    let reserved = if g == 0 { crate::ext4::block_group::SPECIAL_INODE_COUNT as int } else { 0 };
    &&& superblock.spec_block_group_overhead(has_superblock) <= blocks
    &&& blocks <= u32::MAX
    &&& reserved <= ipg
    &&& ipg <= bs * 8
    &&& blocks <= bs * 8
    &&& table_start <= u32::MAX
    &&& table_start * bs + superblock.spec_inode_table_block_count() * bs <= plen
}

/// Every superblock that `SuperBlock::new` can compute for a partition of `fs_len` bytes, block size `bs` and
/// `volume_label` (they differ only in UUID and creation time) describes block groups that hold together in a
/// partition of `plen` bytes.
pub open spec fn new_layout_fits(fs_len: int, bs: int, volume_label: Seq<u8>, plen: int) -> bool {
    forall|sb: SuperBlock|
        #[trigger] sb.is_new_superblock(fs_len, bs, volume_label, sb.s_uuid@, sb.s_mkfs_time as int) ==> {
            &&& sb.s_inodes_per_group > 0
            &&& forall|g: int| 0 <= g < sb.spec_block_group_count() ==> #[trigger] group_fits(sb, g, plen)
        }
}

/// `write_inode` can write every block of the extent tree of `inode`, for blocks of `bs` bytes, through
/// `allocator` into a partition of `plen` bytes, and the inode's fields into its slot.
pub open spec fn inode_writable(inode: Inode, bs: int, allocator: Allocator, plen: int) -> bool {
    let lb = level_blocks(inode.extent_tree.root, bs);
    &&& forall|i: int|
        0 <= i < lb.len() ==> {
            let (b, bytes) = #[trigger] lb[i];
            &&& b <= u32::MAX
            &&& allocator.can_access(b as u32, plen)
            &&& bytes.len() <= allocator.spec_cluster_size()
        }
    &&& inode.byte_offset + INODE_FIELDS_SIZE <= plen
}

/// `after` is `before` with inode `inode_no` of block group `g`, at `rel` in the group, marked as used: the bit
/// is set, the group's free inode count is one lower and, for a directory, its directory count one higher; every
/// other group and descriptor is as it was.
pub open spec fn inode_marked(before: Ext4Fs, after: Ext4Fs, g: int, rel: int, is_dir: bool) -> bool {
    &&& after.superblock == before.superblock
    &&& after.block_groups@.len() == before.block_groups@.len()
    &&& after.gdt@.len() == before.gdt@.len()
    &&& forall|j: int| 0 <= j < before.block_groups@.len() && j != g ==> #[trigger] after.block_groups@[j] == before.block_groups@[j]
    &&& forall|j: int| 0 <= j < before.gdt@.len() && j != g ==> #[trigger] after.gdt@[j] == before.gdt@[j]
    &&& after.block_groups@[g].info == before.block_groups@[g].info
    &&& after.block_groups@[g].data_block_bitmap@ == before.block_groups@[g].data_block_bitmap@
    &&& after.block_groups@[g].inode_bitmap@ == before.block_groups@[g].inode_bitmap@.update(rel, true)
    &&& after.gdt@[g].spec_free_inodes_count() == before.gdt@[g].spec_free_inodes_count() - 1
    &&& after.gdt@[g].spec_free_blocks_count() == before.gdt@[g].spec_free_blocks_count()
    &&& after.gdt@[g].spec_used_dirs_count() == before.gdt@[g].spec_used_dirs_count() + (if is_dir { 1int } else { 0 })
    &&& after.gdt@[g] == (Ext4GroupDescriptor {
        bg_free_inodes_count_lo: after.gdt@[g].bg_free_inodes_count_lo,
        bg_free_inodes_count_hi: after.gdt@[g].bg_free_inodes_count_hi,
        bg_used_dirs_count_lo: after.gdt@[g].bg_used_dirs_count_lo,
        bg_used_dirs_count_hi: after.gdt@[g].bg_used_dirs_count_hi,
        ..before.gdt@[g]
    })
}

/// In a filesystem with nothing but the special inodes in use, every inode after them is free.
proof fn lemma_new_fs_fresh_inodes_free(fs: Ext4Fs)
    requires
        fs.superblock.wf(),
        fs.superblock.s_inodes_per_group > 0,
        fs.superblock.s_inodes_count <= fs.superblock.s_inodes_per_group * fs.block_groups@.len(),
        fs.last_allocated_inode_no == FIRST_NON_RESERVED_INODE - 1,
        fs.gdt@.len() == fs.block_groups@.len(),
        forall|i: int|
            0 <= i < fs.block_groups@.len() ==> {
                &&& (#[trigger] fs.block_groups@[i]).wf()
                &&& fs.block_groups@[i].info.is_construction_info(fs.superblock, i)
                &&& fs.gdt@[i].is_new_descriptor(fs.block_groups@[i].info)
                &&& forall|k: int|
                    0 <= k < fs.block_groups@[i].inode_bitmap@.len() ==> #[trigger] fs.block_groups@[i].inode_bitmap@[k]
                        == (k >= fs.block_groups@[i].info.inodes_count || (fs.block_groups@[i].info.is_first_block_group
                        && is_special_inode(k + FIRST_EXISTING_INODE)))
            },
    ensures
        fs.fresh_inodes_free(),
{
    let ipg = fs.superblock.s_inodes_per_group as int;
    assert forall|n: int| fs.last_allocated_inode_no < n <= fs.superblock.s_inodes_count implies !#[trigger] fs.block_groups@[(n
        - FIRST_EXISTING_INODE) / ipg].inode_bitmap@[(n - FIRST_EXISTING_INODE) % ipg] by {
        let e = n - FIRST_EXISTING_INODE;
        vstd::arithmetic::div_mod::lemma_fundamental_div_mod(e, ipg);
        let g = e / ipg;
        let rel = e % ipg;
        assert(0 <= rel < ipg);
        assert(0 <= g < fs.block_groups@.len()) by (nonlinear_arith)
            requires
                e == ipg * g + rel,
                0 <= rel < ipg,
                0 <= e < ipg * fs.block_groups@.len(),
                ipg > 0,
        ;
        let group = fs.block_groups@[g];
        assert(group.wf());
        assert(group.info.inodes_count == ipg);
        assert(rel < group.inode_bitmap@.len());
        if g == 0 {
            assert(ipg * g == 0) by (nonlinear_arith)
                requires
                    g == 0,
            ;
            assert(rel == e);
        }
    }
    assert forall|g: int| 0 <= g < fs.block_groups@.len() implies #[trigger] fs.gdt@[g].spec_free_inodes_count()
        >= fs.fresh_in_group(g) && fs.gdt@[g].spec_used_dirs_count() + fs.fresh_in_group(g) <= ipg by {
        let group = fs.block_groups@[g];
        assert(group.info.is_construction_info(fs.superblock, g));
        if g > 0 {
            assert(g * ipg >= ipg) by (nonlinear_arith)
                requires
                    g >= 1,
                    ipg > 0,
            ;
        } else {
            assert(g * ipg == 0) by (nonlinear_arith)
                requires
                    g == 0,
            ;
        }
    }
}

/// Where the fresh inodes are free, the next inode number, if it exists, can be allocated.
proof fn lemma_fresh_inode_allocatable(fs: Ext4Fs, is_dir: bool)
    requires
        fs.wf(),
        fs.fresh_inodes_free(),
        fs.last_allocated_inode_no < fs.superblock.s_inodes_count,
    ensures
        fs.inode_allocatable(fs.last_allocated_inode_no + 1, is_dir),
{
    let ipg = fs.superblock.s_inodes_per_group as int;
    let n = fs.last_allocated_inode_no + 1;
    let e = n - FIRST_EXISTING_INODE;
    let g = e / ipg;
    let rel = e % ipg;
    vstd::arithmetic::div_mod::lemma_fundamental_div_mod(e, ipg);
    assert(0 <= rel < ipg);
    assert(g < fs.block_groups@.len()) by (nonlinear_arith)
        requires
            e == ipg * g + rel,
            0 <= rel,
            0 <= e < ipg * fs.block_groups@.len(),
            ipg > 0,
    ;
    assert(0 <= g) by (nonlinear_arith)
        requires
            e == ipg * g + rel,
            rel < ipg,
            e >= 0,
            ipg > 0,
    ;
    assert(g * ipg == ipg * g) by (nonlinear_arith);
    assert(fs.fresh_in_group(g) >= 1);
    assert(fs.gdt@[g].spec_free_inodes_count() >= fs.fresh_in_group(g));
}

/// Allocating the next inode keeps the fresh inodes free.
#[verifier::spinoff_prover]
#[verifier::rlimit(40)]
proof fn lemma_fresh_inodes_stay_free(before: Ext4Fs, after: Ext4Fs, is_dir: bool)
    requires
        before.wf(),
        before.fresh_inodes_free(),
        before.last_allocated_inode_no < before.superblock.s_inodes_count,
        after.last_allocated_inode_no == before.last_allocated_inode_no + 1,
        inode_marked(
            before,
            after.spec_with_last_allocated(before.last_allocated_inode_no),
            (before.last_allocated_inode_no + 1 - FIRST_EXISTING_INODE) / (before.superblock.s_inodes_per_group as int),
            (before.last_allocated_inode_no + 1 - FIRST_EXISTING_INODE) % (before.superblock.s_inodes_per_group as int),
            is_dir,
        ),
    ensures
        after.fresh_inodes_free(),
{
    let ipg = before.superblock.s_inodes_per_group as int;
    let n = before.last_allocated_inode_no + 1;
    let e = n - FIRST_EXISTING_INODE;
    let g = e / ipg;
    let rel = e % ipg;
    let mid = after.spec_with_last_allocated(before.last_allocated_inode_no);
    vstd::arithmetic::div_mod::lemma_fundamental_div_mod(e, ipg);
    assert(g * ipg == ipg * g) by (nonlinear_arith);
    assert(0 <= g) by (nonlinear_arith)
        requires
            e == ipg * g + rel,
            rel < ipg,
            e >= 0,
            ipg > 0,
    ;
    assert(after.block_groups@ == mid.block_groups@ && after.gdt@ == mid.gdt@);
    assert forall|m: int| after.last_allocated_inode_no < m <= after.superblock.s_inodes_count implies !#[trigger] after.block_groups@[(m
        - FIRST_EXISTING_INODE) / ipg].inode_bitmap@[(m - FIRST_EXISTING_INODE) % ipg] by {
        let em = m - FIRST_EXISTING_INODE;
        vstd::arithmetic::div_mod::lemma_fundamental_div_mod(em, ipg);
        let gm = em / ipg;
        let rm = em % ipg;
        assert(before.last_allocated_inode_no < m <= before.superblock.s_inodes_count);
        assert(0 <= rm < ipg);
        assert(0 <= gm < before.block_groups@.len()) by (nonlinear_arith)
            requires
                em == ipg * gm + rm,
                0 <= rm < ipg,
                0 <= em < ipg * before.block_groups@.len(),
                ipg > 0,
        ;
        assert(!before.block_groups@[gm].inode_bitmap@[rm]);
        if gm != g {
            assert(after.block_groups@[gm] == before.block_groups@[gm]);
        } else {
            assert(rm != rel) by (nonlinear_arith)
                requires
                    em == ipg * gm + rm,
                    e == ipg * g + rel,
                    gm == g,
                    em != e,
            ;
            assert(after.block_groups@[g].inode_bitmap@ == before.block_groups@[g].inode_bitmap@.update(rel, true));
        }
    }
    assert forall|j: int| 0 <= j < after.block_groups@.len() implies #[trigger] after.gdt@[j].spec_free_inodes_count()
        >= after.fresh_in_group(j) && after.gdt@[j].spec_used_dirs_count() + after.fresh_in_group(j) <= ipg by {
        assert(before.gdt@[j].spec_free_inodes_count() >= before.fresh_in_group(j));
        if j < g {
            assert((j + 1) * ipg <= g * ipg) by (nonlinear_arith)
                requires
                    j + 1 <= g,
                    ipg > 0,
            ;
            assert(j * ipg + ipg == (j + 1) * ipg) by (nonlinear_arith);
        } else if j > g {
            assert((g + 1) * ipg <= j * ipg) by (nonlinear_arith)
                requires
                    g + 1 <= j,
                    ipg > 0,
            ;
            assert(g * ipg + ipg == (g + 1) * ipg) by (nonlinear_arith);
        }
    }
}

/// The metadata of `fs` fits into a partition of `plen` bytes, whatever its free counts: the primary superblock at
/// byte 1024, and every block group's copies and bitmaps.
pub open spec fn metadata_fits(fs: Ext4Fs, plen: int) -> bool {
    forall|sb: SuperBlock|
        #[trigger] fs.superblock.same_but_free_counts(sb) ==> {
            &&& 1024 + sb.spec_bytes().len() <= plen
            &&& forall|g: int|
                0 <= g < fs.block_groups@.len() ==> #[trigger] group_metadata_fits(
                    fs.block_groups@[g],
                    g,
                    plen,
                    sb.spec_bytes().len() as int,
                    gdt_spec_bytes(fs.gdt@).len() as int,
                )
        }
}

/// The `len` bytes of the partition from `off` on lie in metadata blocks of the filesystem that `superblock`
/// describes.
pub open spec fn in_metadata(superblock: SuperBlock, off: int, len: int) -> bool {
    forall|b: int| off <= b < off + len ==> #[trigger] superblock.is_overhead_block(b / superblock.spec_block_size())
}

/// Between `before` and `after`, only bytes of the clusters of `cs` bytes from cluster `start` on, and bytes of
/// metadata blocks of the filesystem that `superblock` describes, have changed.
pub open spec fn changes_only_new_or_metadata(before: Seq<u8>, after: Seq<u8>, start: int, cs: int, superblock: SuperBlock) -> bool {
    &&& after.len() == before.len()
    &&& forall|b: int|
        0 <= b < before.len() && #[trigger] after[b] != before[b] ==> b / cs >= start || superblock.is_overhead_block(
            b / superblock.spec_block_size(),
        )
}

pub proof fn lemma_changes_only_new_or_metadata_refl(p: Seq<u8>, start: int, cs: int, superblock: SuperBlock)
    ensures
        changes_only_new_or_metadata(p, p, start, cs, superblock),
{
}

pub proof fn lemma_changes_only_new_or_metadata_trans(
    p0: Seq<u8>,
    p1: Seq<u8>,
    p2: Seq<u8>,
    start: int,
    cs: int,
    superblock: SuperBlock,
)
    requires
        changes_only_new_or_metadata(p0, p1, start, cs, superblock),
        changes_only_new_or_metadata(p1, p2, start, cs, superblock),
    ensures
        changes_only_new_or_metadata(p0, p2, start, cs, superblock),
{
    assert forall|b: int| 0 <= b < p0.len() && #[trigger] p2[b] != p0[b] implies b / cs >= start
        || superblock.is_overhead_block(b / superblock.spec_block_size()) by {
        if p1[b] != p0[b] {
        } else {
            assert(p2[b] != p1[b]);
        }
    }
}

/// Changing only cluster `idx`, one from cluster `start` on, changes only new clusters.
pub proof fn lemma_cluster_change_is_new(before: Seq<u8>, after: Seq<u8>, idx: int, cs: int, start: int, superblock: SuperBlock)
    requires
        crate::allocator::changes_within_cluster(before, after, idx, cs),
        start <= idx,
        cs > 0,
    ensures
        changes_only_new_or_metadata(before, after, start, cs, superblock),
{
    assert forall|b: int| 0 <= b < before.len() && #[trigger] after[b] != before[b] implies b / cs >= start by {
        assert(b / cs == idx) by (nonlinear_arith)
            requires
                cs * idx <= b < cs * idx + cs,
                cs > 0,
        ;
    }
}

/// The inode table of block group `g`, laid out as `superblock` says, lies in the group's metadata blocks.
proof fn lemma_inode_table_is_overhead(superblock: SuperBlock, g: int, group: BlockGroup, bs: int, b: int)
    requires
        superblock.wf(),
        0 <= g < superblock.spec_block_group_count(),
        bs == superblock.spec_block_size(),
        1024 <= bs,
        group.info.inode_table_start_block == superblock.spec_block_group_start(g)
            + superblock.spec_superblock_copy_overhead(superblock.spec_has_superblock(g)) + 2,
        group.info.inode_table_block_count == superblock.spec_inode_table_block_count(),
        in_inode_table_of(group, bs, b),
    ensures
        superblock.is_overhead_block(b / bs),
{
    let t = group.info.inode_table_start_block as int;
    let n = group.info.inode_table_block_count as int;
    assert(t <= b / bs < t + n) by (nonlinear_arith)
        requires
            t * bs <= b < t * bs + n * bs,
            bs > 0,
    ;
    let dpb = bs / (superblock.s_desc_size as int);
    assert(dpb > 0) by (nonlinear_arith)
        requires
            dpb == bs / (superblock.s_desc_size as int),
            0 < superblock.s_desc_size <= 1024,
            1024 <= bs,
    ;
    assert(superblock.spec_gdt_block_count() >= 0) by (nonlinear_arith)
        requires
            superblock.spec_gdt_block_count() == ceil_div(superblock.spec_block_group_count(), dpb),
            superblock.spec_block_group_count() >= 0,
            dpb > 0,
    ;
    assert(superblock.spec_block_group_start(g) <= b / bs < superblock.overhead_end(g));
}

pub struct Ext4Fs {
    pub superblock: SuperBlock,
    pub gdt: Vec<Ext4GroupDescriptor>,
    pub block_groups: Vec<BlockGroup>,
    /// Used for allocating inodes
    pub last_allocated_inode_no: InodeNo,
}

impl Ext4Fs {
    /// The superblock's geometry holds, every block group has its descriptor and consistent bitmaps, and inodes
    /// are handed out in increasing order after the reserved ones.
    pub open spec fn wf(&self) -> bool {
        &&& self.superblock.wf()
        &&& self.superblock.s_inode_size == INODE_SIZE
        &&& self.superblock.s_inodes_per_group > 0
        &&& 1024 <= self.superblock.spec_block_size() <= 65536
        &&& self.gdt@.len() == self.superblock.spec_block_group_count()
        &&& self.block_groups@.len() == self.superblock.spec_block_group_count()
        &&& forall|i: int|
            0 <= i < self.block_groups@.len() ==> {
                &&& (#[trigger] self.block_groups@[i]).wf()
                &&& self.block_groups@[i].info.inodes_count == self.superblock.s_inodes_per_group
                &&& self.block_groups@[i].info.block_size == self.superblock.spec_block_size()
                &&& self.block_groups@[i].info.start_block == self.superblock.spec_block_group_start(i)
                &&& self.block_groups@[i].info.inode_table_start_block <= u32::MAX
                &&& self.block_groups@[i].info.inode_table_start_block == self.superblock.spec_block_group_start(i)
                    + self.superblock.spec_superblock_copy_overhead(self.superblock.spec_has_superblock(i)) + 2
                &&& self.block_groups@[i].info.inode_table_block_count == self.superblock.spec_inode_table_block_count()
            }
        &&& FIRST_NON_RESERVED_INODE - 1 <= self.last_allocated_inode_no
    }

    /// The filesystem that replaces the FAT filesystem of `boot_sector`; zeroes the inode tables in `partition`.
    pub fn from(boot_sector: &BootSector, partition: &mut Vec<u8>, uuid: [u8; 16], mkfs_time: u32) -> (r: Result<Self, ConvertError>)
        requires
            boot_sector.wf(),
        ensures
            r matches Ok(fs) ==> fs.wf() && fs.last_allocated_inode_no == FIRST_NON_RESERVED_INODE - 1
                && fs.fresh_inodes_free(),
            r matches Ok(fs) ==> forall|g: int|
                0 <= g < fs.block_groups@.len() ==> (#[trigger] fs.block_groups@[g]).info.is_construction_info(
                    fs.superblock,
                    g,
                ) && fs.gdt@[g].is_new_descriptor(fs.block_groups@[g].info),
            r matches Ok(fs) ==> {
                &&& boot_sector.spec_first_data_byte() % boot_sector.spec_cluster_size() == 0
                &&& fs.superblock.is_new_superblock(
                    boot_sector.spec_fs_size(),
                    boot_sector.spec_cluster_size(),
                    boot_sector.spec_volume_label(),
                    uuid@,
                    mkfs_time as int,
                )
            },
            r is Err ==> final(partition)@ == old(partition)@,
            final(partition)@.len() == old(partition)@.len(),
            boot_sector.spec_first_data_byte() % boot_sector.spec_cluster_size() == 0 && crate::ext4::superblock::new_error(
                boot_sector.spec_fs_size(),
                boot_sector.spec_cluster_size(),
            ) is None && new_layout_fits(
                boot_sector.spec_fs_size(),
                boot_sector.spec_cluster_size(),
                boot_sector.spec_volume_label(),
                old(partition)@.len() as int,
            ) ==> r is Ok,
    {
        let superblock = SuperBlock::from(boot_sector, uuid, mkfs_time)?;
        Self::new(superblock, partition)
    }

    /// The filesystem that `superblock` describes, with nothing but metadata in use; zeroes the inode tables in
    /// `partition`. Fails, changing nothing, if the metadata of a block group does not fit into it or into the
    /// partition.
    pub fn new(superblock: SuperBlock, partition: &mut Vec<u8>) -> (r: Result<Self, ConvertError>)
        requires
            superblock.wf(),
        ensures
            match r {
                Ok(fs) => {
                    &&& fs.wf()
                    &&& fs.superblock == superblock
                    &&& fs.last_allocated_inode_no == FIRST_NON_RESERVED_INODE - 1
                    &&& forall|g: int|
                        0 <= g < fs.block_groups@.len() ==> (#[trigger] fs.block_groups@[g]).info.is_construction_info(
                            superblock,
                            g,
                        ) && fs.gdt@[g].is_new_descriptor(fs.block_groups@[g].info)
                    &&& superblock.s_inodes_count <= superblock.s_inodes_per_group * superblock.spec_block_group_count()
                        ==> fs.fresh_inodes_free()
                    &&& forall|g: int, b: int|
                        0 <= g < fs.block_groups@.len() && #[trigger] in_inode_table_of(
                            fs.block_groups@[g],
                            superblock.spec_block_size(),
                            b,
                        ) ==> final(partition)@[b] == 0
                    &&& forall|b: int|
                        0 <= b < old(partition)@.len() && #[trigger] final(partition)@[b] != old(partition)@[b]
                            ==> superblock.is_overhead_block(b / superblock.spec_block_size())
                    &&& forall|b: int|
                        0 <= b < old(partition)@.len() && #[trigger] final(partition)@[b] != old(partition)@[b] ==> exists|
                            g: int,
                        |
                            0 <= g < fs.block_groups@.len() && #[trigger] in_inode_table_of(
                                fs.block_groups@[g],
                                superblock.spec_block_size(),
                                b,
                            )
                },
                Err(e) => final(partition)@ == old(partition)@ && (e == ConvertError::InconsistentFileSystem || e
                    == ConvertError::FilesystemTooLarge),
            },
            final(partition)@.len() == old(partition)@.len(),
            superblock.s_inode_size == INODE_SIZE && superblock.s_inodes_per_group > 0 && (forall|g: int|
                0 <= g < superblock.spec_block_group_count() ==> #[trigger] group_fits(
                    superblock,
                    g,
                    old(partition)@.len() as int,
                )) ==> r is Ok,
    {
        if superblock.s_inode_size != INODE_SIZE || superblock.s_inodes_per_group == 0 {
            return Err(ConvertError::InconsistentFileSystem);
        }
        proof {
            superblock.lemma_block_size();
        }
        let count = superblock.block_group_count();
        let block_size = superblock.block_size() as u64;
        let plen = partition.len() as u64;
        // check every block group before anything is written
        let mut gdt: Vec<Ext4GroupDescriptor> = Vec::new();
        let mut block_groups: Vec<BlockGroup> = Vec::new();
        let mut block_group_idx: u32 = 0;
        while block_group_idx < count
            invariant
                superblock.wf(),
                superblock.s_inode_size == INODE_SIZE,
                superblock.s_inodes_per_group > 0,
                1024 <= superblock.spec_block_size() <= 65536,
                block_size == superblock.spec_block_size(),
                count == superblock.spec_block_group_count(),
                block_group_idx <= count,
                gdt@.len() == block_group_idx,
                block_groups@.len() == block_group_idx,
                plen == partition@.len(),
                partition@ == old(partition)@,
                superblock.spec_block_size() <= 65536,
                forall|i: int|
                    0 <= i < block_groups@.len() ==> {
                        &&& (#[trigger] block_groups@[i]).wf()
                        &&& block_groups@[i].info.inodes_count == superblock.s_inodes_per_group
                        &&& block_groups@[i].info.block_size == superblock.spec_block_size()
                        &&& block_groups@[i].info.start_block == superblock.spec_block_group_start(i)
                        &&& block_groups@[i].info.inode_table_start_block <= u32::MAX
                        &&& block_groups@[i].info.inode_table_block_count <= 0xFFFF_FFFF * 0xFFFF
                        &&& block_groups@[i].info.inode_table_start_block * block_size
                            + block_groups@[i].info.inode_table_block_count * block_size <= plen
                        &&& block_groups@[i].info.inode_table_start_block == superblock.spec_block_group_start(i)
                            + superblock.spec_superblock_copy_overhead(superblock.spec_has_superblock(i)) + 2
                        &&& block_groups@[i].info.inode_table_block_count == superblock.spec_inode_table_block_count()
                        &&& block_groups@[i].info.is_construction_info(superblock, i)
                        &&& gdt@[i].is_new_descriptor(block_groups@[i].info)
                        &&& forall|k: int|
                            0 <= k < block_groups@[i].inode_bitmap@.len() ==> #[trigger] block_groups@[i].inode_bitmap@[k]
                                == (k >= block_groups@[i].info.inodes_count || (block_groups@[i].info.is_first_block_group
                                && is_special_inode(k + FIRST_EXISTING_INODE)))
                    },
            decreases count - block_group_idx,
        {
            let info = Ext4BlockGroupConstructionInfo::new(&superblock, block_group_idx);
            proof {
                if superblock.s_inode_size == INODE_SIZE && superblock.s_inodes_per_group > 0 && (forall|g: int|
                    0 <= g < superblock.spec_block_group_count() ==> #[trigger] group_fits(superblock, g, plen as int)) {
                    assert(group_fits(superblock, block_group_idx as int, plen as int));
                    assert(info.wf());
                }
            }
            info.check()?;
            if info.inode_table_start_block > u32::MAX as u64 {
                return Err(ConvertError::FilesystemTooLarge);
            }
            proof {
                assert(info.inode_table_block_count <= 0xFFFF_FFFF * 0xFFFF);
                assert(info.inode_table_start_block * block_size <= 0xFFFF_FFFF * 65536) by (nonlinear_arith)
                    requires
                        info.inode_table_start_block <= 0xFFFF_FFFF,
                        block_size <= 65536,
                ;
                assert(info.inode_table_block_count * block_size <= 0xFFFF_FFFF * 0xFFFF * 65536) by (nonlinear_arith)
                    requires
                        info.inode_table_block_count <= 0xFFFF_FFFF * 0xFFFF,
                        block_size <= 65536,
                ;
            }
            if info.inode_table_start_block * block_size + info.inode_table_block_count * block_size > plen {
                return Err(ConvertError::InconsistentFileSystem);
            }
            gdt.push(Ext4GroupDescriptor::new(info));
            block_groups.push(BlockGroup::new(info));
            block_group_idx += 1;
        }
        // zero the inode tables
        let ghost p0 = partition@;
        let mut g: usize = 0;
        while g < block_groups.len()
            invariant
                g <= block_groups@.len(),
                plen == partition@.len(),
                p0 == old(partition)@,
                p0.len() == plen,
                block_size <= 65536,
                block_size == superblock.spec_block_size(),
                forall|j: int, b: int|
                    0 <= j < g && #[trigger] in_inode_table_of(block_groups@[j], block_size as int, b) ==> partition@[b]
                        == 0,
                forall|b: int|
                    0 <= b < p0.len() && #[trigger] partition@[b] != p0[b] ==> exists|j: int|
                        0 <= j < g && #[trigger] in_inode_table_of(block_groups@[j], block_size as int, b),
                forall|i: int|
                    0 <= i < block_groups@.len() ==> {
                        &&& (#[trigger] block_groups@[i]).info.inode_table_start_block <= u32::MAX
                        &&& block_groups@[i].info.inode_table_block_count <= 0xFFFF_FFFF * 0xFFFF
                        &&& block_groups@[i].info.inode_table_start_block * block_size
                            + block_groups@[i].info.inode_table_block_count * block_size <= plen
                        &&& block_groups@[i].info.inode_table_start_block == superblock.spec_block_group_start(i)
                            + superblock.spec_superblock_copy_overhead(superblock.spec_has_superblock(i)) + 2
                        &&& block_groups@[i].info.inode_table_block_count == superblock.spec_inode_table_block_count()
                    },
                superblock.wf(),
                1024 <= block_size,
                block_groups@.len() == superblock.spec_block_group_count(),
            decreases block_groups@.len() - g,
        {
            let info = block_groups[g].info;
            proof {
                assert(info.inode_table_start_block * block_size <= 0xFFFF_FFFF * 65536) by (nonlinear_arith)
                    requires
                        info.inode_table_start_block <= 0xFFFF_FFFF,
                        block_size <= 65536,
                ;
                assert(info.inode_table_block_count * block_size <= 0xFFFF_FFFF * 0xFFFF * 65536) by (nonlinear_arith)
                    requires
                        info.inode_table_block_count <= 0xFFFF_FFFF * 0xFFFF,
                        block_size <= 65536,
                ;
            }
            let ghost before = partition@;
            let zeroed = zero_at(partition, info.inode_table_start_block * block_size, info.inode_table_block_count * block_size);
            proof {
                let off = info.inode_table_start_block * block_size;
                let len = info.inode_table_block_count * block_size;
                assert(zeroed is Ok);
                assert forall|b: int| off <= b < off + len implies partition@[b] == 0 by {
                    assert(partition@[b] == Seq::new(len as nat, |i: int| 0u8)[b - off]);
                }
                assert forall|b: int| 0 <= b < before.len() && !(off <= b < off + len) implies partition@[b] == before[b] by {
                    if b < off {
                        assert(partition@[b] == before.subrange(0, off as int)[b]);
                    } else {
                        assert(partition@[b] == before.subrange(off + len, before.len() as int)[b - off - len]);
                    }
                }
                assert(block_groups@[g as int].info == info);
                assert forall|j: int, b: int|
                    0 <= j < g + 1 && #[trigger] in_inode_table_of(block_groups@[j], block_size as int, b) implies partition@[b]
                        == 0 by {
                    if j < g && !(off <= b < off + len) {
                        assert(before[b] == 0);
                    }
                }
                assert forall|b: int| 0 <= b < p0.len() && #[trigger] partition@[b] != p0[b] implies exists|j: int|
                    0 <= j < g + 1 && #[trigger] in_inode_table_of(block_groups@[j], block_size as int, b) by {
                    if off <= b < off + len {
                        assert(in_inode_table_of(block_groups@[g as int], block_size as int, b));
                    } else {
                        assert(partition@[b] == before[b]);
                        assert(before[b] != p0[b]);
                    }
                }
            }
            g += 1;
        }
        proof {
            assert forall|b: int| 0 <= b < old(partition)@.len() && #[trigger] partition@[b] != old(partition)@[b] implies superblock.is_overhead_block(
                b / superblock.spec_block_size(),
            ) by {
                let j = choose|j: int| 0 <= j < block_groups@.len() && #[trigger] in_inode_table_of(block_groups@[j], block_size as int, b);
                lemma_inode_table_is_overhead(superblock, j, block_groups@[j], block_size as int, b);
            }
        }
        let fs = Ext4Fs { superblock, gdt, block_groups, last_allocated_inode_no: FIRST_NON_RESERVED_INODE - 1 };
        proof {
            if superblock.s_inodes_count <= superblock.s_inodes_per_group * superblock.spec_block_group_count() {
                lemma_new_fs_fresh_inodes_free(fs);
            }
        }
        Ok(fs)
    }

    pub open spec fn spec_block_group_idx_of_block(&self, block_idx: int) -> Option<BlockGroupIdx> {
        if block_idx < self.superblock.s_first_data_block || block_idx >= self.superblock.spec_block_count() {
            None
        } else if (block_idx - self.superblock.s_first_data_block) / (self.superblock.s_blocks_per_group as int)
            > u32::MAX {
            None
        } else {
            Some(((block_idx - self.superblock.s_first_data_block) / (self.superblock.s_blocks_per_group as int)) as u32)
        }
    }

    /// The block group that block `block_idx` belongs to by its index; `None` for the padding block at the start of
    /// the filesystem and for blocks past the last block group.
    pub fn block_group_idx_of_block(&self, block_idx: BlockIdx) -> (r: Option<BlockGroupIdx>)
        requires
            self.superblock.wf(),
        ensures
            r == self.spec_block_group_idx_of_block(block_idx as int),
    {
        // any block before `s_first_data_block` belongs to no block group
        let first = self.superblock.first_usable_block();
        if block_idx < first || block_idx >= self.superblock.block_count_with_padding() {
            return None;
        }
        let bg_idx = (block_idx - first) / (self.superblock.s_blocks_per_group as u64);
        if bg_idx > u32::MAX as u64 {
            None
        } else {
            Some(bg_idx as u32)
        }
    }

    /// Whether the blocks of `range` all lie in one block group.
    pub open spec fn spec_range_in_one_group(&self, range: Range<BlockIdx>) -> bool {
        &&& self.spec_block_group_idx_of_block(range.start as int) is Some
        &&& self.spec_block_group_idx_of_block(range.end - 1) == self.spec_block_group_idx_of_block(range.start as int)
    }

    /// Whether the blocks of the non-empty `range` all lie in one block group.
    pub fn range_in_one_group(&self, range: &Range<BlockIdx>) -> (r: bool)
        requires
            self.superblock.wf(),
            range.start < range.end,
        ensures
            r == self.spec_range_in_one_group(*range),
    {
        match (self.block_group_idx_of_block(range.start), self.block_group_idx_of_block(range.end - 1)) {
            (Some(first), Some(last)) => first == last,
            _ => false,
        }
    }

    /// Marks the blocks of `range`, which must lie in one block group, as used by `inode`: in the group's bitmap
    /// and free count and in the inode's count of used blocks. Fails with `CorruptedData`, changing nothing, if the
    /// group does not have them free.
    pub fn mark_range_as_used(&mut self, inode: &mut Inode, range: Range<BlockIdx>) -> (r: Result<(), ConvertError>)
        requires
            old(self).wf(),
            range.start < range.end,
            old(self).spec_range_in_one_group(range),
        ensures
            final(self).wf(),
            final(self).superblock == old(self).superblock,
            final(self).last_allocated_inode_no == old(self).last_allocated_inode_no,
            final(inode).inode_no == old(inode).inode_no,
            final(inode).byte_offset == old(inode).byte_offset,
            final(inode).extent_tree == old(inode).extent_tree,
            same_but_blocks(final(inode).inner, old(inode).inner),
            r is Ok ==> {
                let g = old(self).spec_block_group_idx_of_block(range.start as int)->0 as int;
                let start = old(self).superblock.spec_block_group_start(g);
                &&& old(self).spec_block_group_idx_of_block(range.start as int) is Some
                &&& old(self).spec_block_group_idx_of_block(range.end - 1) == old(self).spec_block_group_idx_of_block(
                    range.start as int,
                )
                &&& final(inode).inner.spec_blocks() == old(inode).inner.spec_blocks() + (range.end - range.start)
                    * old(self).superblock.spec_block_size() / 512
                &&& final(self).gdt@[g].spec_free_blocks_count() == old(self).gdt@[g].spec_free_blocks_count() - (
                range.end - range.start)
                &&& forall|i: int|
                    0 <= i < final(self).block_groups@[g].data_block_bitmap@.len() ==> #[trigger] final(self).block_groups@[g].data_block_bitmap@[i]
                        == (old(self).block_groups@[g].data_block_bitmap@[i] || (range.start - start <= i < range.end - start))
            },
            r is Err ==> final(inode).inner == old(inode).inner && *final(self) == *old(self),
            r matches Err(e) ==> e == ConvertError::CorruptedData || e == ConvertError::FileTooLarge,
            old(self).range_markable(old(inode).inner.spec_blocks(), range) ==> r is Ok,
            r is Ok ==> {
                let g = old(self).spec_block_group_idx_of_block(range.start as int)->0 as int;
                &&& final(self).block_groups@.len() == old(self).block_groups@.len()
                &&& final(self).gdt@.len() == old(self).gdt@.len()
                &&& forall|j: int|
                    0 <= j < old(self).block_groups@.len() && j != g ==> #[trigger] final(self).block_groups@[j]
                        == old(self).block_groups@[j]
                &&& forall|j: int| 0 <= j < old(self).gdt@.len() && j != g ==> #[trigger] final(self).gdt@[j] == old(self).gdt@[j]
                &&& final(self).block_groups@[g].info == old(self).block_groups@[g].info
                &&& final(self).block_groups@[g].inode_bitmap@ == old(self).block_groups@[g].inode_bitmap@
                &&& final(self).gdt@[g] == (Ext4GroupDescriptor {
                    bg_free_blocks_count_lo: final(self).gdt@[g].bg_free_blocks_count_lo,
                    bg_free_blocks_count_hi: final(self).gdt@[g].bg_free_blocks_count_hi,
                    ..old(self).gdt@[g]
                })
            },
    {
        let block_group_idx = match self.block_group_idx_of_block(range.start) {
            Some(idx) => idx,
            None => {
                return Err(ConvertError::CorruptedData);
            },
        };
        let end_block_group_idx = match self.block_group_idx_of_block(range.end - 1) {
            Some(idx) => idx,
            None => {
                return Err(ConvertError::CorruptedData);
            },
        };
        if block_group_idx != end_block_group_idx || block_group_idx as usize >= self.block_groups.len() {
            return Err(ConvertError::CorruptedData);
        }
        let g = block_group_idx as usize;
        let range_len = range.end - range.start;
        let group_start_block = self.superblock.block_group_start_block(block_group_idx);
        proof {
            assert(self.block_groups@[g as int].wf());
            assert(group_start_block <= range.start) by (nonlinear_arith)
                requires
                    group_start_block == self.superblock.s_blocks_per_group * block_group_idx
                        + self.superblock.s_first_data_block,
                    block_group_idx == (range.start - self.superblock.s_first_data_block) / (
                    self.superblock.s_blocks_per_group as int),
                    range.start >= self.superblock.s_first_data_block,
                    self.superblock.s_blocks_per_group > 0,
            ;
        }
        let bitmap_len = self.block_groups[g].data_block_bitmap.len() as u64;
        if range.end - group_start_block > bitmap_len || range_len > self.gdt[g].free_blocks_count() as u64
            || range_len > u32::MAX as u64 {
            return Err(ConvertError::CorruptedData);
        }
        let block_size = self.superblock.block_size();
        let current_blocks = inode.inner.l_i_blocks_high as u64 * 0x1_0000_0000 + inode.inner.i_blocks_lo as u64;
        proof {
            self.superblock.lemma_block_size();
            assert(range_len * block_size <= 0xFFFF_FFFF * 65536) by (nonlinear_arith)
                requires
                    range_len <= 0xFFFF_FFFF,
                    block_size <= 65536,
            ;
        }
        if current_blocks + range_len * (block_size as u64) / 512 >= 0x1_0000_0000_0000 {
            return Err(ConvertError::FileTooLarge);
        }
        let mut descriptor = self.gdt[g];
        descriptor.decrement_free_blocks_count(range_len as u32);
        self.gdt.set(g, descriptor);
        inode.increment_used_blocks(range_len, block_size);
        let relative_range = (range.start - group_start_block)..(range.end - group_start_block);
        let mut group = self.block_groups.remove(g);
        group.mark_relative_range_as_used(relative_range);
        self.block_groups.insert(g, group);
        proof {
            assert forall|i: int| 0 <= i < self.block_groups@.len() implies {
                &&& (#[trigger] self.block_groups@[i]).wf()
                &&& self.block_groups@[i].info.inodes_count == self.superblock.s_inodes_per_group
                &&& self.block_groups@[i].info.block_size == self.superblock.spec_block_size()
                &&& self.block_groups@[i].info.start_block == self.superblock.spec_block_group_start(i)
                &&& self.block_groups@[i].info.inode_table_start_block <= u32::MAX
                &&& self.block_groups@[i].info.inode_table_start_block == self.superblock.spec_block_group_start(i)
                    + self.superblock.spec_superblock_copy_overhead(self.superblock.spec_has_superblock(i)) + 2
                &&& self.block_groups@[i].info.inode_table_block_count == self.superblock.spec_inode_table_block_count()
            } by {
                if i != g {
                    assert(self.block_groups@[i] == old(self).block_groups@[i]);
                }
            }
        }
        Ok(())
    }
}

/// Every extent that `spec_from_ranges` cuts is at least one block long.
proof fn lemma_from_ranges_nonempty(ranges: Seq<Range<u64>>, logical: int)
    ensures
        forall|i: int|
            0 <= i < spec_from_ranges(ranges, logical).len() ==> (#[trigger] spec_from_ranges(ranges, logical)[i]).2
                > 0,
    decreases ranges.len(), (if ranges.len() > 0 && ranges[0].start < ranges[0].end {
        ranges[0].end - ranges[0].start
    } else {
        0int
    }),
{
    if ranges.len() == 0 {
    } else if ranges[0].start >= ranges[0].end {
        lemma_from_ranges_nonempty(ranges.drop_first(), logical);
        assert(spec_from_ranges(ranges, logical) == spec_from_ranges(ranges.drop_first(), logical));
    } else {
        let len = if ranges[0].end - ranges[0].start < crate::ext4::extent::EXTENT_MAX_LEN {
            ranges[0].end - ranges[0].start
        } else {
            crate::ext4::extent::EXTENT_MAX_LEN as int
        };
        lemma_from_ranges_nonempty(ranges.update(0, (ranges[0].start + len) as u64..ranges[0].end), logical + len);
        let rest = spec_from_ranges(ranges.update(0, (ranges[0].start + len) as u64..ranges[0].end), logical + len);
        assert(spec_from_ranges(ranges, logical) == seq![(logical, ranges[0].start as int, len)] + rest);
        assert forall|i: int| 0 <= i < spec_from_ranges(ranges, logical).len() implies (#[trigger] spec_from_ranges(
            ranges,
            logical,
        )[i]).2 > 0 by {
            if i > 0 {
                assert(spec_from_ranges(ranges, logical)[i] == rest[i - 1]);
            }
        }
    }
}

impl Ext4Fs {
    /// Marks the blocks of `extent` as used by `inode` and adds the extent to the inode's extent tree, marking the
    /// blocks allocated for the tree as used too. Fails with `CorruptedData` if the extent, or a block of the tree,
    /// does not lie in one block group.
    pub fn register_extent(&mut self, inode: &mut Inode, extent: Extent, allocator: &mut Allocator) -> (r: Result<
        (),
        ConvertError,
    >)
        requires
            old(self).wf(),
            old(inode).extent_tree.wf(),
            old(allocator).wf(),
            extent.len > 0,
        ensures
            r matches Err(e) ==> (e == ConvertError::NoFreeClusters ==> final(allocator).exhausted()),
            final(self).wf(),
            final(self).superblock == old(self).superblock,
            final(self).last_allocated_inode_no == old(self).last_allocated_inode_no,
            final(inode).extent_tree.wf(),
            final(inode).extent_tree.entries_per_block == old(inode).extent_tree.entries_per_block,
            final(inode).inode_no == old(inode).inode_no,
            final(inode).byte_offset == old(inode).byte_offset,
            final(allocator).wf(),
            final(allocator).spec_valid() == old(allocator).spec_valid(),
            final(allocator).spec_cluster_size() == old(allocator).spec_cluster_size(),
            same_but_blocks(final(inode).inner, old(inode).inner),
            r is Ok ==> final(inode).extent_tree.spec_extents() == old(inode).extent_tree.spec_extents().push(extent@),
            old(self).range_markable(old(inode).inner.spec_blocks(), (extent.spec_start() as u64)..(extent.spec_end() as u64))
                && old(inode).extent_tree.root.header.depth == 0 && old(inode).extent_tree.root.header.valid_entry_count
                < old(inode).extent_tree.root.header.max_entry_count ==> r is Ok,
    {
        let range = extent.as_range();
        if !self.range_in_one_group(&range) {
            return Err(ConvertError::CorruptedData);
        }
        self.mark_range_as_used(inode, range)?;
        let ghost before = *allocator;
        let blocks = inode.add_extent(extent, allocator)?;
        let mut i: usize = 0;
        while i < blocks.len()
            invariant
                i <= blocks@.len(),
                self.wf(),
                self.superblock == old(self).superblock,
                self.last_allocated_inode_no == old(self).last_allocated_inode_no,
                inode.extent_tree.wf(),
                inode.extent_tree.entries_per_block == old(inode).extent_tree.entries_per_block,
                inode.inode_no == old(inode).inode_no,
                inode.byte_offset == old(inode).byte_offset,
                inode.extent_tree.spec_extents() == old(inode).extent_tree.spec_extents().push(extent@),
                same_but_blocks(inode.inner, old(inode).inner),
                allocated_between(before, *allocator, blocks@),
                allocator.wf(),
                before.wf(),
                before.spec_valid() == old(allocator).spec_valid(),
                before.spec_cluster_size() == old(allocator).spec_cluster_size(),
                old(inode).extent_tree.root.header.depth == 0 && old(inode).extent_tree.root.header.valid_entry_count
                    < old(inode).extent_tree.root.header.max_entry_count ==> blocks@.len() == 0,
            decreases blocks@.len() - i,
        {
            let block = blocks[i];
            proof {
                assert(before.spec_cursor() <= blocks@[i as int] < allocator.spec_cursor());
            }
            let block_range = block..block + 1;
            if !self.range_in_one_group(&block_range) {
                return Err(ConvertError::CorruptedData);
            }
            self.mark_range_as_used(inode, block_range)?;
            i += 1;
        }
        Ok(())
    }

    /// Sets the extents of `inode`, which has none yet, to the blocks of `data_ranges`, registering each.
    pub fn set_extents(&mut self, inode: &mut Inode, data_ranges: Vec<Range<BlockIdx>>, allocator: &mut Allocator) -> (r:
        Result<(), ConvertError>)
        requires
            old(self).wf(),
            old(inode).extent_tree.wf(),
            old(allocator).wf(),
            forall|i: int| 0 <= i < data_ranges@.len() ==> (#[trigger] data_ranges@[i]).end <= 0x1_0000_0000_0000,
        ensures
            r matches Err(e) ==> (e == ConvertError::NoFreeClusters ==> final(allocator).exhausted()),
            final(self).wf(),
            final(self).superblock == old(self).superblock,
            final(self).last_allocated_inode_no == old(self).last_allocated_inode_no,
            final(inode).extent_tree.wf(),
            final(inode).extent_tree.entries_per_block == old(inode).extent_tree.entries_per_block,
            final(inode).inode_no == old(inode).inode_no,
            final(inode).byte_offset == old(inode).byte_offset,
            final(allocator).wf(),
            final(allocator).spec_valid() == old(allocator).spec_valid(),
            final(allocator).spec_cluster_size() == old(allocator).spec_cluster_size(),
            same_but_blocks(final(inode).inner, old(inode).inner),
            r is Ok ==> final(inode).extent_tree.spec_extents() == old(inode).extent_tree.spec_extents()
                + spec_from_ranges(data_ranges@, 0),
            !logical_ends_fit(spec_from_ranges(data_ranges@, 0)) ==> r == Err::<(), ConvertError>(ConvertError::FileTooLarge)
                && *final(inode) == *old(inode),
            data_ranges@.len() == 0 ==> r is Ok && final(inode).extent_tree.spec_extents() == old(inode).extent_tree.spec_extents(),
    {
        let extents = Extent::from_ranges(data_ranges)?;
        let ghost all = spec_from_ranges(data_ranges@, 0);
        proof {
            lemma_from_ranges_nonempty(data_ranges@, 0);
        }
        let mut i: usize = 0;
        while i < extents.len()
            invariant
                i <= extents@.len(),
                extents@.map_values(|e: Extent| e@) == all,
                logical_ends_fit(spec_from_ranges(data_ranges@, 0)),
                all == spec_from_ranges(data_ranges@, 0),
                data_ranges@.len() == 0 ==> all.len() == 0,
                forall|j: int| 0 <= j < all.len() ==> (#[trigger] all[j]).2 > 0,
                self.wf(),
                self.superblock == old(self).superblock,
                self.last_allocated_inode_no == old(self).last_allocated_inode_no,
                inode.extent_tree.wf(),
                inode.extent_tree.entries_per_block == old(inode).extent_tree.entries_per_block,
                inode.inode_no == old(inode).inode_no,
                inode.byte_offset == old(inode).byte_offset,
                allocator.wf(),
                allocator.spec_valid() == old(allocator).spec_valid(),
                allocator.spec_cluster_size() == old(allocator).spec_cluster_size(),
                same_but_blocks(inode.inner, old(inode).inner),
                inode.extent_tree.spec_extents() == old(inode).extent_tree.spec_extents() + all.subrange(0, i as int),
            decreases extents@.len() - i,
        {
            proof {
                assert(all[i as int] == extents@[i as int]@);
            }
            self.register_extent(inode, extents[i], allocator)?;
            proof {
                assert(all.subrange(0, i + 1) =~= all.subrange(0, i as int).push(extents@[i as int]@));
            }
            i += 1;
        }
        proof {
            assert(all.subrange(0, all.len() as int) =~= all);
        }
        Ok(())
    }

    /// The blocks `range` lie in one block group, whose bitmap covers them and whose free count holds them, and an
    /// inode with `blocks` 512-byte units in use can count them too.
    pub open spec fn range_markable(&self, blocks: int, range: Range<BlockIdx>) -> bool {
        let gi = self.spec_block_group_idx_of_block(range.start as int);
        let g = gi->0 as int;
        &&& gi is Some
        &&& self.spec_block_group_idx_of_block(range.end - 1) == gi
        &&& g < self.block_groups@.len()
        &&& range.end - self.superblock.spec_block_group_start(g) <= self.block_groups@[g].data_block_bitmap@.len()
        &&& range.end - range.start <= self.gdt@[g].spec_free_blocks_count()
        &&& blocks + (range.end - range.start) * self.superblock.spec_block_size() / 512 < 0x1_0000_0000_0000
    }

    /// The filesystem with `n` as the last inode number handed out.
    pub open spec fn spec_with_last_allocated(self, n: InodeNo) -> Ext4Fs {
        Ext4Fs { last_allocated_inode_no: n, ..self }
    }

    /// The number of inodes of block group `g` that come after the last allocated inode: the inodes that
    /// `allocate_inode` is still to hand out there.
    pub open spec fn fresh_in_group(self, g: int) -> int {
        let ipg = self.superblock.s_inodes_per_group as int;
        let lo = g * ipg + FIRST_EXISTING_INODE;
        let hi = lo + ipg;
        let next = self.last_allocated_inode_no + 1;
        if next >= hi {
            0
        } else if next <= lo {
            ipg
        } else {
            hi - next
        }
    }

    /// Every inode after the last allocated one is free, and every block group can count its fresh inodes as used,
    /// and as many more directories: the inode numbers that remain can all be handed out.
    pub open spec fn fresh_inodes_free(self) -> bool {
        let ipg = self.superblock.s_inodes_per_group as int;
        &&& self.superblock.s_inodes_count <= ipg * self.block_groups@.len()
        &&& forall|n: int|
            self.last_allocated_inode_no < n <= self.superblock.s_inodes_count ==> !#[trigger] self.block_groups@[(n
                - FIRST_EXISTING_INODE) / ipg].inode_bitmap@[(n - FIRST_EXISTING_INODE) % ipg]
        &&& forall|g: int|
            0 <= g < self.block_groups@.len() ==> #[trigger] self.gdt@[g].spec_free_inodes_count() >= self.fresh_in_group(
                g,
            ) && self.gdt@[g].spec_used_dirs_count() + self.fresh_in_group(g) <= ipg
    }

    /// Inode `inode_no` exists and is free, and its block group has a free inode to count it with, and room to
    /// count one more directory if `is_dir`.
    pub open spec fn inode_allocatable(&self, inode_no: int, is_dir: bool) -> bool {
        let e = inode_no - FIRST_EXISTING_INODE;
        let g = e / (self.superblock.s_inodes_per_group as int);
        let rel = e % (self.superblock.s_inodes_per_group as int);
        &&& inode_no >= FIRST_EXISTING_INODE
        &&& g < self.block_groups@.len()
        &&& !self.block_groups@[g].inode_bitmap@[rel]
        &&& self.gdt@[g].spec_free_inodes_count() > 0
        &&& is_dir ==> self.gdt@[g].spec_used_dirs_count() < u32::MAX
    }

    /// Hands out the next inode number, failing with `NoFreeInodes` past the last inode of the filesystem. The
    /// first inode handed out after `new` is the one of lost+found, as fsck expects.
    pub fn allocate_inode(&mut self, is_dir: bool) -> (r: Result<Inode, ConvertError>)
        requires
            old(self).wf(),
        ensures
            r matches Err(e) ==> e == ConvertError::NoFreeInodes || e == ConvertError::CorruptedData || e
                == ConvertError::DirectoryTooLarge,
            final(self).wf(),
            final(self).superblock == old(self).superblock,
            match r {
                Ok(inode) => {
                    &&& inode.inode_no == old(self).last_allocated_inode_no + 1
                    &&& inode.inode_no <= old(self).superblock.s_inodes_count
                    &&& final(self).last_allocated_inode_no == inode.inode_no
                    &&& inode.extent_tree.wf()
                    &&& inode.extent_tree.spec_extents() == Seq::<ExtentView>::empty()
                    &&& inode.inner.spec_size() == 0
                    &&& inode.extent_tree.entries_per_block == old(self).superblock.spec_block_size() / (
                    EXTENT_ELEMENT_SIZE as int)
                    &&& in_metadata(old(self).superblock, inode.byte_offset as int, INODE_SIZE as int)
                },
                Err(e) => {
                    &&& *final(self) == *old(self)
                    &&& (e == ConvertError::NoFreeInodes ==> old(self).last_allocated_inode_no + 1
                        > old(self).superblock.s_inodes_count)
                },
            },
            old(self).last_allocated_inode_no < old(self).superblock.s_inodes_count && old(self).inode_allocatable(
                old(self).last_allocated_inode_no + 1,
                is_dir,
            ) ==> r is Ok,
            old(self).last_allocated_inode_no < old(self).superblock.s_inodes_count && old(self).fresh_inodes_free()
                ==> r is Ok,
            old(self).fresh_inodes_free() && r is Ok ==> final(self).fresh_inodes_free(),
            r is Ok ==> inode_marked(
                *old(self),
                final(self).spec_with_last_allocated(old(self).last_allocated_inode_no),
                (old(self).last_allocated_inode_no + 1 - FIRST_EXISTING_INODE) / (old(self).superblock.s_inodes_per_group as int),
                (old(self).last_allocated_inode_no + 1 - FIRST_EXISTING_INODE) % (old(self).superblock.s_inodes_per_group as int),
                is_dir,
            ),
    {
        if self.last_allocated_inode_no >= self.superblock.s_inodes_count {
            return Err(ConvertError::NoFreeInodes);
        }
        proof {
            if self.fresh_inodes_free() {
                lemma_fresh_inode_allocatable(*self, is_dir);
            }
        }
        let inode_no = self.last_allocated_inode_no + 1;
        let inode = match self.allocate_inode_with_no(inode_no, is_dir) {
            Ok(inode) => inode,
            Err(e) => {
                return Err(e);
            },
        };
        self.last_allocated_inode_no = inode_no;
        proof {
            if old(self).fresh_inodes_free() {
                lemma_fresh_inodes_stay_free(*old(self), *self, is_dir);
            }
        }
        Ok(inode)
    }

    /// Marks inode `inode_no` as used, counting it as a directory if `is_dir`, and returns it zeroed. Fails with
    /// `CorruptedData`, changing nothing, if the inode does not exist or is in use.
    fn allocate_inode_with_no(&mut self, inode_no: InodeNo, is_dir: bool) -> (r: Result<Inode, ConvertError>)
        requires
            old(self).wf(),
        ensures
            final(self).wf(),
            final(self).superblock == old(self).superblock,
            final(self).last_allocated_inode_no == old(self).last_allocated_inode_no,
            r matches Err(e) ==> e == ConvertError::CorruptedData || e == ConvertError::DirectoryTooLarge,
            r is Err ==> *final(self) == *old(self),
            r matches Ok(inode) ==> inode.inode_no == inode_no && inode.extent_tree.wf()
                && inode.extent_tree.spec_extents() == Seq::<ExtentView>::empty() && inode.inner.spec_size() == 0
                && inode.inner.spec_blocks() == 0 && inode.extent_tree.entries_per_block
                == old(self).superblock.spec_block_size() / (EXTENT_ELEMENT_SIZE as int),
            r matches Ok(inode) ==> in_metadata(old(self).superblock, inode.byte_offset as int, INODE_SIZE as int),
            old(self).inode_allocatable(inode_no as int, is_dir) ==> r is Ok,
            r is Ok ==> inode_marked(
                *old(self),
                *final(self),
                (inode_no - FIRST_EXISTING_INODE) / (old(self).superblock.s_inodes_per_group as int),
                (inode_no - FIRST_EXISTING_INODE) % (old(self).superblock.s_inodes_per_group as int),
                is_dir,
            ),
    {
        if inode_no < FIRST_EXISTING_INODE {
            return Err(ConvertError::CorruptedData);
        }
        let inode_size = self.superblock.s_inode_size;
        let existing_inode_no = inode_no - FIRST_EXISTING_INODE;
        let block_group_idx = existing_inode_no / self.superblock.s_inodes_per_group;
        let relative_inode_no = existing_inode_no % self.superblock.s_inodes_per_group;
        if block_group_idx as usize >= self.block_groups.len() {
            return Err(ConvertError::CorruptedData);
        }
        let g = block_group_idx as usize;
        proof {
            assert(self.block_groups@[g as int].wf());
        }
        if self.block_groups[g].inode_bitmap.get(relative_inode_no as usize) {
            return Err(ConvertError::CorruptedData);
        }
        let mut descriptor = self.gdt[g];
        if descriptor.free_inodes_count() == 0 {
            return Err(ConvertError::CorruptedData);
        }
        descriptor.decrement_free_inode_count();
        if is_dir {
            if join_dirs(&descriptor) == u32::MAX {
                return Err(ConvertError::DirectoryTooLarge);
            }
            descriptor.increment_used_directory_count();
        }
        self.gdt.set(g, descriptor);
        let mut group = self.block_groups.remove(g);
        let byte_offset = group.allocate_relative_inode(relative_inode_no, inode_size);
        self.block_groups.insert(g, group);
        proof {
            assert forall|i: int| 0 <= i < self.block_groups@.len() implies {
                &&& (#[trigger] self.block_groups@[i]).wf()
                &&& self.block_groups@[i].info.inodes_count == self.superblock.s_inodes_per_group
                &&& self.block_groups@[i].info.block_size == self.superblock.spec_block_size()
                &&& self.block_groups@[i].info.start_block == self.superblock.spec_block_group_start(i)
                &&& self.block_groups@[i].info.inode_table_start_block <= u32::MAX
                &&& self.block_groups@[i].info.inode_table_start_block == self.superblock.spec_block_group_start(i)
                    + self.superblock.spec_superblock_copy_overhead(self.superblock.spec_has_superblock(i)) + 2
                &&& self.block_groups@[i].info.inode_table_block_count == self.superblock.spec_inode_table_block_count()
            } by {
                if i != g {
                    assert(self.block_groups@[i] == old(self).block_groups@[i]);
                }
            }
            self.superblock.lemma_block_size();
            let group = self.block_groups@[g as int];
            let bs = self.superblock.spec_block_size();
            let ipg = self.superblock.s_inodes_per_group as int;
            let t = group.info.inode_table_start_block as int;
            assert(ipg * (INODE_SIZE as int) <= self.superblock.spec_inode_table_block_count() * bs) by (nonlinear_arith)
                requires
                    self.superblock.spec_inode_table_block_count() == ceil_div(ipg * (INODE_SIZE as int), bs),
                    bs > 0,
                    ipg >= 0,
            ;
            assert(relative_inode_no * (INODE_SIZE as int) + (INODE_SIZE as int) <= ipg * (INODE_SIZE as int)) by (nonlinear_arith)
                requires
                    relative_inode_no < ipg,
            ;
            assert forall|b: int| byte_offset <= b < byte_offset + (INODE_SIZE as int) implies #[trigger] self.superblock.is_overhead_block(
                b / bs,
            ) by {
                assert(in_inode_table_of(group, bs, b));
                lemma_inode_table_is_overhead(self.superblock, g as int, group, bs, b);
            }
        }
        Ok(Inode::new(inode_no, byte_offset, self.superblock.block_size()))
    }

    /// Allocates and initializes the inode of the root directory.
    pub fn build_root_inode(&mut self) -> (r: Result<Inode, ConvertError>)
        requires
            old(self).wf(),
        ensures
            r matches Err(e) ==> e == ConvertError::CorruptedData || e == ConvertError::DirectoryTooLarge,
            final(self).wf(),
            final(self).superblock == old(self).superblock,
            final(self).last_allocated_inode_no == old(self).last_allocated_inode_no,
            r matches Ok(inode) ==> inode.inode_no == ROOT_INODE_NO && inode.extent_tree.wf()
                && inode.extent_tree.spec_extents() == Seq::<ExtentView>::empty() && inode.inner.i_links_count == 0
                && inode.inner.spec_size() == 0 && inode.extent_tree.entries_per_block
                == old(self).superblock.spec_block_size() / (EXTENT_ELEMENT_SIZE as int),
            r matches Ok(inode) ==> in_metadata(old(self).superblock, inode.byte_offset as int, INODE_SIZE as int),
            old(self).inode_allocatable(ROOT_INODE_NO as int, true) ==> r is Ok,
    {
        let mut inode = self.allocate_inode_with_no(ROOT_INODE_NO, true)?;
        inode.init_root();
        Ok(inode)
    }

    /// Allocates and initializes the inode of lost+found, which must be the first inode allocated after `new`.
    pub fn build_lost_found_inode(&mut self) -> (r: Result<Inode, ConvertError>)
        requires
            old(self).wf(),
            old(self).last_allocated_inode_no == FIRST_NON_RESERVED_INODE - 1,
        ensures
            r matches Err(e) ==> e == ConvertError::NoFreeInodes || e == ConvertError::CorruptedData || e
                == ConvertError::DirectoryTooLarge,
            final(self).wf(),
            final(self).superblock == old(self).superblock,
            r matches Ok(inode) ==> inode.inode_no == LOST_FOUND_INODE_NO && inode.extent_tree.wf()
                && inode.extent_tree.spec_extents() == Seq::<ExtentView>::empty() && inode.inner.i_links_count == 1
                && inode.inner.spec_size() == 0 && inode.extent_tree.entries_per_block
                == old(self).superblock.spec_block_size() / (EXTENT_ELEMENT_SIZE as int),
            r matches Ok(inode) ==> in_metadata(old(self).superblock, inode.byte_offset as int, INODE_SIZE as int),
            r is Ok ==> final(self).last_allocated_inode_no == old(self).last_allocated_inode_no + 1,
            old(self).last_allocated_inode_no < old(self).superblock.s_inodes_count && old(self).inode_allocatable(
                old(self).last_allocated_inode_no + 1,
                true,
            ) ==> r is Ok,
    {
        let mut inode = self.allocate_inode(true)?;
        inode.init_lost_found();
        Ok(inode)
    }

    /// Writes the blocks of the extent tree of `inode`, then the inode into its slot of the inode table.
    pub fn write_inode(&self, inode: &Inode, allocator: &Allocator, partition: &mut Vec<u8>) -> (r: Result<(), ConvertError>)
        requires
            self.wf(),
            inode.extent_tree.wf(),
            inode.extent_tree.entries_per_block == self.superblock.spec_block_size() / (EXTENT_ELEMENT_SIZE as int),
        ensures
            r matches Err(e) ==> e == ConvertError::CorruptedData || e == ConvertError::InconsistentFileSystem,
            final(partition)@.len() == old(partition)@.len(),
            in_metadata(self.superblock, inode.byte_offset as int, INODE_SIZE as int) ==> changes_only_new_or_metadata(
                old(partition)@,
                final(partition)@,
                allocator.spec_valid().start as int,
                allocator.spec_cluster_size() as int,
                self.superblock,
            ),
            r is Ok ==> inode.byte_offset + inode.spec_bytes().len() <= final(partition)@.len()
                && final(partition)@.subrange(inode.byte_offset as int, inode.byte_offset + inode.spec_bytes().len())
                == inode.spec_bytes(),
            ({
                let lb = level_blocks(inode.extent_tree.root, self.superblock.spec_block_size());
                (forall|i: int|
                0 <= i < lb.len() ==> {
                    let (b, bytes) = #[trigger] lb[i];
                    &&& b <= u32::MAX
                    &&& allocator.can_access(b as u32, old(partition)@.len() as int)
                    &&& bytes.len() <= allocator.spec_cluster_size()
                })
            }) && inode.byte_offset + INODE_FIELDS_SIZE <= old(partition)@.len() ==> r is Ok,
    {
        proof {
            self.superblock.lemma_block_size();
        }
        let block_size = self.superblock.block_size() as usize;
        let blocks = inode.extent_tree.blocks(block_size);
        let ghost lb = level_blocks(inode.extent_tree.root, self.superblock.spec_block_size());
        let ghost writable = (forall|i: int|
                0 <= i < lb.len() ==> {
                    let (b, bytes) = #[trigger] lb[i];
                    &&& b <= u32::MAX
                    &&& allocator.can_access(b as u32, old(partition)@.len() as int)
                    &&& bytes.len() <= allocator.spec_cluster_size()
                });
        let mut i: usize = 0;
        let ghost plen = partition@.len();
        let ghost start = allocator.spec_valid().start as int;
        let ghost cs = allocator.spec_cluster_size() as int;
        proof {
            lemma_changes_only_new_or_metadata_refl(partition@, start, cs, self.superblock);
        }
        while i < blocks.len()
            invariant
                i <= blocks@.len(),
                partition@.len() == plen,
                plen == old(partition)@.len(),
                block_size <= 65536,
                start == allocator.spec_valid().start,
                cs == allocator.spec_cluster_size(),
                changes_only_new_or_metadata(old(partition)@, partition@, start, cs, self.superblock),
                blocks@.map_values(|b: (u64, Vec<u8>)| (b.0, b.1@)) == lb,
                lb == level_blocks(inode.extent_tree.root, self.superblock.spec_block_size()),
                writable == (forall|i: int|
                0 <= i < lb.len() ==> {
                    let (b, bytes) = #[trigger] lb[i];
                    &&& b <= u32::MAX
                    &&& allocator.can_access(b as u32, old(partition)@.len() as int)
                    &&& bytes.len() <= allocator.spec_cluster_size()
                }),
            decreases blocks@.len() - i,
        {
            let (block, bytes) = &blocks[i];
            proof {
                assert(lb[i as int] == (blocks@[i as int].0, blocks@[i as int].1@));
                if writable {
                    let (b, bs) = lb[i as int];
                    assert(b <= u32::MAX && allocator.can_access(b as u32, old(partition)@.len() as int) && bs.len()
                        <= allocator.spec_cluster_size());
                    assert(*block == b && bytes@ == bs);
                }
            }
            if *block > u32::MAX as u64 {
                return Err(ConvertError::CorruptedData);
            }
            let ghost before = partition@;
            allocator.write_block(partition, *block, bytes.as_slice())?;
            proof {
                assert forall|b: int| 0 <= b < before.len() && #[trigger] partition@[b] != before[b] implies b / cs >= start by {
                    let k = *block as int;
                    assert(cs * k <= b < cs * k + cs);
                    assert(b / cs == k) by (nonlinear_arith)
                        requires
                            cs * k <= b < cs * k + cs,
                            cs > 0,
                    ;
                }
                lemma_changes_only_new_or_metadata_trans(old(partition)@, before, partition@, start, cs, self.superblock);
            }
            i += 1;
        }
        let bytes = inode.to_bytes();
        let ghost before = partition@;
        write_at(partition, inode.byte_offset, bytes.as_slice())?;
        proof {
            assert(partition@.subrange(inode.byte_offset as int, inode.byte_offset + bytes@.len()) =~= bytes@);
            if in_metadata(self.superblock, inode.byte_offset as int, INODE_SIZE as int) {
                assert forall|b: int| 0 <= b < before.len() && #[trigger] partition@[b] != before[b] implies self.superblock.is_overhead_block(
                    b / self.superblock.spec_block_size(),
                ) by {
                    assert(inode.byte_offset <= b < inode.byte_offset + INODE_SIZE);
                }
                lemma_changes_only_new_or_metadata_trans(old(partition)@, before, partition@, start, cs, self.superblock);
            }
        }
        Ok(())
    }
}

/// The number of directories of the block group that `descriptor` describes.
fn join_dirs(descriptor: &Ext4GroupDescriptor) -> (r: u32)
    ensures
        r == descriptor.spec_used_dirs_count(),
{
    crate::lohi::join_u16_u16(descriptor.bg_used_dirs_count_lo, descriptor.bg_used_dirs_count_hi)
}

/// The free inodes of the block groups that `gdt` describes, all together.
pub open spec fn total_free_inodes(gdt: Seq<Ext4GroupDescriptor>) -> int
    decreases gdt.len(),
{
    if gdt.len() == 0 {
        0
    } else {
        total_free_inodes(gdt.drop_last()) + gdt.last().spec_free_inodes_count()
    }
}

/// The free blocks of the block groups that `gdt` describes, all together.
pub open spec fn total_free_blocks(gdt: Seq<Ext4GroupDescriptor>) -> int
    decreases gdt.len(),
{
    if gdt.len() == 0 {
        0
    } else {
        total_free_blocks(gdt.drop_last()) + gdt.last().spec_free_blocks_count()
    }
}

impl Ext4Fs {
    /// Sets the superblock's free inode and block counts to the totals of the group descriptors; fails with
    /// `CorruptedData` if the inode total does not fit the field.
    pub fn update_superblock(&mut self) -> (r: Result<(), ConvertError>)
        requires
            old(self).wf(),
        ensures
            final(self).wf(),
            final(self).gdt == old(self).gdt,
            final(self).block_groups == old(self).block_groups,
            final(self).last_allocated_inode_no == old(self).last_allocated_inode_no,
            old(self).superblock.same_but_free_counts(final(self).superblock),
            match r {
                Ok(_) => {
                    &&& final(self).superblock.s_free_inodes_count == total_free_inodes(old(self).gdt@)
                    &&& final(self).superblock.s_free_blocks_count_hi * 0x1_0000_0000
                        + final(self).superblock.s_free_blocks_count_lo == total_free_blocks(old(self).gdt@)
                },
                Err(e) => e == ConvertError::CorruptedData && total_free_inodes(old(self).gdt@) > u32::MAX,
            },
    {
        let mut free_inodes: u64 = 0;
        let mut free_blocks: u64 = 0;
        let mut i: usize = 0;
        while i < self.gdt.len()
            invariant
                i <= self.gdt@.len(),
                self.gdt@.len() <= u32::MAX,
                free_inodes == total_free_inodes(self.gdt@.subrange(0, i as int)),
                free_blocks == total_free_blocks(self.gdt@.subrange(0, i as int)),
                free_inodes <= i * 0xFFFF_FFFF,
                free_blocks <= i * 0xFFFF_FFFF,
            decreases self.gdt@.len() - i,
        {
            proof {
                assert(self.gdt@.subrange(0, i + 1).drop_last() =~= self.gdt@.subrange(0, i as int));
            }
            free_inodes = free_inodes + self.gdt[i].free_inodes_count() as u64;
            free_blocks = free_blocks + self.gdt[i].free_blocks_count() as u64;
            i += 1;
        }
        proof {
            assert(self.gdt@.subrange(0, self.gdt@.len() as int) =~= self.gdt@);
        }
        if free_inodes > u32::MAX as u64 {
            return Err(ConvertError::CorruptedData);
        }
        let ghost before = self.superblock;
        set_free_counts(&mut self.superblock, free_inodes as u32, free_blocks);
        proof {
            assert(self.superblock.spec_block_size() == before.spec_block_size());
            assert(self.superblock.spec_block_group_count() == before.spec_block_group_count());
            assert forall|i: int| 0 <= i < self.block_groups@.len() implies {
                &&& (#[trigger] self.block_groups@[i]).wf()
                &&& self.block_groups@[i].info.inodes_count == self.superblock.s_inodes_per_group
                &&& self.block_groups@[i].info.block_size == self.superblock.spec_block_size()
                &&& self.block_groups@[i].info.start_block == self.superblock.spec_block_group_start(i)
                &&& self.block_groups@[i].info.inode_table_start_block <= u32::MAX
                &&& self.block_groups@[i].info.inode_table_start_block == self.superblock.spec_block_group_start(i)
                    + self.superblock.spec_superblock_copy_overhead(self.superblock.spec_has_superblock(i)) + 2
                &&& self.block_groups@[i].info.inode_table_block_count == self.superblock.spec_inode_table_block_count()
            } by {
                assert(self.superblock.spec_block_group_start(i) == before.spec_block_group_start(i));
            }
        }
        Ok(())
    }

    /// The group descriptor table as stored on disk.
    fn gdt_bytes(&self) -> (r: Vec<u8>)
        ensures
            r@ == gdt_spec_bytes(self.gdt@),
    {
        let mut v: Vec<u8> = Vec::new();
        let mut i: usize = 0;
        proof {
            assert(self.gdt@.take(0) =~= Seq::<Ext4GroupDescriptor>::empty());
        }
        while i < self.gdt.len()
            invariant
                i <= self.gdt@.len(),
                v@ == gdt_spec_bytes(self.gdt@.take(i as int)),
            decreases self.gdt@.len() - i,
        {
            self.gdt[i].push_bytes(&mut v);
            proof {
                assert(self.gdt@.take(i + 1).drop_last() =~= self.gdt@.take(i as int));
                assert(self.gdt@.take(i + 1).last() == self.gdt@[i as int]);
            }
            i += 1;
        }
        proof {
            assert(self.gdt@.take(self.gdt@.len() as int) =~= self.gdt@);
        }
        v
    }

    /// Writes the metadata of every block group (superblock copies, group descriptor tables, bitmaps) to
    /// `partition`, the superblock of the first group last, after updating its free counts.
    #[verifier::rlimit(60)]
    pub fn finish(&mut self, partition: &mut Vec<u8>) -> (r: Result<(), ConvertError>)
        requires
            old(self).wf(),
        ensures
            r matches Err(e) ==> e == ConvertError::CorruptedData || e == ConvertError::FilesystemTooLarge || e == ConvertError::InconsistentFileSystem,
            final(partition)@.len() == old(partition)@.len(),
            r is Ok ==> {
                &&& old(self).superblock.same_but_free_counts(final(self).superblock)
                &&& final(self).superblock.s_free_inodes_count == total_free_inodes(old(self).gdt@)
                &&& final(self).superblock.s_free_blocks_count_hi * 0x1_0000_0000
                    + final(self).superblock.s_free_blocks_count_lo == total_free_blocks(old(self).gdt@)
                &&& 1024 + final(self).superblock.spec_bytes().len() <= final(partition)@.len()
                &&& final(partition)@.subrange(1024, 1024 + final(self).superblock.spec_bytes().len() as int)
                    == final(self).superblock.spec_bytes()
                &&& final(partition)@ == spliced(
                    metadata_written(
                        old(partition)@,
                        old(self).block_groups@,
                        final(self).superblock.spec_bytes(),
                        gdt_spec_bytes(old(self).gdt@),
                        old(self).block_groups@.len() as int,
                    ),
                    1024,
                    final(self).superblock.spec_bytes(),
                )
            },
            total_free_inodes(old(self).gdt@) <= u32::MAX && metadata_fits(*old(self), old(partition)@.len() as int)
                ==> r is Ok,
    {
        self.update_superblock()?;
        proof {
            self.superblock.lemma_block_size();
        }
        let block_size = self.superblock.block_size() as u64;
        let superblock_bytes = self.superblock.to_bytes();
        let gdt_bytes = self.gdt_bytes();
        let ghost plen = partition@.len();
        let ghost p0 = partition@;
        let ghost fits = metadata_fits(*old(self), plen as int);
        proof {
            if fits {
                assert(old(self).superblock.same_but_free_counts(self.superblock));
            }
        }
        let mut g: usize = 0;
        while g < self.block_groups.len()
            invariant
                self.wf(),
                g <= self.block_groups@.len(),
                partition@.len() == plen,
                plen == old(partition)@.len(),
                p0 == old(partition)@,
                block_size == self.superblock.spec_block_size(),
                partition@ == metadata_written(p0, self.block_groups@, superblock_bytes@, gdt_bytes@, g as int),
                fits == metadata_fits(*old(self), old(partition)@.len() as int),
                fits ==> 1024 + superblock_bytes@.len() <= plen,
                fits ==> forall|k: int|
                    0 <= k < self.block_groups@.len() ==> #[trigger] group_metadata_fits(
                        self.block_groups@[k],
                        k,
                        plen as int,
                        superblock_bytes@.len() as int,
                        gdt_bytes@.len() as int,
                    ),
            decreases self.block_groups@.len() - g,
        {
            proof {
                if fits {
                    assert(group_metadata_fits(
                        self.block_groups@[g as int],
                        g as int,
                        plen as int,
                        superblock_bytes@.len() as int,
                        gdt_bytes@.len() as int,
                    ));
                }
            }
            self.write_block_group_metadata(g, partition, superblock_bytes.as_slice(), gdt_bytes.as_slice())?;
            g += 1;
        }
        write_at(partition, 1024, superblock_bytes.as_slice())?;
        proof {
            assert(partition@.subrange(1024, 1024 + superblock_bytes@.len() as int) =~= superblock_bytes@);
        }
        Ok(())
    }
}

/// Sets the free inode and block counts of `sb`, leaving every other field as it is.
fn set_free_counts(sb: &mut SuperBlock, free_inodes: u32, free_blocks: u64)
    ensures
        *final(sb) == (SuperBlock {
            s_free_inodes_count: free_inodes,
            s_free_blocks_count_lo: (free_blocks % 0x1_0000_0000) as u32,
            s_free_blocks_count_hi: (free_blocks / 0x1_0000_0000) as u32,
            ..*old(sb)
        }),
        final(sb).s_free_blocks_count_hi * 0x1_0000_0000 + final(sb).s_free_blocks_count_lo == free_blocks,
{
    let (lo, hi) = crate::lohi::split_u32_u32(free_blocks);
    sb.s_free_inodes_count = free_inodes;
    sb.s_free_blocks_count_lo = lo;
    sb.s_free_blocks_count_hi = hi;
}

impl Ext4Fs {
    /// Writes the metadata of block group `g`: its bitmaps and, if it has one, its backup superblock and group
    /// descriptor table.
    fn write_block_group_metadata(&self, g: usize, partition: &mut Vec<u8>, superblock_bytes: &[u8], gdt_bytes: &[u8]) -> (r:
        Result<(), ConvertError>)
        requires
            self.wf(),
            g < self.block_groups@.len(),
        ensures
            r matches Err(e) ==> e == ConvertError::FilesystemTooLarge || e == ConvertError::InconsistentFileSystem,
            final(partition)@.len() == old(partition)@.len(),
            r is Ok ==> final(partition)@ == group_metadata_written(
                old(partition)@,
                self.block_groups@[g as int],
                g as int,
                superblock_bytes@,
                gdt_bytes@,
            ),
            group_metadata_fits(
                self.block_groups@[g as int],
                g as int,
                old(partition)@.len() as int,
                superblock_bytes@.len() as int,
                gdt_bytes@.len() as int,
            ) ==> r is Ok,
    {
        let info = self.block_groups[g].info;
        proof {
            assert(self.block_groups@[g as int].wf());
            self.superblock.lemma_block_size();
        }
        let block_size = info.block_size as u64;
        if info.block_bitmap_block > u32::MAX as u64 || info.inode_bitmap_block > u32::MAX as u64 || info.start_block
            >= u32::MAX as u64 {
            return Err(ConvertError::FilesystemTooLarge);
        }
        proof {
            assert(info.block_bitmap_block * block_size <= 0xFFFF_FFFF * 65536) by (nonlinear_arith)
                requires
                    info.block_bitmap_block <= 0xFFFF_FFFF,
                    block_size <= 65536,
            ;
            assert(info.inode_bitmap_block * block_size <= 0xFFFF_FFFF * 65536) by (nonlinear_arith)
                requires
                    info.inode_bitmap_block <= 0xFFFF_FFFF,
                    block_size <= 65536,
            ;
            assert((info.start_block + 1) * block_size <= 0xFFFF_FFFF * 65536) by (nonlinear_arith)
                requires
                    info.start_block < 0xFFFF_FFFF,
                    block_size <= 65536,
            ;
            assert(info.start_block * block_size <= 0xFFFF_FFFF * 65536) by (nonlinear_arith)
                requires
                    info.start_block < 0xFFFF_FFFF,
                    block_size <= 65536,
            ;
        }
        match info.superblock_construction_info {
            SuperBlockConstructionInfo::Yes { superblock_start_byte, .. } => {
                if g > 0 {
                    // a backup copy; the superblock of the first group is written by the caller
                    if superblock_start_byte > block_size {
                        return Err(ConvertError::InconsistentFileSystem);
                    }
                    write_at(partition, info.start_block * block_size + superblock_start_byte, superblock_bytes)?;
                }
                write_at(partition, (info.start_block + 1) * block_size, gdt_bytes)?;
            },
            SuperBlockConstructionInfo::No => {},
        }
        write_at(partition, info.block_bitmap_block * block_size, self.block_groups[g].data_block_bitmap.as_bytes())?;
        write_at(partition, info.inode_bitmap_block * block_size, self.block_groups[g].inode_bitmap.as_bytes())?;
        Ok(())
    }
}

} // verus!
