use vstd::prelude::*;
use vstd::arithmetic::power2::pow2;
use crate::bytes::{push_bytes, push_u16, push_u32, push_u32s, push_u64, push_u8, u16_bytes, u32_bytes, u32s_bytes, u64_bytes};
use crate::error::ConvertError;
use crate::ext4::{BlockCount, BlockGroupCount, BlockGroupIdx, BlockIdx, BlockSize, InodeCount, InodeNo, FIRST_BLOCK_PADDING, FIRST_EXISTING_INODE, FIRST_NON_RESERVED_INODE};
use crate::fat::boot_sector::BootSector;
use crate::lohi::{join_u32_u32, split_u32_u32};
use std::ops::Range;
use crate::util::exact_log2;

verus! {

pub const ROOT_INODE_NO: InodeNo = 2;
pub const LOST_FOUND_INODE_NO: InodeNo = 11;

pub const SUPERBLOCK_MAGIC: u16 = 61267;
pub const STATE_CLEANLY_UNMOUNTED: u16 = 1;
pub const NEWEST_REVISION: u32 = 1;
pub const BLOCK_SIZE_MIN_LOG2: u32 = 10;
pub const DESC_SIZE_64BIT: u16 = 64;
pub const ERRORS_DEFAULT: u16 = 1;
/// use only two superblock backups
pub const FEATURE_COMPAT_SPARSE_SUPER2: u32 = 0x200;
/// use extents to represent a file's data blocks
pub const FEATURE_INCOMPAT_EXTENTS: u32 = 0x40;
/// allow filesystems with more than 2^32 blocks
pub const FEATURE_INCOMPAT_64BIT: u32 = 0x80;
/// allow directories bigger than 2GB
pub const FEATURE_INCOMPAT_LARGEDIR: u32 = 0x4000;
/// allow files bigger than 2GiB
pub const FEATURE_RO_COMPAT_LARGE_FILE: u32 = 0x2;
/// allow files bigger than 2TiB
pub const FEATURE_RO_COMPAT_HUGE_FILE: u32 = 0x8;
/// allow directories with more than 65000 subdirectories
pub const FEATURE_RO_COMPAT_DIR_NLINK: u32 = 0x20;
pub const INODE_RATIO: u32 = 16384;
pub const INODE_SIZE: u16 = 256;
pub const VOLUME_NAME_LEN: usize = 16;
/// Simplified because ext4 clusters are not used
pub const MAX_BLOCKS_PER_GROUP: u32 = 65528;
/// Chosen for practicality, not actually enforced
pub const MIN_USABLE_BLOCKS_PER_GROUP: BlockCount = 10;
pub const MIN_BLOCK_SIZE: BlockSize = 1024;
pub const MAX_BLOCK_SIZE: BlockSize = 65536;
/// The size of the on-disk superblock.
pub const SUPERBLOCK_SIZE: usize = 1024;

#[derive(Debug, Clone, Copy, PartialEq, Eq, Structural)]
pub enum HasSuperBlock {
    YesOriginal,
    YesBackup,
    No,
}

/// `a / b` rounded up.
pub open spec fn ceil_div(a: int, b: int) -> int {
    a / b + if a % b == 0 { 0int } else { 1int }
}

/// `a / b` rounded up.
pub fn div_ceil_u64(a: u64, b: u64) -> (r: u64)
    requires
        b > 0,
    ensures
        r == ceil_div(a as int, b as int),
{
    if a % b == 0 {
        a / b
    } else {
        assert(a / b < u64::MAX) by (nonlinear_arith)
            requires
                a % b != 0,
                b > 0,
        ;
        a / b + 1
    }
}

/// The ext4 superblock.
#[derive(Debug, Clone, Copy)]
pub struct SuperBlock {
    /// max value: u32::MAX
    pub s_inodes_count: u32,
    pub s_blocks_count_lo: u32,
    pub s_r_blocks_count_lo: u32,
    pub s_free_blocks_count_lo: u32,
    pub s_free_inodes_count: u32,
    /// 0 or 1
    pub s_first_data_block: u32,
    /// max value: 6
    pub s_log_block_size: u32,
    pub s_log_cluster_size: u32,
    /// max value: 65528
    pub s_blocks_per_group: u32,
    pub s_clusters_per_group: u32,
    pub s_inodes_per_group: u32,
    pub s_mtime: u32,
    pub s_wtime: u32,
    pub s_mnt_count: u16,
    pub s_max_mnt_count: u16,
    pub s_magic: u16,
    pub s_state: u16,
    pub s_errors: u16,
    pub s_minor_rev_level: u16,
    pub s_lastcheck: u32,
    pub s_checkinterval: u32,
    pub s_creator_os: u32,
    pub s_rev_level: u32,
    pub s_def_resuid: u16,
    pub s_def_resgid: u16,
    pub s_first_ino: u32,
    /// >= the size of an inode structure
    pub s_inode_size: u16,
    pub s_block_group_nr: u16,
    /// activated features that don't impact compatibility
    pub s_feature_compat: u32,
    /// activated features that impact compatibility
    pub s_feature_incompat: u32,
    /// activated features that only impact write compatibility
    pub s_feature_ro_compat: u32,
    pub s_uuid: [u8; 16],
    pub s_volume_name: [u8; 16],
    pub s_last_mounted: [u8; 64],
    pub s_algorithm_usage_bitmap: u32,
    pub s_prealloc_blocks: u8,
    pub s_prealloc_dir_blocks: u8,
    pub s_reserved_gdt_blocks: u16,
    pub s_journal_uuid: [u8; 16],
    pub s_journal_inum: u32,
    pub s_journal_dev: u32,
    pub s_last_orphan: u32,
    pub s_hash_seed: [u32; 4],
    pub s_def_hash_version: u8,
    pub s_jnl_backup_type: u8,
    pub s_desc_size: u16,
    pub s_default_mount_opts: u32,
    pub s_first_meta_bg: u32,
    pub s_mkfs_time: u32,
    pub s_jnl_blocks: [u32; 17],
    pub s_blocks_count_hi: u32,
    pub s_r_blocks_count_hi: u32,
    pub s_free_blocks_count_hi: u32,
    pub s_min_extra_isize: u16,
    pub s_want_extra_isize: u16,
    pub s_flags: u32,
    pub s_raid_stride: u16,
    pub s_mmp_update_interval: u16,
    pub s_mmp_block: u64,
    pub s_raid_stripe_width: u32,
    pub s_log_groups_per_flex: u8,
    pub s_checksum_type: u8,
    pub s_encryption_level: u8,
    pub s_reserved_pad: u8,
    pub s_kbytes_written: u64,
    pub s_snapshot_inum: u32,
    pub s_snapshot_id: u32,
    pub s_snapshot_r_blocks_count: u64,
    pub s_snapshot_list: u32,
    pub s_error_count: u32,
    pub s_first_error_time: u32,
    pub s_first_error_ino: u32,
    pub s_first_error_block: u64,
    pub s_first_error_func: [u8; 32],
    pub s_first_error_line: u32,
    pub s_last_error_time: u32,
    pub s_last_error_ino: u32,
    pub s_last_error_line: u32,
    pub s_last_error_block: u64,
    pub s_last_error_func: [u8; 32],
    pub s_mount_opts: [u8; 64],
    pub s_usr_quota_inum: u32,
    pub s_grp_quota_inum: u32,
    pub s_overhead_clusters: u32,
    pub s_backup_bgs: [u32; 2],
    pub s_encrypt_algos: [u8; 4],
    pub s_encrypt_pw_salt: [u8; 16],
    pub s_lpf_ino: u32,
    pub s_prj_quota_inum: u32,
    pub s_checksum_seed: u32,
    pub s_reserved: [u32; 98],
    pub s_checksum: u32,
}

impl SuperBlock {
    /// The fields that `new` does not set are zero: all but the geometry, the counts, the features, the identity
    /// and the backup groups of the filesystem.
    pub open spec fn other_fields_zero(self) -> bool {
        &&& self.s_r_blocks_count_lo == 0
        &&& self.s_free_inodes_count == 0
        &&& self.s_mtime == 0
        &&& self.s_wtime == 0
        &&& self.s_mnt_count == 0
        &&& self.s_minor_rev_level == 0
        &&& self.s_lastcheck == 0
        &&& self.s_checkinterval == 0
        &&& self.s_creator_os == 0
        &&& self.s_def_resuid == 0
        &&& self.s_def_resgid == 0
        &&& self.s_block_group_nr == 0
        &&& self.s_last_mounted@ == Seq::new(64, |i: int| 0u8)
        &&& self.s_algorithm_usage_bitmap == 0
        &&& self.s_prealloc_blocks == 0
        &&& self.s_prealloc_dir_blocks == 0
        &&& self.s_journal_uuid@ == Seq::new(16, |i: int| 0u8)
        &&& self.s_journal_inum == 0
        &&& self.s_journal_dev == 0
        &&& self.s_last_orphan == 0
        &&& self.s_hash_seed@ == Seq::new(4, |i: int| 0u32)
        &&& self.s_def_hash_version == 0
        &&& self.s_jnl_backup_type == 0
        &&& self.s_default_mount_opts == 0
        &&& self.s_first_meta_bg == 0
        &&& self.s_jnl_blocks@ == Seq::new(17, |i: int| 0u32)
        &&& self.s_r_blocks_count_hi == 0
        &&& self.s_min_extra_isize == 0
        &&& self.s_want_extra_isize == 0
        &&& self.s_flags == 0
        &&& self.s_raid_stride == 0
        &&& self.s_mmp_update_interval == 0
        &&& self.s_mmp_block == 0
        &&& self.s_raid_stripe_width == 0
        &&& self.s_log_groups_per_flex == 0
        &&& self.s_checksum_type == 0
        &&& self.s_encryption_level == 0
        &&& self.s_reserved_pad == 0
        &&& self.s_kbytes_written == 0
        &&& self.s_snapshot_inum == 0
        &&& self.s_snapshot_id == 0
        &&& self.s_snapshot_r_blocks_count == 0
        &&& self.s_snapshot_list == 0
        &&& self.s_error_count == 0
        &&& self.s_first_error_time == 0
        &&& self.s_first_error_ino == 0
        &&& self.s_first_error_block == 0
        &&& self.s_first_error_func@ == Seq::new(32, |i: int| 0u8)
        &&& self.s_first_error_line == 0
        &&& self.s_last_error_time == 0
        &&& self.s_last_error_ino == 0
        &&& self.s_last_error_line == 0
        &&& self.s_last_error_block == 0
        &&& self.s_last_error_func@ == Seq::new(32, |i: int| 0u8)
        &&& self.s_mount_opts@ == Seq::new(64, |i: int| 0u8)
        &&& self.s_usr_quota_inum == 0
        &&& self.s_grp_quota_inum == 0
        &&& self.s_overhead_clusters == 0
        &&& self.s_encrypt_algos@ == Seq::new(4, |i: int| 0u8)
        &&& self.s_encrypt_pw_salt@ == Seq::new(16, |i: int| 0u8)
        &&& self.s_lpf_ino == 0
        &&& self.s_prj_quota_inum == 0
        &&& self.s_checksum_seed == 0
        &&& self.s_reserved@ == Seq::new(98, |i: int| 0u32)
        &&& self.s_checksum == 0
    }

    /// A superblock with every field zero.
    pub fn zeroed() -> (r: Self)
        ensures
            r.s_inodes_count == 0,
            r.s_blocks_count_lo == 0 && r.s_blocks_count_hi == 0,
            r.s_free_blocks_count_lo == 0 && r.s_free_blocks_count_hi == 0,
            r.s_reserved_gdt_blocks == 0,
            r.s_backup_bgs@ == seq![0u32, 0u32],
            r.s_volume_name@ == Seq::new(16, |i: int| 0u8),
            r.s_first_data_block == 0 && r.s_log_block_size == 0 && r.s_log_cluster_size == 0,
            r.s_blocks_per_group == 0 && r.s_clusters_per_group == 0 && r.s_inodes_per_group == 0,
            r.s_max_mnt_count == 0 && r.s_magic == 0 && r.s_state == 0 && r.s_errors == 0 && r.s_rev_level == 0,
            r.s_first_ino == 0 && r.s_inode_size == 0 && r.s_desc_size == 0 && r.s_mkfs_time == 0,
            r.s_feature_compat == 0 && r.s_feature_incompat == 0 && r.s_feature_ro_compat == 0,
            r.s_uuid@ == Seq::new(16, |i: int| 0u8),
            r.other_fields_zero(),
    {
        let r = SuperBlock {
            s_inodes_count: 0,
            s_blocks_count_lo: 0,
            s_r_blocks_count_lo: 0,
            s_free_blocks_count_lo: 0,
            s_free_inodes_count: 0,
            s_first_data_block: 0,
            s_log_block_size: 0,
            s_log_cluster_size: 0,
            s_blocks_per_group: 0,
            s_clusters_per_group: 0,
            s_inodes_per_group: 0,
            s_mtime: 0,
            s_wtime: 0,
            s_mnt_count: 0,
            s_max_mnt_count: 0,
            s_magic: 0,
            s_state: 0,
            s_errors: 0,
            s_minor_rev_level: 0,
            s_lastcheck: 0,
            s_checkinterval: 0,
            s_creator_os: 0,
            s_rev_level: 0,
            s_def_resuid: 0,
            s_def_resgid: 0,
            s_first_ino: 0,
            s_inode_size: 0,
            s_block_group_nr: 0,
            s_feature_compat: 0,
            s_feature_incompat: 0,
            s_feature_ro_compat: 0,
            s_uuid: [0u8; 16],
            s_volume_name: [0u8; 16],
            s_last_mounted: [0u8; 64],
            s_algorithm_usage_bitmap: 0,
            s_prealloc_blocks: 0,
            s_prealloc_dir_blocks: 0,
            s_reserved_gdt_blocks: 0,
            s_journal_uuid: [0u8; 16],
            s_journal_inum: 0,
            s_journal_dev: 0,
            s_last_orphan: 0,
            s_hash_seed: [0u32; 4],
            s_def_hash_version: 0,
            s_jnl_backup_type: 0,
            s_desc_size: 0,
            s_default_mount_opts: 0,
            s_first_meta_bg: 0,
            s_mkfs_time: 0,
            s_jnl_blocks: [0u32; 17],
            s_blocks_count_hi: 0,
            s_r_blocks_count_hi: 0,
            s_free_blocks_count_hi: 0,
            s_min_extra_isize: 0,
            s_want_extra_isize: 0,
            s_flags: 0,
            s_raid_stride: 0,
            s_mmp_update_interval: 0,
            s_mmp_block: 0,
            s_raid_stripe_width: 0,
            s_log_groups_per_flex: 0,
            s_checksum_type: 0,
            s_encryption_level: 0,
            s_reserved_pad: 0,
            s_kbytes_written: 0,
            s_snapshot_inum: 0,
            s_snapshot_id: 0,
            s_snapshot_r_blocks_count: 0,
            s_snapshot_list: 0,
            s_error_count: 0,
            s_first_error_time: 0,
            s_first_error_ino: 0,
            s_first_error_block: 0,
            s_first_error_func: [0u8; 32],
            s_first_error_line: 0,
            s_last_error_time: 0,
            s_last_error_ino: 0,
            s_last_error_line: 0,
            s_last_error_block: 0,
            s_last_error_func: [0u8; 32],
            s_mount_opts: [0u8; 64],
            s_usr_quota_inum: 0,
            s_grp_quota_inum: 0,
            s_overhead_clusters: 0,
            s_backup_bgs: [0u32; 2],
            s_encrypt_algos: [0u8; 4],
            s_encrypt_pw_salt: [0u8; 16],
            s_lpf_ino: 0,
            s_prj_quota_inum: 0,
            s_checksum_seed: 0,
            s_reserved: [0u32; 98],
            s_checksum: 0,
        };
        assert(r.s_backup_bgs@ =~= seq![0u32, 0u32]);
        assert(r.s_volume_name@ =~= Seq::new(16, |i: int| 0u8));
        assert(r.s_uuid@ =~= Seq::new(16, |i: int| 0u8));
        assert(r.s_last_mounted@ =~= Seq::new(64, |i: int| 0u8));
        assert(r.s_journal_uuid@ =~= Seq::new(16, |i: int| 0u8));
        assert(r.s_hash_seed@ =~= Seq::new(4, |i: int| 0u32));
        assert(r.s_jnl_blocks@ =~= Seq::new(17, |i: int| 0u32));
        assert(r.s_first_error_func@ =~= Seq::new(32, |i: int| 0u8));
        assert(r.s_last_error_func@ =~= Seq::new(32, |i: int| 0u8));
        assert(r.s_mount_opts@ =~= Seq::new(64, |i: int| 0u8));
        assert(r.s_encrypt_algos@ =~= Seq::new(4, |i: int| 0u8));
        assert(r.s_encrypt_pw_salt@ =~= Seq::new(16, |i: int| 0u8));
        assert(r.s_reserved@ =~= Seq::new(98, |i: int| 0u32));
        r
    }

    /// The on-disk encoding: every field in little-endian order, one after the other.
    pub open spec fn spec_bytes(self) -> Seq<u8> {
        u32_bytes(self.s_inodes_count)
            + u32_bytes(self.s_blocks_count_lo)
            + u32_bytes(self.s_r_blocks_count_lo)
            + u32_bytes(self.s_free_blocks_count_lo)
            + u32_bytes(self.s_free_inodes_count)
            + u32_bytes(self.s_first_data_block)
            + u32_bytes(self.s_log_block_size)
            + u32_bytes(self.s_log_cluster_size)
            + u32_bytes(self.s_blocks_per_group)
            + u32_bytes(self.s_clusters_per_group)
            + u32_bytes(self.s_inodes_per_group)
            + u32_bytes(self.s_mtime)
            + u32_bytes(self.s_wtime)
            + u16_bytes(self.s_mnt_count)
            + u16_bytes(self.s_max_mnt_count)
            + u16_bytes(self.s_magic)
            + u16_bytes(self.s_state)
            + u16_bytes(self.s_errors)
            + u16_bytes(self.s_minor_rev_level)
            + u32_bytes(self.s_lastcheck)
            + u32_bytes(self.s_checkinterval)
            + u32_bytes(self.s_creator_os)
            + u32_bytes(self.s_rev_level)
            + u16_bytes(self.s_def_resuid)
            + u16_bytes(self.s_def_resgid)
            + u32_bytes(self.s_first_ino)
            + u16_bytes(self.s_inode_size)
            + u16_bytes(self.s_block_group_nr)
            + u32_bytes(self.s_feature_compat)
            + u32_bytes(self.s_feature_incompat)
            + u32_bytes(self.s_feature_ro_compat)
            + self.s_uuid@
            + self.s_volume_name@
            + self.s_last_mounted@
            + u32_bytes(self.s_algorithm_usage_bitmap)
            + seq![self.s_prealloc_blocks]
            + seq![self.s_prealloc_dir_blocks]
            + u16_bytes(self.s_reserved_gdt_blocks)
            + self.s_journal_uuid@
            + u32_bytes(self.s_journal_inum)
            + u32_bytes(self.s_journal_dev)
            + u32_bytes(self.s_last_orphan)
            + u32s_bytes(self.s_hash_seed@)
            + seq![self.s_def_hash_version]
            + seq![self.s_jnl_backup_type]
            + u16_bytes(self.s_desc_size)
            + u32_bytes(self.s_default_mount_opts)
            + u32_bytes(self.s_first_meta_bg)
            + u32_bytes(self.s_mkfs_time)
            + u32s_bytes(self.s_jnl_blocks@)
            + u32_bytes(self.s_blocks_count_hi)
            + u32_bytes(self.s_r_blocks_count_hi)
            + u32_bytes(self.s_free_blocks_count_hi)
            + u16_bytes(self.s_min_extra_isize)
            + u16_bytes(self.s_want_extra_isize)
            + u32_bytes(self.s_flags)
            + u16_bytes(self.s_raid_stride)
            + u16_bytes(self.s_mmp_update_interval)
            + u64_bytes(self.s_mmp_block)
            + u32_bytes(self.s_raid_stripe_width)
            + seq![self.s_log_groups_per_flex]
            + seq![self.s_checksum_type]
            + seq![self.s_encryption_level]
            + seq![self.s_reserved_pad]
            + u64_bytes(self.s_kbytes_written)
            + u32_bytes(self.s_snapshot_inum)
            + u32_bytes(self.s_snapshot_id)
            + u64_bytes(self.s_snapshot_r_blocks_count)
            + u32_bytes(self.s_snapshot_list)
            + u32_bytes(self.s_error_count)
            + u32_bytes(self.s_first_error_time)
            + u32_bytes(self.s_first_error_ino)
            + u64_bytes(self.s_first_error_block)
            + self.s_first_error_func@
            + u32_bytes(self.s_first_error_line)
            + u32_bytes(self.s_last_error_time)
            + u32_bytes(self.s_last_error_ino)
            + u32_bytes(self.s_last_error_line)
            + u64_bytes(self.s_last_error_block)
            + self.s_last_error_func@
            + self.s_mount_opts@
            + u32_bytes(self.s_usr_quota_inum)
            + u32_bytes(self.s_grp_quota_inum)
            + u32_bytes(self.s_overhead_clusters)
            + u32s_bytes(self.s_backup_bgs@)
            + self.s_encrypt_algos@
            + self.s_encrypt_pw_salt@
            + u32_bytes(self.s_lpf_ino)
            + u32_bytes(self.s_prj_quota_inum)
            + u32_bytes(self.s_checksum_seed)
            + u32s_bytes(self.s_reserved@)
            + u32_bytes(self.s_checksum)
    }

    /// Encodes the superblock as it is stored on disk.
    pub fn to_bytes(&self) -> (r: Vec<u8>)
        ensures
            r@ == self.spec_bytes(),
    {
        let mut v: Vec<u8> = Vec::new();
        push_u32(&mut v, self.s_inodes_count);
        push_u32(&mut v, self.s_blocks_count_lo);
        push_u32(&mut v, self.s_r_blocks_count_lo);
        push_u32(&mut v, self.s_free_blocks_count_lo);
        push_u32(&mut v, self.s_free_inodes_count);
        push_u32(&mut v, self.s_first_data_block);
        push_u32(&mut v, self.s_log_block_size);
        push_u32(&mut v, self.s_log_cluster_size);
        push_u32(&mut v, self.s_blocks_per_group);
        push_u32(&mut v, self.s_clusters_per_group);
        push_u32(&mut v, self.s_inodes_per_group);
        push_u32(&mut v, self.s_mtime);
        push_u32(&mut v, self.s_wtime);
        push_u16(&mut v, self.s_mnt_count);
        push_u16(&mut v, self.s_max_mnt_count);
        push_u16(&mut v, self.s_magic);
        push_u16(&mut v, self.s_state);
        push_u16(&mut v, self.s_errors);
        push_u16(&mut v, self.s_minor_rev_level);
        push_u32(&mut v, self.s_lastcheck);
        push_u32(&mut v, self.s_checkinterval);
        push_u32(&mut v, self.s_creator_os);
        push_u32(&mut v, self.s_rev_level);
        push_u16(&mut v, self.s_def_resuid);
        push_u16(&mut v, self.s_def_resgid);
        push_u32(&mut v, self.s_first_ino);
        push_u16(&mut v, self.s_inode_size);
        push_u16(&mut v, self.s_block_group_nr);
        push_u32(&mut v, self.s_feature_compat);
        push_u32(&mut v, self.s_feature_incompat);
        push_u32(&mut v, self.s_feature_ro_compat);
        push_bytes(&mut v, &self.s_uuid);
        push_bytes(&mut v, &self.s_volume_name);
        push_bytes(&mut v, &self.s_last_mounted);
        push_u32(&mut v, self.s_algorithm_usage_bitmap);
        push_u8(&mut v, self.s_prealloc_blocks);
        push_u8(&mut v, self.s_prealloc_dir_blocks);
        push_u16(&mut v, self.s_reserved_gdt_blocks);
        push_bytes(&mut v, &self.s_journal_uuid);
        push_u32(&mut v, self.s_journal_inum);
        push_u32(&mut v, self.s_journal_dev);
        push_u32(&mut v, self.s_last_orphan);
        push_u32s(&mut v, &self.s_hash_seed);
        push_u8(&mut v, self.s_def_hash_version);
        push_u8(&mut v, self.s_jnl_backup_type);
        push_u16(&mut v, self.s_desc_size);
        push_u32(&mut v, self.s_default_mount_opts);
        push_u32(&mut v, self.s_first_meta_bg);
        push_u32(&mut v, self.s_mkfs_time);
        push_u32s(&mut v, &self.s_jnl_blocks);
        push_u32(&mut v, self.s_blocks_count_hi);
        push_u32(&mut v, self.s_r_blocks_count_hi);
        push_u32(&mut v, self.s_free_blocks_count_hi);
        push_u16(&mut v, self.s_min_extra_isize);
        push_u16(&mut v, self.s_want_extra_isize);
        push_u32(&mut v, self.s_flags);
        push_u16(&mut v, self.s_raid_stride);
        push_u16(&mut v, self.s_mmp_update_interval);
        push_u64(&mut v, self.s_mmp_block);
        push_u32(&mut v, self.s_raid_stripe_width);
        push_u8(&mut v, self.s_log_groups_per_flex);
        push_u8(&mut v, self.s_checksum_type);
        push_u8(&mut v, self.s_encryption_level);
        push_u8(&mut v, self.s_reserved_pad);
        push_u64(&mut v, self.s_kbytes_written);
        push_u32(&mut v, self.s_snapshot_inum);
        push_u32(&mut v, self.s_snapshot_id);
        push_u64(&mut v, self.s_snapshot_r_blocks_count);
        push_u32(&mut v, self.s_snapshot_list);
        push_u32(&mut v, self.s_error_count);
        push_u32(&mut v, self.s_first_error_time);
        push_u32(&mut v, self.s_first_error_ino);
        push_u64(&mut v, self.s_first_error_block);
        push_bytes(&mut v, &self.s_first_error_func);
        push_u32(&mut v, self.s_first_error_line);
        push_u32(&mut v, self.s_last_error_time);
        push_u32(&mut v, self.s_last_error_ino);
        push_u32(&mut v, self.s_last_error_line);
        push_u64(&mut v, self.s_last_error_block);
        push_bytes(&mut v, &self.s_last_error_func);
        push_bytes(&mut v, &self.s_mount_opts);
        push_u32(&mut v, self.s_usr_quota_inum);
        push_u32(&mut v, self.s_grp_quota_inum);
        push_u32(&mut v, self.s_overhead_clusters);
        push_u32s(&mut v, &self.s_backup_bgs);
        push_bytes(&mut v, &self.s_encrypt_algos);
        push_bytes(&mut v, &self.s_encrypt_pw_salt);
        push_u32(&mut v, self.s_lpf_ino);
        push_u32(&mut v, self.s_prj_quota_inum);
        push_u32(&mut v, self.s_checksum_seed);
        push_u32s(&mut v, &self.s_reserved);
        push_u32(&mut v, self.s_checksum);
        assert(v@ =~= self.spec_bytes());
        v
    }
}

impl SuperBlock {
    pub open spec fn spec_block_size(self) -> int {
        pow2((self.s_log_block_size + BLOCK_SIZE_MIN_LOG2) as nat) as int
    }

    /// The block count, including a possible first padding block.
    pub open spec fn spec_block_count(self) -> int {
        self.s_blocks_count_hi * 0x1_0000_0000 + self.s_blocks_count_lo
    }

    pub open spec fn spec_block_count_without_padding(self) -> int {
        self.spec_block_count() - self.s_first_data_block
    }

    pub open spec fn spec_block_group_count(self) -> int {
        ceil_div(self.spec_block_count_without_padding(), self.s_blocks_per_group as int)
    }

    pub open spec fn spec_inode_table_block_count(self) -> int {
        ceil_div(self.s_inodes_per_group * self.s_inode_size, self.spec_block_size())
    }

    pub open spec fn spec_gdt_block_count(self) -> int {
        ceil_div(self.spec_block_group_count(), self.spec_block_size() / (self.s_desc_size as int))
    }

    pub open spec fn spec_superblock_copy_overhead(self, has_superblock: HasSuperBlock) -> int {
        match has_superblock {
            HasSuperBlock::No => 0,
            _ => 1 + self.spec_gdt_block_count() + self.s_reserved_gdt_blocks,
        }
    }

    pub open spec fn spec_block_group_overhead(self, has_superblock: HasSuperBlock) -> int {
        2 + self.spec_inode_table_block_count() + self.spec_superblock_copy_overhead(has_superblock)
    }

    pub open spec fn spec_has_superblock(self, block_group_idx: int) -> HasSuperBlock {
        if block_group_idx == 0 {
            HasSuperBlock::YesOriginal
        } else if block_group_idx == self.s_backup_bgs@[0] || block_group_idx == self.s_backup_bgs@[1] {
            HasSuperBlock::YesBackup
        } else {
            HasSuperBlock::No
        }
    }

    pub open spec fn spec_block_group_start(self, block_group_idx: int) -> int {
        self.s_blocks_per_group * block_group_idx + self.s_first_data_block
    }

    pub open spec fn spec_first_block_is_padding(self) -> bool {
        self.spec_block_size() <= FIRST_BLOCK_PADDING
    }

    /// The fields that the geometry computations rely on have values that a superblock made by `new` has.
    pub open spec fn wf(self) -> bool {
        &&& self.s_log_block_size <= 6
        &&& 0 < self.s_desc_size <= 1024
        &&& self.s_blocks_per_group > 0
        &&& self.s_first_data_block <= 1
        &&& self.spec_block_count() >= self.s_first_data_block
        &&& self.spec_block_group_count() <= u32::MAX
    }

    pub proof fn lemma_block_size(self)
        requires
            self.s_log_block_size <= 6,
        ensures
            1024 <= self.spec_block_size() <= 65536,
            self.spec_block_size() == 1024 * pow2(self.s_log_block_size as nat),
    {
        vstd::arithmetic::power2::lemma2_to64();
        let l = self.s_log_block_size;
        assert(l == 0 || l == 1 || l == 2 || l == 3 || l == 4 || l == 5 || l == 6);
    }

    fn init_constants(&mut self)
        ensures
            *final(self) == (SuperBlock {
                s_magic: SUPERBLOCK_MAGIC,
                s_state: STATE_CLEANLY_UNMOUNTED,
                s_feature_compat: FEATURE_COMPAT_SPARSE_SUPER2,
                s_feature_incompat: FEATURE_INCOMPAT_64BIT | FEATURE_INCOMPAT_EXTENTS | FEATURE_INCOMPAT_LARGEDIR,
                s_feature_ro_compat: FEATURE_RO_COMPAT_LARGE_FILE | FEATURE_RO_COMPAT_HUGE_FILE | FEATURE_RO_COMPAT_DIR_NLINK,
                s_desc_size: DESC_SIZE_64BIT,
                s_inode_size: INODE_SIZE,
                s_rev_level: NEWEST_REVISION,
                s_errors: ERRORS_DEFAULT,
                s_first_ino: FIRST_NON_RESERVED_INODE,
                s_max_mnt_count: u16::MAX,
                ..*old(self)
            }),
    {
        self.s_magic = SUPERBLOCK_MAGIC;
        self.s_state = STATE_CLEANLY_UNMOUNTED;
        self.s_feature_compat = FEATURE_COMPAT_SPARSE_SUPER2;
        self.s_feature_incompat = FEATURE_INCOMPAT_64BIT | FEATURE_INCOMPAT_EXTENTS | FEATURE_INCOMPAT_LARGEDIR;
        self.s_feature_ro_compat = FEATURE_RO_COMPAT_LARGE_FILE | FEATURE_RO_COMPAT_HUGE_FILE | FEATURE_RO_COMPAT_DIR_NLINK;
        self.s_desc_size = DESC_SIZE_64BIT;
        self.s_inode_size = INODE_SIZE;
        self.s_rev_level = NEWEST_REVISION;
        self.s_errors = ERRORS_DEFAULT;
        self.s_first_ino = FIRST_NON_RESERVED_INODE;
        self.s_max_mnt_count = u16::MAX;
    }

    /// The highest inode number.
    pub fn max_inode_no(&self) -> (r: InodeNo)
        requires
            self.s_inodes_count >= 1,
        ensures
            r == self.s_inodes_count - 1 + FIRST_EXISTING_INODE,
    {
        self.s_inodes_count - 1 + FIRST_EXISTING_INODE
    }

    /// The number of inodes that are not reserved.
    pub fn allocatable_inode_count(&self) -> (r: InodeCount)
        requires
            self.s_inodes_count >= FIRST_NON_RESERVED_INODE - FIRST_EXISTING_INODE,
        ensures
            r == self.s_inodes_count - (FIRST_NON_RESERVED_INODE - FIRST_EXISTING_INODE),
    {
        let reserved_inodes_count = FIRST_NON_RESERVED_INODE - FIRST_EXISTING_INODE;
        self.s_inodes_count - reserved_inodes_count
    }

    /// The number of inodes that a new filesystem has free: the ones that are not reserved.
    pub fn free_inode_count(&self) -> (r: InodeCount)
        requires
            self.s_inodes_count >= FIRST_NON_RESERVED_INODE - FIRST_EXISTING_INODE,
        ensures
            r == self.s_inodes_count - (FIRST_NON_RESERVED_INODE - FIRST_EXISTING_INODE),
    {
        self.allocatable_inode_count()
    }

    /// The number of metadata blocks of a block group: block bitmap, inode bitmap, inode table, and a superblock and
    /// group descriptor table copy if the group has one.
    pub fn block_group_overhead(&self, has_superblock: HasSuperBlock) -> (r: BlockCount)
        requires
            self.wf(),
        ensures
            r == self.spec_block_group_overhead(has_superblock),
            r < 0x2_0000_0000_0000,
    {
        // block bitmap + inode bitmap + inode table
        let default_overhead = 2 + self.inode_table_block_count();
        default_overhead + self.superblock_copy_overhead(has_superblock)
    }

    pub fn superblock_copy_overhead(&self, has_superblock: HasSuperBlock) -> (r: BlockCount)
        requires
            self.wf(),
        ensures
            r == self.spec_superblock_copy_overhead(has_superblock),
            r <= 1 + u32::MAX + u16::MAX,
    {
        match has_superblock {
            HasSuperBlock::YesOriginal | HasSuperBlock::YesBackup => {
                // superblock + group descriptor table
                1 + self.gdt_block_count() + self.s_reserved_gdt_blocks as BlockCount
            },
            HasSuperBlock::No => 0,
        }
    }

    fn gdt_block_count(&self) -> (r: BlockCount)
        requires
            self.wf(),
        ensures
            r == self.spec_gdt_block_count(),
            r <= u32::MAX,
    {
        proof {
            self.lemma_block_size();
        }
        let descriptors_per_gdt_block = self.block_size() / (self.s_desc_size as BlockSize);
        let count = self.block_group_count() as u64;
        proof {
            assert(self.spec_block_size() / (self.s_desc_size as int) >= 1) by (nonlinear_arith)
                requires
                    self.spec_block_size() >= 1024,
                    0 < self.s_desc_size <= 1024,
            ;
            assert(ceil_div(count as int, descriptors_per_gdt_block as int) <= count) by (nonlinear_arith)
                requires
                    descriptors_per_gdt_block >= 1,
                    count >= 0,
            ;
        }
        div_ceil_u64(count, descriptors_per_gdt_block as u64)
    }

    pub fn inode_table_block_count(&self) -> (r: BlockCount)
        requires
            self.s_log_block_size <= 6,
        ensures
            r == self.spec_inode_table_block_count(),
            r <= 0xFFFF_FFFF * 0xFFFF,
    {
        proof {
            self.lemma_block_size();
            assert(self.s_inodes_per_group * self.s_inode_size <= 0xFFFF_FFFF * 0xFFFF) by (nonlinear_arith);
        }
        let inode_table_size = (self.s_inodes_per_group as u64) * (self.s_inode_size as u64);
        proof {
            assert(ceil_div(inode_table_size as int, self.spec_block_size()) <= inode_table_size) by (nonlinear_arith)
                requires
                    self.spec_block_size() >= 1,
                    inode_table_size >= 0,
            ;
        }
        div_ceil_u64(inode_table_size, self.block_size() as u64)
    }

    pub fn block_size(&self) -> (r: BlockSize)
        requires
            self.s_log_block_size <= 6,
        ensures
            r == self.spec_block_size(),
    {
        proof {
            self.lemma_block_size();
            vstd::bits::lemma_u32_shl_is_mul(1, (self.s_log_block_size + BLOCK_SIZE_MIN_LOG2) as u32);
        }
        1u32 << (self.s_log_block_size + BLOCK_SIZE_MIN_LOG2)
    }

    /// The block count, including a possible first padding block that does not belong to any block group.
    pub fn block_count_with_padding(&self) -> (r: BlockCount)
        ensures
            r == self.spec_block_count(),
    {
        join_u32_u32(self.s_blocks_count_lo, self.s_blocks_count_hi)
    }

    pub fn block_count_without_padding(&self) -> (r: BlockCount)
        requires
            self.spec_block_count() >= self.s_first_data_block,
        ensures
            r == self.spec_block_count_without_padding(),
    {
        self.block_count_with_padding() - self.s_first_data_block as BlockCount
    }

    /// If the entire first block is padding, the superblock begins at the start of the next block; otherwise, it
    /// begins after `FIRST_BLOCK_PADDING` bytes.
    pub fn start_byte_within_block(&self) -> (r: u64)
        ensures
            r == (if self.s_first_data_block == 1 { 0 } else { FIRST_BLOCK_PADDING }),
    {
        if self.s_first_data_block == 1 {
            0
        } else {
            FIRST_BLOCK_PADDING
        }
    }

    pub fn block_group_count(&self) -> (r: BlockGroupCount)
        requires
            self.wf(),
        ensures
            r == self.spec_block_group_count(),
    {
        div_ceil_u64(self.block_count_without_padding(), self.s_blocks_per_group as u64) as BlockGroupCount
    }

    pub fn block_group_has_superblock(&self, block_group_idx: BlockGroupIdx) -> (r: HasSuperBlock)
        ensures
            r == self.spec_has_superblock(block_group_idx as int),
    {
        if block_group_idx == 0 {
            HasSuperBlock::YesOriginal
        } else if block_group_idx == self.s_backup_bgs[0] || block_group_idx == self.s_backup_bgs[1] {
            HasSuperBlock::YesBackup
        } else {
            HasSuperBlock::No
        }
    }

    pub fn first_usable_block(&self) -> (r: BlockIdx)
        ensures
            r == self.s_first_data_block,
    {
        self.s_first_data_block as BlockIdx
    }

    /// The first block of a block group; if the block size is `FIRST_BLOCK_PADDING`, every block group begins one
    /// block later than it otherwise would.
    pub fn block_group_start_block(&self, block_group_idx: BlockGroupIdx) -> (r: BlockIdx)
        ensures
            r == self.spec_block_group_start(block_group_idx as int),
    {
        proof {
            assert(self.s_blocks_per_group * block_group_idx <= 0xFFFF_FFFF * 0xFFFF_FFFF) by (nonlinear_arith);
        }
        (self.s_blocks_per_group as u64) * (block_group_idx as u64) + self.first_usable_block()
    }

    pub fn first_block_is_padding(&self) -> (r: bool)
        requires
            self.s_log_block_size <= 6,
        ensures
            r == self.spec_first_block_is_padding(),
    {
        (self.block_size() as u64) <= FIRST_BLOCK_PADDING
    }

    pub fn set_free_blocks_count(&mut self, count: u64)
        ensures
            final(self).s_free_blocks_count_hi * 0x1_0000_0000 + final(self).s_free_blocks_count_lo == count,
            final(self).s_inodes_count == old(self).s_inodes_count,
            final(self).s_blocks_count_lo == old(self).s_blocks_count_lo,
            final(self).s_blocks_count_hi == old(self).s_blocks_count_hi,
            final(self).s_free_inodes_count == old(self).s_free_inodes_count,
    {
        let (lo, hi) = split_u32_u32(count);
        self.s_free_blocks_count_lo = lo;
        self.s_free_blocks_count_hi = hi;
    }

    /// The indices of the block groups that hold a superblock and group descriptor table backup.
    pub fn backup_bgs(&self) -> (r: Vec<BlockGroupIdx>)
        ensures
            r@ == self.s_backup_bgs@.filter(|bg_idx: u32| bg_idx != 0),
    {
        let mut r: Vec<BlockGroupIdx> = Vec::new();
        let mut i: usize = 0;
        while i < 2
            invariant
                i <= 2,
                r@ == self.s_backup_bgs@.subrange(0, i as int).filter(|bg_idx: u32| bg_idx != 0),
            decreases 2 - i,
        {
            proof {
                vstd::seq_lib::lemma_seq_skip_of_skip::<u32>(self.s_backup_bgs@, 0, 0);
                reveal(Seq::filter);
                assert(self.s_backup_bgs@.subrange(0, i + 1).drop_last() =~= self.s_backup_bgs@.subrange(0, i as int));
            }
            if self.s_backup_bgs[i] != 0 {
                r.push(self.s_backup_bgs[i]);
            }
            i += 1;
        }
        assert(self.s_backup_bgs@.subrange(0, 2) =~= self.s_backup_bgs@);
        r
    }
}

/// The blocks per group of a new filesystem with block size `bs`: as many as a one-block bitmap can track, at most
/// `MAX_BLOCKS_PER_GROUP`.
pub open spec fn new_blocks_per_group(bs: int) -> int {
    if bs * 8 < MAX_BLOCKS_PER_GROUP { bs * 8 } else { MAX_BLOCKS_PER_GROUP as int }
}

/// The inodes per group of a new filesystem (the heuristic of mke2fs, bounded by what a one-block bitmap tracks).
pub open spec fn new_inodes_per_group(bs: int) -> int {
    let heuristic = new_blocks_per_group(bs) * bs / (INODE_RATIO as int);
    if bs * 8 < heuristic { bs * 8 } else { heuristic }
}

/// 1 if the whole first block is padding, else 0.
pub open spec fn new_first_data_block(bs: int) -> int {
    if bs <= FIRST_BLOCK_PADDING { 1 } else { 0 }
}

pub open spec fn new_raw_block_count(fs_len: int, bs: int) -> int {
    fs_len / bs
}

pub open spec fn new_raw_data_block_count(fs_len: int, bs: int) -> int {
    let raw = new_raw_block_count(fs_len, bs);
    if raw >= new_first_data_block(bs) { raw - new_first_data_block(bs) } else { 0 }
}

/// The overhead of a block group with a superblock backup, computed from the untrimmed block count.
pub open spec fn new_backup_overhead(fs_len: int, bs: int) -> int {
    let groups = ceil_div(new_raw_block_count(fs_len, bs) - new_first_data_block(bs), new_blocks_per_group(bs));
    2 + ceil_div(new_inodes_per_group(bs) * INODE_SIZE, bs) + 1 + ceil_div(groups, bs / (DESC_SIZE_64BIT as int))
}

/// Whether the last, partial block group is dropped because it would have too few usable blocks.
pub open spec fn new_drops_last_group(fs_len: int, bs: int) -> bool {
    new_raw_data_block_count(fs_len, bs) % new_blocks_per_group(bs) < new_backup_overhead(fs_len, bs)
        + MIN_USABLE_BLOCKS_PER_GROUP
}

pub open spec fn new_block_count(fs_len: int, bs: int) -> int {
    if new_drops_last_group(fs_len, bs) {
        new_raw_block_count(fs_len, bs) - new_raw_data_block_count(fs_len, bs) % new_blocks_per_group(bs)
    } else {
        new_raw_block_count(fs_len, bs)
    }
}

pub open spec fn new_data_block_count(fs_len: int, bs: int) -> int {
    if new_drops_last_group(fs_len, bs) {
        new_raw_data_block_count(fs_len, bs) - new_raw_data_block_count(fs_len, bs) % new_blocks_per_group(bs)
    } else {
        new_raw_data_block_count(fs_len, bs)
    }
}

pub open spec fn new_block_group_count(fs_len: int, bs: int) -> int {
    ceil_div(new_data_block_count(fs_len, bs), new_blocks_per_group(bs))
}

/// Whether `bs` is a power of two.
pub open spec fn is_power_of_two(bs: int) -> bool {
    exists|k: nat| k < 32 && bs == pow2(k)
}

/// The error that making a superblock for a filesystem of `fs_len` bytes with block size `bs` fails with, if any.
pub open spec fn new_error(fs_len: int, bs: int) -> Option<ConvertError> {
    if bs < MIN_BLOCK_SIZE {
        Some(ConvertError::ClusterSizeTooSmall)
    } else if bs > MAX_BLOCK_SIZE {
        Some(ConvertError::ClusterSizeTooLarge)
    } else if !is_power_of_two(bs) {
        Some(ConvertError::NotPowerOfTwo)
    } else if new_data_block_count(fs_len, bs) == 0 {
        Some(ConvertError::FilesystemTooSmall)
    } else if new_block_group_count(fs_len, bs) > u32::MAX {
        Some(ConvertError::FilesystemTooLarge)
    } else if new_inodes_per_group(bs) * new_block_group_count(fs_len, bs) > u32::MAX {
        Some(ConvertError::TooManyInodes)
    } else if new_inodes_per_group(bs) * new_block_group_count(fs_len, bs) < FIRST_NON_RESERVED_INODE
        - FIRST_EXISTING_INODE {
        Some(ConvertError::TooFewInodes)
    } else {
        None
    }
}

/// The volume name field holding `label`, padded with zeros.
pub open spec fn volume_name_field(label: Seq<u8>) -> Seq<u8> {
    Seq::new(16, |i: int| if i < label.len() { label[i] } else { 0u8 })
}

fn volume_name_array(label: &[u8]) -> (r: [u8; 16])
    requires
        label@.len() <= VOLUME_NAME_LEN,
    ensures
        r@ == volume_name_field(label@),
{
    let n = label.len();
    let r = [
        if 0 < n { label[0] } else { 0 },
        if 1 < n { label[1] } else { 0 },
        if 2 < n { label[2] } else { 0 },
        if 3 < n { label[3] } else { 0 },
        if 4 < n { label[4] } else { 0 },
        if 5 < n { label[5] } else { 0 },
        if 6 < n { label[6] } else { 0 },
        if 7 < n { label[7] } else { 0 },
        if 8 < n { label[8] } else { 0 },
        if 9 < n { label[9] } else { 0 },
        if 10 < n { label[10] } else { 0 },
        if 11 < n { label[11] } else { 0 },
        if 12 < n { label[12] } else { 0 },
        if 13 < n { label[13] } else { 0 },
        if 14 < n { label[14] } else { 0 },
        if 15 < n { label[15] } else { 0 },
    ];
    assert(r@ =~= volume_name_field(label@));
    r
}

/// The blocks per group of a new filesystem with block size `block_size`.
fn new_blocks_per_group_of(block_size: BlockSize) -> (r: u32)
    requires
        MIN_BLOCK_SIZE <= block_size <= MAX_BLOCK_SIZE,
    ensures
        r == new_blocks_per_group(block_size as int),
        8192 <= r <= MAX_BLOCKS_PER_GROUP,
{
    let block_bitmap_size = block_size * 8;
    if block_bitmap_size < MAX_BLOCKS_PER_GROUP {
        block_bitmap_size
    } else {
        MAX_BLOCKS_PER_GROUP
    }
}

/// The inodes per group of a new filesystem with block size `block_size`.
fn new_inodes_per_group_of(block_size: BlockSize) -> (r: u32)
    requires
        MIN_BLOCK_SIZE <= block_size <= MAX_BLOCK_SIZE,
    ensures
        r == new_inodes_per_group(block_size as int),
{
    let blocks_per_group = new_blocks_per_group_of(block_size);
    let inode_bitmap_size = block_size * 8;
    proof {
        assert(blocks_per_group * block_size <= 65528 * 65536) by (nonlinear_arith)
            requires
                blocks_per_group <= 65528,
                block_size <= 65536,
        ;
    }
    let heuristic_inodes_per_group = blocks_per_group * block_size / INODE_RATIO;
    if inode_bitmap_size < heuristic_inodes_per_group {
        inode_bitmap_size
    } else {
        heuristic_inodes_per_group
    }
}

impl SuperBlock {
    /// The geometry fields that `new` sets before it fits the block count to the partition.
    pub open spec fn has_new_geometry(self, bs: int) -> bool {
        &&& self.s_log_block_size <= 6
        &&& self.spec_block_size() == bs
        &&& self.s_desc_size == DESC_SIZE_64BIT
        &&& self.s_inode_size == INODE_SIZE
        &&& self.s_reserved_gdt_blocks == 0
        &&& self.s_first_data_block == new_first_data_block(bs)
        &&& self.s_blocks_per_group == new_blocks_per_group(bs)
        &&& self.s_inodes_per_group == new_inodes_per_group(bs)
    }

    proof fn lemma_new_backup_overhead(self, fs_len: int, bs: int)
        requires
            self.has_new_geometry(bs),
            self.spec_block_count() == new_raw_block_count(fs_len, bs),
        ensures
            self.spec_block_group_overhead(HasSuperBlock::YesBackup) == new_backup_overhead(fs_len, bs),
    {
    }

    /// Sets the block count to what fits in `fs_len` bytes, leaving out a last block group that would have too few
    /// usable blocks, and returns the number of blocks that belong to block groups.
    fn fit_block_count(&mut self, fs_len: u64) -> (data_block_count: u64)
        requires
            old(self).has_new_geometry(old(self).spec_block_size()),
            FIRST_BLOCK_PADDING <= fs_len,
        ensures
            *final(self) == (SuperBlock {
                s_blocks_count_lo: final(self).s_blocks_count_lo,
                s_blocks_count_hi: final(self).s_blocks_count_hi,
                ..*old(self)
            }),
            final(self).spec_block_count() == new_block_count(fs_len as int, old(self).spec_block_size()),
            data_block_count == new_data_block_count(fs_len as int, old(self).spec_block_size()),
            data_block_count == final(self).spec_block_count_without_padding(),
    {
        let ghost bs = self.spec_block_size();
        proof {
            self.lemma_block_size();
        }
        let block_size = self.block_size();
        let mut block_count: u64 = fs_len / block_size as u64;
        let first_data_block = self.s_first_data_block as u64;
        proof {
            assert(block_count >= first_data_block) by (nonlinear_arith)
                requires
                    block_count as int == fs_len as int / block_size as int,
                    fs_len >= 1024,
                    block_size >= 1024,
                    first_data_block <= 1,
                    block_size > 1024 ==> first_data_block == 0,
            ;
        }
        let mut data_block_count: u64 = if block_count >= first_data_block { block_count - first_data_block } else { 0 };
        // set the intermediate value, from which the overhead of a group with a backup is computed
        let (lo, hi) = split_u32_u32(block_count);
        self.s_blocks_count_lo = lo;
        self.s_blocks_count_hi = hi;
        let last_group_block_count = data_block_count % self.s_blocks_per_group as u64;
        proof {
            self.lemma_new_backup_overhead(fs_len as int, bs);
            assert(last_group_block_count <= data_block_count) by (nonlinear_arith)
                requires
                    last_group_block_count == data_block_count % (self.s_blocks_per_group as u64),
                    self.s_blocks_per_group > 0,
            ;
        }
        // the overhead of a group with a superblock backup: block bitmap, inode bitmap, inode table, superblock and
        // group descriptor table (no blocks are reserved for it to grow)
        let group_count = div_ceil_u64(data_block_count, self.s_blocks_per_group as u64);
        let descriptors_per_block = (block_size as u64) / (self.s_desc_size as u64);
        proof {
            assert(descriptors_per_block >= 1) by (nonlinear_arith)
                requires
                    descriptors_per_block == (block_size as int) / (self.s_desc_size as int),
                    block_size >= 1024,
                    self.s_desc_size == 64,
            ;
            assert(group_count <= data_block_count) by (nonlinear_arith)
                requires
                    group_count == ceil_div(data_block_count as int, self.s_blocks_per_group as int),
                    self.s_blocks_per_group >= 1,
            ;
            assert(ceil_div(group_count as int, descriptors_per_block as int) <= group_count) by (nonlinear_arith)
                requires
                    descriptors_per_block >= 1,
                    group_count >= 0,
            ;
            assert(data_block_count <= fs_len / 1024) by (nonlinear_arith)
                requires
                    data_block_count <= block_count,
                    block_count as int == fs_len as int / block_size as int,
                    block_size >= 1024,
            ;
        }
        let gdt_block_count = div_ceil_u64(group_count, descriptors_per_block);
        let overhead = 2 + self.inode_table_block_count() + 1 + gdt_block_count;
        proof {
            assert(self.spec_block_group_count() == group_count);
            assert(self.spec_gdt_block_count() == gdt_block_count);
            assert(overhead == self.spec_block_group_overhead(HasSuperBlock::YesBackup));
        }
        if last_group_block_count < overhead + MIN_USABLE_BLOCKS_PER_GROUP {
            // exclude the last blocks of the partition from the filesystem
            block_count = block_count - last_group_block_count;
            data_block_count = data_block_count - last_group_block_count;
            let (lo, hi) = split_u32_u32(block_count);
            self.s_blocks_count_lo = lo;
            self.s_blocks_count_hi = hi;
        }
        data_block_count
    }

    /// The superblock describes the filesystem that `new` computes for a partition of `fs_len` bytes, block size `bs`,
    /// `volume_label`, `uuid` and `mkfs_time`.
    pub open spec fn is_new_superblock(self, fs_len: int, bs: int, volume_label: Seq<u8>, uuid: Seq<u8>, mkfs_time: int) -> bool {
        &&& self.wf()
        &&& self.spec_block_size() == bs
        &&& self.s_first_data_block == new_first_data_block(bs)
        &&& self.s_blocks_per_group == new_blocks_per_group(bs)
        &&& self.s_clusters_per_group == self.s_blocks_per_group
        &&& self.s_log_cluster_size == self.s_log_block_size
        &&& self.s_inodes_per_group == new_inodes_per_group(bs)
        &&& self.spec_block_count() == new_block_count(fs_len, bs)
        &&& self.spec_block_group_count() == new_block_group_count(fs_len, bs)
        &&& self.s_inodes_count == new_inodes_per_group(bs) * new_block_group_count(fs_len, bs)
        &&& self.s_backup_bgs@[0] == (if new_block_group_count(fs_len, bs) > 1 { 1int } else { 0 })
        &&& self.s_backup_bgs@[1] == (if new_block_group_count(fs_len, bs) > 2 { new_block_group_count(fs_len, bs) - 1 } else { 0 })
        &&& self.s_reserved_gdt_blocks == 0
        &&& self.s_uuid@ == uuid
        &&& self.s_mkfs_time == mkfs_time
        &&& self.s_volume_name@ == volume_name_field(volume_label)
        &&& self.s_magic == SUPERBLOCK_MAGIC
        &&& self.s_state == STATE_CLEANLY_UNMOUNTED
        &&& self.s_feature_compat == FEATURE_COMPAT_SPARSE_SUPER2
        &&& self.s_feature_incompat == FEATURE_INCOMPAT_64BIT | FEATURE_INCOMPAT_EXTENTS | FEATURE_INCOMPAT_LARGEDIR
        &&& self.s_feature_ro_compat == FEATURE_RO_COMPAT_LARGE_FILE | FEATURE_RO_COMPAT_HUGE_FILE | FEATURE_RO_COMPAT_DIR_NLINK
        &&& self.s_desc_size == DESC_SIZE_64BIT
        &&& self.s_inode_size == INODE_SIZE
        &&& self.s_rev_level == NEWEST_REVISION
        &&& self.s_errors == ERRORS_DEFAULT
        &&& self.s_first_ino == FIRST_NON_RESERVED_INODE
        &&& self.s_max_mnt_count == u16::MAX
        &&& self.s_free_blocks_count_lo == 0 && self.s_free_blocks_count_hi == 0
        &&& self.other_fields_zero()
    }

    /// `self` and `other` differ at most in their counts of free inodes and free blocks.
    pub open spec fn same_but_free_counts(self, other: SuperBlock) -> bool {
        SuperBlock {
            s_free_inodes_count: other.s_free_inodes_count,
            s_free_blocks_count_lo: other.s_free_blocks_count_lo,
            s_free_blocks_count_hi: other.s_free_blocks_count_hi,
            ..self
        } == other
    }

    /// The superblock is one that `new` computes for a partition of `fs_len` bytes, block size `bs` and
    /// `volume_label`, with the counts of free inodes and free blocks filled in.
    pub open spec fn is_converted_superblock(self, fs_len: int, bs: int, volume_label: Seq<u8>) -> bool {
        exists|initial: SuperBlock|
            {
                &&& #[trigger] initial.is_new_superblock(
                    fs_len,
                    bs,
                    volume_label,
                    initial.s_uuid@,
                    initial.s_mkfs_time as int,
                )
                &&& initial.same_but_free_counts(self)
            }
    }

    /// Computes the superblock of the ext4 filesystem that replaces a FAT filesystem of `fs_len` bytes with cluster
    /// size `block_size`, given the filesystem's UUID and creation time.
    pub fn new(fs_len: u64, block_size: BlockSize, volume_label: &[u8], uuid: [u8; 16], mkfs_time: u32) -> (r: Result<
        Self,
        ConvertError,
    >)
        requires
            volume_label@.len() <= VOLUME_NAME_LEN,
        ensures
            match r {
                Ok(sb) => new_error(fs_len as int, block_size as int) is None && sb.is_new_superblock(
                    fs_len as int,
                    block_size as int,
                    volume_label@,
                    uuid@,
                    mkfs_time as int,
                ),
                Err(e) => new_error(fs_len as int, block_size as int) == Some(e),
            },
    {
        let ghost bs = block_size as int;
        let mut sb = SuperBlock::zeroed();
        sb.init_constants();

        if block_size < MIN_BLOCK_SIZE {
            return Err(ConvertError::ClusterSizeTooSmall);
        } else if block_size > MAX_BLOCK_SIZE {
            return Err(ConvertError::ClusterSizeTooLarge);
        }
        let log_block_size = match exact_log2(block_size) {
            Ok(log) => log,
            Err(e) => {
                proof {
                    assert(!is_power_of_two(bs));
                }
                return Err(e);
            },
        };
        proof {
            assert(is_power_of_two(bs));
            vstd::arithmetic::power2::lemma2_to64();
            if log_block_size < 10 {
                vstd::arithmetic::power2::lemma_pow2_strictly_increases(log_block_size as nat, 10);
            }
            if log_block_size > 16 {
                vstd::arithmetic::power2::lemma_pow2_strictly_increases(16, log_block_size as nat);
            }
        }
        sb.s_log_block_size = log_block_size as u32 - BLOCK_SIZE_MIN_LOG2;
        proof {
            sb.lemma_block_size();
        }
        // `s_log_block_size` must have a value before this call
        sb.s_first_data_block = if sb.first_block_is_padding() { 1 } else { 0 };
        sb.s_blocks_per_group = new_blocks_per_group_of(block_size);

        sb.s_mkfs_time = mkfs_time;
        sb.s_uuid = uuid;
        sb.s_volume_name = volume_name_array(volume_label);

        // These two fields have to have these values even if bigalloc is disabled
        sb.s_log_cluster_size = sb.s_log_block_size;
        sb.s_clusters_per_group = sb.s_blocks_per_group;
        sb.s_inodes_per_group = new_inodes_per_group_of(block_size);

        if fs_len < FIRST_BLOCK_PADDING {
            // not even one block fits
            proof {
                assert(fs_len as int / bs == 0) by (nonlinear_arith)
                    requires
                        fs_len < 1024,
                        bs >= 1024,
                ;
                assert(new_raw_block_count(fs_len as int, bs) == 0);
                assert(new_raw_data_block_count(fs_len as int, bs) == 0);
                assert(0int % new_blocks_per_group(bs) == 0) by (nonlinear_arith)
                    requires
                        new_blocks_per_group(bs) > 0,
                ;
                assert(new_data_block_count(fs_len as int, bs) == 0);
            }
            return Err(ConvertError::FilesystemTooSmall);
        }
        let data_block_count = sb.fit_block_count(fs_len);
        if data_block_count == 0 {
            return Err(ConvertError::FilesystemTooSmall);
        }
        let block_group_count = div_ceil_u64(data_block_count, sb.s_blocks_per_group as u64);
        if block_group_count > u32::MAX as u64 {
            return Err(ConvertError::FilesystemTooLarge);
        }
        let block_group_count = block_group_count as BlockGroupCount;
        sb.s_inodes_count = match sb.s_inodes_per_group.checked_mul(block_group_count) {
            Some(count) => count,
            None => {
                return Err(ConvertError::TooManyInodes);
            },
        };
        if sb.s_inodes_count < FIRST_NON_RESERVED_INODE - FIRST_EXISTING_INODE {
            return Err(ConvertError::TooFewInodes);
        }

        if block_group_count > 1 {
            sb.s_backup_bgs = [1, if block_group_count > 2 { block_group_count - 1 } else { 0 }];
        }
        Ok(sb)
    }


    /// Two superblocks that `new` computes for the same partition size, block size and volume label have the same
    /// metadata blocks, whatever their UUIDs and creation times.
    pub proof fn lemma_new_superblocks_same_overhead(self, other: SuperBlock, fs_len: int, bs: int, volume_label: Seq<u8>, x: int)
        requires
            self.is_new_superblock(fs_len, bs, volume_label, self.s_uuid@, self.s_mkfs_time as int),
            other.is_new_superblock(fs_len, bs, volume_label, other.s_uuid@, other.s_mkfs_time as int),
        ensures
            self.is_overhead_block(x) == other.is_overhead_block(x),
    {
        assert forall|g: int| #[trigger] self.overhead_end(g) == other.overhead_end(g) && self.spec_block_group_start(g)
            == other.spec_block_group_start(g) by {
            assert(self.spec_has_superblock(g) == other.spec_has_superblock(g));
        }
        if self.is_overhead_block(x) && !(self.spec_first_block_is_padding() && x == 0) {
            let g = choose|g: int|
                0 <= g < self.spec_block_group_count() && self.spec_block_group_start(g) <= x && x < #[trigger] self.overhead_end(g);
            assert(other.overhead_end(g) == self.overhead_end(g));
        }
        if other.is_overhead_block(x) && !(other.spec_first_block_is_padding() && x == 0) {
            let g = choose|g: int|
                0 <= g < other.spec_block_group_count() && other.spec_block_group_start(g) <= x && x < #[trigger] other.overhead_end(g);
            assert(self.overhead_end(g) == other.overhead_end(g));
        }
    }

    /// Makes the superblock for the ext4 filesystem that replaces the FAT filesystem of `boot_sector`. FAT clusters
    /// become ext4 blocks, so the data section must be aligned to the cluster size.
    pub fn from(boot_sector: &BootSector, uuid: [u8; 16], mkfs_time: u32) -> (r: Result<Self, ConvertError>)
        requires
            boot_sector.wf(),
        ensures
            boot_sector.spec_first_data_byte() % boot_sector.spec_cluster_size() != 0 ==> r == Err::<Self, ConvertError>(
                ConvertError::UnalignedDataSection,
            ),
            boot_sector.spec_first_data_byte() % boot_sector.spec_cluster_size() == 0 ==> match r {
                Ok(sb) => new_error(boot_sector.spec_fs_size(), boot_sector.spec_cluster_size()) is None
                    && sb.is_new_superblock(
                    boot_sector.spec_fs_size(),
                    boot_sector.spec_cluster_size(),
                    boot_sector.spec_volume_label(),
                    uuid@,
                    mkfs_time as int,
                ),
                Err(e) => new_error(boot_sector.spec_fs_size(), boot_sector.spec_cluster_size()) == Some(e),
            },
    {
        proof {
            boot_sector.lemma_geometry();
        }
        if boot_sector.get_data_range().start % (boot_sector.cluster_size() as u64) != 0 {
            // FAT clusters are treated as ext4 blocks, which they can only be if they are aligned
            return Err(ConvertError::UnalignedDataSection);
        }
        let label = boot_sector.volume_label();
        Self::new(boot_sector.fs_size(), boot_sector.cluster_size(), label.as_slice(), uuid, mkfs_time)
    }

    /// A superblock that `new` computes is determined by the filesystem's size, block size and volume label up to
    /// the UUID and the creation time, which it takes from its arguments. So `from`, which computes the superblock
    /// that `new` computes from the boot sector's size, cluster size and volume label, gives a superblock that agrees
    /// with `new`'s in every field but those two.
    pub proof fn law_new_superblock_is_determined(
        a: SuperBlock,
        b: SuperBlock,
        fs_len: int,
        bs: int,
        volume_label: Seq<u8>,
        uuid_a: Seq<u8>,
        time_a: int,
        uuid_b: Seq<u8>,
        time_b: int,
    )
        requires
            a.is_new_superblock(fs_len, bs, volume_label, uuid_a, time_a),
            b.is_new_superblock(fs_len, bs, volume_label, uuid_b, time_b),
        ensures
            (SuperBlock { s_uuid: b.s_uuid, s_mkfs_time: b.s_mkfs_time, ..a }) == b,
    {
        let la = (a.s_log_block_size + BLOCK_SIZE_MIN_LOG2) as nat;
        let lb = (b.s_log_block_size + BLOCK_SIZE_MIN_LOG2) as nat;
        if la < lb {
            vstd::arithmetic::power2::lemma_pow2_strictly_increases(la, lb);
        } else if lb < la {
            vstd::arithmetic::power2::lemma_pow2_strictly_increases(lb, la);
        }
        assert(a.s_blocks_count_lo == b.s_blocks_count_lo && a.s_blocks_count_hi == b.s_blocks_count_hi) by (nonlinear_arith)
            requires
                a.s_blocks_count_hi * 0x1_0000_0000 + a.s_blocks_count_lo == b.s_blocks_count_hi * 0x1_0000_0000
                    + b.s_blocks_count_lo,
                a.s_blocks_count_lo < 0x1_0000_0000,
                b.s_blocks_count_lo < 0x1_0000_0000,
                a.s_blocks_count_hi >= 0,
                b.s_blocks_count_hi >= 0,
        ;
        assert(a.s_backup_bgs =~= b.s_backup_bgs);
        assert(a.s_volume_name =~= b.s_volume_name);
        assert(a.s_last_mounted =~= b.s_last_mounted);
        assert(a.s_journal_uuid =~= b.s_journal_uuid);
        assert(a.s_hash_seed =~= b.s_hash_seed);
        assert(a.s_jnl_blocks =~= b.s_jnl_blocks);
        assert(a.s_first_error_func =~= b.s_first_error_func);
        assert(a.s_last_error_func =~= b.s_last_error_func);
        assert(a.s_mount_opts =~= b.s_mount_opts);
        assert(a.s_encrypt_algos =~= b.s_encrypt_algos);
        assert(a.s_encrypt_pw_salt =~= b.s_encrypt_pw_salt);
        assert(a.s_reserved =~= b.s_reserved);
    }

    /// The end of the metadata blocks of block group `g`.
    pub open spec fn overhead_end(self, g: int) -> int {
        self.spec_block_group_start(g) + self.spec_block_group_overhead(self.spec_has_superblock(g))
    }

    /// Whether block `x` holds filesystem metadata, i.e. is the padding block or one of the blocks that
    /// `BlockGroup` occupies.
    pub open spec fn is_overhead_block(self, x: int) -> bool {
        ||| (self.spec_first_block_is_padding() && x == 0)
        ||| exists|g: int|
            0 <= g < self.spec_block_group_count() && self.spec_block_group_start(g) <= x && x < #[trigger] self.overhead_end(g)
    }

    /// The metadata blocks of block group `g`, as a range of block indices.
    pub open spec fn overhead_range(self, g: int) -> Range<u64> {
        Range { start: self.spec_block_group_start(g) as u64, end: self.overhead_end(g) as u64 }
    }

    /// The block ranges that hold filesystem metadata: the padding block if there is one, then the metadata blocks
    /// of every block group in order.
    pub open spec fn overhead_range_seq(self) -> Seq<Range<u64>> {
        let groups = Seq::new(self.spec_block_group_count() as nat, |g: int| self.overhead_range(g));
        if self.spec_first_block_is_padding() {
            seq![Range { start: 0u64, end: 1u64 }] + groups
        } else {
            groups
        }
    }

    /// Every block group starts before the last block.
    pub proof fn lemma_group_start_below_block_count(self, g: int)
        requires
            self.wf(),
            0 <= g < self.spec_block_group_count(),
        ensures
            self.s_first_data_block <= self.spec_block_group_start(g) < self.spec_block_count(),
    {
        let n = self.spec_block_count_without_padding();
        let d = self.s_blocks_per_group as int;
        assert(0 <= g * d) by (nonlinear_arith)
            requires
                0 <= g,
                0 < d,
        ;
        assert(g * d < n) by (nonlinear_arith)
            requires
                0 <= g < n / d + if n % d == 0 { 0int } else { 1int },
                0 < d,
                0 <= n,
        {
            assert(n == d * (n / d) + n % d);
            if n % d == 0 {
                assert(g <= n / d - 1);
                assert(g * d <= (n / d - 1) * d);
            } else {
                assert(g <= n / d);
                assert(g * d <= (n / d) * d);
            }
        }
        assert(self.spec_block_group_start(g) == d * g + self.s_first_data_block);
        assert(d * g == g * d) by (nonlinear_arith);
    }

    /// A block group has at least its two bitmaps as metadata.
    pub proof fn lemma_group_overhead_at_least_two(self, has_superblock: HasSuperBlock)
        requires
            self.wf(),
        ensures
            self.spec_block_group_overhead(has_superblock) >= 2,
    {
        self.lemma_block_size();
        let bs = self.spec_block_size();
        let n = self.s_inodes_per_group * self.s_inode_size;
        assert(n >= 0) by (nonlinear_arith)
            requires
                n == self.s_inodes_per_group * self.s_inode_size,
                self.s_inodes_per_group >= 0,
                self.s_inode_size >= 0,
        ;
        assert(ceil_div(n, bs) >= 0) by (nonlinear_arith)
            requires
                n >= 0,
                bs > 0,
        ;
        let per_block = bs / (self.s_desc_size as int);
        assert(per_block >= 1) by (nonlinear_arith)
            requires
                per_block == bs / (self.s_desc_size as int),
                0 < self.s_desc_size <= 1024,
                1024 <= bs,
        ;
        assert(self.spec_block_group_count() >= 0) by (nonlinear_arith)
            requires
                self.spec_block_count_without_padding() >= 0,
                self.s_blocks_per_group > 0,
                self.spec_block_group_count() == ceil_div(self.spec_block_count_without_padding(), self.s_blocks_per_group as int),
        ;
        assert(ceil_div(self.spec_block_group_count(), per_block) >= 0) by (nonlinear_arith)
            requires
                self.spec_block_group_count() >= 0,
                per_block >= 1,
        ;
    }

    /// The padding block, where there is one, is the first range of `overhead_range_seq`, and a range for every
    /// block group follows.
    pub proof fn lemma_overhead_range_seq_shape(self)
        requires
            self.wf(),
        ensures
            self.overhead_range_seq().len() == (if self.spec_first_block_is_padding() { 1int } else { 0int })
                + self.spec_block_group_count(),
            self.spec_first_block_is_padding() ==> self.overhead_range_seq()[0] == (Range { start: 0u64, end: 1u64 }),
    {
        assert(self.spec_block_group_count() >= 0) by (nonlinear_arith)
            requires
                self.spec_block_count_without_padding() >= 0,
                self.s_blocks_per_group > 0,
                self.spec_block_group_count() == ceil_div(self.spec_block_count_without_padding(), self.s_blocks_per_group as int),
        ;
        let groups = Seq::new(self.spec_block_group_count() as nat, |h: int| self.overhead_range(h));
        if self.spec_first_block_is_padding() {
            let first = seq![Range { start: 0u64, end: 1u64 }];
            assert(self.overhead_range_seq() == first + groups);
            assert((first + groups)[0] == first[0]);
        }
    }

    /// The range of group `g` in `overhead_range_seq` holds exactly its metadata blocks.
    pub proof fn lemma_overhead_range_seq_index(self, g: int)
        requires
            self.wf(),
            0 <= g < self.spec_block_group_count(),
            self.overhead_end(g) < 0x4_0000_0000_0000,
        ensures
            self.overhead_range_seq()[(if self.spec_first_block_is_padding() { 1int } else { 0int }) + g] == self.overhead_range(g),
            self.overhead_range(g).start == self.spec_block_group_start(g),
            self.overhead_range(g).end == self.overhead_end(g),
    {
        self.lemma_group_start_below_block_count(g);
        self.lemma_group_overhead_at_least_two(self.spec_has_superblock(g));
        assert(self.spec_block_count() < 0x1_0000_0000_0000_0000);
        let groups = Seq::new(self.spec_block_group_count() as nat, |h: int| self.overhead_range(h));
        assert(groups[g] == self.overhead_range(g));
        if self.spec_first_block_is_padding() {
            let first = seq![Range { start: 0u64, end: 1u64 }];
            assert(self.overhead_range_seq() == first + groups);
            assert((first + groups)[1 + g] == groups[g]);
        } else {
            assert(self.overhead_range_seq() == groups);
        }
    }

    /// A block lies in one of the ranges of `overhead_range_seq` exactly if it holds filesystem metadata.
    pub proof fn lemma_overhead_range_seq_covers(self, x: int)
        requires
            self.wf(),
            forall|g: int| 0 <= g < self.spec_block_group_count() ==> #[trigger] self.overhead_end(g) < 0x4_0000_0000_0000,
        ensures
            (exists|j: int|
                0 <= j < self.overhead_range_seq().len() && (#[trigger] self.overhead_range_seq()[j]).start <= x
                    && x < self.overhead_range_seq()[j].end) <==> self.is_overhead_block(x),
    {
        let s = self.overhead_range_seq();
        let base: int = if self.spec_first_block_is_padding() { 1 } else { 0 };
        self.lemma_overhead_range_seq_shape();
        assert forall|g: int| 0 <= g < self.spec_block_group_count() implies s[base + g].start == self.spec_block_group_start(g)
            && #[trigger] s[base + g].end == self.overhead_end(g) by {
            self.lemma_overhead_range_seq_index(g);
        }
        if exists|j: int| 0 <= j < s.len() && (#[trigger] s[j]).start <= x && x < s[j].end {
            let j = choose|j: int| 0 <= j < s.len() && (#[trigger] s[j]).start <= x && x < s[j].end;
            if j >= base {
                let g = j - base;
                assert(s[base + g].start == self.spec_block_group_start(g));
                assert(self.spec_block_group_start(g) <= x && x < self.overhead_end(g));
            }
        }
        if self.is_overhead_block(x) {
            if self.spec_first_block_is_padding() && x == 0 {
                assert(s[0].start <= x && x < s[0].end);
            } else {
                let g = choose|g: int|
                    0 <= g < self.spec_block_group_count() && self.spec_block_group_start(g) <= x && x
                        < #[trigger] self.overhead_end(g);
                assert(s[base + g].start <= x && x < s[base + g].end);
            }
        }
    }

    /// With at most `MAX_BLOCKS_PER_GROUP` blocks per group, as every superblock of `new` has, the block count
    /// stays below 2^48.
    pub proof fn lemma_block_count_bound(self)
        requires
            self.wf(),
            self.s_blocks_per_group <= MAX_BLOCKS_PER_GROUP,
        ensures
            self.spec_block_count() <= 0x1_0000_0000_0000,
    {
        let n = self.spec_block_count_without_padding();
        let d = self.s_blocks_per_group as int;
        let g = self.spec_block_group_count();
        assert(n <= g * d) by (nonlinear_arith)
            requires
                g == n / d + if n % d == 0 { 0int } else { 1int },
                d > 0,
                n >= 0,
        {
            assert(n == d * (n / d) + n % d);
        }
        assert(g * d <= 0xFFFF_FFFF * 65528) by (nonlinear_arith)
            requires
                0 <= g <= 0xFFFF_FFFF,
                0 < d <= 65528,
        ;
    }

    /// The block ranges that contain filesystem metadata, i.e. the ones that the fields of `BlockGroup` occupy:
    /// the padding block if there is one, then the metadata blocks of every block group in order.
    pub fn block_group_overhead_ranges(&self) -> (r: Vec<Range<BlockIdx>>)
        requires
            self.wf(),
            self.s_blocks_per_group <= MAX_BLOCKS_PER_GROUP,
        ensures
            r@ == self.overhead_range_seq(),
            forall|g: int| 0 <= g < self.spec_block_group_count() ==> #[trigger] self.overhead_end(g) < 0x4_0000_0000_0000,
    {
        proof {
            self.lemma_block_count_bound();
        }
        let mut overhead_ranges: Vec<Range<BlockIdx>> = Vec::new();
        let padding = self.first_block_is_padding();
        if padding {
            overhead_ranges.push(0..1);
        }
        let ghost base: int = if padding { 1 } else { 0 };
        let count = self.block_group_count();
        let mut block_group_idx: u32 = 0;
        while block_group_idx < count
            invariant
                self.wf(),
                self.spec_block_count() <= 0x1_0000_0000_0000,
                count == self.spec_block_group_count(),
                block_group_idx <= count,
                padding == self.spec_first_block_is_padding(),
                base == if padding { 1int } else { 0int },
                overhead_ranges@.len() == base + block_group_idx,
                forall|i: int| 0 <= i < overhead_ranges@.len() ==> #[trigger] overhead_ranges@[i] == self.overhead_range_seq()[i],
                forall|g: int| 0 <= g < block_group_idx ==> #[trigger] self.overhead_end(g) < 0x4_0000_0000_0000,
            decreases count - block_group_idx,
        {
            let has_sb_copy = self.block_group_has_superblock(block_group_idx);
            let overhead = self.block_group_overhead(has_sb_copy);
            let start_block_idx = self.block_group_start_block(block_group_idx);
            proof {
                self.lemma_group_start_below_block_count(block_group_idx as int);
                assert(start_block_idx + overhead == self.overhead_end(block_group_idx as int));
            }
            let ghost before = overhead_ranges@;
            overhead_ranges.push(start_block_idx..start_block_idx + overhead);
            proof {
                assert(self.overhead_range_seq()[base + block_group_idx] == self.overhead_range(block_group_idx as int));
                assert forall|i: int| 0 <= i < overhead_ranges@.len() implies #[trigger] overhead_ranges@[i]
                    == self.overhead_range_seq()[i] by {
                    if i < before.len() {
                        assert(overhead_ranges@[i] == before[i]);
                    }
                }
            }
            block_group_idx += 1;
        }
        proof {
            assert(overhead_ranges@ =~= self.overhead_range_seq());
        }
        overhead_ranges
    }
}

} // verus!
