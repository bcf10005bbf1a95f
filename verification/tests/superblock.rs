use ofs_convert::error::ConvertError;
use ofs_convert::ext4::superblock::{HasSuperBlock, SuperBlock, SUPERBLOCK_MAGIC};

fn label() -> Vec<u8> {
    b"TEST".to_vec()
}

#[test]
fn new_superblock_has_expected_geometry() {
    // 64 MiB with 1 KiB blocks: 65536 blocks, the first one padding, 8 groups of 8192 blocks
    let sb = SuperBlock::new(64 * 1024 * 1024, 1024, &label(), [7; 16], 1000).unwrap();
    assert_eq!(sb.s_magic, SUPERBLOCK_MAGIC);
    assert_eq!(sb.block_size(), 1024);
    assert_eq!(sb.s_first_data_block, 1);
    assert_eq!(sb.s_blocks_per_group, 8192);
    assert_eq!(sb.s_inodes_per_group, 512);
    assert_eq!(sb.block_count_with_padding(), 65536);
    assert_eq!(sb.block_count_without_padding(), 65535);
    assert_eq!(sb.block_group_count(), 8);
    assert_eq!(sb.s_inodes_count, 4096);
    assert_eq!(sb.s_backup_bgs, [1, 7]);
    assert_eq!(sb.backup_bgs(), vec![1, 7]);
    assert_eq!(sb.s_uuid, [7; 16]);
    assert_eq!(sb.s_mkfs_time, 1000);
    assert_eq!(&sb.s_volume_name[..4], b"TEST");
    assert_eq!(sb.s_volume_name[4..], [0; 12]);
    // block bitmap + inode bitmap + 128 inode table blocks, plus superblock and one GDT block for a copy
    assert_eq!(sb.inode_table_block_count(), 128);
    assert_eq!(sb.block_group_overhead(HasSuperBlock::No), 130);
    assert_eq!(sb.block_group_overhead(HasSuperBlock::YesBackup), 132);
    assert_eq!(sb.max_inode_no(), 4096);
    assert_eq!(sb.allocatable_inode_count(), 4086);
    assert_eq!(sb.free_inode_count(), 4086);
    assert_eq!(sb.start_byte_within_block(), 0);
    assert_eq!(sb.block_group_start_block(3), 3 * 8192 + 1);
    assert!(matches!(sb.block_group_has_superblock(0), HasSuperBlock::YesOriginal));
    assert!(matches!(sb.block_group_has_superblock(7), HasSuperBlock::YesBackup));
    assert!(matches!(sb.block_group_has_superblock(3), HasSuperBlock::No));
}

#[test]
fn new_superblock_with_large_blocks_has_no_padding_block() {
    let sb = SuperBlock::new(64 * 1024 * 1024, 4096, &label(), [0; 16], 0).unwrap();
    assert_eq!(sb.s_first_data_block, 0);
    assert!(!sb.first_block_is_padding());
    assert_eq!(sb.start_byte_within_block(), 1024);
    assert_eq!(sb.s_blocks_per_group, 32768);
    assert_eq!(sb.block_count_with_padding(), 16384);
    assert_eq!(sb.block_group_count(), 1);
    assert_eq!(sb.s_backup_bgs, [0, 0]);
    assert_eq!(sb.backup_bgs(), Vec::<u32>::new());
}

#[test]
fn new_superblock_drops_a_too_small_last_group() {
    // two full groups and 50 blocks, too few for the metadata of a third group
    let sb = SuperBlock::new(2 * 8192 * 1024 + 50 * 1024, 1024, &label(), [0; 16], 0).unwrap();
    assert_eq!(sb.block_count_with_padding(), 16385);
    assert_eq!(sb.block_group_count(), 2);
}

#[test]
fn new_superblock_rejects_bad_block_sizes() {
    assert!(matches!(SuperBlock::new(1 << 26, 512, &label(), [0; 16], 0), Err(ConvertError::ClusterSizeTooSmall)));
    assert!(matches!(SuperBlock::new(1 << 26, 1 << 17, &label(), [0; 16], 0), Err(ConvertError::ClusterSizeTooLarge)));
    assert!(matches!(SuperBlock::new(1 << 26, 3072, &label(), [0; 16], 0), Err(ConvertError::NotPowerOfTwo)));
}

#[test]
fn new_superblock_rejects_tiny_filesystems() {
    assert!(matches!(SuperBlock::new(100, 1024, &label(), [0; 16], 0), Err(ConvertError::FilesystemTooSmall)));
    assert!(matches!(SuperBlock::new(1024, 1024, &label(), [0; 16], 0), Err(ConvertError::FilesystemTooSmall)));
}

#[test]
fn new_superblock_takes_the_uuid_and_creation_time_it_is_given() {
    let sb = SuperBlock::new(64 * 1024 * 1024, 1024, &label(), [3; 16], 1_600_000_000).unwrap();
    assert_eq!(sb.block_group_count(), 8);
    assert_eq!(sb.s_mkfs_time, 1_600_000_000);
    assert_eq!(sb.s_uuid, [3; 16]);
}

#[test]
fn superblock_encodes_to_1024_bytes() {
    let sb = SuperBlock::new(64 * 1024 * 1024, 1024, &label(), [7; 16], 1000).unwrap();
    let bytes = sb.to_bytes();
    assert_eq!(bytes.len(), 1024);
    // s_magic at offset 56
    assert_eq!(u16::from_le_bytes([bytes[56], bytes[57]]), 0xEF53);
    // s_blocks_count_lo at offset 4
    assert_eq!(u32::from_le_bytes([bytes[4], bytes[5], bytes[6], bytes[7]]), 65536);
}

#[test]
fn overhead_ranges_cover_the_metadata_of_every_group() {
    let sb = SuperBlock::new(64 * 1024 * 1024, 1024, &label(), [7; 16], 1000).unwrap();
    let slice = sb.block_group_overhead_ranges();
    // the padding block, then the metadata of group 0, which has the superblock
    assert_eq!(slice[0], 0..1);
    assert_eq!(slice[1], 1..133);
    assert_eq!(slice[2], 8193..(8193 + 132));
    assert_eq!(slice[3], (2 * 8192 + 1)..(2 * 8192 + 1 + 130));
    assert_eq!(slice.len(), 9);
}

#[test]
fn free_block_count_is_split_into_halves() {
    let mut sb = SuperBlock::new(64 * 1024 * 1024, 1024, &label(), [7; 16], 1000).unwrap();
    sb.set_free_blocks_count(0x1_2345_6789);
    assert_eq!(sb.s_free_blocks_count_lo, 0x2345_6789);
    assert_eq!(sb.s_free_blocks_count_hi, 1);
}

#[test]
fn new_superblock_leaves_unset_fields_zero() {
    let sb = SuperBlock::new(64 * 1024 * 1024, 1024, &label(), [7; 16], 1000).unwrap();
    assert_eq!(sb.s_r_blocks_count_lo, 0);
    assert_eq!(sb.s_r_blocks_count_hi, 0);
    assert_eq!(sb.s_wtime, 0);
    assert_eq!(sb.s_first_meta_bg, 0);
    assert_eq!(sb.s_overhead_clusters, 0);
    assert_eq!(sb.s_free_inodes_count, 0);
    assert!(sb.s_reserved.iter().all(|&x| x == 0));
    assert!(sb.s_last_mounted.iter().all(|&x| x == 0));
}

#[test]
fn overhead_ranges_of_a_filesystem_without_padding_block() {
    let sb = SuperBlock::new(256 * 1024 * 1024, 4096, &label(), [7; 16], 1000).unwrap();
    let ranges = sb.block_group_overhead_ranges();
    assert_eq!(ranges.len() as u32, sb.block_group_count());
    assert_eq!(ranges[0].start, 0);
    assert_eq!(ranges[1].start, 32768);
}

#[test]
fn new_superblock_rejects_huge_filesystems() {
    assert_eq!(SuperBlock::new(u64::MAX, 1024, &label(), [7; 16], 1000).err(), Some(ConvertError::FilesystemTooLarge));
}

#[test]
fn new_superblock_rejects_a_filesystem_whose_only_group_is_too_small() {
    assert_eq!(SuperBlock::new(102400, 1024, b"", [7; 16], 1000).err(), Some(ConvertError::FilesystemTooSmall));
}
