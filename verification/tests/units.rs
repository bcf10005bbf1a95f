use ofs_convert::allocator::Allocator;
use ofs_convert::bitmap::Bitmap;
use ofs_convert::error::ConvertError;
use ofs_convert::ext4::dentry::{aligned_length, Ext4Dentry, MAX_DENTRY_LEN};
use ofs_convert::ext4::extent::{Extent, ExtentTree, EXTENT_MAX_LEN};
use ofs_convert::fat::time::fat_time_to_unix_time;
use ofs_convert::lohi::{join_u16_u16, join_u32_u16, join_u32_u32, split_u16_u16, split_u32_u16, split_u32_u32};
use ofs_convert::ranges::Ranges;
use ofs_convert::serialization::dry_run_deserializer::DryRunDirectoryWriter;
use ofs_convert::util::{checked_add, exact_log2};

#[test]
fn lohi_join_and_split() {
    assert_eq!(join_u32_u32(0xDEAD_BEEF, 0x1234_5678), 0x1234_5678_DEAD_BEEF);
    assert_eq!(split_u32_u32(0x1234_5678_DEAD_BEEF), (0xDEAD_BEEF, 0x1234_5678));
    assert_eq!(join_u32_u16(0xDEAD_BEEF, 0xABCD), 0xABCD_DEAD_BEEF);
    assert_eq!(split_u32_u16(0xABCD_DEAD_BEEF), (0xDEAD_BEEF, 0xABCD));
    assert_eq!(join_u16_u16(0xBEEF, 0xDEAD), 0xDEAD_BEEF);
    assert_eq!(split_u16_u16(0xDEAD_BEEF), (0xBEEF, 0xDEAD));
    let (lo, hi) = split_u32_u32(u64::MAX);
    assert_eq!(join_u32_u32(lo, hi), u64::MAX);
}

#[test]
fn bitmap_set_get_clear() {
    let mut bitmap = Bitmap::new(vec![0u8; 2]);
    assert_eq!(bitmap.len(), 16);
    bitmap.set(0);
    bitmap.set(9);
    assert!(bitmap.get(0));
    assert!(bitmap.get(9));
    assert!(!bitmap.get(8));
    assert_eq!(bitmap.as_bytes(), &[0b0000_0001, 0b0000_0010]);
    bitmap.clear(0);
    assert!(!bitmap.get(0));
    assert!(bitmap.get(9));
    bitmap.clear_all();
    assert_eq!(bitmap.as_bytes(), &[0, 0]);
}

#[test]
fn exact_log2_of_powers_and_others() {
    assert_eq!(exact_log2(1), Ok(0));
    assert_eq!(exact_log2(1024), Ok(10));
    assert_eq!(exact_log2(0x8000_0000), Ok(31));
    assert_eq!(exact_log2(0), Err(ConvertError::NotPowerOfTwo));
    assert_eq!(exact_log2(3), Err(ConvertError::NotPowerOfTwo));
    assert_eq!(exact_log2(u32::MAX), Err(ConvertError::NotPowerOfTwo));
}

#[test]
fn checked_add_detects_overflow() {
    assert_eq!(checked_add(1, 2), Some(3));
    assert_eq!(checked_add(u32::MAX - 1, 1), Some(u32::MAX));
    assert_eq!(checked_add(u32::MAX, 1), None);
    assert_eq!(checked_add(0, 1 << 40), None);
}

#[test]
fn fat_time_converts_to_unix_time() {
    // 2020-01-02
    let date: u16 = (40 << 9) | (1 << 5) | 2;
    assert_eq!(fat_time_to_unix_time(date, None), Some(1577923200));
    // 12:34:56
    let time: u16 = (12 << 11) | (34 << 5) | 28;
    assert_eq!(fat_time_to_unix_time(date, Some(time)), Some(1577968496));
    // 1980-01-01, the first FAT date
    assert_eq!(fat_time_to_unix_time((0 << 9) | (1 << 5) | 1, None), Some(315532800));
    // month 0 and day 0 are no dates
    assert_eq!(fat_time_to_unix_time(0, None), None);
    assert_eq!(fat_time_to_unix_time((1 << 5) | 0, None), None);
    // February 30th is no date
    assert_eq!(fat_time_to_unix_time((40 << 9) | (2 << 5) | 30, None), None);
}

#[test]
fn ext4_dentry_lengths() {
    assert_eq!(aligned_length(13, 4), 16);
    assert_eq!(aligned_length(16, 4), 16);
    let dentry = Ext4Dentry::new(11, b"file.txt".to_vec()).unwrap();
    assert_eq!(dentry.dentry_len(), 16);
    assert_eq!(dentry.to_bytes(), vec![11, 0, 0, 0, 16, 0, 8, 0, b'f', b'i', b'l', b'e', b'.', b't', b'x', b't']);
    let dentry = Ext4Dentry::new(12, b"abcde".to_vec()).unwrap();
    assert_eq!(dentry.serialize_name(), vec![b'a', b'b', b'c', b'd', b'e', 0, 0, 0]);
    assert_eq!(dentry.dentry_len(), 16);
    let longest = Ext4Dentry::new(13, vec![b'x'; 255]).unwrap();
    assert_eq!(longest.dentry_len() as usize, MAX_DENTRY_LEN);
    assert!(matches!(Ext4Dentry::new(14, vec![b'x'; 256]), Err(ConvertError::NameTooLong)));
}

#[test]
fn extents_from_ranges_are_cut_and_numbered() {
    let extents = Extent::from_ranges(vec![100..70100, 200000..200010]).unwrap();
    assert_eq!(extents.len(), 3);
    assert_eq!((extents[0].start(), extents[0].end(), extents[0].logical_start), (100, 100 + EXTENT_MAX_LEN, 0));
    assert_eq!((extents[1].start(), extents[1].end(), extents[1].logical_start), (65635, 70100, 65535));
    assert_eq!((extents[2].start(), extents[2].end(), extents[2].logical_start), (200000, 200010, 70000));
    assert_eq!(Extent::from_ranges(vec![]).unwrap().len(), 0);
}

#[test]
fn extents_from_ranges_fail_past_the_last_logical_block() {
    let huge = 0x1_0000_0001u64;
    assert!(matches!(Extent::from_ranges(vec![0..huge]), Err(ConvertError::FileTooLarge)));
}

#[test]
fn extent_tree_grows_a_level_when_the_inode_is_full() {
    let block_size = 1024u64;
    let mut allocator = Allocator::new(64 * block_size, block_size as usize, Ranges::from(vec![0..8]));
    let mut tree = ExtentTree::new(block_size as u32);
    for i in 0..4u64 {
        let blocks = tree.add_extent(Extent::new(100 + 2 * i..101 + 2 * i, i as u32), &mut allocator).unwrap();
        assert!(blocks.is_empty());
    }
    // the fifth extent no longer fits into the inode: a leaf block is allocated
    let blocks = tree.add_extent(Extent::new(200..201, 4), &mut allocator).unwrap();
    assert_eq!(blocks, vec![8]);
    let root = tree.root_bytes();
    // header: magic, one valid entry, depth 1
    assert_eq!(&root[0..2], &[0x0A, 0xF3]);
    assert_eq!(&root[2..4], &[1, 0]);
    assert_eq!(&root[6..8], &[1, 0]);
    let tree_blocks = tree.blocks(block_size as usize);
    assert_eq!(tree_blocks.len(), 1);
    assert_eq!(tree_blocks[0].0, 8);
    // the leaf holds all five extents
    assert_eq!(&tree_blocks[0].1[2..4], &[5, 0]);
}

#[test]
fn dry_run_writer_counts_dentry_blocks() {
    let mut writer = DryRunDirectoryWriter::new(1024);
    assert_eq!(writer.used_blocks(), 0);
    assert_eq!(writer.add_dot_dirs().unwrap(), 1);
    assert_eq!(writer.used_blocks(), 1);
    assert_eq!(writer.remaining_space(), 1024 - 24);
    let dentry = Ext4Dentry::new(20, vec![b'n'; 255]).unwrap();
    let mut added = 0;
    for _ in 0..3 {
        added += writer.add_dentry(&dentry).unwrap();
    }
    // three entries of 264 bytes still fit into the first block
    assert_eq!(added, 0);
    assert_eq!(writer.add_dentry(&dentry).unwrap(), 1);
    assert_eq!(writer.used_blocks(), 2);
}

#[test]
fn a_reversed_range_gives_an_empty_extent() {
    let extent = Extent::new(10..5, 3);
    assert_eq!(extent.len, 0);
    assert_eq!(extent.start(), 10);
}

#[test]
fn forbidding_a_reversed_range_forbids_nothing() {
    let block_size = 1024u64;
    let mut allocator = Allocator::new(16 * block_size, block_size as usize, Ranges::new());
    allocator.forbid(9..3);
    assert_eq!(allocator.free_block_count(), 16);
}

#[test]
fn extent_tree_with_too_few_free_blocks_fails_to_grow() {
    let block_size = 1024u64;
    // every block is used: the tree can take extents only while they fit into the inode
    let mut allocator = Allocator::new(16 * block_size, block_size as usize, Ranges::from(vec![0..16]));
    let mut tree = ExtentTree::new(block_size as u32);
    for i in 0..4u64 {
        assert!(tree.add_extent(Extent::new(100 + 2 * i..101 + 2 * i, i as u32), &mut allocator).unwrap().is_empty());
    }
    assert_eq!(tree.add_extent(Extent::new(200..201, 4), &mut allocator), Err(ConvertError::NoFreeClusters));
}
