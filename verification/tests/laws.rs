use ofs_convert::allocator::Allocator;
use ofs_convert::error::ConvertError;
use ofs_convert::ext4::extent::{Extent, ExtentTree};
use ofs_convert::ext4::identity::{mkfs_time_of, new_filesystem_identity};
use ofs_convert::ext4::superblock::SuperBlock;
use ofs_convert::ranges::Ranges;

#[test]
fn allocations_never_hand_out_a_cluster_twice() {
    let mut allocator = Allocator::new(32 * 1024, 1024, Ranges::from(vec![0..2, 5..7]));
    let mut seen: Vec<u32> = Vec::new();
    allocator.forbid(10..12);
    for length in [3u32, 1, 4, 2, 5] {
        let range = allocator.allocate(length).unwrap().into_range();
        for cluster in range {
            assert!(!seen.contains(&cluster));
            assert!(!(0..2).contains(&cluster) && !(5..7).contains(&cluster));
            assert!(!(10..12).contains(&cluster));
            seen.push(cluster);
        }
        let one = allocator.allocate_one().unwrap().as_cluster_idx();
        assert!(!seen.contains(&one));
        seen.push(one);
    }
}

#[test]
fn running_out_of_clusters_exhausts_the_allocator() {
    let mut allocator = Allocator::new(8 * 1024, 1024, Ranges::from(vec![0..6]));
    assert_eq!(allocator.allocate(8).unwrap().into_range(), 6..8);
    assert_eq!(allocator.free_block_count(), 0);
    assert!(matches!(allocator.allocate_one(), Err(ConvertError::NoFreeClusters)));
    assert_eq!(allocator.allocate(1).map(|r| r.into_range()), Err(ConvertError::NoFreeClusters));
}

#[test]
fn split_parts_share_no_cluster() {
    let mut allocator = Allocator::new(16 * 1024, 1024, Ranges::from(vec![0..2]));
    let first = allocator.allocate(3).unwrap().into_range();
    assert_eq!(first, 2..5);
    let partition = vec![7u8; 16 * 1024];
    let (reader, mut rest) = allocator.split_into_reader();
    for idx in 0..16u32 {
        let readable = reader.read_cluster(&partition, idx).is_some();
        assert_eq!(readable, idx < 5);
    }
    let later = rest.allocate(4).unwrap().into_range();
    assert_eq!(later, 5..9);
    assert!(reader.read_cluster(&partition, later.start).is_none());
}

#[test]
fn superblock_from_boot_sector_values_is_new_but_for_identity() {
    let label = b"LABEL";
    let a = SuperBlock::new(64 * 1024 * 1024, 4096, label, [1u8; 16], 100).unwrap();
    let b = SuperBlock::new(64 * 1024 * 1024, 4096, label, [2u8; 16], 200).unwrap();
    let mut b_with_a_identity = b;
    b_with_a_identity.s_uuid = a.s_uuid;
    b_with_a_identity.s_mkfs_time = a.s_mkfs_time;
    assert!(a.to_bytes() == b_with_a_identity.to_bytes());
    assert_eq!(b.s_uuid, [2u8; 16]);
    assert_eq!(b.s_mkfs_time, 200);
}

#[test]
fn extent_fitting_into_the_last_leaf_allocates_nothing() {
    let block_size: u64 = 1024;
    let mut allocator = Allocator::new(256 * block_size, block_size as usize, Ranges::from(vec![0..8]));
    let mut tree = ExtentTree::new(block_size as u32);
    for i in 0..4u64 {
        assert!(tree.add_extent(Extent::new(100 + 2 * i..101 + 2 * i, i as u32), &mut allocator).unwrap().is_empty());
    }
    // the root is full: the tree grows one level deeper and a leaf block is allocated
    let blocks = tree.add_extent(Extent::new(200..201, 4), &mut allocator).unwrap();
    assert_eq!(blocks.len(), 1);
    // the new leaf below the root has room: later extents allocate nothing
    for i in 0..10u64 {
        let extent = Extent::new(300 + 2 * i..301 + 2 * i, 5 + i as u32);
        assert!(tree.add_extent(extent, &mut allocator).unwrap().is_empty());
    }
}

#[test]
fn creation_time_must_fit_32_bits() {
    assert_eq!(mkfs_time_of(0), Ok(0));
    assert_eq!(mkfs_time_of(1_700_000_000), Ok(1_700_000_000));
    assert_eq!(mkfs_time_of(u32::MAX as i64), Ok(u32::MAX));
    assert_eq!(mkfs_time_of(u32::MAX as i64 + 1), Err(ConvertError::InvalidTimestamp));
    assert_eq!(mkfs_time_of(-1), Err(ConvertError::InvalidTimestamp));
}

#[test]
fn new_filesystem_identity_is_a_version_4_uuid() {
    let (uuid, mkfs_time) = new_filesystem_identity().unwrap();
    assert_eq!(uuid[6] >> 4, 4);
    assert_eq!(uuid[8] >> 6, 2);
    assert!(mkfs_time > 1_600_000_000);
    let (other, _) = new_filesystem_identity().unwrap();
    assert_ne!(uuid, other);
}
