use ofs_convert::ext4::extent::{ExtentTree, EXTENT_ELEMENT_SIZE, EXTENT_ENTRIES_IN_INODE};

/// The extent count and block count of an extent tree with `level_count` levels in which adding one more extent
/// would require adding another level.
fn perfect_extent_tree(level_count: u64, block_size: u32) -> (u64, u64) {
    assert!(level_count > 0);
    let extents_per_block = (block_size as u64 / EXTENT_ELEMENT_SIZE) - 1;
    assert!(extents_per_block > 1);
    let mut current_level_extent_count = EXTENT_ENTRIES_IN_INODE as u64 - 1;
    let mut current_level_block_count = 0; // inode
    for _current_level in 1..level_count {
        current_level_block_count += current_level_extent_count;
        current_level_extent_count *= extents_per_block;
    }
    (current_level_extent_count, current_level_block_count)
}

#[test]
fn inode_extents() {
    assert_eq!(ExtentTree::required_block_count(EXTENT_ENTRIES_IN_INODE as u64 - 1, 1024), 0,);
}

#[test]
fn full_four_levels() {
    const LEVEL_COUNT: u64 = 4;
    const BLOCK_SIZE: u32 = 4096;
    let (extent_count, block_count) = perfect_extent_tree(LEVEL_COUNT, BLOCK_SIZE);
    assert_eq!(ExtentTree::required_block_count(extent_count, BLOCK_SIZE), block_count,);
}

#[test]
fn full_four_levels_plus_one() {
    // compute extent and block counts of a full four-level tree first
    const LEVEL_COUNT: u64 = 4;
    const BLOCK_SIZE: u32 = 4096;
    let (mut extent_count, mut block_count) = perfect_extent_tree(LEVEL_COUNT, BLOCK_SIZE);

    // adding one extent makes the tree deeper (1 block) and adds one more path towards a leaf starting at the
    // second level (3 blocks)
    extent_count += 1;
    block_count += 1 + 3;
    assert_eq!(ExtentTree::required_block_count(extent_count, BLOCK_SIZE), block_count,);
}
