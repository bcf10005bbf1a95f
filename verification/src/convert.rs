use std::ops::Range;
use vstd::prelude::*;
use crate::allocator::{changes_only_free, lemma_changes_only_free_trans};
use crate::error::{ConversionStage, ConvertError, ConvertFailure};
use crate::bytes::{le_u16, le_u32};
use crate::ext4::superblock::{new_error, SuperBlock, MAX_BLOCKS_PER_GROUP};
use crate::fat::boot_sector::{fs_type_fat32, BootSector, BOOT_SECTOR_SIZE, EXT_BOOT_SIGNATURE_FAT32};
use crate::fat::fs::{fat_cluster_in_use, fat_cluster_size, fat_fs_size, fat_layout_fits, fat_partition_readable, fat_volume_label, FatFs};
use crate::ranges::{ClusterIdx, Ranges};
use crate::serialization::fat_serializer::FatTreeSerializer;

verus! {

/// The clusters of the partition described by `superblock` that may not be overwritten with ext4 data: the ext4
/// metadata blocks and the clusters of a FAT filesystem of `cluster_count` clusters beyond the last ext4 block.
/// Block indices are cluster indices of the FAT filesystem, so this fails with `FilesystemTooLarge` where a
/// metadata block or the block count lies beyond the last index that a cluster can have.
pub fn forbidden_ranges(superblock: &SuperBlock, cluster_count: u32) -> (r: Result<Ranges, ConvertError>)
    requires
        superblock.wf(),
        superblock.s_blocks_per_group <= MAX_BLOCKS_PER_GROUP,
    ensures
        r matches Ok(ranges) ==> ranges.wf() && forall|x: int|
            ranges.covers(x) <==> (superblock.is_overhead_block(x) || (superblock.spec_block_count() <= x
                < cluster_count)),
        (superblock.spec_block_count() <= u32::MAX && forall|g: int|
            0 <= g < superblock.spec_block_group_count() ==> #[trigger] superblock.overhead_end(g) <= u32::MAX) <==> r is Ok,
        r matches Err(e) ==> e == ConvertError::FilesystemTooLarge,
{
    let overhead = superblock.block_group_overhead_ranges();
    let ghost s = superblock.overhead_range_seq();
    let ghost base: int = if superblock.spec_first_block_is_padding() { 1 } else { 0 };
    proof {
        assert forall|g: int| 0 <= g < superblock.spec_block_group_count() implies #[trigger] s[base + g].end
            == superblock.overhead_end(g) && superblock.overhead_range(g) == s[base + g] by {
            superblock.lemma_overhead_range_seq_index(g);
        }
        superblock.lemma_overhead_range_seq_shape();
    }
    let mut forbidden_ranges = Ranges::new();
    let mut i: usize = 0;
    while i < overhead.len()
        invariant
            superblock.wf(),
            overhead@ == s,
            s == superblock.overhead_range_seq(),
            base == if superblock.spec_first_block_is_padding() { 1int } else { 0int },
            s.len() == base + superblock.spec_block_group_count(),
            base == 1 ==> s[0] == (Range { start: 0u64, end: 1u64 }),
            forall|g: int| 0 <= g < superblock.spec_block_group_count() ==> #[trigger] s[base + g].end
                == superblock.overhead_end(g),
            forall|g: int| 0 <= g < superblock.spec_block_group_count() ==> #[trigger] superblock.overhead_end(g) < 0x4_0000_0000_0000,
            forall|g: int| 0 <= g < superblock.spec_block_group_count() ==> #[trigger] superblock.overhead_range(g) == s[base + g],
            i <= s.len(),
            forall|j: int| 0 <= j < i ==> (#[trigger] s[j]).end <= u32::MAX,
            forbidden_ranges.wf(),
            forall|x: int|
                forbidden_ranges.covers(x) <==> exists|j: int| 0 <= j < i && (#[trigger] s[j]).start <= x && x < s[j].end,
        decreases s.len() - i,
    {
        let range_start = overhead[i].start;
        let range_end = overhead[i].end;
        if range_end > u32::MAX as u64 {
            proof {
                assert(i >= base);
                let g = i - base;
                assert(s[base + g].end == superblock.overhead_end(g));
            }
            return Err(ConvertError::FilesystemTooLarge);
        }
        proof {
            if i >= base {
                let g = i - base;
                superblock.lemma_overhead_range_seq_index(g);
                superblock.lemma_group_overhead_at_least_two(superblock.spec_has_superblock(g));
            }
        }
        let ghost before = forbidden_ranges;
        forbidden_ranges.insert(range_start as u32..range_end as u32);
        proof {
            assert forall|x: int|
                forbidden_ranges.covers(x) <==> exists|j: int| 0 <= j < i + 1 && (#[trigger] s[j]).start <= x && x < s[j].end by {
                if exists|j: int| 0 <= j < i + 1 && (#[trigger] s[j]).start <= x && x < s[j].end {
                    let j = choose|j: int| 0 <= j < i + 1 && (#[trigger] s[j]).start <= x && x < s[j].end;
                    if j < i {
                        assert(before.covers(x));
                    }
                }
            }
        }
        i += 1;
    }
    proof {
        assert forall|x: int| forbidden_ranges.covers(x) <==> superblock.is_overhead_block(x) by {
            superblock.lemma_overhead_range_seq_covers(x);
        }
        assert forall|g: int| 0 <= g < superblock.spec_block_group_count() implies #[trigger] superblock.overhead_end(g)
            <= u32::MAX by {
            assert(s[base + g].end <= u32::MAX);
        }
    }
    let block_count = superblock.block_count_with_padding();
    if block_count > u32::MAX as u64 {
        // the ext4 block count is at most the FAT cluster count, so the index fits into a cluster index
        return Err(ConvertError::FilesystemTooLarge);
    }
    let last_ext_cluster_idx = block_count as ClusterIdx;
    if last_ext_cluster_idx < cluster_count {
        forbidden_ranges.insert(last_ext_cluster_idx..cluster_count);
    }
    Ok(forbidden_ranges)
}

/// Between `before` and `after`, no byte of a cluster that the FAT32 filesystem in `before` uses has changed: its
/// boot sector, its FATs and the clusters of its files are as they were.
pub open spec fn fat_data_intact(before: Seq<u8>, after: Seq<u8>) -> bool {
    &&& after.len() == before.len()
    &&& forall|b: int|
        0 <= b < before.len() && fat_cluster_in_use(before, b / fat_cluster_size(before)) ==> #[trigger] after[b]
            == before[b]
}

/// Changing only clusters outside `used`, where `used` covers every cluster that the FAT filesystem uses, leaves the
/// FAT data intact.
proof fn lemma_fat_data_intact(before: Seq<u8>, after: Seq<u8>, used: Ranges, cluster_size: int)
    requires
        changes_only_free(before, after, used, cluster_size),
        cluster_size == fat_cluster_size(before),
        forall|x: int| #[trigger] fat_cluster_in_use(before, x) ==> used.covers(x),
    ensures
        fat_data_intact(before, after),
{
    assert forall|b: int|
        0 <= b < before.len() && fat_cluster_in_use(before, b / fat_cluster_size(before)) implies #[trigger] after[b]
            == before[b] by {
        assert(used.covers(b / cluster_size));
    }
}

/// Every block index of the ext4 filesystem that `sb` describes, and so every metadata block, is an index that a
/// FAT cluster can have.
pub open spec fn block_indices_fit_clusters(sb: SuperBlock) -> bool {
    &&& sb.spec_block_count() <= u32::MAX
    &&& forall|g: int| 0 <= g < sb.spec_block_group_count() ==> #[trigger] sb.overhead_end(g) <= u32::MAX
}

/// The data region of the FAT filesystem in `p` starts at a multiple of its cluster size.
pub open spec fn fat_data_start_aligned(p: Seq<u8>) -> bool {
    ((le_u16(p, 14) + le_u32(p, 36) * p[16]) * le_u16(p, 11)) % fat_cluster_size(p) == 0
}

/// The conversion of the FAT32 filesystem in `p` into an ext4 filesystem with `uuid` and creation time `mkfs_time`
/// can be set up: the boot sector is a FAT32 one whose regions fit the partition, the FAT clusters can be ext4
/// blocks, an ext4 superblock exists for the filesystem, and its blocks have cluster indices.
pub open spec fn convert_setup_ok(p: Seq<u8>, uuid: Seq<u8>, mkfs_time: int) -> bool {
    &&& p.len() >= BOOT_SECTOR_SIZE
    &&& p[66] == EXT_BOOT_SIGNATURE_FAT32
    &&& p.subrange(82, 90) == fs_type_fat32()
    &&& fat_layout_fits(p)
    &&& fat_fs_size(p) / fat_cluster_size(p) <= u32::MAX
    &&& fat_data_start_aligned(p)
    &&& new_error(fat_fs_size(p), fat_cluster_size(p)) is None
    &&& forall|sb: SuperBlock|
        #[trigger] sb.is_new_superblock(fat_fs_size(p), fat_cluster_size(p), fat_volume_label(p), uuid, mkfs_time)
            ==> block_indices_fit_clusters(sb)
}

/// What the setup of a conversion checked, with a superblock `sb` that `new` computed for the filesystem and whose
/// blocks have cluster indices, makes the setup possible.
proof fn lemma_convert_setup_ok(p: Seq<u8>, uuid: Seq<u8>, mkfs_time: int, bs: BootSector, sb: SuperBlock)
    requires
        p.len() >= BOOT_SECTOR_SIZE,
        p[66] == EXT_BOOT_SIGNATURE_FAT32,
        p.subrange(82, 90) == fs_type_fat32(),
        fat_layout_fits(p),
        fat_fs_size(p) / fat_cluster_size(p) <= u32::MAX,
        bs.is_read_from(p),
        bs.spec_first_data_byte() % bs.spec_cluster_size() == 0,
        new_error(fat_fs_size(p), fat_cluster_size(p)) is None,
        sb.is_new_superblock(fat_fs_size(p), fat_cluster_size(p), fat_volume_label(p), uuid, mkfs_time),
        block_indices_fit_clusters(sb),
    ensures
        convert_setup_ok(p, uuid, mkfs_time),
{
    assert forall|other: SuperBlock|
        #[trigger] other.is_new_superblock(fat_fs_size(p), fat_cluster_size(p), fat_volume_label(p), uuid, mkfs_time)
            implies block_indices_fit_clusters(other) by {
        assert forall|g: int| 0 <= g < other.spec_block_group_count() implies #[trigger] other.overhead_end(g)
            <= u32::MAX by {
            assert(sb.spec_has_superblock(g) == other.spec_has_superblock(g));
            assert(sb.overhead_end(g) == other.overhead_end(g));
        }
    }
}

/// Converts the FAT32 filesystem in `partition` into an ext4 filesystem in place.
///
/// The directory tree is archived in free clusters first; data in clusters that the ext4 metadata will occupy is
/// copied elsewhere. A dry run then checks that the conversion will not run out of inodes or blocks. A failure up to
/// that point leaves the FAT filesystem as it was (a failure in setting up changes nothing at all); after it, the
/// ext4 filesystem is built.
pub fn convert(partition: &mut Vec<u8>, uuid: [u8; 16], mkfs_time: u32) -> (r: Result<(), ConvertFailure>)
    requires
        fat_partition_readable(old(partition)@),
    ensures
        final(partition)@.len() == old(partition)@.len(),
        r matches Err(f) && f.stage == ConversionStage::Setup ==> final(partition)@ == old(partition)@,
        (r matches Err(f) && f.stage == ConversionStage::Setup) <==> !convert_setup_ok(old(partition)@, uuid@, mkfs_time as int),
        r matches Err(f) && f.stage != ConversionStage::Conversion ==> fat_data_intact(
            old(partition)@,
            final(partition)@,
        ),
        old(partition)@.len() >= BOOT_SECTOR_SIZE && old(partition)@[66] != EXT_BOOT_SIGNATURE_FAT32 ==> r == Err::<
            (),
            ConvertFailure,
        >(ConvertFailure { stage: ConversionStage::Setup, error: ConvertError::UnexpectedBootSignature }),
        old(partition)@.len() >= BOOT_SECTOR_SIZE && old(partition)@[66] == EXT_BOOT_SIGNATURE_FAT32 && old(
            partition,
        )@.subrange(82, 90) != fs_type_fat32() ==> r == Err::<(), ConvertFailure>(
            ConvertFailure { stage: ConversionStage::Setup, error: ConvertError::UnexpectedFileSystemType },
        ),
        r is Ok ==> exists|sb: SuperBlock|
            {
                &&& sb.is_converted_superblock(
                    fat_fs_size(old(partition)@),
                    fat_cluster_size(old(partition)@),
                    fat_volume_label(old(partition)@),
                )
                &&& 1024 + sb.spec_bytes().len() <= final(partition)@.len()
                &&& #[trigger] final(partition)@.subrange(1024, 1024 + sb.spec_bytes().len() as int) == sb.spec_bytes()
            },
{
    let (fat_fs, mut allocator) = match FatFs::new_with_allocator(partition.as_slice()) {
        Ok(x) => x,
        Err(error) => return Err(ConvertFailure { stage: ConversionStage::Setup, error }),
    };
    let ghost initial = partition@;
    let boot_sector = *fat_fs.boot_sector();
    let cluster_size = fat_fs.cluster_size();
    let superblock = match SuperBlock::from(&boot_sector, uuid, mkfs_time) {
        Ok(x) => x,
        Err(error) => return Err(ConvertFailure { stage: ConversionStage::Setup, error }),
    };
    proof {
        boot_sector.lemma_geometry();
    }

    let forbidden = match forbidden_ranges(&superblock, fat_fs.cluster_count()) {
        Ok(x) => x,
        Err(error) => {
            proof {
                assert(!block_indices_fit_clusters(superblock));
            }
            return Err(ConvertFailure { stage: ConversionStage::Setup, error });
        },
    };
    proof {
        lemma_convert_setup_ok(initial, uuid@, mkfs_time as int, boot_sector, superblock);
    }
    let ghost fat_used = allocator.spec_used();
    let ranges = forbidden.as_slice();
    let mut i: usize = 0;
    while i < ranges.len()
        invariant
            i <= ranges@.len(),
            ranges@ == forbidden.spec_ranges(),
            forbidden.wf(),
            allocator.wf(),
            allocator.spec_cluster_size() == cluster_size,
            cluster_size == fat_fs.spec_boot_sector().spec_cluster_size(),
            forall|x: int| #[trigger] fat_used.covers(x) ==> allocator.spec_used().covers(x),
            forall|x: int|
                (exists|j: int| 0 <= j < i && (#[trigger] ranges@[j]).start <= x && x < ranges@[j].end)
                    ==> allocator.spec_used().covers(x),
        decreases ranges@.len() - i,
    {
        let range = ranges[i].start..ranges[i].end;
        let ghost before = allocator;
        allocator.forbid(range);
        proof {
            assert forall|x: int|
                (exists|j: int| 0 <= j < i + 1 && (#[trigger] ranges@[j]).start <= x && x < ranges@[j].end)
                    implies allocator.spec_used().covers(x) by {
                let j = choose|j: int| 0 <= j < i + 1 && (#[trigger] ranges@[j]).start <= x && x < ranges@[j].end;
                if j < i {
                    assert(before.spec_used().covers(x));
                }
            }
            assert forall|x: int| #[trigger] fat_used.covers(x) implies allocator.spec_used().covers(x) by {
                assert(before.spec_used().covers(x));
            }
        }
        i += 1;
    }
    proof {
        assert forall|x: int| #[trigger] forbidden.covers(x) implies allocator.spec_used().covers(x) by {
            let j = choose|j: int|
                0 <= j < forbidden.spec_ranges().len() && (#[trigger] forbidden.spec_ranges()[j]).start <= x && x
                    < forbidden.spec_ranges()[j].end;
            assert(ranges@[j].start <= x && x < ranges@[j].end);
        }
    }

    let ghost used = allocator.spec_used();
    proof {
        assert forall|x: int| #[trigger] fat_cluster_in_use(initial, x) implies used.covers(x) by {
            assert(fat_used.covers(x));
        }
    }
    let mut serializer = match FatTreeSerializer::new(allocator, fat_fs, forbidden) {
        Ok(x) => x,
        Err(error) => {
            // a superblock exists only for clusters of at least the minimum block size, which holds a page
            proof {
                assert(boot_sector.spec_cluster_size() >= 1024);
            }
            return Err(ConvertFailure { stage: ConversionStage::Setup, error });
        },
    };
    let serialized = serializer.serialize_directory_tree(partition);
    let ghost serialized_partition = partition@;
    if let Err(error) = serialized {
        proof {
            lemma_fat_data_intact(initial, partition@, used, cluster_size as int);
        }
        return Err(ConvertFailure { stage: ConversionStage::Serialization, error });
    }
    let file_count = serializer.file_count;
    let mut deserializer = match serializer.into_deserializer(partition, uuid, mkfs_time) {
        Ok(x) => x,
        Err(error) => {
            proof {
                lemma_changes_only_free_trans(initial, serialized_partition, partition@, used, cluster_size as int);
                lemma_fat_data_intact(initial, partition@, used, cluster_size as int);
            }
            return Err(ConvertFailure { stage: ConversionStage::DryRun, error });
        },
    };
    proof {
        // the clusters forbidden above cover the metadata blocks of the ext4 filesystem that the deserializer
        // builds, which has the geometry of `superblock`: so the archive still reads back, and what the
        // deserializer writes leaves the records that it has yet to read intact
        assert forall|x: int| #[trigger] deserializer.ext_fs.superblock.is_overhead_block(x) implies used.covers(x) by {
            superblock.lemma_new_superblocks_same_overhead(
                deserializer.ext_fs.superblock,
                boot_sector.spec_fs_size(),
                boot_sector.spec_cluster_size(),
                boot_sector.spec_volume_label(),
                x,
            );
            assert(forbidden.covers(x));
        }
        assert(deserializer.reader.holds(partition@));
        assert(deserializer.reads_safely());
    }
    let ghost initial_superblock = deserializer.ext_fs.superblock;
    match deserializer.deserialize_directory_tree(partition, file_count) {
        Ok(()) => {
            proof {
                let sb = deserializer.ext_fs.superblock;
                assert(initial_superblock.is_new_superblock(
                    fat_fs_size(initial),
                    fat_cluster_size(initial),
                    fat_volume_label(initial),
                    initial_superblock.s_uuid@,
                    initial_superblock.s_mkfs_time as int,
                ));
                assert(sb.is_converted_superblock(fat_fs_size(initial), fat_cluster_size(initial), fat_volume_label(initial)));
                assert(partition@.subrange(1024, 1024 + sb.spec_bytes().len() as int) == sb.spec_bytes());
            }
            Ok(())
        },
        Err(error) => Err(ConvertFailure { stage: ConversionStage::Conversion, error }),
    }
}

} // verus!
