use std::ops::Range;
use vstd::prelude::*;
use crate::bytes::{le_u16, le_u32, read_u16, read_u32};
use crate::error::ConvertError;
use crate::ranges::ClusterIdx;

verus! {

/// The number of bytes of a FAT32 boot sector that are read.
pub const BOOT_SECTOR_SIZE: usize = 90;

/// The on-disk size of a FAT directory entry.
pub const DENTRY_SIZE: u32 = 32;

pub const EXT_BOOT_SIGNATURE_FAT32: u8 = 0x29;

/// The FAT32 boot sector (including the extended BIOS parameter block).
#[derive(Debug, Clone, Copy)]
pub struct BootSector {
    pub jump_instruction: [u8; 3],
    pub oem_name: [u8; 8],
    pub bytes_per_sector: u16,
    pub sectors_per_cluster: u8,
    pub sectors_before_fat: u16,
    pub fat_count: u8,
    pub dir_entries: u16,
    pub sector_count_1: u16,
    pub media_descriptor: u8,
    pub unused2: u16,
    pub sectors_per_disk_track: u16,
    pub disk_heads: u16,
    pub hidden_sectors_before_partition: u32,
    pub sector_count_2: u32,
    pub sectors_per_fat: u32,
    pub drive_description_flags: u16,
    pub version: u16,
    pub root_cluster_no: u32,
    pub fs_info_sector_no: u16,
    pub backup_boot_sector_no: u16,
    pub reserved: [u8; 12],
    pub physical_drive_no: u8,
    pub reserved2: u8,
    pub ext_boot_signature: u8,
    pub volume_id: u32,
    pub volume_label: [u8; 11],
    pub fs_type: [u8; 8],
}

/// The file system type that a FAT32 boot sector names.
pub open spec fn fs_type_fat32() -> Seq<u8> {
    seq![70u8, 65u8, 84u8, 51u8, 50u8, 32u8, 32u8, 32u8]
}

/// The index of the last character of `label` that is not a space, or 0 if there is none.
pub open spec fn last_non_space_idx(label: Seq<u8>) -> int
    decreases label.len(),
{
    if label.len() == 0 {
        0
    } else if label.last() != 32u8 {
        label.len() - 1
    } else {
        last_non_space_idx(label.drop_last())
    }
}

impl BootSector {
    /// Parses the first `BOOT_SECTOR_SIZE` bytes of a partition.
    pub fn from_bytes(b: &[u8]) -> (r: Self)
        requires
            b@.len() >= BOOT_SECTOR_SIZE,
        ensures
            r.is_read_from(b@),
    {
        let r = BootSector {
            jump_instruction: [b[0], b[1], b[2]],
            oem_name: [b[3], b[4], b[5], b[6], b[7], b[8], b[9], b[10]],
            bytes_per_sector: read_u16(b, 11),
            sectors_per_cluster: b[13],
            sectors_before_fat: read_u16(b, 14),
            fat_count: b[16],
            dir_entries: read_u16(b, 17),
            sector_count_1: read_u16(b, 19),
            media_descriptor: b[21],
            unused2: read_u16(b, 22),
            sectors_per_disk_track: read_u16(b, 24),
            disk_heads: read_u16(b, 26),
            hidden_sectors_before_partition: read_u32(b, 28),
            sector_count_2: read_u32(b, 32),
            sectors_per_fat: read_u32(b, 36),
            drive_description_flags: read_u16(b, 40),
            version: read_u16(b, 42),
            root_cluster_no: read_u32(b, 44),
            fs_info_sector_no: read_u16(b, 48),
            backup_boot_sector_no: read_u16(b, 50),
            reserved: [b[52], b[53], b[54], b[55], b[56], b[57], b[58], b[59], b[60], b[61], b[62], b[63]],
            physical_drive_no: b[64],
            reserved2: b[65],
            ext_boot_signature: b[66],
            volume_id: read_u32(b, 67),
            volume_label: [b[71], b[72], b[73], b[74], b[75], b[76], b[77], b[78], b[79], b[80], b[81]],
            fs_type: [b[82], b[83], b[84], b[85], b[86], b[87], b[88], b[89]],
        };
        assert(r.jump_instruction@ =~= b@.subrange(0, 3));
        assert(r.oem_name@ =~= b@.subrange(3, 11));
        assert(r.reserved@ =~= b@.subrange(52, 64));
        assert(r.volume_label@ =~= b@.subrange(71, 82));
        assert(r.fs_type@ =~= b@.subrange(82, 90));
        r
    }

    /// Every field holds the bytes at its offset in the boot sector bytes `b`, little-endian.
    pub open spec fn is_read_from(self, b: Seq<u8>) -> bool {
        &&& self.jump_instruction@ == b.subrange(0, 3)
        &&& self.oem_name@ == b.subrange(3, 11)
        &&& self.bytes_per_sector == le_u16(b, 11)
        &&& self.sectors_per_cluster == b[13]
        &&& self.sectors_before_fat == le_u16(b, 14)
        &&& self.fat_count == b[16]
        &&& self.dir_entries == le_u16(b, 17)
        &&& self.sector_count_1 == le_u16(b, 19)
        &&& self.media_descriptor == b[21]
        &&& self.unused2 == le_u16(b, 22)
        &&& self.sectors_per_disk_track == le_u16(b, 24)
        &&& self.disk_heads == le_u16(b, 26)
        &&& self.hidden_sectors_before_partition == le_u32(b, 28)
        &&& self.sector_count_2 == le_u32(b, 32)
        &&& self.sectors_per_fat == le_u32(b, 36)
        &&& self.drive_description_flags == le_u16(b, 40)
        &&& self.version == le_u16(b, 42)
        &&& self.root_cluster_no == le_u32(b, 44)
        &&& self.fs_info_sector_no == le_u16(b, 48)
        &&& self.backup_boot_sector_no == le_u16(b, 50)
        &&& self.reserved@ == b.subrange(52, 64)
        &&& self.physical_drive_no == b[64]
        &&& self.reserved2 == b[65]
        &&& self.ext_boot_signature == b[66]
        &&& self.volume_id == le_u32(b, 67)
        &&& self.volume_label@ == b.subrange(71, 82)
        &&& self.fs_type@ == b.subrange(82, 90)
    }

    /// The values that the geometry computations divide by are non-zero, and the first data sector fits into a
    /// `u32`.
    pub open spec fn wf(self) -> bool {
        &&& self.bytes_per_sector > 0
        &&& self.sectors_per_cluster > 0
        &&& self.spec_first_data_sector() <= u32::MAX
    }

    /// Checks `self.wf()`.
    pub fn has_valid_geometry(&self) -> (r: bool)
        ensures
            r == self.wf(),
    {
        proof {
            assert(self.sectors_per_fat * self.fat_count <= 0xFFFF_FFFF * 0xFF) by (nonlinear_arith);
        }
        self.bytes_per_sector > 0 && self.sectors_per_cluster > 0
            && (self.sectors_before_fat as u64) + (self.sectors_per_fat as u64) * (self.fat_count as u64)
            <= u32::MAX as u64
    }

    /// Performs a sanity check to see if this is indeed a FAT32 boot sector. Success does not guarantee that
    /// `self` is consistent with the partition it belongs to, only that this data was meant to be a boot sector.
    pub fn validate(&self) -> (r: Result<(), ConvertError>)
        ensures
            self.ext_boot_signature != EXT_BOOT_SIGNATURE_FAT32 ==> r == Err::<(), ConvertError>(
                ConvertError::UnexpectedBootSignature,
            ),
            self.ext_boot_signature == EXT_BOOT_SIGNATURE_FAT32 && self.fs_type@ != fs_type_fat32() ==> r == Err::<
                (),
                ConvertError,
            >(ConvertError::UnexpectedFileSystemType),
            r is Ok <==> (self.ext_boot_signature == EXT_BOOT_SIGNATURE_FAT32 && self.fs_type@ == fs_type_fat32()),
    {
        if self.ext_boot_signature != EXT_BOOT_SIGNATURE_FAT32 {
            return Err(ConvertError::UnexpectedBootSignature);
        }
        let expected: [u8; 8] = [70u8, 65u8, 84u8, 51u8, 50u8, 32u8, 32u8, 32u8];
        let mut i: usize = 0;
        while i < 8
            invariant
                i <= 8,
                self.ext_boot_signature == EXT_BOOT_SIGNATURE_FAT32,
                expected@ == fs_type_fat32(),
                forall|j: int| 0 <= j < i ==> self.fs_type@[j] == expected@[j],
            decreases 8 - i,
        {
            if self.fs_type[i] != expected[i] {
                proof {
                    assert(self.fs_type@[i as int] != fs_type_fat32()[i as int]);
                }
                return Err(ConvertError::UnexpectedFileSystemType);
            }
            i += 1;
        }
        assert(self.fs_type@ =~= fs_type_fat32());
        Ok(())
    }

    /// Bounds of the geometry of a boot sector whose divisors are non-zero.
    pub proof fn lemma_geometry(self)
        requires
            self.wf(),
        ensures
            0 < self.spec_cluster_size() <= 0xFF * 0xFFFF,
            0 <= self.spec_first_data_byte() <= 0xFFFF_FFFF * 0xFFFF,
            0 <= self.spec_fs_size() <= 0xFFFF * 0xFFFF_FFFF,
    {
        assert(0 < self.sectors_per_cluster * self.bytes_per_sector <= 0xFF * 0xFFFF) by (nonlinear_arith)
            requires
                0 < self.sectors_per_cluster <= 0xFF,
                0 < self.bytes_per_sector <= 0xFFFF,
        ;
        assert(0 <= self.spec_first_data_sector() * self.bytes_per_sector <= 0xFFFF_FFFF * 0xFFFF) by (nonlinear_arith)
            requires
                0 <= self.spec_first_data_sector() <= u32::MAX,
                0 < self.bytes_per_sector <= 0xFFFF,
        ;
        assert(0 <= self.bytes_per_sector * self.spec_sector_count() <= 0xFFFF * 0xFFFF_FFFF) by (nonlinear_arith)
            requires
                0 <= self.spec_sector_count() <= 0xFFFF_FFFF,
                0 < self.bytes_per_sector <= 0xFFFF,
        ;
    }

    pub open spec fn spec_first_data_sector(self) -> int {
        self.sectors_before_fat + self.sectors_per_fat * self.fat_count
    }

    pub open spec fn spec_cluster_size(self) -> int {
        self.sectors_per_cluster * self.bytes_per_sector
    }

    pub open spec fn spec_first_data_byte(self) -> int {
        self.spec_first_data_sector() * self.bytes_per_sector
    }

    pub open spec fn spec_sector_count(self) -> int {
        if self.sector_count_1 == 0 {
            self.sector_count_2 as int
        } else {
            self.sector_count_1 as int
        }
    }

    pub open spec fn spec_fs_size(self) -> int {
        self.bytes_per_sector * self.spec_sector_count()
    }

    /// Returns the range in bytes of the first FAT, relative to the filesystem start.
    pub fn get_fat_table_range(&self) -> (r: Range<u64>)
        ensures
            r.start == self.sectors_before_fat * self.bytes_per_sector,
            r.end == r.start + self.sectors_per_fat * self.bytes_per_sector,
    {
        proof {
            assert(self.sectors_before_fat * self.bytes_per_sector <= 0xFFFF * 0xFFFF) by (nonlinear_arith);
            assert(self.sectors_per_fat * self.bytes_per_sector <= 0xFFFF_FFFF * 0xFFFF) by (nonlinear_arith);
        }
        let fat_table_start_byte = (self.sectors_before_fat as u64) * (self.bytes_per_sector as u64);
        let fat_table_len = (self.sectors_per_fat as u64) * (self.bytes_per_sector as u64);
        fat_table_start_byte..fat_table_start_byte + fat_table_len
    }

    /// Returns the range in bytes of the data region, relative to the filesystem start.
    pub fn get_data_range(&self) -> (r: Range<u64>)
        requires
            self.wf(),
        ensures
            r.start == self.spec_first_data_byte(),
            r.end == self.spec_fs_size(),
    {
        proof {
            assert(self.spec_first_data_sector() * self.bytes_per_sector <= 0xFFFF_FFFF * 0xFFFF) by (nonlinear_arith)
                requires
                    self.spec_first_data_sector() <= u32::MAX,
                    self.bytes_per_sector <= 0xFFFF,
                    self.spec_first_data_sector() >= 0,
            ;
        }
        let first_data_byte = (self.first_data_sector() as u64) * (self.bytes_per_sector as u64);
        first_data_byte..self.fs_size()
    }

    fn first_data_sector(&self) -> (r: u32)
        requires
            self.wf(),
        ensures
            r == self.spec_first_data_sector(),
    {
        proof {
            assert(self.sectors_per_fat * self.fat_count <= 0xFFFF_FFFF * 0xFF) by (nonlinear_arith);
        }
        ((self.sectors_before_fat as u64) + (self.sectors_per_fat as u64) * (self.fat_count as u64)) as u32
    }

    pub fn first_data_cluster(&self) -> (r: ClusterIdx)
        requires
            self.wf(),
        ensures
            r == self.spec_first_data_sector() / (self.sectors_per_cluster as int),
    {
        self.first_data_sector() / (self.sectors_per_cluster as u32)
    }

    pub fn sector_count(&self) -> (r: u32)
        ensures
            r == self.spec_sector_count(),
    {
        if self.sector_count_1 == 0 {
            self.sector_count_2
        } else {
            self.sector_count_1 as u32
        }
    }

    pub fn cluster_count(&self) -> (r: u32)
        requires
            self.sectors_per_cluster > 0,
        ensures
            r == self.spec_sector_count() / (self.sectors_per_cluster as int),
    {
        self.sector_count() / (self.sectors_per_cluster as u32)
    }

    /// The size of the filesystem in bytes.
    pub fn fs_size(&self) -> (r: u64)
        ensures
            r == self.spec_fs_size(),
    {
        proof {
            assert(self.bytes_per_sector * self.spec_sector_count() <= 0xFFFF * 0xFFFF_FFFF) by (nonlinear_arith)
                requires
                    0 <= self.spec_sector_count() <= 0xFFFF_FFFF,
                    self.bytes_per_sector <= 0xFFFF,
            ;
        }
        (self.bytes_per_sector as u64) * (self.sector_count() as u64)
    }

    /// The size of a cluster in bytes.
    pub fn cluster_size(&self) -> (r: u32)
        ensures
            r == self.spec_cluster_size(),
    {
        proof {
            assert(self.sectors_per_cluster * self.bytes_per_sector <= 0xFF * 0xFFFF) by (nonlinear_arith);
        }
        (self.sectors_per_cluster as u32) * (self.bytes_per_sector as u32)
    }

    pub fn dentries_per_cluster(&self) -> (r: u32)
        ensures
            r == self.spec_cluster_size() / (DENTRY_SIZE as int),
    {
        self.cluster_size() / DENTRY_SIZE
    }

    pub open spec fn spec_volume_label(self) -> Seq<u8> {
        if self.ext_boot_signature == 0x28 {
            Seq::empty()
        } else {
            self.volume_label@.subrange(0, last_non_space_idx(self.volume_label@))
        }
    }

    /// The volume label up to (and excluding) its last non-space character; empty if the boot sector has no label
    /// field.
    pub fn volume_label(&self) -> (r: Vec<u8>)
        ensures
            r@ == self.spec_volume_label(),
            self.ext_boot_signature == 0x28 ==> r@.len() == 0,
            self.ext_boot_signature != 0x28 ==> r@ == self.volume_label@.subrange(0, last_non_space_idx(self.volume_label@)),
            r@.len() <= 11,
    {
        let mut r: Vec<u8> = Vec::new();
        if self.ext_boot_signature == 0x28 {
            return r;
        }
        let mut last: usize = 11;
        proof {
            assert(self.volume_label@.subrange(0, 11) =~= self.volume_label@);
        }
        while last > 0 && self.volume_label[last - 1] == 32u8
            invariant
                last <= 11,
                last_non_space_idx(self.volume_label@) == last_non_space_idx(self.volume_label@.subrange(0, last as int)),
            decreases last,
        {
            proof {
                assert(self.volume_label@.subrange(0, last as int).drop_last() =~= self.volume_label@.subrange(0, last - 1));
            }
            last -= 1;
        }
        let end = if last == 0 { 0 } else { last - 1 };
        let mut i: usize = 0;
        while i < end
            invariant
                i <= end,
                end <= 11,
                r@ == self.volume_label@.subrange(0, i as int),
            decreases end - i,
        {
            r.push(self.volume_label[i]);
            i += 1;
            assert(r@ =~= self.volume_label@.subrange(0, i as int));
        }
        r
    }
}

} // verus!
