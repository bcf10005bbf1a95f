use vstd::prelude::*;
use crate::fat::boot_sector::BootSector;
use crate::ranges::ClusterIdx;

verus! {

/// The index of the FAT entry of the root directory's first cluster.
pub const ROOT_FAT_IDX: u32 = 2;

/// The special value of a FAT entry that marks the end of a chain.
pub const FAT_END_OF_CHAIN: u32 = 0x0FFF_FFF8;

/// An index identifying a FAT entry.
#[derive(Debug, Clone, Copy, PartialEq, Eq, Structural)]
pub struct FatTableIndex(pub u32);

impl FatTableIndex {
    pub fn new(idx: u32) -> (r: Self)
        ensures
            r.0 == idx,
    {
        FatTableIndex(idx)
    }

    pub fn to_data_cluster_idx(self) -> (r: DataClusterIdx)
        requires
            self.0 >= ROOT_FAT_IDX,
        ensures
            r.0 == self.0 - ROOT_FAT_IDX,
    {
        DataClusterIdx::new(self.0 - ROOT_FAT_IDX)
    }

    /// The cluster index, counted from the start of the filesystem, of the data cluster that `self` refers to.
    pub open spec fn spec_cluster_idx(self, boot_sector: BootSector) -> int {
        boot_sector.spec_first_data_byte() / boot_sector.spec_cluster_size() + (self.0 - ROOT_FAT_IDX)
    }

    pub fn to_cluster_idx(self, boot_sector: &BootSector) -> (r: ClusterIdx)
        requires
            boot_sector.wf(),
            self.0 >= ROOT_FAT_IDX,
            self.spec_cluster_idx(*boot_sector) <= u32::MAX,
        ensures
            r == self.spec_cluster_idx(*boot_sector),
    {
        proof {
            boot_sector.lemma_geometry();
        }
        let data_start_byte_idx = boot_sector.get_data_range().start;
        let data_start_cluster_idx = data_start_byte_idx / (boot_sector.cluster_size() as u64);
        self.to_data_cluster_idx().0 + data_start_cluster_idx as u32
    }

    /// True if `self.0` is a special value representing the end of a FAT chain.
    pub fn is_chain_end(self) -> (r: bool)
        ensures
            r == (self.0 >= FAT_END_OF_CHAIN),
    {
        self.0 >= FAT_END_OF_CHAIN
    }

    /// True if `self.0` is a special value representing a file with no data.
    pub fn is_zero_length_file(self) -> (r: bool)
        ensures
            r == (self.0 == 0),
    {
        self.0 == 0
    }

    /// True if `self.0` is a special value representing a free cluster.
    pub open spec fn spec_is_free(self) -> bool {
        self.0 % 0x1000_0000 == 0
    }

    /// True if `self.0` is a special value representing a free cluster (the upper four bits are ignored).
    pub fn is_free(self) -> (r: bool)
        ensures
            r == self.spec_is_free(),
    {
        self.0 % 0x1000_0000 == 0
    }
}

/// An index identifying a cluster in the data section of the partition.
#[derive(Debug, Clone, Copy, PartialEq, Eq, Structural)]
pub struct DataClusterIdx(pub u32);

impl DataClusterIdx {
    pub fn new(idx: u32) -> (r: Self)
        ensures
            r.0 == idx,
    {
        DataClusterIdx(idx)
    }

    pub fn to_fat_index(self) -> (r: FatTableIndex)
        requires
            self.0 + ROOT_FAT_IDX <= u32::MAX,
        ensures
            r.0 == self.0 + ROOT_FAT_IDX,
    {
        FatTableIndex::new(self.0 + ROOT_FAT_IDX)
    }

    /// The bytes of the index in the platform's (little-endian) byte order.
    pub fn to_ne_bytes(self) -> (r: [u8; 4])
        ensures
            r@ == crate::bytes::u32_bytes(self.0),
    {
        let x = self.0;
        let r = [(x % 256) as u8, ((x / 256) % 256) as u8, ((x / 65536) % 256) as u8, (x / 16777216) as u8];
        assert(r@ =~= crate::bytes::u32_bytes(self.0));
        r
    }
}

} // verus!
