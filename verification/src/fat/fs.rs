use std::ops::Range;
use vstd::prelude::*;
use crate::bytes::{copy_out, le_u16, le_u32, read_u32};
use crate::error::ConvertError;
use crate::fat::boot_sector::{fs_type_fat32, last_non_space_idx, BootSector, BOOT_SECTOR_SIZE, EXT_BOOT_SIGNATURE_FAT32};
use crate::fat::table_index::{DataClusterIdx, FatTableIndex, FAT_END_OF_CHAIN, ROOT_FAT_IDX};
use crate::ranges::{ClusterIdx, Ranges};

verus! {

broadcast use vstd::std_specs::control_flow::group_control_flow_axioms;

/// A maximal run of consecutive data clusters of a file, `first..=last`.
#[derive(Debug, Clone, Copy, PartialEq, Eq, Structural)]
pub struct DataClusterRange {
    pub first: DataClusterIdx,
    pub last: DataClusterIdx,
}

/// Whether `idx` ends a FAT chain: the end-of-chain marker, or the marker of a file without data.
pub open spec fn is_chain_stop(idx: FatTableIndex) -> bool {
    idx.0 >= FAT_END_OF_CHAIN || idx.0 == 0
}

/// Whether following the FAT chain from `idx` reaches its end within `fuel` steps, every visited entry being a
/// data cluster entry inside the table.
pub open spec fn chain_ok(table: Seq<FatTableIndex>, idx: FatTableIndex, fuel: nat) -> bool
    decreases fuel,
{
    if is_chain_stop(idx) {
        true
    } else if fuel == 0 {
        false
    } else {
        &&& ROOT_FAT_IDX <= idx.0 < table.len()
        &&& chain_ok(table, table[idx.0 as int], (fuel - 1) as nat)
    }
}

/// The FAT entries visited when following the chain from `idx` (at most `fuel` of them).
pub open spec fn chain(table: Seq<FatTableIndex>, idx: FatTableIndex, fuel: nat) -> Seq<u32>
    decreases fuel,
{
    if is_chain_stop(idx) || fuel == 0 || !(0 <= idx.0 < table.len()) {
        Seq::empty()
    } else {
        seq![idx.0].add(chain(table, table[idx.0 as int], (fuel - 1) as nat))
    }
}

/// The data cluster indices that a list of ranges stands for, in order; a reversed range stands for none.
pub open spec fn expand_ranges(ranges: Seq<DataClusterRange>) -> Seq<u32>
    decreases ranges.len(),
{
    if ranges.len() == 0 {
        Seq::empty()
    } else if ranges.last().first.0 <= ranges.last().last.0 {
        expand_ranges(ranges.drop_last()) + Seq::new(
            (ranges.last().last.0 - ranges.last().first.0 + 1) as nat,
            |i: int| (ranges.last().first.0 + i) as u32,
        )
    } else {
        expand_ranges(ranges.drop_last())
    }
}

/// The ranges are well formed and maximal: no range is adjacent to the next one.
pub open spec fn ranges_maximal(ranges: Seq<DataClusterRange>) -> bool {
    &&& forall|i: int| 0 <= i < ranges.len() ==> (#[trigger] ranges[i]).first.0 <= ranges[i].last.0
    &&& forall|i: int| 0 <= i < ranges.len() - 1 ==> (#[trigger] ranges[i]).last.0 + 1 != ranges[i + 1].first.0
}

/// The cluster size of the FAT32 filesystem in the partition bytes `p`, as its boot sector gives it.
pub open spec fn fat_cluster_size(p: Seq<u8>) -> int {
    p[13] * le_u16(p, 11)
}

/// The size in bytes of the FAT32 filesystem in `p`: its sector size times its sector count (the 16-bit count,
/// or the 32-bit one where the 16-bit count is zero).
pub open spec fn fat_fs_size(p: Seq<u8>) -> int {
    le_u16(p, 11) * (if le_u16(p, 19) == 0 { le_u32(p, 32) } else { le_u16(p, 19) })
}

/// The volume label of the FAT32 filesystem in `p` as the conversion takes it over: the label field up to (and
/// excluding) its last non-space character, or nothing where the boot sector has no label field.
pub open spec fn fat_volume_label(p: Seq<u8>) -> Seq<u8> {
    if p[66] == 0x28 {
        Seq::empty()
    } else {
        p.subrange(71, 82).subrange(0, last_non_space_idx(p.subrange(71, 82)))
    }
}

/// The index of the cluster at which the data region of the FAT32 filesystem in `p` starts.
pub open spec fn fat_first_data_cluster(p: Seq<u8>) -> int {
    (le_u16(p, 14) + le_u32(p, 36) * p[16]) / (p[13] as int)
}

/// The number of entries of the first FAT of the filesystem in `p`.
pub open spec fn fat_entry_count(p: Seq<u8>) -> int {
    le_u32(p, 36) * le_u16(p, 11) / 4
}

/// Entry `i` of the first FAT of the filesystem in `p`.
pub open spec fn fat_entry(p: Seq<u8>, i: int) -> int {
    le_u32(p, le_u16(p, 14) * le_u16(p, 11) + 4 * i)
}

/// Whether cluster `x` of the FAT32 filesystem in `p` is in use: it lies before the data region (boot sector and
/// FATs), or the FAT entry of the data cluster at `x` is not free.
pub open spec fn fat_cluster_in_use(p: Seq<u8>, x: int) -> bool {
    ||| 0 <= x < fat_first_data_cluster(p)
    ||| exists|i: int|
        ROOT_FAT_IDX <= i < fat_entry_count(p) && #[trigger] fat_entry(p, i) % 0x1000_0000 != 0 && x
            == fat_first_data_cluster(p) + (i - ROOT_FAT_IDX)
}

/// The regions that the boot sector in `p` describes lie in order inside the partition: the first FAT after the
/// boot sector and inside the partition, the data region after the FAT and inside the partition. A FAT32 partition
/// that breaks this is inconsistent, and reading it is refused.
pub open spec fn fat_regions_in_order(p: Seq<u8>) -> bool {
    let bytes_per_sector = le_u16(p, 11);
    let fat_start = le_u16(p, 14) * bytes_per_sector;
    let fat_end = fat_start + le_u32(p, 36) * bytes_per_sector;
    let data_start = (le_u16(p, 14) + le_u32(p, 36) * p[16]) * bytes_per_sector;
    let data_end = bytes_per_sector * (if le_u16(p, 19) == 0 { le_u32(p, 32) } else { le_u16(p, 19) });
    &&& BOOT_SECTOR_SIZE < fat_start
    &&& fat_end <= p.len()
    &&& fat_end < data_start
    &&& data_end <= p.len()
}

/// Whether a FAT32 filesystem can be read from `p`: `p` holds a boot sector, and if that is a FAT32 one, its regions
/// lie in order inside `p`.
pub open spec fn fat_partition_readable(p: Seq<u8>) -> bool {
    &&& p.len() >= BOOT_SECTOR_SIZE
    &&& p[66] == EXT_BOOT_SIGNATURE_FAT32 && p.subrange(82, 90) == fs_type_fat32() ==> fat_regions_in_order(p)
}

/// Checks `fat_partition_readable`, so that a caller can refuse a partition that `FatFs::new` may not be given.
pub fn is_fat_partition_readable(partition: &[u8]) -> (r: bool)
    ensures
        r == fat_partition_readable(partition@),
{
    if partition.len() < BOOT_SECTOR_SIZE {
        return false;
    }
    let boot_sector = BootSector::from_bytes(partition);
    if boot_sector.validate().is_err() {
        return true;
    }
    proof {
        assert(partition@.subrange(82, 90) == boot_sector.fs_type@);
    }
    let fat_table_range = boot_sector.get_fat_table_range();
    proof {
        assert(boot_sector.sectors_per_fat * boot_sector.fat_count <= 0xFFFF_FFFF * 0xFF) by (nonlinear_arith);
        assert((boot_sector.sectors_before_fat + boot_sector.sectors_per_fat * boot_sector.fat_count)
            * boot_sector.bytes_per_sector <= (0xFFFF + 0xFFFF_FFFF * 0xFF) * 0xFFFF) by (nonlinear_arith)
            requires
                boot_sector.sectors_per_fat * boot_sector.fat_count <= 0xFFFF_FFFF * 0xFF,
        ;
        assert(boot_sector.bytes_per_sector * boot_sector.spec_sector_count() <= 0xFFFF * 0xFFFF_FFFF) by (nonlinear_arith)
            requires
                boot_sector.spec_sector_count() <= 0xFFFF_FFFF,
        ;
    }
    let data_start = ((boot_sector.sectors_before_fat as u64) + (boot_sector.sectors_per_fat as u64)
        * (boot_sector.fat_count as u64)) * (boot_sector.bytes_per_sector as u64);
    let data_end = (boot_sector.bytes_per_sector as u64) * (boot_sector.sector_count() as u64);
    let plen = partition.len() as u64;
    (BOOT_SECTOR_SIZE as u64) < fat_table_range.start && fat_table_range.end <= plen
        && fat_table_range.end < data_start && data_end <= plen
}

/// The regions that the boot sector in `p` describes fit the partition `p` and each other: the geometry is valid,
/// the first FAT lies after the boot sector and inside the partition and holds whole entries, at least the reserved
/// ones, the data region lies after the FAT and inside the partition, and every cluster index fits into a
/// `ClusterIdx`.
pub open spec fn fat_layout_fits(p: Seq<u8>) -> bool {
    let bytes_per_sector = le_u16(p, 11);
    let sectors_per_cluster = p[13] as int;
    let first_data_sector = le_u16(p, 14) + le_u32(p, 36) * p[16];
    let fat_start = le_u16(p, 14) * bytes_per_sector;
    let fat_end = fat_start + le_u32(p, 36) * bytes_per_sector;
    let data_start = first_data_sector * bytes_per_sector;
    let data_end = bytes_per_sector * (if le_u16(p, 19) == 0 { le_u32(p, 32) } else { le_u16(p, 19) });
    &&& bytes_per_sector > 0
    &&& sectors_per_cluster > 0
    &&& first_data_sector <= u32::MAX
    &&& BOOT_SECTOR_SIZE < fat_start
    &&& fat_end <= p.len()
    &&& (fat_end - fat_start) % 4 == 0
    &&& fat_end < data_start
    &&& data_start <= data_end <= p.len()
    &&& (fat_end - fat_start) / 4 >= ROOT_FAT_IDX
    &&& data_start / (sectors_per_cluster * bytes_per_sector) + (fat_end - fat_start) / 4 <= u32::MAX
}

/// A FAT32 filesystem: its boot sector, its (first) file allocation table, and where its data region lies in the
/// partition. The data of the partition itself is passed to the methods that read it.
pub struct FatFs {
    boot_sector: BootSector,
    fat_table: Vec<FatTableIndex>,
    data_start: u64,
    data_len: u64,
}

impl FatFs {
    pub closed spec fn spec_boot_sector(&self) -> BootSector {
        self.boot_sector
    }

    pub closed spec fn spec_fat_table(&self) -> Seq<FatTableIndex> {
        self.fat_table@
    }

    pub closed spec fn spec_data_start(&self) -> int {
        self.data_start as int
    }

    pub closed spec fn spec_data_len(&self) -> int {
        self.data_len as int
    }

    /// The geometry is valid, the data region follows the FAT, and every cluster index of the filesystem fits into a
    /// `ClusterIdx`.
    pub open spec fn wf(&self) -> bool {
        &&& self.spec_boot_sector().wf()
        &&& self.spec_data_start() == self.spec_boot_sector().spec_first_data_byte()
        &&& self.spec_data_start() + self.spec_data_len() == self.spec_boot_sector().spec_fs_size()
        &&& self.spec_boot_sector().spec_first_data_byte() / self.spec_boot_sector().spec_cluster_size()
            + self.spec_fat_table().len() <= u32::MAX
        &&& self.spec_fat_table().len() >= ROOT_FAT_IDX
    }

    /// Reads the filesystem described by the partition's boot sector. Fails if the boot sector is not a FAT32 one
    /// or if the regions it describes do not fit the partition and each other.
    pub fn new(partition: &[u8]) -> (r: Result<Self, ConvertError>)
        requires
            fat_partition_readable(partition@),
        ensures
            r matches Ok(fs) ==> {
                &&& fs.wf()
                &&& fs.spec_boot_sector().is_read_from(partition@)
                &&& fs.spec_data_start() + fs.spec_data_len() <= partition@.len()
                &&& fs.spec_fat_table().len() == fs.spec_boot_sector().sectors_per_fat
                    * fs.spec_boot_sector().bytes_per_sector / 4
                &&& forall|i: int|
                    0 <= i < fs.spec_fat_table().len() ==> (#[trigger] fs.spec_fat_table()[i]).0 == le_u32(
                        partition@,
                        fs.spec_boot_sector().sectors_before_fat * fs.spec_boot_sector().bytes_per_sector + 4 * i,
                    )
                &&& fs.spec_boot_sector().spec_cluster_size() == fat_cluster_size(partition@)
                &&& fs.spec_boot_sector().spec_fs_size() == fat_fs_size(partition@)
                &&& fs.spec_boot_sector().spec_volume_label() == fat_volume_label(partition@)
                &&& forall|x: int| fs.used_ranges_spec(x) == fat_cluster_in_use(partition@, x)
            },
            partition@.len() >= BOOT_SECTOR_SIZE && partition@[66] != EXT_BOOT_SIGNATURE_FAT32 ==> r == Err::<
                Self,
                ConvertError,
            >(ConvertError::UnexpectedBootSignature),
            partition@.len() >= BOOT_SECTOR_SIZE && partition@[66] == EXT_BOOT_SIGNATURE_FAT32 && partition@.subrange(
                82,
                90,
            ) != fs_type_fat32() ==> r == Err::<Self, ConvertError>(ConvertError::UnexpectedFileSystemType),
            partition@.len() >= BOOT_SECTOR_SIZE && partition@[66] == EXT_BOOT_SIGNATURE_FAT32 && partition@.subrange(
                82,
                90,
            ) == fs_type_fat32() ==> (r is Ok <==> fat_layout_fits(partition@)) && (r is Err ==> r->Err_0
                == ConvertError::InconsistentFileSystem),
            r matches Err(e) ==> e == ConvertError::InconsistentFileSystem || e == ConvertError::UnexpectedBootSignature
                || e == ConvertError::UnexpectedFileSystemType,
    {
        let boot_sector = BootSector::from_bytes(partition);
        boot_sector.validate()?;
        if !boot_sector.has_valid_geometry() {
            return Err(ConvertError::InconsistentFileSystem);
        }
        proof {
            boot_sector.lemma_geometry();
        }
        let fat_table_range = boot_sector.get_fat_table_range();
        if fat_table_range.start <= BOOT_SECTOR_SIZE as u64 || fat_table_range.end > partition.len() as u64
            || (fat_table_range.end - fat_table_range.start) % 4 != 0 {
            return Err(ConvertError::InconsistentFileSystem);
        }
        let data_range = boot_sector.get_data_range();
        if data_range.start <= fat_table_range.end || data_range.end > partition.len() as u64
            || data_range.end < data_range.start {
            return Err(ConvertError::InconsistentFileSystem);
        }
        let entry_count = ((fat_table_range.end - fat_table_range.start) / 4) as usize;
        let data_start_cluster = data_range.start / (boot_sector.cluster_size() as u64);
        if entry_count < ROOT_FAT_IDX as usize || data_start_cluster + entry_count as u64 > u32::MAX as u64 {
            return Err(ConvertError::InconsistentFileSystem);
        }
        let start = fat_table_range.start as usize;
        let plen = partition.len();
        let mut fat_table: Vec<FatTableIndex> = Vec::new();
        let mut i: usize = 0;
        while i < entry_count
            invariant
                plen == partition@.len(),
                i <= entry_count,
                start + 4 * entry_count <= partition@.len(),
                start == boot_sector.sectors_before_fat * boot_sector.bytes_per_sector,
                fat_table@.len() == i,
                forall|j: int| 0 <= j < i ==> (#[trigger] fat_table@[j]).0 == le_u32(partition@, start + 4 * j),
            decreases entry_count - i,
        {
            fat_table.push(FatTableIndex::new(read_u32(partition, start + 4 * i)));
            i += 1;
        }
        let fs = FatFs { boot_sector, fat_table, data_start: data_range.start, data_len: data_range.end - data_range.start };
        proof {
            let p = partition@;
            let a = boot_sector.spec_first_data_sector();
            let b = boot_sector.bytes_per_sector as int;
            let c = boot_sector.sectors_per_cluster as int;
            assert((a * b) / (c * b) == a / c) by (nonlinear_arith)
                requires
                    a >= 0,
                    b > 0,
                    c > 0,
            ;
            assert(boot_sector.spec_first_data_byte() / boot_sector.spec_cluster_size() == fat_first_data_cluster(p));
            assert forall|x: int| fs.used_ranges_spec(x) == fat_cluster_in_use(p, x) by {
                if fs.used_ranges_spec(x) && !(0 <= x < fat_first_data_cluster(p)) {
                    let i = choose|i: int|
                        ROOT_FAT_IDX <= i < fs.spec_fat_table().len() && !(#[trigger] fs.spec_fat_table()[i]).spec_is_free()
                            && x == FatTableIndex(i as u32).spec_cluster_idx(fs.spec_boot_sector());
                    assert(fat_entry(p, i) == fs.spec_fat_table()[i].0);
                }
                if fat_cluster_in_use(p, x) && !(0 <= x < fat_first_data_cluster(p)) {
                    let i = choose|i: int|
                        ROOT_FAT_IDX <= i < fat_entry_count(p) && #[trigger] fat_entry(p, i) % 0x1000_0000 != 0 && x
                            == fat_first_data_cluster(p) + (i - ROOT_FAT_IDX);
                    assert(fat_entry(p, i) == fs.spec_fat_table()[i].0);
                    assert(!fs.spec_fat_table()[i].spec_is_free());
                }
            }
        }
        Ok(fs)
    }

    /// The byte offset of the data region in the partition.
    pub fn data_start(&self) -> (r: u64)
        ensures
            r == self.spec_data_start(),
    {
        self.data_start
    }

    /// The length in bytes of the data region.
    pub fn data_len(&self) -> (r: u64)
        ensures
            r == self.spec_data_len(),
    {
        self.data_len
    }

    pub fn boot_sector(&self) -> (r: &BootSector)
        ensures
            *r == self.spec_boot_sector(),
    {
        &self.boot_sector
    }

    pub fn fat_table(&self) -> (r: &[FatTableIndex])
        ensures
            r@ == self.spec_fat_table(),
    {
        self.fat_table.as_slice()
    }

    pub fn cluster_size(&self) -> (r: u32)
        ensures
            r == self.spec_boot_sector().spec_cluster_size(),
    {
        self.boot_sector.cluster_size()
    }

    pub fn dentries_per_cluster(&self) -> (r: u32)
        ensures
            r == self.spec_boot_sector().spec_cluster_size() / 32,
    {
        self.boot_sector.dentries_per_cluster()
    }

    pub fn cluster_from_data_cluster(&self, data_cluster_idx: DataClusterIdx) -> (r: ClusterIdx)
        requires
            self.wf(),
            data_cluster_idx.0 + self.spec_boot_sector().spec_first_data_sector()
                / (self.spec_boot_sector().sectors_per_cluster as int) <= u32::MAX,
        ensures
            r == data_cluster_idx.0 + self.spec_boot_sector().spec_first_data_sector()
                / (self.spec_boot_sector().sectors_per_cluster as int),
    {
        data_cluster_idx.0 + self.boot_sector.first_data_cluster()
    }

    pub fn cluster_count(&self) -> (r: u32)
        requires
            self.wf(),
        ensures
            r == self.spec_boot_sector().spec_sector_count() / (self.spec_boot_sector().sectors_per_cluster as int),
    {
        self.boot_sector.cluster_count()
    }

    pub fn is_used(&self, data_cluster_idx: DataClusterIdx) -> (r: bool)
        requires
            self.wf(),
            data_cluster_idx.0 + ROOT_FAT_IDX < self.spec_fat_table().len(),
        ensures
            r == !self.spec_fat_table()[data_cluster_idx.0 + ROOT_FAT_IDX].spec_is_free(),
    {
        proof {
            lemma_first_data_cluster(self.spec_boot_sector());
        }
        !self.fat_table[data_cluster_idx.to_fat_index().0 as usize].is_free()
    }

    /// The byte offset in the partition at which data cluster `data_cluster_idx` starts.
    pub open spec fn spec_data_cluster_start(&self, data_cluster_idx: int) -> int {
        self.spec_data_start() + data_cluster_idx * self.spec_boot_sector().spec_cluster_size()
    }

    /// A copy of the data cluster `data_cluster_idx`, which must be in use and inside the data region.
    pub fn data_cluster(&self, partition: &[u8], data_cluster_idx: DataClusterIdx) -> (r: Vec<u8>)
        requires
            self.wf(),
            self.spec_data_start() + self.spec_data_len() <= partition@.len(),
            data_cluster_idx.0 + ROOT_FAT_IDX < self.spec_fat_table().len(),
            !self.spec_fat_table()[data_cluster_idx.0 + ROOT_FAT_IDX].spec_is_free(),
            (data_cluster_idx.0 + 1) * self.spec_boot_sector().spec_cluster_size() <= self.spec_data_len(),
        ensures
            r@ == partition@.subrange(
                self.spec_data_cluster_start(data_cluster_idx.0 as int),
                self.spec_data_cluster_start(data_cluster_idx.0 as int) + self.spec_boot_sector().spec_cluster_size(),
            ),
    {
        proof {
            self.boot_sector.lemma_geometry();
            assert(data_cluster_idx.0 * self.spec_boot_sector().spec_cluster_size() + self.spec_boot_sector().spec_cluster_size()
                == (data_cluster_idx.0 + 1) * self.spec_boot_sector().spec_cluster_size()) by (nonlinear_arith);
        }
        let plen = partition.len();
        let cluster_size = self.cluster_size() as u64;
        let start_byte = self.data_start + (data_cluster_idx.0 as u64) * cluster_size;
        assert(start_byte + cluster_size <= plen);
        copy_out(partition, start_byte as usize, cluster_size as usize)
    }

    /// A copy of the data cluster `data_cluster_idx`; fails with `CorruptedData` if it is free or lies outside the
    /// data region.
    /// Data cluster `d` has an entry in the FAT that marks it as in use, and lies inside the data region.
    pub open spec fn data_cluster_readable(&self, d: int) -> bool {
        &&& 0 <= d
        &&& d + ROOT_FAT_IDX < self.spec_fat_table().len()
        &&& !self.spec_fat_table()[d + ROOT_FAT_IDX].spec_is_free()
        &&& (d + 1) * self.spec_boot_sector().spec_cluster_size() <= self.spec_data_len()
    }

    pub fn read_data_cluster(&self, partition: &[u8], data_cluster_idx: DataClusterIdx) -> (r: Result<Vec<u8>, ConvertError>)
        requires
            self.wf(),
            self.spec_data_start() + self.spec_data_len() <= partition@.len(),
        ensures
            r matches Ok(data) ==> data@ == partition@.subrange(
                self.spec_data_cluster_start(data_cluster_idx.0 as int),
                self.spec_data_cluster_start(data_cluster_idx.0 as int) + self.spec_boot_sector().spec_cluster_size(),
            ),
            r is Ok ==> self.spec_data_cluster_start(data_cluster_idx.0 as int) + self.spec_boot_sector().spec_cluster_size()
                <= self.spec_data_start() + self.spec_data_len(),
            r matches Err(e) ==> e == ConvertError::CorruptedData,
            self.data_cluster_readable(data_cluster_idx.0 as int) ==> r is Ok,
    {
        proof {
            self.boot_sector.lemma_geometry();
        }
        if data_cluster_idx.0 as u64 + ROOT_FAT_IDX as u64 >= self.fat_table.len() as u64 {
            return Err(ConvertError::CorruptedData);
        }
        if !self.is_used(data_cluster_idx) {
            return Err(ConvertError::CorruptedData);
        }
        let cluster_size = self.cluster_size() as u64;
        proof {
            assert((data_cluster_idx.0 + 1) * cluster_size <= 0x1_0000_0000 * 0xFF * 0xFFFF) by (nonlinear_arith)
                requires
                    data_cluster_idx.0 < 0x1_0000_0000,
                    cluster_size <= 0xFF * 0xFFFF,
            ;
        }
        if (data_cluster_idx.0 as u64 + 1) * cluster_size > self.data_len {
            return Err(ConvertError::CorruptedData);
        }
        proof {
            assert((data_cluster_idx.0 + 1) * cluster_size == data_cluster_idx.0 * cluster_size + cluster_size)
                by (nonlinear_arith);
        }
        Ok(self.data_cluster(partition, data_cluster_idx))
    }

    /// Whether the chain from `idx` reaches its end within as many steps as the table has entries.
    pub open spec fn chain_terminates(&self, idx: FatTableIndex) -> bool {
        chain_ok(self.spec_fat_table(), idx, self.spec_fat_table().len())
    }

    /// Checks whether the FAT chain that starts at `idx` is well formed: it stays inside the table and ends within as
    /// many steps as the table has entries (a longer chain would contain a cycle).
    pub fn check_chain(&self, idx: FatTableIndex) -> (r: bool)
        ensures
            r == self.chain_terminates(idx),
    {
        let n = self.fat_table.len();
        let mut current = idx;
        let mut fuel: usize = n;
        while !(current.0 >= FAT_END_OF_CHAIN || current.0 == 0)
            invariant
                fuel <= n,
                n == self.spec_fat_table().len(),
                chain_ok(self.spec_fat_table(), idx, n as nat) == chain_ok(self.spec_fat_table(), current, fuel as nat),
            decreases fuel,
        {
            if fuel == 0 || current.0 < ROOT_FAT_IDX || current.0 as usize >= n {
                return false;
            }
            current = self.fat_table[current.0 as usize];
            fuel -= 1;
        }
        true
    }

    /// Follows the file's FAT chain from its first entry and collects the data clusters into maximal runs of adjacent
    /// clusters.
    pub fn data_ranges(&self, first_fat_idx: FatTableIndex) -> (r: Vec<DataClusterRange>)
        requires
            first_fat_idx.0 < FAT_END_OF_CHAIN,
            self.chain_terminates(first_fat_idx),
        ensures
            ranges_maximal(r@),
            expand_ranges(r@) == chain(self.spec_fat_table(), first_fat_idx, self.spec_fat_table().len()).map_values(
                |x: u32| (x - ROOT_FAT_IDX) as u32,
            ),
    {
        let ghost table = self.spec_fat_table();
        let ghost n = table.len();
        let mut ranges: Vec<DataClusterRange> = Vec::new();
        if first_fat_idx.is_zero_length_file() {
            proof {
                assert(chain(table, first_fat_idx, n) =~= Seq::<u32>::empty());
                assert(expand_ranges(ranges@) =~= Seq::<u32>::empty());
            }
            return ranges;
        }
        let first = first_fat_idx.to_data_cluster_idx();
        let mut current_range = DataClusterRange { first, last: first };
        let mut fat_idx = self.fat_table[first_fat_idx.0 as usize];
        let ghost mut fuel: nat = (n - 1) as nat;
        proof {
            assert(chain(table, first_fat_idx, n) == seq![first_fat_idx.0].add(chain(table, fat_idx, fuel)));
            assert(expand_ranges(ranges@.push(current_range)) =~= seq![first.0]) by {
                let s1 = ranges@.push(current_range);
                assert(s1.drop_last() =~= Seq::<DataClusterRange>::empty());
                assert(expand_ranges(Seq::<DataClusterRange>::empty()) =~= Seq::<u32>::empty());
                assert(Seq::new((first.0 - first.0 + 1) as nat, |i: int| (first.0 + i) as u32) =~= seq![first.0]);
            }
            assert(seq![first_fat_idx.0].map_values(|x: u32| (x - ROOT_FAT_IDX) as u32) =~= seq![first.0]);
        }
        while !(fat_idx.is_chain_end() || fat_idx.is_zero_length_file())
            invariant
                table == self.spec_fat_table(),
                n == table.len(),
                chain_ok(table, fat_idx, fuel),
                current_range.first.0 <= current_range.last.0,
                ranges_maximal(ranges@.push(current_range)),
                expand_ranges(ranges@.push(current_range)) + chain(table, fat_idx, fuel).map_values(
                    |x: u32| (x - ROOT_FAT_IDX) as u32,
                ) == chain(table, first_fat_idx, n).map_values(|x: u32| (x - ROOT_FAT_IDX) as u32),
            decreases fuel,
        {
            let next = fat_idx.to_data_cluster_idx();
            let ghost old_chain = chain(table, fat_idx, fuel);
            let ghost old_ranges = ranges@.push(current_range);
            proof {
                assert(old_chain == seq![fat_idx.0].add(chain(table, table[fat_idx.0 as int], (fuel - 1) as nat)));
            }
            if current_range.last.0 < u32::MAX && next.0 == current_range.last.0 + 1 {
                current_range = DataClusterRange { first: current_range.first, last: next };
                proof {
                    lemma_expand_extend(ranges@, old_ranges.last(), next.0);
                    let s = ranges@.push(current_range);
                    assert forall|k: int| 0 <= k < s.len() - 1 implies (#[trigger] s[k]).last.0 + 1 != s[k + 1].first.0 by {
                        assert(s[k] == old_ranges[k]);
                        if k + 1 < s.len() - 1 {
                            assert(s[k + 1] == old_ranges[k + 1]);
                        }
                    }
                    assert forall|k: int| 0 <= k < s.len() implies (#[trigger] s[k]).first.0 <= s[k].last.0 by {
                        if k < s.len() - 1 {
                            assert(s[k] == old_ranges[k]);
                        }
                    }
                }
            } else {
                ranges.push(current_range);
                current_range = DataClusterRange { first: next, last: next };
                proof {
                    lemma_expand_new(ranges@, next.0);
                    assert(ranges@.push(current_range).drop_last() =~= ranges@);
                    assert(ranges@ == old_ranges);
                    let s = ranges@.push(current_range);
                    assert forall|k: int| 0 <= k < s.len() - 1 implies (#[trigger] s[k]).last.0 + 1 != s[k + 1].first.0 by {
                        assert(s[k] == old_ranges[k]);
                        if k + 1 < s.len() - 1 {
                            assert(s[k + 1] == old_ranges[k + 1]);
                        }
                    }
                    assert forall|k: int| 0 <= k < s.len() implies (#[trigger] s[k]).first.0 <= s[k].last.0 by {
                        if k < s.len() - 1 {
                            assert(s[k] == old_ranges[k]);
                        }
                    }
                }
            }
            fat_idx = self.fat_table[fat_idx.0 as usize];
            proof {
                fuel = (fuel - 1) as nat;
                let tail = chain(table, fat_idx, fuel).map_values(|x: u32| (x - ROOT_FAT_IDX) as u32);
                assert(old_chain.map_values(|x: u32| (x - ROOT_FAT_IDX) as u32) =~= seq![next.0] + tail);
                assert(expand_ranges(old_ranges) + (seq![next.0] + tail) =~= (expand_ranges(old_ranges) + seq![next.0]) + tail);
            }
        }
        proof {
            assert(chain(table, fat_idx, fuel) =~= Seq::<u32>::empty());
            assert(chain(table, fat_idx, fuel).map_values(|x: u32| (x - ROOT_FAT_IDX) as u32) =~= Seq::<u32>::empty());
            assert(expand_ranges(ranges@.push(current_range)) + Seq::<u32>::empty() =~= expand_ranges(ranges@.push(current_range)));
        }
        ranges.push(current_range);
        ranges
    }

    /// Returns the occupied clusters of the filesystem: every cluster before the data region, and every data cluster
    /// whose FAT entry is not free.
    pub fn used_ranges(&self) -> (r: Ranges)
        requires
            self.wf(),
        ensures
            r.wf(),
            forall|x: int|
                r.covers(x) <==> (x < self.spec_boot_sector().spec_first_data_sector()
                    / (self.spec_boot_sector().sectors_per_cluster as int) && 0 <= x) || exists|i: int|
                    ROOT_FAT_IDX <= i < self.spec_fat_table().len() && !(#[trigger] self.spec_fat_table()[i]).spec_is_free()
                        && x == FatTableIndex(i as u32).spec_cluster_idx(self.spec_boot_sector()),
    {
        let mut ranges = Ranges::new();
        let first_data_cluster_idx = self.boot_sector.first_data_cluster();
        ranges.insert(0..first_data_cluster_idx);
        let ghost bs = self.spec_boot_sector();
        let ghost table = self.spec_fat_table();
        proof {
            bs.lemma_geometry();
            lemma_first_data_cluster(bs);
            assert(table.len() <= u32::MAX);
        }
        let mut i: usize = ROOT_FAT_IDX as usize;
        while i < self.fat_table.len()
            invariant
                self.wf(),
                bs == self.spec_boot_sector(),
                table == self.spec_fat_table(),
                ROOT_FAT_IDX <= i <= table.len(),
                table.len() <= u32::MAX,
                bs.wf(),
                bs.spec_first_data_byte() / bs.spec_cluster_size() >= 0,
                ranges.wf(),
                forall|x: int|
                    ranges.covers(x) <==> (x < bs.spec_first_data_sector() / (bs.sectors_per_cluster as int) && 0 <= x)
                        || exists|j: int|
                        ROOT_FAT_IDX <= j < i && !(#[trigger] table[j]).spec_is_free() && x == FatTableIndex(j as u32).spec_cluster_idx(bs),
            decreases table.len() - i,
        {
            if !self.fat_table[i].is_free() {
                let range_start = FatTableIndex::new(i as u32).to_cluster_idx(&self.boot_sector);
                let ghost before = ranges;
                ranges.insert(range_start..range_start + 1);
                proof {
                    assert forall|x: int|
                        ranges.covers(x) <==> (x < bs.spec_first_data_sector() / (bs.sectors_per_cluster as int) && 0 <= x)
                            || exists|j: int|
                            ROOT_FAT_IDX <= j < i + 1 && !(#[trigger] table[j]).spec_is_free() && x == FatTableIndex(j as u32).spec_cluster_idx(bs) by {
                        if x == range_start as int {
                            assert(!table[i as int].spec_is_free() && x == FatTableIndex(i as u32).spec_cluster_idx(bs));
                        }
                        if exists|j: int| ROOT_FAT_IDX <= j < i + 1 && !(#[trigger] table[j]).spec_is_free() && x == FatTableIndex(j as u32).spec_cluster_idx(bs) {
                            let j = choose|j: int| ROOT_FAT_IDX <= j < i + 1 && !(#[trigger] table[j]).spec_is_free() && x == FatTableIndex(j as u32).spec_cluster_idx(bs);
                            if j < i {
                                assert(before.covers(x));
                            }
                        }
                    }
                }
            } else {
                proof {
                    assert forall|x: int|
                        ranges.covers(x) <==> (x < bs.spec_first_data_sector() / (bs.sectors_per_cluster as int) && 0 <= x)
                            || exists|j: int|
                            ROOT_FAT_IDX <= j < i + 1 && !(#[trigger] table[j]).spec_is_free() && x == FatTableIndex(j as u32).spec_cluster_idx(bs) by {
                        if exists|j: int| ROOT_FAT_IDX <= j < i + 1 && !(#[trigger] table[j]).spec_is_free() && x == FatTableIndex(j as u32).spec_cluster_idx(bs) {
                            let j = choose|j: int| ROOT_FAT_IDX <= j < i + 1 && !(#[trigger] table[j]).spec_is_free() && x == FatTableIndex(j as u32).spec_cluster_idx(bs);
                            assert(j < i);
                        }
                    }
                }
            }
            i += 1;
        }
        ranges
    }
}

proof fn lemma_first_data_cluster(bs: BootSector)
    requires
        bs.wf(),
    ensures
        bs.spec_first_data_sector() / (bs.sectors_per_cluster as int) == bs.spec_first_data_byte() / bs.spec_cluster_size(),
        bs.spec_first_data_sector() / (bs.sectors_per_cluster as int) <= u32::MAX,
        bs.spec_first_data_byte() / bs.spec_cluster_size() >= 0,
{
    bs.lemma_geometry();
    let s = bs.spec_first_data_sector();
    let c = bs.sectors_per_cluster as int;
    let b = bs.bytes_per_sector as int;
    assert((s * b) / (c * b) == s / c) by (nonlinear_arith)
        requires
            c > 0,
            b > 0,
            s >= 0,
    {
        vstd::arithmetic::div_mod::lemma_div_multiples_vanish_quotient(b, s, c);
        assert(s * b == b * s) by {
            vstd::arithmetic::mul::lemma_mul_is_commutative(s, b);
        }
        assert(c * b == b * c) by {
            vstd::arithmetic::mul::lemma_mul_is_commutative(c, b);
        }
    }
    assert(s / c >= 0) by (nonlinear_arith)
        requires
            c > 0,
            s >= 0,
    ;
    assert(s / c <= s) by (nonlinear_arith)
        requires
            c > 0,
            s >= 0,
    ;
}

proof fn lemma_expand_extend(prefix: Seq<DataClusterRange>, last: DataClusterRange, next: u32)
    requires
        last.first.0 <= last.last.0,
        next == last.last.0 + 1,
    ensures
        expand_ranges(prefix.push(DataClusterRange { first: last.first, last: DataClusterIdx(next) })) == expand_ranges(
            prefix.push(last),
        ) + seq![next],
{
    let extended = prefix.push(DataClusterRange { first: last.first, last: DataClusterIdx(next) });
    assert(extended.drop_last() =~= prefix);
    assert(prefix.push(last).drop_last() =~= prefix);
    assert(Seq::new((next - last.first.0 + 1) as nat, |i: int| (last.first.0 + i) as u32) =~= Seq::new(
        (last.last.0 - last.first.0 + 1) as nat,
        |i: int| (last.first.0 + i) as u32,
    ) + seq![next]);
}

proof fn lemma_expand_new(prefix: Seq<DataClusterRange>, next: u32)
    ensures
        expand_ranges(prefix.push(DataClusterRange { first: DataClusterIdx(next), last: DataClusterIdx(next) }))
            == expand_ranges(prefix) + seq![next],
{
    let extended = prefix.push(DataClusterRange { first: DataClusterIdx(next), last: DataClusterIdx(next) });
    assert(extended.drop_last() =~= prefix);
    assert(Seq::new((next - next + 1) as nat, |i: int| (next + i) as u32) =~= seq![next]);
}

impl FatFs {
    /// Reads the filesystem of `partition` together with an allocator of its free clusters: the ones that neither
    /// lie before the data region nor hold data.
    pub fn new_with_allocator(partition: &[u8]) -> (r: Result<(Self, crate::allocator::Allocator), ConvertError>)
        requires
            fat_partition_readable(partition@),
        ensures
            r matches Ok((fs, allocator)) ==> {
                &&& fs.wf()
                &&& fs.spec_boot_sector().is_read_from(partition@)
                &&& fs.spec_data_start() + fs.spec_data_len() <= partition@.len()
                &&& allocator.wf()
                &&& allocator.spec_cursor() == 0
                &&& allocator.spec_cluster_size() == fs.spec_boot_sector().spec_cluster_size()
                &&& allocator.spec_valid() == (0u32..(fs.spec_boot_sector().spec_fs_size()
                    / fs.spec_boot_sector().spec_cluster_size()) as u32)
                &&& forall|x: int| #[trigger] allocator.spec_used().covers(x) == fs.used_ranges_spec(x)
                &&& forall|x: int| #[trigger] allocator.spec_used().covers(x) == fat_cluster_in_use(partition@, x)
                &&& allocator.spec_cluster_size() == fat_cluster_size(partition@)
                &&& fs.spec_boot_sector().spec_fs_size() == fat_fs_size(partition@)
                &&& fs.spec_boot_sector().spec_volume_label() == fat_volume_label(partition@)
            },
            partition@.len() >= BOOT_SECTOR_SIZE && partition@[66] != EXT_BOOT_SIGNATURE_FAT32 ==> r is Err && r->Err_0
                == ConvertError::UnexpectedBootSignature,
            partition@.len() >= BOOT_SECTOR_SIZE && partition@[66] == EXT_BOOT_SIGNATURE_FAT32 && partition@.subrange(
                82,
                90,
            ) != fs_type_fat32() ==> r is Err && r->Err_0 == ConvertError::UnexpectedFileSystemType,
            partition@.len() >= BOOT_SECTOR_SIZE && partition@[66] == EXT_BOOT_SIGNATURE_FAT32 && partition@.subrange(
                82,
                90,
            ) == fs_type_fat32() ==> {
                &&& !fat_layout_fits(partition@) ==> r is Err && r->Err_0 == ConvertError::InconsistentFileSystem
                &&& fat_layout_fits(partition@) && fat_fs_size(partition@) / fat_cluster_size(partition@) > u32::MAX
                    ==> r is Err && r->Err_0 == ConvertError::FilesystemTooLarge
                &&& fat_layout_fits(partition@) && fat_fs_size(partition@) / fat_cluster_size(partition@) <= u32::MAX
                    ==> r is Ok
            },
    {
        let instance = match Self::new(partition) {
            Ok(fs) => fs,
            Err(e) => return Err(e),
        };
        proof {
            instance.boot_sector.lemma_geometry();
        }
        let fs_size = instance.boot_sector.fs_size();
        let cluster_size = instance.cluster_size();
        if fs_size / (cluster_size as u64) > u32::MAX as u64 {
            return Err(ConvertError::FilesystemTooLarge);
        }
        let used = instance.used_ranges();
        let allocator = crate::allocator::Allocator::new(fs_size, cluster_size as usize, used);
        proof {
            assert forall|x: int| #[trigger] allocator.spec_used().covers(x) == fat_cluster_in_use(partition@, x) by {
                assert(allocator.spec_used().covers(x) == instance.used_ranges_spec(x));
            }
        }
        Ok((instance, allocator))
    }

    /// Whether cluster `x` is occupied: it lies before the data region or holds data.
    pub open spec fn used_ranges_spec(&self, x: int) -> bool {
        (x < self.spec_boot_sector().spec_first_data_sector() / (self.spec_boot_sector().sectors_per_cluster as int)
            && 0 <= x) || exists|i: int|
            ROOT_FAT_IDX <= i < self.spec_fat_table().len() && !(#[trigger] self.spec_fat_table()[i]).spec_is_free()
                && x == FatTableIndex(i as u32).spec_cluster_idx(self.spec_boot_sector())
    }

    /// The ext4 filesystem that replaces this one; zeroes its inode tables in `partition`.
    pub fn into_ext4(self, partition: &mut Vec<u8>, uuid: [u8; 16], mkfs_time: u32) -> (r: Result<crate::ext4::fs::Ext4Fs, ConvertError>)
        requires
            self.wf(),
        ensures
            r matches Ok(fs) ==> fs.wf(),
            r is Err ==> final(partition)@ == old(partition)@,
            final(partition)@.len() == old(partition)@.len(),
            self.spec_boot_sector().spec_first_data_byte() % self.spec_boot_sector().spec_cluster_size() == 0
                && crate::ext4::superblock::new_error(
                self.spec_boot_sector().spec_fs_size(),
                self.spec_boot_sector().spec_cluster_size(),
            ) is None && crate::ext4::fs::new_layout_fits(
                self.spec_boot_sector().spec_fs_size(),
                self.spec_boot_sector().spec_cluster_size(),
                self.spec_boot_sector().spec_volume_label(),
                old(partition)@.len() as int,
            ) ==> r is Ok,
    {
        crate::ext4::fs::Ext4Fs::from(&self.boot_sector, partition, uuid, mkfs_time)
    }
}

} // verus!
