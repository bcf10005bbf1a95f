use std::ops::Range;
use vstd::prelude::*;
use crate::bytes::{copy_out, write_bytes};
use crate::error::ConvertError;
use crate::ranges::{ClusterIdx, NotCoveredRange, Ranges};

verus! {

/// A cluster that was allocated by an `Allocator`; it serves as the token through which that cluster is accessed.
#[derive(Debug)]
pub struct AllocatedClusterIdx(ClusterIdx);

impl AllocatedClusterIdx {
    pub closed spec fn spec_idx(&self) -> ClusterIdx {
        self.0
    }

    /// The cluster's index.
    pub fn as_cluster_idx(&self) -> (r: ClusterIdx)
        ensures
            r == self.spec_idx(),
    {
        self.0
    }

    /// The cluster's index, as an ext4 block index (FAT clusters become ext4 blocks of the same size).
    pub fn as_block_idx(&self) -> (r: u64)
        ensures
            r == self.spec_idx(),
    {
        self.0 as u64
    }
}

/// A range of clusters that were allocated together.
#[derive(Debug)]
pub struct AllocatedRange(Range<ClusterIdx>);

impl AllocatedRange {
    pub closed spec fn spec_range(&self) -> Range<ClusterIdx> {
        self.0
    }

    pub fn len(&self) -> (r: u32)
        requires
            self.spec_range().start <= self.spec_range().end,
        ensures
            r == self.spec_range().end - self.spec_range().start,
    {
        self.0.end - self.0.start
    }

    /// The first cluster of the range.
    pub fn first(&self) -> (r: AllocatedClusterIdx)
        ensures
            r.spec_idx() == self.spec_range().start,
    {
        AllocatedClusterIdx(self.0.start)
    }

    /// Iterates over the range's clusters.
    pub fn iter_mut(&mut self) -> (r: AllocatedIterMut)
        ensures
            r.spec_remaining() == old(self).spec_range(),
            final(self).spec_range() == old(self).spec_range(),
    {
        AllocatedIterMut::new(self)
    }

    /// The range of cluster indices.
    pub fn into_range(self) -> (r: Range<ClusterIdx>)
        ensures
            r == self.spec_range(),
    {
        self.0
    }
}

/// An iterator over the clusters of an `AllocatedRange`.
pub struct AllocatedIterMut(Range<ClusterIdx>);

impl AllocatedIterMut {
    pub closed spec fn spec_remaining(&self) -> Range<ClusterIdx> {
        self.0
    }

    fn new(range: &AllocatedRange) -> (r: Self)
        ensures
            r.spec_remaining() == range.spec_range(),
    {
        AllocatedIterMut(range.0.start..range.0.end)
    }

    pub fn next(&mut self) -> (r: Option<AllocatedClusterIdx>)
        ensures
            old(self).spec_remaining().start < old(self).spec_remaining().end ==> {
                &&& r matches Some(idx) && idx.spec_idx() == old(self).spec_remaining().start
                &&& final(self).spec_remaining() == ((old(self).spec_remaining().start + 1) as u32..old(self).spec_remaining().end)
            },
            old(self).spec_remaining().start >= old(self).spec_remaining().end ==> r is None && final(self).spec_remaining() == old(self).spec_remaining(),
    {
        if self.0.start < self.0.end {
            let idx = self.0.start;
            self.0 = idx + 1..self.0.end;
            Some(AllocatedClusterIdx(idx))
        } else {
            None
        }
    }
}

/// Between `before` and `after` only bytes of clusters that `used` does not cover changed, clusters being
/// `cluster_size` bytes long.
pub open spec fn changes_only_free(before: Seq<u8>, after: Seq<u8>, used: Ranges, cluster_size: int) -> bool {
    &&& after.len() == before.len()
    &&& forall|b: int| 0 <= b < before.len() && #[trigger] after[b] != before[b] ==> !used.covers(b / cluster_size)
}

/// Between `before` and `after` only bytes of cluster `idx` changed.
pub open spec fn changes_within_cluster(before: Seq<u8>, after: Seq<u8>, idx: int, cluster_size: int) -> bool {
    &&& after.len() == before.len()
    &&& forall|b: int|
        0 <= b < before.len() && #[trigger] after[b] != before[b] ==> cluster_size * idx <= b < cluster_size * idx
            + cluster_size
}

/// Changing nothing changes only free clusters.
pub proof fn lemma_changes_only_free_refl(p: Seq<u8>, used: Ranges, cluster_size: int)
    ensures
        changes_only_free(p, p, used, cluster_size),
{
}

/// Changes of free clusters, one after the other, change only free clusters.
pub proof fn lemma_changes_only_free_trans(a: Seq<u8>, b: Seq<u8>, c: Seq<u8>, used: Ranges, cluster_size: int)
    requires
        changes_only_free(a, b, used, cluster_size),
        changes_only_free(b, c, used, cluster_size),
    ensures
        changes_only_free(a, c, used, cluster_size),
{
    assert forall|x: int| 0 <= x < a.len() && #[trigger] c[x] != a[x] implies !used.covers(x / cluster_size) by {
        if b[x] != a[x] {
        } else {
            assert(c[x] != b[x]);
        }
    }
}

/// Changing only a cluster that `used` does not cover changes only free clusters.
pub proof fn lemma_cluster_change_is_free(before: Seq<u8>, after: Seq<u8>, idx: int, cluster_size: int, used: Ranges)
    requires
        cluster_size > 0,
        changes_within_cluster(before, after, idx, cluster_size),
        !used.covers(idx),
    ensures
        changes_only_free(before, after, used, cluster_size),
{
    assert forall|b: int| 0 <= b < before.len() && #[trigger] after[b] != before[b] implies !used.covers(
        b / cluster_size,
    ) by {
        assert(b / cluster_size == idx) by (nonlinear_arith)
            requires
                cluster_size * idx <= b < cluster_size * idx + cluster_size,
                cluster_size > 0,
        ;
    }
}

/// Allocates clusters that are not marked as in use: the clusters that are free in the FAT and will not be
/// overwritten by ext4 metadata. Clusters are handed out in increasing order and never twice.
#[derive(Debug)]
pub struct Allocator {
    /// clusters outside this range can neither be allocated nor accessed
    valid_cluster_indices: Range<ClusterIdx>,
    /// the cluster that the allocator will try to allocate next
    cursor: ClusterIdx,
    /// clusters that will not be allocated
    used_ranges: Ranges,
    cluster_size: usize,
}

impl Allocator {
    pub closed spec fn spec_valid(&self) -> Range<ClusterIdx> {
        self.valid_cluster_indices
    }

    pub closed spec fn spec_cursor(&self) -> ClusterIdx {
        self.cursor
    }

    pub closed spec fn spec_used(&self) -> Ranges {
        self.used_ranges
    }

    pub closed spec fn spec_cluster_size(&self) -> usize {
        self.cluster_size
    }

    pub open spec fn wf(&self) -> bool {
        &&& self.spec_used().wf()
        &&& self.spec_valid().start <= self.spec_cursor() <= self.spec_valid().end
        &&& self.spec_cluster_size() > 0
    }

    /// Whether nothing more can be allocated: every cluster from the cursor to the end of the filesystem is
    /// excluded from allocation.
    pub open spec fn exhausted(self) -> bool {
        forall|z: int| self.spec_cursor() <= z < self.spec_valid().end ==> #[trigger] self.spec_used().covers(z)
    }

    /// `later` is a state that `self` can come to: the same clusters and cluster size, a cursor that has not moved
    /// back, and every cluster that was excluded from allocation still excluded.
    pub open spec fn reaches(self, later: Allocator) -> bool {
        &&& later.spec_valid() == self.spec_valid()
        &&& later.spec_cluster_size() == self.spec_cluster_size()
        &&& self.spec_cursor() <= later.spec_cursor()
        &&& forall|x: int| self.spec_used().covers(x) ==> #[trigger] later.spec_used().covers(x)
    }

    /// Going from `self` to `after`, the clusters `start..end` were handed out: they lie at or after the cursor and
    /// before the end of the filesystem, none of them was excluded from allocation, and the cursor moved past them.
    pub open spec fn hands_out(self, after: Allocator, start: int, end: int) -> bool {
        &&& self.spec_cursor() <= start <= end <= self.spec_valid().end
        &&& end == after.spec_cursor()
        &&& forall|x: int| start <= x < end ==> !#[trigger] self.spec_used().covers(x)
    }

    /// An allocator for the clusters of a filesystem of `fs_len` bytes, which will not allocate the clusters that
    /// `used_ranges` covers.
    pub fn new(fs_len: u64, cluster_size: usize, used_ranges: Ranges) -> (r: Self)
        requires
            cluster_size > 0,
            (fs_len as int) / (cluster_size as int) <= u32::MAX,
            used_ranges.wf(),
        ensures
            r.wf(),
            r.spec_valid() == (0u32..((fs_len as int) / (cluster_size as int)) as u32),
            r.spec_cursor() == 0,
            r.spec_used() == used_ranges,
            r.spec_cluster_size() == cluster_size,
    {
        let valid_cluster_count = (fs_len / cluster_size as u64) as u32;
        Allocator { valid_cluster_indices: 0..valid_cluster_count, cursor: 0, used_ranges, cluster_size }
    }

    /// Excludes `range` from allocation.
    pub fn forbid(&mut self, range: Range<ClusterIdx>)
        requires
            old(self).wf(),
        ensures
            final(self).wf(),
            final(self).spec_valid() == old(self).spec_valid(),
            final(self).spec_cursor() == old(self).spec_cursor(),
            final(self).spec_cluster_size() == old(self).spec_cluster_size(),
            forall|x: int|
                final(self).spec_used().covers(x) <==> (old(self).spec_used().covers(x) || (range.start <= x
                    && x < range.end)),
            old(self).reaches(*final(self)),
    {
        self.used_ranges.insert(range);
    }

    pub fn block_size(&self) -> (r: usize)
        ensures
            r == self.spec_cluster_size(),
    {
        self.cluster_size
    }

    /// The start of the first used range that ends after `x`, if the gap at `x` ends there.
    pub open spec fn gap_ends_at(&self, x: int, end: int) -> bool {
        exists|i: int|
            0 <= i < self.spec_used().spec_ranges().len() && (#[trigger] self.spec_used().spec_ranges()[i]).start == end
                && forall|j: int| 0 <= j < i ==> (#[trigger] self.spec_used().spec_ranges()[j]).end <= x
    }

    /// Returns the first range at or after `cursor` that is not used, cut at the end of the filesystem, or an error
    /// if it is empty.
    fn find_next_free_range(&self, cursor: u32) -> (r: Result<Range<ClusterIdx>, ConvertError>)
        requires
            self.wf(),
        ensures
            match r {
                Ok(range) => {
                    &&& cursor <= range.start < range.end <= self.spec_valid().end
                    &&& forall|z: int| cursor <= z < range.start ==> self.spec_used().covers(z)
                    &&& forall|z: int| range.start <= z < range.end ==> !self.spec_used().covers(z)
                    &&& (range.end == self.spec_valid().end || self.gap_ends_at(range.start as int, range.end as int))
                },
                Err(e) => {
                    &&& e == ConvertError::NoFreeClusters
                    &&& forall|z: int| cursor <= z < self.spec_valid().end ==> self.spec_used().covers(z)
                },
            },
    {
        let fs_end = self.fs_end_cluster_idx();
        let non_used_range = match self.used_ranges.next_not_covered(cursor) {
            NotCoveredRange::Bounded(range) => {
                if range.end < fs_end {
                    range.start..range.end
                } else {
                    range.start..fs_end
                }
            },
            NotCoveredRange::Unbounded(start) => start..fs_end,
        };
        if non_used_range.start >= non_used_range.end {
            return Err(ConvertError::NoFreeClusters);
        }
        Ok(non_used_range)
    }

    /// Returns a range of clusters that may be exclusively used by the caller: the first free clusters at or after
    /// the cursor, at most `max_length` of them. The cursor moves to the end of the range.
    pub fn allocate(&mut self, max_length: u32) -> (r: Result<AllocatedRange, ConvertError>)
        requires
            old(self).wf(),
        ensures
            final(self).wf(),
            final(self).spec_valid() == old(self).spec_valid(),
            final(self).spec_used() == old(self).spec_used(),
            final(self).spec_cluster_size() == old(self).spec_cluster_size(),
            match r {
                Ok(range) => {
                    let start = range.spec_range().start;
                    let end = range.spec_range().end;
                    &&& old(self).spec_cursor() <= start <= end <= old(self).spec_valid().end
                    &&& end - start <= max_length
                    &&& (max_length > 0 ==> start < end)
                    &&& final(self).spec_cursor() == end
                    &&& forall|z: int| old(self).spec_cursor() <= z < start ==> old(self).spec_used().covers(z)
                    &&& forall|z: int| start <= z < end ==> !old(self).spec_used().covers(z)
                    &&& (end - start == max_length || end == old(self).spec_valid().end || old(self).gap_ends_at(
                        start as int,
                        end as int,
                    ))
                },
                Err(e) => {
                    &&& e == ConvertError::NoFreeClusters
                    &&& final(self).spec_cursor() == old(self).spec_cursor()
                    &&& forall|z: int| old(self).spec_cursor() <= z < old(self).spec_valid().end ==> old(self).spec_used().covers(z)
                },
            },
            r matches Ok(range) ==> final(self).free_clusters() == old(self).free_clusters() - (range.spec_range().end
                - range.spec_range().start),
            r is Err ==> old(self).free_clusters() == 0,
            old(self).reaches(*final(self)),
            r is Err ==> final(self).exhausted(),
            r matches Ok(range) ==> old(self).hands_out(
                *final(self),
                range.spec_range().start as int,
                range.spec_range().end as int,
            ),
    {
        let ghost before = *self;
        let free_range = match self.find_next_free_range(self.cursor) {
            Ok(range) => range,
            Err(e) => {
                proof {
                    before.spec_used().lemma_count_covered_prefix(
                        before.spec_cursor() as int,
                        before.spec_valid().end as int,
                        before.spec_valid().end as int,
                    );
                }
                return Err(e);
            },
        };
        let desired_end = free_range.start.saturating_add(max_length);
        let range_end = if free_range.end < desired_end { free_range.end } else { desired_end };
        self.cursor = range_end;
        let r = AllocatedRange(free_range.start..range_end);
        proof {
            let u = before.spec_used();
            let e = before.spec_valid().end as int;
            u.lemma_count_covered_prefix(before.spec_cursor() as int, free_range.start as int, e);
            u.lemma_count_uncovered_prefix(free_range.start as int, range_end as int, e);
        }
        Ok(r)
    }

    /// The number of clusters that can still be allocated: the free ones from the cursor on.
    pub open spec fn free_clusters(&self) -> nat {
        self.spec_used().uncovered_count(self.spec_cursor() as int, self.spec_valid().end as int)
    }

    /// Returns a cluster that may be exclusively used by the caller: the first free cluster at or after the cursor.
    pub fn allocate_one(&mut self) -> (r: Result<AllocatedClusterIdx, ConvertError>)
        requires
            old(self).wf(),
        ensures
            r is Ok ==> final(self).free_clusters() == old(self).free_clusters() - 1,
            r is Err ==> old(self).free_clusters() == 0,
            old(self).reaches(*final(self)),
            r is Err ==> final(self).exhausted(),
            r matches Ok(idx) ==> old(self).hands_out(*final(self), idx.spec_idx() as int, idx.spec_idx() + 1),
            final(self).wf(),
            final(self).spec_valid() == old(self).spec_valid(),
            final(self).spec_used() == old(self).spec_used(),
            final(self).spec_cluster_size() == old(self).spec_cluster_size(),
            match r {
                Ok(idx) => {
                    &&& old(self).spec_cursor() <= idx.spec_idx() < old(self).spec_valid().end
                    &&& final(self).spec_cursor() == idx.spec_idx() + 1
                    &&& forall|z: int| old(self).spec_cursor() <= z < idx.spec_idx() ==> old(self).spec_used().covers(z)
                    &&& !old(self).spec_used().covers(idx.spec_idx() as int)
                },
                Err(e) => {
                    &&& e == ConvertError::NoFreeClusters
                    &&& final(self).spec_cursor() == old(self).spec_cursor()
                    &&& forall|z: int| old(self).spec_cursor() <= z < old(self).spec_valid().end ==> old(self).spec_used().covers(z)
                },
            },
    {
        let ghost before = *self;
        let range = match self.allocate(1) {
            Ok(range) => range,
            Err(e) => {
                proof {
                    let u = before.spec_used();
                    u.lemma_count_covered_prefix(
                        before.spec_cursor() as int,
                        before.spec_valid().end as int,
                        before.spec_valid().end as int,
                    );
                }
                return Err(e);
            },
        };
        let r = range.first();
        proof {
            let u = before.spec_used();
            let c = before.spec_cursor() as int;
            let i = r.spec_idx() as int;
            let e = before.spec_valid().end as int;
            u.lemma_count_covered_prefix(c, i, e);
            u.lemma_count_uncovered_prefix(i, i + 1, e);
        }
        Ok(r)
    }

    /// The number of clusters that can still be allocated.
    pub fn free_block_count(&self) -> (r: usize)
        requires
            self.wf(),
        ensures
            r == self.spec_used().uncovered_count(self.spec_cursor() as int, self.spec_valid().end as int),
    {
        self.used_ranges.free_element_count(self.cursor, self.fs_end_cluster_idx())
    }

    /// The byte offset at which cluster `idx` starts, or `None` if the cluster can not be accessed through `self`.
    pub fn cluster_start_byte(&self, idx: &AllocatedClusterIdx) -> (r: Option<u64>)
        ensures
            r is Some <==> (self.spec_valid().start <= idx.spec_idx() < self.spec_valid().end
                && self.spec_cluster_size() * idx.spec_idx() <= u64::MAX),
            r matches Some(b) ==> b == self.spec_cluster_size() * idx.spec_idx(),
    {
        let cluster_idx = idx.as_cluster_idx();
        if self.valid_cluster_indices.start <= cluster_idx && cluster_idx < self.valid_cluster_indices.end {
            (self.cluster_size as u64).checked_mul(cluster_idx as u64)
        } else {
            None
        }
    }

    /// Whether cluster `idx` can be accessed through `self` in a partition of `partition_len` bytes.
    pub open spec fn can_access(&self, idx: ClusterIdx, partition_len: int) -> bool {
        &&& self.spec_valid().start <= idx < self.spec_valid().end
        &&& self.spec_cluster_size() * idx + self.spec_cluster_size() <= partition_len
    }

    /// A copy of the allocated cluster `idx`.
    pub fn cluster(&self, partition: &[u8], idx: &AllocatedClusterIdx) -> (r: Vec<u8>)
        requires
            self.can_access(idx.spec_idx(), partition@.len() as int),
        ensures
            r@ == partition@.subrange(
                self.spec_cluster_size() * idx.spec_idx(),
                self.spec_cluster_size() * idx.spec_idx() + self.spec_cluster_size(),
            ),
    {
        let plen = partition.len();
        proof {
            assert(self.spec_cluster_size() * idx.spec_idx() >= 0) by (nonlinear_arith);
        }
        let start = match self.cluster_start_byte(idx) {
            Some(b) => b,
            None => 0,
        };
        copy_out(partition, start as usize, self.cluster_size)
    }

    /// Overwrites the allocated cluster `idx` with `data`.
    pub fn write_cluster(&self, partition: &mut Vec<u8>, idx: &mut AllocatedClusterIdx, data: &[u8])
        requires
            self.can_access(idx.spec_idx(), old(partition)@.len() as int),
            data@.len() == self.spec_cluster_size(),
        ensures
            final(idx).spec_idx() == old(idx).spec_idx(),
            final(partition)@ == old(partition)@.subrange(0, self.spec_cluster_size() * old(idx).spec_idx())
                + data@ + old(partition)@.subrange(
                self.spec_cluster_size() * old(idx).spec_idx() + self.spec_cluster_size(),
                old(partition)@.len() as int,
            ),
    {
        let plen = partition.len();
        proof {
            assert(self.spec_cluster_size() * idx.spec_idx() >= 0) by (nonlinear_arith);
        }
        let start = match self.cluster_start_byte(idx) {
            Some(b) => b,
            None => 0,
        };
        write_bytes(partition, start as usize, data);
    }

    /// Overwrites the bytes of the allocated cluster `idx` from `offset` on with `data`; fails with
    /// `InconsistentFileSystem`, changing nothing, if they do not lie within the cluster and the partition.
    pub fn write_in_cluster(&self, partition: &mut Vec<u8>, idx: &AllocatedClusterIdx, offset: usize, data: &[u8]) -> (r:
        Result<(), ConvertError>)
        ensures
            match r {
                Ok(_) => {
                    &&& self.can_access(idx.spec_idx(), old(partition)@.len() as int)
                    &&& offset + data@.len() <= self.spec_cluster_size()
                    &&& final(partition)@ == crate::bytes::spliced(
                        old(partition)@,
                        self.spec_cluster_size() * idx.spec_idx() + offset,
                        data@,
                    )
                    &&& changes_within_cluster(
                        old(partition)@,
                        final(partition)@,
                        idx.spec_idx() as int,
                        self.spec_cluster_size() as int,
                    )
                },
                Err(e) => e == ConvertError::InconsistentFileSystem && final(partition)@ == old(partition)@,
            },
            self.can_access(idx.spec_idx(), old(partition)@.len() as int) && offset + data@.len()
                <= self.spec_cluster_size() ==> r is Ok,
    {
        let plen = partition.len() as u64;
        let start = match self.cluster_start_byte(idx) {
            Some(b) => b,
            None => {
                return Err(ConvertError::InconsistentFileSystem);
            },
        };
        let n = data.len();
        if offset > self.cluster_size || n > self.cluster_size - offset || start > plen || (self.cluster_size as u64)
            > plen - start {
            return Err(ConvertError::InconsistentFileSystem);
        }
        write_bytes(partition, (start + offset as u64) as usize, data);
        proof {
            let p0 = old(partition)@;
            let off = self.spec_cluster_size() * idx.spec_idx() + offset;
            assert forall|b: int| 0 <= b < p0.len() && #[trigger] partition@[b] != p0[b] implies self.spec_cluster_size()
                * idx.spec_idx() <= b < self.spec_cluster_size() * idx.spec_idx() + self.spec_cluster_size() by {
                if b < off {
                    assert(partition@[b] == p0.subrange(0, off)[b]);
                } else if b >= off + data@.len() {
                    assert(partition@[b] == p0.subrange(off + data@.len(), p0.len() as int)[b - off - data@.len()]);
                }
            }
        }
        Ok(())
    }

    /// Overwrites cluster `idx`, one that this allocator handed out, from its start on with `data`; fails with
    /// `InconsistentFileSystem`, changing nothing, if `idx` is none of the allocator's clusters or `data` does not
    /// fit into it and the partition.
    pub fn write_block(&self, partition: &mut Vec<u8>, idx: u64, data: &[u8]) -> (r: Result<(), ConvertError>)
        ensures
            match r {
                Ok(_) => {
                    &&& self.spec_valid().start <= idx < self.spec_valid().end
                    &&& final(partition)@ == crate::bytes::spliced(old(partition)@, self.spec_cluster_size() * idx, data@)
                    &&& changes_within_cluster(old(partition)@, final(partition)@, idx as int, self.spec_cluster_size() as int)
                },
                Err(e) => e == ConvertError::InconsistentFileSystem && final(partition)@ == old(partition)@,
            },
            idx <= u32::MAX && self.can_access(idx as u32, old(partition)@.len() as int) && data@.len()
                <= self.spec_cluster_size() ==> r is Ok,
    {
        if idx > u32::MAX as u64 {
            return Err(ConvertError::InconsistentFileSystem);
        }
        self.write_in_cluster(partition, &AllocatedClusterIdx(idx as u32), 0, data)
    }

    /// Splits the allocator into an `AllocatedReader`, which can only read the clusters allocated so far, and an
    /// allocator for the clusters at or after the cursor.
    pub fn split_into_reader(self) -> (r: (AllocatedReader, Self))
        requires
            self.wf(),
        ensures
            r.0.spec_valid() == (self.spec_valid().start..self.spec_cursor()),
            r.0.spec_cluster_size() == self.spec_cluster_size(),
            r.1.wf(),
            r.1.spec_valid() == (self.spec_cursor()..self.spec_valid().end),
            r.1.spec_cursor() == self.spec_cursor(),
            r.1.spec_used() == self.spec_used(),
            r.1.spec_cluster_size() == self.spec_cluster_size(),
    {
        let reader = AllocatedReader {
            valid_cluster_indices: self.valid_cluster_indices.start..self.cursor,
            cluster_size: self.cluster_size,
        };
        let allocator = Allocator {
            valid_cluster_indices: self.cursor..self.valid_cluster_indices.end,
            cursor: self.cursor,
            used_ranges: self.used_ranges,
            cluster_size: self.cluster_size,
        };
        (reader, allocator)
    }

    fn fs_end_cluster_idx(&self) -> (r: ClusterIdx)
        ensures
            r == self.spec_valid().end,
    {
        self.valid_cluster_indices.end
    }
}

/// Reads the clusters that were allocated by the allocator that produced it; it cannot allocate.
#[derive(Debug)]
pub struct AllocatedReader {
    valid_cluster_indices: Range<ClusterIdx>,
    cluster_size: usize,
}

impl AllocatedReader {
    pub closed spec fn spec_valid(&self) -> Range<ClusterIdx> {
        self.valid_cluster_indices
    }

    pub closed spec fn spec_cluster_size(&self) -> usize {
        self.cluster_size
    }

    /// Whether cluster `idx` can be read through `self` in a partition of `partition_len` bytes.
    pub open spec fn can_access(&self, idx: ClusterIdx, partition_len: int) -> bool {
        &&& self.spec_valid().start <= idx < self.spec_valid().end
        &&& self.spec_cluster_size() * idx + self.spec_cluster_size() <= partition_len
    }

    /// The byte offset at which cluster `idx` starts, or `None` if the cluster can not be read through `self`.
    pub fn cluster_start_byte(&self, idx: &AllocatedClusterIdx) -> (r: Option<u64>)
        ensures
            r is Some <==> (self.spec_valid().start <= idx.spec_idx() < self.spec_valid().end
                && self.spec_cluster_size() * idx.spec_idx() <= u64::MAX),
            r matches Some(b) ==> b == self.spec_cluster_size() * idx.spec_idx(),
    {
        let cluster_idx = idx.as_cluster_idx();
        if self.valid_cluster_indices.start <= cluster_idx && cluster_idx < self.valid_cluster_indices.end {
            (self.cluster_size as u64).checked_mul(cluster_idx as u64)
        } else {
            None
        }
    }

    /// A copy of the allocated cluster `idx`.
    pub fn cluster(&self, partition: &[u8], idx: &AllocatedClusterIdx) -> (r: Vec<u8>)
        requires
            self.can_access(idx.spec_idx(), partition@.len() as int),
        ensures
            r@ == partition@.subrange(
                self.spec_cluster_size() * idx.spec_idx(),
                self.spec_cluster_size() * idx.spec_idx() + self.spec_cluster_size(),
            ),
    {
        let plen = partition.len();
        proof {
            assert(self.spec_cluster_size() * idx.spec_idx() >= 0) by (nonlinear_arith);
        }
        let start = match self.cluster_start_byte(idx) {
            Some(b) => b,
            None => 0,
        };
        copy_out(partition, start as usize, self.cluster_size)
    }
}

impl AllocatedReader {
    pub fn cluster_size(&self) -> (r: usize)
        ensures
            r == self.spec_cluster_size(),
    {
        self.cluster_size
    }

    /// A reader of the same clusters.
    pub fn duplicate(&self) -> (r: Self)
        ensures
            r.spec_valid() == self.spec_valid(),
            r.spec_cluster_size() == self.spec_cluster_size(),
    {
        AllocatedReader {
            valid_cluster_indices: self.valid_cluster_indices.start..self.valid_cluster_indices.end,
            cluster_size: self.cluster_size,
        }
    }

    /// A copy of cluster `idx`, read through `self`, or `None` if it cannot be.
    pub fn read_cluster(&self, partition: &[u8], idx: ClusterIdx) -> (r: Option<Vec<u8>>)
        ensures
            r is Some <==> self.can_access(idx, partition@.len() as int),
            r matches Some(c) ==> c@ == partition@.subrange(
                self.spec_cluster_size() * idx,
                self.spec_cluster_size() * idx + self.spec_cluster_size(),
            ),
    {
        if idx < self.valid_cluster_indices.start || idx >= self.valid_cluster_indices.end {
            return None;
        }
        let plen = partition.len() as u64;
        proof {
            assert(self.cluster_size * idx <= 0xFFFF_FFFF_FFFF_FFFF * 0xFFFF_FFFF) by (nonlinear_arith)
                requires
                    self.cluster_size <= 0xFFFF_FFFF_FFFF_FFFF,
                    idx <= 0xFFFF_FFFF,
            ;
        }
        let start = match (self.cluster_size as u64).checked_mul(idx as u64) {
            Some(s) => s,
            None => {
                proof {
                    assert(self.spec_cluster_size() * idx + self.spec_cluster_size() > partition@.len());
                }
                return None;
            },
        };
        if start > plen || (self.cluster_size as u64) > plen - start {
            return None;
        }
        Some(copy_out(partition, start as usize, self.cluster_size))
    }
}

/// Coming to a state is transitive: whatever sequence of operations leads from `a` to `b` and from `b` to `c` leads
/// from `a` to `c`.
pub proof fn law_reaches_is_transitive(a: Allocator, b: Allocator, c: Allocator)
    requires
        a.reaches(b),
        b.reaches(c),
    ensures
        a.reaches(c),
{
}

/// No cluster is handed out twice: whatever the allocator went through between two allocations, the clusters handed
/// out later all lie after those handed out earlier.
pub proof fn law_no_cluster_handed_out_twice(
    first_before: Allocator,
    first_after: Allocator,
    first_start: int,
    first_end: int,
    second_before: Allocator,
    second_after: Allocator,
    second_start: int,
    second_end: int,
)
    requires
        first_before.hands_out(first_after, first_start, first_end),
        first_after.reaches(second_before),
        second_before.hands_out(second_after, second_start, second_end),
    ensures
        first_end <= second_start,
{
}

/// A cluster that is excluded from allocation, by `forbid` or from the start, is never handed out afterwards.
pub proof fn law_excluded_cluster_never_handed_out(
    excluding: Allocator,
    x: int,
    before: Allocator,
    after: Allocator,
    start: int,
    end: int,
)
    requires
        excluding.spec_used().covers(x),
        excluding.reaches(before),
        before.hands_out(after, start, end),
    ensures
        !(start <= x < end),
{
    assert(before.spec_used().covers(x));
}

/// The reader and the allocator that `split_into_reader` makes can reach no cluster in common, however the allocator
/// is used afterwards.
pub proof fn law_split_parts_share_no_cluster(
    reader: AllocatedReader,
    allocator: Allocator,
    later: Allocator,
    idx: ClusterIdx,
    partition_len: int,
)
    requires
        reader.spec_valid().end <= allocator.spec_valid().start,
        allocator.reaches(later),
    ensures
        !(reader.can_access(idx, partition_len) && later.can_access(idx, partition_len)),
{
}

} // verus!
