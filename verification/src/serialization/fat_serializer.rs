use vstd::prelude::*;
use std::ops::Range;
use crate::allocator::{changes_only_free, changes_within_cluster, lemma_changes_only_free_refl, lemma_changes_only_free_trans, lemma_cluster_change_is_free, Allocator};
use crate::error::ConvertError;
use crate::ext4::superblock::{new_error, SuperBlock, INODE_SIZE};
use crate::ext4::fs::group_fits;
use crate::ext4::{FIRST_EXISTING_INODE, FIRST_NON_RESERVED_INODE};
use crate::serialization::dry_run_deserializer::{lemma_tree_needs_bounds, tree_needs};
use crate::serialization::file_records::{
    archives_file, archives_files, archives_tree, children_span, file_span, lemma_children_span_push,
    lemma_children_span_unfold, lemma_directory_file_span, lemma_regular_file_span,
};
use crate::fat::dentry::FatDentry;
use crate::fat::dir::FatFile;
use crate::fat::fs::{expand_ranges, DataClusterRange, FatFs};
use crate::fat::table_index::{DataClusterIdx, FatTableIndex, ROOT_FAT_IDX};
use crate::ranges::{ClusterIdx, Ranges};
use crate::serialization::dentry::DentryRepresentation;
use crate::serialization::ext4_deserializer::Ext4TreeDeserializerInternals;
use crate::serialization::stream_archiver::{Record, StreamArchiver, MIN_PAGE_PAYLOAD_SIZE, PAGE_IDX_SIZE};
use crate::serialization::FileType;

verus! {

/// A file whose data lies only in clusters that the ext4 metadata will not overwrite.
pub struct NonOverlappingFatFile {
    pub name: Vec<u8>,
    pub dentry: FatDentry,
    pub data_ranges: Vec<Range<ClusterIdx>>,
}

impl NonOverlappingFatFile {
    pub fn new(name: Vec<u8>, dentry: FatDentry) -> (r: Self)
        ensures
            r.name@ == name@,
            r.dentry == dentry,
            r.data_ranges@.len() == 0,
    {
        NonOverlappingFatFile { name, dentry, data_ranges: Vec::new() }
    }
}

/// No cluster of any range of `ranges` is covered by `forbidden`.
pub open spec fn avoids(ranges: Seq<Range<ClusterIdx>>, forbidden: Ranges) -> bool {
    forall|i: int, z: int|
        0 <= i < ranges.len() && (#[trigger] ranges[i]).start <= z < ranges[i].end ==> !#[trigger] forbidden.covers(z)
}

/// The bytes of cluster `c` of `p`, for clusters of `cs` bytes.
pub open spec fn cluster_bytes(p: Seq<u8>, c: int, cs: int) -> Seq<u8> {
    p.subrange(cs * c, cs * c + cs)
}

/// The clusters of `ranges`, in order.
pub open spec fn ranges_clusters(ranges: Seq<Range<ClusterIdx>>) -> Seq<int>
    decreases ranges.len(),
{
    if ranges.len() == 0 {
        Seq::empty()
    } else {
        let last = ranges.last();
        ranges_clusters(ranges.drop_last()) + if last.start <= last.end {
            Seq::new((last.end - last.start) as nat, |i: int| last.start + i)
        } else {
            Seq::empty()
        }
    }
}

/// Between `before` and `after`, only bytes of the clusters `lo..hi` changed.
pub open spec fn changes_only_between(before: Seq<u8>, after: Seq<u8>, lo: int, hi: int, cs: int) -> bool {
    &&& after.len() == before.len()
    &&& forall|b: int| 0 <= b < before.len() && #[trigger] after[b] != before[b] ==> lo <= b / cs < hi
}

/// The data region of the FAT filesystem starts at a cluster boundary, so that its data cluster `d` is cluster
/// `first_data_cluster(fs) + d` of the partition.
pub open spec fn data_aligned(fs: FatFs) -> bool {
    fs.spec_data_start() % fs.spec_boot_sector().spec_cluster_size() == 0
}

/// The cluster of the partition at which the data region starts.
pub open spec fn first_data_cluster(fs: FatFs) -> int {
    fs.spec_boot_sector().spec_first_data_sector() / (fs.spec_boot_sector().sectors_per_cluster as int)
}

/// The clusters of the partition that hold the data of `file`, in order.
pub open spec fn file_clusters(fs: FatFs, file: FatFile) -> Seq<int> {
    shift_clusters(expand_ranges(file.data_ranges@), first_data_cluster(fs))
}

/// The `len` consecutive clusters from `start` on.
pub open spec fn clusters_from(start: int, len: nat) -> Seq<int> {
    Seq::new(len, |j: int| start + j)
}

/// Data cluster indices turned into cluster indices of the partition, for a data region starting at cluster `fdc`.
pub open spec fn shift_clusters(ds: Seq<u32>, fdc: int) -> Seq<int> {
    ds.map_values(|d: u32| fdc + d)
}

proof fn lemma_aligned_data_start(fs: FatFs)
    requires
        fs.wf(),
        data_aligned(fs),
    ensures
        fs.spec_data_start() == fs.spec_boot_sector().spec_cluster_size() * first_data_cluster(fs),
{
    let bs = fs.spec_boot_sector();
    let a = bs.spec_first_data_sector();
    let b = bs.bytes_per_sector as int;
    let c = bs.sectors_per_cluster as int;
    assert((a * b) / (c * b) == a / c) by (nonlinear_arith)
        requires
            a >= 0,
            b > 0,
            c > 0,
    ;
    let d = fs.spec_data_start();
    let cs = bs.spec_cluster_size();
    bs.lemma_geometry();
    assert(d == cs * (d / cs)) by (nonlinear_arith)
        requires
            d % cs == 0,
            cs > 0,
    ;
}

/// Writing cluster `n` leaves the bytes of every other cluster as they were.
proof fn lemma_other_cluster_unchanged(p: Seq<u8>, q: Seq<u8>, n: int, m: int, cs: int)
    requires
        changes_within_cluster(p, q, n, cs),
        0 <= n,
        0 <= m,
        n != m,
        cs > 0,
        cs * m + cs <= p.len(),
    ensures
        cluster_bytes(q, m, cs) == cluster_bytes(p, m, cs),
{
    assert forall|b: int| cs * m <= b < cs * m + cs implies q[b] == p[b] by {
        crate::serialization::archive_layout::lemma_pages_disjoint(m, n, cs, b);
    }
    assert(0 <= cs * m) by (nonlinear_arith)
        requires
            cs > 0,
            m >= 0,
    ;
    assert(cluster_bytes(q, m, cs) =~= cluster_bytes(p, m, cs));
}

/// Writing cluster `n` changes only the clusters `lo..hi` if `n` is one of them.
proof fn lemma_cluster_change_between(p: Seq<u8>, q: Seq<u8>, n: int, lo: int, hi: int, cs: int)
    requires
        changes_within_cluster(p, q, n, cs),
        lo <= n < hi,
        cs > 0,
    ensures
        changes_only_between(p, q, lo, hi, cs),
{
    assert forall|b: int| 0 <= b < p.len() && #[trigger] q[b] != p[b] implies lo <= b / cs < hi by {
        assert(b / cs == n) by (nonlinear_arith)
            requires
                cs * n <= b < cs * n + cs,
                cs > 0,
        ;
    }
}

/// Cluster `c` lies within a partition of `len` bytes.
pub open spec fn cluster_within(len: int, c: int, cs: int) -> bool {
    cs * c + cs <= len
}

/// A cluster in use keeps its bytes where only clusters not in use change.
proof fn lemma_used_cluster_unchanged(p: Seq<u8>, q: Seq<u8>, used: Ranges, c: int, cs: int)
    requires
        changes_only_free(p, q, used, cs),
        used.covers(c),
        cs > 0,
        0 <= cs * c,
        cs * c + cs <= p.len(),
    ensures
        cluster_bytes(q, c, cs) == cluster_bytes(p, c, cs),
{
    assert forall|b: int| cs * c <= b < cs * c + cs implies q[b] == p[b] by {
        assert(b / cs == c) by (nonlinear_arith)
            requires
                cs * c <= b < cs * c + cs,
                cs > 0,
        ;
    }
    assert(cluster_bytes(q, c, cs) =~= cluster_bytes(p, c, cs));
}

/// Changes within the clusters `lo..hi1` followed by changes within `lo..hi2` are changes within `lo..hi2`.
proof fn lemma_changes_between_trans(a: Seq<u8>, b: Seq<u8>, c: Seq<u8>, lo: int, hi1: int, hi2: int, cs: int)
    requires
        changes_only_between(a, b, lo, hi1, cs),
        changes_only_between(b, c, lo, hi2, cs),
        hi1 <= hi2,
    ensures
        changes_only_between(a, c, lo, hi2, cs),
{
    assert forall|x: int| 0 <= x < a.len() && #[trigger] c[x] != a[x] implies lo <= x / cs < hi2 by {
        if b[x] != a[x] {
        } else {
            assert(c[x] != b[x]);
        }
    }
}

/// Each cluster of `produced` holds in `p` what the cluster at the same place of `olds` held in `p0`; it lies within
/// the partition, and is in use or lies before `cursor`, so that clusters allocated from `cursor` on are others.
pub open spec fn produced_as(
    p: Seq<u8>,
    p0: Seq<u8>,
    produced: Seq<int>,
    olds: Seq<int>,
    used: Ranges,
    cursor: int,
    cs: int,
) -> bool {
    &&& produced.len() == olds.len()
    &&& forall|k: int|
        0 <= k < produced.len() ==> {
            &&& cluster_bytes(p, #[trigger] produced[k], cs) == cluster_bytes(p0, olds[k], cs)
            &&& (used.covers(produced[k]) || produced[k] < cursor)
            &&& 0 <= produced[k]
            &&& cluster_within(p.len() as int, produced[k], cs)
        }
}

/// The clusters of a list of ranges extended by more ranges are those of the list, then those of the others.
proof fn lemma_ranges_clusters_append(a: Seq<Range<ClusterIdx>>, b: Seq<Range<ClusterIdx>>)
    ensures
        ranges_clusters(a + b) == ranges_clusters(a) + ranges_clusters(b),
    decreases b.len(),
{
    if b.len() == 0 {
        assert(a + b =~= a);
        assert(ranges_clusters(a) + ranges_clusters(b) =~= ranges_clusters(a));
    } else {
        lemma_ranges_clusters_append(a, b.drop_last());
        assert((a + b).drop_last() =~= a + b.drop_last());
        assert((a + b).last() == b.last());
        let tail = if b.last().start <= b.last().end {
            Seq::new((b.last().end - b.last().start) as nat, |i: int| b.last().start + i)
        } else {
            Seq::empty()
        };
        assert(ranges_clusters(a + b) == ranges_clusters(a + b.drop_last()) + tail);
        assert(ranges_clusters(b) == ranges_clusters(b.drop_last()) + tail);
        assert(ranges_clusters(a) + ranges_clusters(b.drop_last()) + tail =~= ranges_clusters(a) + (ranges_clusters(
            b.drop_last(),
        ) + tail));
    }
}

/// The clusters of the first `i + 1` data ranges of a file are those of the first `i`, then those of range `i`.
proof fn lemma_file_clusters_step(ranges: Seq<DataClusterRange>, i: int, fdc: int)
    requires
        0 <= i < ranges.len(),
        ranges[i].first.0 <= ranges[i].last.0,
    ensures
        shift_clusters(expand_ranges(ranges.take(i + 1)), fdc) == shift_clusters(expand_ranges(ranges.take(i)), fdc)
            + clusters_from(fdc + ranges[i].first.0, (ranges[i].last.0 - ranges[i].first.0 + 1) as nat),
{
    let t = ranges.take(i + 1);
    assert(t.drop_last() =~= ranges.take(i));
    assert(t.last() == ranges[i]);
    let a = expand_ranges(ranges.take(i));
    let b = Seq::new((ranges[i].last.0 - ranges[i].first.0 + 1) as nat, |j: int| (ranges[i].first.0 + j) as u32);
    assert(expand_ranges(t) == a + b);
    assert(shift_clusters(a + b, fdc) =~= shift_clusters(a, fdc) + clusters_from(
        fdc + ranges[i].first.0,
        (ranges[i].last.0 - ranges[i].first.0 + 1) as nat,
    ));
}

/// The data clusters of the first `m` ranges are the first ones of all the ranges.
proof fn lemma_expand_prefix(ranges: Seq<DataClusterRange>, m: int)
    requires
        0 <= m <= ranges.len(),
    ensures
        expand_ranges(ranges.take(m)).len() <= expand_ranges(ranges).len(),
        forall|k: int|
            0 <= k < expand_ranges(ranges.take(m)).len() ==> #[trigger] expand_ranges(ranges.take(m))[k]
                == expand_ranges(ranges)[k],
    decreases ranges.len(),
{
    if m == ranges.len() {
        assert(ranges.take(m) =~= ranges);
    } else {
        let d = ranges.drop_last();
        lemma_expand_prefix(d, m);
        assert(d.take(m) =~= ranges.take(m));
    }
}

/// Fragments that follow each other end no later than the last one.
proof fn lemma_fragments_end(frags: Seq<(Range<ClusterIdx>, bool)>, k: int)
    requires
        0 <= k < frags.len(),
        forall|j: int| 0 <= j < frags.len() ==> (#[trigger] frags[j]).0.start <= frags[j].0.end,
        forall|j: int| 0 <= j < frags.len() - 1 ==> (#[trigger] frags[j]).0.end == frags[j + 1].0.start,
    ensures
        frags[k].0.end <= frags[frags.len() - 1].0.end,
    decreases frags.len() - k,
{
    if k < frags.len() - 1 {
        assert(frags[k].0.end == frags[k + 1].0.start);
        assert(frags[k + 1].0.start <= frags[k + 1].0.end);
        lemma_fragments_end(frags, k + 1);
    }
}

/// Produced clusters keep their bytes when only clusters not in use from `lo` on change.
proof fn lemma_produced_frame(
    pb: Seq<u8>,
    pa: Seq<u8>,
    p0: Seq<u8>,
    produced: Seq<int>,
    olds: Seq<int>,
    used: Ranges,
    lo: int,
    hi: int,
    cs: int,
)
    requires
        produced_as(pb, p0, produced, olds, used, lo, cs),
        changes_only_free(pb, pa, used, cs),
        changes_only_between(pb, pa, lo, hi, cs),
        lo <= hi,
        cs > 0,
    ensures
        produced_as(pa, p0, produced, olds, used, hi, cs),
{
    assert forall|k: int| 0 <= k < produced.len() implies {
        &&& cluster_bytes(pa, #[trigger] produced[k], cs) == cluster_bytes(p0, olds[k], cs)
        &&& (used.covers(produced[k]) || produced[k] < hi)
        &&& 0 <= produced[k]
        &&& cluster_within(pa.len() as int, produced[k], cs)
    } by {
        let c = produced[k];
        assert(0 <= cs * c) by (nonlinear_arith)
            requires
                cs > 0,
                c >= 0,
        ;
        if used.covers(c) {
            lemma_used_cluster_unchanged(pb, pa, used, c, cs);
        } else {
            assert forall|b: int| cs * c <= b < cs * c + cs implies pa[b] == pb[b] by {
                assert(b / cs == c) by (nonlinear_arith)
                    requires
                        cs * c <= b < cs * c + cs,
                        cs > 0,
                ;
            }
            assert(cluster_bytes(pa, c, cs) =~= cluster_bytes(pb, c, cs));
        }
    }
}

/// Appending copied clusters, which hold what the clusters from `src` on held, to the produced clusters.
proof fn lemma_produced_extend_copied(
    pa: Seq<u8>,
    pb: Seq<u8>,
    p0: Seq<u8>,
    produced: Seq<int>,
    olds: Seq<int>,
    copied: Seq<int>,
    src: int,
    used: Ranges,
    alloc_b: int,
    alloc_a: int,
    cs: int,
)
    requires
        produced_as(pa, p0, produced, olds, used, alloc_a, cs),
        changes_only_free(p0, pb, used, cs),
        cs > 0,
        pa.len() == p0.len(),
        forall|j: int|
            0 <= j < copied.len() ==> alloc_b <= #[trigger] copied[j] < alloc_a && cs * copied[j] + cs <= p0.len(),
        forall|j: int| 0 <= j < copied.len() ==> cluster_bytes(pa, #[trigger] copied[j], cs) == cluster_bytes(pb, src + j, cs),
        forall|c: int| src <= c < src + copied.len() ==> #[trigger] used.covers(c) && cluster_within(p0.len() as int, c, cs),
        0 <= alloc_b,
        0 <= src,
    ensures
        produced_as(pa, p0, produced + copied, olds + Seq::new(copied.len(), |j: int| src + j), used, alloc_a, cs),
{
    let olds2 = olds + Seq::new(copied.len(), |j: int| src + j);
    let produced2 = produced + copied;
    assert forall|k: int| 0 <= k < produced2.len() implies {
        &&& cluster_bytes(pa, #[trigger] produced2[k], cs) == cluster_bytes(p0, olds2[k], cs)
        &&& (used.covers(produced2[k]) || produced2[k] < alloc_a)
        &&& 0 <= produced2[k]
        &&& cluster_within(pa.len() as int, produced2[k], cs)
    } by {
        if k < produced.len() {
            assert(produced2[k] == produced[k]);
            assert(olds2[k] == olds[k]);
        } else {
            let j = k - produced.len();
            assert(produced2[k] == copied[j]);
            assert(olds2[k] == src + j);
            assert(used.covers(src + j));
            assert(0 <= cs * (src + j)) by (nonlinear_arith)
                requires
                    cs > 0,
                    src + j >= 0,
            ;
            lemma_used_cluster_unchanged(p0, pb, used, src + j, cs);
        }
    }
}

/// Every cluster index of the cluster ranges of `file` fits into a `ClusterIdx`, and no cluster of the file is
/// forbidden: the file can keep all its clusters.
pub open spec fn file_needs_no_copy(fs: FatFs, file: FatFile, forbidden: Ranges) -> bool {
    &&& forall|i: int|
        0 <= i < file.data_ranges@.len() && (#[trigger] file.data_ranges@[i]).first.0 <= file.data_ranges@[i].last.0
            ==> file.data_ranges@[i].last.0 + first_data_cluster(fs) + 1 <= u32::MAX
    &&& forall|k: int| 0 <= k < file_clusters(fs, file).len() ==> !forbidden.covers(#[trigger] file_clusters(fs, file)[k])
}

/// `file` can be moved off the forbidden clusters: every cluster index of its cluster ranges fits into a
/// `ClusterIdx`, each of its data clusters is in use and inside the data region, the allocator has
/// at least as many free clusters as the file has clusters, and every cluster it can hand out lies inside a
/// partition of `plen` bytes.
pub open spec fn file_movable(serializer: FatTreeSerializer, file: FatFile, plen: int) -> bool {
    let fs = serializer.fat_fs;
    &&& forall|i: int|
        0 <= i < file.data_ranges@.len() && (#[trigger] file.data_ranges@[i]).first.0 <= file.data_ranges@[i].last.0
            ==> file.data_ranges@[i].last.0 + first_data_cluster(fs) + 1 <= u32::MAX
    &&& forall|i: int, d: int|
        0 <= i < file.data_ranges@.len() && (#[trigger] file.data_ranges@[i]).first.0 <= d <= file.data_ranges@[i].last.0
            ==> #[trigger] fs.data_cluster_readable(d)
    &&& serializer.allocator.free_clusters() >= file_clusters(fs, file).len()
    &&& serializer.allocator.spec_cluster_size() * serializer.allocator.spec_valid().end <= plen
}

/// The produced clusters stand one for one for the `olds` clusters, and every old cluster that is not forbidden is
/// produced as itself: only forbidden clusters are replaced.
pub open spec fn kept_in_place(produced: Seq<int>, olds: Seq<int>, forbidden: Ranges) -> bool {
    &&& produced.len() == olds.len()
    &&& forall|k: int| 0 <= k < produced.len() && !forbidden.covers(olds[k]) ==> #[trigger] produced[k] == olds[k]
}

/// Extending both sequences by parts that keep every cluster that is not forbidden keeps `kept_in_place`.
proof fn lemma_kept_in_place_extend(
    produced: Seq<int>,
    olds: Seq<int>,
    more_produced: Seq<int>,
    more_olds: Seq<int>,
    forbidden: Ranges,
)
    requires
        kept_in_place(produced, olds, forbidden),
        more_produced.len() == more_olds.len(),
        forall|j: int| 0 <= j < more_olds.len() && !forbidden.covers(more_olds[j]) ==> #[trigger] more_produced[j] == more_olds[j],
    ensures
        kept_in_place(produced + more_produced, olds + more_olds, forbidden),
{
    let p2 = produced + more_produced;
    let o2 = olds + more_olds;
    assert forall|k: int| 0 <= k < p2.len() && !forbidden.covers(o2[k]) implies #[trigger] p2[k] == o2[k] by {
        if k < produced.len() {
            assert(p2[k] == produced[k] && o2[k] == olds[k]);
        } else {
            let j = k - produced.len();
            assert(p2[k] == more_produced[j] && o2[k] == more_olds[j]);
        }
    }
}

/// Appending kept clusters, which are in use and so hold what they held, to the produced clusters.
proof fn lemma_produced_extend_kept(
    p: Seq<u8>,
    p0: Seq<u8>,
    produced: Seq<int>,
    olds: Seq<int>,
    start: int,
    len: int,
    used: Ranges,
    cursor: int,
    cs: int,
)
    requires
        produced_as(p, p0, produced, olds, used, cursor, cs),
        changes_only_free(p0, p, used, cs),
        cs > 0,
        0 <= start,
        0 <= len,
        forall|j: int| 0 <= j < len ==> #[trigger] used.covers(start + j),
        forall|j: int| 0 <= j < len ==> #[trigger] cluster_within(p0.len() as int, start + j, cs),
    ensures
        produced_as(
            p,
            p0,
            produced + Seq::new(len as nat, |j: int| start + j),
            olds + Seq::new(len as nat, |j: int| start + j),
            used,
            cursor,
            cs,
        ),
{
    let kept = Seq::new(len as nat, |j: int| start + j);
    let olds2 = olds + kept;
    let produced2 = produced + kept;
    assert forall|k: int| 0 <= k < produced2.len() implies {
        &&& cluster_bytes(p, #[trigger] produced2[k], cs) == cluster_bytes(p0, olds2[k], cs)
        &&& (used.covers(produced2[k]) || produced2[k] < cursor)
        &&& 0 <= produced2[k]
        &&& cluster_within(p.len() as int, produced2[k], cs)
    } by {
        if k < produced.len() {
            assert(produced2[k] == produced[k]);
            assert(olds2[k] == olds[k]);
        } else {
            let j = k - produced.len();
            assert(produced2[k] == start + j);
            assert(olds2[k] == start + j);
            assert(used.covers(start + j));
            assert(cluster_within(p0.len() as int, start + j, cs));
            assert(0 <= cs * (start + j)) by (nonlinear_arith)
                requires
                    cs > 0,
                    start + j >= 0,
            ;
            lemma_used_cluster_unchanged(p0, p, used, start + j, cs);
        }
    }
}

/// Serialization changes only clusters that the allocator considers free (see the `ensures` of
/// `FatTreeSerializer::serialize_directory_tree` and, for a failure, of `into_deserializer`); every byte of a cluster
/// that it considers used, and so of the boot sector, the FATs and every cluster that holds FAT data, keeps its
/// value: a conversion that fails before the ext4 metadata is written leaves the FAT filesystem as it was.
pub proof fn law_serialization_keeps_used_clusters(before: Seq<u8>, after: Seq<u8>, used: Ranges, cluster_size: int, x: int)
    requires
        changes_only_free(before, after, used, cluster_size),
        0 <= x < before.len(),
        used.covers(x / cluster_size),
    ensures
        after[x] == before[x],
{
}

/// The records `rs` begin with the records `prefix`.
pub open spec fn extends(rs: Seq<Record>, prefix: Seq<Record>) -> bool {
    &&& prefix.len() <= rs.len()
    &&& rs.subrange(0, prefix.len() as int) == prefix
}

/// No records are no files.
proof fn lemma_archives_no_files(rs: Seq<Record>)
    ensures
        archives_files(rs.skip(rs.len() as int), 0, 0),
{
    assert forall|budget: nat| budget >= 0 implies #[trigger] children_span(rs.skip(rs.len() as int), 0, budget)
        == Some((rs.skip(rs.len() as int).len(), (budget - 0) as nat)) by {
        lemma_children_span_unfold(rs.skip(rs.len() as int), 0, budget);
    }
}

/// Files archived from `n0` on, followed by one more archived file, are one more archived file.
proof fn lemma_archives_push(rs1: Seq<Record>, rs2: Seq<Record>, n0: int, i: nat, c_a: nat, c_f: nat)
    requires
        0 <= n0 <= rs1.len(),
        extends(rs2, rs1),
        archives_files(rs1.skip(n0), i, c_a),
        archives_file(rs2.skip(rs1.len() as int), c_f),
    ensures
        archives_files(rs2.skip(n0), i + 1, c_a + c_f),
{
    let a = rs1.skip(n0);
    let f = rs2.skip(rs1.len() as int);
    assert(rs2.skip(n0) =~= a + f) by {
        assert forall|j: int| 0 <= j < rs1.len() - n0 implies rs2.skip(n0)[j] == a[j] by {
            assert(rs2.subrange(0, rs1.len() as int)[n0 + j] == rs1[n0 + j]);
        }
    }
    assert forall|budget: nat| budget >= c_a + c_f implies #[trigger] children_span(rs2.skip(n0), i + 1, budget)
        == Some((rs2.skip(n0).len(), (budget - (c_a + c_f)) as nat)) by {
        assert(children_span(a, i, budget) == Some((a.len(), (budget - c_a) as nat)));
        assert(file_span(f, (budget - c_a) as nat) == Some((f.len(), (budget - c_a - c_f) as nat)));
        lemma_children_span_push(a, i, budget, (budget - c_a) as nat, f, (budget - c_a - c_f) as nat);
    }
}

/// A directory's type, dentry and name, followed by its archived files, are one archived file.
proof fn lemma_archives_directory(rs1: Seq<Record>, rs2: Seq<Record>, rs3: Seq<Record>, k: u32, c: nat)
    requires
        rs2.len() == rs1.len() + 3,
        extends(rs2, rs1),
        extends(rs3, rs2),
        file_types_of(rs2[rs1.len() as int]) == Some(seq![FileType::Directory(k)]),
        rs2[rs1.len() as int + 1] matches Record::Dentries(v) && v@.len() == 1,
        rs2[rs1.len() as int + 2] is Bytes,
        archives_files(rs3.skip(rs2.len() as int), k as nat, c),
    ensures
        archives_file(rs3.skip(rs1.len() as int), c + 1),
{
    let n = rs1.len() as int;
    let f = rs3.skip(n);
    assert(f.skip(3) =~= rs3.skip(rs2.len() as int));
    assert(f[0] == rs2[n] && f[1] == rs2[n + 1] && f[2] == rs2[n + 2]) by {
        assert(rs3.subrange(0, rs2.len() as int)[n] == rs2[n]);
        assert(rs3.subrange(0, rs2.len() as int)[n + 1] == rs2[n + 1]);
        assert(rs3.subrange(0, rs2.len() as int)[n + 2] == rs2[n + 2]);
    }
    assert forall|budget: nat| budget >= c + 1 implies #[trigger] file_span(f, budget) == Some(
        (f.len(), (budget - (c + 1)) as nat),
    ) by {
        assert(children_span(f.skip(3), k as nat, (budget - 1) as nat) == Some(
            (rs3.skip(rs2.len() as int).len(), (budget - 1 - c) as nat),
        ));
        lemma_directory_file_span(f, k, budget, (budget - 1 - c) as nat);
    }
}

/// The number of files of the root directory, followed by those files archived, is an archived tree.
proof fn lemma_archives_tree(rs1: Seq<Record>, rs2: Seq<Record>, rs3: Seq<Record>, k: u32, c: nat)
    requires
        rs2.len() == rs1.len() + 1,
        extends(rs3, rs2),
        file_types_of(rs2.last()) == Some(seq![FileType::Directory(k)]),
        archives_files(rs3.skip(rs2.len() as int), k as nat, c),
    ensures
        archives_tree(rs3.skip(rs1.len() as int), c),
{
    let n = rs1.len() as int;
    let t = rs3.skip(n);
    assert(t.drop_first() =~= rs3.skip(rs2.len() as int));
    assert(t[0] == rs2[n]) by {
        assert(rs3.subrange(0, rs2.len() as int)[n] == rs2[n]);
    }
}

pub proof fn lemma_extends_trans(a: Seq<Record>, b: Seq<Record>, c: Seq<Record>)
    requires
        extends(b, a),
        extends(c, b),
    ensures
        extends(c, a),
{
    assert(c.subrange(0, a.len() as int) =~= c.subrange(0, b.len() as int).subrange(0, a.len() as int));
}

/// The list of file types that record `r` holds, if it holds one.
pub open spec fn file_types_of(r: Record) -> Option<Seq<FileType>> {
    match r {
        Record::FileTypes(v) => Some(v@),
        _ => None,
    }
}

/// The ext4 filesystem that `superblock` describes can be built in a partition of `partition_len` bytes and has
/// inodes for `inodes` files besides the reserved ones.
pub open spec fn superblock_takes(superblock: SuperBlock, inodes: int, partition_len: int) -> bool {
    &&& inodes + (FIRST_NON_RESERVED_INODE - FIRST_EXISTING_INODE) <= superblock.s_inodes_count
    &&& superblock.s_inode_size == INODE_SIZE
    &&& superblock.s_inodes_per_group > 0
    &&& forall|g: int| 0 <= g < superblock.spec_block_group_count() ==> #[trigger] group_fits(superblock, g, partition_len)
}

/// Serializes the FAT directory tree into the archive, copying the data of every file that lies in a cluster that
/// the ext4 metadata will overwrite to newly allocated clusters.
pub struct FatTreeSerializer {
    pub fat_fs: FatFs,
    pub allocator: Allocator,
    pub stream_archiver: StreamArchiver,
    /// clusters that cannot hold any data, as they will be overwritten with ext4 metadata
    pub forbidden_ranges: Ranges,
    /// the number of files archived so far
    pub file_count: u64,
}

impl FatTreeSerializer {
    /// The allocator never hands out a forbidden cluster and has the archive's page size as its cluster size, and
    /// the FAT filesystem lies within a partition of `partition_len` bytes.
    pub open spec fn wf(&self, partition_len: int) -> bool {
        &&& self.fat_fs.wf()
        &&& self.fat_fs.spec_data_start() + self.fat_fs.spec_data_len() <= partition_len
        &&& self.allocator.wf()
        &&& self.stream_archiver.wf()
        &&& self.allocator.spec_cluster_size() == self.stream_archiver.spec_page_size()
        &&& self.allocator.spec_cluster_size() == self.fat_fs.spec_boot_sector().spec_cluster_size()
        &&& self.forbidden_ranges.wf()
        &&& forall|x: int| #[trigger] self.forbidden_ranges.covers(x) ==> self.allocator.spec_used().covers(x)
        &&& self.stream_archiver.pages_free(self.allocator.spec_used())
    }

    /// The archive reads back from `p` as a reader of the clusters allocated so far reads it.
    pub open spec fn archive_holds(&self, p: Seq<u8>) -> bool {
        self.stream_archiver.holds(
            p,
            self.allocator.spec_valid().start as int,
            self.allocator.spec_cursor() as int,
            self.allocator.spec_used(),
        )
    }

    /// The cluster size of the filesystem.
    pub open spec fn spec_cluster_size(&self) -> int {
        self.allocator.spec_cluster_size() as int
    }

    /// A serializer that archives into clusters that `allocator` hands out, in pages of the cluster size.
    pub fn new(allocator: Allocator, fat_fs: FatFs, forbidden_ranges: Ranges) -> (r: Result<Self, ConvertError>)
        requires
            fat_fs.wf(),
            allocator.wf(),
            allocator.spec_cluster_size() == fat_fs.spec_boot_sector().spec_cluster_size(),
            forbidden_ranges.wf(),
            forall|x: int| #[trigger] forbidden_ranges.covers(x) ==> allocator.spec_used().covers(x),
        ensures
            r matches Ok(s) ==> s.fat_fs == fat_fs && s.forbidden_ranges == forbidden_ranges && s.file_count == 0
                && s.allocator == allocator && s.stream_archiver.wf() && s.allocator.spec_cluster_size()
                == s.stream_archiver.spec_page_size() && s.stream_archiver.pages_free(s.allocator.spec_used()),
            r matches Ok(s) ==> s.stream_archiver.spec_records() == Seq::<Record>::empty() && forall|p: Seq<u8>|
                #[trigger] s.archive_holds(p),
            r is Err <==> fat_fs.spec_boot_sector().spec_cluster_size() < PAGE_IDX_SIZE + MIN_PAGE_PAYLOAD_SIZE,
            r matches Err(e) ==> e == ConvertError::ClusterSizeTooSmall,
    {
        let page_size = fat_fs.cluster_size() as usize;
        if page_size < PAGE_IDX_SIZE + MIN_PAGE_PAYLOAD_SIZE {
            return Err(ConvertError::ClusterSizeTooSmall);
        }
        let stream_archiver = StreamArchiver::new(page_size);
        Ok(FatTreeSerializer { fat_fs, allocator, stream_archiver, forbidden_ranges, file_count: 0 })
    }

    fn archive(&mut self, record: &Record, partition: &mut Vec<u8>) -> (r: Result<(), ConvertError>)
        requires
            old(self).wf(old(partition)@.len() as int),
        ensures
            r == Err::<(), ConvertError>(ConvertError::NoFreeClusters) ==> final(self).allocator.exhausted(),
            final(self).wf(final(partition)@.len() as int),
            final(partition)@.len() == old(partition)@.len(),
            final(self).fat_fs == old(self).fat_fs,
            final(self).forbidden_ranges == old(self).forbidden_ranges,
            final(self).allocator.spec_used() == old(self).allocator.spec_used(),
            final(self).spec_cluster_size() == old(self).spec_cluster_size(),
            changes_only_free(old(partition)@, final(partition)@, old(self).allocator.spec_used(), old(self).spec_cluster_size()),
            final(self).file_count == old(self).file_count,
            old(self).archive_holds(old(partition)@) && r is Ok ==> final(self).archive_holds(final(partition)@),
            r is Ok ==> final(self).stream_archiver.spec_records() == old(self).stream_archiver.spec_records().push(*record),
    {
        self.stream_archiver.archive(record, partition, &mut self.allocator)
    }

    fn count_file(&mut self) -> (r: Result<(), ConvertError>)
        ensures
            final(self).fat_fs == old(self).fat_fs,
            final(self).allocator == old(self).allocator,
            final(self).stream_archiver == old(self).stream_archiver,
            final(self).forbidden_ranges == old(self).forbidden_ranges,
            r is Ok ==> final(self).file_count == old(self).file_count + 1,
            r is Ok <==> old(self).file_count < u64::MAX,
            r matches Err(e) ==> e == ConvertError::TooManyInodes,
    {
        self.file_count = match self.file_count.checked_add(1) {
            Some(n) => n,
            None => {
                return Err(ConvertError::TooManyInodes);
            },
        };
        Ok(())
    }

    /// Archives the whole directory tree: first the number of files of the root directory, then each of its files
    /// with everything below it.
    pub fn serialize_directory_tree(&mut self, partition: &mut Vec<u8>) -> (r: Result<(), ConvertError>)
        requires
            old(self).wf(old(partition)@.len() as int),
        ensures
            r == Err::<(), ConvertError>(ConvertError::NoFreeClusters) ==> final(self).allocator.exhausted(),
            final(self).wf(final(partition)@.len() as int),
            final(partition)@.len() == old(partition)@.len(),
            final(self).fat_fs == old(self).fat_fs,
            final(self).forbidden_ranges == old(self).forbidden_ranges,
            final(self).allocator.spec_used() == old(self).allocator.spec_used(),
            final(self).spec_cluster_size() == old(self).spec_cluster_size(),
            changes_only_free(old(partition)@, final(partition)@, old(self).allocator.spec_used(), old(self).spec_cluster_size()),
            old(self).archive_holds(old(partition)@) && r is Ok ==> final(self).archive_holds(final(partition)@),
            r is Ok ==> {
                let rs = final(self).stream_archiver.spec_records();
                let n = old(self).stream_archiver.spec_records().len() as int;
                &&& extends(rs, old(self).stream_archiver.spec_records())
                &&& rs.len() > n
                &&& (file_types_of(rs[n]) matches Some(v) && v.len() == 1 && (v[0] matches FileType::Directory(k)
                    && final(self).file_count >= old(self).file_count + k))
            },
            r is Ok ==> archives_tree(
                final(self).stream_archiver.spec_records().skip(old(self).stream_archiver.spec_records().len() as int),
                (final(self).file_count - old(self).file_count) as nat,
            ),
    {
        let ghost rs0 = self.stream_archiver.spec_records();
        let root_idx = FatTableIndex::new(ROOT_FAT_IDX);
        let files = self.fat_fs.dir_content(partition.as_slice(), root_idx)?;
        if files.len() > u32::MAX as usize {
            return Err(ConvertError::DirectoryTooLarge);
        }
        self.archive_root_child_count(files.len() as u32, partition)?;
        let ghost rs1 = self.stream_archiver.spec_records();
        let ghost count1 = self.file_count;
        let ghost k = files@.len();
        // a directory lies deeper than its parent and in a cluster of its own, so no chain of nested directories is
        // longer than the number of clusters
        let depth = self.fat_fs.cluster_count();
        let r = self.serialize_files(files, partition, depth);
        proof {
            if r is Ok {
                let rs = self.stream_archiver.spec_records();
                let n = rs0.len() as int;
                lemma_extends_trans(rs0, rs1, rs);
                assert(rs[n] == rs1.subrange(0, rs1.len() as int)[n]);
                assert(rs1[n] == rs1.last());
                lemma_archives_tree(rs0, rs1, rs, k as u32, (self.file_count - count1) as nat);
            }
        }
        r
    }

    /// Archives each of `files`, with everything below the directories among them.
    fn serialize_files(&mut self, files: Vec<FatFile>, partition: &mut Vec<u8>, depth: u32) -> (r: Result<(), ConvertError>)
        requires
            old(self).wf(old(partition)@.len() as int),
        ensures
            r == Err::<(), ConvertError>(ConvertError::NoFreeClusters) ==> final(self).allocator.exhausted(),
            final(self).wf(final(partition)@.len() as int),
            final(partition)@.len() == old(partition)@.len(),
            final(self).fat_fs == old(self).fat_fs,
            final(self).forbidden_ranges == old(self).forbidden_ranges,
            final(self).allocator.spec_used() == old(self).allocator.spec_used(),
            final(self).spec_cluster_size() == old(self).spec_cluster_size(),
            changes_only_free(old(partition)@, final(partition)@, old(self).allocator.spec_used(), old(self).spec_cluster_size()),
            old(self).archive_holds(old(partition)@) && r is Ok ==> final(self).archive_holds(final(partition)@),
            r is Ok ==> extends(final(self).stream_archiver.spec_records(), old(self).stream_archiver.spec_records())
                && final(self).file_count >= old(self).file_count + files@.len(),
            r is Ok ==> archives_files(
                final(self).stream_archiver.spec_records().skip(old(self).stream_archiver.spec_records().len() as int),
                files@.len(),
                (final(self).file_count - old(self).file_count) as nat,
            ),
        decreases depth, 0int,
    {
        let ghost tracking = self.archive_holds(partition@);
        let ghost count = files@.len();
        let mut files = files;
        let mut remaining: Vec<FatFile> = Vec::new();
        // keep the order of the directory listing
        while files.len() > 0
            invariant
                files@.len() + remaining@.len() == count,
            decreases files@.len(),
        {
            let f = files.pop().unwrap();
            remaining.push(f);
        }
        proof {
            lemma_changes_only_free_refl(partition@, self.allocator.spec_used(), self.spec_cluster_size());
            assert(self.stream_archiver.spec_records().subrange(0, self.stream_archiver.spec_records().len() as int)
                =~= self.stream_archiver.spec_records());
            lemma_archives_no_files(self.stream_archiver.spec_records());
        }
        while remaining.len() > 0
            invariant
                self.wf(partition@.len() as int),
                partition@.len() == old(partition)@.len(),
                self.fat_fs == old(self).fat_fs,
                self.forbidden_ranges == old(self).forbidden_ranges,
                self.allocator.spec_used() == old(self).allocator.spec_used(),
                self.spec_cluster_size() == old(self).spec_cluster_size(),
                changes_only_free(old(partition)@, partition@, old(self).allocator.spec_used(), old(self).spec_cluster_size()),
                tracking ==> self.archive_holds(partition@),
                tracking == old(self).archive_holds(old(partition)@),
                remaining@.len() <= count,
                extends(self.stream_archiver.spec_records(), old(self).stream_archiver.spec_records()),
                self.file_count >= old(self).file_count + (count - remaining@.len()),
                archives_files(
                    self.stream_archiver.spec_records().skip(old(self).stream_archiver.spec_records().len() as int),
                    (count - remaining@.len()) as nat,
                    (self.file_count - old(self).file_count) as nat,
                ),
            decreases remaining@.len(),
        {
            let file = remaining.pop().unwrap();
            let ghost p1 = partition@;
            if file.dentry.is_dir() {
                if depth == 0 {
                    return Err(ConvertError::CorruptedData);
                }
                let ghost rs1 = self.stream_archiver.spec_records();
                let ghost fc1 = self.file_count;
                let ghost i = (count - remaining@.len() - 1) as nat;
                let r = self.serialize_directory(file, partition, depth - 1);
                proof {
                    lemma_changes_only_free_trans(old(partition)@, p1, partition@, old(self).allocator.spec_used(), old(self).spec_cluster_size());
                    if r is Ok {
                        lemma_extends_trans(old(self).stream_archiver.spec_records(), rs1, self.stream_archiver.spec_records());
                    }
                }
                r?;
                proof {
                    lemma_archives_push(
                        rs1,
                        self.stream_archiver.spec_records(),
                        old(self).stream_archiver.spec_records().len() as int,
                        i,
                        (fc1 - old(self).file_count) as nat,
                        (self.file_count - fc1) as nat,
                    );
                }
            } else {
                let ghost c1 = self.allocator.spec_cursor() as int;
                let ghost before = *self;
                let ghost i = (count - remaining@.len() - 1) as nat;
                let r = self.make_file_non_overlapping(file, partition);
                proof {
                    lemma_changes_only_free_trans(old(partition)@, p1, partition@, old(self).allocator.spec_used(), old(self).spec_cluster_size());
                }
                let non_overlapping = r?;
                proof {
                    if tracking {
                        before.stream_archiver.lemma_holds_frame(
                            p1,
                            partition@,
                            self.allocator.spec_valid().start as int,
                            c1,
                            self.allocator.spec_cursor() as int,
                            self.allocator.spec_used(),
                        );
                    }
                }
                let ghost p2 = partition@;
                let ghost rs1 = self.stream_archiver.spec_records();
                let ghost fc1 = self.file_count;
                let r = self.archive_regular_file(non_overlapping, partition);
                proof {
                    lemma_changes_only_free_trans(old(partition)@, p2, partition@, old(self).allocator.spec_used(), old(self).spec_cluster_size());
                    if r is Ok {
                        lemma_extends_trans(old(self).stream_archiver.spec_records(), rs1, self.stream_archiver.spec_records());
                    }
                }
                r?;
                proof {
                    lemma_archives_push(
                        rs1,
                        self.stream_archiver.spec_records(),
                        old(self).stream_archiver.spec_records().len() as int,
                        i,
                        (fc1 - old(self).file_count) as nat,
                        (self.file_count - fc1) as nat,
                    );
                }
            }
        }
        Ok(())
    }

    /// Archives the directory `file` and everything below it.
    fn serialize_directory(&mut self, file: FatFile, partition: &mut Vec<u8>, depth: u32) -> (r: Result<(), ConvertError>)
        requires
            old(self).wf(old(partition)@.len() as int),
        ensures
            r == Err::<(), ConvertError>(ConvertError::NoFreeClusters) ==> final(self).allocator.exhausted(),
            final(self).wf(final(partition)@.len() as int),
            final(partition)@.len() == old(partition)@.len(),
            final(self).fat_fs == old(self).fat_fs,
            final(self).forbidden_ranges == old(self).forbidden_ranges,
            final(self).allocator.spec_used() == old(self).allocator.spec_used(),
            final(self).spec_cluster_size() == old(self).spec_cluster_size(),
            changes_only_free(old(partition)@, final(partition)@, old(self).allocator.spec_used(), old(self).spec_cluster_size()),
            old(self).archive_holds(old(partition)@) && r is Ok ==> final(self).archive_holds(final(partition)@),
            r is Ok ==> {
                let rs = final(self).stream_archiver.spec_records();
                let n = old(self).stream_archiver.spec_records().len() as int;
                &&& extends(rs, old(self).stream_archiver.spec_records())
                &&& rs.len() >= n + 3
                &&& (file_types_of(rs[n]) matches Some(v) && v.len() == 1 && (v[0] matches FileType::Directory(k)
                    && final(self).file_count >= old(self).file_count + 1 + k))
                &&& rs[n + 2] == Record::Bytes(file.name)
            },
            r is Ok ==> archives_file(
                final(self).stream_archiver.spec_records().skip(old(self).stream_archiver.spec_records().len() as int),
                (final(self).file_count - old(self).file_count) as nat,
            ),
        decreases depth, 1int,
    {
        let ghost rs0 = self.stream_archiver.spec_records();
        let ghost name = file.name;
        let first_fat_idx = file.dentry.first_fat_index();
        let files = self.fat_fs.dir_content(partition.as_slice(), first_fat_idx)?;
        if files.len() > u32::MAX as usize {
            return Err(ConvertError::DirectoryTooLarge);
        }
        self.archive_directory(file, files.len() as u32, partition)?;
        let ghost rs1 = self.stream_archiver.spec_records();
        let ghost fc1 = self.file_count;
        let ghost k = files@.len() as u32;
        let r = self.serialize_files(files, partition, depth);
        proof {
            if r is Ok {
                let rs = self.stream_archiver.spec_records();
                let n = rs0.len() as int;
                lemma_extends_trans(rs0, rs1, rs);
                assert(rs[n] == rs.subrange(0, rs1.len() as int)[n]);
                assert(rs[n + 2] == rs.subrange(0, rs1.len() as int)[n + 2]);
                lemma_archives_directory(rs0, rs1, rs, k, (self.file_count - fc1) as nat);
            }
        }
        r
    }

    fn archive_root_child_count(&mut self, root_child_count: u32, partition: &mut Vec<u8>) -> (r: Result<(), ConvertError>)
        requires
            old(self).wf(old(partition)@.len() as int),
        ensures
            r == Err::<(), ConvertError>(ConvertError::NoFreeClusters) ==> final(self).allocator.exhausted(),
            final(self).wf(final(partition)@.len() as int),
            final(partition)@.len() == old(partition)@.len(),
            final(self).fat_fs == old(self).fat_fs,
            final(self).forbidden_ranges == old(self).forbidden_ranges,
            final(self).allocator.spec_used() == old(self).allocator.spec_used(),
            final(self).spec_cluster_size() == old(self).spec_cluster_size(),
            changes_only_free(old(partition)@, final(partition)@, old(self).allocator.spec_used(), old(self).spec_cluster_size()),
            old(self).archive_holds(old(partition)@) && r is Ok ==> final(self).archive_holds(final(partition)@),
            final(self).file_count == old(self).file_count,
            r is Ok ==> {
                let rs = final(self).stream_archiver.spec_records();
                &&& rs.len() == old(self).stream_archiver.spec_records().len() + 1
                &&& extends(rs, old(self).stream_archiver.spec_records())
                &&& file_types_of(rs.last()) == Some(seq![FileType::Directory(root_child_count)])
            },
    {
        let mut types: Vec<FileType> = Vec::new();
        types.push(FileType::Directory(root_child_count));
        proof {
            assert(types@ =~= seq![FileType::Directory(root_child_count)]);
        }
        let ghost before = self.stream_archiver.spec_records();
        let r = self.archive(&Record::FileTypes(types), partition);
        proof {
            if r is Ok {
                assert(self.stream_archiver.spec_records().subrange(0, before.len() as int) =~= before);
            }
        }
        r
    }

    /// Archives a regular file: its type, its dentry, its name and its data ranges.
    fn archive_regular_file(&mut self, file: NonOverlappingFatFile, partition: &mut Vec<u8>) -> (r: Result<(), ConvertError>)
        requires
            old(self).wf(old(partition)@.len() as int),
        ensures
            r == Err::<(), ConvertError>(ConvertError::NoFreeClusters) ==> final(self).allocator.exhausted(),
            final(self).wf(final(partition)@.len() as int),
            final(partition)@.len() == old(partition)@.len(),
            final(self).fat_fs == old(self).fat_fs,
            final(self).forbidden_ranges == old(self).forbidden_ranges,
            final(self).allocator.spec_used() == old(self).allocator.spec_used(),
            final(self).spec_cluster_size() == old(self).spec_cluster_size(),
            changes_only_free(old(partition)@, final(partition)@, old(self).allocator.spec_used(), old(self).spec_cluster_size()),
            old(self).archive_holds(old(partition)@) && r is Ok ==> final(self).archive_holds(final(partition)@),
            r is Ok ==> {
                let rs = final(self).stream_archiver.spec_records();
                let n = old(self).stream_archiver.spec_records().len() as int;
                &&& final(self).file_count == old(self).file_count + 1
                &&& rs.len() == n + 4
                &&& extends(rs, old(self).stream_archiver.spec_records())
                &&& file_types_of(rs[n]) == Some(seq![FileType::RegularFile])
                &&& (rs[n + 1] matches Record::Dentries(v) && v@.len() == 1 && v@[0].file_size == file.dentry.file_size
                    && v@[0].is_dir == file.dentry.spec_is_dir() && v@[0].represents(file.dentry))
                &&& rs[n + 2] == Record::Bytes(file.name)
                &&& rs[n + 3] == Record::Ranges(file.data_ranges)
            },
            r is Ok ==> archives_file(final(self).stream_archiver.spec_records().skip(old(self).stream_archiver.spec_records().len() as int), 1),
    {
        let ghost rs0 = self.stream_archiver.spec_records();
        let dentry = DentryRepresentation::from(file.dentry)?;
        self.count_file()?;
        let mut types: Vec<FileType> = Vec::new();
        types.push(FileType::RegularFile);
        let ghost tv = types@;
        self.archive(&Record::FileTypes(types), partition)?;
        let mut dentries: Vec<DentryRepresentation> = Vec::new();
        dentries.push(dentry);
        let ghost dv = dentries@;
        self.archive(&Record::Dentries(dentries), partition)?;
        self.archive(&Record::Bytes(file.name), partition)?;
        let r = self.archive(&Record::Ranges(file.data_ranges), partition);
        proof {
            if r is Ok {
                let rs = self.stream_archiver.spec_records();
                let n = rs0.len() as int;
                assert(rs.subrange(0, n) =~= rs0);
                assert(tv =~= seq![FileType::RegularFile]);
                assert(dv.len() == 1 && dv[0] == dentry);
                let f = rs.skip(n);
                assert forall|budget: nat| budget >= 1 implies #[trigger] file_span(f, budget) == Some(
                    (f.len(), (budget - 1) as nat),
                ) by {
                    assert(f[0] == rs[n] && f[1] == rs[n + 1] && f[2] == rs[n + 2] && f[3] == rs[n + 3]);
                    lemma_regular_file_span(f, budget);
                }
            }
        }
        r
    }

    /// Archives a directory with `child_count` files: its type, its dentry and its name.
    fn archive_directory(&mut self, file: FatFile, child_count: u32, partition: &mut Vec<u8>) -> (r: Result<(), ConvertError>)
        requires
            old(self).wf(old(partition)@.len() as int),
        ensures
            r == Err::<(), ConvertError>(ConvertError::NoFreeClusters) ==> final(self).allocator.exhausted(),
            final(self).wf(final(partition)@.len() as int),
            final(partition)@.len() == old(partition)@.len(),
            final(self).fat_fs == old(self).fat_fs,
            final(self).forbidden_ranges == old(self).forbidden_ranges,
            final(self).allocator.spec_used() == old(self).allocator.spec_used(),
            final(self).spec_cluster_size() == old(self).spec_cluster_size(),
            changes_only_free(old(partition)@, final(partition)@, old(self).allocator.spec_used(), old(self).spec_cluster_size()),
            old(self).archive_holds(old(partition)@) && r is Ok ==> final(self).archive_holds(final(partition)@),
            r is Ok ==> {
                let rs = final(self).stream_archiver.spec_records();
                let n = old(self).stream_archiver.spec_records().len() as int;
                &&& final(self).file_count == old(self).file_count + 1
                &&& rs.len() == n + 3
                &&& extends(rs, old(self).stream_archiver.spec_records())
                &&& file_types_of(rs[n]) == Some(seq![FileType::Directory(child_count)])
                &&& (rs[n + 1] matches Record::Dentries(v) && v@.len() == 1 && v@[0].file_size == file.dentry.file_size
                    && v@[0].is_dir == file.dentry.spec_is_dir() && v@[0].represents(file.dentry))
                &&& rs[n + 2] == Record::Bytes(file.name)
            },
    {
        let ghost rs0 = self.stream_archiver.spec_records();
        let dentry = DentryRepresentation::from(file.dentry)?;
        self.count_file()?;
        let mut types: Vec<FileType> = Vec::new();
        types.push(FileType::Directory(child_count));
        let ghost tv = types@;
        self.archive(&Record::FileTypes(types), partition)?;
        let mut dentries: Vec<DentryRepresentation> = Vec::new();
        dentries.push(dentry);
        let ghost dv = dentries@;
        self.archive(&Record::Dentries(dentries), partition)?;
        let r = self.archive(&Record::Bytes(file.name), partition);
        proof {
            if r is Ok {
                let rs = self.stream_archiver.spec_records();
                let n = rs0.len() as int;
                assert(rs.subrange(0, n) =~= rs0);
                assert(tv =~= seq![FileType::Directory(child_count)]);
                assert(dv.len() == 1 && dv[0] == dentry);
            }
        }
        r
    }

    /// The file with the same name and dentry whose data lies only in clusters that are not forbidden: every run of
    /// its clusters that is forbidden is copied to newly allocated clusters, and every other cluster stays where it
    /// is; a reversed range stands for no cluster. If the file's clusters are in use and the data region is aligned
    /// to clusters, the i-th cluster of the new file holds what the i-th cluster of the file held. Succeeds whenever
    /// the file can be moved (`file_movable`) or needs no copy.
    #[verifier::rlimit(100)]
    pub fn make_file_non_overlapping(&mut self, file: FatFile, partition: &mut Vec<u8>) -> (r: Result<
        NonOverlappingFatFile,
        ConvertError,
    >)
        requires
            old(self).wf(old(partition)@.len() as int),
        ensures
            r matches Err(e) ==> (e == ConvertError::NoFreeClusters ==> final(self).allocator.exhausted()),
            final(self).wf(final(partition)@.len() as int),
            final(partition)@.len() == old(partition)@.len(),
            final(self).fat_fs == old(self).fat_fs,
            final(self).forbidden_ranges == old(self).forbidden_ranges,
            final(self).allocator.spec_used() == old(self).allocator.spec_used(),
            final(self).spec_cluster_size() == old(self).spec_cluster_size(),
            changes_only_free(old(partition)@, final(partition)@, old(self).allocator.spec_used(), old(self).spec_cluster_size()),
            final(self).file_count == old(self).file_count,
            final(self).stream_archiver == old(self).stream_archiver,
            final(self).allocator.spec_valid() == old(self).allocator.spec_valid(),
            final(self).allocator.spec_cursor() >= old(self).allocator.spec_cursor(),
            changes_only_between(
                old(partition)@,
                final(partition)@,
                old(self).allocator.spec_cursor() as int,
                final(self).allocator.spec_cursor() as int,
                old(self).spec_cluster_size(),
            ),
            r matches Ok(f) ==> f.name@ == file.name@ && f.dentry == file.dentry && avoids(
                f.data_ranges@,
                old(self).forbidden_ranges,
            ),
            r matches Ok(f) ==> kept_in_place(
                ranges_clusters(f.data_ranges@),
                file_clusters(old(self).fat_fs, file),
                old(self).forbidden_ranges,
            ),
            file_needs_no_copy(old(self).fat_fs, file, old(self).forbidden_ranges) ==> r is Ok,
            file_movable(*old(self), file, old(partition)@.len() as int) ==> r is Ok,
            r matches Ok(f) ==> data_aligned(old(self).fat_fs) && (forall|k: int|
                0 <= k < file_clusters(old(self).fat_fs, file).len() ==> old(self).allocator.spec_used().covers(
                    #[trigger] file_clusters(old(self).fat_fs, file)[k],
                ) && cluster_within(old(partition)@.len() as int, file_clusters(old(self).fat_fs, file)[k], old(self).spec_cluster_size())) ==> {
                let rc = ranges_clusters(f.data_ranges@);
                let fc = file_clusters(old(self).fat_fs, file);
                &&& rc.len() == fc.len()
                &&& forall|k: int|
                    0 <= k < rc.len() ==> cluster_bytes(final(partition)@, #[trigger] rc[k], old(self).spec_cluster_size())
                        == cluster_bytes(old(partition)@, fc[k], old(self).spec_cluster_size())
            },
    {
        let mut non_overlapping = NonOverlappingFatFile::new(file.name, file.dentry);
        let ghost forbidden = self.forbidden_ranges;
        let ghost p0 = partition@;
        let ghost a0 = self.allocator.spec_cursor() as int;
        let ghost cs = self.spec_cluster_size();
        let ghost used0 = self.allocator.spec_used();
        let ghost fdc = first_data_cluster(self.fat_fs);
        let ghost fc = file_clusters(self.fat_fs, file);
        let ghost tracking = data_aligned(self.fat_fs) && (forall|k: int|
            0 <= k < fc.len() ==> used0.covers(#[trigger] fc[k]) && cluster_within(p0.len() as int, fc[k], cs));
        let ghost clean = file_needs_no_copy(self.fat_fs, file, self.forbidden_ranges);
        let ghost movable = file_movable(*self, file, partition@.len() as int);
        proof {
            lemma_changes_only_free_refl(partition@, self.allocator.spec_used(), self.spec_cluster_size());
            self.fat_fs.spec_boot_sector().lemma_geometry();
            assert(changes_only_between(p0, partition@, a0, a0, cs));
            assert(expand_ranges(file.data_ranges@.take(0)) =~= Seq::<u32>::empty()) by {
                assert(file.data_ranges@.take(0) =~= Seq::<DataClusterRange>::empty());
            }
            assert(ranges_clusters(non_overlapping.data_ranges@) =~= Seq::<int>::empty());
            assert(shift_clusters(expand_ranges(file.data_ranges@.take(0)), fdc) =~= Seq::<int>::empty());
        }
        let mut i: usize = 0;
        while i < file.data_ranges.len()
            invariant
                i <= file.data_ranges@.len(),
                self.wf(partition@.len() as int),
                partition@.len() == old(partition)@.len(),
                self.fat_fs == old(self).fat_fs,
                self.stream_archiver == old(self).stream_archiver,
                self.allocator.spec_valid() == old(self).allocator.spec_valid(),
                self.forbidden_ranges == old(self).forbidden_ranges,
                self.file_count == old(self).file_count,
                forbidden == self.forbidden_ranges,
                non_overlapping.name@ == file.name@,
                non_overlapping.dentry == file.dentry,
                avoids(non_overlapping.data_ranges@, forbidden),
                self.allocator.spec_used() == old(self).allocator.spec_used(),
                self.spec_cluster_size() == old(self).spec_cluster_size(),
                changes_only_free(old(partition)@, partition@, old(self).allocator.spec_used(), old(self).spec_cluster_size()),
                p0 == old(partition)@,
                a0 == old(self).allocator.spec_cursor(),
                a0 <= self.allocator.spec_cursor(),
                cs == old(self).spec_cluster_size(),
                cs > 0,
                used0 == old(self).allocator.spec_used(),
                fdc == first_data_cluster(self.fat_fs),
                fc == file_clusters(self.fat_fs, file),
                changes_only_between(p0, partition@, a0, self.allocator.spec_cursor() as int, cs),
                ranges_clusters(non_overlapping.data_ranges@).len() == expand_ranges(file.data_ranges@.take(i as int)).len(),
                kept_in_place(
                    ranges_clusters(non_overlapping.data_ranges@),
                    shift_clusters(expand_ranges(file.data_ranges@.take(i as int)), fdc),
                    forbidden,
                ),
                tracking ==> data_aligned(self.fat_fs) && forall|k: int|
                    0 <= k < fc.len() ==> used0.covers(#[trigger] fc[k]) && cluster_within(p0.len() as int, fc[k], cs),
                clean == file_needs_no_copy(self.fat_fs, file, forbidden),
                movable == file_movable(*old(self), file, p0.len() as int),
                movable ==> self.allocator.free_clusters() + ranges_clusters(non_overlapping.data_ranges@).len() >= fc.len(),
                tracking ==> produced_as(
                    partition@,
                    p0,
                    ranges_clusters(non_overlapping.data_ranges@),
                    shift_clusters(expand_ranges(file.data_ranges@.take(i as int)), fdc),
                    used0,
                    self.allocator.spec_cursor() as int,
                    cs,
                ),
            decreases file.data_ranges@.len() - i,
        {
            let data_cluster_range = file.data_ranges[i];
            let first = data_cluster_range.first;
            let last = data_cluster_range.last;
            proof {
                self.fat_fs.spec_boot_sector().lemma_geometry();
            }
            let first_data_cluster_idx = self.fat_fs.boot_sector().first_data_cluster() as u64;
            if last.0 < first.0 {
                // a reversed range stands for no cluster
                proof {
                    let t = file.data_ranges@.take(i + 1);
                    assert(t.drop_last() =~= file.data_ranges@.take(i as int));
                    assert(t.last() == file.data_ranges@[i as int]);
                    assert(expand_ranges(t) == expand_ranges(file.data_ranges@.take(i as int)));
                }
                i += 1;
                continue;
            }
            if last.0 as u64 + first_data_cluster_idx + 1 > u32::MAX as u64 {
                return Err(ConvertError::CorruptedData);
            }
            let start_cluster_idx = (first.0 as u64 + first_data_cluster_idx) as u32;
            let end_cluster_idx = (last.0 as u64 + first_data_cluster_idx + 1) as u32;
            let fragments = self.forbidden_ranges.split_overlapping(start_cluster_idx..end_cluster_idx);
            let ghost olds_i = shift_clusters(expand_ranges(file.data_ranges@.take(i as int)), fdc);
            let ghost range_olds = clusters_from(fdc + first.0, (last.0 - first.0 + 1) as nat);
            proof {
                lemma_file_clusters_step(file.data_ranges@, i as int, fdc);
                lemma_expand_prefix(file.data_ranges@, i + 1);
                assert(fdc == first_data_cluster_idx);
                assert(shift_clusters(expand_ranges(file.data_ranges@.take(i + 1)), fdc) == olds_i + range_olds);
                assert(shift_clusters(expand_ranges(file.data_ranges@.take(i + 1)), fdc).len() == expand_ranges(
                    file.data_ranges@.take(i + 1),
                ).len());
                if tracking {
                    assert forall|j: int| 0 <= j < range_olds.len() implies used0.covers(#[trigger] range_olds[j])
                        && cluster_within(p0.len() as int, range_olds[j], cs) by {
                        let k = olds_i.len() + j;
                        assert((olds_i + range_olds)[k] == range_olds[j]);
                        assert(expand_ranges(file.data_ranges@.take(i + 1))[k] == expand_ranges(file.data_ranges@)[k]);
                        assert(fc[k] == range_olds[j]);
                    }
                }
                if clean {
                    assert forall|j: int| 0 <= j < range_olds.len() implies !forbidden.covers(#[trigger] range_olds[j]) by {
                        let k = olds_i.len() + j;
                        assert((olds_i + range_olds)[k] == range_olds[j]);
                        assert(expand_ranges(file.data_ranges@.take(i + 1))[k] == expand_ranges(file.data_ranges@)[k]);
                        assert(fc[k] == range_olds[j]);
                    }
                }
                assert(Seq::new((first.0 - first.0) as nat, |j: int| fdc + first.0 + j) =~= Seq::<int>::empty());
                assert(olds_i + Seq::new((first.0 - first.0) as nat, |j: int| fdc + first.0 + j) =~= olds_i);
            }
            // the data cluster at which the next fragment starts
            let mut cursor: u32 = first.0;
            let mut k: usize = 0;
            while k < fragments.len()
                invariant
                    k <= fragments@.len(),
                    self.wf(partition@.len() as int),
                    partition@.len() == old(partition)@.len(),
                    self.fat_fs == old(self).fat_fs,
                    self.stream_archiver == old(self).stream_archiver,
                    self.allocator.spec_valid() == old(self).allocator.spec_valid(),
                    self.forbidden_ranges == old(self).forbidden_ranges,
                    self.file_count == old(self).file_count,
                    forbidden == self.forbidden_ranges,
                    non_overlapping.name@ == file.name@,
                    non_overlapping.dentry == file.dentry,
                    avoids(non_overlapping.data_ranges@, forbidden),
                    self.allocator.spec_used() == old(self).allocator.spec_used(),
                    self.spec_cluster_size() == old(self).spec_cluster_size(),
                    changes_only_free(old(partition)@, partition@, old(self).allocator.spec_used(), old(self).spec_cluster_size()),
                    forall|j: int| 0 <= j < fragments@.len() ==> (#[trigger] fragments@[j]).0.start < fragments@[j].0.end,
                    clean == file_needs_no_copy(self.fat_fs, file, forbidden),
                    clean ==> forall|j: int| 0 <= j < range_olds.len() ==> !forbidden.covers(#[trigger] range_olds[j]),
                    movable == file_movable(*old(self), file, p0.len() as int),
                    movable ==> self.allocator.free_clusters() + ranges_clusters(non_overlapping.data_ranges@).len()
                        >= fc.len(),
                    movable ==> olds_i.len() + range_olds.len() <= fc.len(),
                    movable ==> forall|d: int| first.0 <= d <= last.0 ==> #[trigger] self.fat_fs.data_cluster_readable(d),
                    forall|j: int, z: int| #![trigger fragments@[j], forbidden.covers(z)]
                        0 <= j < fragments@.len() && fragments@[j].0.start <= z < fragments@[j].0.end ==> (
                        forbidden.covers(z) <==> fragments@[j].1),
                    forall|j: int| 0 <= j < fragments@.len() - 1 ==> (#[trigger] fragments@[j]).0.end == fragments@[j + 1].0.start,
                    fragments@.len() > 0,
                    fragments@[0].0.start == start_cluster_idx,
                    fragments@[fragments@.len() - 1].0.end == end_cluster_idx,
                    start_cluster_idx == first.0 + fdc,
                    end_cluster_idx == last.0 + fdc + 1,
                    first.0 <= cursor <= last.0 + 1,
                    k < fragments@.len() ==> fragments@[k as int].0.start == cursor + fdc,
                    k == fragments@.len() ==> cursor == last.0 + 1,
                    p0 == old(partition)@,
                    a0 == old(self).allocator.spec_cursor(),
                    a0 <= self.allocator.spec_cursor(),
                    cs == old(self).spec_cluster_size(),
                    cs > 0,
                    used0 == old(self).allocator.spec_used(),
                    fdc == first_data_cluster(self.fat_fs),
                    fc == file_clusters(self.fat_fs, file),
                    olds_i == shift_clusters(expand_ranges(file.data_ranges@.take(i as int)), fdc),
                    range_olds == clusters_from(fdc + first.0, (last.0 - first.0 + 1) as nat),
                    changes_only_between(p0, partition@, a0, self.allocator.spec_cursor() as int, cs),
                    ranges_clusters(non_overlapping.data_ranges@).len() == olds_i.len() + (cursor - first.0),
                    kept_in_place(ranges_clusters(non_overlapping.data_ranges@), olds_i + range_olds.take(cursor - first.0), forbidden),
                    tracking ==> data_aligned(self.fat_fs),
                    tracking ==> forall|j: int|
                        0 <= j < range_olds.len() ==> used0.covers(#[trigger] range_olds[j]) && cluster_within(
                            p0.len() as int,
                            range_olds[j],
                            cs,
                        ),
                    tracking ==> produced_as(
                        partition@,
                        p0,
                        ranges_clusters(non_overlapping.data_ranges@),
                        olds_i + range_olds.take(cursor - first.0),
                        used0,
                        self.allocator.spec_cursor() as int,
                        cs,
                    ),
                decreases fragments@.len() - k,
            {
                let (range_fragment, is_forbidden) = (fragments[k].0.start..fragments[k].0.end, fragments[k].1);
                let fragment_len = range_fragment.end - range_fragment.start;
                let ghost before_ranges = non_overlapping.data_ranges@;
                let ghost pb = partition@;
                let ghost cursor_b = cursor as int;
                let ghost alloc_b = self.allocator.spec_cursor() as int;
                proof {
                    if k + 1 < fragments@.len() {
                        assert(fragments@[k as int].0.end == fragments@[k + 1].0.start);
                    }
                    assert(fragments@[k as int].0.end <= end_cluster_idx) by {
                        lemma_fragments_end(fragments@, k as int);
                    }
                }
                if is_forbidden {
                    proof {
                        if clean {
                            let z = fragments@[k as int].0.start as int;
                            assert(range_olds[cursor - first.0] == z);
                            assert(forbidden.covers(z));
                        }
                    }
                    let ghost p1 = partition@;
                    proof {
                        if movable {
                            assert(cursor + fragment_len <= last.0 + 1);
                            assert(self.can_copy(cursor as int, fragment_len as int, partition@.len() as int));
                        }
                    }
                    let r = self.copy_data_to_new_clusters(&mut cursor, fragment_len, partition);
                    proof {
                        lemma_changes_only_free_trans(old(partition)@, p1, partition@, old(self).allocator.spec_used(), old(self).spec_cluster_size());
                        if r is Ok {
                            lemma_changes_between_trans(p0, p1, partition@, a0, alloc_b, self.allocator.spec_cursor() as int, cs);
                        }
                    }
                    let copied = r?;
                    let ghost copied_clusters = ranges_clusters(copied@);
                    proof {
                        if tracking {
                            assert forall|c: int| fdc + cursor_b <= c < fdc + cursor_b + fragment_len implies #[trigger] used0.covers(c)
                                && cluster_within(p0.len() as int, c, cs) by {
                                assert(range_olds[c - fdc - first.0] == c);
                            }
                            lemma_produced_frame(
                                pb,
                                partition@,
                                p0,
                                ranges_clusters(before_ranges),
                                olds_i + range_olds.take(cursor_b - first.0),
                                used0,
                                alloc_b,
                                self.allocator.spec_cursor() as int,
                                cs,
                            );
                        }
                    }
                    let mut c: usize = 0;
                    while c < copied.len()
                        invariant
                            c <= copied@.len(),
                            avoids(copied@, forbidden),
                            avoids(non_overlapping.data_ranges@, forbidden),
                            non_overlapping.name@ == file.name@,
                            non_overlapping.dentry == file.dentry,
                            non_overlapping.data_ranges@ == before_ranges + copied@.take(c as int),
                        decreases copied@.len() - c,
                    {
                        let ghost before = non_overlapping.data_ranges@;
                        non_overlapping.data_ranges.push(copied[c].start..copied[c].end);
                        proof {
                            assert forall|i: int, z: int|
                                0 <= i < non_overlapping.data_ranges@.len() && (#[trigger] non_overlapping.data_ranges@[i]).start
                                    <= z < non_overlapping.data_ranges@[i].end implies !#[trigger] forbidden.covers(z) by {
                                if i < before.len() {
                                    assert(before[i] == non_overlapping.data_ranges@[i]);
                                } else {
                                    assert(copied@[c as int].start <= z < copied@[c as int].end);
                                }
                            }
                            assert(non_overlapping.data_ranges@ =~= before_ranges + copied@.take(c + 1));
                        }
                        c += 1;
                    }
                    proof {
                        assert(copied@.take(copied@.len() as int) =~= copied@);
                        lemma_ranges_clusters_append(before_ranges, copied@);
                        let olds_b = olds_i + range_olds.take(cursor_b - first.0);
                        assert(olds_i + range_olds.take(cursor - first.0) =~= olds_b + Seq::new(
                            fragment_len as nat,
                            |j: int| fdc + cursor_b + j,
                        ));
                        let more_olds = Seq::new(fragment_len as nat, |j: int| fdc + cursor_b + j);
                        assert forall|j: int| 0 <= j < more_olds.len() && !forbidden.covers(more_olds[j]) implies #[trigger] copied_clusters[j]
                            == more_olds[j] by {
                            assert(fragments@[k as int].0.start <= more_olds[j] < fragments@[k as int].0.end);
                        }
                        lemma_kept_in_place_extend(ranges_clusters(before_ranges), olds_b, copied_clusters, more_olds, forbidden);
                        if tracking {
                            lemma_produced_extend_copied(
                                partition@,
                                pb,
                                p0,
                                ranges_clusters(before_ranges),
                                olds_b,
                                copied_clusters,
                                fdc + cursor_b,
                                used0,
                                alloc_b,
                                self.allocator.spec_cursor() as int,
                                cs,
                            );
                        }
                    }
                } else {
                    cursor = match cursor.checked_add(fragment_len) {
                        Some(c) => c,
                        None => {
                            return Err(ConvertError::CorruptedData);
                        },
                    };
                    let ghost before = non_overlapping.data_ranges@;
                    non_overlapping.data_ranges.push(range_fragment);
                    proof {
                        assert forall|i: int, z: int|
                            0 <= i < non_overlapping.data_ranges@.len() && (#[trigger] non_overlapping.data_ranges@[i]).start
                                <= z < non_overlapping.data_ranges@[i].end implies !#[trigger] forbidden.covers(z) by {
                            if i < before.len() {
                                assert(before[i] == non_overlapping.data_ranges@[i]);
                            } else {
                                assert(fragments@[k as int].0.start <= z < fragments@[k as int].0.end);
                            }
                        }
                        assert(non_overlapping.data_ranges@.drop_last() =~= before);
                        let olds_b = olds_i + range_olds.take(cursor_b - first.0);
                        assert(olds_i + range_olds.take(cursor - first.0) =~= olds_b + Seq::new(
                            fragment_len as nat,
                            |j: int| fdc + cursor_b + j,
                        ));
                        let more = Seq::new(fragment_len as nat, |j: int| fdc + cursor_b + j);
                        assert(ranges_clusters(non_overlapping.data_ranges@) =~= ranges_clusters(before) + more);
                        lemma_kept_in_place_extend(ranges_clusters(before), olds_b, more, more, forbidden);
                        if tracking {
                            assert forall|j: int| 0 <= j < fragment_len implies #[trigger] used0.covers(fdc + cursor_b + j) by {
                                assert(range_olds[cursor_b - first.0 + j] == fdc + cursor_b + j);
                            }
                            assert forall|j: int| 0 <= j < fragment_len implies #[trigger] cluster_within(
                                p0.len() as int,
                                fdc + cursor_b + j,
                                cs,
                            ) by {
                                assert(range_olds[cursor_b - first.0 + j] == fdc + cursor_b + j);
                            }
                            lemma_produced_extend_kept(
                                partition@,
                                p0,
                                ranges_clusters(before),
                                olds_b,
                                range_fragment.start as int,
                                fragment_len as int,
                                used0,
                                self.allocator.spec_cursor() as int,
                                cs,
                            );
                        }
                    }
                }
                k += 1;
            }
            proof {
                assert(range_olds.take(last.0 - first.0 + 1) =~= range_olds);
                assert(expand_ranges(file.data_ranges@.take(i + 1)).len() == olds_i.len() + range_olds.len());
            }
            i += 1;
        }
        proof {
            assert(file.data_ranges@.take(file.data_ranges@.len() as int) =~= file.data_ranges@);
        }
        Ok(non_overlapping)
    }

    /// The `len` data clusters from data cluster `cursor` on can be copied: the allocator has as many free clusters,
    /// every cluster it can hand out lies inside a partition of `plen` bytes, and each of the data clusters is in use
    /// and inside the data region.
    pub open spec fn can_copy(&self, cursor: int, len: int, plen: int) -> bool {
        &&& self.allocator.free_clusters() >= len
        &&& self.allocator.spec_cluster_size() * self.allocator.spec_valid().end <= plen
        &&& cursor + len <= u32::MAX
        &&& forall|d: int| cursor <= d < cursor + len ==> #[trigger] self.fat_fs.data_cluster_readable(d)
    }

    /// Copies the `len` data clusters from data cluster `*cursor` on to newly allocated clusters, advancing
    /// `*cursor` past them, and returns the allocated ranges, which hold no forbidden cluster. Only newly allocated
    /// clusters change; if the copied clusters are in use and the data region is aligned to clusters, the i-th
    /// allocated cluster holds what the i-th copied cluster held.
    fn copy_data_to_new_clusters(&mut self, cursor: &mut u32, len: u32, partition: &mut Vec<u8>) -> (r: Result<
        Vec<Range<ClusterIdx>>,
        ConvertError,
    >)
        requires
            old(self).wf(old(partition)@.len() as int),
        ensures
            r matches Err(e) ==> (e == ConvertError::NoFreeClusters ==> final(self).allocator.exhausted()),
            final(self).wf(final(partition)@.len() as int),
            final(partition)@.len() == old(partition)@.len(),
            final(self).fat_fs == old(self).fat_fs,
            final(self).forbidden_ranges == old(self).forbidden_ranges,
            final(self).allocator.spec_used() == old(self).allocator.spec_used(),
            final(self).spec_cluster_size() == old(self).spec_cluster_size(),
            changes_only_free(old(partition)@, final(partition)@, old(self).allocator.spec_used(), old(self).spec_cluster_size()),
            final(self).file_count == old(self).file_count,
            final(self).stream_archiver == old(self).stream_archiver,
            final(self).allocator.spec_valid() == old(self).allocator.spec_valid(),
            final(self).allocator.spec_cursor() >= old(self).allocator.spec_cursor(),
            changes_only_between(
                old(partition)@,
                final(partition)@,
                old(self).allocator.spec_cursor() as int,
                final(self).allocator.spec_cursor() as int,
                old(self).spec_cluster_size(),
            ),
            r matches Ok(ranges) ==> avoids(ranges@, old(self).forbidden_ranges),
            r matches Ok(ranges) ==> {
                let rc = ranges_clusters(ranges@);
                let cs = old(self).spec_cluster_size();
                &&& rc.len() == len
                &&& *final(cursor) == *old(cursor) + len
                &&& forall|k: int|
                    0 <= k < len ==> old(self).allocator.spec_cursor() <= #[trigger] rc[k]
                        < final(self).allocator.spec_cursor() && cs * rc[k] + cs <= old(partition)@.len()
                &&& data_aligned(old(self).fat_fs) && (forall|c: int|
                    first_data_cluster(old(self).fat_fs) + *old(cursor) <= c < first_data_cluster(old(self).fat_fs)
                        + *old(cursor) + len ==> #[trigger] old(self).allocator.spec_used().covers(c)) ==> forall|k: int|
                    0 <= k < len ==> cluster_bytes(final(partition)@, #[trigger] rc[k], cs) == cluster_bytes(
                        old(partition)@,
                        first_data_cluster(old(self).fat_fs) + *old(cursor) + k,
                        cs,
                    )
            },
            r is Ok ==> final(self).allocator.free_clusters() == old(self).allocator.free_clusters() - len,
            old(self).can_copy(*old(cursor) as int, len as int, old(partition)@.len() as int) ==> r is Ok,
    {
        let ghost forbidden = self.forbidden_ranges;
        let ghost p0 = partition@;
        let ghost c0 = *cursor as int;
        let ghost total = len as int;
        let ghost a0 = self.allocator.spec_cursor() as int;
        let ghost cs = self.spec_cluster_size();
        let ghost fdc = first_data_cluster(self.fat_fs);
        let ghost used0 = self.allocator.spec_used();
        let ghost tracking = data_aligned(self.fat_fs) && (forall|c: int|
            fdc + c0 <= c < fdc + c0 + total ==> #[trigger] used0.covers(c));
        let ghost ok = self.can_copy(c0, total, partition@.len() as int);
        let ghost free0 = self.allocator.free_clusters() as int;
        proof {
            assert(ok == old(self).can_copy(*old(cursor) as int, len as int, old(partition)@.len() as int));
        }
        let mut copied_fragments: Vec<Range<ClusterIdx>> = Vec::new();
        let mut remaining = len;
        proof {
            lemma_changes_only_free_refl(partition@, self.allocator.spec_used(), self.spec_cluster_size());
            self.fat_fs.spec_boot_sector().lemma_geometry();
            if tracking {
                lemma_aligned_data_start(self.fat_fs);
            }
        }
        while remaining > 0
            invariant
                self.wf(partition@.len() as int),
                partition@.len() == old(partition)@.len(),
                self.fat_fs == old(self).fat_fs,
                self.stream_archiver == old(self).stream_archiver,
                self.allocator.spec_valid() == old(self).allocator.spec_valid(),
                self.forbidden_ranges == old(self).forbidden_ranges,
                self.file_count == old(self).file_count,
                forbidden == self.forbidden_ranges,
                avoids(copied_fragments@, forbidden),
                self.allocator.spec_used() == old(self).allocator.spec_used(),
                self.spec_cluster_size() == old(self).spec_cluster_size(),
                changes_only_free(old(partition)@, partition@, old(self).allocator.spec_used(), old(self).spec_cluster_size()),
                p0 == old(partition)@,
                c0 == *old(cursor),
                total == remaining + (*cursor - c0),
                total == len,
                c0 <= *cursor,
                a0 == old(self).allocator.spec_cursor(),
                a0 <= self.allocator.spec_cursor(),
                cs == old(self).spec_cluster_size(),
                cs > 0,
                fdc == first_data_cluster(self.fat_fs),
                used0 == old(self).allocator.spec_used(),
                changes_only_between(p0, partition@, a0, self.allocator.spec_cursor() as int, cs),
                ranges_clusters(copied_fragments@).len() == *cursor - c0,
                self.allocator.free_clusters() == free0 - (*cursor - c0),
                ok == old(self).can_copy(c0, total, p0.len() as int),
                free0 == old(self).allocator.free_clusters(),
                forall|k: int|
                    0 <= k < *cursor - c0 ==> a0 <= #[trigger] ranges_clusters(copied_fragments@)[k]
                        < self.allocator.spec_cursor() && cs * ranges_clusters(copied_fragments@)[k] + cs
                        <= p0.len(),
                tracking ==> data_aligned(self.fat_fs) && self.fat_fs.spec_data_start() == cs * fdc,
                tracking ==> forall|c: int| fdc + c0 <= c < fdc + c0 + total ==> #[trigger] used0.covers(c),
                tracking ==> forall|k: int|
                    0 <= k < *cursor - c0 ==> cluster_bytes(partition@, #[trigger] ranges_clusters(copied_fragments@)[k], cs)
                        == cluster_bytes(p0, fdc + c0 + k, cs),
            decreases remaining,
        {
            let ghost used = self.allocator.spec_used();
            let ghost rc = ranges_clusters(copied_fragments@);
            let ghost ab = self.allocator.spec_cursor() as int;
            proof {
                if ok {
                    assert(old(self).allocator.free_clusters() >= total);
                    assert(self.allocator.free_clusters() >= remaining);
                }
            }
            let mut allocated = match self.allocator.allocate(remaining) {
                Ok(a) => a,
                Err(e) => {
                    proof {
                        assert(!ok);
                    }
                    return Err(e);
                },
            };
            let ghost range = allocated.spec_range();
            proof {
                assert(range.start <= range.end);
            }
            let n = allocated.len();
            let mut iter = allocated.iter_mut();
            let mut copied: u32 = 0;
            while copied < n
                invariant
                    copied <= n,
                    n == range.end - range.start,
                    iter.spec_remaining() == ((range.start + copied) as u32..range.end),
                    forall|z: int| range.start <= z < range.end ==> !used.covers(z),
                    used == old(self).allocator.spec_used(),
                    self.wf(partition@.len() as int),
                    partition@.len() == old(partition)@.len(),
                    self.fat_fs == old(self).fat_fs,
                    self.stream_archiver == old(self).stream_archiver,
                    self.allocator.spec_valid() == old(self).allocator.spec_valid(),
                    self.forbidden_ranges == old(self).forbidden_ranges,
                    self.file_count == old(self).file_count,
                    self.allocator.spec_used() == old(self).allocator.spec_used(),
                    self.spec_cluster_size() == old(self).spec_cluster_size(),
                    changes_only_free(old(partition)@, partition@, old(self).allocator.spec_used(), old(self).spec_cluster_size()),
                    self.allocator.spec_cursor() == range.end,
                    range.start <= range.end,
                    ab <= range.start,
                    a0 <= ab,
                    a0 == old(self).allocator.spec_cursor(),
                    p0 == old(partition)@,
                    c0 == *old(cursor),
                    c0 <= *cursor,
                    *cursor - c0 + n <= total,
                    cs == old(self).spec_cluster_size(),
                    cs > 0,
                    fdc == first_data_cluster(self.fat_fs),
                    used0 == used,
                    changes_only_between(p0, partition@, a0, self.allocator.spec_cursor() as int, cs),
                    rc.len() == *cursor - c0,
                    self.allocator.free_clusters() == free0 - (*cursor - c0) - n,
                    ok == old(self).can_copy(c0, total, p0.len() as int),
                    free0 == old(self).allocator.free_clusters(),
                    self.allocator.spec_valid().start <= range.start,
                    range.end <= self.allocator.spec_valid().end,
                    n <= remaining,
                    total == len,
                    total == remaining + (*cursor - c0),
                    forall|k: int| 0 <= k < *cursor - c0 ==> a0 <= #[trigger] rc[k] < ab && cs * rc[k] + cs <= p0.len(),
                    forall|c: int| range.start <= c < range.start + copied ==> #[trigger] cluster_within(p0.len() as int, c, cs),
                    tracking ==> forall|c: int|
                        range.start <= c < range.start + copied ==> #[trigger] cluster_bytes(partition@, c, cs)
                            == cluster_bytes(p0, fdc + *cursor + (c - range.start), cs),
                    tracking ==> data_aligned(self.fat_fs) && self.fat_fs.spec_data_start() == cs * fdc,
                    tracking ==> forall|c: int| fdc + c0 <= c < fdc + c0 + total ==> #[trigger] used0.covers(c),
                    tracking ==> forall|k: int|
                        0 <= k < *cursor - c0 ==> cluster_bytes(partition@, #[trigger] rc[k], cs) == cluster_bytes(
                            p0,
                            fdc + c0 + k,
                            cs,
                        ),
                decreases n - copied,
            {
                let new_cluster_idx = match iter.next() {
                    Some(idx) => idx,
                    None => {
                        proof {
                            assert(false);
                        }
                        return Err(ConvertError::CorruptedData);
                    },
                };
                let old_data_cluster_idx = match cursor.checked_add(copied) {
                    Some(c) => DataClusterIdx(c),
                    None => {
                        return Err(ConvertError::CorruptedData);
                    },
                };
                proof {
                    if ok {
                        assert(old(self).fat_fs.data_cluster_readable(old_data_cluster_idx.0 as int));
                    }
                }
                let data = match self.fat_fs.read_data_cluster(partition.as_slice(), old_data_cluster_idx) {
                    Ok(d) => d,
                    Err(e) => {
                        return Err(e);
                    },
                };
                let ghost p1 = partition@;
                let ghost src = fdc + *cursor + copied;
                proof {
                    if tracking {
                        assert(used0.covers(src));
                        assert(cs * fdc + (*cursor + copied) * cs == cs * src) by (nonlinear_arith)
                            requires
                                src == fdc + *cursor + copied,
                        ;
                        lemma_used_cluster_unchanged(p0, p1, used0, src, cs);
                        assert(data@ =~= cluster_bytes(p1, src, cs));
                    }
                }
                proof {
                    if ok {
                        let i = new_cluster_idx.spec_idx() as int;
                        let e = self.allocator.spec_valid().end as int;
                        assert(cs * i + cs <= cs * e) by (nonlinear_arith)
                            requires
                                i + 1 <= e,
                                cs > 0,
                        ;
                    }
                }
                let r = self.allocator.write_in_cluster(partition, &new_cluster_idx, 0, data.as_slice());
                proof {
                    if r is Ok {
                        let n_idx = new_cluster_idx.spec_idx() as int;
                        lemma_cluster_change_is_free(p1, partition@, n_idx, old(self).spec_cluster_size(), used);
                        lemma_changes_only_free_trans(old(partition)@, p1, partition@, used, old(self).spec_cluster_size());
                        lemma_cluster_change_between(p1, partition@, n_idx, a0, self.allocator.spec_cursor() as int, cs);
                        lemma_changes_between_trans(
                            p0,
                            p1,
                            partition@,
                            a0,
                            self.allocator.spec_cursor() as int,
                            self.allocator.spec_cursor() as int,
                            cs,
                        );
                        if tracking {
                            assert(cluster_bytes(partition@, n_idx, cs) =~= data@);
                            assert forall|k: int| 0 <= k < *cursor - c0 implies cluster_bytes(
                                partition@,
                                #[trigger] rc[k],
                                cs,
                            ) == cluster_bytes(p0, fdc + c0 + k, cs) by {
                                lemma_other_cluster_unchanged(p1, partition@, n_idx, rc[k], cs);
                            }
                        }
                        assert forall|c: int| range.start <= c < range.start + copied + 1 implies #[trigger] cluster_within(
                            p0.len() as int,
                            c,
                            cs,
                        ) by {
                            if c < range.start + copied {
                                assert(cluster_within(p0.len() as int, c, cs));
                            }
                        }
                        if tracking {
                            assert forall|c: int| range.start <= c < range.start + copied + 1 implies #[trigger] cluster_bytes(
                                partition@,
                                c,
                                cs,
                            ) == cluster_bytes(p0, fdc + *cursor + (c - range.start), cs) by {
                                if c < range.start + copied {
                                    assert(cluster_within(p0.len() as int, c, cs));
                                    assert(cluster_bytes(p1, c, cs) == cluster_bytes(p0, fdc + *cursor + (c - range.start), cs));
                                    lemma_other_cluster_unchanged(p1, partition@, n_idx, c, cs);
                                }
                            }
                        }
                    }
                }
                r?;
                copied += 1;
            }
            let ghost cursor_before = *cursor as int;
            *cursor = match cursor.checked_add(n) {
                Some(c) => c,
                None => {
                    return Err(ConvertError::CorruptedData);
                },
            };
            let new_range = allocated.into_range();
            proof {
                assert forall|z: int| new_range.start <= z < new_range.end implies !forbidden.covers(z) by {
                    assert(!used.covers(z));
                }
            }
            let ghost before = copied_fragments@;
            copied_fragments.push(new_range);
            proof {
                assert forall|i: int, z: int|
                    0 <= i < copied_fragments@.len() && (#[trigger] copied_fragments@[i]).start <= z
                        < copied_fragments@[i].end implies !#[trigger] forbidden.covers(z) by {
                    if i < before.len() {
                        assert(before[i] == copied_fragments@[i]);
                    }
                }
                assert(copied_fragments@.drop_last() =~= before);
                let rc2 = ranges_clusters(copied_fragments@);
                assert(rc2 =~= rc + Seq::new(n as nat, |i: int| range.start + i));
                assert forall|k: int| 0 <= k < *cursor - c0 implies a0 <= #[trigger] rc2[k] < self.allocator.spec_cursor()
                    && cs * rc2[k] + cs <= p0.len() by {
                    if k >= cursor_before - c0 {
                        assert(rc2[k] == range.start + (k - (cursor_before - c0)));
                        assert(cluster_within(p0.len() as int, rc2[k], cs));
                    } else {
                        assert(rc2[k] == rc[k]);
                    }
                }
                if tracking {
                    assert forall|k: int| 0 <= k < *cursor - c0 implies cluster_bytes(
                        partition@,
                        #[trigger] rc2[k],
                        cs,
                    ) == cluster_bytes(p0, fdc + c0 + k, cs) by {
                        if k >= cursor_before - c0 {
                            let m = k - (cursor_before - c0);
                            assert(rc2[k] == range.start + m);
                            assert(cluster_bytes(partition@, range.start + m, cs) == cluster_bytes(
                                p0,
                                fdc + cursor_before + m,
                                cs,
                            ));
                        } else {
                            assert(rc2[k] == rc[k]);
                        }
                    }
                }
            }
            if n == 0 {
                return Err(ConvertError::NoFreeClusters);
            }
            remaining = remaining - n;
        }
        Ok(copied_fragments)
    }

    /// Writes the last page of the archive and builds the deserializer for the new filesystem, after a dry run
    /// of the conversion has shown that it will not run out of inodes or blocks.
    pub fn into_deserializer(self, partition: &mut Vec<u8>, uuid: [u8; 16], mkfs_time: u32) -> (r: Result<Ext4TreeDeserializerInternals, ConvertError>)
        requires
            self.wf(old(partition)@.len() as int),
        ensures
            final(partition)@.len() == old(partition)@.len(),
            r matches Ok(d) ==> d.wf() && d.ext_fs.last_allocated_inode_no == crate::ext4::FIRST_NON_RESERVED_INODE - 1,
            r is Err ==> changes_only_free(old(partition)@, final(partition)@, self.allocator.spec_used(), self.spec_cluster_size()),
            r matches Ok(d) ==> (self.archive_holds(old(partition)@) ==> d.reader.spec_pending()
                == self.stream_archiver.spec_records()),
            r matches Ok(d) ==> d.ext_fs.superblock.is_new_superblock(
                self.fat_fs.spec_boot_sector().spec_fs_size(),
                self.fat_fs.spec_boot_sector().spec_cluster_size(),
                self.fat_fs.spec_boot_sector().spec_volume_label(),
                uuid@,
                mkfs_time as int,
            ),
            r matches Ok(d) ==> (self.archive_holds(old(partition)@) && (forall|x: int|
                #[trigger] d.ext_fs.superblock.is_overhead_block(x) ==> self.allocator.spec_used().covers(x))
                ==> d.reader.holds(final(partition)@)),
            r matches Ok(d) ==> ((forall|x: int|
                #[trigger] d.ext_fs.superblock.is_overhead_block(x) ==> self.allocator.spec_used().covers(x))
                ==> d.reads_safely()),
            r == Err::<Ext4TreeDeserializerInternals, ConvertError>(ConvertError::NoFreeClusters) ==> self.allocator.exhausted(),
            self.archive_holds(old(partition)@) ==> match tree_needs(
                self.stream_archiver.spec_records(),
                self.file_count as nat,
                self.fat_fs.spec_boot_sector().spec_cluster_size(),
            ) {
                Some((inodes, blocks)) => inodes <= u64::MAX && blocks <= u64::MAX ==> (r matches Err(e) ==> {
                    ||| e == ConvertError::NoFreeClusters
                    ||| e == ConvertError::InconsistentFileSystem
                    ||| e == ConvertError::UnalignedDataSection
                    ||| Some(e) == new_error(
                        self.fat_fs.spec_boot_sector().spec_fs_size(),
                        self.fat_fs.spec_boot_sector().spec_cluster_size(),
                    )
                    ||| e == ConvertError::FilesystemTooLarge
                    ||| e == ConvertError::TooFewInodes
                    ||| (e matches ConvertError::NotEnoughSpace { required_blocks, required_inodes, .. }
                        && required_blocks == blocks && required_inodes == inodes)
                }),
                None => true,
            },
            ({
                let boot_sector = self.fat_fs.spec_boot_sector();
                let cs = boot_sector.spec_cluster_size();
                &&& self.archive_holds(old(partition)@)
                &&& self.stream_archiver.can_finish(self.allocator, old(partition)@.len() as int)
                &&& boot_sector.spec_first_data_byte() % cs == 0
                &&& new_error(boot_sector.spec_fs_size(), cs) is None
                &&& tree_needs(self.stream_archiver.spec_records(), self.file_count as nat, cs) matches Some(
                    (inodes, blocks),
                ) && blocks < self.allocator.free_clusters() && forall|sb: SuperBlock|
                    #[trigger] sb.is_new_superblock(
                        boot_sector.spec_fs_size(),
                        cs,
                        boot_sector.spec_volume_label(),
                        uuid@,
                        mkfs_time as int,
                    ) ==> superblock_takes(sb, inodes, old(partition)@.len() as int)
            }) ==> r is Ok,
    {
        let file_count = self.file_count;
        let ghost records = self.stream_archiver.spec_records();
        let ghost holding = self.archive_holds(partition@);
        let ghost cs = self.fat_fs.spec_boot_sector().spec_cluster_size();
        let ghost free = self.allocator.free_clusters();
        proof {
            self.allocator.spec_used().lemma_uncovered_count_bound(
                self.allocator.spec_cursor() as int,
                self.allocator.spec_valid().end as int,
            );
        }
        let (reader, allocator) = self.stream_archiver.into_reader(partition, self.allocator)?;
        let superblock = SuperBlock::from(self.fat_fs.boot_sector(), uuid, mkfs_time)?;
        proof {
            let boot_sector = self.fat_fs.spec_boot_sector();
            if holding {
                // the dry run reads the archive back, with blocks of the cluster size
                assert(reader.spec_pending() == records);
                assert(superblock.spec_block_size() == cs);
                lemma_tree_needs_bounds(records, file_count as nat, cs);
                if tree_needs(records, file_count as nat, cs) is Some {
                    let (inodes, blocks) = tree_needs(records, file_count as nat, cs)->0;
                    if (forall|sb: SuperBlock|
                        #[trigger] sb.is_new_superblock(
                            boot_sector.spec_fs_size(),
                            cs,
                            boot_sector.spec_volume_label(),
                            uuid@,
                            mkfs_time as int,
                        ) ==> superblock_takes(sb, inodes, partition@.len() as int)) {
                        assert(superblock_takes(superblock, inodes, partition@.len() as int));
                    }
                }
            }
        }
        Ext4TreeDeserializerInternals::new_with_dry_run(reader, allocator, superblock, partition, file_count)
    }
}

} // verus!
