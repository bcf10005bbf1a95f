use vstd::prelude::*;
use crate::ext4::dentry::{spec_aligned_length, ALIGNMENT, DENTRY_HEADER_LEN, EXT4_NAME_MAX_LEN};
use std::ops::Range;
use crate::error::ConvertError;
use crate::ext4::dentry::Ext4Dentry;
use crate::ext4::extent::{
    lemma_required_block_count_nonneg, spec_required_block_count, extents_per_block, spec_from_ranges, logical_ends_fit,
    Extent, ExtentTree,
};
use crate::ext4::{BlockCount, BlockSize, InodeCount};
use crate::ranges::ClusterIdx;
use crate::serialization::stream_archiver::{directory_child_count, Reader, Record};
use crate::serialization::{DirectoryWriter, FileType};

verus! {

broadcast use vstd::std_specs::control_flow::group_control_flow_axioms;

/// The errors with which counting the archived tree can fail; running out of space is decided afterwards.
pub open spec fn counting_error(e: ConvertError) -> bool {
    ||| e == ConvertError::TooManyInodes
    ||| e == ConvertError::FileTooLarge
    ||| e == ConvertError::NameTooLong
    ||| e == ConvertError::DirectoryTooLarge
    ||| e == ConvertError::CorruptedData
}

/// The length of the directory entry of a name of `name_len` bytes.
pub open spec fn entry_len(name_len: int) -> int {
    spec_aligned_length(name_len + DENTRY_HEADER_LEN, ALIGNMENT as int)
}

/// How full a directory is after an entry of `len` bytes is added to one filled as `fill`: the blocks its entries
/// take and the position in the last one. An entry that does not fit into the rest of the last block starts a new
/// block.
pub open spec fn after_entry(fill: (int, int), len: int, bs: int) -> (int, int) {
    if len > bs - fill.1 {
        (fill.0 + 1, len)
    } else {
        (fill.0, fill.1 + len)
    }
}

/// The blocks of a directory filled as `fill`: those of its entries and those of the extent tree over them.
pub open spec fn fill_blocks(fill: (int, int), bs: int) -> int {
    fill.0 + spec_required_block_count(fill.0, extents_per_block(bs))
}

/// How full a new directory is with its `.` and `..` entries.
pub open spec fn dot_dirs_fill() -> (int, int) {
    (1, 24)
}

/// The cluster ranges of a regular file as block ranges.
pub open spec fn block_ranges_of(ranges: Seq<Range<ClusterIdx>>) -> Seq<Range<u64>> {
    Seq::new(ranges.len(), |i: int| Range { start: ranges[i].start as u64, end: ranges[i].end as u64 })
}

/// What converting the file at the front of the archive records `recs` takes, read with at most `budget` files to
/// go, as an entry of a directory filled as `fill`: `Some((k, b, fill2, inodes, blocks))` if the file, with
/// everything below it if it is a directory, is the first `k` records and can be converted, leaving `b` files to go
/// and the directory filled as `fill2`. The blocks are those that the directory grows by, and for a directory its
/// own entries' blocks and everything below it, for a regular file the blocks of its extent tree.
pub open spec fn file_needs(recs: Seq<Record>, budget: nat, fill: (int, int), bs: int) -> Option<
    (nat, nat, (int, int), int, int),
>
    decreases budget, 0nat, 0nat,
{
    if budget == 0 || recs.len() < 3 {
        None
    } else {
        match (recs[0], recs[1], recs[2]) {
            (Record::FileTypes(t), Record::Dentries(d), Record::Bytes(name)) => {
                let fill2 = after_entry(fill, entry_len(name@.len() as int), bs);
                let grown = fill_blocks(fill2, bs) - fill_blocks(fill, bs);
                if t@.len() != 1 || d@.len() != 1 || name@.len() > EXT4_NAME_MAX_LEN || fill2.0 > u32::MAX || grown
                    < 0 {
                    None
                } else {
                    match t@[0] {
                        FileType::Directory(n) => match children_need(
                            recs.skip(3),
                            n as nat,
                            (budget - 1) as nat,
                            dot_dirs_fill(),
                            bs,
                        ) {
                            Some((k, b, _, inodes, blocks)) => Some(
                                (3 + k, b, fill2, 1 + inodes, grown + fill_blocks(dot_dirs_fill(), bs) + blocks),
                            ),
                            None => None,
                        },
                        FileType::RegularFile => match recs.len() >= 4 {
                            true => match recs[3] {
                                Record::Ranges(v) => {
                                    let extents = spec_from_ranges(block_ranges_of(v@), 0);
                                    if logical_ends_fit(extents) && extents.len() <= u32::MAX {
                                        Some(
                                            (
                                                4nat,
                                                (budget - 1) as nat,
                                                fill2,
                                                1,
                                                grown + spec_required_block_count(
                                                    extents.len() as int,
                                                    extents_per_block(bs),
                                                ),
                                            ),
                                        )
                                    } else {
                                        None
                                    }
                                },
                                _ => None,
                            },
                            false => None,
                        },
                    }
                }
            },
            _ => None,
        }
    }
}

/// What converting the `n` files at the front of `recs` takes, as `file_needs` says of one, into a directory filled
/// as `fill`.
pub open spec fn children_need(recs: Seq<Record>, n: nat, budget: nat, fill: (int, int), bs: int) -> Option<
    (nat, nat, (int, int), int, int),
>
    decreases budget, 1nat, n,
{
    if n == 0 {
        Some((0nat, budget, fill, 0, 0))
    } else {
        match file_needs(recs, budget, fill, bs) {
            Some((k, b, fill2, inodes, blocks)) => if b < budget && k <= recs.len() {
                match children_need(recs.skip(k as int), (n - 1) as nat, b, fill2, bs) {
                    Some((k2, b2, fill3, inodes2, blocks2)) => Some(
                        (k + k2, b2, fill3, inodes + inodes2, blocks + blocks2),
                    ),
                    None => None,
                }
            } else {
                None
            },
            None => None,
        }
    }
}

/// How full the root directory is with its `.` and `..` entries and the entry of lost+found.
pub open spec fn root_fill(bs: int) -> (int, int) {
    after_entry(dot_dirs_fill(), entry_len(10), bs)
}

/// The inodes and blocks that converting the archived directory tree `recs` takes, read with at most `budget`
/// files: lost+found and the root's and lost+found's entries, then every file of the tree.
pub open spec fn tree_needs(recs: Seq<Record>, budget: nat, bs: int) -> Option<(int, int)> {
    if recs.len() == 0 {
        None
    } else {
        match directory_child_count(recs[0]) {
            Some(n) => match children_need(recs.drop_first(), n as nat, budget, root_fill(bs), bs) {
                Some((_, _, _, inodes, blocks)) => Some(
                    (1 + inodes, fill_blocks(root_fill(bs), bs) + fill_blocks(dot_dirs_fill(), bs) + blocks),
                ),
                None => None,
            },
            None => None,
        }
    }
}

/// A directory tree needs at least one inode and no negative number of blocks.
pub proof fn lemma_tree_needs_bounds(recs: Seq<Record>, budget: nat, bs: int)
    requires
        bs >= 1024,
    ensures
        tree_needs(recs, budget, bs) matches Some((inodes, blocks)) ==> inodes >= 1 && blocks >= 0,
{
    if recs.len() > 0 {
        if let Some(n) = directory_child_count(recs[0]) {
            lemma_children_needs_bounds(recs.drop_first(), n as nat, budget, root_fill(bs), bs);
            lemma_required_block_count_nonneg(1, extents_per_block(bs));
        }
    }
}

/// The needs of `n > 0` files are those of the first one and then those of the others.
pub proof fn lemma_children_need_unfold(recs: Seq<Record>, n: nat, budget: nat, fill: (int, int), bs: int)
    requires
        n > 0,
        children_need(recs, n, budget, fill, bs) is Some,
    ensures
        ({
            let (k, b, f, i, bl) = children_need(recs, n, budget, fill, bs)->0;
            let (k1, b1, f1, i1, bl1) = file_needs(recs, budget, fill, bs)->0;
            &&& file_needs(recs, budget, fill, bs) is Some
            &&& b1 < budget
            &&& k1 <= recs.len()
            &&& children_need(recs.skip(k1 as int), (n - 1) as nat, b1, f1, bs) == Some(
                ((k - k1) as nat, b, f, i - i1, bl - bl1),
            )
        }),
{
}

/// Needs are not negative, and files take no more records than there are.
pub proof fn lemma_needs_bounds(recs: Seq<Record>, budget: nat, fill: (int, int), bs: int)
    requires
        bs >= 1024,
    ensures
        file_needs(recs, budget, fill, bs) matches Some((k, b, f, i, bl)) ==> k <= recs.len() && i >= 1 && bl >= 0 && b
            < budget,
    decreases budget, 0nat, 0nat,
{
    if budget > 0 && recs.len() >= 3 {
        if let (Record::FileTypes(t), Record::Dentries(d), Record::Bytes(name)) = (recs[0], recs[1], recs[2]) {
            if t@.len() == 1 {
                if let FileType::Directory(n) = t@[0] {
                    lemma_children_needs_bounds(recs.skip(3), n as nat, (budget - 1) as nat, dot_dirs_fill(), bs);
                    assert(fill_blocks(dot_dirs_fill(), bs) >= 0) by {
                        lemma_required_block_count_nonneg(1, extents_per_block(bs));
                    }
                } else {
                    let v = recs[3]->Ranges_0@;
                    lemma_required_block_count_nonneg(
                        spec_from_ranges(block_ranges_of(v), 0).len() as int,
                        extents_per_block(bs),
                    );
                }
            }
        }
    }
}

/// Needs of several files are not negative, and they take no more records than there are.
pub proof fn lemma_children_needs_bounds(recs: Seq<Record>, n: nat, budget: nat, fill: (int, int), bs: int)
    requires
        bs >= 1024,
    ensures
        children_need(recs, n, budget, fill, bs) matches Some((k, b, f, i, bl)) ==> k <= recs.len() && i >= 0 && bl
            >= 0 && b <= budget,
    decreases budget, 1nat, n,
{
    if n > 0 {
        lemma_needs_bounds(recs, budget, fill, bs);
        if let Some((k, b, f, i, bl)) = file_needs(recs, budget, fill, bs) {
            if b < budget && k <= recs.len() {
                lemma_children_needs_bounds(recs.skip(k as int), (n - 1) as nat, b, f, bs);
            }
        }
    }
}

/// Counts the blocks that the entries of one directory need, without writing anything.
pub struct DryRunDirectoryWriter {
    /// a directory's block count must fit into a u32
    pub used_dentry_blocks: u32,
    pub used_extent_blocks: BlockCount,
    pub block_size: BlockSize,
    pub position_in_block: u32,
}

impl DirectoryWriter for DryRunDirectoryWriter {
}

impl DryRunDirectoryWriter {
    pub open spec fn wf(&self) -> bool {
        &&& 1024 <= self.block_size <= 65536
        &&& self.position_in_block <= self.block_size
        &&& self.used_extent_blocks == spec_required_block_count(
            self.used_dentry_blocks as int,
            extents_per_block(self.block_size as int),
        )
        &&& self.used_extent_blocks <= 30 * 0xFFFF_FFFFu64
    }

    pub open spec fn spec_used_blocks(&self) -> int {
        self.used_dentry_blocks + self.used_extent_blocks
    }

    /// How full the directory is: the blocks its entries take and the position in the last one.
    pub open spec fn fill(&self) -> (int, int) {
        (self.used_dentry_blocks as int, self.position_in_block as int)
    }

    /// A writer for a directory without entries; its first block counts as soon as the first entry is added.
    pub fn new(block_size: BlockSize) -> (r: Self)
        requires
            1024 <= block_size <= 65536,
        ensures
            r.wf(),
            r.block_size == block_size,
            r.used_dentry_blocks == 0,
            r.used_extent_blocks == 0,
            r.position_in_block == block_size,
    {
        // the position is at the end of a full block to model the first block being allocated immediately
        DryRunDirectoryWriter { used_dentry_blocks: 0, used_extent_blocks: 0, block_size, position_in_block: block_size }
    }

    pub fn used_blocks(&self) -> (r: u64)
        requires
            self.wf(),
        ensures
            r == self.spec_used_blocks(),
    {
        self.used_dentry_blocks as u64 + self.used_extent_blocks
    }

    pub fn remaining_space(&self) -> (r: u32)
        requires
            self.wf(),
        ensures
            r == self.block_size - self.position_in_block,
    {
        self.block_size - self.position_in_block
    }

    /// Counts `dentry` into the directory: if it does not fit into the rest of the current block, a new block is
    /// counted, together with the extent tree blocks that the directory's extents then need. Returns the number of
    /// blocks counted for it; fails with `DirectoryTooLarge` if the directory would have more than `u32::MAX`
    /// blocks.
    pub fn add_dentry(&mut self, dentry: &Ext4Dentry) -> (r: Result<u64, ConvertError>)
        requires
            old(self).wf(),
            dentry.wf(),
        ensures
            final(self).block_size == old(self).block_size,
            match r {
                Ok(added) => {
                    &&& final(self).wf()
                    &&& if dentry.inner.dentry_len > old(self).block_size - old(self).position_in_block {
                        &&& final(self).used_dentry_blocks == old(self).used_dentry_blocks + 1
                        &&& final(self).position_in_block == dentry.inner.dentry_len
                    } else {
                        &&& final(self).used_dentry_blocks == old(self).used_dentry_blocks
                        &&& final(self).position_in_block == old(self).position_in_block + dentry.inner.dentry_len
                    }
                    &&& added == final(self).spec_used_blocks() - old(self).spec_used_blocks()
                },
                Err(e) => e == ConvertError::DirectoryTooLarge || e == ConvertError::CorruptedData,
            },
            dentry.inner.dentry_len <= old(self).block_size - old(self).position_in_block ==> r is Ok,
            old(self).used_dentry_blocks == 0 ==> r is Ok,
            r is Ok ==> final(self).fill() == after_entry(
                old(self).fill(),
                dentry.inner.dentry_len as int,
                old(self).block_size as int,
            ),
            ({
                let after = after_entry(old(self).fill(), dentry.inner.dentry_len as int, old(self).block_size as int);
                after.0 <= u32::MAX && fill_blocks(after, old(self).block_size as int) >= fill_blocks(
                    old(self).fill(),
                    old(self).block_size as int,
                )
            }) ==> r is Ok,
    {
        let old_used_blocks = self.used_blocks();
        let dentry_len = dentry.dentry_len() as u32;
        proof {
            crate::ext4::dentry::lemma_dentry_len_bound(*dentry);
        }
        if dentry_len > self.remaining_space() {
            // a file's block count must fit into a u32; this fails only with billions of files
            self.used_dentry_blocks = match self.used_dentry_blocks.checked_add(1) {
                Some(n) => n,
                None => {
                    return Err(ConvertError::DirectoryTooLarge);
                },
            };
            self.position_in_block = 0;
            self.used_extent_blocks = ExtentTree::required_block_count(self.used_dentry_blocks as u64, self.block_size);
        }
        self.position_in_block = self.position_in_block + dentry_len;
        let new_used_blocks = self.used_blocks();
        if new_used_blocks < old_used_blocks {
            return Err(ConvertError::CorruptedData);
        }
        Ok(new_used_blocks - old_used_blocks)
    }

    /// Counts the `.` and `..` entries.
    pub fn add_dot_dirs(&mut self) -> (r: Result<u64, ConvertError>)
        requires
            old(self).wf(),
        ensures
            final(self).block_size == old(self).block_size,
            r is Ok ==> final(self).wf(),
            r matches Ok(added) ==> added == final(self).spec_used_blocks() - old(self).spec_used_blocks(),
            r matches Err(e) ==> counting_error(e),
            old(self).position_in_block + 24 <= old(self).block_size ==> r == Ok::<u64, ConvertError>(0)
                && final(self).position_in_block == old(self).position_in_block + 24 && final(self).used_dentry_blocks
                == old(self).used_dentry_blocks,
            old(self).position_in_block == old(self).block_size && old(self).used_dentry_blocks == 0 ==> r is Ok
                && final(self).used_dentry_blocks == 1 && final(self).position_in_block == 24,
    {
        let mut dot: Vec<u8> = Vec::new();
        dot.push(46u8);
        proof {
            assert(dot@.len() == 1);
        }
        let dot_dentry = Ext4Dentry::new(0, dot)?;
        proof {
            assert(spec_aligned_length(9, 4) == 12);
            assert(dot_dentry.inner.dentry_len == 12);
        }
        let first = self.add_dentry(&dot_dentry)?;
        let mut dot_dot: Vec<u8> = Vec::new();
        dot_dot.push(46u8);
        dot_dot.push(46u8);
        proof {
            assert(dot_dot@.len() == 2);
        }
        let dot_dot_dentry = Ext4Dentry::new(0, dot_dot)?;
        proof {
            assert(spec_aligned_length(10, 4) == 12);
            assert(dot_dot_dentry.inner.dentry_len == 12);
        }
        let second = self.add_dentry(&dot_dot_dentry)?;
        Ok(first + second)
    }
}

/// Runs the conversion of the archived directory tree without writing anything, counting the inodes and blocks that
/// it needs, so that a conversion that would fail midway is refused before the FAT filesystem is touched.
pub struct DryRunDeserializerInternals {
    pub reader: Reader,
    pub used_inodes: u64,
    pub used_blocks: u64,
    pub block_size: BlockSize,
}

/// The blocks of an extent tree over the extents into which `ranges` are cut.
pub open spec fn spec_extent_tree_blocks_of(ranges_len: int, block_size: int) -> int {
    spec_required_block_count(ranges_len, extents_per_block(block_size))
}

impl DryRunDeserializerInternals {
    pub fn new(reader: Reader, block_size: BlockSize) -> (r: Self)
        ensures
            r.reader == reader,
            r.used_inodes == 0,
            r.used_blocks == 0,
            r.block_size == block_size,
    {
        DryRunDeserializerInternals { reader, used_inodes: 0, used_blocks: 0, block_size }
    }

    pub open spec fn wf(&self) -> bool {
        &&& self.reader.wf()
        &&& 1024 <= self.block_size <= 65536
    }

    /// The outcome of the dry run: fine if the counted inodes and blocks are available, else `NotEnoughSpace` with
    /// the counts. The whole run is counted before deciding, so that the error tells what would be needed.
    pub fn result(&self, free_inodes: InodeCount, free_blocks: BlockCount) -> (r: Result<(), ConvertError>)
        ensures
            r is Ok <==> (self.used_inodes <= free_inodes && self.used_blocks <= free_blocks),
            r matches Err(e) ==> e == (ConvertError::NotEnoughSpace {
                required_blocks: self.used_blocks,
                available_blocks: free_blocks,
                required_inodes: self.used_inodes,
                available_inodes: free_inodes as u64,
            }),
    {
        let enough_inodes = self.used_inodes <= free_inodes as u64;
        let enough_blocks = self.used_blocks <= free_blocks;
        if enough_inodes && enough_blocks {
            Ok(())
        } else {
            Err(ConvertError::NotEnoughSpace {
                required_blocks: self.used_blocks,
                available_blocks: free_blocks,
                required_inodes: self.used_inodes,
                available_inodes: free_inodes as u64,
            })
        }
    }

    fn add_blocks(&mut self, n: u64) -> (r: Result<(), ConvertError>)
        ensures
            final(self).reader == old(self).reader,
            final(self).block_size == old(self).block_size,
            final(self).used_inodes == old(self).used_inodes,
            r is Ok ==> final(self).used_blocks == old(self).used_blocks + n,
            r matches Err(e) ==> e == ConvertError::FileTooLarge,
            old(self).used_blocks + n <= u64::MAX ==> r is Ok,
    {
        self.used_blocks = match self.used_blocks.checked_add(n) {
            Some(b) => b,
            None => {
                return Err(ConvertError::FileTooLarge);
            },
        };
        Ok(())
    }

    fn add_inode(&mut self) -> (r: Result<(), ConvertError>)
        ensures
            final(self).reader == old(self).reader,
            final(self).block_size == old(self).block_size,
            final(self).used_blocks == old(self).used_blocks,
            r is Ok ==> final(self).used_inodes == old(self).used_inodes + 1,
            r matches Err(e) ==> e == ConvertError::TooManyInodes,
            old(self).used_inodes < u64::MAX ==> r is Ok,
    {
        self.used_inodes = match self.used_inodes.checked_add(1) {
            Some(b) => b,
            None => {
                return Err(ConvertError::TooManyInodes);
            },
        };
        Ok(())
    }

    /// Counts the root directory: its `.` and `..` entries and the lost+found directory.
    pub fn build_root(&mut self) -> (r: Result<DryRunDirectoryWriter, ConvertError>)
        requires
            old(self).wf(),
        ensures
            final(self).reader == old(self).reader,
            final(self).block_size == old(self).block_size,
            r matches Ok(w) ==> w.wf() && w.block_size == old(self).block_size,
            r matches Ok(w) ==> final(self).used_inodes == old(self).used_inodes + 1 && final(self).used_blocks
                >= old(self).used_blocks + w.spec_used_blocks() && final(self).used_blocks >= old(self).used_blocks + 2,
            r matches Err(e) ==> counting_error(e),
            old(self).used_inodes == 0 && old(self).used_blocks == 0 ==> {
                let bs = old(self).block_size as int;
                &&& r matches Ok(w) && w.fill() == root_fill(bs)
                &&& final(self).used_inodes == 1
                &&& final(self).used_blocks == fill_blocks(root_fill(bs), bs) + fill_blocks(dot_dirs_fill(), bs)
            },
    {
        let mut dir_writer = DryRunDirectoryWriter::new(self.block_size);
        let added = dir_writer.add_dot_dirs()?;
        self.add_blocks(added)?;
        proof {
            lemma_required_block_count_nonneg(1, extents_per_block(self.block_size as int));
            assert(spec_aligned_length(10 + DENTRY_HEADER_LEN, ALIGNMENT as int) == 20);
        }
        let mut name: Vec<u8> = Vec::new();
        name.push(108u8);
        name.push(111u8);
        name.push(115u8);
        name.push(116u8);
        name.push(43u8);
        name.push(102u8);
        name.push(111u8);
        name.push(117u8);
        name.push(110u8);
        name.push(100u8);
        proof {
            assert(name@.len() == 10);
        }
        let _lost_found = self.build_directory(name, &mut dir_writer)?;
        Ok(dir_writer)
    }

    /// Counts a directory named `name`: its inode, its entry in the parent and its `.` and `..` entries.
    pub fn build_directory(&mut self, name: Vec<u8>, parent_directory_writer: &mut DryRunDirectoryWriter) -> (r: Result<
        DryRunDirectoryWriter,
        ConvertError,
    >)
        requires
            old(self).wf(),
            old(parent_directory_writer).wf(),
        ensures
            final(self).reader == old(self).reader,
            final(self).block_size == old(self).block_size,
            final(parent_directory_writer).block_size == old(parent_directory_writer).block_size,
            r is Ok ==> final(parent_directory_writer).wf(),
            r is Ok ==> final(parent_directory_writer).spec_used_blocks() >= old(parent_directory_writer).spec_used_blocks(),
            r matches Ok(w) ==> w.wf() && w.block_size == old(self).block_size && w.spec_used_blocks() >= 1,
            r matches Ok(w) ==> {
                &&& final(self).used_inodes == old(self).used_inodes + 1
                &&& final(self).used_blocks == old(self).used_blocks + (final(parent_directory_writer).spec_used_blocks()
                    - old(parent_directory_writer).spec_used_blocks()) + w.spec_used_blocks()
            },
            r matches Err(e) ==> counting_error(e),
            ({
                let bs = old(self).block_size as int;
                let after = after_entry(old(parent_directory_writer).fill(), entry_len(name@.len() as int), bs);
                let grown = fill_blocks(after, bs) - fill_blocks(old(parent_directory_writer).fill(), bs);
                &&& old(parent_directory_writer).block_size == old(self).block_size
                &&& name@.len() <= EXT4_NAME_MAX_LEN
                &&& after.0 <= u32::MAX
                &&& grown >= 0
                &&& old(self).used_inodes < u64::MAX
                &&& old(self).used_blocks + grown + fill_blocks(dot_dirs_fill(), bs) <= u64::MAX
            }) ==> {
                let bs = old(self).block_size as int;
                let after = after_entry(old(parent_directory_writer).fill(), entry_len(name@.len() as int), bs);
                let grown = fill_blocks(after, bs) - fill_blocks(old(parent_directory_writer).fill(), bs);
                &&& r matches Ok(w) && w.fill() == dot_dirs_fill()
                &&& final(parent_directory_writer).fill() == after
                &&& final(self).used_inodes == old(self).used_inodes + 1
                &&& final(self).used_blocks == old(self).used_blocks + grown + fill_blocks(dot_dirs_fill(), bs)
            },
    {
        let mut dir_writer = DryRunDirectoryWriter::new(self.block_size);
        proof {
            lemma_required_block_count_nonneg(1, extents_per_block(self.block_size as int));
        }
        self.add_inode()?;
        let dentry = Ext4Dentry::new(0, name)?;
        let added = parent_directory_writer.add_dentry(&dentry)?;
        self.add_blocks(added)?;
        let added = dir_writer.add_dot_dirs()?;
        self.add_blocks(added)?;
        Ok(dir_writer)
    }

    /// Counts a regular file named `name` with data in `data_ranges`: its inode, its entry in the parent and the
    /// blocks of the extent tree over its extents.
    pub fn build_regular_file(&mut self, name: Vec<u8>, parent_directory_writer: &mut DryRunDirectoryWriter, data_ranges: Vec<
        Range<ClusterIdx>,
    >) -> (r: Result<(), ConvertError>)
        requires
            old(self).wf(),
            old(parent_directory_writer).wf(),
        ensures
            final(self).reader == old(self).reader,
            final(self).block_size == old(self).block_size,
            final(parent_directory_writer).block_size == old(parent_directory_writer).block_size,
            r is Ok ==> final(parent_directory_writer).wf(),
            r is Ok ==> final(self).used_inodes == old(self).used_inodes + 1,
            r is Ok ==> final(self).used_blocks >= old(self).used_blocks + (final(parent_directory_writer).spec_used_blocks()
                - old(parent_directory_writer).spec_used_blocks()),
            r is Ok ==> final(parent_directory_writer).spec_used_blocks() >= old(parent_directory_writer).spec_used_blocks()
                && final(self).used_blocks >= old(self).used_blocks,
            r matches Err(e) ==> counting_error(e),
            ({
                let bs = old(self).block_size as int;
                let after = after_entry(old(parent_directory_writer).fill(), entry_len(name@.len() as int), bs);
                let grown = fill_blocks(after, bs) - fill_blocks(old(parent_directory_writer).fill(), bs);
                let extents = spec_from_ranges(block_ranges_of(data_ranges@), 0);
                &&& old(parent_directory_writer).block_size == old(self).block_size
                &&& name@.len() <= EXT4_NAME_MAX_LEN
                &&& after.0 <= u32::MAX
                &&& grown >= 0
                &&& logical_ends_fit(extents)
                &&& extents.len() <= u32::MAX
                &&& old(self).used_inodes < u64::MAX
                &&& old(self).used_blocks + grown + spec_required_block_count(extents.len() as int, extents_per_block(bs))
                    <= u64::MAX
            }) ==> {
                let bs = old(self).block_size as int;
                let after = after_entry(old(parent_directory_writer).fill(), entry_len(name@.len() as int), bs);
                let grown = fill_blocks(after, bs) - fill_blocks(old(parent_directory_writer).fill(), bs);
                let extents = spec_from_ranges(block_ranges_of(data_ranges@), 0);
                &&& r is Ok
                &&& final(parent_directory_writer).fill() == after
                &&& final(self).used_inodes == old(self).used_inodes + 1
                &&& final(self).used_blocks == old(self).used_blocks + grown + spec_required_block_count(
                    extents.len() as int,
                    extents_per_block(bs),
                )
            },
    {
        proof {
            lemma_required_block_count_nonneg(
                spec_from_ranges(block_ranges_of(data_ranges@), 0).len() as int,
                extents_per_block(self.block_size as int),
            );
        }
        self.add_inode()?;
        let dentry = Ext4Dentry::new(0, name)?;
        let added = parent_directory_writer.add_dentry(&dentry)?;
        self.add_blocks(added)?;
        let mut block_ranges: Vec<Range<u64>> = Vec::new();
        let mut i: usize = 0;
        while i < data_ranges.len()
            invariant
                i <= data_ranges@.len(),
                block_ranges@.len() == i,
                forall|j: int| 0 <= j < i ==> (#[trigger] block_ranges@[j]).end <= u32::MAX,
                forall|j: int| 0 <= j < i ==> #[trigger] block_ranges@[j] == block_ranges_of(data_ranges@)[j],
            decreases data_ranges@.len() - i,
        {
            block_ranges.push(data_ranges[i].start as u64..data_ranges[i].end as u64);
            i += 1;
        }
        proof {
            assert(block_ranges@ =~= block_ranges_of(data_ranges@));
        }
        let ghost spec_extents = spec_from_ranges(block_ranges@, 0);
        let extents = Extent::from_ranges(block_ranges)?;
        proof {
            assert(extents@.len() == extents@.map_values(|e: Extent| e@).len());
            assert(extents@.len() == spec_extents.len());
        }
        if extents.len() > u32::MAX as usize {
            return Err(ConvertError::FileTooLarge);
        }
        let tree_blocks = ExtentTree::required_block_count(extents.len() as u64, self.block_size);
        self.add_blocks(tree_blocks)?;
        Ok(())
    }

    /// Reads the next file of the archive and counts it into the directory of `parent_directory_writer`, a
    /// directory with everything below it. At most `budget` files are read; fails with `CorruptedData` beyond.
    pub fn deserialize_file(&mut self, parent_directory_writer: &mut DryRunDirectoryWriter, partition: &[u8], budget: &mut u64) -> (r: Result<
        (),
        ConvertError,
    >)
        requires
            old(self).wf(),
            old(parent_directory_writer).wf(),
        ensures
            final(self).block_size == old(self).block_size,
            final(parent_directory_writer).block_size == old(parent_directory_writer).block_size,
            r is Ok ==> final(self).wf() && final(parent_directory_writer).wf(),
            *final(budget) <= *old(budget),
            r matches Err(e) ==> counting_error(e),
            *old(budget) == 0 ==> r == Err::<(), ConvertError>(ConvertError::CorruptedData),
            r is Ok ==> *final(budget) < *old(budget) && final(self).used_inodes > old(self).used_inodes
                && final(self).used_blocks >= old(self).used_blocks,
            old(self).reader.holds(partition@) && old(self).reader.spec_pending().len() > 0 && !(old(
                self,
            ).reader.spec_pending()[0] matches Record::FileTypes(v) && v@.len() == 1) ==> r is Err,
            old(self).reader.holds(partition@) && old(parent_directory_writer).block_size == old(self).block_size
                ==> match file_needs(
                old(self).reader.spec_pending(),
                *old(budget) as nat,
                old(parent_directory_writer).fill(),
                old(self).block_size as int,
            ) {
                Some((k, b, fill, inodes, blocks)) => old(self).used_inodes + inodes <= u64::MAX && old(self).used_blocks
                    + blocks <= u64::MAX ==> {
                    &&& r is Ok
                    &&& final(self).reader.spec_pending() == old(self).reader.spec_pending().skip(k as int)
                    &&& final(self).reader.holds(partition@)
                    &&& *final(budget) == b
                    &&& final(parent_directory_writer).fill() == fill
                    &&& final(self).used_inodes == old(self).used_inodes + inodes
                    &&& final(self).used_blocks == old(self).used_blocks + blocks
                },
                None => true,
            },
        decreases *old(budget),
    {
        if *budget == 0 {
            return Err(ConvertError::CorruptedData);
        }
        let ghost recs = self.reader.spec_pending();
        let ghost bs = self.block_size as int;
        let ghost need = file_needs(recs, *budget as nat, parent_directory_writer.fill(), bs);
        let ghost on = self.reader.holds(partition@) && parent_directory_writer.block_size == self.block_size
            && need is Some && self.used_inodes + (need->0).3 <= u64::MAX && self.used_blocks + (need->0).4 <= u64::MAX;
        proof {
            lemma_needs_bounds(recs, *budget as nat, parent_directory_writer.fill(), bs);
        }
        *budget = *budget - 1;
        let file_types = self.reader.next_file_types(partition)?;
        let dentries = self.reader.next_dentries(partition)?;
        let name = self.reader.next_bytes(partition)?;
        if file_types.len() != 1 || dentries.len() != 1 {
            return Err(ConvertError::CorruptedData);
        }
        proof {
            if on {
                assert(recs.drop_first().drop_first().drop_first() =~= recs.skip(3));
                assert(self.reader.spec_pending() == recs.skip(3));
            }
        }
        match file_types[0] {
            FileType::Directory(child_count) => {
                let ghost recs3 = recs.skip(3);
                let ghost b0 = *budget as nat;
                let ghost total = children_need(recs3, child_count as nat, b0, dot_dirs_fill(), bs);
                proof {
                    if on {
                        lemma_children_needs_bounds(recs3, child_count as nat, b0, dot_dirs_fill(), bs);
                    }
                }
                let mut directory_writer = self.build_directory(name, parent_directory_writer)?;
                let ghost base_inodes = self.used_inodes as int;
                let ghost base_blocks = self.used_blocks as int;
                let ghost parent_after = *parent_directory_writer;
                let ghost mut consumed: int = 0;
                let mut i: u32 = 0;
                while i < child_count
                    invariant
                        self.wf(),
                        directory_writer.wf(),
                        *budget < *old(budget),
                        self.block_size == old(self).block_size,
                        parent_directory_writer.block_size == old(parent_directory_writer).block_size,
                        parent_directory_writer.wf(),
                        self.used_inodes > old(self).used_inodes,
                        self.used_blocks >= old(self).used_blocks,
                        *parent_directory_writer == parent_after,
                        i <= child_count,
                        bs == self.block_size as int,
                        bs == old(self).block_size as int,
                        recs == old(self).reader.spec_pending(),
                        need == file_needs(recs, *old(budget) as nat, old(parent_directory_writer).fill(), bs),
                        on == (old(self).reader.holds(partition@) && old(parent_directory_writer).block_size == old(
                            self,
                        ).block_size && need is Some && old(self).used_inodes + (need->0).3 <= u64::MAX && old(
                            self,
                        ).used_blocks + (need->0).4 <= u64::MAX),
                        on ==> {
                            let c = children_need(
                                self.reader.spec_pending(),
                                (child_count - i) as nat,
                                *budget as nat,
                                directory_writer.fill(),
                                bs,
                            );
                            &&& self.reader.holds(partition@)
                            &&& directory_writer.block_size == self.block_size
                            &&& total is Some
                            &&& c is Some
                            &&& 0 <= consumed <= recs3.len()
                            &&& self.reader.spec_pending() == recs3.skip(consumed)
                            &&& (c->0).0 + consumed == (total->0).0
                            &&& (c->0).1 == (total->0).1
                            &&& (c->0).2 == (total->0).2
                            &&& self.used_inodes + (c->0).3 == base_inodes + (total->0).3
                            &&& self.used_blocks + (c->0).4 == base_blocks + (total->0).4
                            &&& base_inodes + (total->0).3 <= u64::MAX
                            &&& base_blocks + (total->0).4 <= u64::MAX
                        },
                    decreases child_count - i,
                {
                    let ghost pending = self.reader.spec_pending();
                    let ghost m = (child_count - i) as nat;
                    let ghost fill_before = directory_writer.fill();
                    let ghost budget_before = *budget as nat;
                    let ghost k1: nat = (file_needs(pending, budget_before, fill_before, bs)->0).0;
                    proof {
                        if on {
                            lemma_children_need_unfold(pending, m, budget_before, fill_before, bs);
                            let (k, b1, f1, i1, bl1) = file_needs(pending, budget_before, fill_before, bs)->0;
                            lemma_children_needs_bounds(pending.skip(k as int), (m - 1) as nat, b1, f1, bs);
                            assert(file_needs(pending, budget_before, fill_before, bs) is Some);
                            assert(self.used_inodes + i1 <= u64::MAX);
                            assert(self.used_blocks + bl1 <= u64::MAX);
                        }
                    }
                    let r = self.deserialize_file(&mut directory_writer, partition, budget);
                    proof {
                        if on {
                            assert(r is Ok);
                        }
                    }
                    r?;
                    proof {
                        if on {
                            assert(recs3.skip(consumed).skip(k1 as int) =~= recs3.skip(consumed + k1));
                            consumed = consumed + k1;
                        }
                    }
                    i += 1;
                }
                proof {
                    if on {
                        assert(recs3.skip(consumed) =~= recs.skip(3 + consumed));
                    }
                }
            },
            FileType::RegularFile => {
                let data_ranges = self.reader.next_ranges(partition)?;
                proof {
                    if on {
                        assert(recs.skip(3).drop_first() =~= recs.skip(4));
                    }
                }
                self.build_regular_file(name, parent_directory_writer, data_ranges)?;
            },
        }
        Ok(())
    }

    /// Reads the number of files of the root directory, the first record of the archive.
    pub fn read_root_child_count(&mut self, partition: &[u8]) -> (r: Result<u32, ConvertError>)
        requires
            old(self).wf(),
        ensures
            final(self).used_inodes == old(self).used_inodes,
            final(self).used_blocks == old(self).used_blocks,
            final(self).block_size == old(self).block_size,
            r is Ok ==> final(self).wf(),
            r matches Err(e) ==> counting_error(e),
            old(self).reader.holds(partition@) && old(self).reader.spec_pending().len() > 0 ==> match directory_child_count(
                old(self).reader.spec_pending()[0],
            ) {
                Some(c) => r == Ok::<u32, ConvertError>(c) && final(self).reader.holds(partition@)
                    && final(self).reader.spec_pending() == old(self).reader.spec_pending().drop_first(),
                None => r is Err,
            },
    {
        let file_types = self.reader.next_file_types(partition)?;
        if file_types.len() != 1 {
            return Err(ConvertError::CorruptedData);
        }
        match file_types[0] {
            FileType::Directory(child_count) => Ok(child_count),
            FileType::RegularFile => Err(ConvertError::CorruptedData),
        }
    }

    /// Counts the whole archived directory tree of at most `budget` files, then decides whether `free_inodes` and
    /// `free_blocks` suffice.
    pub fn dry_run(reader: Reader, free_inodes: InodeCount, free_blocks: BlockCount, block_size: BlockSize, partition: &[u8], budget: u64) -> (r:
        Result<(), ConvertError>)
        requires
            reader.wf(),
            1024 <= block_size <= 65536,
        ensures
            r matches Err(e) ==> counting_error(e) || (e matches ConvertError::NotEnoughSpace {
                required_blocks,
                available_blocks,
                required_inodes,
                available_inodes,
            } && available_blocks == free_blocks && available_inodes == free_inodes && (required_blocks > free_blocks
                || required_inodes > free_inodes)),
            r is Ok ==> free_inodes >= 1 && free_blocks >= 2,
            reader.holds(partition@) && reader.spec_pending().len() > 0 && directory_child_count(reader.spec_pending()[0])
                is None ==> r is Err,
            reader.holds(partition@) ==> match tree_needs(reader.spec_pending(), budget as nat, block_size as int) {
                Some((inodes, blocks)) => inodes <= u64::MAX && blocks <= u64::MAX ==> {
                    &&& r is Ok <==> inodes <= free_inodes && blocks <= free_blocks
                    &&& r matches Err(e) ==> e == (ConvertError::NotEnoughSpace {
                        required_blocks: blocks as u64,
                        available_blocks: free_blocks,
                        required_inodes: inodes as u64,
                        available_inodes: free_inodes as u64,
                    })
                },
                None => true,
            },
    {
        let ghost recs = reader.spec_pending();
        let ghost bs = block_size as int;
        let ghost needs = tree_needs(recs, budget as nat, bs);
        let ghost on = reader.holds(partition@) && needs is Some && (needs->0).0 <= u64::MAX && (needs->0).1
            <= u64::MAX;
        let mut instance = DryRunDeserializerInternals::new(reader, block_size);
        let mut root_directory_writer = instance.build_root()?;
        let root_child_count = instance.read_root_child_count(partition)?;
        let ghost recs1 = recs.drop_first();
        let ghost total = children_need(recs1, root_child_count as nat, budget as nat, root_fill(bs), bs);
        let ghost base_inodes = instance.used_inodes as int;
        let ghost base_blocks = instance.used_blocks as int;
        let ghost mut consumed: int = 0;
        proof {
            if on {
                lemma_children_needs_bounds(recs1, root_child_count as nat, budget as nat, root_fill(bs), bs);
            }
        }
        let mut left = budget;
        let mut i: u32 = 0;
        while i < root_child_count
            invariant
                instance.wf(),
                root_directory_writer.wf(),
                instance.used_inodes >= 1,
                instance.used_blocks >= 2,
                i <= root_child_count,
                bs == instance.block_size as int,
                recs == reader.spec_pending(),
                bs == block_size as int,
                needs == tree_needs(recs, budget as nat, bs),
                on == (reader.holds(partition@) && needs is Some && (needs->0).0 <= u64::MAX && (needs->0).1
                    <= u64::MAX),
                on ==> {
                    let c = children_need(
                        instance.reader.spec_pending(),
                        (root_child_count - i) as nat,
                        left as nat,
                        root_directory_writer.fill(),
                        bs,
                    );
                    &&& instance.reader.holds(partition@)
                    &&& root_directory_writer.block_size == instance.block_size
                    &&& total is Some
                    &&& c is Some
                    &&& 0 <= consumed <= recs1.len()
                    &&& instance.reader.spec_pending() == recs1.skip(consumed)
                    &&& (c->0).0 + consumed == (total->0).0
                    &&& instance.used_inodes + (c->0).3 == base_inodes + (total->0).3
                    &&& instance.used_blocks + (c->0).4 == base_blocks + (total->0).4
                    &&& base_inodes + (total->0).3 <= u64::MAX
                    &&& base_blocks + (total->0).4 <= u64::MAX
                },
            decreases root_child_count - i,
        {
            let ghost pending = instance.reader.spec_pending();
            let ghost m = (root_child_count - i) as nat;
            let ghost fill_before = root_directory_writer.fill();
            let ghost budget_before = left as nat;
            let ghost k1: nat = (file_needs(pending, budget_before, fill_before, bs)->0).0;
            proof {
                if on {
                    lemma_children_need_unfold(pending, m, budget_before, fill_before, bs);
                    let (k, b1, f1, i1, bl1) = file_needs(pending, budget_before, fill_before, bs)->0;
                    lemma_children_needs_bounds(pending.skip(k as int), (m - 1) as nat, b1, f1, bs);
                }
            }
            let r = instance.deserialize_file(&mut root_directory_writer, partition, &mut left);
            proof {
                if on {
                    assert(r is Ok);
                }
            }
            r?;
            proof {
                if on {
                    assert(recs1.skip(consumed).skip(k1 as int) =~= recs1.skip(consumed + k1));
                    consumed = consumed + k1;
                }
            }
            i += 1;
        }
        instance.result(free_inodes, free_blocks)
    }
}

} // verus!
