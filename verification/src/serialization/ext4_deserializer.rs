use vstd::prelude::*;
use std::ops::Range;
use crate::allocator::{AllocatedClusterIdx, Allocator};
use crate::bytes::{read_u16, write_bytes};
use crate::error::ConvertError;
use crate::ext4::dentry::{
    lemma_dentry_len_bound, spec_aligned_length, Ext4Dentry, ALIGNMENT, DENTRY_HEADER_LEN, EXT4_NAME_MAX_LEN,
};
use crate::ext4::extent::{spec_from_ranges, Extent, ExtentView, EXTENT_ELEMENT_SIZE};
use crate::ext4::fs::{
    changes_only_new_or_metadata, in_metadata, inode_writable, lemma_changes_only_new_or_metadata_refl,
    lemma_changes_only_new_or_metadata_trans, lemma_cluster_change_is_new, group_fits, Ext4Fs,
};
use crate::ext4::inode::{keeps_metadata, Inode, InodeInner, INODE_FLAG_EXTENTS, MODE_DIRECTORY, MODE_REGULAR_FILE};
use crate::ext4::superblock::{SuperBlock, INODE_SIZE};
use crate::ext4::{BlockIdx, FIRST_EXISTING_INODE, FIRST_NON_RESERVED_INODE};
use crate::ranges::ClusterIdx;
use crate::serialization::dentry::DentryRepresentation;
use crate::serialization::dry_run_deserializer::{counting_error, tree_needs, DryRunDeserializerInternals};
use crate::serialization::file_records::{
    children_span, file_span, lemma_children_span_unfold, lemma_file_span_bounds, lemma_file_span_unfold,
    lemma_children_span_bounds, lemma_reads_files, lemma_reads_one_file, lemma_reads_tree, reads_files, reads_one_file,
    reads_tree,
};
use crate::serialization::stream_archiver::{directory_child_count, Reader, Record};
use crate::serialization::{DirectoryWriter, FileType};

verus! {

/// `a` allocates from the same clusters as `b`, in a filesystem with the same superblock.
pub open spec fn same_frame(a: Ext4TreeDeserializerInternals, b: Ext4TreeDeserializerInternals) -> bool {
    &&& a.allocator.spec_valid() == b.allocator.spec_valid()
    &&& a.allocator.spec_cluster_size() == b.allocator.spec_cluster_size()
    &&& a.ext_fs.superblock == b.ext_fs.superblock
}

/// Cluster ranges as ranges of the blocks of the same indices.
pub open spec fn as_block_ranges(ranges: Seq<Range<ClusterIdx>>) -> Seq<Range<BlockIdx>> {
    ranges.map_values(|r: Range<ClusterIdx>| (r.start as u64)..(r.end as u64))
}

/// `inode` is the inode of a file described by `dentry`: its type, times and link count come from the dentry.
pub open spec fn inode_of_dentry(inode: Inode, dentry: DentryRepresentation) -> bool {
    &&& inode.inner.i_mode == (if dentry.is_dir { MODE_DIRECTORY } else { MODE_REGULAR_FILE })
    &&& inode.inner.i_flags == INODE_FLAG_EXTENTS
    &&& inode.inner.i_links_count == 1
    &&& inode.inner.i_atime == dentry.access_time
    &&& inode.inner.i_ctime == dentry.create_time
    &&& inode.inner.i_crtime == dentry.create_time
    &&& inode.inner.i_mtime == dentry.mod_time
}

/// Writes the entries of one directory into its blocks, allocating a new block whenever an entry does not fit into
/// the current one.
pub struct DentryWriter {
    inode: Inode,
    block_size: usize,
    /// Invariant: `position_in_block <= block_size`
    position_in_block: usize,
    block: AllocatedClusterIdx,
    /// The content of the current block, written to the partition when the next block is started.
    block_bytes: Vec<u8>,
    /// The position of the last entry in the current block, which is extended to the block end when the block is
    /// done.
    previous_dentry: Option<usize>,
    block_count: u64,
    link_count_from_subdirs: u64,
}

impl DirectoryWriter for DentryWriter {
}

impl DentryWriter {
    pub closed spec fn spec_inode(&self) -> Inode {
        self.inode
    }

    pub closed spec fn spec_position(&self) -> usize {
        self.position_in_block
    }

    pub closed spec fn spec_block_size(&self) -> usize {
        self.block_size
    }

    pub closed spec fn spec_link_count_from_subdirs(&self) -> u64 {
        self.link_count_from_subdirs
    }

    /// The content of the current block, which has yet to be written.
    pub closed spec fn spec_block_bytes(&self) -> Seq<u8> {
        self.block_bytes@
    }

    /// The position of the last entry of the current block, if it has one.
    pub closed spec fn spec_previous(&self) -> Option<usize> {
        self.previous_dentry
    }

    /// The number of blocks of the directory.
    pub closed spec fn spec_block_count(&self) -> u64 {
        self.block_count
    }

    /// The cluster of the current block.
    pub closed spec fn spec_block(&self) -> int {
        self.block.spec_idx() as int
    }

    /// The current block as it is written when it is done: its last entry extended up to the block's end.
    pub closed spec fn spec_padded_block(&self) -> Seq<u8> {
        padded_block(self.block_bytes@, self.previous_dentry, self.position_in_block as int, self.block_size as int)
    }

    pub closed spec fn wf(&self, ext_fs: &Ext4Fs) -> bool {
        &&& self.inner_wf()
        &&& self.spec_block_size() == ext_fs.superblock.spec_block_size()
        &&& self.inode.extent_tree.entries_per_block == ext_fs.superblock.spec_block_size() / (EXTENT_ELEMENT_SIZE as int)
        &&& self.inode.extent_tree.wf()
    }

    pub closed spec fn inner_wf(&self) -> bool {
        &&& 1024 <= self.block_size <= 65536
        &&& self.inode.inner.spec_size() == self.block_count * self.block_size
        &&& self.block_bytes@.len() == self.block_size
        &&& self.position_in_block <= self.block_size
        &&& self.previous_dentry matches Some(p) ==> p + 8 <= self.position_in_block
    }

    /// A writer for the directory of `inode`, with its first block allocated and registered.
    pub fn new(inode: Inode, allocator: &mut Allocator, ext_fs: &mut Ext4Fs) -> (r: Result<Self, ConvertError>)
        requires
            old(ext_fs).wf(),
            old(allocator).wf(),
            inode.extent_tree.wf(),
            inode.extent_tree.entries_per_block == old(ext_fs).superblock.spec_block_size() / (EXTENT_ELEMENT_SIZE as int),
            inode.inner.spec_size() == 0,
        ensures
            r matches Err(e) ==> (e == ConvertError::NoFreeClusters ==> final(allocator).exhausted()),
            final(ext_fs).wf(),
            final(ext_fs).superblock == old(ext_fs).superblock,
            final(ext_fs).last_allocated_inode_no == old(ext_fs).last_allocated_inode_no,
            final(allocator).wf(),
            final(allocator).spec_valid() == old(allocator).spec_valid(),
            final(allocator).spec_cluster_size() == old(allocator).spec_cluster_size(),
            r matches Ok(w) ==> w.wf(&*final(ext_fs)) && w.spec_position() == 0 && w.spec_inode().inode_no == inode.inode_no
                && w.spec_link_count_from_subdirs() == 0 && w.spec_inode().byte_offset == inode.byte_offset,
            r matches Ok(w) ==> keeps_metadata(w.spec_inode().inner, inode.inner) && w.spec_previous() is None
                && w.spec_block_bytes() == Seq::new(w.spec_block_size() as nat, |i: int| 0u8),
            r matches Ok(w) ==> w.spec_block_count() == 1 && w.spec_inode().extent_tree.spec_extents()
                == inode.extent_tree.spec_extents().push((0int, w.spec_block(), 1int)),
            (exists|z: int|
                old(allocator).spec_cursor() <= z < old(allocator).spec_valid().end && !#[trigger] old(
                    allocator,
                ).spec_used().covers(z)) && (forall|z: int|
                old(allocator).spec_cursor() <= z < old(allocator).spec_valid().end && !#[trigger] old(
                    allocator,
                ).spec_used().covers(z) ==> old(ext_fs).range_markable(
                    inode.inner.spec_blocks(),
                    (z as u64)..((z + 1) as u64),
                )) && inode.extent_tree.root.header.depth == 0 && inode.extent_tree.root.header.valid_entry_count
                < inode.extent_tree.root.header.max_entry_count ==> r is Ok,
    {
        let mut inode = inode;
        let ghost a0 = *allocator;
        let block = allocator.allocate_one()?;
        let block_idx = block.as_block_idx();
        let extent = Extent::new(block_idx..block_idx + 1, 0);
        proof {
            assert(!a0.spec_used().covers(block.spec_idx() as int));
            assert(extent.spec_end() == block_idx + 1);
        }
        ext_fs.register_extent(&mut inode, extent, allocator)?;
        proof {
            ext_fs.superblock.lemma_block_size();
        }
        let block_size = ext_fs.superblock.block_size() as usize;
        if inode.inner.i_size_high != 0 || inode.inner.i_size_lo != 0 {
            return Err(ConvertError::CorruptedData);
        }
        inode.increment_size(block_size as u64);
        proof {
            assert(inode.inner.spec_size() == 1 * block_size);
        }
        let block_bytes = zeroed_block(block_size);
        Ok(DentryWriter {
            inode,
            block_size,
            position_in_block: 0,
            block,
            block_bytes,
            previous_dentry: None,
            block_count: 1,
            link_count_from_subdirs: 0,
        })
    }

    /// A directory is as large as its blocks: the size that the inode of a directory being written records is the
    /// number of blocks the writer has started times the block size, so every block of entries is within the size
    /// that readers of the directory go by.
    pub proof fn law_directory_size_is_its_blocks(&self, ext_fs: &Ext4Fs)
        requires
            self.wf(ext_fs),
        ensures
            self.spec_inode().inner.spec_size() == self.spec_block_count() * self.spec_block_size(),
    {
    }

    /// The space left in the current block.
    fn remaining_space(&self) -> (r: usize)
        requires
            self.inner_wf(),
        ensures
            r == self.spec_block_size() - self.spec_position(),
    {
        self.block_size - self.position_in_block
    }

    /// Writes `dentry` after the entries in the current block, in a new block if it does not fit.
    pub fn add_dentry(&mut self, dentry: Ext4Dentry, ext_fs: &mut Ext4Fs, allocator: &mut Allocator, partition: &mut Vec<u8>) -> (r:
        Result<(), ConvertError>)
        requires
            old(self).wf(&*old(ext_fs)),
            old(ext_fs).wf(),
            old(allocator).wf(),
            dentry.wf(),
        ensures
            r matches Err(e) ==> (e == ConvertError::NoFreeClusters ==> final(allocator).exhausted()),
            final(ext_fs).wf(),
            final(ext_fs).superblock == old(ext_fs).superblock,
            final(ext_fs).last_allocated_inode_no == old(ext_fs).last_allocated_inode_no,
            final(allocator).wf(),
            final(allocator).spec_valid() == old(allocator).spec_valid(),
            final(allocator).spec_cluster_size() == old(allocator).spec_cluster_size(),
            final(self).spec_inode().inode_no == old(self).spec_inode().inode_no,
            final(self).spec_inode().byte_offset == old(self).spec_inode().byte_offset,
            changes_only_new_or_metadata(
                old(partition)@,
                final(partition)@,
                old(allocator).spec_valid().start as int,
                old(allocator).spec_cluster_size() as int,
                old(ext_fs).superblock,
            ),
            final(self).spec_link_count_from_subdirs() == old(self).spec_link_count_from_subdirs(),
            final(partition)@.len() == old(partition)@.len(),
            r is Ok ==> final(self).wf(&*final(ext_fs)),
            keeps_metadata(final(self).spec_inode().inner, old(self).spec_inode().inner),
            r is Ok ==> (final(self).spec_previous() matches Some(p) && final(self).spec_position() == p
                + dentry.inner.dentry_len),
            r is Ok ==> final(self).spec_block_size() == old(self).spec_block_size(),
            r is Ok && dentry.inner.dentry_len <= old(self).spec_block_size() - old(self).spec_position()
                ==> final(self).spec_block_count() == old(self).spec_block_count()
                && final(self).spec_inode().extent_tree.spec_extents() == old(self).spec_inode().extent_tree.spec_extents(),
            r is Ok && dentry.inner.dentry_len > old(self).spec_block_size() - old(self).spec_position()
                ==> final(self).spec_block_count() == old(self).spec_block_count() + 1,
            r is Ok && dentry.inner.dentry_len <= old(self).spec_block_size() - old(self).spec_position() ==> {
                &&& final(self).spec_block_bytes() == crate::bytes::spliced(
                    old(self).spec_block_bytes(),
                    old(self).spec_position() as int,
                    dentry.spec_bytes(),
                )
                &&& final(self).spec_previous() == Some(old(self).spec_position())
                &&& final(self).spec_block() == old(self).spec_block()
                &&& final(partition)@ == old(partition)@
            },
            r is Ok && dentry.inner.dentry_len > old(self).spec_block_size() - old(self).spec_position() ==> {
                &&& final(self).spec_block_bytes() == crate::bytes::spliced(
                    Seq::new(old(self).spec_block_size() as nat, |i: int| 0u8),
                    0,
                    dentry.spec_bytes(),
                )
                &&& final(self).spec_previous() == Some(0usize)
                &&& final(partition)@ == crate::bytes::spliced(
                    old(partition)@,
                    old(allocator).spec_cluster_size() * old(self).spec_block(),
                    old(self).spec_padded_block(),
                )
            },
            dentry.inner.dentry_len <= old(self).spec_block_size() - old(self).spec_position() ==> r is Ok,
    {
        proof {
            lemma_dentry_len_bound(dentry);
        }
        if dentry.dentry_len() as usize > self.remaining_space() {
            self.allocate_block(ext_fs, allocator, partition)?;
        }
        let bytes = dentry.to_bytes();
        let pos = self.position_in_block;
        write_bytes(&mut self.block_bytes, pos, bytes.as_slice());
        self.previous_dentry = Some(pos);
        self.position_in_block = pos + bytes.len();
        Ok(())
    }

    /// Counts the `..` entry of a subdirectory, which links this directory.
    pub fn increment_link_count(&mut self)
        ensures
            final(self).spec_link_count_from_subdirs() == old(self).spec_link_count_from_subdirs() + 1
                || old(self).spec_link_count_from_subdirs() == u64::MAX,
            final(self).spec_inode() == old(self).spec_inode(),
            final(self).spec_position() == old(self).spec_position(),
            final(self).inner_wf() == old(self).inner_wf(),
            final(self).spec_block_size() == old(self).spec_block_size(),
            final(self).spec_previous() == old(self).spec_previous(),
    {
        if self.link_count_from_subdirs < u64::MAX {
            self.link_count_from_subdirs = self.link_count_from_subdirs + 1;
        }
    }

    /// Extends the last entry of the current block up to the block's end, as ext4 requires.
    fn pad_previous_dentry(&mut self)
        requires
            old(self).inner_wf(),
        ensures
            final(self).inner_wf(),
            final(self).spec_inode() == old(self).spec_inode(),
            final(self).spec_position() == old(self).spec_position(),
            final(self).spec_block_size() == old(self).spec_block_size(),
            final(self).spec_link_count_from_subdirs() == old(self).spec_link_count_from_subdirs(),
            final(self).spec_block_bytes() == old(self).spec_padded_block(),
            final(self).spec_block() == old(self).spec_block(),
            final(self).spec_previous() == old(self).spec_previous(),
            final(self).spec_block_count() == old(self).spec_block_count(),
    {
        match self.previous_dentry {
            Some(p) => {
                let remaining_space = self.block_size - self.position_in_block;
                let len = read_u16(self.block_bytes.as_slice(), p + 4);
                if (len as usize) + remaining_space <= u16::MAX as usize {
                    let new_len = len + remaining_space as u16;
                    let mut b: Vec<u8> = Vec::new();
                    crate::bytes::push_u16(&mut b, new_len);
                    proof {
                        assert(b@ =~= crate::bytes::u16_bytes(new_len));
                    }
                    write_bytes(&mut self.block_bytes, p + 4, b.as_slice());
                }
            },
            None => {},
        }
    }

    /// Writes the current block to the partition and starts a new, empty one, registered as the next block of the
    /// directory.
    fn allocate_block(&mut self, ext_fs: &mut Ext4Fs, allocator: &mut Allocator, partition: &mut Vec<u8>) -> (r: Result<
        (),
        ConvertError,
    >)
        requires
            old(self).wf(&*old(ext_fs)),
            old(ext_fs).wf(),
            old(allocator).wf(),
        ensures
            r matches Err(e) ==> (e == ConvertError::NoFreeClusters ==> final(allocator).exhausted()),
            final(ext_fs).wf(),
            final(ext_fs).superblock == old(ext_fs).superblock,
            final(ext_fs).last_allocated_inode_no == old(ext_fs).last_allocated_inode_no,
            final(allocator).wf(),
            final(allocator).spec_valid() == old(allocator).spec_valid(),
            final(allocator).spec_cluster_size() == old(allocator).spec_cluster_size(),
            final(self).spec_inode().inode_no == old(self).spec_inode().inode_no,
            final(self).spec_inode().byte_offset == old(self).spec_inode().byte_offset,
            changes_only_new_or_metadata(
                old(partition)@,
                final(partition)@,
                old(allocator).spec_valid().start as int,
                old(allocator).spec_cluster_size() as int,
                old(ext_fs).superblock,
            ),
            final(self).spec_link_count_from_subdirs() == old(self).spec_link_count_from_subdirs(),
            final(partition)@.len() == old(partition)@.len(),
            r is Ok ==> final(self).wf(&*final(ext_fs)) && final(self).spec_position() == 0,
            keeps_metadata(final(self).spec_inode().inner, old(self).spec_inode().inner),
            r is Ok ==> final(self).spec_block_count() == old(self).spec_block_count() + 1
                && final(self).spec_inode().extent_tree.spec_extents() == old(self).spec_inode().extent_tree.spec_extents().push(
                (old(self).spec_block_count() as int, final(self).spec_block(), 1int),
            ) && final(self).spec_block_size() == old(self).spec_block_size(),
            r is Ok ==> {
                &&& final(self).spec_block_bytes() == Seq::new(old(self).spec_block_size() as nat, |i: int| 0u8)
                &&& final(self).spec_previous() is None
                &&& final(partition)@ == crate::bytes::spliced(
                    old(partition)@,
                    old(allocator).spec_cluster_size() * old(self).spec_block(),
                    old(self).spec_padded_block(),
                )
            },
            ({
                let inode = old(self).spec_inode();
                &&& old(allocator).can_access(old(self).spec_block() as u32, old(partition)@.len() as int)
                &&& old(self).spec_block_size() <= old(allocator).spec_cluster_size()
                &&& exists|z: int|
                    old(allocator).spec_cursor() <= z < old(allocator).spec_valid().end && !#[trigger] old(
                        allocator,
                    ).spec_used().covers(z)
                &&& forall|z: int|
                    old(allocator).spec_cursor() <= z < old(allocator).spec_valid().end && !#[trigger] old(
                        allocator,
                    ).spec_used().covers(z) ==> old(ext_fs).range_markable(
                        inode.inner.spec_blocks(),
                        (z as u64)..((z + 1) as u64),
                    )
                &&& inode.extent_tree.root.header.depth == 0
                &&& inode.extent_tree.root.header.valid_entry_count < inode.extent_tree.root.header.max_entry_count
                &&& old(self).spec_block_count() < u32::MAX
                &&& inode.inner.spec_size() + old(self).spec_block_size() <= u64::MAX
            }) ==> r is Ok,
    {
        self.pad_previous_dentry();
        let ghost p0 = partition@;
        allocator.write_in_cluster(partition, &self.block, 0, self.block_bytes.as_slice())?;
        proof {
            lemma_cluster_change_is_new(
                p0,
                partition@,
                self.block.spec_idx() as int,
                allocator.spec_cluster_size() as int,
                allocator.spec_valid().start as int,
                ext_fs.superblock,
            );
        }
        let ghost a0 = *allocator;
        self.block = allocator.allocate_one()?;
        self.position_in_block = 0;
        self.previous_dentry = None;
        if self.block_count >= u32::MAX as u64 {
            return Err(ConvertError::DirectoryTooLarge);
        }
        self.block_count = self.block_count + 1;
        let block_idx = self.block.as_block_idx();
        let extent = Extent::new(block_idx..block_idx + 1, (self.block_count - 1) as u32);
        proof {
            assert(!a0.spec_used().covers(self.block.spec_idx() as int));
            assert(extent.spec_end() == block_idx + 1);
        }
        ext_fs.register_extent(&mut self.inode, extent, allocator)?;
        let size = join_size(&self.inode);
        if size > u64::MAX - self.block_size as u64 {
            return Err(ConvertError::DirectoryTooLarge);
        }
        let ghost count = self.block_count;
        self.inode.increment_size(self.block_size as u64);
        proof {
            assert(self.inode.inner.spec_size() == count * self.block_size) by (nonlinear_arith)
                requires
                    self.inode.inner.spec_size() == (count - 1) * self.block_size + self.block_size,
            ;
        }
        self.block_bytes = zeroed_block(self.block_size);
        Ok(())
    }

    /// Completes the directory: extends its last entry, writes its last block, sets its link count and writes its
    /// inode.
    pub fn finish(self, ext_fs: &mut Ext4Fs, allocator: &Allocator, partition: &mut Vec<u8>) -> (r: Result<(), ConvertError>)
        requires
            self.wf(&*old(ext_fs)),
            old(ext_fs).wf(),
        ensures
            r matches Err(e) ==> e == ConvertError::InconsistentFileSystem || e == ConvertError::DirectoryTooLarge || e == ConvertError::CorruptedData,
            *final(ext_fs) == *old(ext_fs),
            final(partition)@.len() == old(partition)@.len(),
            in_metadata(old(ext_fs).superblock, self.spec_inode().byte_offset as int, INODE_SIZE as int)
                ==> changes_only_new_or_metadata(
                old(partition)@,
                final(partition)@,
                allocator.spec_valid().start as int,
                allocator.spec_cluster_size() as int,
                old(ext_fs).superblock,
            ),
            r is Ok ==> {
                let inode = Inode {
                    inner: InodeInner {
                        i_links_count: (self.spec_inode().inner.i_links_count + self.spec_link_count_from_subdirs()) as u16,
                        ..self.spec_inode().inner
                    },
                    ..self.spec_inode()
                };
                &&& self.spec_inode().inner.i_links_count + self.spec_link_count_from_subdirs() <= u16::MAX
                &&& inode.byte_offset + inode.spec_bytes().len() <= final(partition)@.len()
                &&& final(partition)@.subrange(inode.byte_offset as int, inode.byte_offset + inode.spec_bytes().len())
                    == inode.spec_bytes()
            },
            ({
                let inode = self.spec_inode();
                &&& allocator.can_access(self.spec_block() as u32, old(partition)@.len() as int)
                &&& self.spec_block_size() <= allocator.spec_cluster_size()
                &&& inode.inner.i_links_count + self.spec_link_count_from_subdirs() <= u16::MAX
                &&& inode_writable(inode, old(ext_fs).superblock.spec_block_size(), *allocator, old(partition)@.len() as int)
            }) ==> r is Ok,
    {
        let mut writer = self;
        writer.pad_previous_dentry();
        let ghost p0 = partition@;
        allocator.write_in_cluster(partition, &writer.block, 0, writer.block_bytes.as_slice())?;
        proof {
            lemma_cluster_change_is_new(
                p0,
                partition@,
                writer.block.spec_idx() as int,
                allocator.spec_cluster_size() as int,
                allocator.spec_valid().start as int,
                ext_fs.superblock,
            );
        }
        let ghost p1 = partition@;
        writer.inode.add_link_count_from_subdirs(writer.link_count_from_subdirs)?;
        ext_fs.write_inode(&writer.inode, allocator, partition)?;
        proof {
            if in_metadata(ext_fs.superblock, self.spec_inode().byte_offset as int, INODE_SIZE as int) {
                lemma_changes_only_new_or_metadata_trans(
                    p0,
                    p1,
                    partition@,
                    allocator.spec_valid().start as int,
                    allocator.spec_cluster_size() as int,
                    ext_fs.superblock,
                );
            }
        }
        Ok(())
    }
}

/// `bytes`, a block filled up to `position`, with the length of its last entry, at `previous`, extended up to the
/// block's end if the length still fits into its field.
pub open spec fn padded_block(bytes: Seq<u8>, previous: Option<usize>, position: int, block_size: int) -> Seq<u8> {
    match previous {
        Some(p) => {
            let len = crate::bytes::le_u16(bytes, p + 4);
            if len + (block_size - position) <= u16::MAX {
                crate::bytes::spliced(bytes, p + 4, crate::bytes::u16_bytes((len + (block_size - position)) as u16))
            } else {
                bytes
            }
        },
        None => bytes,
    }
}

/// The file size of `inode` in bytes.
fn join_size(inode: &Inode) -> (r: u64)
    ensures
        r == inode.inner.spec_size(),
{
    crate::lohi::join_u32_u32(inode.inner.i_size_lo, inode.inner.i_size_high)
}

/// A block of zeros.
fn zeroed_block(block_size: usize) -> (r: Vec<u8>)
    ensures
        r@ == Seq::new(block_size as nat, |i: int| 0u8),
{
    let mut v: Vec<u8> = Vec::new();
    crate::bytes::push_zeros(&mut v, block_size);
    assert(v@ =~= Seq::new(block_size as nat, |i: int| 0u8));
    v
}

/// The name of the lost+found directory.
fn lost_found_name() -> (r: Vec<u8>)
    ensures
        r@.len() == 10,
{
    let mut name: Vec<u8> = Vec::new();
    name.push(108u8);
    name.push(111u8);
    name.push(115u8);
    name.push(116u8);
    name.push(43u8);
    name.push(102u8);
    name.push(111u8);
    name.push(117u8);
    name.push(110u8);
    name.push(100u8);
    name
}

/// The name of a `.` entry, or of a `..` entry if `parent`.
fn dot_name(parent: bool) -> (r: Vec<u8>)
    ensures
        r@.len() == if parent { 2int } else { 1int },
{
    let mut name: Vec<u8> = Vec::new();
    name.push(46u8);
    if parent {
        name.push(46u8);
    }
    name
}

/// Builds the ext4 directory tree from the archived FAT directory tree.
pub struct Ext4TreeDeserializerInternals {
    pub reader: Reader,
    pub allocator: Allocator,
    pub ext_fs: Ext4Fs,
}

impl Ext4TreeDeserializerInternals {
    pub open spec fn wf(&self) -> bool {
        &&& self.reader.wf()
        &&& self.allocator.wf()
        &&& self.ext_fs.wf()
    }

    /// What the deserializer writes leaves the pages that its reader may still read as they are: it allocates
    /// clusters, of the reader's page size, after the reader's, and the reader's pages avoid the metadata blocks of
    /// the filesystem, whose blocks are clusters.
    pub open spec fn reads_safely(&self) -> bool {
        &&& self.reader.spec_page_size() == self.allocator.spec_cluster_size()
        &&& self.allocator.spec_cluster_size() == self.ext_fs.superblock.spec_block_size()
        &&& self.reader.spec_clusters().spec_valid().end <= self.allocator.spec_valid().start
        &&& forall|x: int| #[trigger] self.ext_fs.superblock.is_overhead_block(x) ==> self.reader.spec_avoid().covers(x)
    }

    /// Writing only clusters that the allocator can hand out and metadata blocks keeps the reader intact.
    pub proof fn lemma_reader_survives(&self, p: Seq<u8>, q: Seq<u8>)
        requires
            self.reads_safely(),
            self.reader.intact(p),
            self.changes_only_own(p, q),
        ensures
            self.reader.intact(q),
    {
        if self.reader.spec_pending().len() > 0 {
            let ps = self.reader.spec_page_size() as int;
            assert forall|b: int| 0 <= b < p.len() && #[trigger] q[b] != p[b] implies !self.reader.may_read(b / ps) by {
                if !(b / ps >= self.allocator.spec_valid().start) {
                    assert(self.ext_fs.superblock.is_overhead_block(b / ps));
                }
            }
            self.reader.lemma_holds_frame(p, q);
        }
    }

    /// Between `before` and `after`, only clusters that the allocator can hand out, and metadata blocks of the
    /// filesystem, changed.
    pub open spec fn changes_only_own(&self, before: Seq<u8>, after: Seq<u8>) -> bool {
        changes_only_new_or_metadata(
            before,
            after,
            self.allocator.spec_valid().start as int,
            self.allocator.spec_cluster_size() as int,
            self.ext_fs.superblock,
        )
    }

    pub fn new(reader: Reader, allocator: Allocator, ext_fs: Ext4Fs) -> (r: Self)
        ensures
            r.reader == reader,
            r.allocator == allocator,
            r.ext_fs == ext_fs,
    {
        Ext4TreeDeserializerInternals { reader, allocator, ext_fs }
    }

    /// Runs the conversion of the archive of `file_count` files without writing anything first; builds the
    /// deserializer for the filesystem that `superblock` describes only if the free inodes and blocks suffice.
    pub fn new_with_dry_run(reader: Reader, allocator: Allocator, superblock: SuperBlock, partition: &mut Vec<u8>, file_count: u64) -> (r:
        Result<Self, ConvertError>)
        requires
            reader.wf(),
            allocator.wf(),
            superblock.wf(),
        ensures
            r matches Ok(d) ==> d.wf() && d.ext_fs.last_allocated_inode_no == crate::ext4::FIRST_NON_RESERVED_INODE - 1,
            r matches Ok(d) ==> d.reader == reader && d.allocator == allocator && d.ext_fs.superblock == superblock,
            r is Err ==> final(partition)@ == old(partition)@,
            final(partition)@.len() == old(partition)@.len(),
            reader.holds(old(partition)@) && reader.spec_page_size() == superblock.spec_block_size() && (forall|x: int|
                #[trigger] superblock.is_overhead_block(x) ==> reader.spec_avoid().covers(x)) ==> (r matches Ok(d)
                ==> d.reader.holds(final(partition)@)),
            r matches Err(e) ==> e == ConvertError::TooFewInodes || counting_error(e) || e is NotEnoughSpace || e
                == ConvertError::InconsistentFileSystem || e == ConvertError::FilesystemTooLarge,
            superblock.s_inodes_count < FIRST_NON_RESERVED_INODE - FIRST_EXISTING_INODE ==> r == Err::<Self, ConvertError>(
                ConvertError::TooFewInodes,
            ),
            superblock.s_inodes_count >= FIRST_NON_RESERVED_INODE - FIRST_EXISTING_INODE && reader.holds(old(partition)@)
                ==> match tree_needs(reader.spec_pending(), file_count as nat, superblock.spec_block_size()) {
                Some((inodes, blocks)) => inodes <= u64::MAX && blocks <= u64::MAX ==> {
                    let free_inodes = superblock.s_inodes_count - (FIRST_NON_RESERVED_INODE - FIRST_EXISTING_INODE);
                    &&& r matches Err(e) ==> !counting_error(e) && (e is NotEnoughSpace ==> e == (
                    ConvertError::NotEnoughSpace {
                        required_blocks: blocks as u64,
                        available_blocks: allocator.free_clusters() as u64,
                        required_inodes: inodes as u64,
                        available_inodes: free_inodes as u64,
                    }))
                    &&& (inodes > free_inodes || blocks > allocator.free_clusters()) ==> r == Err::<Self, ConvertError>(
                        ConvertError::NotEnoughSpace {
                            required_blocks: blocks as u64,
                            available_blocks: allocator.free_clusters() as u64,
                            required_inodes: inodes as u64,
                            available_inodes: free_inodes as u64,
                        },
                    )
                    &&& (inodes <= free_inodes && blocks <= allocator.free_clusters() && superblock.s_inode_size
                        == INODE_SIZE && superblock.s_inodes_per_group > 0 && (forall|g: int|
                        0 <= g < superblock.spec_block_group_count() ==> #[trigger] group_fits(
                            superblock,
                            g,
                            old(partition)@.len() as int,
                        ))) ==> r is Ok
                },
                None => true,
            },
    {
        if superblock.s_inodes_count < crate::ext4::FIRST_NON_RESERVED_INODE - crate::ext4::FIRST_EXISTING_INODE {
            return Err(ConvertError::TooFewInodes);
        }
        let free_inodes = superblock.free_inode_count();
        let free_blocks = allocator.free_block_count() as u64;
        proof {
            superblock.lemma_block_size();
        }
        DryRunDeserializerInternals::dry_run(
            reader.duplicate(),
            free_inodes,
            free_blocks,
            superblock.block_size(),
            partition.as_slice(),
            file_count,
        )?;
        let ghost before = partition@;
        let ext_fs = Ext4Fs::new(superblock, partition)?;
        proof {
            if reader.holds(before) && reader.spec_page_size() == superblock.spec_block_size() && (forall|x: int|
                #[trigger] superblock.is_overhead_block(x) ==> reader.spec_avoid().covers(x)) {
                // only the inode tables were written, and they lie in metadata blocks, which no page is in
                assert forall|b: int| 0 <= b < before.len() && #[trigger] partition@[b] != before[b] implies !reader.may_read(
                    b / (reader.spec_page_size() as int),
                ) by {
                    assert(superblock.is_overhead_block(b / superblock.spec_block_size()));
                }
                reader.lemma_holds_frame(before, partition@);
            }
        }
        Ok(Self::new(reader, allocator, ext_fs))
    }

    /// Builds the root directory with its `.` and `..` entries and lost+found.
    pub fn build_root(&mut self, partition: &mut Vec<u8>) -> (r: Result<DentryWriter, ConvertError>)
        requires
            old(self).wf(),
            old(self).ext_fs.last_allocated_inode_no == crate::ext4::FIRST_NON_RESERVED_INODE - 1,
        ensures
            r matches Err(e) ==> (e == ConvertError::NoFreeClusters ==> final(self).allocator.exhausted()),
            final(self).reader == old(self).reader,
            final(self).ext_fs.superblock == old(self).ext_fs.superblock,
            final(partition)@.len() == old(partition)@.len(),
            r matches Ok(w) ==> final(self).wf() && w.wf(&final(self).ext_fs),
            same_frame(*final(self), *old(self)),
            old(self).changes_only_own(old(partition)@, final(partition)@),
            r matches Ok(w) ==> in_metadata(final(self).ext_fs.superblock, w.spec_inode().byte_offset as int, INODE_SIZE as int),
    {
        let root_inode = self.ext_fs.build_root_inode()?;
        let mut dentry_writer = DentryWriter::new(root_inode, &mut self.allocator, &mut self.ext_fs)?;
        self.build_root_dot_dirs(&mut dentry_writer, partition)?;
        let ghost p1 = partition@;
        let r = self.build_lost_found(&mut dentry_writer, partition);
        proof {
            lemma_changes_only_new_or_metadata_trans(
                old(partition)@,
                p1,
                partition@,
                self.allocator.spec_valid().start as int,
                self.allocator.spec_cluster_size() as int,
                self.ext_fs.superblock,
            );
        }
        r?;
        Ok(dentry_writer)
    }

    /// Builds the directory `name` described by `dentry` as an entry of the directory of `parent_dentry_writer`.
    pub fn deserialize_directory(&mut self, dentry: DentryRepresentation, name: Vec<u8>, parent_dentry_writer: &mut DentryWriter, partition: &mut Vec<u8>) -> (r:
        Result<DentryWriter, ConvertError>)
        requires
            old(self).wf(),
            old(parent_dentry_writer).wf(&old(self).ext_fs),
        ensures
            r matches Err(e) ==> (e == ConvertError::NoFreeClusters ==> final(self).allocator.exhausted()),
            final(self).reader == old(self).reader,
            final(self).ext_fs.superblock == old(self).ext_fs.superblock,
            final(partition)@.len() == old(partition)@.len(),
            r is Ok ==> final(self).wf() && final(parent_dentry_writer).wf(&final(self).ext_fs),
            r matches Ok(w) ==> w.wf(&final(self).ext_fs),
            r matches Ok(w) ==> w.spec_inode().inode_no == old(self).ext_fs.last_allocated_inode_no + 1 && inode_of_dentry(
                w.spec_inode(),
                dentry,
            ),
            same_frame(*final(self), *old(self)),
            old(self).changes_only_own(old(partition)@, final(partition)@),
            final(parent_dentry_writer).spec_inode().byte_offset == old(parent_dentry_writer).spec_inode().byte_offset,
            r matches Ok(w) ==> in_metadata(final(self).ext_fs.superblock, w.spec_inode().byte_offset as int, INODE_SIZE as int),
            r is Ok ==> final(self).ext_fs.last_allocated_inode_no == old(self).ext_fs.last_allocated_inode_no + 1,
    {
        let inode = self.build_file(dentry, name, parent_dentry_writer, partition)?;
        let mut dentry_writer = DentryWriter::new(inode, &mut self.allocator, &mut self.ext_fs)?;
        let ghost p1 = partition@;
        let r = self.build_dot_dirs(&mut dentry_writer, parent_dentry_writer, partition);
        proof {
            lemma_changes_only_new_or_metadata_trans(
                old(partition)@,
                p1,
                partition@,
                self.allocator.spec_valid().start as int,
                self.allocator.spec_cluster_size() as int,
                self.ext_fs.superblock,
            );
        }
        r?;
        Ok(dentry_writer)
    }

    /// Builds the regular file `name` described by `dentry`, with the data in `data_ranges`, as an entry of the
    /// directory of `parent_dentry_writer`, and writes its inode.
    pub fn deserialize_regular_file(&mut self, dentry: DentryRepresentation, name: Vec<u8>, data_ranges: Vec<Range<ClusterIdx>>, parent_dentry_writer: &mut DentryWriter, partition: &mut Vec<u8>) -> (r:
        Result<(), ConvertError>)
        requires
            old(self).wf(),
            old(parent_dentry_writer).wf(&old(self).ext_fs),
        ensures
            r matches Err(e) ==> (e == ConvertError::NoFreeClusters ==> final(self).allocator.exhausted()),
            final(self).reader == old(self).reader,
            final(self).ext_fs.superblock == old(self).ext_fs.superblock,
            final(partition)@.len() == old(partition)@.len(),
            r is Ok ==> final(self).wf() && final(parent_dentry_writer).wf(&final(self).ext_fs),
            r is Ok ==> exists|inode: Inode|
                {
                    &&& inode.inode_no == old(self).ext_fs.last_allocated_inode_no + 1
                    &&& inode_of_dentry(inode, dentry)
                    &&& inode.inner.spec_size() == dentry.file_size
                    &&& inode.extent_tree.spec_extents() == spec_from_ranges(as_block_ranges(data_ranges@), 0)
                    &&& inode.byte_offset + inode.spec_bytes().len() <= final(partition)@.len()
                    &&& #[trigger] final(partition)@.subrange(
                        inode.byte_offset as int,
                        inode.byte_offset + inode.spec_bytes().len(),
                    ) == inode.spec_bytes()
                },
            same_frame(*final(self), *old(self)),
            old(self).changes_only_own(old(partition)@, final(partition)@),
            final(parent_dentry_writer).spec_inode().byte_offset == old(parent_dentry_writer).spec_inode().byte_offset,
            r is Ok ==> final(self).ext_fs.last_allocated_inode_no == old(self).ext_fs.last_allocated_inode_no + 1,
    {
        let mut inode = self.build_file(dentry, name, parent_dentry_writer, partition)?;
        let mut block_ranges: Vec<Range<BlockIdx>> = Vec::new();
        let mut i: usize = 0;
        while i < data_ranges.len()
            invariant
                i <= data_ranges@.len(),
                block_ranges@.len() == i,
                forall|j: int| 0 <= j < i ==> (#[trigger] block_ranges@[j]).end <= u32::MAX,
                block_ranges@ == as_block_ranges(data_ranges@.take(i as int)),
            decreases data_ranges@.len() - i,
        {
            block_ranges.push(data_ranges[i].start as u64..data_ranges[i].end as u64);
            proof {
                assert(block_ranges@ =~= as_block_ranges(data_ranges@.take(i + 1)));
            }
            i += 1;
        }
        proof {
            assert(data_ranges@.take(data_ranges@.len() as int) =~= data_ranges@);
        }
        self.ext_fs.set_extents(&mut inode, block_ranges, &mut self.allocator)?;
        inode.set_size(dentry.file_size as u64);
        let ghost p1 = partition@;
        let r = self.ext_fs.write_inode(&inode, &self.allocator, partition);
        proof {
            lemma_changes_only_new_or_metadata_trans(
                old(partition)@,
                p1,
                partition@,
                self.allocator.spec_valid().start as int,
                self.allocator.spec_cluster_size() as int,
                self.ext_fs.superblock,
            );
        }
        r?;
        proof {
            assert(inode.extent_tree.spec_extents() =~= spec_from_ranges(as_block_ranges(data_ranges@), 0));
            assert(inode_of_dentry(inode, dentry));
        }
        Ok(())
    }

    /// Allocates and initializes the inode of the file `name` described by `dentry`, and adds its entry to the
    /// directory of `parent_dentry_writer`.
    fn build_file(&mut self, dentry: DentryRepresentation, name: Vec<u8>, parent_dentry_writer: &mut DentryWriter, partition: &mut Vec<u8>) -> (r:
        Result<Inode, ConvertError>)
        requires
            old(self).wf(),
            old(parent_dentry_writer).wf(&old(self).ext_fs),
        ensures
            r matches Err(e) ==> (e == ConvertError::NoFreeClusters ==> final(self).allocator.exhausted()),
            final(self).reader == old(self).reader,
            final(self).ext_fs.superblock == old(self).ext_fs.superblock,
            final(partition)@.len() == old(partition)@.len(),
            r is Ok ==> final(self).wf() && final(parent_dentry_writer).wf(&final(self).ext_fs),
            r matches Ok(inode) ==> inode.extent_tree.wf() && inode.extent_tree.entries_per_block
                == final(self).ext_fs.superblock.spec_block_size() / (EXTENT_ELEMENT_SIZE as int)
                && inode.inner.spec_size() == 0,
            r matches Ok(inode) ==> {
                &&& inode.inode_no == old(self).ext_fs.last_allocated_inode_no + 1
                &&& inode_of_dentry(inode, dentry)
                &&& inode.extent_tree.spec_extents() == Seq::<ExtentView>::empty()
            },
            same_frame(*final(self), *old(self)),
            old(self).changes_only_own(old(partition)@, final(partition)@),
            final(parent_dentry_writer).spec_inode().byte_offset == old(parent_dentry_writer).spec_inode().byte_offset,
            r matches Ok(inode) ==> in_metadata(final(self).ext_fs.superblock, inode.byte_offset as int, INODE_SIZE as int),
            r is Ok ==> final(self).ext_fs.last_allocated_inode_no == old(self).ext_fs.last_allocated_inode_no + 1,
            old(self).ext_fs.last_allocated_inode_no < old(self).ext_fs.superblock.s_inodes_count
                && old(self).ext_fs.inode_allocatable(old(self).ext_fs.last_allocated_inode_no + 1, dentry.is_dir)
                && name@.len() <= EXT4_NAME_MAX_LEN && spec_aligned_length(
                name@.len() + DENTRY_HEADER_LEN,
                ALIGNMENT as int,
            ) <= old(parent_dentry_writer).spec_block_size() - old(parent_dentry_writer).spec_position() ==> r is Ok,
    {
        let mut inode = self.ext_fs.allocate_inode(dentry.is_dir)?;
        inode.init_from_dentry(dentry);
        let ext4_dentry = Ext4Dentry::new(inode.inode_no, name)?;
        parent_dentry_writer.add_dentry(ext4_dentry, &mut self.ext_fs, &mut self.allocator, partition)?;
        Ok(inode)
    }

    /// Builds lost+found as an entry of the root directory.
    #[verifier::rlimit(40)]
    fn build_lost_found(&mut self, root_dentry_writer: &mut DentryWriter, partition: &mut Vec<u8>) -> (r: Result<(), ConvertError>)
        requires
            old(self).wf(),
            old(self).ext_fs.last_allocated_inode_no == crate::ext4::FIRST_NON_RESERVED_INODE - 1,
            old(root_dentry_writer).wf(&old(self).ext_fs),
        ensures
            r matches Err(e) ==> (e == ConvertError::NoFreeClusters ==> final(self).allocator.exhausted()),
            final(self).reader == old(self).reader,
            final(self).ext_fs.superblock == old(self).ext_fs.superblock,
            final(partition)@.len() == old(partition)@.len(),
            r is Ok ==> final(self).wf() && final(root_dentry_writer).wf(&final(self).ext_fs),
            same_frame(*final(self), *old(self)),
            old(self).changes_only_own(old(partition)@, final(partition)@),
            final(root_dentry_writer).spec_inode().byte_offset == old(root_dentry_writer).spec_inode().byte_offset,
            r is Ok ==> final(self).ext_fs.last_allocated_inode_no == old(self).ext_fs.last_allocated_inode_no + 1,
            r is Ok ==> (final(root_dentry_writer).spec_link_count_from_subdirs() == old(root_dentry_writer).spec_link_count_from_subdirs() + 1 || old(root_dentry_writer).spec_link_count_from_subdirs() == u64::MAX),
    {
        let inode = self.ext_fs.build_lost_found_inode()?;
        let dentry = Ext4Dentry::new(inode.inode_no, lost_found_name())?;
        root_dentry_writer.add_dentry(dentry, &mut self.ext_fs, &mut self.allocator, partition)?;
        let mut dentry_writer = DentryWriter::new(inode, &mut self.allocator, &mut self.ext_fs)?;
        let ghost p1 = partition@;
        let r = self.build_dot_dirs(&mut dentry_writer, root_dentry_writer, partition);
        proof {
            lemma_changes_only_new_or_metadata_trans(
                old(partition)@,
                p1,
                partition@,
                self.allocator.spec_valid().start as int,
                self.allocator.spec_cluster_size() as int,
                self.ext_fs.superblock,
            );
        }
        r?;
        let ghost p2 = partition@;
        let r = dentry_writer.finish(&mut self.ext_fs, &self.allocator, partition);
        proof {
            lemma_changes_only_new_or_metadata_trans(
                old(partition)@,
                p2,
                partition@,
                self.allocator.spec_valid().start as int,
                self.allocator.spec_cluster_size() as int,
                self.ext_fs.superblock,
            );
        }
        r?;
        Ok(())
    }

    /// Adds the `.` entry, linking the directory itself, and the `..` entry, linking its parent.
    fn build_dot_dirs(&mut self, dentry_writer: &mut DentryWriter, parent_dentry_writer: &mut DentryWriter, partition: &mut Vec<u8>) -> (r:
        Result<(), ConvertError>)
        requires
            old(self).wf(),
            old(dentry_writer).wf(&old(self).ext_fs),
            old(parent_dentry_writer).wf(&old(self).ext_fs),
        ensures
            r matches Err(e) ==> (e == ConvertError::NoFreeClusters ==> final(self).allocator.exhausted()),
            final(self).reader == old(self).reader,
            final(self).ext_fs.superblock == old(self).ext_fs.superblock,
            final(partition)@.len() == old(partition)@.len(),
            r is Ok ==> final(self).wf() && final(dentry_writer).wf(&final(self).ext_fs)
                && final(parent_dentry_writer).wf(&final(self).ext_fs),
            final(dentry_writer).spec_inode().inode_no == old(dentry_writer).spec_inode().inode_no,
            keeps_metadata(final(dentry_writer).spec_inode().inner, old(dentry_writer).spec_inode().inner),
            final(self).ext_fs.last_allocated_inode_no == old(self).ext_fs.last_allocated_inode_no,
            same_frame(*final(self), *old(self)),
            old(self).changes_only_own(old(partition)@, final(partition)@),
            final(dentry_writer).spec_inode().byte_offset == old(dentry_writer).spec_inode().byte_offset,
            final(parent_dentry_writer).spec_inode().byte_offset == old(parent_dentry_writer).spec_inode().byte_offset,
            r is Ok ==> (final(dentry_writer).spec_link_count_from_subdirs() == old(dentry_writer).spec_link_count_from_subdirs()
                + 1 || old(dentry_writer).spec_link_count_from_subdirs() == u64::MAX),
            r is Ok ==> (final(parent_dentry_writer).spec_link_count_from_subdirs() == old(parent_dentry_writer).spec_link_count_from_subdirs() + 1 || old(parent_dentry_writer).spec_link_count_from_subdirs() == u64::MAX),
            r is Ok ==> final(dentry_writer).spec_previous() is Some,
    {
        let dot_dentry = Ext4Dentry::new(dentry_writer.inode.inode_no, dot_name(false))?;
        dentry_writer.add_dentry(dot_dentry, &mut self.ext_fs, &mut self.allocator, partition)?;
        dentry_writer.increment_link_count();

        let dot_dot_dentry = Ext4Dentry::new(parent_dentry_writer.inode.inode_no, dot_name(true))?;
        let ghost p1 = partition@;
        let r = dentry_writer.add_dentry(dot_dot_dentry, &mut self.ext_fs, &mut self.allocator, partition);
        proof {
            lemma_changes_only_new_or_metadata_trans(
                old(partition)@,
                p1,
                partition@,
                self.allocator.spec_valid().start as int,
                self.allocator.spec_cluster_size() as int,
                self.ext_fs.superblock,
            );
        }
        r?;
        parent_dentry_writer.increment_link_count();
        Ok(())
    }

    /// The same as `build_dot_dirs` for the root directory, which is its own parent.
    fn build_root_dot_dirs(&mut self, dentry_writer: &mut DentryWriter, partition: &mut Vec<u8>) -> (r: Result<(), ConvertError>)
        requires
            old(self).wf(),
            old(dentry_writer).wf(&old(self).ext_fs),
        ensures
            r matches Err(e) ==> (e == ConvertError::NoFreeClusters ==> final(self).allocator.exhausted()),
            final(self).reader == old(self).reader,
            final(self).ext_fs.superblock == old(self).ext_fs.superblock,
            final(self).ext_fs.last_allocated_inode_no == old(self).ext_fs.last_allocated_inode_no,
            final(partition)@.len() == old(partition)@.len(),
            r is Ok ==> final(self).wf() && final(dentry_writer).wf(&final(self).ext_fs),
            same_frame(*final(self), *old(self)),
            old(self).changes_only_own(old(partition)@, final(partition)@),
            final(dentry_writer).spec_inode().byte_offset == old(dentry_writer).spec_inode().byte_offset,
            r is Ok && old(dentry_writer).spec_link_count_from_subdirs() + 2 <= u64::MAX ==> final(dentry_writer).spec_link_count_from_subdirs() == old(dentry_writer).spec_link_count_from_subdirs() + 2,
            r is Ok ==> final(dentry_writer).spec_previous() is Some,
    {
        let dot_dentry = Ext4Dentry::new(dentry_writer.inode.inode_no, dot_name(false))?;
        dentry_writer.add_dentry(dot_dentry, &mut self.ext_fs, &mut self.allocator, partition)?;
        dentry_writer.increment_link_count();

        let dot_dot_dentry = Ext4Dentry::new(dentry_writer.inode.inode_no, dot_name(true))?;
        let ghost p1 = partition@;
        let r = dentry_writer.add_dentry(dot_dot_dentry, &mut self.ext_fs, &mut self.allocator, partition);
        proof {
            lemma_changes_only_new_or_metadata_trans(
                old(partition)@,
                p1,
                partition@,
                self.allocator.spec_valid().start as int,
                self.allocator.spec_cluster_size() as int,
                self.ext_fs.superblock,
            );
        }
        r?;
        dentry_writer.increment_link_count();
        Ok(())
    }
}

/// Reads the records that begin a file: its type, its dentry and its name.
fn next_file_header(reader: &mut Reader, partition: &[u8]) -> (r: Result<
    (FileType, DentryRepresentation, Vec<u8>),
    ConvertError,
>)
    requires
        old(reader).wf(),
    ensures
        r is Ok ==> final(reader).wf(),
        final(reader).spec_page_size() == old(reader).spec_page_size(),
        final(reader).spec_clusters() == old(reader).spec_clusters(),
        final(reader).spec_avoid() == old(reader).spec_avoid(),
        r is Ok && old(reader).intact(partition@) ==> final(reader).intact(partition@),
        r matches Err(e) ==> e == ConvertError::CorruptedData,
        old(reader).holds(partition@) && old(reader).spec_pending().len() > 0 && !(old(
            reader,
        ).spec_pending()[0] matches Record::FileTypes(v) && v@.len() == 1) ==> r is Err,
        old(reader).holds(partition@) && old(reader).spec_pending().len() >= 3 ==> match (
            old(reader).spec_pending()[0],
            old(reader).spec_pending()[1],
            old(reader).spec_pending()[2],
        ) {
            (Record::FileTypes(t), Record::Dentries(d), Record::Bytes(nm)) => t@.len() == 1 && d@.len() == 1 ==> {
                &&& r matches Ok(x) && x.0 == t@[0] && x.1 == d@[0] && x.2@ == nm@
                &&& final(reader).spec_pending() == old(reader).spec_pending().skip(3)
                &&& final(reader).holds(partition@)
            },
            _ => true,
        },
{
    let ghost recs = reader.spec_pending();
    let file_types = reader.next_file_types(partition)?;
    let dentries = reader.next_dentries(partition)?;
    let name = reader.next_bytes(partition)?;
    proof {
        if recs.len() >= 3 {
            assert(recs.drop_first().drop_first().drop_first() =~= recs.skip(3));
        }
    }
    if file_types.len() != 1 || dentries.len() != 1 {
        return Err(ConvertError::CorruptedData);
    }
    Ok((file_types[0], dentries[0], name))
}

impl Ext4TreeDeserializerInternals {
    /// Reads the next file of the archive and builds it, and everything below it if it is a directory, as an entry
    /// of the directory of `parent_dentry_writer`. At most `budget` files are read; fails with `CorruptedData`
    /// beyond. Where the deserializer reads safely, what it writes never touches an archived record that it has yet
    /// to read, and a successful read takes exactly the records of the file.
    pub fn deserialize_file(&mut self, parent_dentry_writer: &mut DentryWriter, partition: &mut Vec<u8>, budget: &mut u64) -> (r:
        Result<(), ConvertError>)
        requires
            old(self).wf(),
            old(parent_dentry_writer).wf(&old(self).ext_fs),
        ensures
            r matches Err(e) ==> (e == ConvertError::NoFreeClusters ==> final(self).allocator.exhausted()),
            final(partition)@.len() == old(partition)@.len(),
            final(self).ext_fs.superblock == old(self).ext_fs.superblock,
            r is Ok ==> final(self).wf() && final(parent_dentry_writer).wf(&final(self).ext_fs),
            *final(budget) <= *old(budget),
            same_frame(*final(self), *old(self)),
            old(self).changes_only_own(old(partition)@, final(partition)@),
            final(parent_dentry_writer).spec_inode().byte_offset == old(parent_dentry_writer).spec_inode().byte_offset,
            final(self).reader.spec_page_size() == old(self).reader.spec_page_size(),
            final(self).reader.spec_clusters() == old(self).reader.spec_clusters(),
            final(self).reader.spec_avoid() == old(self).reader.spec_avoid(),
            old(self).reads_safely() && old(self).reader.intact(old(partition)@) && r is Ok ==> final(self).reader.intact(
                final(partition)@,
            ),
            *old(budget) == 0 ==> r == Err::<(), ConvertError>(ConvertError::CorruptedData),
            r is Ok ==> *final(budget) < *old(budget) && final(self).ext_fs.last_allocated_inode_no > old(
                self,
            ).ext_fs.last_allocated_inode_no,
            old(self).reader.holds(old(partition)@) && old(self).reader.spec_pending().len() > 0 && !(old(
                self,
            ).reader.spec_pending()[0] matches Record::FileTypes(v) && v@.len() == 1) ==> r is Err,
            old(self).reads_safely() && old(self).reader.holds(old(partition)@) && r is Ok ==> reads_one_file(
                old(self).reader.spec_pending(),
                *old(budget) as nat,
                final(self).reader.spec_pending(),
                *final(budget) as nat,
            ),
        decreases *old(budget), 0nat,
    {
        if *budget == 0 {
            return Err(ConvertError::CorruptedData);
        }
        let ghost recs = self.reader.spec_pending();
        let ghost span = file_span(recs, *budget as nat);
        let ghost on = self.reads_safely() && self.reader.holds(partition@) && span is Some;
        let ghost (total_k, final_b) = match span {
            Some(x) => x,
            None => (0nat, 0nat),
        };
        proof {
            lemma_file_span_bounds(recs, *budget as nat);
            if on {
                lemma_file_span_unfold(recs, *budget as nat);
            }
        }
        *budget = *budget - 1;
        let ghost tracking = self.reads_safely() && self.reader.intact(partition@);
        let (file_type, dentry, name) = next_file_header(&mut self.reader, partition.as_slice())?;
        match file_type {
            FileType::Directory(child_count) => {
                let ghost p0 = partition@;
                let mut dentry_writer = self.deserialize_directory(dentry, name, parent_dentry_writer, partition)?;
                proof {
                    if tracking {
                        self.lemma_reader_survives(p0, partition@);
                    }
                }
                let ghost p_children = partition@;
                let r = self.deserialize_children(&mut dentry_writer, child_count, partition, budget);
                proof {
                    lemma_changes_only_new_or_metadata_trans(
                        old(partition)@,
                        p_children,
                        partition@,
                        self.allocator.spec_valid().start as int,
                        self.allocator.spec_cluster_size() as int,
                        self.ext_fs.superblock,
                    );
                }
                r?;
                proof {
                    if on {
                        lemma_reads_files(recs.skip(3), child_count as nat, (*old(budget) - 1) as nat, self.reader.spec_pending(), *budget as nat);
                        assert(recs.skip(3).skip(total_k - 3) =~= recs.skip(total_k as int));
                    }
                }
                let ghost p1 = partition@;
                let r = dentry_writer.finish(&mut self.ext_fs, &self.allocator, partition);
                proof {
                    lemma_changes_only_new_or_metadata_trans(
                        old(partition)@,
                        p1,
                        partition@,
                        self.allocator.spec_valid().start as int,
                        self.allocator.spec_cluster_size() as int,
                        self.ext_fs.superblock,
                    );
                    if tracking {
                        self.lemma_reader_survives(p1, partition@);
                    }
                }
                r?;
                proof {
                    lemma_reads_one_file(recs, *old(budget) as nat, self.reader.spec_pending(), *budget as nat);
                }
            },
            FileType::RegularFile => {
                let data_ranges = self.reader.next_ranges(partition.as_slice())?;
                proof {
                    if on {
                        assert(recs.skip(3).drop_first() =~= recs.skip(4));
                    }
                }
                let ghost p0 = partition@;
                let r = self.deserialize_regular_file(dentry, name, data_ranges, parent_dentry_writer, partition);
                proof {
                    if tracking {
                        self.lemma_reader_survives(p0, partition@);
                    }
                }
                r?;
                proof {
                    lemma_reads_one_file(recs, *old(budget) as nat, self.reader.spec_pending(), *budget as nat);
                }
            },
        }
        Ok(())
    }

    /// Reads the next `child_count` files of the archive and builds them as entries of the directory of
    /// `dentry_writer`, as `deserialize_file` does with one.
    fn deserialize_children(&mut self, dentry_writer: &mut DentryWriter, child_count: u32, partition: &mut Vec<u8>, budget: &mut u64) -> (r:
        Result<(), ConvertError>)
        requires
            old(self).wf(),
            old(dentry_writer).wf(&old(self).ext_fs),
            in_metadata(old(self).ext_fs.superblock, old(dentry_writer).spec_inode().byte_offset as int, INODE_SIZE as int),
        ensures
            r matches Err(e) ==> (e == ConvertError::NoFreeClusters ==> final(self).allocator.exhausted()),
            final(partition)@.len() == old(partition)@.len(),
            final(self).ext_fs.superblock == old(self).ext_fs.superblock,
            r is Ok ==> final(self).wf() && final(dentry_writer).wf(&final(self).ext_fs),
            *final(budget) <= *old(budget),
            same_frame(*final(self), *old(self)),
            old(self).changes_only_own(old(partition)@, final(partition)@),
            final(dentry_writer).spec_inode().byte_offset == old(dentry_writer).spec_inode().byte_offset,
            final(self).reader.spec_page_size() == old(self).reader.spec_page_size(),
            final(self).reader.spec_clusters() == old(self).reader.spec_clusters(),
            final(self).reader.spec_avoid() == old(self).reader.spec_avoid(),
            old(self).reads_safely() && old(self).reader.intact(old(partition)@) && r is Ok ==> final(self).reader.intact(
                final(partition)@,
            ),
            r is Ok ==> final(self).ext_fs.last_allocated_inode_no >= old(self).ext_fs.last_allocated_inode_no,
            old(self).reads_safely() && old(self).reader.intact(old(partition)@) && r is Ok ==> reads_files(
                old(self).reader.spec_pending(),
                child_count as nat,
                *old(budget) as nat,
                final(self).reader.spec_pending(),
                *final(budget) as nat,
            ),
        decreases *old(budget), 1nat,
    {
        let ghost recs = self.reader.spec_pending();
        let ghost span = children_span(recs, child_count as nat, *budget as nat);
        let ghost tracking = self.reads_safely() && self.reader.intact(partition@);
        let ghost on = tracking && span is Some;
        let ghost (total_k, final_b) = match span {
            Some(x) => x,
            None => (0nat, 0nat),
        };
        proof {
            lemma_children_span_bounds(recs, child_count as nat, *budget as nat);
        }
        let ghost mut consumed: nat = 0;
        proof {
            if on {
                assert(recs.skip(0) =~= recs);
            }
        }
        let mut i: u32 = 0;
        while i < child_count
            invariant
                i <= child_count,
                on ==> tracking,
                on ==> span == Some((total_k, final_b)),
                on ==> consumed <= total_k <= recs.len(),
                on ==> self.reader.spec_pending() == recs.skip(consumed as int),
                on ==> children_span(recs.skip(consumed as int), (child_count - i) as nat, *budget as nat) == Some(
                    ((total_k - consumed) as nat, final_b),
                ),
                self.wf(),
                dentry_writer.wf(&self.ext_fs),
                self.ext_fs.superblock == old(self).ext_fs.superblock,
                partition@.len() == old(partition)@.len(),
                *budget <= *old(budget),
                same_frame(*self, *old(self)),
                old(self).changes_only_own(old(partition)@, partition@),
                dentry_writer.spec_inode().byte_offset == old(dentry_writer).spec_inode().byte_offset,
                in_metadata(self.ext_fs.superblock, dentry_writer.spec_inode().byte_offset as int, INODE_SIZE as int),
                self.reader.spec_page_size() == old(self).reader.spec_page_size(),
                self.reader.spec_clusters() == old(self).reader.spec_clusters(),
                self.reader.spec_avoid() == old(self).reader.spec_avoid(),
                tracking == (old(self).reads_safely() && old(self).reader.intact(old(partition)@)),
                tracking ==> self.reads_safely() && self.reader.intact(partition@),
                self.ext_fs.last_allocated_inode_no >= old(self).ext_fs.last_allocated_inode_no,
            decreases child_count - i,
        {
            let ghost p1 = partition@;
            let ghost rest = recs.skip(consumed as int);
            let ghost budget_before = *budget as nat;
            proof {
                if on {
                    lemma_children_span_unfold(rest, (child_count - i) as nat, budget_before);
                    lemma_file_span_bounds(rest, budget_before);
                    assert(self.reader.spec_pending().len() > 0);
                }
            }
            let r = self.deserialize_file(dentry_writer, partition, budget);
            proof {
                lemma_changes_only_new_or_metadata_trans(
                    old(partition)@,
                    p1,
                    partition@,
                    self.allocator.spec_valid().start as int,
                    self.allocator.spec_cluster_size() as int,
                    self.ext_fs.superblock,
                );
            }
            r?;
            proof {
                if on {
                    lemma_reads_one_file(rest, budget_before, self.reader.spec_pending(), *budget as nat);
                    let (k1, b1) = match file_span(rest, budget_before) {
                        Some(x) => x,
                        None => (0nat, 0nat),
                    };
                    assert(rest.skip(k1 as int) =~= recs.skip((consumed + k1) as int));
                    consumed = consumed + k1;
                }
            }
            i += 1;
        }
        proof {
            if on {
                lemma_children_span_unfold(recs.skip(consumed as int), 0, *budget as nat);
            }
            lemma_reads_files(recs, child_count as nat, *old(budget) as nat, self.reader.spec_pending(), *budget as nat);
        }
        Ok(())
    }

    /// Reads the number of files of the root directory, the first record of the archive.
    pub fn read_root_child_count(&mut self, partition: &[u8]) -> (r: Result<u32, ConvertError>)
        requires
            old(self).wf(),
        ensures
            r matches Err(e) ==> e == ConvertError::CorruptedData,
            final(self).allocator == old(self).allocator,
            final(self).ext_fs == old(self).ext_fs,
            r is Ok ==> final(self).wf(),
            old(self).reader.holds(partition@) && old(self).reader.spec_pending().len() > 0 ==> match directory_child_count(
                old(self).reader.spec_pending()[0],
            ) {
                Some(c) => r == Ok::<u32, ConvertError>(c) && final(self).reader.holds(partition@)
                    && final(self).reader.spec_pending() == old(self).reader.spec_pending().drop_first(),
                None => r is Err,
            },
            final(self).reader.spec_page_size() == old(self).reader.spec_page_size(),
            final(self).reader.spec_clusters() == old(self).reader.spec_clusters(),
            final(self).reader.spec_avoid() == old(self).reader.spec_avoid(),
    {
        let file_types = self.reader.next_file_types(partition)?;
        if file_types.len() != 1 {
            return Err(ConvertError::CorruptedData);
        }
        match file_types[0] {
            FileType::Directory(child_count) => Ok(child_count),
            FileType::RegularFile => Err(ConvertError::CorruptedData),
        }
    }

    /// Builds the whole ext4 directory tree from the archive of at most `budget` files, then writes the metadata
    /// of the filesystem. Where the deserializer reads safely and the archive reads back, the first record gives the
    /// number of files of the root directory, and a successful build reads exactly those files.
    #[verifier::rlimit(40)]
    pub fn deserialize_directory_tree(&mut self, partition: &mut Vec<u8>, budget: u64) -> (r: Result<(), ConvertError>)
        requires
            old(self).wf(),
            old(self).ext_fs.last_allocated_inode_no == crate::ext4::FIRST_NON_RESERVED_INODE - 1,
        ensures
            r matches Err(e) ==> (e == ConvertError::NoFreeClusters ==> final(self).allocator.exhausted()),
            final(partition)@.len() == old(partition)@.len(),
            r is Ok ==> {
                let sb = final(self).ext_fs.superblock;
                &&& old(self).ext_fs.superblock.same_but_free_counts(sb)
                &&& 1024 + sb.spec_bytes().len() <= final(partition)@.len()
                &&& final(partition)@.subrange(1024, 1024 + sb.spec_bytes().len() as int) == sb.spec_bytes()
            },
            old(self).reads_safely() && old(self).reader.holds(old(partition)@) && old(self).reader.spec_pending().len()
                > 0 && r is Ok ==> reads_tree(old(self).reader.spec_pending(), budget as nat, final(self).reader.spec_pending()),
    {
        let ghost recs = self.reader.spec_pending();
        let ghost tracking = self.reads_safely() && self.reader.holds(partition@) && recs.len() > 0;
        let ghost p0 = partition@;
        let mut root_dentry_writer = self.build_root(partition)?;
        proof {
            if tracking {
                self.lemma_reader_survives(p0, partition@);
            }
        }
        let root_child_count = self.read_root_child_count(partition.as_slice())?;
        let mut budget = budget;
        let ghost p1 = partition@;
        let ghost budget0 = budget as nat;
        let r = self.deserialize_children(&mut root_dentry_writer, root_child_count, partition, &mut budget);
        r?;
        proof {
            if tracking {
                lemma_reads_files(recs.drop_first(), root_child_count as nat, budget0, self.reader.spec_pending(), budget as nat);
                lemma_children_span_bounds(recs.drop_first(), root_child_count as nat, budget0);
                if let Some((k, b)) = children_span(recs.drop_first(), root_child_count as nat, budget0) {
                    assert(recs.drop_first().skip(k as int) =~= recs.skip((1 + k) as int));
                }
                lemma_reads_tree(recs, budget0, self.reader.spec_pending());
            }
        }
        let ghost pending_read = self.reader.spec_pending();
        root_dentry_writer.finish(&mut self.ext_fs, &self.allocator, partition)?;
        self.ext_fs.finish(partition)?;
        proof {
            assert(self.reader.spec_pending() == pending_read);
        }
        Ok(())
    }
}

} // verus!
