use vstd::prelude::*;
use vstd::arithmetic::power::pow;
use std::ops::Range;
use crate::allocator::{AllocatedClusterIdx, Allocator};
use crate::bytes::{lemma_le_u16_at, lemma_le_u32_at, le_u16, le_u32, push_u16, push_u32, u16_bytes, u32_bytes};
use crate::error::ConvertError;
use crate::ext4::superblock::ceil_div;
use crate::ext4::{BlockCount, BlockIdx, BlockSize};
use crate::lohi::{join_u32_u16, split_u32_u16};

verus! {

/// The number of extent tree entries (the header included) that the inode holds.
pub const EXTENT_ENTRIES_IN_INODE: u16 = 5;
pub const EXTENT_TREE_LEAF_DEPTH: u16 = 0;
pub const EXTENT_MAGIC: u16 = 0xF30A;
/// At most this many entries per block, so that the count fits into `ExtentHeader::max_entry_count`.
pub const MAX_EXTENT_ENTRIES_PER_BLOCK: u64 = 65535;
/// The size of one encoded entry of an extent tree (header, index or extent).
pub const EXTENT_ELEMENT_SIZE: u64 = 12;
/// The longest extent, in blocks.
pub const EXTENT_MAX_LEN: u64 = 65535;

/// A run of physically consecutive data blocks of a file.
#[derive(Debug, Clone, Copy)]
pub struct Extent {
    pub logical_start: u32,
    pub len: u16,
    pub physical_start_hi: u16,
    pub physical_start_lo: u32,
}

/// An entry of an inner level of an extent tree, pointing to the block that holds the level below.
#[derive(Debug, Clone, Copy)]
pub struct ExtentIdx {
    /// logical_start of the first extent of the first leaf below self
    pub logical_start: u32,
    pub leaf_lo: u32,
    pub leaf_hi: u16,
    pub padding: u16,
}

/// The first entry of each level of an extent tree.
#[derive(Debug, Clone, Copy)]
pub struct ExtentHeader {
    pub magic: u16,
    pub valid_entry_count: u16,
    pub max_entry_count: u16,
    pub depth: u16,
    pub generation: u32,
}

/// An entry after the header of an extent tree level: an index on inner levels, an extent on leaves.
#[derive(Debug, Clone, Copy)]
pub enum ExtentTreeElement {
    Idx(ExtentIdx),
    Extent(Extent),
}

impl Extent {
    pub open spec fn spec_start(self) -> int {
        self.physical_start_hi * 0x1_0000_0000 + self.physical_start_lo
    }

    pub open spec fn spec_end(self) -> int {
        self.spec_start() + self.len
    }

    /// The extent of the blocks `data_range` at logical block `logical_start` of its file; a reversed range has no
    /// blocks, and its extent has length 0.
    pub fn new(data_range: Range<BlockIdx>, logical_start: u32) -> (r: Self)
        requires
            data_range.end - data_range.start <= EXTENT_MAX_LEN,
            data_range.start < 0x1_0000_0000_0000,
        ensures
            r.spec_start() == data_range.start,
            r.len == (if data_range.start <= data_range.end { data_range.end - data_range.start } else { 0 }),
            r.logical_start == logical_start,
    {
        let (lo, hi) = split_u32_u16(data_range.start);
        let len: u16 = if data_range.start <= data_range.end { (data_range.end - data_range.start) as u16 } else { 0 };
        Extent {
            logical_start,
            len,
            physical_start_hi: hi,
            physical_start_lo: lo,
        }
    }

    pub fn start(&self) -> (r: BlockIdx)
        ensures
            r == self.spec_start(),
    {
        join_u32_u16(self.physical_start_lo, self.physical_start_hi)
    }

    pub fn end(&self) -> (r: BlockIdx)
        ensures
            r == self.spec_end(),
    {
        self.start() + self.len as u64
    }

    pub fn as_range(&self) -> (r: Range<BlockIdx>)
        ensures
            r.start == self.spec_start(),
            r.end == self.spec_end(),
    {
        self.start()..self.end()
    }

    /// The on-disk encoding.
    pub open spec fn spec_bytes(self) -> Seq<u8> {
        u32_bytes(self.logical_start) + u16_bytes(self.len) + u16_bytes(self.physical_start_hi) + u32_bytes(
            self.physical_start_lo,
        )
    }

    pub fn push_bytes(&self, v: &mut Vec<u8>)
        ensures
            final(v)@ == old(v)@ + self.spec_bytes(),
    {
        push_u32(v, self.logical_start);
        push_u16(v, self.len);
        push_u16(v, self.physical_start_hi);
        push_u32(v, self.physical_start_lo);
        assert(v@ =~= old(v)@ + self.spec_bytes());
    }
}

/// What an extent states: (logical start, physical start, length).
pub type ExtentView = (int, int, int);

impl View for Extent {
    type V = ExtentView;

    open spec fn view(&self) -> ExtentView {
        (self.logical_start as int, self.spec_start(), self.len as int)
    }
}

/// The extents into which `ranges` are cut, in order, each as long as possible, the first one at logical block
/// `logical`.
pub open spec fn spec_from_ranges(ranges: Seq<Range<u64>>, logical: int) -> Seq<ExtentView>
    decreases ranges.len(), (if ranges.len() > 0 && ranges[0].start < ranges[0].end {
        ranges[0].end - ranges[0].start
    } else {
        0int
    }),
{
    if ranges.len() == 0 {
        Seq::empty()
    } else if ranges[0].start >= ranges[0].end {
        spec_from_ranges(ranges.drop_first(), logical)
    } else {
        let len = if ranges[0].end - ranges[0].start < EXTENT_MAX_LEN {
            ranges[0].end - ranges[0].start
        } else {
            EXTENT_MAX_LEN as int
        };
        seq![(logical, ranges[0].start as int, len)] + spec_from_ranges(
            ranges.update(0, (ranges[0].start + len) as u64..ranges[0].end),
            logical + len,
        )
    }
}

/// Every extent ends at a logical block that a `u32` can hold.
pub open spec fn logical_ends_fit(extents: Seq<ExtentView>) -> bool {
    forall|i: int| 0 <= i < extents.len() ==> (#[trigger] extents[i]).0 + extents[i].2 <= u32::MAX
}

proof fn lemma_from_ranges_empty_prefix(ranges: Seq<Range<u64>>, logical: int)
    requires
        ranges.len() > 0,
        ranges[0].start >= ranges[0].end,
    ensures
        spec_from_ranges(ranges, logical) == spec_from_ranges(ranges.drop_first(), logical),
{
}

impl Extent {
    /// Cuts `data_ranges` into extents of at most `EXTENT_MAX_LEN` blocks, numbering their blocks consecutively
    /// from logical block 0. Fails with `FileTooLarge` if a block would get a logical number beyond `u32::MAX`.
    pub fn from_ranges(data_ranges: Vec<Range<BlockIdx>>) -> (r: Result<Vec<Self>, ConvertError>)
        requires
            forall|i: int| 0 <= i < data_ranges@.len() ==> (#[trigger] data_ranges@[i]).end <= 0x1_0000_0000_0000,
        ensures
            match r {
                Ok(extents) => {
                    &&& extents@.map_values(|e: Extent| e@) == spec_from_ranges(data_ranges@, 0)
                    &&& logical_ends_fit(spec_from_ranges(data_ranges@, 0))
                },
                Err(e) => e == ConvertError::FileTooLarge && !logical_ends_fit(spec_from_ranges(data_ranges@, 0)),
            },
    {
        let ghost all = spec_from_ranges(data_ranges@, 0);
        let mut logical_start: u32 = 0;
        let mut extents: Vec<Extent> = Vec::new();
        let mut i: usize = 0;
        proof {
            assert(data_ranges@.skip(0) =~= data_ranges@);
            assert(extents@.map_values(|e: Extent| e@) =~= Seq::<ExtentView>::empty());
        }
        while i < data_ranges.len()
            invariant
                i <= data_ranges@.len(),
                all == spec_from_ranges(data_ranges@, 0),
                forall|j: int| 0 <= j < data_ranges@.len() ==> (#[trigger] data_ranges@[j]).end <= 0x1_0000_0000_0000,
                extents@.map_values(|e: Extent| e@) + spec_from_ranges(data_ranges@.skip(i as int), logical_start as int)
                    == all,
                logical_ends_fit(extents@.map_values(|e: Extent| e@)),
            decreases data_ranges@.len() - i,
        {
            let mut range = data_ranges[i].start..data_ranges[i].end;
            proof {
                assert(data_ranges@.skip(i as int).update(0, range) =~= data_ranges@.skip(i as int));
            }
            while range.start < range.end
                invariant
                    i < data_ranges@.len(),
                    all == spec_from_ranges(data_ranges@, 0),
                    range.end == data_ranges@[i as int].end,
                    range.end <= 0x1_0000_0000_0000,
                    extents@.map_values(|e: Extent| e@) + spec_from_ranges(
                        data_ranges@.skip(i as int).update(0, range),
                        logical_start as int,
                    ) == all,
                    logical_ends_fit(extents@.map_values(|e: Extent| e@)),
                decreases range.end - range.start,
            {
                let ghost rest = data_ranges@.skip(i as int).update(0, range);
                let range_len = if range.end - range.start < EXTENT_MAX_LEN {
                    range.end - range.start
                } else {
                    EXTENT_MAX_LEN
                };
                let ghost before = extents@.map_values(|e: Extent| e@);
                let extent = Extent::new(range.start..range.start + range_len, logical_start);
                extents.push(extent);
                proof {
                    assert(extents@.map_values(|e: Extent| e@) =~= before.push(extent@));
                    assert(spec_from_ranges(rest, logical_start as int) == seq![(
                        logical_start as int,
                        range.start as int,
                        range_len as int,
                    )] + spec_from_ranges(
                        rest.update(0, (range.start + range_len) as u64..range.end),
                        logical_start + range_len,
                    ));
                    assert(rest.update(0, (range.start + range_len) as u64..range.end) =~= data_ranges@.skip(
                        i as int,
                    ).update(0, (range.start + range_len) as u64..range.end));
                }
                if (logical_start as u64) + range_len > u32::MAX as u64 {
                    proof {
                        assert(all[before.len() as int] == extent@);
                    }
                    return Err(ConvertError::FileTooLarge);
                }
                logical_start = (logical_start as u64 + range_len) as u32;
                range.start = range.start + range_len;
                proof {
                    assert(before.push(extent@) + spec_from_ranges(
                        data_ranges@.skip(i as int).update(0, range),
                        logical_start as int,
                    ) =~= before + (seq![extent@] + spec_from_ranges(
                        data_ranges@.skip(i as int).update(0, range),
                        logical_start as int,
                    )));
                }
            }
            proof {
                let rest = data_ranges@.skip(i as int).update(0, range);
                lemma_from_ranges_empty_prefix(rest, logical_start as int);
                assert(rest.drop_first() =~= data_ranges@.skip(i + 1));
            }
            i += 1;
        }
        proof {
            assert(data_ranges@.skip(i as int) =~= Seq::<Range<u64>>::empty());
            assert(extents@.map_values(|e: Extent| e@) =~= all);
        }
        Ok(extents)
    }
}

impl ExtentIdx {
    pub open spec fn spec_leaf(self) -> int {
        self.leaf_hi * 0x1_0000_0000 + self.leaf_lo
    }

    /// The index of the level in block `physical_start`, whose first extent starts at logical block
    /// `logical_start`.
    pub fn new(logical_start: u32, physical_start: &AllocatedClusterIdx) -> (r: Self)
        ensures
            r.logical_start == logical_start,
            r.spec_leaf() == physical_start.spec_idx(),
    {
        ExtentIdx { logical_start, leaf_lo: physical_start.as_cluster_idx(), leaf_hi: 0, padding: 0 }
    }

    /// The on-disk encoding.
    pub open spec fn spec_bytes(self) -> Seq<u8> {
        u32_bytes(self.logical_start) + u32_bytes(self.leaf_lo) + u16_bytes(self.leaf_hi) + u16_bytes(self.padding)
    }

    pub fn push_bytes(&self, v: &mut Vec<u8>)
        ensures
            final(v)@ == old(v)@ + self.spec_bytes(),
    {
        push_u32(v, self.logical_start);
        push_u32(v, self.leaf_lo);
        push_u16(v, self.leaf_hi);
        push_u16(v, self.padding);
        assert(v@ =~= old(v)@ + self.spec_bytes());
    }
}

impl ExtentHeader {
    /// The header of an empty level of `all_entry_count` entries (the header itself included).
    pub fn new(all_entry_count: u16) -> (r: Self)
        requires
            all_entry_count > 1,
        ensures
            r.magic == EXTENT_MAGIC,
            r.valid_entry_count == 0,
            r.max_entry_count == all_entry_count - 1,
            r.depth == 0,
            r.generation == 0,
    {
        ExtentHeader {
            magic: EXTENT_MAGIC,
            valid_entry_count: 0,
            max_entry_count: all_entry_count - 1,  // the first entry is the header itself
            depth: 0,
            generation: 0,
        }
    }

    /// The header of an empty level one above the level of `child`.
    pub fn from_child(child: Self, all_entry_count: u16) -> (r: Self)
        requires
            all_entry_count > 1,
            child.depth < u16::MAX,
        ensures
            r == (ExtentHeader { depth: (child.depth + 1) as u16, ..ExtentHeader::spec_new(all_entry_count) }),
    {
        ExtentHeader { depth: child.depth + 1, ..Self::new(all_entry_count) }
    }

    /// The header of an empty level one below the level of `parent`.
    pub fn from_parent(parent: Self, all_entry_count: u16) -> (r: Self)
        requires
            all_entry_count > 1,
            parent.depth > 0,
        ensures
            r == (ExtentHeader { depth: (parent.depth - 1) as u16, ..ExtentHeader::spec_new(all_entry_count) }),
    {
        ExtentHeader { depth: parent.depth - 1, ..Self::new(all_entry_count) }
    }

    pub open spec fn spec_new(all_entry_count: u16) -> Self {
        ExtentHeader {
            magic: EXTENT_MAGIC,
            valid_entry_count: 0,
            max_entry_count: (all_entry_count - 1) as u16,
            depth: 0,
            generation: 0,
        }
    }

    /// True if this is the lowest level of the extent tree, whose entries are extents.
    pub fn is_leaf(&self) -> (r: bool)
        ensures
            r == (self.depth == EXTENT_TREE_LEAF_DEPTH),
    {
        self.depth == EXTENT_TREE_LEAF_DEPTH
    }

    /// True if no further entries can be added after this header.
    pub fn is_full(&self) -> (r: bool)
        ensures
            r == (self.valid_entry_count == self.max_entry_count),
    {
        self.valid_entry_count == self.max_entry_count
    }

    pub open spec fn spec_is_valid(self) -> bool {
        self.valid_entry_count <= self.max_entry_count && (self.depth == 0 || self.valid_entry_count > 0)
    }

    /// Whether the invariants of a header hold: at most `max_entry_count` entries, at least one below a leaf.
    pub fn is_valid(&self) -> (r: bool)
        ensures
            r == self.spec_is_valid(),
    {
        let entry_count_is_valid = self.valid_entry_count <= self.max_entry_count;
        let non_leaf_has_at_least_one_child = self.depth == 0 || self.valid_entry_count > 0;
        entry_count_is_valid && non_leaf_has_at_least_one_child
    }

    /// The on-disk encoding.
    pub open spec fn spec_bytes(self) -> Seq<u8> {
        u16_bytes(self.magic) + u16_bytes(self.valid_entry_count) + u16_bytes(self.max_entry_count) + u16_bytes(
            self.depth,
        ) + u32_bytes(self.generation)
    }

    pub fn push_bytes(&self, v: &mut Vec<u8>)
        ensures
            final(v)@ == old(v)@ + self.spec_bytes(),
    {
        push_u16(v, self.magic);
        push_u16(v, self.valid_entry_count);
        push_u16(v, self.max_entry_count);
        push_u16(v, self.depth);
        push_u32(v, self.generation);
        assert(v@ =~= old(v)@ + self.spec_bytes());
    }
}

/// An extent is written in the ext4 layout, twelve bytes: the first logical block at offset 0, the number of
/// blocks at 4, then the first physical block, its high 16 bits at 6 and its low 32 bits at 8.
pub proof fn law_extent_layout(e: Extent)
    ensures
        e.spec_bytes().len() == 12,
        le_u32(e.spec_bytes(), 0) == e.logical_start,
        le_u16(e.spec_bytes(), 4) == e.len,
        le_u16(e.spec_bytes(), 6) * 0x1_0000_0000 + le_u32(e.spec_bytes(), 8) == e.spec_start(),
{
    let b = e.spec_bytes();
    assert(b.subrange(0, 4) =~= u32_bytes(e.logical_start));
    assert(b.subrange(4, 6) =~= u16_bytes(e.len));
    assert(b.subrange(6, 8) =~= u16_bytes(e.physical_start_hi));
    assert(b.subrange(8, 12) =~= u32_bytes(e.physical_start_lo));
    lemma_le_u32_at(b, 0, e.logical_start);
    lemma_le_u16_at(b, 4, e.len);
    lemma_le_u16_at(b, 6, e.physical_start_hi);
    lemma_le_u32_at(b, 8, e.physical_start_lo);
}

/// An index entry is written in the ext4 layout, twelve bytes: the first logical block below it at offset 0, then
/// the block of the level below, its low 32 bits at 4 and its high 16 bits at 8, and the unused field at 10.
pub proof fn law_extent_idx_layout(idx: ExtentIdx)
    ensures
        idx.spec_bytes().len() == 12,
        le_u32(idx.spec_bytes(), 0) == idx.logical_start,
        le_u32(idx.spec_bytes(), 4) + le_u16(idx.spec_bytes(), 8) * 0x1_0000_0000 == idx.spec_leaf(),
        le_u16(idx.spec_bytes(), 10) == idx.padding,
{
    let b = idx.spec_bytes();
    assert(b.subrange(0, 4) =~= u32_bytes(idx.logical_start));
    assert(b.subrange(4, 8) =~= u32_bytes(idx.leaf_lo));
    assert(b.subrange(8, 10) =~= u16_bytes(idx.leaf_hi));
    lemma_le_u32_at(b, 0, idx.logical_start);
    lemma_le_u32_at(b, 4, idx.leaf_lo);
    lemma_le_u16_at(b, 8, idx.leaf_hi);
    assert(b.subrange(10, 12) =~= u16_bytes(idx.padding));
    lemma_le_u16_at(b, 10, idx.padding);
}

/// A header is written in the ext4 layout, twelve bytes: the magic number at offset 0, the number of entries in
/// use at 2, the number of entries there is room for at 4, the depth at 6 and the generation at 8.
pub proof fn law_extent_header_layout(h: ExtentHeader)
    ensures
        h.spec_bytes().len() == 12,
        le_u16(h.spec_bytes(), 0) == h.magic,
        le_u16(h.spec_bytes(), 2) == h.valid_entry_count,
        le_u16(h.spec_bytes(), 4) == h.max_entry_count,
        le_u16(h.spec_bytes(), 6) == h.depth,
        le_u32(h.spec_bytes(), 8) == h.generation,
{
    let b = h.spec_bytes();
    assert(b.subrange(0, 2) =~= u16_bytes(h.magic));
    assert(b.subrange(2, 4) =~= u16_bytes(h.valid_entry_count));
    assert(b.subrange(4, 6) =~= u16_bytes(h.max_entry_count));
    assert(b.subrange(6, 8) =~= u16_bytes(h.depth));
    assert(b.subrange(8, 12) =~= u32_bytes(h.generation));
    lemma_le_u16_at(b, 0, h.magic);
    lemma_le_u16_at(b, 2, h.valid_entry_count);
    lemma_le_u16_at(b, 4, h.max_entry_count);
    lemma_le_u16_at(b, 6, h.depth);
    lemma_le_u32_at(b, 8, h.generation);
}

/// The number of tree blocks of the levels 1 to `k` of an extent tree over `n` extents with `per_block` entries
/// per block: level `l` has one block per `per_block^l` extents, rounded up.
pub open spec fn tree_blocks(n: int, per_block: int, k: nat) -> int
    decreases k,
{
    if k == 0 {
        0
    } else {
        tree_blocks(n, per_block, (k - 1) as nat) + ceil_div(n, pow(per_block, k))
    }
}

/// The number of extents that fit into the inode.
pub open spec fn inode_extent_capacity() -> int {
    (EXTENT_ENTRIES_IN_INODE - 1) as int
}

/// The number of levels below the inode that a tree over `n` extents needs: the smallest `k` with
/// `4 * per_block^k >= n`.
pub open spec fn is_levels_below_inode(n: int, per_block: int, k: nat) -> bool {
    &&& inode_extent_capacity() * pow(per_block, k) >= n
    &&& (k > 0 ==> inode_extent_capacity() * pow(per_block, (k - 1) as nat) < n)
}

/// The number of tree blocks that an extent tree over `n` extents needs besides the inode.
pub open spec fn spec_required_block_count(n: int, per_block: int) -> int {
    if n <= 0 {
        0
    } else {
        tree_blocks(n, per_block, choose|k: nat| is_levels_below_inode(n, per_block, k))
    }
}

/// An extent tree never takes a negative number of blocks.
pub proof fn lemma_required_block_count_nonneg(n: int, per_block: int)
    requires
        per_block > 0,
    ensures
        spec_required_block_count(n, per_block) >= 0,
{
    if n > 0 {
        lemma_tree_blocks_nonneg(n, per_block, choose|k: nat| is_levels_below_inode(n, per_block, k));
    }
}

proof fn lemma_tree_blocks_nonneg(n: int, per_block: int, k: nat)
    requires
        n > 0,
        per_block > 0,
    ensures
        tree_blocks(n, per_block, k) >= 0,
    decreases k,
{
    if k > 0 {
        lemma_tree_blocks_nonneg(n, per_block, (k - 1) as nat);
        vstd::arithmetic::power::lemma_pow_positive(per_block, k);
        let d = pow(per_block, k);
        assert(n / d >= 0) by (nonlinear_arith)
            requires
                n > 0,
                d > 0,
        ;
    }
}

/// The number of levels below the inode is unique.
proof fn lemma_levels_unique(n: int, b: int, k1: nat, k2: nat)
    requires
        b >= 2,
        is_levels_below_inode(n, b, k1),
        is_levels_below_inode(n, b, k2),
    ensures
        k1 == k2,
{
    if k1 < k2 {
        vstd::arithmetic::power::lemma_pow_increases(b as nat, k1, (k2 - 1) as nat);
    } else if k2 < k1 {
        vstd::arithmetic::power::lemma_pow_increases(b as nat, k2, (k1 - 1) as nat);
    }
}

/// The number of extent entries per tree block of size `block_size`.
pub open spec fn extents_per_block(block_size: int) -> int {
    block_size / (EXTENT_ELEMENT_SIZE as int) - 1
}

pub struct ExtentTree {
    /// The root level, stored in the inode.
    pub root: ExtentTreeLevel,
    /// The number of entries (the header included) that a block of the tree holds.
    pub entries_per_block: u16,
}

/// A level of an extent tree: its header, its entries and, for inner levels, the levels that the entries point to.
pub struct ExtentTreeLevel {
    pub header: ExtentHeader,
    /// The block that holds this level; not used for the root level.
    pub block: BlockIdx,
    pub entries: Vec<ExtentTreeElement>,
    pub children: Vec<ExtentTreeLevel>,
}

impl ExtentTree {
    /// The number of blocks that an extent tree over `extent_count` extents occupies besides the inode.
    pub fn required_block_count(extent_count: u64, block_size: BlockSize) -> (r: BlockCount)
        requires
            36 <= block_size,
            extent_count <= u32::MAX,
        ensures
            r == spec_required_block_count(extent_count as int, extents_per_block(block_size as int)),
            r <= 30 * extent_count,
            extent_count == 0 ==> r == 0,
            extent_count > 0 ==> exists|k: nat|
                is_levels_below_inode(extent_count as int, extents_per_block(block_size as int), k) && r == tree_blocks(
                    extent_count as int,
                    extents_per_block(block_size as int),
                    k,
                ),
    {
        if extent_count == 0 {
            return 0;
        }
        let per_block: u64 = (block_size as u64) / EXTENT_ELEMENT_SIZE - 1;
        let ghost b = per_block as int;
        let ghost n = extent_count as int;
        let capacity: u64 = (EXTENT_ENTRIES_IN_INODE - 1) as u64;
        // `power` is `extents_per_block^level`
        let mut power: u64 = 1;
        let mut level: u64 = 0;
        let mut result: u64 = 0;
        proof {
            vstd::arithmetic::power::lemma_pow0(b);
            vstd::arithmetic::power::lemma_pow0(2);
        }
        while capacity * power < extent_count
            invariant
                b == per_block,
                b >= 2,
                n == extent_count,
                1 <= n <= u32::MAX,
                capacity == 4,
                level <= 30,
                b <= 0x1555_5555,
                power == pow(b, level as nat),
                power >= 1,
                power <= 0x4000_0000 * 0x1555_5555,
                power >= pow(2, level as nat),
                level > 0 ==> capacity * pow(b, (level - 1) as nat) < n,
                result == tree_blocks(n, b, level as nat),
                result <= level * n,
            decreases 30 - level,
        {
            proof {
                vstd::arithmetic::power::lemma_pow_adds(b, level as nat, 1);
                vstd::arithmetic::power::lemma_pow1(b);
                vstd::arithmetic::power::lemma_pow_adds(2, level as nat, 1);
                vstd::arithmetic::power::lemma_pow1(2);
                assert(power * b < n * b) by (nonlinear_arith)
                    requires
                        4 * power < n,
                        b >= 2,
                ;
                assert(power * b >= power * 2) by (nonlinear_arith)
                    requires
                        b >= 2,
                        power >= 1,
                ;
                if level >= 30 {
                    vstd::arithmetic::power::lemma_pow_increases(2, 30, level as nat);
                    vstd::arithmetic::power2::lemma2_to64();
                    vstd::arithmetic::power2::lemma_pow2(30);
                    assert(false);
                }
                assert(power * b <= 0x4000_0000 * 0x1555_5555) by (nonlinear_arith)
                    requires
                        power < 0x4000_0000,
                        b <= 0x1555_5555,
                ;
            }
            level = level + 1;
            power = power * per_block;
            let blocks_in_level = if extent_count % power == 0 {
                extent_count / power
            } else {
                extent_count / power + 1
            };
            proof {
                assert(blocks_in_level <= n) by (nonlinear_arith)
                    requires
                        power >= 2,
                        n >= 1,
                        blocks_in_level == n / (power as int) + if n % (power as int) == 0 { 0int } else { 1int },
                ;
                assert(result + blocks_in_level <= level * n) by (nonlinear_arith)
                    requires
                        result <= (level - 1) * n,
                        blocks_in_level <= n,
                ;
                assert(level * n <= 30 * 0xFFFF_FFFF) by (nonlinear_arith)
                    requires
                        level <= 30,
                        n <= 0xFFFF_FFFF,
                ;
            }
            result = result + blocks_in_level;
        }
        proof {
            assert(extents_per_block(block_size as int) == b);
            assert(is_levels_below_inode(n, b, level as nat) && result == tree_blocks(n, b, level as nat));
            assert(level * n <= 30 * n) by (nonlinear_arith)
                requires
                    level <= 30,
                    n >= 0,
            ;
            let k = choose|k: nat| is_levels_below_inode(n, b, k);
            lemma_levels_unique(n, b, k, level as nat);
        }
        result
    }
}

} // verus!

verus! {

/// What an entry states if it is an extent.
pub open spec fn element_extent(e: ExtentTreeElement) -> ExtentView {
    match e {
        ExtentTreeElement::Extent(x) => x@,
        ExtentTreeElement::Idx(_) => (0, 0, 0),
    }
}

/// The extents in the leaves below `level`, from left to right.
pub open spec fn level_extents(level: ExtentTreeLevel) -> Seq<ExtentView>
    decreases level,
{
    if level.header.depth == 0 {
        level.entries@.map_values(|e: ExtentTreeElement| element_extent(e))
    } else {
        levels_extents(level.children@)
    }
}

/// The extents in the leaves below `levels`, from left to right.
pub open spec fn levels_extents(levels: Seq<ExtentTreeLevel>) -> Seq<ExtentView>
    decreases levels,
{
    if levels.len() == 0 {
        Seq::empty()
    } else {
        levels_extents(levels.subrange(0, levels.len() - 1)) + level_extents(levels[levels.len() - 1])
    }
}

} // verus!

verus! {

/// Whether `e` is an index entry that points to block `block`.
pub open spec fn idx_points_to(e: ExtentTreeElement, block: int) -> bool {
    match e {
        ExtentTreeElement::Idx(idx) => idx.spec_leaf() == block,
        ExtentTreeElement::Extent(_) => false,
    }
}

/// `level` is consistent: its entries agree with its header, a leaf holds extents, and an inner level holds one
/// index per child level, which lives in the block that the index names, lies one level lower and is consistent
/// too. Every level below the root has room for `per_block_max` entries.
pub open spec fn level_wf(level: ExtentTreeLevel, per_block_max: int) -> bool
    decreases level,
{
    &&& level.header.magic == EXTENT_MAGIC
    &&& level.entries@.len() == level.header.valid_entry_count
    &&& level.header.valid_entry_count <= level.header.max_entry_count
    &&& if level.header.depth == 0 {
        &&& level.children@.len() == 0
        &&& forall|i: int| 0 <= i < level.entries@.len() ==> (#[trigger] level.entries@[i]) is Extent
    } else {
        &&& level.entries@.len() > 0
        &&& levels_wf(level.children@, level.entries@, level.header.depth - 1, per_block_max)
    }
}

/// The child levels `levels` of an inner level with entries `entries` are consistent and lie at `depth`.
pub open spec fn levels_wf(levels: Seq<ExtentTreeLevel>, entries: Seq<ExtentTreeElement>, depth: int, per_block_max: int) -> bool
    decreases levels,
{
    &&& levels.len() == entries.len()
    &&& levels.len() > 0 ==> {
        &&& levels_wf(
            levels.subrange(0, levels.len() - 1),
            entries.subrange(0, entries.len() - 1),
            depth,
            per_block_max,
        )
        &&& idx_points_to(entries[entries.len() - 1], levels[levels.len() - 1].block as int)
        &&& levels[levels.len() - 1].header.depth == depth
        &&& levels[levels.len() - 1].header.max_entry_count == per_block_max
        &&& level_wf(levels[levels.len() - 1], per_block_max)
    }
}

proof fn lemma_levels_push(levels: Seq<ExtentTreeLevel>, entries: Seq<ExtentTreeElement>, e: ExtentTreeElement, l: ExtentTreeLevel, depth: int, m: int)
    ensures
        levels_extents(levels.push(l)) == levels_extents(levels) + level_extents(l),
        levels_wf(levels.push(l), entries.push(e), depth, m) == (levels_wf(levels, entries, depth, m) && idx_points_to(
            e,
            l.block as int,
        ) && l.header.depth == depth && l.header.max_entry_count == m && level_wf(l, m)),
{
    assert(levels.push(l).subrange(0, levels.len() as int) =~= levels);
    assert(entries.push(e).subrange(0, entries.len() as int) =~= entries);
}

proof fn lemma_levels_last(levels: Seq<ExtentTreeLevel>, entries: Seq<ExtentTreeElement>, depth: int, m: int)
    requires
        levels.len() > 0,
    ensures
        levels == levels.subrange(0, levels.len() - 1).push(levels[levels.len() - 1]),
        entries.len() > 0 ==> entries == entries.subrange(0, entries.len() - 1).push(entries[entries.len() - 1]),
{
    assert(levels =~= levels.subrange(0, levels.len() - 1).push(levels[levels.len() - 1]));
    if entries.len() > 0 {
        assert(entries =~= entries.subrange(0, entries.len() - 1).push(entries[entries.len() - 1]));
    }
}

/// Facts about the allocations made between `before` and `after`: the allocator kept its range and exclusions and
/// every block in `blocks` was free and handed out in between.
pub open spec fn allocated_between(before: Allocator, after: Allocator, blocks: Seq<BlockIdx>) -> bool {
    &&& after.wf()
    &&& after.spec_valid() == before.spec_valid()
    &&& after.spec_used() == before.spec_used()
    &&& after.spec_cluster_size() == before.spec_cluster_size()
    &&& before.spec_cursor() <= after.spec_cursor()
    &&& forall|i: int|
        0 <= i < blocks.len() ==> before.spec_cursor() <= #[trigger] blocks[i] < after.spec_cursor()
            && !before.spec_used().covers(blocks[i] as int)
}

impl ExtentTreeLevel {
    /// Appends `extent` to this leaf level; fails with `ExtentTreeFull` if it is full.
    pub fn append_extent(&mut self, extent: Extent) -> (r: Result<(), ConvertError>)
        requires
            level_wf(*old(self), 0),
            old(self).header.depth == 0,
        ensures
            match r {
                Ok(_) => {
                    &&& level_wf(*final(self), 0)
                    &&& final(self).header == (ExtentHeader {
                        valid_entry_count: (old(self).header.valid_entry_count + 1) as u16,
                        ..old(self).header
                    })
                    &&& final(self).block == old(self).block
                    &&& level_extents(*final(self)) == level_extents(*old(self)).push(extent@)
                    &&& old(self).header.valid_entry_count < old(self).header.max_entry_count
                },
                Err(e) => e == ConvertError::ExtentTreeFull && *final(self) == *old(self)
                    && old(self).header.valid_entry_count == old(self).header.max_entry_count,
            },
    {
        if self.header.is_full() {
            return Err(ConvertError::ExtentTreeFull);
        }
        let ghost before = self.entries@;
        self.entries.push(ExtentTreeElement::Extent(extent));
        self.header.valid_entry_count = self.header.valid_entry_count + 1;
        proof {
            assert(self.entries@.map_values(|e: ExtentTreeElement| element_extent(e)) =~= before.map_values(
                |e: ExtentTreeElement| element_extent(e),
            ).push(extent@));
        }
        Ok(())
    }

    /// Appends the index `idx` of the level `child` to this inner level; fails with `ExtentTreeFull` if it is full.
    pub fn append_extent_idx(&mut self, idx: ExtentIdx, child: ExtentTreeLevel, per_block_max: u16) -> (r: Result<
        (),
        ConvertError,
    >)
        requires
            level_wf(*old(self), per_block_max as int),
            old(self).header.depth > 0,
            idx.spec_leaf() == child.block,
            child.header.depth == old(self).header.depth - 1,
            child.header.max_entry_count == per_block_max,
            level_wf(child, per_block_max as int),
        ensures
            match r {
                Ok(_) => {
                    &&& level_wf(*final(self), per_block_max as int)
                    &&& final(self).header == (ExtentHeader {
                        valid_entry_count: (old(self).header.valid_entry_count + 1) as u16,
                        ..old(self).header
                    })
                    &&& final(self).block == old(self).block
                    &&& level_extents(*final(self)) == level_extents(*old(self)) + level_extents(child)
                },
                Err(e) => e == ConvertError::ExtentTreeFull && *final(self) == *old(self)
                    && old(self).header.valid_entry_count == old(self).header.max_entry_count,
            },
    {
        if self.header.is_full() {
            return Err(ConvertError::ExtentTreeFull);
        }
        proof {
            lemma_levels_push(
                self.children@,
                self.entries@,
                ExtentTreeElement::Idx(idx),
                child,
                self.header.depth - 1,
                per_block_max as int,
            );
        }
        self.entries.push(ExtentTreeElement::Idx(idx));
        self.children.push(child);
        self.header.valid_entry_count = self.header.valid_entry_count + 1;
        Ok(())
    }

    /// A chain of new levels from `depth` down to a leaf that holds only `extent`, each in a newly allocated block.
    /// Returns the top level and the blocks, the lowest first.
    fn new_chain(depth: u16, extent: Extent, allocator: &mut Allocator, entries_per_block: u16) -> (r: Result<
        (ExtentTreeLevel, Vec<BlockIdx>, AllocatedClusterIdx),
        ConvertError,
    >)
        requires
            old(allocator).wf(),
            entries_per_block >= 2,
        ensures
            r matches Err(e) ==> (e == ConvertError::NoFreeClusters ==> final(allocator).exhausted()),
            match r {
                Ok((level, blocks, top)) => {
                    &&& level_wf(level, entries_per_block - 1)
                    &&& top.spec_idx() == level.block
                    &&& level.header.depth == depth
                    &&& level.header.max_entry_count == entries_per_block - 1
                    &&& level_extents(level) == seq![extent@]
                    &&& blocks@.len() == depth + 1
                    &&& blocks@[depth as int] == level.block
                    &&& allocated_between(*old(allocator), *final(allocator), blocks@)
                    &&& blocks@.no_duplicates()
                },
                Err(e) => e == ConvertError::NoFreeClusters && allocated_between(
                    *old(allocator),
                    *final(allocator),
                    Seq::empty(),
                ),
            },
            r is Err ==> old(allocator).free_clusters() < depth + 1,
        decreases depth,
    {
        let block = match allocator.allocate_one() {
            Ok(b) => b,
            Err(e) => {
                return Err(e);
            },
        };
        let block_idx = block.as_block_idx();
        let header = ExtentHeader { depth, ..ExtentHeader::new(entries_per_block) };
        if depth == 0 {
            let mut level = ExtentTreeLevel { header, block: block_idx, entries: Vec::new(), children: Vec::new() };
            proof {
                assert(level.entries@.map_values(|e: ExtentTreeElement| element_extent(e)) =~= Seq::<
                    ExtentView,
                >::empty());
            }
            let appended = level.append_extent(extent);
            let mut blocks: Vec<BlockIdx> = Vec::new();
            blocks.push(block_idx);
            proof {
                assert(level_extents(level) =~= seq![extent@]);
                assert(blocks@[0] == block_idx);
                assert(blocks@.len() == 1);
            }
            Ok((level, blocks, block))
        } else {
            let ghost mid = *allocator;
            let (child, mut blocks, child_block) = match Self::new_chain(depth - 1, extent, allocator, entries_per_block) {
                Ok(x) => x,
                Err(e) => {
                    return Err(e);
                },
            };
            let idx = ExtentIdx::new(extent.logical_start, &child_block);
            let mut entries: Vec<ExtentTreeElement> = Vec::new();
            entries.push(ExtentTreeElement::Idx(idx));
            let mut children: Vec<ExtentTreeLevel> = Vec::new();
            children.push(child);
            let level = ExtentTreeLevel {
                header: ExtentHeader { valid_entry_count: 1, ..header },
                block: block_idx,
                entries,
                children,
            };
            proof {
                lemma_levels_push(
                    Seq::empty(),
                    Seq::empty(),
                    ExtentTreeElement::Idx(idx),
                    child,
                    depth - 1,
                    entries_per_block - 1,
                );
                assert(Seq::<ExtentTreeLevel>::empty().push(child) =~= level.children@);
                assert(Seq::<ExtentTreeElement>::empty().push(ExtentTreeElement::Idx(idx)) =~= level.entries@);
                assert(levels_extents(Seq::<ExtentTreeLevel>::empty()) =~= Seq::<ExtentView>::empty());
                assert(level_extents(level) =~= seq![extent@]);
            }
            let ghost child_blocks = blocks@;
            blocks.push(block_idx);
            proof {
                assert(blocks@ == child_blocks.push(block_idx));
                assert forall|i: int| 0 <= i < blocks@.len() implies old(allocator).spec_cursor() <= #[trigger] blocks@[i]
                    < allocator.spec_cursor() && !old(allocator).spec_used().covers(blocks@[i] as int) by {
                    if i < child_blocks.len() {
                        assert(child_blocks[i] == blocks@[i]);
                    }
                }
                assert forall|i: int, j: int| 0 <= i < blocks@.len() && 0 <= j < blocks@.len() && i != j implies blocks@[i]
                    != blocks@[j] by {
                    if i < child_blocks.len() && j < child_blocks.len() {
                        assert(child_blocks[i] == blocks@[i] && child_blocks[j] == blocks@[j]);
                    } else if i < child_blocks.len() {
                        assert(child_blocks[i] == blocks@[i]);
                        assert(mid.spec_cursor() <= child_blocks[i]);
                    } else {
                        assert(child_blocks[j] == blocks@[j]);
                        assert(mid.spec_cursor() <= child_blocks[j]);
                    }
                }
            }
            Ok((level, blocks, block))
        }
    }
}


/// Whether the last leaf below `level`, the one that the next extent goes into, has room for one more extent.
pub open spec fn last_leaf_has_room(level: ExtentTreeLevel) -> bool
    decreases level,
{
    if level.header.depth == 0 {
        level.header.valid_entry_count < level.header.max_entry_count
    } else if level.children@.len() == 0 {
        false
    } else {
        last_leaf_has_room(level.children@[level.children@.len() - 1])
    }
}

/// `after` is a consistent level with the header, block and extents of `before`.
pub open spec fn same_extents(before: ExtentTreeLevel, after: ExtentTreeLevel, m: int) -> bool {
    &&& level_wf(after, m)
    &&& after.header == before.header
    &&& after.block == before.block
    &&& level_extents(after) == level_extents(before)
}

impl ExtentTreeLevel {
    /// Adds `extent` below this level, after every extent already there. Returns the blocks newly allocated for the
    /// tree, or fails, leaving the level as it was, if every level below it is full or no block is left.
    pub fn add_extent(&mut self, extent: Extent, allocator: &mut Allocator, entries_per_block: u16) -> (r: Result<
        Vec<BlockIdx>,
        ConvertError,
    >)
        requires
            level_wf(*old(self), entries_per_block - 1),
            old(allocator).wf(),
            entries_per_block >= 2,
        ensures
            r matches Err(e) ==> (e == ConvertError::NoFreeClusters ==> final(allocator).exhausted()),
            match r {
                Ok(blocks) => {
                    &&& level_wf(*final(self), entries_per_block - 1)
                    &&& final(self).header.depth == old(self).header.depth
                    &&& final(self).header.max_entry_count == old(self).header.max_entry_count
                    &&& final(self).header.magic == old(self).header.magic
                    &&& final(self).block == old(self).block
                    &&& level_extents(*final(self)) == level_extents(*old(self)).push(extent@)
                    &&& allocated_between(*old(allocator), *final(allocator), blocks@)
                },
                Err(e) => {
                    &&& same_extents(*old(self), *final(self), entries_per_block - 1)
                    &&& (e == ConvertError::ExtentTreeFull || e == ConvertError::NoFreeClusters)
                    &&& allocated_between(*old(allocator), *final(allocator), Seq::empty())
                },
            },
            last_leaf_has_room(*old(self)) ==> (r matches Ok(blocks) && blocks@.len() == 0),
            !last_leaf_has_room(*old(self)) ==> (r matches Ok(blocks) ==> blocks@.len() > 0),
            r == Err::<Vec<BlockIdx>, ConvertError>(ConvertError::ExtentTreeFull) ==> old(self).header.valid_entry_count
                == old(self).header.max_entry_count,
            r == Err::<Vec<BlockIdx>, ConvertError>(ConvertError::ExtentTreeFull) ==> *final(allocator) == *old(allocator)
                || old(allocator).free_clusters() < old(self).header.depth,
            r == Err::<Vec<BlockIdx>, ConvertError>(ConvertError::NoFreeClusters) ==> old(allocator).free_clusters()
                < old(self).header.depth,
            r matches Ok(blocks) ==> blocks@.no_duplicates(),
        decreases old(self).header.depth,
    {
        if self.header.is_leaf() {
            // if this does not work, there is nothing a leaf can do about it
            return match self.append_extent(extent) {
                Ok(_) => Ok(Vec::new()),
                Err(e) => Err(e),
            };
        }
        // not a leaf: try to append to the last child
        proof {
            lemma_levels_last(self.children@, self.entries@, self.header.depth - 1, entries_per_block - 1);
        }
        let ghost old_children = self.children@;
        let mut child = match self.children.pop() {
            Some(c) => c,
            None => {
                // an inner level has at least one child
                proof {
                    assert(old_children.len() == self.entries@.len());
                }
                return Err(ConvertError::ExtentTreeFull);
            },
        };
        let ghost rest = self.children@;
        let ghost old_child = child;
        let ghost entries = self.entries@;
        proof {
            assert(rest == old_children.subrange(0, old_children.len() - 1));
        }
        let ghost mut child_full = false;
        match child.add_extent(extent, allocator, entries_per_block) {
            Ok(blocks) => {
                proof {
                    lemma_levels_push(
                        rest,
                        entries.subrange(0, entries.len() - 1),
                        entries[entries.len() - 1],
                        child,
                        self.header.depth - 1,
                        entries_per_block - 1,
                    );
                    lemma_levels_push(
                        rest,
                        entries.subrange(0, entries.len() - 1),
                        entries[entries.len() - 1],
                        old_child,
                        self.header.depth - 1,
                        entries_per_block - 1,
                    );
                }
                self.children.push(child);
                proof {
                    assert(self.entries@ == entries.subrange(0, entries.len() - 1).push(entries[entries.len() - 1]));
                    assert(old_child == old_children[old_children.len() - 1]);
                    assert(old_children == rest.push(old_child));
                    assert(self.children@ == rest.push(child));
                    assert(levels_extents(self.children@) =~= levels_extents(old_children).push(extent@));
                }
                return Ok(blocks);
            },
            Err(e) => {
                proof {
                    child_full = e == ConvertError::ExtentTreeFull;
                    lemma_levels_push(
                        rest,
                        entries.subrange(0, entries.len() - 1),
                        entries[entries.len() - 1],
                        child,
                        self.header.depth - 1,
                        entries_per_block - 1,
                    );
                    lemma_levels_push(
                        rest,
                        entries.subrange(0, entries.len() - 1),
                        entries[entries.len() - 1],
                        old_child,
                        self.header.depth - 1,
                        entries_per_block - 1,
                    );
                    assert(old_child == old_children[old_children.len() - 1]);
                    assert(old_children == rest.push(old_child));
                    assert(self.entries@ == entries.subrange(0, entries.len() - 1).push(entries[entries.len() - 1]));
                }
                self.children.push(child);
                proof {
                    assert(self.children@ == rest.push(child));
                }
            },
        }
        let ghost at_call = *self;
        let ghost after_child = *allocator;
        proof {
            assert(old_child.header.depth == old(self).header.depth - 1);
            assert(child_full ==> *allocator == *old(allocator) || old(allocator).free_clusters() < old(self).header.depth
                - 1);
            assert(!child_full ==> old(allocator).free_clusters() < old(self).header.depth - 1);
        }
        // every leaf below the last child is full: add a new path down to a new leaf
        let r = self.add_extent_with_new_leaf(extent, allocator, entries_per_block);
        proof {
            if r is Ok {
                let blocks = r->Ok_0;
                assert forall|i: int| 0 <= i < blocks@.len() implies old(allocator).spec_cursor() <= #[trigger] blocks@[i]
                    < allocator.spec_cursor() && !old(allocator).spec_used().covers(blocks@[i] as int) by {
                    assert(after_child.spec_cursor() <= blocks@[i]);
                }
            }
        }
        r
    }

    /// Adds a new path of levels below this inner level, down to a new leaf that holds `extent`.
    fn add_extent_with_new_leaf(&mut self, extent: Extent, allocator: &mut Allocator, entries_per_block: u16) -> (r:
        Result<Vec<BlockIdx>, ConvertError>)
        requires
            level_wf(*old(self), entries_per_block - 1),
            old(self).header.depth > 0,
            old(allocator).wf(),
            entries_per_block >= 2,
        ensures
            r matches Err(e) ==> (e == ConvertError::NoFreeClusters ==> final(allocator).exhausted()),
            match r {
                Ok(blocks) => {
                    &&& level_wf(*final(self), entries_per_block - 1)
                    &&& final(self).header.depth == old(self).header.depth
                    &&& final(self).header.max_entry_count == old(self).header.max_entry_count
                    &&& final(self).header.magic == old(self).header.magic
                    &&& final(self).block == old(self).block
                    &&& level_extents(*final(self)) == level_extents(*old(self)).push(extent@)
                    &&& allocated_between(*old(allocator), *final(allocator), blocks@)
                },
                Err(e) => {
                    &&& same_extents(*old(self), *final(self), entries_per_block - 1)
                    &&& (e == ConvertError::ExtentTreeFull || e == ConvertError::NoFreeClusters)
                    &&& allocated_between(*old(allocator), *final(allocator), Seq::empty())
                },
            },
            r == Err::<Vec<BlockIdx>, ConvertError>(ConvertError::ExtentTreeFull) ==> old(self).header.valid_entry_count
                == old(self).header.max_entry_count && *final(allocator) == *old(allocator),
            r matches Ok(blocks) ==> blocks@.len() > 0,
            r == Err::<Vec<BlockIdx>, ConvertError>(ConvertError::NoFreeClusters) ==> old(allocator).free_clusters()
                < old(self).header.depth,
            r matches Ok(blocks) ==> blocks@.no_duplicates(),
    {
        if self.header.is_full() {
            return Err(ConvertError::ExtentTreeFull);
        }
        let (child, blocks, child_block) = match ExtentTreeLevel::new_chain(
            self.header.depth - 1,
            extent,
            allocator,
            entries_per_block,
        ) {
            Ok(x) => x,
            Err(e) => {
                return Err(e);
            },
        };
        let idx = ExtentIdx::new(extent.logical_start, &child_block);
        let appended = self.append_extent_idx(idx, child, entries_per_block - 1);
        Ok(blocks)
    }
}

impl ExtentTree {
    /// The extents of the tree, from left to right.
    pub open spec fn spec_extents(&self) -> Seq<ExtentView> {
        level_extents(self.root)
    }

    /// The root lies in the inode and holds `EXTENT_ENTRIES_IN_INODE - 1` entries; every other level fills a block.
    pub open spec fn wf(&self) -> bool {
        &&& 2 <= self.entries_per_block
        &&& EXTENT_ENTRIES_IN_INODE <= self.entries_per_block
        &&& self.root.header.max_entry_count == EXTENT_ENTRIES_IN_INODE - 1
        &&& level_wf(self.root, self.entries_per_block - 1)
    }

    /// An empty tree for a filesystem with blocks of `block_size` bytes.
    pub fn new(block_size: BlockSize) -> (r: Self)
        requires
            block_size >= EXTENT_ENTRIES_IN_INODE * EXTENT_ELEMENT_SIZE,
        ensures
            r.wf(),
            r.spec_extents() == Seq::<ExtentView>::empty(),
            r.entries_per_block == (if (block_size as int) / (EXTENT_ELEMENT_SIZE as int) < MAX_EXTENT_ENTRIES_PER_BLOCK {
                (block_size as int) / (EXTENT_ELEMENT_SIZE as int)
            } else {
                MAX_EXTENT_ENTRIES_PER_BLOCK as int
            }),
    {
        let per_block = (block_size as u64) / EXTENT_ELEMENT_SIZE;
        let entries_per_block = if per_block < MAX_EXTENT_ENTRIES_PER_BLOCK {
            per_block as u16
        } else {
            MAX_EXTENT_ENTRIES_PER_BLOCK as u16
        };
        let root = ExtentTreeLevel {
            header: ExtentHeader::new(EXTENT_ENTRIES_IN_INODE),
            block: 0,
            entries: Vec::new(),
            children: Vec::new(),
        };
        proof {
            assert(root.entries@.map_values(|e: ExtentTreeElement| element_extent(e)) =~= Seq::<ExtentView>::empty());
        }
        ExtentTree { root, entries_per_block }
    }

    /// Adds `extent` after every extent of the tree, making the tree one level deeper if it is full. Returns the
    /// blocks newly allocated for the tree. Fails, with the extents of the tree unchanged, if no block is left or
    /// the tree cannot grow deeper.
    pub fn add_extent(&mut self, extent: Extent, allocator: &mut Allocator) -> (r: Result<Vec<BlockIdx>, ConvertError>)
        requires
            old(self).wf(),
            old(allocator).wf(),
        ensures
            r matches Err(e) ==> (e == ConvertError::NoFreeClusters ==> final(allocator).exhausted()),
            final(self).wf(),
            final(self).entries_per_block == old(self).entries_per_block,
            match r {
                Ok(blocks) => {
                    &&& final(self).spec_extents() == old(self).spec_extents().push(extent@)
                    &&& allocated_between(*old(allocator), *final(allocator), blocks@)
                },
                Err(e) => {
                    &&& final(self).spec_extents() == old(self).spec_extents()
                    &&& (e == ConvertError::ExtentTreeFull || e == ConvertError::NoFreeClusters)
                    &&& allocated_between(*old(allocator), *final(allocator), Seq::empty())
                },
            },
            last_leaf_has_room(old(self).root) ==> (r matches Ok(blocks) && blocks@.len() == 0),
            !last_leaf_has_room(old(self).root) ==> (r matches Ok(blocks) ==> blocks@.len() > 0),
            r == Err::<Vec<BlockIdx>, ConvertError>(ConvertError::ExtentTreeFull) ==> old(self).root.header.depth
                == u16::MAX,
            old(self).root.header.depth < u16::MAX && old(allocator).free_clusters() >= old(self).root.header.depth + 2
                ==> r is Ok,
            r matches Ok(blocks) ==> blocks@.no_duplicates(),
    {
        match self.root.add_extent(extent, allocator, self.entries_per_block) {
            Ok(blocks) => Ok(blocks),
            Err(_) => {
                let ghost mid = *allocator;
                let block_for_previous_root = match self.make_deeper(allocator) {
                    Ok(b) => b,
                    Err(e) => {
                        return Err(e);
                    },
                };
                let ghost mid2 = *allocator;
                let mut blocks = match self.root.add_extent(extent, allocator, self.entries_per_block) {
                    Ok(b) => b,
                    Err(e) => {
                        return Err(e);
                    },
                };
                let ghost added = blocks@;
                blocks.push(block_for_previous_root);
                proof {
                    assert forall|i: int, j: int| 0 <= i < blocks@.len() && 0 <= j < blocks@.len() && i != j implies blocks@[i]
                        != blocks@[j] by {
                        if i < added.len() && j < added.len() {
                            assert(added[i] == blocks@[i] && added[j] == blocks@[j]);
                        } else if i < added.len() {
                            assert(added[i] == blocks@[i]);
                            assert(mid2.spec_cursor() <= added[i]);
                            assert(seq![block_for_previous_root][0] == block_for_previous_root);
                        } else {
                            assert(added[j] == blocks@[j]);
                            assert(mid2.spec_cursor() <= added[j]);
                            assert(seq![block_for_previous_root][0] == block_for_previous_root);
                        }
                    }
                    assert forall|i: int| 0 <= i < blocks@.len() implies old(allocator).spec_cursor() <= #[trigger] blocks@[i]
                        < allocator.spec_cursor() && !old(allocator).spec_used().covers(blocks@[i] as int) by {
                        if i < added.len() {
                            assert(added[i] == blocks@[i]);
                        } else {
                            assert(blocks@[i] == block_for_previous_root);
                            assert(seq![block_for_previous_root][0] == block_for_previous_root);
                        }
                    }
                }
                Ok(blocks)
            },
        }
    }

    /// Moves the root level into a newly allocated block and makes the root an inner level with that block as its
    /// only child. Returns the block.
    fn make_deeper(&mut self, allocator: &mut Allocator) -> (r: Result<BlockIdx, ConvertError>)
        requires
            old(self).wf(),
            old(allocator).wf(),
        ensures
            r matches Err(e) ==> (e == ConvertError::NoFreeClusters ==> final(allocator).exhausted()),
            final(self).wf(),
            final(self).entries_per_block == old(self).entries_per_block,
            final(self).spec_extents() == old(self).spec_extents(),
            match r {
                Ok(block) => allocated_between(*old(allocator), *final(allocator), seq![block]),
                Err(e) => (e == ConvertError::ExtentTreeFull || e == ConvertError::NoFreeClusters) && allocated_between(
                    *old(allocator),
                    *final(allocator),
                    Seq::empty(),
                ),
            },
            r is Ok ==> final(self).root.header.valid_entry_count < final(self).root.header.max_entry_count,
            r is Ok ==> final(self).root.header.depth == old(self).root.header.depth + 1,
            r is Ok ==> final(allocator).free_clusters() == old(allocator).free_clusters() - 1,
            r == Err::<BlockIdx, ConvertError>(ConvertError::ExtentTreeFull) ==> old(self).root.header.depth == u16::MAX,
            r == Err::<BlockIdx, ConvertError>(ConvertError::NoFreeClusters) ==> old(allocator).free_clusters() == 0,
    {
        if self.root.header.depth == u16::MAX {
            return Err(ConvertError::ExtentTreeFull);
        }
        let new_block = match allocator.allocate_one() {
            Ok(b) => b,
            Err(e) => {
                return Err(e);
            },
        };
        let block_idx = new_block.as_block_idx();
        let old_header = self.root.header;
        let mut entries: Vec<ExtentTreeElement> = Vec::new();
        std::mem::swap(&mut entries, &mut self.root.entries);
        let mut children: Vec<ExtentTreeLevel> = Vec::new();
        std::mem::swap(&mut children, &mut self.root.children);
        let moved = ExtentTreeLevel {
            header: ExtentHeader { max_entry_count: self.entries_per_block - 1, ..old_header },
            block: block_idx,
            entries,
            children,
        };
        let idx = ExtentIdx::new(0, &new_block);
        let mut root_entries: Vec<ExtentTreeElement> = Vec::new();
        root_entries.push(ExtentTreeElement::Idx(idx));
        let mut root_children: Vec<ExtentTreeLevel> = Vec::new();
        root_children.push(moved);
        let new_header = ExtentHeader::from_child(old_header, EXTENT_ENTRIES_IN_INODE);
        let root = ExtentTreeLevel {
            header: ExtentHeader { valid_entry_count: 1, ..new_header },
            block: 0,
            entries: root_entries,
            children: root_children,
        };
        proof {
            lemma_level_wf_max(old(self).root, moved, self.entries_per_block - 1);
            lemma_levels_push(
                Seq::empty(),
                Seq::empty(),
                ExtentTreeElement::Idx(idx),
                moved,
                old_header.depth as int,
                self.entries_per_block - 1,
            );
            assert(Seq::<ExtentTreeLevel>::empty().push(moved) =~= root.children@);
            assert(Seq::<ExtentTreeElement>::empty().push(ExtentTreeElement::Idx(idx)) =~= root.entries@);
            assert(levels_extents(Seq::<ExtentTreeLevel>::empty()) =~= Seq::<ExtentView>::empty());
            assert(level_extents(root) =~= level_extents(moved));
        }
        self.root = root;
        Ok(block_idx)
    }
}

/// A level stays consistent and keeps its extents when only its own capacity grows.
proof fn lemma_level_wf_max(before: ExtentTreeLevel, after: ExtentTreeLevel, m: int)
    requires
        level_wf(before, m),
        after.entries == before.entries,
        after.children == before.children,
        after.header.magic == before.header.magic,
        after.header.valid_entry_count == before.header.valid_entry_count,
        after.header.depth == before.header.depth,
        after.header.max_entry_count >= before.header.max_entry_count,
    ensures
        level_wf(after, m),
        level_extents(after) == level_extents(before),
{
}


/// The on-disk encoding of an entry after a level's header.
pub open spec fn element_bytes(e: ExtentTreeElement) -> Seq<u8> {
    match e {
        ExtentTreeElement::Idx(idx) => idx.spec_bytes(),
        ExtentTreeElement::Extent(x) => x.spec_bytes(),
    }
}

/// The encodings of `entries`, one after the other.
pub open spec fn elements_bytes(entries: Seq<ExtentTreeElement>) -> Seq<u8>
    decreases entries.len(),
{
    if entries.len() == 0 {
        Seq::empty()
    } else {
        elements_bytes(entries.drop_last()) + element_bytes(entries.last())
    }
}

/// The encoding of `level` in `len` bytes: its header, its entries, then zeros.
pub open spec fn level_bytes(level: ExtentTreeLevel, len: int) -> Seq<u8> {
    let content = level.header.spec_bytes() + elements_bytes(level.entries@);
    content + Seq::new((len - content.len()) as nat, |i: int| 0u8)
}

/// Every entry of a level takes twelve bytes.
pub proof fn lemma_element_bytes_len(e: ExtentTreeElement)
    ensures
        element_bytes(e).len() == 12,
{
    match e {
        ExtentTreeElement::Idx(idx) => law_extent_idx_layout(idx),
        ExtentTreeElement::Extent(x) => law_extent_layout(x),
    }
}

/// The entries are written one after the other, entry `i` in the twelve bytes from `12 * i` on.
pub proof fn lemma_elements_bytes(entries: Seq<ExtentTreeElement>)
    ensures
        elements_bytes(entries).len() == 12 * entries.len(),
        forall|i: int|
            0 <= i < entries.len() ==> elements_bytes(entries).subrange(12 * i, 12 * i + 12) == element_bytes(
                #[trigger] entries[i],
            ),
    decreases entries.len(),
{
    if entries.len() > 0 {
        let front = entries.drop_last();
        lemma_elements_bytes(front);
        lemma_element_bytes_len(entries.last());
        let b = elements_bytes(entries);
        assert forall|i: int| 0 <= i < entries.len() implies b.subrange(12 * i, 12 * i + 12) == element_bytes(
            #[trigger] entries[i],
        ) by {
            if i < front.len() {
                assert(front[i] == entries[i]);
                assert(b.subrange(12 * i, 12 * i + 12) =~= elements_bytes(front).subrange(12 * i, 12 * i + 12));
            } else {
                assert(b.subrange(12 * i, 12 * i + 12) =~= element_bytes(entries.last()));
            }
        }
    }
}

/// A level of an extent tree is written in the ext4 layout: its header in the first twelve bytes, then its entries
/// in their order, twelve bytes each, then zeros up to the length of the block or of the inode's tree area.
pub proof fn law_level_layout(level: ExtentTreeLevel, len: int, i: int)
    requires
        12 + 12 * level.entries@.len() <= len,
    ensures
        level_bytes(level, len).len() == len,
        level_bytes(level, len).subrange(0, 12) == level.header.spec_bytes(),
        0 <= i < level.entries@.len() ==> level_bytes(level, len).subrange(12 + 12 * i, 24 + 12 * i) == element_bytes(
            level.entries@[i],
        ),
        12 + 12 * level.entries@.len() <= i < len ==> level_bytes(level, len)[i] == 0,
{
    let es = level.entries@;
    lemma_elements_bytes(es);
    law_extent_header_layout(level.header);
    let h = level.header.spec_bytes();
    let e = elements_bytes(es);
    let b = level_bytes(level, len);
    assert(b.subrange(0, 12) =~= h);
    if 0 <= i < es.len() {
        assert(e.subrange(12 * i, 12 * i + 12) == element_bytes(es[i]));
        assert(b.subrange(12 + 12 * i, 24 + 12 * i) =~= e.subrange(12 * i, 12 * i + 12));
    }
}

/// The blocks of the levels below `level`, each with its encoding, parents before their children.
pub open spec fn level_blocks(level: ExtentTreeLevel, block_size: int) -> Seq<(BlockIdx, Seq<u8>)>
    decreases level,
{
    if level.header.depth == 0 {
        Seq::empty()
    } else {
        levels_blocks(level.children@, block_size)
    }
}

/// The blocks of `levels` and of the levels below them, in order.
pub open spec fn levels_blocks(levels: Seq<ExtentTreeLevel>, block_size: int) -> Seq<(BlockIdx, Seq<u8>)>
    decreases levels,
{
    if levels.len() == 0 {
        Seq::empty()
    } else {
        let last = levels[levels.len() - 1];
        levels_blocks(levels.subrange(0, levels.len() - 1), block_size) + seq![(last.block, level_bytes(last, block_size))]
            + level_blocks(last, block_size)
    }
}

/// An element's encoding takes `EXTENT_ELEMENT_SIZE` bytes.
proof fn lemma_elements_bytes_len(entries: Seq<ExtentTreeElement>)
    ensures
        elements_bytes(entries).len() == entries.len() * EXTENT_ELEMENT_SIZE,
    decreases entries.len(),
{
    if entries.len() > 0 {
        lemma_elements_bytes_len(entries.drop_last());
    }
}

/// Appends the encodings of `entries`.
fn push_elements(v: &mut Vec<u8>, entries: &Vec<ExtentTreeElement>)
    ensures
        final(v)@ == old(v)@ + elements_bytes(entries@),
{
    let mut i: usize = 0;
    while i < entries.len()
        invariant
            i <= entries@.len(),
            v@ == old(v)@ + elements_bytes(entries@.subrange(0, i as int)),
        decreases entries@.len() - i,
    {
        let ghost before = v@;
        match &entries[i] {
            ExtentTreeElement::Idx(idx) => idx.push_bytes(v),
            ExtentTreeElement::Extent(x) => x.push_bytes(v),
        }
        proof {
            assert(entries@.subrange(0, i + 1).drop_last() =~= entries@.subrange(0, i as int));
            assert(v@ =~= old(v)@ + elements_bytes(entries@.subrange(0, i + 1)));
        }
        i += 1;
    }
    assert(entries@.subrange(0, entries@.len() as int) =~= entries@);
}

impl ExtentTreeLevel {
    /// The encoding of this level in `len` bytes: header, entries, zeros.
    pub fn to_bytes(&self, len: usize) -> (r: Vec<u8>)
        requires
            (self.entries@.len() + 1) * EXTENT_ELEMENT_SIZE <= len,
        ensures
            r@ == level_bytes(*self, len as int),
            r@.len() == len,
    {
        let mut v: Vec<u8> = Vec::new();
        self.header.push_bytes(&mut v);
        push_elements(&mut v, &self.entries);
        proof {
            lemma_elements_bytes_len(self.entries@);
        }
        let content_len = v.len();
        let mut i: usize = content_len;
        while i < len
            invariant
                content_len <= i <= len,
                content_len == (self.header.spec_bytes() + elements_bytes(self.entries@)).len(),
                v@ == self.header.spec_bytes() + elements_bytes(self.entries@) + Seq::new(
                    (i - content_len) as nat,
                    |j: int| 0u8,
                ),
            decreases len - i,
        {
            v.push(0u8);
            i += 1;
            assert(v@ =~= self.header.spec_bytes() + elements_bytes(self.entries@) + Seq::new(
                (i - content_len) as nat,
                |j: int| 0u8,
            ));
        }
        v
    }

    /// Appends the blocks of the levels below this level, each with its encoding in `block_size` bytes.
    pub fn collect_blocks(&self, block_size: usize, out: &mut Vec<(BlockIdx, Vec<u8>)>)
        requires
            level_wf(*self, (block_size / EXTENT_ELEMENT_SIZE as usize) as int - 1),
        ensures
            final(out)@.map_values(|b: (BlockIdx, Vec<u8>)| (b.0, b.1@)) == old(out)@.map_values(
                |b: (BlockIdx, Vec<u8>)| (b.0, b.1@),
            ) + level_blocks(*self, block_size as int),
        decreases *self,
    {
        if self.header.depth == 0 {
            proof {
                assert(out@.map_values(|b: (BlockIdx, Vec<u8>)| (b.0, b.1@)) =~= out@.map_values(
                    |b: (BlockIdx, Vec<u8>)| (b.0, b.1@),
                ) + Seq::<(BlockIdx, Seq<u8>)>::empty());
            }
            return;
        }
        let mut i: usize = 0;
        while i < self.children.len()
            invariant
                i <= self.children@.len(),
                self.header.depth > 0,
                levels_wf(self.children@, self.entries@, self.header.depth - 1, (block_size / EXTENT_ELEMENT_SIZE as usize) as int - 1),
                out@.map_values(|b: (BlockIdx, Vec<u8>)| (b.0, b.1@)) == old(out)@.map_values(
                    |b: (BlockIdx, Vec<u8>)| (b.0, b.1@),
                ) + levels_blocks(self.children@.subrange(0, i as int), block_size as int),
            decreases self.children@.len() - i,
        {
            let child = &self.children[i];
            proof {
                lemma_levels_wf_at(self.children@, self.entries@, self.header.depth - 1, (block_size / EXTENT_ELEMENT_SIZE as usize) as int - 1, i as int);
                lemma_elements_len_bound(*child, (block_size / EXTENT_ELEMENT_SIZE as usize) as int - 1);
                assert((child.entries@.len() + 1) * 12 <= block_size) by (nonlinear_arith)
                    requires
                        child.entries@.len() <= block_size / 12 - 1,
                ;
            }
            let bytes = child.to_bytes(block_size);
            let ghost before = out@.map_values(|b: (BlockIdx, Vec<u8>)| (b.0, b.1@));
            out.push((child.block, bytes));
            proof {
                assert(out@.map_values(|b: (BlockIdx, Vec<u8>)| (b.0, b.1@)) =~= before.push((child.block, bytes@)));
            }
            child.collect_blocks(block_size, out);
            proof {
                let s = self.children@.subrange(0, i + 1);
                assert(s.subrange(0, i as int) =~= self.children@.subrange(0, i as int));
                assert(s[i as int] == *child);
                assert(out@.map_values(|b: (BlockIdx, Vec<u8>)| (b.0, b.1@)) =~= old(out)@.map_values(
                    |b: (BlockIdx, Vec<u8>)| (b.0, b.1@),
                ) + levels_blocks(s, block_size as int));
            }
            i += 1;
        }
        proof {
            assert(self.children@.subrange(0, self.children@.len() as int) =~= self.children@);
        }
    }
}

/// The `i`-th child of a consistent inner level is consistent, has the lower depth and the block capacity.
proof fn lemma_levels_wf_at(levels: Seq<ExtentTreeLevel>, entries: Seq<ExtentTreeElement>, depth: int, m: int, i: int)
    requires
        levels_wf(levels, entries, depth, m),
        0 <= i < levels.len(),
    ensures
        level_wf(levels[i], m),
        levels[i].header.depth == depth,
        levels[i].header.max_entry_count == m,
        idx_points_to(entries[i], levels[i].block as int),
    decreases levels.len(),
{
    if i < levels.len() - 1 {
        lemma_levels_wf_at(levels.subrange(0, levels.len() - 1), entries.subrange(0, entries.len() - 1), depth, m, i);
    }
}

proof fn lemma_elements_len_bound(level: ExtentTreeLevel, m: int)
    requires
        level_wf(level, m),
        level.header.max_entry_count == m,
    ensures
        level.entries@.len() <= m,
{
}

impl ExtentTree {
    /// The encoding of the root level, which the inode holds.
    pub fn root_bytes(&self) -> (r: Vec<u8>)
        requires
            self.wf(),
        ensures
            r@ == level_bytes(self.root, (EXTENT_ENTRIES_IN_INODE * EXTENT_ELEMENT_SIZE) as int),
            r@.len() == EXTENT_ENTRIES_IN_INODE * EXTENT_ELEMENT_SIZE,
    {
        self.root.to_bytes((EXTENT_ENTRIES_IN_INODE as u64 * EXTENT_ELEMENT_SIZE) as usize)
    }

    /// The blocks that hold the levels below the root, each with its encoding in `block_size` bytes.
    pub fn blocks(&self, block_size: usize) -> (r: Vec<(BlockIdx, Vec<u8>)>)
        requires
            self.wf(),
            self.entries_per_block == block_size / EXTENT_ELEMENT_SIZE as usize,
        ensures
            r@.map_values(|b: (BlockIdx, Vec<u8>)| (b.0, b.1@)) == level_blocks(self.root, block_size as int),
    {
        let mut out: Vec<(BlockIdx, Vec<u8>)> = Vec::new();
        proof {
            assert(out@.map_values(|b: (BlockIdx, Vec<u8>)| (b.0, b.1@)) =~= Seq::<(BlockIdx, Seq<u8>)>::empty());
        }
        self.root.collect_blocks(block_size, &mut out);
        proof {
            assert(Seq::<(BlockIdx, Seq<u8>)>::empty() + level_blocks(self.root, block_size as int) =~= level_blocks(
                self.root,
                block_size as int,
            ));
        }
        out
    }
}
} // verus!
