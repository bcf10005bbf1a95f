use vstd::prelude::*;
use crate::error::ConvertError;
use crate::fat::dentry::{parsed_dentry, parsed_lfn, FatDentry, FatPseudoDentry, LongFileName, lfn_chars, take_until_nul, ucs2_utf8};
use crate::fat::fs::{chain, chain_ok, DataClusterRange, FatFs};
use crate::fat::table_index::{DataClusterIdx, FatTableIndex, FAT_END_OF_CHAIN, ROOT_FAT_IDX};

verus! {

/// A file found in a FAT directory: its name, its directory entry, and its data clusters.
pub struct FatFile {
    pub name: Vec<u8>,
    pub dentry: FatDentry,
    pub data_ranges: Vec<DataClusterRange>,
}

/// The byte offsets in the partition of the directory slots of the data cluster with FAT index `c`.
pub open spec fn cluster_slot_offsets(fs: FatFs, c: u32) -> Seq<int> {
    Seq::new(
        (fs.spec_boot_sector().spec_cluster_size() / 32) as nat,
        |k: int| fs.spec_data_cluster_start(c - ROOT_FAT_IDX) + 32 * k,
    )
}

/// The byte offsets of the directory slots of the clusters of a chain, in order.
pub open spec fn dir_slot_offsets(fs: FatFs, clusters: Seq<u32>) -> Seq<int>
    decreases clusters.len(),
{
    if clusters.len() == 0 {
        Seq::empty()
    } else {
        cluster_slot_offsets(fs, clusters[0]) + dir_slot_offsets(fs, clusters.skip(1))
    }
}

/// The slot at `off` was deleted, or it is a directory entry of `.` or `..`.
pub open spec fn slot_ignored(p: Seq<u8>, off: int) -> bool {
    p[off] == 0xE5 || (p[off + 11] % 16 == 0 && p[off] == 46u8)
}

/// The slots that a directory listing yields: every slot that is not ignored, up to the first slot that marks the end
/// of the directory table.
pub open spec fn visible_slots(p: Seq<u8>, offs: Seq<int>) -> Seq<int>
    decreases offs.len(),
{
    if offs.len() == 0 || p[offs[0]] == 0 {
        Seq::empty()
    } else if slot_ignored(p, offs[0]) {
        visible_slots(p, offs.skip(1))
    } else {
        seq![offs[0]] + visible_slots(p, offs.skip(1))
    }
}

/// The name and directory entry of each file, grouped from a directory's visible slots: a run of long file name
/// entries (the last part first) followed by the file's directory entry, or a directory entry alone. `None` if a run
/// of long file name entries is malformed.
pub open spec fn group_files(slots: Seq<FatPseudoDentry>) -> Option<Seq<(Seq<u8>, FatDentry)>>
    decreases slots.len(),
{
    if slots.len() == 0 {
        Some(Seq::empty())
    } else if !slots[0].spec_is_long_file_name() {
        match group_files(slots.skip(1)) {
            Some(rest) => Some(seq![(slots[0].dentry.spec_short_file_name(), slots[0].dentry)] + rest),
            None => None,
        }
    } else {
        let n = (slots[0].long_file_name.sequence_no % 32) as int;
        if n == 0 || n > slots.len() || exists|j: int| 0 <= j < n && !(#[trigger] slots[j]).spec_is_long_file_name() {
            None
        } else if n == slots.len() {
            // the directory ends after the long file name entries: the listing stops there
            Some(Seq::empty())
        } else if slots[n].spec_is_long_file_name() {
            None
        } else {
            match group_files(slots.skip(n + 1)) {
                Some(rest) => Some(seq![(lfn_name(slots.take(n)), slots[n].dentry)] + rest),
                None => None,
            }
        }
    }
}

/// The name held by a run of long file name entries, which stores its parts last first.
pub open spec fn lfn_name(entries: Seq<FatPseudoDentry>) -> Seq<u8>
    decreases entries.len(),
{
    if entries.len() == 0 {
        Seq::empty()
    } else {
        lfn_name(entries.skip(1)) + ucs2_utf8(take_until_nul(lfn_chars(entries[0].long_file_name)))
    }
}

} // verus!

verus! {

/// `slots` are the directory slots that a listing of the directory starting at `first_fat_idx` yields, parsed, and
/// `files` is what grouping them gives.
pub open spec fn listing_matches(
    fs: FatFs,
    p: Seq<u8>,
    first_fat_idx: FatTableIndex,
    slots: Seq<FatPseudoDentry>,
    files: Seq<(Seq<u8>, FatDentry)>,
) -> bool {
    &&& slots.len() == dir_visible(fs, p, first_fat_idx).len()
    &&& forall|i: int|
        0 <= i < slots.len() ==> parsed_dentry((#[trigger] slots[i]).dentry, p, dir_visible(fs, p, first_fat_idx)[i])
            && parsed_lfn(slots[i].long_file_name, p, dir_visible(fs, p, first_fat_idx)[i])
    &&& group_files(slots) == Some(files)
}

/// The byte offsets of the slots that a listing of the directory starting at `first_fat_idx` yields.
pub open spec fn dir_visible(fs: FatFs, p: Seq<u8>, first_fat_idx: FatTableIndex) -> Seq<int> {
    visible_slots(p, dir_slot_offsets(fs, chain(fs.spec_fat_table(), first_fat_idx, fs.spec_fat_table().len())))
}

/// The name and directory entry of each file.
pub open spec fn files_view(files: Seq<FatFile>) -> Seq<(Seq<u8>, FatDentry)> {
    Seq::new(files.len(), |i: int| (files[i].name@, files[i].dentry))
}

/// `prefix` followed by `rest`, if `rest` exists.
pub open spec fn prepend_files(
    prefix: Seq<(Seq<u8>, FatDentry)>,
    rest: Option<Seq<(Seq<u8>, FatDentry)>>,
) -> Option<Seq<(Seq<u8>, FatDentry)>> {
    match rest {
        Some(r) => Some(prefix + r),
        None => None,
    }
}

proof fn lemma_chain_step(table: Seq<FatTableIndex>, idx: FatTableIndex, fuel: nat)
    requires
        chain_ok(table, idx, fuel),
        !(idx.0 >= FAT_END_OF_CHAIN || idx.0 == 0),
    ensures
        fuel > 0,
        ROOT_FAT_IDX <= idx.0 < table.len(),
        chain(table, idx, fuel) == seq![idx.0] + chain(table, table[idx.0 as int], (fuel - 1) as nat),
        chain(table, idx, fuel).skip(1) == chain(table, table[idx.0 as int], (fuel - 1) as nat),
        chain_ok(table, table[idx.0 as int], (fuel - 1) as nat),
{
    assert((seq![idx.0] + chain(table, table[idx.0 as int], (fuel - 1) as nat)).skip(1) =~= chain(
        table,
        table[idx.0 as int],
        (fuel - 1) as nat,
    ));
}

proof fn lemma_skip_concat(a: Seq<int>, b: Seq<int>)
    requires
        a.len() > 0,
    ensures
        (a + b).skip(1) == a.skip(1) + b,
        (a + b)[0] == a[0],
{
    assert((a + b).skip(1) =~= a.skip(1) + b);
}

impl FatFs {
    /// The directory slots that a listing of the directory starting at `first_fat_idx` yields, each parsed in both of
    /// its views. Fails if the directory's chain is malformed, or if a cluster that must be read is free or outside
    /// the data region.
    pub fn dir_slots(&self, partition: &[u8], first_fat_idx: FatTableIndex) -> (r: Result<
        Vec<FatPseudoDentry>,
        ConvertError,
    >)
        requires
            self.wf(),
            self.spec_data_start() + self.spec_data_len() <= partition@.len(),
        ensures
            r matches Ok(slots) ==> {
                let visible = visible_slots(
                    partition@,
                    dir_slot_offsets(*self, chain(self.spec_fat_table(), first_fat_idx, self.spec_fat_table().len())),
                );
                &&& slots@.len() == visible.len()
                &&& forall|i: int|
                    0 <= i < slots@.len() ==> parsed_dentry((#[trigger] slots@[i]).dentry, partition@, visible[i])
                        && parsed_lfn(slots@[i].long_file_name, partition@, visible[i])
            },
            r matches Err(e) ==> e == ConvertError::InconsistentFileSystem,
            !self.chain_terminates(first_fat_idx) ==> r is Err,
    {
        if !self.check_chain(first_fat_idx) || self.cluster_size() % 32 != 0 {
            return Err(ConvertError::InconsistentFileSystem);
        }
        let ghost p = partition@;
        let ghost table = self.spec_fat_table();
        let ghost n = table.len();
        let ghost all = visible_slots(p, dir_slot_offsets(*self, chain(table, first_fat_idx, n)));
        let plen = partition.len();
        let cluster_size = self.cluster_size() as u64;
        let dentries_per_cluster = (cluster_size / 32) as usize;
        proof {
            self.spec_boot_sector().lemma_geometry();
        }
        let mut result: Vec<FatPseudoDentry> = Vec::new();
        let ghost mut done: Seq<int> = Seq::empty();
        let mut fat_idx = first_fat_idx;
        let ghost mut fuel: nat = n;
        while !(fat_idx.0 >= FAT_END_OF_CHAIN || fat_idx.0 == 0)
            invariant
                self.wf(),
                p == partition@,
                plen == p.len(),
                table == self.spec_fat_table(),
                n == table.len(),
                cluster_size == self.spec_boot_sector().spec_cluster_size(),
                0 < cluster_size <= 0xFF * 0xFFFF,
                cluster_size % 32 == 0,
                dentries_per_cluster == cluster_size / 32,
                self.spec_data_start() + self.spec_data_len() <= p.len(),
                chain_ok(table, fat_idx, fuel),
                self.chain_terminates(first_fat_idx),
                all == visible_slots(p, dir_slot_offsets(*self, chain(table, first_fat_idx, n))),
                all == done + visible_slots(p, dir_slot_offsets(*self, chain(table, fat_idx, fuel))),
                result@.len() == done.len(),
                forall|i: int|
                    0 <= i < result@.len() ==> parsed_dentry((#[trigger] result@[i]).dentry, p, done[i])
                        && parsed_lfn(result@[i].long_file_name, p, done[i]),
            decreases fuel,
        {
            proof {
                lemma_chain_step(table, fat_idx, fuel);
            }
            let data_idx = fat_idx.0 - ROOT_FAT_IDX;
            proof {
                assert(data_idx * cluster_size <= 0xFFFF_FFFF * (0xFF * 0xFFFF)) by (nonlinear_arith)
                    requires
                        data_idx <= 0xFFFF_FFFF,
                        0 < cluster_size <= 0xFF * 0xFFFF,
                ;
                assert((data_idx + 1) * cluster_size == data_idx * cluster_size + cluster_size) by (nonlinear_arith);
                self.spec_boot_sector().lemma_geometry();
            }
            if !self.is_used(DataClusterIdx::new(data_idx)) || (data_idx as u64 + 1) * cluster_size > self.data_len() {
                return Err(ConvertError::InconsistentFileSystem);
            }
            let start = self.data_start() + (data_idx as u64) * cluster_size;
            let ghost offs = cluster_slot_offsets(*self, fat_idx.0);
            let ghost rest = dir_slot_offsets(*self, chain(table, table[fat_idx.0 as int], (fuel - 1) as nat));
            proof {
                assert(dir_slot_offsets(*self, chain(table, fat_idx, fuel)) == offs + rest) by {
                    let c = chain(table, fat_idx, fuel);
                    assert(c[0] == fat_idx.0);
                }
                assert(offs.skip(0) =~= offs);
                assert(start + cluster_size <= p.len()) by (nonlinear_arith)
                    requires
                        start == self.spec_data_start() + data_idx * cluster_size,
                        (data_idx + 1) * cluster_size <= self.spec_data_len(),
                        self.spec_data_start() + self.spec_data_len() <= p.len(),
                ;
                assert(start == self.spec_data_cluster_start(data_idx as int));
            }
            let mut k: usize = 0;
            while k < dentries_per_cluster
                invariant
                    p == partition@,
                    plen == p.len(),
                    self.chain_terminates(first_fat_idx),
                    table == self.spec_fat_table(),
                    n == table.len(),
                    all == visible_slots(p, dir_slot_offsets(*self, chain(table, first_fat_idx, n))),
                    k <= dentries_per_cluster,
                    dentries_per_cluster == cluster_size / 32,
                    offs.len() == dentries_per_cluster,
                    forall|j: int| 0 <= j < offs.len() ==> #[trigger] offs[j] == start + 32 * j,
                    start + cluster_size <= p.len(),
                    cluster_size % 32 == 0,
                    all == done + visible_slots(p, offs.skip(k as int) + rest),
                    result@.len() == done.len(),
                    forall|i: int|
                        0 <= i < result@.len() ==> parsed_dentry((#[trigger] result@[i]).dentry, p, done[i])
                            && parsed_lfn(result@[i].long_file_name, p, done[i]),
                decreases dentries_per_cluster - k,
            {
                let off = (start + 32 * k as u64) as usize;
                proof {
                    assert(off + 32 <= start + cluster_size) by (nonlinear_arith)
                        requires
                            off == start + 32 * k,
                            k < cluster_size / 32,
                            cluster_size % 32 == 0,
                    ;
                    lemma_skip_concat(offs.skip(k as int), rest);
                    assert(offs.skip(k as int)[0] == off);
                    assert(offs.skip(k as int).skip(1) =~= offs.skip(k + 1));
                }
                let slot = FatPseudoDentry::from_bytes(partition, off);
                if partition[off] == 0 {
                    proof {
                        assert(all == done + Seq::<int>::empty());
                        assert(all =~= done);
                    }
                    return Ok(result);
                }
                if !slot.should_be_ignored() {
                    result.push(slot);
                    proof {
                        let ghost old_done = done;
                        done = done.push(off as int);
                        assert(all =~= done + visible_slots(p, offs.skip(k + 1) + rest));
                        assert forall|i: int|
                            0 <= i < result@.len() implies parsed_dentry((#[trigger] result@[i]).dentry, p, done[i])
                                && parsed_lfn(result@[i].long_file_name, p, done[i]) by {
                            if i < old_done.len() {
                                assert(done[i] == old_done[i]);
                            }
                        }
                    }
                }
                k += 1;
            }
            proof {
                assert(offs.skip(k as int) =~= Seq::<int>::empty());
                assert(Seq::<int>::empty() + rest =~= rest);
            }
            fat_idx = self.fat_table()[fat_idx.0 as usize];
            proof {
                fuel = (fuel - 1) as nat;
            }
        }
        proof {
            assert(chain(table, fat_idx, fuel) =~= Seq::<u32>::empty());
            assert(dir_slot_offsets(*self, Seq::<u32>::empty()) =~= Seq::<int>::empty());
            assert(all =~= done);
        }
        Ok(result)
    }
}

/// Groups the visible slots of a directory into files.
pub struct FatFileIter {
    slots: Vec<FatPseudoDentry>,
    pos: usize,
}

impl FatFileIter {
    pub closed spec fn spec_slots(&self) -> Seq<FatPseudoDentry> {
        self.slots@
    }

    pub closed spec fn spec_pos(&self) -> int {
        self.pos as int
    }

    /// The files not yet yielded.
    pub open spec fn remaining(&self) -> Option<Seq<(Seq<u8>, FatDentry)>> {
        group_files(self.spec_slots().skip(self.spec_pos()))
    }

    pub fn new(slots: Vec<FatPseudoDentry>) -> (r: Self)
        ensures
            r.spec_slots() == slots@,
            r.spec_pos() == 0,
            r.remaining() == group_files(slots@),
    {
        let r = FatFileIter { slots, pos: 0 };
        assert(slots@.skip(0) =~= slots@);
        r
    }

    /// Yields the next file's name and directory entry, `None` at the end of the listing, or an error if the long file
    /// name entries of the next file are malformed.
    pub fn next(&mut self) -> (r: Result<Option<(Vec<u8>, FatDentry)>, ConvertError>)
        requires
            old(self).spec_pos() <= old(self).spec_slots().len(),
        ensures
            final(self).spec_slots() == old(self).spec_slots(),
            final(self).spec_pos() <= final(self).spec_slots().len(),
            match r {
                Ok(None) => old(self).remaining() == Some(Seq::<(Seq<u8>, FatDentry)>::empty()),
                Ok(Some(f)) => {
                    &&& final(self).spec_pos() > old(self).spec_pos()
                    &&& old(self).remaining() == prepend_files(seq![(f.0@, f.1)], final(self).remaining())
                },
                Err(e) => e == ConvertError::MalformedLongFileName && old(self).remaining() is None,
            },
    {
        let ghost s = self.slots@.skip(self.pos as int);
        let len = self.slots.len();
        if self.pos >= len {
            proof {
                assert(s.len() == 0);
            }
            return Ok(None);
        }
        let first = self.slots[self.pos];
        assert(first == s[0]);
        if !first.is_long_file_name() {
            let name = first.dentry.read_short_file_name();
            self.pos = self.pos + 1;
            proof {
                assert(self.slots@.skip(self.pos as int) =~= s.skip(1));
            }
            return Ok(Some((name, first.dentry)));
        }
        let n = first.long_file_name.sequence_no() as usize;
        if n == 0 || n > self.slots.len() - self.pos {
            return Err(ConvertError::MalformedLongFileName);
        }
        let mut j: usize = 0;
        while j < n
            invariant
                j <= n,
                0 < n <= s.len(),
                s.len() > 0,
                s[0].spec_is_long_file_name(),
                n == s[0].long_file_name.sequence_no % 32,
                len == self.slots@.len(),
                self.slots@ == old(self).slots@,
                self.pos == old(self).pos,
                self.pos + n <= self.slots@.len(),
                s == self.slots@.skip(self.pos as int),
                forall|i: int| 0 <= i < j ==> (#[trigger] s[i]).spec_is_long_file_name(),
            decreases n - j,
        {
            if !self.slots[self.pos + j].is_long_file_name() {
                proof {
                    assert(!s[j as int].spec_is_long_file_name());
                    assert(s[0].spec_is_long_file_name());
                    assert(group_files(s) is None);
                }
                return Err(ConvertError::MalformedLongFileName);
            }
            j += 1;
        }
        if self.pos + n == self.slots.len() {
            self.pos = self.slots.len();
            return Ok(None);
        }
        if self.slots[self.pos + n].is_long_file_name() {
            proof {
                assert(s[n as int].spec_is_long_file_name());
            }
            return Err(ConvertError::MalformedLongFileName);
        }
        let ghost window = s.take(n as int);
        let mut name: Vec<u8> = Vec::new();
        let mut k: usize = n;
        proof {
            assert(window.skip(n as int) =~= Seq::<FatPseudoDentry>::empty());
        }
        while k > 0
            invariant
                k <= n,
                len == self.slots@.len(),
                self.slots@ == old(self).slots@,
                self.pos == old(self).pos,
                self.pos + n < self.slots@.len(),
                s == self.slots@.skip(self.pos as int),
                window == s.take(n as int),
                name@ == lfn_name(window.skip(k as int)),
            decreases k,
        {
            let part = self.slots[self.pos + k - 1].long_file_name.to_utf8_string();
            proof {
                assert(window.skip(k - 1).skip(1) =~= window.skip(k as int));
                assert(window.skip(k - 1)[0] == self.slots@[self.pos + k - 1]);
            }
            crate::bytes::push_bytes(&mut name, part.as_slice());
            k -= 1;
        }
        let dentry = self.slots[self.pos + n].dentry;
        self.pos = self.pos + n + 1;
        proof {
            assert(window.skip(0) =~= window);
            assert(self.slots@.skip(self.pos as int) =~= s.skip(n + 1));
        }
        Ok(Some((name, dentry)))
    }
}

impl FatFs {
    /// Lists the files of the directory whose first cluster has FAT index `first_fat_idx`, each with its data
    /// clusters. Fails if the directory's chain or a file's chain is malformed, or if long file name entries are
    /// malformed.
    pub fn dir_content(&self, partition: &[u8], first_fat_idx: FatTableIndex) -> (r: Result<Vec<FatFile>, ConvertError>)
        requires
            self.wf(),
            self.spec_data_start() + self.spec_data_len() <= partition@.len(),
        ensures
            r matches Ok(files) ==> exists|slots: Seq<FatPseudoDentry>|
                #[trigger] listing_matches(
                    *self,
                    partition@,
                    first_fat_idx,
                    slots,
                    files_view(files@),
                ),
            r matches Ok(files) ==> forall|i: int|
                0 <= i < files@.len() ==> crate::fat::fs::expand_ranges((#[trigger] files@[i]).data_ranges@) == chain(
                    self.spec_fat_table(),
                    files@[i].dentry.first_fat_index_spec(),
                    self.spec_fat_table().len(),
                ).map_values(|x: u32| (x - ROOT_FAT_IDX) as u32),
            r matches Err(e) ==> e == ConvertError::InconsistentFileSystem || e == ConvertError::MalformedLongFileName,
            !self.chain_terminates(first_fat_idx) ==> r is Err,
    {
        let slots = self.dir_slots(partition, first_fat_idx)?;
        let ghost all = slots@;
        let ghost visible = dir_visible(*self, partition@, first_fat_idx);
        let mut iter = FatFileIter::new(slots);
        let mut files: Vec<FatFile> = Vec::new();
        loop
            invariant
                self.wf(),
                self.chain_terminates(first_fat_idx),
                visible == dir_visible(*self, partition@, first_fat_idx),
                all.len() == visible.len(),
                forall|i: int|
                    0 <= i < all.len() ==> parsed_dentry((#[trigger] all[i]).dentry, partition@, visible[i])
                        && parsed_lfn(all[i].long_file_name, partition@, visible[i]),
                iter.spec_slots() == all,
                iter.spec_pos() <= all.len(),
                group_files(all) == prepend_files(
                    files_view(files@),
                    iter.remaining(),
                ),
                forall|i: int|
                    0 <= i < files@.len() ==> crate::fat::fs::expand_ranges((#[trigger] files@[i]).data_ranges@) == chain(
                        self.spec_fat_table(),
                        files@[i].dentry.first_fat_index_spec(),
                        self.spec_fat_table().len(),
                    ).map_values(|x: u32| (x - ROOT_FAT_IDX) as u32),
            decreases all.len() - iter.spec_pos(),
        {
            let ghost prefix = files_view(files@);
            match iter.next() {
                Ok(None) => {
                    proof {
                        assert(prefix + Seq::<(Seq<u8>, FatDentry)>::empty() =~= prefix);
                        assert(group_files(all) == Some(prefix));
                        assert(listing_matches(*self, partition@, first_fat_idx, all, files_view(files@)));
                    }
                    let ghost listed = files@;
                    let r: Result<Vec<FatFile>, ConvertError> = Ok(files);
                    assert(r matches Ok(f) ==> f@ == listed);
                    return r;
                },
                Ok(Some((name, dentry))) => {
                    let first = dentry.first_fat_index();
                    if first.0 >= FAT_END_OF_CHAIN || !self.check_chain(first) {
                        return Err(ConvertError::InconsistentFileSystem);
                    }
                    let data_ranges = self.data_ranges(first);
                    let ghost f = (name@, dentry);
                    files.push(FatFile { name, dentry, data_ranges });
                    proof {
                        let new_prefix = files_view(files@);
                        assert(new_prefix =~= prefix + seq![f]);
                        match iter.remaining() {
                            Some(rest) => {
                                assert(prefix + (seq![f] + rest) =~= new_prefix + rest);
                            },
                            None => {},
                        }
                    }
                },
                Err(e) => {
                    return Err(e);
                },
            }
        }
    }
}

} // verus!
