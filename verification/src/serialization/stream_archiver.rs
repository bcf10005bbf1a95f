use vstd::prelude::*;
use std::ops::Range;
use crate::allocator::{changes_only_free, changes_within_cluster, lemma_changes_only_free_refl, lemma_changes_only_free_trans, lemma_cluster_change_is_free, AllocatedClusterIdx, AllocatedReader, Allocator};
use crate::ranges::Ranges;
use crate::bytes::{copy_out, le_u32, push_u32, push_u8, read_u32, u32_bytes, law_u32_roundtrip};
use crate::error::ConvertError;
use crate::ranges::ClusterIdx;
use crate::serialization::dentry::DentryRepresentation;
use crate::serialization::FileType;
use crate::serialization::archive_layout::{
    in_page, lemma_in_page_push, lemma_pages_disjoint, lemma_read_end_append, lemma_read_end_frame, lemma_read_end_frame_readable, lemma_read_end_in_page,
    lemma_read_end_more_pages, page_at, read_end, readable_page,
};

verus! {

/// Every page begins with the index of the next page: a flag (1 if there is one) and the cluster index.
pub const PAGE_IDX_SIZE: usize = 8;
pub const MIN_PAGE_PAYLOAD_SIZE: usize = 50;
/// A header states the kind and the number of the objects that follow it.
pub const HEADER_SIZE: usize = 8;
pub const FILE_TYPE_SIZE: usize = 8;
pub const DENTRY_REPR_SIZE: usize = 17;
pub const BYTE_SIZE: usize = 1;
pub const RANGE_SIZE: usize = 8;

pub const TAG_FILE_TYPE: u32 = 1;
pub const TAG_DENTRY: u32 = 2;
pub const TAG_BYTE: u32 = 3;
pub const TAG_RANGE: u32 = 4;

pub const FILE_TYPE_DIRECTORY: u32 = 1;
pub const FILE_TYPE_REGULAR: u32 = 2;

/// One archived list of objects of one kind.
pub enum Record {
    FileTypes(Vec<FileType>),
    Dentries(Vec<DentryRepresentation>),
    Bytes(Vec<u8>),
    Ranges(Vec<Range<ClusterIdx>>),
}

/// The encoding of a file type.
pub open spec fn file_type_bytes(ft: FileType) -> Seq<u8> {
    match ft {
        FileType::Directory(n) => u32_bytes(FILE_TYPE_DIRECTORY) + u32_bytes(n),
        FileType::RegularFile => u32_bytes(FILE_TYPE_REGULAR) + u32_bytes(0),
    }
}

/// The file type that `b` encodes at `off`, if any.
pub open spec fn decode_file_type(b: Seq<u8>, off: int) -> Option<FileType> {
    if le_u32(b, off) == FILE_TYPE_DIRECTORY {
        Some(FileType::Directory(le_u32(b, off + 4) as u32))
    } else if le_u32(b, off) == FILE_TYPE_REGULAR {
        Some(FileType::RegularFile)
    } else {
        None
    }
}

/// The encoding of a dentry representation.
pub open spec fn dentry_repr_bytes(d: DentryRepresentation) -> Seq<u8> {
    u32_bytes(d.access_time) + u32_bytes(d.create_time) + u32_bytes(d.mod_time) + u32_bytes(d.file_size) + seq![
        if d.is_dir { 1u8 } else { 0u8 },
    ]
}

/// The dentry representation that `b` encodes at `off`.
pub open spec fn decode_dentry_repr(b: Seq<u8>, off: int) -> DentryRepresentation {
    DentryRepresentation {
        access_time: le_u32(b, off) as u32,
        create_time: le_u32(b, off + 4) as u32,
        mod_time: le_u32(b, off + 8) as u32,
        file_size: le_u32(b, off + 12) as u32,
        is_dir: b[off + 16] != 0,
    }
}

/// The encoding of a cluster range.
pub open spec fn range_bytes(r: Range<ClusterIdx>) -> Seq<u8> {
    u32_bytes(r.start) + u32_bytes(r.end)
}

/// The cluster range that `b` encodes at `off`.
pub open spec fn decode_range(b: Seq<u8>, off: int) -> Range<ClusterIdx> {
    (le_u32(b, off) as u32)..(le_u32(b, off + 4) as u32)
}

/// The encoding of a header.
pub open spec fn header_bytes(tag: u32, len: u32) -> Seq<u8> {
    u32_bytes(tag) + u32_bytes(len)
}

/// The number of items of a record.
pub open spec fn record_len(r: Record) -> int {
    match r {
        Record::FileTypes(v) => v@.len() as int,
        Record::Dentries(v) => v@.len() as int,
        Record::Bytes(v) => v@.len() as int,
        Record::Ranges(v) => v@.len() as int,
    }
}

/// The objects that a record is archived as: a header with its kind and length, then one object per item.
pub open spec fn record_objects(r: Record) -> Seq<Seq<u8>> {
    match r {
        Record::FileTypes(v) => seq![header_bytes(TAG_FILE_TYPE, v@.len() as u32)] + v@.map_values(
            |ft: FileType| file_type_bytes(ft),
        ),
        Record::Dentries(v) => seq![header_bytes(TAG_DENTRY, v@.len() as u32)] + v@.map_values(
            |d: DentryRepresentation| dentry_repr_bytes(d),
        ),
        Record::Bytes(v) => seq![header_bytes(TAG_BYTE, v@.len() as u32)] + v@.map_values(|b: u8| seq![b]),
        Record::Ranges(v) => seq![header_bytes(TAG_RANGE, v@.len() as u32)] + v@.map_values(
            |r: Range<ClusterIdx>| range_bytes(r),
        ),
    }
}

/// The objects that a sequence of records is archived as.
pub open spec fn records_objects(rs: Seq<Record>) -> Seq<Seq<u8>>
    decreases rs.len(),
{
    if rs.len() == 0 {
        Seq::empty()
    } else {
        records_objects(rs.drop_last()) + record_objects(rs.last())
    }
}

/// Every record has at most `u32::MAX` items, so that its header states its length.
pub open spec fn records_fit(rs: Seq<Record>) -> bool {
    forall|i: int| 0 <= i < rs.len() ==> record_len(#[trigger] rs[i]) <= u32::MAX
}

/// The tag of the header of a record.
/// The number of files of the directory that record `r` describes, if it is a list of one directory's type.
pub open spec fn directory_child_count(r: Record) -> Option<u32> {
    match r {
        Record::FileTypes(v) => if v@.len() == 1 {
            match v@[0] {
                FileType::Directory(c) => Some(c),
                FileType::RegularFile => None,
            }
        } else {
            None
        },
        _ => None,
    }
}

pub open spec fn record_tag(r: Record) -> u32 {
    match r {
        Record::FileTypes(_) => TAG_FILE_TYPE,
        Record::Dentries(_) => TAG_DENTRY,
        Record::Bytes(_) => TAG_BYTE,
        Record::Ranges(_) => TAG_RANGE,
    }
}

/// The first object of a record is its header, which states its tag and its length.
proof fn lemma_record_header(r: Record)
    ensures
        record_objects(r).len() == record_len(r) + 1,
        record_objects(r)[0].len() == HEADER_SIZE,
        le_u32(record_objects(r)[0], 0) == record_tag(r),
        record_len(r) <= u32::MAX ==> le_u32(record_objects(r)[0], 4) == record_len(r),
{
    let n = record_len(r) as u32;
    law_header_roundtrip(record_tag(r), n);
    assert(record_objects(r)[0] == header_bytes(record_tag(r), n));
}

/// The objects of a sequence of records are those of its first record, then those of the others.
pub proof fn lemma_records_objects_first(rs: Seq<Record>)
    requires
        rs.len() > 0,
    ensures
        records_objects(rs) == record_objects(rs[0]) + records_objects(rs.drop_first()),
    decreases rs.len(),
{
    if rs.len() == 1 {
        assert(rs.drop_last() =~= Seq::<Record>::empty());
        assert(rs.drop_first() =~= Seq::<Record>::empty());
        assert(records_objects(rs) =~= record_objects(rs[0]) + records_objects(rs.drop_first()));
    } else {
        lemma_records_objects_first(rs.drop_last());
        assert(rs.drop_last().drop_first() =~= rs.drop_first().drop_last());
        assert(rs.drop_first().last() == rs.last());
        assert(rs.drop_last()[0] == rs[0]);
        assert(records_objects(rs) =~= record_objects(rs[0]) + records_objects(rs.drop_first()));
    }
}

proof fn lemma_u32_roundtrip_at(a: Seq<u8>, x: u32, b: Seq<u8>)
    ensures
        le_u32(a + u32_bytes(x) + b, a.len() as int) == x,
{
    law_u32_roundtrip(x);
    let s = a + u32_bytes(x) + b;
    assert(s[a.len() as int] == u32_bytes(x)[0]);
    assert(s[a.len() as int + 1] == u32_bytes(x)[1]);
    assert(s[a.len() as int + 2] == u32_bytes(x)[2]);
    assert(s[a.len() as int + 3] == u32_bytes(x)[3]);
}

/// Decoding the encoding of a file type gives it back.
pub proof fn law_file_type_roundtrip(ft: FileType)
    ensures
        decode_file_type(file_type_bytes(ft), 0) == Some(ft),
{
    match ft {
        FileType::Directory(n) => {
            lemma_u32_roundtrip_at(Seq::empty(), FILE_TYPE_DIRECTORY, u32_bytes(n));
            lemma_u32_roundtrip_at(u32_bytes(FILE_TYPE_DIRECTORY), n, Seq::empty());
            assert(Seq::<u8>::empty() + u32_bytes(FILE_TYPE_DIRECTORY) + u32_bytes(n) =~= file_type_bytes(ft));
            assert(u32_bytes(FILE_TYPE_DIRECTORY) + u32_bytes(n) + Seq::<u8>::empty() =~= file_type_bytes(ft));
        },
        FileType::RegularFile => {
            lemma_u32_roundtrip_at(Seq::empty(), FILE_TYPE_REGULAR, u32_bytes(0));
            assert(Seq::<u8>::empty() + u32_bytes(FILE_TYPE_REGULAR) + u32_bytes(0) =~= file_type_bytes(ft));
        },
    }
}

/// Decoding the encoding of a dentry representation gives it back.
pub proof fn law_dentry_repr_roundtrip(d: DentryRepresentation)
    ensures
        decode_dentry_repr(dentry_repr_bytes(d), 0) == d,
{
    let b = dentry_repr_bytes(d);
    let flag: Seq<u8> = seq![if d.is_dir { 1u8 } else { 0u8 }];
    lemma_u32_roundtrip_at(Seq::empty(), d.access_time, u32_bytes(d.create_time) + u32_bytes(d.mod_time) + u32_bytes(d.file_size) + flag);
    assert(Seq::<u8>::empty() + u32_bytes(d.access_time) + (u32_bytes(d.create_time) + u32_bytes(d.mod_time) + u32_bytes(d.file_size) + flag) =~= b);
    lemma_u32_roundtrip_at(u32_bytes(d.access_time), d.create_time, u32_bytes(d.mod_time) + u32_bytes(d.file_size) + flag);
    assert(u32_bytes(d.access_time) + u32_bytes(d.create_time) + (u32_bytes(d.mod_time) + u32_bytes(d.file_size) + flag) =~= b);
    lemma_u32_roundtrip_at(u32_bytes(d.access_time) + u32_bytes(d.create_time), d.mod_time, u32_bytes(d.file_size) + flag);
    assert(u32_bytes(d.access_time) + u32_bytes(d.create_time) + u32_bytes(d.mod_time) + (u32_bytes(d.file_size) + flag) =~= b);
    lemma_u32_roundtrip_at(u32_bytes(d.access_time) + u32_bytes(d.create_time) + u32_bytes(d.mod_time), d.file_size, flag);
    assert(u32_bytes(d.access_time) + u32_bytes(d.create_time) + u32_bytes(d.mod_time) + u32_bytes(d.file_size) + flag =~= b);
    assert(b[16] == flag[0]);
}

/// Decoding the encoding of a cluster range gives it back.
pub proof fn law_range_roundtrip(r: Range<ClusterIdx>)
    ensures
        decode_range(range_bytes(r), 0) == r,
{
    lemma_u32_roundtrip_at(Seq::empty(), r.start, u32_bytes(r.end));
    assert(Seq::<u8>::empty() + u32_bytes(r.start) + u32_bytes(r.end) =~= range_bytes(r));
    lemma_u32_roundtrip_at(u32_bytes(r.start), r.end, Seq::empty());
    assert(u32_bytes(r.start) + u32_bytes(r.end) + Seq::<u8>::empty() =~= range_bytes(r));
}

/// Decoding the encoding of a header gives back its tag and length.
pub proof fn law_header_roundtrip(tag: u32, len: u32)
    ensures
        le_u32(header_bytes(tag, len), 0) == tag,
        le_u32(header_bytes(tag, len), 4) == len,
{
    lemma_u32_roundtrip_at(Seq::empty(), tag, u32_bytes(len));
    assert(Seq::<u8>::empty() + u32_bytes(tag) + u32_bytes(len) =~= header_bytes(tag, len));
    lemma_u32_roundtrip_at(u32_bytes(tag), len, Seq::empty());
    assert(u32_bytes(tag) + u32_bytes(len) + Seq::<u8>::empty() =~= header_bytes(tag, len));
}

/// What the reader takes from a page at a position (a `subrange` of the page, see `Reader::next_object`) is what
/// the archiver put there (a `spliced` page, see `StreamArchiver::add_object`): an object reads back as written.
pub proof fn law_object_read_after_write(page: Seq<u8>, position: int, object: Seq<u8>)
    requires
        0 <= position,
        position + object.len() <= page.len(),
    ensures
        crate::bytes::spliced(page, position, object).subrange(position, position + object.len()) == object,
        crate::bytes::spliced(page, position, object).len() == page.len(),
{
    assert(crate::bytes::spliced(page, position, object).subrange(position, position + object.len()) =~= object);
}

/// Whether an object of `size` bytes still fits into a page of `page_size` bytes that is filled up to `position`;
/// archiver and reader move to the next page at the same objects because both decide by this.
pub open spec fn fits_in_page(page_size: int, position: int, size: int) -> bool {
    page_size - position >= size
}

/// Writing the current page into the new page `c` and linking the page written last to it keeps every archived
/// object readable: the objects of the written pages still read back from the first page on, and the objects of the
/// current page follow in page `c`.
proof fn lemma_link_page(
    p0: Seq<u8>,
    p1: Seq<u8>,
    p2: Seq<u8>,
    objs: Seq<Seq<u8>>,
    w: int,
    current: Seq<u8>,
    position: int,
    first: int,
    last: int,
    last_end: int,
    c: int,
    pointer: Seq<u8>,
    ps: int,
    vs: int,
    ve0: int,
    ve1: int,
    used: Ranges,
)
    requires
        ps >= PAGE_IDX_SIZE + MIN_PAGE_PAYLOAD_SIZE,
        0 <= w < objs.len(),
        !fits_in_page(ps, last_end, objs[w].len() as int),
        in_page(current, PAGE_IDX_SIZE as int, objs.skip(w), ps) == Some(position),
        current.len() == ps,
        readable_page(p0, first, ps, vs, ve0, used),
        readable_page(p0, last, ps, vs, ve0, used),
        read_end(p0, first, PAGE_IDX_SIZE as int, objs.take(w), ps, vs, ve0, used) == Some((last, last_end)),
        ve0 <= c < ve1,
        !used.covers(c),
        p1.len() == p0.len(),
        p2.len() == p0.len(),
        ps * c + ps <= p0.len(),
        changes_within_cluster(p0, p1, c, ps),
        page_at(p1, c, ps) == current,
        changes_within_cluster(p1, p2, last, ps),
        pointer == u32_bytes(1) + u32_bytes(c as u32),
        c <= u32::MAX,
        p2 == crate::bytes::spliced(p1, ps * last, pointer),
    ensures
        readable_page(p2, first, ps, vs, ve1, used),
        readable_page(p2, c, ps, vs, ve1, used),
        read_end(p2, first, PAGE_IDX_SIZE as int, objs, ps, vs, ve1, used) == Some((c, position)),
{
    let done = objs.take(w);
    let cur = objs.skip(w);
    assert(0 <= ps * c) by (nonlinear_arith)
        requires
            ps > 0,
            c >= 0,
    ;
    // writing page `c` leaves the readable pages as they were
    assert forall|j: int| #[trigger] readable_page(p0, j, ps, vs, ve0, used) && j != last implies page_at(p1, j, ps)
        == page_at(p0, j, ps) by {
        assert forall|b: int| ps * j <= b < ps * j + ps implies p1[b] == p0[b] by {
            lemma_pages_disjoint(j, c, ps, b);
        }
        assert(page_at(p1, j, ps) =~= page_at(p0, j, ps));
    }
    assert(page_at(p1, last, ps) =~= page_at(p0, last, ps)) by {
        assert forall|b: int| ps * last <= b < ps * last + ps implies p1[b] == p0[b] by {
            lemma_pages_disjoint(last, c, ps, b);
        }
    }
    assert(first == last || page_at(p1, first, ps) == page_at(p0, first, ps));
    lemma_read_end_frame(p0, p1, first, PAGE_IDX_SIZE as int, done, ps, vs, ve0, used, last);
    // linking page `last` leaves the other pages as they were, and page `last` from its pointer on
    assert forall|j: int| #[trigger] readable_page(p1, j, ps, vs, ve0, used) && j != last implies page_at(p2, j, ps)
        == page_at(p1, j, ps) by {
        assert forall|b: int| ps * j <= b < ps * j + ps implies p2[b] == p1[b] by {
            lemma_pages_disjoint(j, last, ps, b);
        }
        assert(page_at(p2, j, ps) =~= page_at(p1, j, ps));
    }
    assert(page_at(p2, last, ps).subrange(PAGE_IDX_SIZE as int, ps) =~= page_at(p1, last, ps).subrange(
        PAGE_IDX_SIZE as int,
        ps,
    ));
    assert(readable_page(p1, first, ps, vs, ve0, used));
    assert(first == last || page_at(p2, first, ps) == page_at(p1, first, ps));
    lemma_read_end_frame(p1, p2, first, PAGE_IDX_SIZE as int, done, ps, vs, ve0, used, last);
    lemma_read_end_more_pages(p2, first, PAGE_IDX_SIZE as int, done, ps, vs, ve0, used, ve1);
    // page `last` now points to page `c`, which holds the objects of the current page
    let page = page_at(p2, last, ps);
    lemma_u32_roundtrip_at(Seq::empty(), 1, u32_bytes(c as u32));
    assert(Seq::<u8>::empty() + u32_bytes(1) + u32_bytes(c as u32) =~= pointer);
    lemma_u32_roundtrip_at(u32_bytes(1), c as u32, Seq::empty());
    assert(u32_bytes(1) + u32_bytes(c as u32) + Seq::<u8>::empty() =~= pointer);
    assert forall|i: int| 0 <= i < 8 implies page[i] == pointer[i] by {}
    assert(le_u32(page, 0) == 1);
    assert(le_u32(page, 4) == c);
    assert(page_at(p2, c, ps) =~= page_at(p1, c, ps)) by {
        assert forall|b: int| ps * c <= b < ps * c + ps implies p2[b] == p1[b] by {
            lemma_pages_disjoint(c, last, ps, b);
        }
    }
    assert(cur[0] == objs[w]);
    lemma_read_end_in_page(p2, c, PAGE_IDX_SIZE + cur[0].len(), cur.drop_first(), ps, vs, ve1, used);
    assert(read_end(p2, last, last_end, cur, ps, vs, ve1, used) == Some((c, position)));
    lemma_read_end_append(p2, first, PAGE_IDX_SIZE as int, done, cur, ps, vs, ve1, used);
    assert(done + cur =~= objs);
}

/// Stores lists of objects in allocated clusters (pages) of the partition, each page pointing to the next.
pub struct StreamArchiver {
    /// The first written page. `None` if no page has been written yet, or if the first page is the previous one.
    head: Option<AllocatedClusterIdx>,
    /// The page written last, whose pointer to the next page is set when the next page is written.
    previous_page_idx: Option<AllocatedClusterIdx>,
    /// The content of the current page that has yet to be written.
    current_page: Vec<u8>,
    page_size: usize,
    position_in_current_page: usize,
    /// The objects archived so far, and the records that they make up.
    objects: Ghost<Seq<Seq<u8>>>,
    records: Ghost<Seq<Record>>,
    /// How many of the objects lie in pages already written.
    written: Ghost<nat>,
    /// Where these objects end in the page written last.
    last_end: Ghost<int>,
}

impl StreamArchiver {
    pub closed spec fn spec_page_size(&self) -> usize {
        self.page_size
    }

    pub closed spec fn spec_position(&self) -> usize {
        self.position_in_current_page
    }

    /// The bytes of the current page.
    pub closed spec fn spec_current_page(&self) -> Seq<u8> {
        self.current_page@
    }

    pub closed spec fn spec_head(&self) -> Option<ClusterIdx> {
        match self.head {
            Some(idx) => Some(idx.spec_idx()),
            None => None,
        }
    }

    pub closed spec fn spec_previous(&self) -> Option<ClusterIdx> {
        match self.previous_page_idx {
            Some(idx) => Some(idx.spec_idx()),
            None => None,
        }
    }

    /// The records archived so far.
    pub closed spec fn spec_records(&self) -> Seq<Record> {
        self.records@
    }

    /// The page written first, if a page has been written.
    pub closed spec fn spec_first_page(&self) -> Option<ClusterIdx> {
        match self.spec_head() {
            Some(h) => Some(h),
            None => self.spec_previous(),
        }
    }

    /// The archived objects lie in `p` and in the current page as a reader of the clusters `vs..ve` would read them:
    /// those in written pages from the first written page on, the others one after the other in the current page.
    pub closed spec fn lays_out(&self, p: Seq<u8>, vs: int, ve: int, used: Ranges) -> bool {
        let ps = self.page_size as int;
        let objs = self.objects@;
        let w = self.written@ as int;
        &&& w <= objs.len()
        &&& in_page(self.current_page@, PAGE_IDX_SIZE as int, objs.skip(w), ps) == Some(
            self.position_in_current_page as int,
        )
        &&& match self.spec_previous() {
            None => w == 0 && self.spec_head() is None,
            Some(last) => {
                let first = self.spec_first_page()->0 as int;
                &&& readable_page(p, first, ps, vs, ve, used)
                &&& readable_page(p, last as int, ps, vs, ve, used)
                &&& read_end(p, first, PAGE_IDX_SIZE as int, objs.take(w), ps, vs, ve, used) == Some(
                    (last as int, self.last_end@),
                )
            },
        }
    }

    /// `lays_out`, and the first object of the current page is there because it did not fit into the page written
    /// last.
    pub closed spec fn holds_objects(&self, p: Seq<u8>, vs: int, ve: int, used: Ranges) -> bool {
        &&& self.lays_out(p, vs, ve, used)
        &&& self.spec_previous() is Some ==> {
            &&& self.written@ < self.objects@.len()
            &&& !fits_in_page(self.page_size as int, self.last_end@, self.objects@[self.written@ as int].len() as int)
        }
    }

    /// The archived records lie in `p` and in the current page as a reader of the clusters `vs..ve` would read
    /// them.
    pub closed spec fn holds(&self, p: Seq<u8>, vs: int, ve: int, used: Ranges) -> bool {
        &&& self.holds_objects(p, vs, ve, used)
        &&& self.objects@ == records_objects(self.records@)
        &&& records_fit(self.records@)
    }

    /// The archive still reads back from `q` if `q` differs from `p` only in clusters from `lo` on, which no written
    /// page of an archive that lays out with readable clusters before `lo` is.
    pub proof fn lemma_holds_frame(&self, p: Seq<u8>, q: Seq<u8>, vs: int, lo: int, hi: int, used: Ranges)
        requires
            self.wf(),
            self.holds(p, vs, lo, used),
            q.len() == p.len(),
            forall|b: int| 0 <= b < p.len() && #[trigger] q[b] != p[b] ==> lo <= b / (self.spec_page_size() as int),
            lo <= hi,
        ensures
            self.holds(q, vs, hi, used),
    {
        let ps = self.page_size as int;
        if let Some(last) = self.spec_previous() {
            let first = self.spec_first_page()->0 as int;
            let objs = self.objects@.take(self.written@ as int);
            assert forall|j: int| #[trigger] readable_page(p, j, ps, vs, lo, used) && j != last as int implies page_at(q, j, ps)
                == page_at(p, j, ps) by {
                assert forall|b: int| ps * j <= b < ps * j + ps implies q[b] == p[b] by {
                    assert(b / ps == j) by (nonlinear_arith)
                        requires
                            ps * j <= b < ps * j + ps,
                            ps > 0,
                    ;
                }
                assert(page_at(q, j, ps) =~= page_at(p, j, ps));
            }
            assert(page_at(q, last as int, ps) =~= page_at(p, last as int, ps)) by {
                assert forall|b: int| ps * last <= b < ps * last + ps implies q[b] == p[b] by {
                    assert(b / ps == last) by (nonlinear_arith)
                        requires
                            ps * last <= b < ps * last + ps,
                            ps > 0,
                    ;
                }
            }
            assert(first == last || page_at(q, first, ps) == page_at(p, first, ps));
            lemma_read_end_frame(p, q, first, PAGE_IDX_SIZE as int, objs, ps, vs, lo, used, last as int);
            lemma_read_end_more_pages(q, first, PAGE_IDX_SIZE as int, objs, ps, vs, lo, used, hi);
        }
    }

    /// The written pages are clusters that `used` does not cover.
    pub open spec fn pages_free(&self, used: Ranges) -> bool {
        &&& self.spec_head() matches Some(h) ==> !used.covers(h as int)
        &&& self.spec_previous() matches Some(p) ==> !used.covers(p as int)
    }

    /// The current page has the page size and the position lies between its pointer and its end.
    pub open spec fn wf(&self) -> bool {
        &&& self.spec_page_size() >= PAGE_IDX_SIZE + MIN_PAGE_PAYLOAD_SIZE
        &&& self.spec_current_page().len() == self.spec_page_size()
        &&& PAGE_IDX_SIZE <= self.spec_position() <= self.spec_page_size()
    }

    /// An empty archive with pages of `page_size` bytes.
    pub fn new(page_size: usize) -> (r: Self)
        requires
            page_size >= PAGE_IDX_SIZE + MIN_PAGE_PAYLOAD_SIZE,
        ensures
            r.wf(),
            r.spec_page_size() == page_size,
            r.spec_position() == PAGE_IDX_SIZE,
            r.spec_head() is None,
            r.spec_previous() is None,
            r.spec_current_page() == Seq::new(page_size as nat, |i: int| 0u8),
            r.spec_records() == Seq::<Record>::empty(),
            forall|p: Seq<u8>, vs: int, ve: int, used: Ranges| #[trigger] r.holds(p, vs, ve, used),
    {
        let mut current_page: Vec<u8> = Vec::new();
        let mut i: usize = 0;
        while i < page_size
            invariant
                i <= page_size,
                current_page@ == Seq::new(i as nat, |j: int| 0u8),
            decreases page_size - i,
        {
            current_page.push(0u8);
            i += 1;
            assert(current_page@ =~= Seq::new(i as nat, |j: int| 0u8));
        }
        StreamArchiver {
            head: None,
            previous_page_idx: None,
            current_page,
            page_size,
            position_in_current_page: PAGE_IDX_SIZE,
            objects: Ghost(Seq::empty()),
            records: Ghost(Seq::empty()),
            written: Ghost(0),
            last_end: Ghost(PAGE_IDX_SIZE as int),
        }
    }

    fn space_left_in_page(&self) -> (r: usize)
        requires
            self.wf(),
        ensures
            r == self.spec_page_size() - self.spec_position(),
    {
        self.page_size - self.position_in_current_page
    }

    /// Writes the current page into a newly allocated cluster, links the previous page to it, and starts a new,
    /// empty current page whose pointer says that no page follows.
    fn write_page(&mut self, partition: &mut Vec<u8>, allocator: &mut Allocator) -> (r: Result<(), ConvertError>)
        requires
            old(self).wf(),
            old(allocator).wf(),
            old(allocator).spec_cluster_size() == old(self).spec_page_size(),
            old(self).pages_free(old(allocator).spec_used()),
        ensures
            final(self).wf(),
            final(self).spec_page_size() == old(self).spec_page_size(),
            final(self).pages_free(final(allocator).spec_used()),
            final(allocator).wf(),
            final(allocator).spec_valid() == old(allocator).spec_valid(),
            final(allocator).spec_used() == old(allocator).spec_used(),
            final(allocator).spec_cluster_size() == old(allocator).spec_cluster_size(),
            final(allocator).spec_cursor() >= old(allocator).spec_cursor(),
            final(partition)@.len() == old(partition)@.len(),
            changes_only_free(
                old(partition)@,
                final(partition)@,
                old(allocator).spec_used(),
                old(allocator).spec_cluster_size() as int,
            ),
            final(self).objects == old(self).objects,
            final(self).records == old(self).records,
            r is Ok ==> final(self).spec_position() == PAGE_IDX_SIZE && final(self).spec_current_page() == Seq::new(
                final(self).spec_page_size() as nat,
                |i: int| 0u8,
            ),
            r is Ok && old(self).holds_objects(
                old(partition)@,
                old(allocator).spec_valid().start as int,
                old(allocator).spec_cursor() as int,
                old(allocator).spec_used(),
            ) ==> {
                &&& final(self).lays_out(
                    final(partition)@,
                    final(allocator).spec_valid().start as int,
                    final(allocator).spec_cursor() as int,
                    final(allocator).spec_used(),
                )
                &&& final(self).written@ == old(self).objects@.len()
                &&& final(self).last_end@ == old(self).spec_position()
                &&& final(self).spec_previous() is Some
            },
            r matches Err(e) ==> e == ConvertError::NoFreeClusters || e == ConvertError::InconsistentFileSystem,
            r == Err::<(), ConvertError>(ConvertError::NoFreeClusters) ==> forall|z: int|
                old(allocator).spec_cursor() <= z < old(allocator).spec_valid().end ==> old(allocator).spec_used().covers(z),
            r is Ok ==> final(allocator).free_clusters() == old(allocator).free_clusters() - 1,
            r is Ok ==> final(self).spec_previous() is Some,
            r == Err::<(), ConvertError>(ConvertError::NoFreeClusters) ==> final(allocator).exhausted(),
            (exists|z: int|
                old(allocator).spec_cursor() <= z < old(allocator).spec_valid().end && !old(allocator).spec_used().covers(z))
                && old(allocator).spec_cluster_size() * old(allocator).spec_valid().end <= old(partition)@.len() && (old(
                self,
            ).spec_previous() matches Some(pv) ==> old(allocator).can_access(pv, old(partition)@.len() as int)) ==> r is Ok,
    {
        let ghost used = allocator.spec_used();
        let ghost cs = allocator.spec_cluster_size() as int;
        let ghost p0 = partition@;
        let ghost fits = (exists|z: int|
            old(allocator).spec_cursor() <= z < old(allocator).spec_valid().end && !old(allocator).spec_used().covers(z))
            && old(allocator).spec_cluster_size() * old(allocator).spec_valid().end <= old(partition)@.len();
        let ghost vs = allocator.spec_valid().start as int;
        let ghost ve0 = allocator.spec_cursor() as int;
        let ghost ps = self.page_size as int;
        let ghost objs = self.objects@;
        let ghost w = self.written@ as int;
        let ghost tracking = self.holds_objects(p0, vs, ve0, used);
        proof {
            lemma_changes_only_free_refl(p0, used, cs);
        }
        let page_idx = match allocator.allocate_one() {
            Ok(idx) => idx,
            Err(e) => {
                return Err(e);
            },
        };
        proof {
            if fits {
                let i = page_idx.spec_idx() as int;
                let e = allocator.spec_valid().end as int;
                assert(cs * i + cs <= cs * e) by (nonlinear_arith)
                    requires
                        i + 1 <= e,
                        cs > 0,
                ;
            }
        }
        match allocator.write_in_cluster(partition, &page_idx, 0, self.current_page.as_slice()) {
            Ok(_) => {},
            Err(e) => {
                return Err(e);
            },
        }
        let ghost c = page_idx.spec_idx() as int;
        proof {
            lemma_cluster_change_is_free(p0, partition@, c, cs, used);
            assert(page_at(partition@, c, ps) =~= self.current_page@);
        }
        let ghost p1 = partition@;
        let ghost ve1 = allocator.spec_cursor() as int;

        // if the current page is not the head, write the current page's index into the previous page's pointer
        match &self.previous_page_idx {
            Some(previous) => {
                let mut pointer: Vec<u8> = Vec::new();
                push_u32(&mut pointer, 1);
                push_u32(&mut pointer, page_idx.as_cluster_idx());
                match allocator.write_in_cluster(partition, previous, 0, pointer.as_slice()) {
                    Ok(_) => {},
                    Err(e) => {
                        return Err(e);
                    },
                }
                proof {
                    lemma_cluster_change_is_free(p1, partition@, previous.spec_idx() as int, cs, used);
                    lemma_changes_only_free_trans(p0, p1, partition@, used, cs);
                    if tracking {
                        lemma_link_page(
                            p0,
                            p1,
                            partition@,
                            objs,
                            w,
                            self.current_page@,
                            self.position_in_current_page as int,
                            self.spec_first_page()->0 as int,
                            previous.spec_idx() as int,
                            self.last_end@,
                            c,
                            pointer@,
                            ps,
                            vs,
                            ve0,
                            ve1,
                            used,
                        );
                    }
                }
            },
            None => {
                proof {
                    if tracking {
                        assert(objs.skip(0) =~= objs);
                        lemma_read_end_in_page(p1, c, PAGE_IDX_SIZE as int, objs, ps, vs, ve1, used);
                        assert(objs.take(objs.len() as int) =~= objs);
                    }
                }
            },
        }

        // the previous page becomes the head if there is none yet; otherwise it is no longer needed
        if self.head.is_none() {
            let previous = self.previous_page_idx.take();
            self.head = previous;
        }
        self.previous_page_idx = Some(page_idx);
        let ghost end = self.position_in_current_page as int;
        self.reset_page();
        self.written = Ghost(objs.len());
        self.last_end = Ghost(end);
        proof {
            if tracking {
                assert(objs.skip(objs.len() as int) =~= Seq::<Seq<u8>>::empty());
                assert(objs.take(objs.len() as int) =~= objs);
            }
        }
        Ok(())
    }

    /// Clears the current page; its pointer says that no page follows.
    fn reset_page(&mut self)
        requires
            old(self).wf(),
        ensures
            final(self).wf(),
            final(self).spec_page_size() == old(self).spec_page_size(),
            final(self).spec_position() == PAGE_IDX_SIZE,
            final(self).spec_head() == old(self).spec_head(),
            final(self).spec_previous() == old(self).spec_previous(),
            final(self).spec_current_page() == Seq::new(final(self).spec_page_size() as nat, |i: int| 0u8),
            final(self).objects == old(self).objects,
            final(self).records == old(self).records,
            final(self).written == old(self).written,
            final(self).last_end == old(self).last_end,
    {
        let mut i: usize = 0;
        let n = self.current_page.len();
        while i < n
            invariant
                i <= n,
                n == self.current_page@.len(),
                self.page_size == old(self).page_size,
                self.position_in_current_page == old(self).position_in_current_page,
                self.head == old(self).head,
                self.previous_page_idx == old(self).previous_page_idx,
                self.objects == old(self).objects,
                self.records == old(self).records,
                self.written == old(self).written,
                self.last_end == old(self).last_end,
                forall|j: int| 0 <= j < i ==> self.current_page@[j] == 0u8,
            decreases n - i,
        {
            self.current_page.set(i, 0u8);
            i += 1;
        }
        self.position_in_current_page = PAGE_IDX_SIZE;
        assert(self.current_page@ =~= Seq::new(self.page_size as nat, |i: int| 0u8));
    }
}

/// The encoding of a file type.
pub fn encode_file_type(ft: FileType) -> (r: Vec<u8>)
    ensures
        r@ == file_type_bytes(ft),
{
    let mut v: Vec<u8> = Vec::new();
    match ft {
        FileType::Directory(n) => {
            push_u32(&mut v, FILE_TYPE_DIRECTORY);
            push_u32(&mut v, n);
        },
        FileType::RegularFile => {
            push_u32(&mut v, FILE_TYPE_REGULAR);
            push_u32(&mut v, 0);
        },
    }
    v
}

/// The encoding of a dentry representation.
pub fn encode_dentry_repr(d: DentryRepresentation) -> (r: Vec<u8>)
    ensures
        r@ == dentry_repr_bytes(d),
{
    let mut v: Vec<u8> = Vec::new();
    push_u32(&mut v, d.access_time);
    push_u32(&mut v, d.create_time);
    push_u32(&mut v, d.mod_time);
    push_u32(&mut v, d.file_size);
    push_u8(&mut v, if d.is_dir { 1u8 } else { 0u8 });
    assert(v@ =~= dentry_repr_bytes(d));
    v
}

/// The encoding of a cluster range.
pub fn encode_range(r: &Range<ClusterIdx>) -> (b: Vec<u8>)
    ensures
        b@ == range_bytes(*r),
{
    let mut v: Vec<u8> = Vec::new();
    push_u32(&mut v, r.start);
    push_u32(&mut v, r.end);
    v
}

/// The encoding of a header.
pub fn encode_header(tag: u32, len: u32) -> (r: Vec<u8>)
    ensures
        r@ == header_bytes(tag, len),
{
    let mut v: Vec<u8> = Vec::new();
    push_u32(&mut v, tag);
    push_u32(&mut v, len);
    v
}

impl StreamArchiver {
    /// Adds the encoding of one object after the ones in the current page, writing the page first if the object
    /// does not fit into it anymore.
    fn add_object(&mut self, object: &[u8], partition: &mut Vec<u8>, allocator: &mut Allocator) -> (r: Result<
        (),
        ConvertError,
    >)
        requires
            old(self).wf(),
            old(allocator).wf(),
            old(allocator).spec_cluster_size() == old(self).spec_page_size(),
            object@.len() <= MIN_PAGE_PAYLOAD_SIZE,
            old(self).pages_free(old(allocator).spec_used()),
        ensures
            r matches Err(e) ==> e == ConvertError::NoFreeClusters || e == ConvertError::InconsistentFileSystem,
            final(self).pages_free(final(allocator).spec_used()),
            r == Err::<(), ConvertError>(ConvertError::NoFreeClusters) ==> final(allocator).exhausted(),
            changes_only_free(
                old(partition)@,
                final(partition)@,
                old(allocator).spec_used(),
                old(allocator).spec_cluster_size() as int,
            ),
            final(self).wf(),
            final(self).spec_page_size() == old(self).spec_page_size(),
            final(allocator).wf(),
            final(allocator).spec_valid() == old(allocator).spec_valid(),
            final(allocator).spec_used() == old(allocator).spec_used(),
            final(allocator).spec_cluster_size() == old(allocator).spec_cluster_size(),
            final(partition)@.len() == old(partition)@.len(),
            final(allocator).spec_cursor() >= old(allocator).spec_cursor(),
            final(self).records == old(self).records,
            r is Ok ==> final(self).objects@ == old(self).objects@.push(object@),
            r is Ok && old(self).holds_objects(
                old(partition)@,
                old(allocator).spec_valid().start as int,
                old(allocator).spec_cursor() as int,
                old(allocator).spec_used(),
            ) ==> final(self).holds_objects(
                final(partition)@,
                final(allocator).spec_valid().start as int,
                final(allocator).spec_cursor() as int,
                final(allocator).spec_used(),
            ),
            r is Ok ==> if fits_in_page(old(self).spec_page_size() as int, old(self).spec_position() as int, object@.len() as int) {
                &&& final(self).spec_position() == old(self).spec_position() + object@.len()
                &&& final(self).spec_current_page() == crate::bytes::spliced(
                    old(self).spec_current_page(),
                    old(self).spec_position() as int,
                    object@,
                )
            } else {
                &&& final(self).spec_position() == PAGE_IDX_SIZE + object@.len()
                &&& final(self).spec_current_page() == crate::bytes::spliced(
                    Seq::new(old(self).spec_page_size() as nat, |i: int| 0u8),
                    PAGE_IDX_SIZE as int,
                    object@,
                )
            },
    {
        let ghost vs = allocator.spec_valid().start as int;
        let ghost tracking = self.holds_objects(partition@, vs, allocator.spec_cursor() as int, allocator.spec_used());
        let ghost objs = self.objects@;
        let ghost ps = self.page_size as int;
        proof {
            lemma_changes_only_free_refl(partition@, allocator.spec_used(), allocator.spec_cluster_size() as int);
        }
        if self.space_left_in_page() < object.len() {
            match self.write_page(partition, allocator) {
            Ok(_) => {},
            Err(e) => {
                return Err(e);
            },
        }
            proof {
                if tracking {
                    assert(objs.skip(objs.len() as int) =~= Seq::<Seq<u8>>::empty());
                }
            }
        }
        let pos = self.position_in_current_page;
        let ghost w = self.written@ as int;
        let ghost page = self.current_page@;
        crate::bytes::write_bytes(&mut self.current_page, pos, object);
        self.position_in_current_page = pos + object.len();
        self.objects = Ghost(objs.push(object@));
        proof {
            if tracking {
                lemma_in_page_push(page, PAGE_IDX_SIZE as int, objs.skip(w), object@, ps);
                assert(self.objects@.skip(w) =~= objs.skip(w).push(object@));
                assert(self.objects@.take(w) =~= objs.take(w));
                assert(self.current_page@ == crate::bytes::spliced(page, pos as int, object@));
            }
        }
        Ok(())
    }

    /// Archives `record`: a header stating the kind and number of its objects, then the objects.
    pub fn archive(&mut self, record: &Record, partition: &mut Vec<u8>, allocator: &mut Allocator) -> (r: Result<
        (),
        ConvertError,
    >)
        requires
            old(self).wf(),
            old(allocator).wf(),
            old(allocator).spec_cluster_size() == old(self).spec_page_size(),
            old(self).pages_free(old(allocator).spec_used()),
        ensures
            final(self).wf(),
            final(self).spec_page_size() == old(self).spec_page_size(),
            final(self).pages_free(final(allocator).spec_used()),
            changes_only_free(
                old(partition)@,
                final(partition)@,
                old(allocator).spec_used(),
                old(allocator).spec_cluster_size() as int,
            ),
            final(allocator).wf(),
            final(allocator).spec_valid() == old(allocator).spec_valid(),
            final(allocator).spec_used() == old(allocator).spec_used(),
            final(allocator).spec_cluster_size() == old(allocator).spec_cluster_size(),
            final(partition)@.len() == old(partition)@.len(),
            final(allocator).spec_cursor() >= old(allocator).spec_cursor(),
            r is Ok ==> final(self).spec_records() == old(self).spec_records().push(*record),
            r is Ok && old(self).holds(
                old(partition)@,
                old(allocator).spec_valid().start as int,
                old(allocator).spec_cursor() as int,
                old(allocator).spec_used(),
            ) ==> final(self).holds(
                final(partition)@,
                final(allocator).spec_valid().start as int,
                final(allocator).spec_cursor() as int,
                final(allocator).spec_used(),
            ),
            r matches Err(e) ==> e == ConvertError::NoFreeClusters || e == ConvertError::InconsistentFileSystem
                || e == ConvertError::CorruptedData,
            r == Err::<(), ConvertError>(ConvertError::NoFreeClusters) ==> final(allocator).exhausted(),
    {
        let ghost vs = allocator.spec_valid().start as int;
        let ghost tracking = self.holds(partition@, vs, allocator.spec_cursor() as int, allocator.spec_used());
        let ghost objs = self.objects@;
        let ghost objects = record_objects(*record);
        let (tag, len) = match record {
            Record::FileTypes(v) => (TAG_FILE_TYPE, v.len()),
            Record::Dentries(v) => (TAG_DENTRY, v.len()),
            Record::Bytes(v) => (TAG_BYTE, v.len()),
            Record::Ranges(v) => (TAG_RANGE, v.len()),
        };
        let ghost p0 = partition@;
        let ghost used = allocator.spec_used();
        let ghost cs = allocator.spec_cluster_size() as int;
        proof {
            lemma_changes_only_free_refl(p0, used, cs);
        }
        if len > u32::MAX as usize {
            return Err(ConvertError::CorruptedData);
        }
        let header = encode_header(tag, len as u32);
        match self.add_object(header.as_slice(), partition, allocator) {
            Ok(_) => {},
            Err(e) => {
                return Err(e);
            },
        }
        proof {
            assert(header@ == objects[0]);
            assert(objs + objects.take(1) =~= objs.push(header@));
        }
        let mut i: usize = 0;
        while i < len
            invariant
                self.wf(),
                self.spec_page_size() == old(self).spec_page_size(),
                allocator.wf(),
                allocator.spec_valid() == old(allocator).spec_valid(),
                allocator.spec_used() == old(allocator).spec_used(),
                allocator.spec_cluster_size() == old(allocator).spec_cluster_size(),
                allocator.spec_cluster_size() == self.spec_page_size(),
                partition@.len() == old(partition)@.len(),
                self.pages_free(allocator.spec_used()),
                used == old(allocator).spec_used(),
                cs == old(allocator).spec_cluster_size(),
                p0 == old(partition)@,
                changes_only_free(p0, partition@, used, cs),
                len == match record {
                    Record::FileTypes(v) => v@.len(),
                    Record::Dentries(v) => v@.len(),
                    Record::Bytes(v) => v@.len(),
                    Record::Ranges(v) => v@.len(),
                },
                len <= u32::MAX,
                i <= len,
                objects == record_objects(*record),
                self.objects@ == objs + objects.take(i + 1),
                self.records == old(self).records,
                allocator.spec_cursor() >= old(allocator).spec_cursor(),
                vs == allocator.spec_valid().start as int,
                tracking ==> self.holds_objects(partition@, vs, allocator.spec_cursor() as int, allocator.spec_used()),
                tracking ==> objs == records_objects(old(self).records@) && records_fit(old(self).records@),
            decreases len - i,
        {
            let object = match record {
                Record::FileTypes(v) => {
                    let o = encode_file_type(v[i]);
                    proof {
                        assert(o@ == objects[i + 1]);
                    }
                    o
                },
                Record::Dentries(v) => {
                    let o = encode_dentry_repr(v[i]);
                    proof {
                        assert(o@ == objects[i + 1]);
                    }
                    o
                },
                Record::Bytes(v) => {
                    let mut b: Vec<u8> = Vec::new();
                    b.push(v[i]);
                    proof {
                        assert(b@ =~= objects[i + 1]);
                    }
                    b
                },
                Record::Ranges(v) => {
                    let o = encode_range(&v[i]);
                    proof {
                        assert(o@ == objects[i + 1]);
                    }
                    o
                },
            };
            proof {
                assert(object@.len() <= 17);
            }
            let ghost before = partition@;
            let r = self.add_object(object.as_slice(), partition, allocator);
            proof {
                lemma_changes_only_free_trans(p0, before, partition@, used, cs);
            }
            match r {
                Ok(_) => {},
                Err(e) => {
                    return Err(e);
                },
            }
            proof {
                assert(objs + objects.take(i + 2) =~= (objs + objects.take(i + 1)).push(object@));
            }
            i += 1;
        }
        let ghost records = self.records@;
        self.records = Ghost(records.push(*record));
        proof {
            assert(objects.take(len + 1) =~= objects);
            assert(records.push(*record).drop_last() =~= records);
            assert(records.push(*record).last() == *record);
            assert(records_objects(records.push(*record)) == records_objects(records) + objects);
            if tracking {
                assert forall|k: int| 0 <= k < records.push(*record).len() implies record_len(
                    #[trigger] records.push(*record)[k],
                ) <= u32::MAX by {
                    if k < records.len() {
                        assert(records.push(*record)[k] == records[k]);
                    }
                }
                assert(self.holds_objects(partition@, vs, allocator.spec_cursor() as int, allocator.spec_used()));
                assert(self.objects@ == records_objects(self.records@));
                assert(records_fit(self.records@));
            }
        }
        Ok(())
    }

    /// Whether the last page can be written with `allocator` into a partition of `partition_len` bytes: a cluster
    /// is left to allocate, the partition holds every cluster, and the page written before can be reached.
    pub open spec fn can_finish(&self, allocator: Allocator, partition_len: int) -> bool {
        &&& allocator.free_clusters() > 0
        &&& allocator.spec_cluster_size() * allocator.spec_valid().end <= partition_len
        &&& self.spec_previous() matches Some(pv) ==> allocator.can_access(pv, partition_len)
    }

    /// Writes the last page and hands out a reader of the archive, together with the allocator for the clusters
    /// after the archive; the reader can only read the clusters allocated so far.
    pub fn into_reader(self, partition: &mut Vec<u8>, allocator: Allocator) -> (r: Result<
        (Reader, Allocator),
        ConvertError,
    >)
        requires
            self.wf(),
            allocator.wf(),
            allocator.spec_cluster_size() == self.spec_page_size(),
            self.pages_free(allocator.spec_used()),
        ensures
            final(partition)@.len() == old(partition)@.len(),
            changes_only_free(old(partition)@, final(partition)@, allocator.spec_used(), allocator.spec_cluster_size() as int),
            r matches Ok((reader, rest)) ==> {
                &&& reader.wf()
                &&& reader.spec_position() == PAGE_IDX_SIZE
                &&& reader.spec_page_size() == self.spec_page_size()
                &&& reader.spec_avoid() == allocator.spec_used()
                &&& reader.spec_clusters().spec_valid().end == rest.spec_valid().start
                &&& reader.spec_clusters().spec_cluster_size() == allocator.spec_cluster_size()
                &&& rest.wf()
                &&& rest.spec_valid().start == rest.spec_cursor()
                &&& rest.spec_used() == allocator.spec_used()
                &&& rest.spec_cluster_size() == allocator.spec_cluster_size()
            },
            self.holds(old(partition)@, allocator.spec_valid().start as int, allocator.spec_cursor() as int, allocator.spec_used()) ==> {
                &&& r matches Ok((reader, _)) ==> reader.holds(final(partition)@) && reader.spec_pending()
                    == self.spec_records()
                &&& r matches Err(e) ==> e == ConvertError::NoFreeClusters || e == ConvertError::InconsistentFileSystem
            },
            r matches Err(e) ==> (e == ConvertError::NoFreeClusters ==> allocator.exhausted()),
            r matches Ok((_, rest)) ==> rest.free_clusters() == allocator.free_clusters() - 1,
            self.can_finish(allocator, old(partition)@.len() as int) && self.holds(
                old(partition)@,
                allocator.spec_valid().start as int,
                allocator.spec_cursor() as int,
                allocator.spec_used(),
            ) ==> r is Ok,
    {
        let ghost tracking = self.holds(partition@, allocator.spec_valid().start as int, allocator.spec_cursor() as int, allocator.spec_used());
        let ghost records = self.records@;
        let mut archiver = self;
        let mut allocator = allocator;
        proof {
            if self.can_finish(allocator, partition@.len() as int) && !(exists|z: int|
                allocator.spec_cursor() <= z < allocator.spec_valid().end && !allocator.spec_used().covers(z)) {
                allocator.spec_used().lemma_count_covered_prefix(
                    allocator.spec_cursor() as int,
                    allocator.spec_valid().end as int,
                    allocator.spec_valid().end as int,
                );
            }
        }
        archiver.write_page(partition, &mut allocator)?;
        let ghost objs = archiver.objects@;
        proof {
            if tracking {
                assert(objs.take(objs.len() as int) =~= objs);
            }
        }
        let head = match archiver.head {
            Some(idx) => idx.as_cluster_idx(),
            None => match archiver.previous_page_idx {
                Some(idx) => idx.as_cluster_idx(),
                None => {
                    return Err(ConvertError::CorruptedData);
                },
            },
        };
        let page_size = archiver.page_size;
        let (allocated_reader, new_allocator) = allocator.split_into_reader();
        let mut reader = Reader::new(head, page_size, allocated_reader, partition.as_slice(), Ghost(allocator.spec_used()))?;
        reader.pending = Ghost(records);
        Ok((reader, new_allocator))
    }
}

/// Reads back the objects of an archive from the partition, in the order in which they were archived.
pub struct Reader {
    current_page: Vec<u8>,
    page_size: usize,
    position_in_current_page: usize,
    allocator: AllocatedReader,
    /// The cluster of the current page.
    page_idx: Ghost<int>,
    /// The records that are still to be read.
    pending: Ghost<Seq<Record>>,
    /// The clusters that no page of the archive lies in.
    avoid: Ghost<Ranges>,
}

impl Reader {
    pub closed spec fn spec_page_size(&self) -> usize {
        self.page_size
    }

    pub closed spec fn spec_position(&self) -> usize {
        self.position_in_current_page
    }

    /// The bytes of the page being read.
    pub closed spec fn spec_current_page(&self) -> Seq<u8> {
        self.current_page@
    }

    /// The cluster of the page being read.
    pub closed spec fn spec_page_idx(&self) -> int {
        self.page_idx@
    }

    /// The clusters that the reader may read.
    pub closed spec fn spec_clusters(&self) -> AllocatedReader {
        self.allocator
    }

    /// The records that the reader has yet to read, if it was handed out by the archiver that wrote them.
    pub closed spec fn spec_pending(&self) -> Seq<Record> {
        self.pending@
    }

    /// The clusters that no page of the archive lies in.
    pub closed spec fn spec_avoid(&self) -> Ranges {
        self.avoid@
    }

    pub open spec fn wf(&self) -> bool {
        &&& self.spec_page_size() >= PAGE_IDX_SIZE + MIN_PAGE_PAYLOAD_SIZE
        &&& self.spec_current_page().len() == self.spec_page_size()
        &&& PAGE_IDX_SIZE <= self.spec_position() <= self.spec_page_size()
    }

    /// From where it stands, the reader reads `objs` back from `p`.
    pub closed spec fn reads_back(&self, p: Seq<u8>, objs: Seq<Seq<u8>>) -> bool {
        let ps = self.page_size as int;
        let idx = self.page_idx@;
        &&& self.wf()
        &&& self.allocator.spec_cluster_size() == self.page_size
        &&& 0 <= ps * idx
        &&& ps * idx + ps <= p.len()
        &&& objs.len() > 0 ==> {
            &&& readable_page(
                p,
                idx,
                ps,
                self.allocator.spec_valid().start as int,
                self.allocator.spec_valid().end as int,
                self.avoid@,
            )
            &&& self.current_page@ == page_at(p, idx, ps)
        }
        &&& read_end(
            p,
            idx,
            self.position_in_current_page as int,
            objs,
            ps,
            self.allocator.spec_valid().start as int,
            self.allocator.spec_valid().end as int,
            self.avoid@,
        ) is Some
    }

    /// The reader reads its pending records back from `p`, in the order in which they were archived.
    pub closed spec fn holds(&self, p: Seq<u8>) -> bool {
        &&& self.reads_back(p, records_objects(self.pending@))
        &&& records_fit(self.pending@)
    }

    /// The reader has read every record that it was handed, or it reads the rest back from `p`.
    pub open spec fn intact(&self, p: Seq<u8>) -> bool {
        self.spec_pending().len() == 0 || self.holds(p)
    }

    /// Whether cluster `c` may hold a page that the reader has yet to read: one of its clusters that lies outside
    /// the clusters to avoid.
    pub open spec fn may_read(&self, c: int) -> bool {
        &&& self.spec_clusters().spec_valid().start <= c < self.spec_clusters().spec_valid().end
        &&& !self.spec_avoid().covers(c)
    }

    /// The reader still reads its pending records back from `q` if `q` differs from `p` only in clusters that hold
    /// no page it may read.
    pub proof fn lemma_holds_frame(&self, p: Seq<u8>, q: Seq<u8>)
        requires
            self.holds(p),
            q.len() == p.len(),
            forall|b: int| 0 <= b < p.len() && #[trigger] q[b] != p[b] ==> !self.may_read(b / (self.spec_page_size() as int)),
        ensures
            self.holds(q),
    {
        let ps = self.page_size as int;
        let vs = self.allocator.spec_valid().start as int;
        let ve = self.allocator.spec_valid().end as int;
        let used = self.avoid@;
        let idx = self.page_idx@;
        let objs = records_objects(self.pending@);
        assert forall|j: int| #[trigger] readable_page(p, j, ps, vs, ve, used) implies page_at(q, j, ps) == page_at(p, j, ps) by {
            assert forall|b: int| ps * j <= b < ps * j + ps implies q[b] == p[b] by {
                assert(b / ps == j) by (nonlinear_arith)
                    requires
                        ps * j <= b < ps * j + ps,
                        ps > 0,
                ;
                assert(self.may_read(j));
            }
            assert(page_at(q, j, ps) =~= page_at(p, j, ps));
        }
        if objs.len() > 0 {
            assert(readable_page(p, idx, ps, vs, ve, used));
        }
        lemma_read_end_frame_readable(p, q, idx, self.position_in_current_page as int, objs, ps, vs, ve, used);
    }

    /// A reader that starts with the first object of page `first_page_idx`; fails with `CorruptedData` if that
    /// page cannot be read. It has no pending records.
    pub fn new(
        first_page_idx: ClusterIdx,
        page_size: usize,
        allocated_reader: AllocatedReader,
        partition: &[u8],
        Ghost(avoid): Ghost<Ranges>,
    ) -> (r: Result<Self, ConvertError>)
        ensures
            match r {
                Ok(reader) => {
                    &&& reader.wf()
                    &&& reader.spec_position() == PAGE_IDX_SIZE
                    &&& reader.spec_page_size() == page_size
                    &&& allocated_reader.can_access(first_page_idx, partition@.len() as int)
                    &&& reader.spec_current_page() == partition@.subrange(
                        allocated_reader.spec_cluster_size() * first_page_idx,
                        allocated_reader.spec_cluster_size() * first_page_idx + allocated_reader.spec_cluster_size(),
                    )
                    &&& reader.spec_pending() == Seq::<Record>::empty()
                    &&& reader.holds(partition@)
                    &&& reader.spec_page_idx() == first_page_idx
                    &&& reader.spec_clusters() == allocated_reader
                    &&& reader.spec_avoid() == avoid
                },
                Err(e) => e == ConvertError::CorruptedData,
            },
            page_size >= PAGE_IDX_SIZE + MIN_PAGE_PAYLOAD_SIZE && allocated_reader.spec_cluster_size() == page_size
                && allocated_reader.can_access(first_page_idx, partition@.len() as int) ==> r is Ok,
    {
        if page_size < PAGE_IDX_SIZE + MIN_PAGE_PAYLOAD_SIZE || allocated_reader.cluster_size() != page_size {
            return Err(ConvertError::CorruptedData);
        }
        let current_page = match allocated_reader.read_cluster(partition, first_page_idx) {
            Some(page) => page,
            None => {
                return Err(ConvertError::CorruptedData);
            },
        };
        proof {
            assert(0 <= page_size * first_page_idx) by (nonlinear_arith)
                requires
                    page_size > 0,
            ;
            assert(records_objects(Seq::<Record>::empty()) == Seq::<Seq<u8>>::empty());
        }
        Ok(Reader {
            current_page,
            page_size,
            position_in_current_page: PAGE_IDX_SIZE,
            allocator: allocated_reader,
            page_idx: Ghost(first_page_idx as int),
            pending: Ghost(Seq::empty()),
            avoid: Ghost(avoid),
        })
    }

    /// A reader at the same position of the same archive.
    pub fn duplicate(&self) -> (r: Self)
        ensures
            r.spec_page_size() == self.spec_page_size(),
            r.spec_position() == self.spec_position(),
            r.spec_current_page() == self.spec_current_page(),
            r.spec_pending() == self.spec_pending(),
            r.spec_avoid() == self.spec_avoid(),
            forall|p: Seq<u8>| #[trigger] r.holds(p) == self.holds(p),
    {
        let n = self.current_page.len();
        let current_page = copy_out(self.current_page.as_slice(), 0, n);
        proof {
            assert(current_page@ =~= self.current_page@);
        }
        Reader {
            current_page,
            page_size: self.page_size,
            position_in_current_page: self.position_in_current_page,
            allocator: self.allocator.duplicate(),
            page_idx: Ghost(self.page_idx@),
            pending: Ghost(self.pending@),
            avoid: Ghost(self.avoid@),
        }
    }

    /// Moves to the page that the current page points to; fails with `CorruptedData` if there is none.
    fn next_page(&mut self, partition: &[u8]) -> (r: Result<(), ConvertError>)
        requires
            old(self).wf(),
        ensures
            final(self).spec_page_size() == old(self).spec_page_size(),
            final(self).allocator == old(self).allocator,
            final(self).pending == old(self).pending,
            final(self).avoid == old(self).avoid,
            r is Ok ==> final(self).wf() && final(self).spec_position() == PAGE_IDX_SIZE && le_u32(
                old(self).spec_current_page(),
                0,
            ) == 1,
            r is Ok ==> {
                let next = le_u32(old(self).spec_current_page(), 4);
                let cs = old(self).allocator.spec_cluster_size() as int;
                &&& final(self).page_idx@ == next
                &&& final(self).current_page@ == partition@.subrange(cs * next, cs * next + cs)
            },
            le_u32(old(self).spec_current_page(), 0) == 1 && old(self).allocator.can_access(
                le_u32(old(self).spec_current_page(), 4) as u32,
                partition@.len() as int,
            ) && old(self).allocator.spec_cluster_size() == old(self).spec_page_size() ==> r is Ok,
            r is Err ==> *final(self) == *old(self),
            r matches Err(e) ==> e == ConvertError::CorruptedData,
    {
        let flag = read_u32(self.current_page.as_slice(), 0);
        let next_page_idx = read_u32(self.current_page.as_slice(), 4);
        if flag != 1 {
            return Err(ConvertError::CorruptedData);
        }
        let page = match self.allocator.read_cluster(partition, next_page_idx) {
            Some(page) => page,
            None => {
                return Err(ConvertError::CorruptedData);
            },
        };
        if page.len() != self.page_size {
            return Err(ConvertError::CorruptedData);
        }
        self.current_page = page;
        self.page_idx = Ghost(next_page_idx as int);
        // skip the pointer to the next page
        self.position_in_current_page = PAGE_IDX_SIZE;
        Ok(())
    }

    /// Reads the next object of `size` bytes, moving to the next page first if it does not fit into the rest of
    /// the current page, just as the archiver did. If the reader reads back `objs` and the first of them has `size`
    /// bytes, that is the object read.
    fn next_object(&mut self, size: usize, partition: &[u8], Ghost(objs): Ghost<Seq<Seq<u8>>>) -> (r: Result<
        Vec<u8>,
        ConvertError,
    >)
        requires
            old(self).wf(),
            size <= MIN_PAGE_PAYLOAD_SIZE,
        ensures
            final(self).spec_page_size() == old(self).spec_page_size(),
            final(self).allocator == old(self).allocator,
            final(self).pending == old(self).pending,
            final(self).avoid == old(self).avoid,
            match r {
                Ok(bytes) => {
                    &&& final(self).wf()
                    &&& bytes@.len() == size
                    &&& fits_in_page(old(self).spec_page_size() as int, old(self).spec_position() as int, size as int)
                        ==> bytes@ == old(self).spec_current_page().subrange(
                        old(self).spec_position() as int,
                        old(self).spec_position() + size,
                    ) && final(self).spec_position() == old(self).spec_position() + size
                    &&& !fits_in_page(old(self).spec_page_size() as int, old(self).spec_position() as int, size as int)
                        ==> final(self).spec_position() == PAGE_IDX_SIZE + size
                },
                Err(e) => e == ConvertError::CorruptedData,
            },
            old(self).reads_back(partition@, objs) && objs.len() > 0 && objs[0].len() == size ==> {
                &&& r matches Ok(bytes)
                &&& bytes@ == objs[0]
                &&& final(self).reads_back(partition@, objs.drop_first())
            },
    {
        let ghost ps = self.page_size as int;
        let ghost tracking = self.reads_back(partition@, objs) && objs.len() > 0 && objs[0].len() == size;
        if self.page_size - self.position_in_current_page < size {
            proof {
                if tracking {
                    let next = le_u32(self.current_page@, 4);
                    assert(0 <= next <= u32::MAX);
                    assert(next as u32 as int == next);
                }
            }
            match self.next_page(partition) {
            Ok(_) => {},
            Err(e) => {
                return Err(e);
            },
        }
            proof {
                if tracking {
                    assert(self.current_page@ == page_at(partition@, self.page_idx@, ps));
                }
            }
        }
        let pos = self.position_in_current_page;
        let bytes = copy_out(self.current_page.as_slice(), pos, size);
        self.position_in_current_page = pos + size;
        Ok(bytes)
    }

    /// Reads the next header and checks that it announces objects of kind `tag`; returns their number.
    fn read_header(&mut self, tag: u32, partition: &[u8], Ghost(objs): Ghost<Seq<Seq<u8>>>) -> (r: Result<
        u32,
        ConvertError,
    >)
        requires
            old(self).wf(),
        ensures
            final(self).spec_page_size() == old(self).spec_page_size(),
            final(self).allocator == old(self).allocator,
            final(self).pending == old(self).pending,
            final(self).avoid == old(self).avoid,
            r is Ok ==> final(self).wf(),
            r matches Err(e) ==> e == ConvertError::CorruptedData,
            old(self).reads_back(partition@, objs) && objs.len() > 0 && objs[0].len() == HEADER_SIZE ==> {
                &&& (r is Ok <==> le_u32(objs[0], 0) == tag)
                &&& r matches Ok(n) ==> n == le_u32(objs[0], 4) && final(self).reads_back(partition@, objs.drop_first())
            },
    {
        let header = self.next_object(HEADER_SIZE, partition, Ghost(objs))?;
        if read_u32(header.as_slice(), 0) != tag {
            return Err(ConvertError::CorruptedData);
        }
        Ok(read_u32(header.as_slice(), 4))
    }

    /// Reads the next list of file types; fails with `CorruptedData` if the archive holds something else there.
    /// Reading back its pending records, the reader returns the items of the first one, which must be a list of
    /// file types.
    pub fn next_file_types(&mut self, partition: &[u8]) -> (r: Result<Vec<FileType>, ConvertError>)
        requires
            old(self).wf(),
        ensures
            r is Ok ==> final(self).wf(),
            final(self).spec_page_size() == old(self).spec_page_size(),
            r matches Err(e) ==> e == ConvertError::CorruptedData,
            final(self).spec_clusters() == old(self).spec_clusters(),
            final(self).spec_avoid() == old(self).spec_avoid(),
            r is Ok && old(self).intact(partition@) ==> final(self).intact(partition@),
            old(self).holds(partition@) && old(self).spec_pending().len() > 0 ==> match old(self).spec_pending()[0] {
                Record::FileTypes(v) => {
                    &&& r matches Ok(items)
                    &&& items@ == v@
                    &&& final(self).spec_pending() == old(self).spec_pending().drop_first()
                    &&& final(self).holds(partition@)
                },
                _ => r is Err,
            },
    {
        let ghost pending = self.pending@;
        let ghost first = pending[0];
        let ghost tracking = self.holds(partition@) && pending.len() > 0;
        let ghost matching = tracking && first is FileTypes;
        let ghost vals: Seq<FileType> = match first {
            Record::FileTypes(v) => v@,
            _ => Seq::empty(),
        };
        let ghost items = vals.map_values(|ft: FileType| file_type_bytes(ft));
        let ghost rest = records_objects(pending.drop_first());
        proof {
            if tracking {
                lemma_records_objects_first(pending);
                lemma_record_header(first);
                assert(record_len(pending[0]) <= u32::MAX);
                if matching {
                    assert(records_objects(pending).drop_first() =~= items + rest);
                }
            }
        }
        let len = self.read_header(TAG_FILE_TYPE, partition, Ghost(records_objects(pending)))?;
        let mut result: Vec<FileType> = Vec::new();
        proof {
            if matching {
                assert(items.skip(0) + rest =~= items + rest);
                assert(result@ =~= vals.take(0));
            }
        }
        let mut i: u32 = 0;
        while i < len
            invariant
                self.wf(),
                self.spec_page_size() == old(self).spec_page_size(),
                self.pending == old(self).pending,
                self.allocator == old(self).allocator,
                self.avoid == old(self).avoid,
                items == vals.map_values(|ft: FileType| file_type_bytes(ft)),
                tracking == (old(self).holds(partition@) && old(self).spec_pending().len() > 0),
                tracking ==> matching,
                matching ==> first == old(self).spec_pending()[0] && first is FileTypes && vals == (match first {
                    Record::FileTypes(v) => v@,
                    _ => Seq::empty(),
                }),
                matching ==> {
                    &&& len == vals.len()
                    &&& i <= len
                    &&& self.reads_back(partition@, items.skip(i as int) + rest)
                    &&& result@ == vals.take(i as int)
                },
            decreases len - i,
        {
            let ghost objs = items.skip(i as int) + rest;
            proof {
                if matching {
                    assert(items.len() == vals.len());
                    assert(items.skip(i as int).len() > 0);
                    assert(objs[0] == items.skip(i as int)[0]);
                    assert(objs[0] == items[i as int]);
                    assert(objs[0].len() == FILE_TYPE_SIZE);
                }
            }
            let bytes = self.next_object(FILE_TYPE_SIZE, partition, Ghost(objs))?;
            proof {
                if matching {
                    law_file_type_roundtrip(vals[i as int]);
                }
            }
            let kind = read_u32(bytes.as_slice(), 0);
            let count = read_u32(bytes.as_slice(), 4);
            if kind == FILE_TYPE_DIRECTORY {
                result.push(FileType::Directory(count));
            } else if kind == FILE_TYPE_REGULAR {
                result.push(FileType::RegularFile);
            } else {
                return Err(ConvertError::CorruptedData);
            }
            proof {
                if matching {
                    assert(objs.drop_first() =~= items.skip(i + 1) + rest);
                    assert(result@ =~= vals.take(i + 1));
                }
            }
            i += 1;
        }
        proof {
            if matching {
                assert(items.skip(len as int) + rest =~= rest);
                assert(vals.take(len as int) =~= vals);
            }
        }
        self.pending = Ghost(if pending.len() > 0 { pending.drop_first() } else { pending });
        Ok(result)
    }

    /// Reads the next list of dentry representations; fails with `CorruptedData` if the archive holds something
    /// else there. Reading back its pending records, the reader returns the items of the first one, which must be a
    /// list of dentry representations.
    pub fn next_dentries(&mut self, partition: &[u8]) -> (r: Result<Vec<DentryRepresentation>, ConvertError>)
        requires
            old(self).wf(),
        ensures
            r is Ok ==> final(self).wf(),
            final(self).spec_page_size() == old(self).spec_page_size(),
            r matches Err(e) ==> e == ConvertError::CorruptedData,
            final(self).spec_clusters() == old(self).spec_clusters(),
            final(self).spec_avoid() == old(self).spec_avoid(),
            r is Ok && old(self).intact(partition@) ==> final(self).intact(partition@),
            old(self).holds(partition@) && old(self).spec_pending().len() > 0 ==> match old(self).spec_pending()[0] {
                Record::Dentries(v) => {
                    &&& r matches Ok(items)
                    &&& items@ == v@
                    &&& final(self).spec_pending() == old(self).spec_pending().drop_first()
                    &&& final(self).holds(partition@)
                },
                _ => r is Err,
            },
    {
        let ghost pending = self.pending@;
        let ghost first = pending[0];
        let ghost tracking = self.holds(partition@) && pending.len() > 0;
        let ghost matching = tracking && first is Dentries;
        let ghost vals: Seq<DentryRepresentation> = match first {
            Record::Dentries(v) => v@,
            _ => Seq::empty(),
        };
        let ghost items = vals.map_values(|d: DentryRepresentation| dentry_repr_bytes(d));
        let ghost rest = records_objects(pending.drop_first());
        proof {
            if tracking {
                lemma_records_objects_first(pending);
                lemma_record_header(first);
                assert(record_len(pending[0]) <= u32::MAX);
                if matching {
                    assert(records_objects(pending).drop_first() =~= items + rest);
                }
            }
        }
        let len = self.read_header(TAG_DENTRY, partition, Ghost(records_objects(pending)))?;
        let mut result: Vec<DentryRepresentation> = Vec::new();
        proof {
            if matching {
                assert(items.skip(0) + rest =~= items + rest);
                assert(result@ =~= vals.take(0));
            }
        }
        let mut i: u32 = 0;
        while i < len
            invariant
                self.wf(),
                self.spec_page_size() == old(self).spec_page_size(),
                self.pending == old(self).pending,
                self.allocator == old(self).allocator,
                self.avoid == old(self).avoid,
                items == vals.map_values(|d: DentryRepresentation| dentry_repr_bytes(d)),
                tracking == (old(self).holds(partition@) && old(self).spec_pending().len() > 0),
                tracking ==> matching,
                matching ==> first == old(self).spec_pending()[0] && first is Dentries && vals == (match first {
                    Record::Dentries(v) => v@,
                    _ => Seq::empty(),
                }),
                matching ==> {
                    &&& len == vals.len()
                    &&& i <= len
                    &&& self.reads_back(partition@, items.skip(i as int) + rest)
                    &&& result@ == vals.take(i as int)
                },
            decreases len - i,
        {
            let ghost objs = items.skip(i as int) + rest;
            proof {
                if matching {
                    assert(items.len() == vals.len());
                    assert(items.skip(i as int).len() > 0);
                    assert(objs[0] == items.skip(i as int)[0]);
                    assert(objs[0] == items[i as int]);
                    assert(objs[0].len() == DENTRY_REPR_SIZE);
                }
            }
            let bytes = self.next_object(DENTRY_REPR_SIZE, partition, Ghost(objs))?;
            proof {
                if matching {
                    law_dentry_repr_roundtrip(vals[i as int]);
                }
            }
            result.push(DentryRepresentation {
                access_time: read_u32(bytes.as_slice(), 0),
                create_time: read_u32(bytes.as_slice(), 4),
                mod_time: read_u32(bytes.as_slice(), 8),
                file_size: read_u32(bytes.as_slice(), 12),
                is_dir: bytes[16] != 0,
            });
            proof {
                if matching {
                    assert(objs.drop_first() =~= items.skip(i + 1) + rest);
                    assert(result@ =~= vals.take(i + 1));
                }
            }
            i += 1;
        }
        proof {
            if matching {
                assert(items.skip(len as int) + rest =~= rest);
                assert(vals.take(len as int) =~= vals);
            }
        }
        self.pending = Ghost(if pending.len() > 0 { pending.drop_first() } else { pending });
        Ok(result)
    }

    /// Reads the next list of bytes; fails with `CorruptedData` if the archive holds something else there. Reading
    /// back its pending records, the reader returns the items of the first one, which must be a list of bytes.
    pub fn next_bytes(&mut self, partition: &[u8]) -> (r: Result<Vec<u8>, ConvertError>)
        requires
            old(self).wf(),
        ensures
            r is Ok ==> final(self).wf(),
            final(self).spec_page_size() == old(self).spec_page_size(),
            r matches Err(e) ==> e == ConvertError::CorruptedData,
            final(self).spec_clusters() == old(self).spec_clusters(),
            final(self).spec_avoid() == old(self).spec_avoid(),
            r is Ok && old(self).intact(partition@) ==> final(self).intact(partition@),
            old(self).holds(partition@) && old(self).spec_pending().len() > 0 ==> match old(self).spec_pending()[0] {
                Record::Bytes(v) => {
                    &&& r matches Ok(items)
                    &&& items@ == v@
                    &&& final(self).spec_pending() == old(self).spec_pending().drop_first()
                    &&& final(self).holds(partition@)
                },
                _ => r is Err,
            },
    {
        let ghost pending = self.pending@;
        let ghost first = pending[0];
        let ghost tracking = self.holds(partition@) && pending.len() > 0;
        let ghost matching = tracking && first is Bytes;
        let ghost vals: Seq<u8> = match first {
            Record::Bytes(v) => v@,
            _ => Seq::empty(),
        };
        let ghost items = vals.map_values(|b: u8| seq![b]);
        let ghost rest = records_objects(pending.drop_first());
        proof {
            if tracking {
                lemma_records_objects_first(pending);
                lemma_record_header(first);
                assert(record_len(pending[0]) <= u32::MAX);
                if matching {
                    assert(records_objects(pending).drop_first() =~= items + rest);
                }
            }
        }
        let len = self.read_header(TAG_BYTE, partition, Ghost(records_objects(pending)))?;
        let mut result: Vec<u8> = Vec::new();
        proof {
            if matching {
                assert(items.skip(0) + rest =~= items + rest);
                assert(result@ =~= vals.take(0));
            }
        }
        let mut i: u32 = 0;
        while i < len
            invariant
                self.wf(),
                self.spec_page_size() == old(self).spec_page_size(),
                self.pending == old(self).pending,
                self.allocator == old(self).allocator,
                self.avoid == old(self).avoid,
                items == vals.map_values(|b: u8| seq![b]),
                tracking == (old(self).holds(partition@) && old(self).spec_pending().len() > 0),
                tracking ==> matching,
                matching ==> first == old(self).spec_pending()[0] && first is Bytes && vals == (match first {
                    Record::Bytes(v) => v@,
                    _ => Seq::empty(),
                }),
                matching ==> {
                    &&& len == vals.len()
                    &&& i <= len
                    &&& self.reads_back(partition@, items.skip(i as int) + rest)
                    &&& result@ == vals.take(i as int)
                },
            decreases len - i,
        {
            let ghost objs = items.skip(i as int) + rest;
            proof {
                if matching {
                    assert(items.len() == vals.len());
                    assert(items.skip(i as int).len() > 0);
                    assert(objs[0] == items.skip(i as int)[0]);
                    assert(objs[0] == items[i as int]);
                    assert(objs[0].len() == BYTE_SIZE);
                }
            }
            let bytes = self.next_object(BYTE_SIZE, partition, Ghost(objs))?;
            proof {
                if matching {
                }
            }
            result.push(bytes[0]);
            proof {
                if matching {
                    assert(objs.drop_first() =~= items.skip(i + 1) + rest);
                    assert(result@ =~= vals.take(i + 1));
                }
            }
            i += 1;
        }
        proof {
            if matching {
                assert(items.skip(len as int) + rest =~= rest);
                assert(vals.take(len as int) =~= vals);
            }
        }
        self.pending = Ghost(if pending.len() > 0 { pending.drop_first() } else { pending });
        Ok(result)
    }

    /// Reads the next list of cluster ranges; fails with `CorruptedData` if the archive holds something else there.
    /// Reading back its pending records, the reader returns the items of the first one, which must be a list of
    /// ranges.
    pub fn next_ranges(&mut self, partition: &[u8]) -> (r: Result<Vec<Range<ClusterIdx>>, ConvertError>)
        requires
            old(self).wf(),
        ensures
            r is Ok ==> final(self).wf(),
            final(self).spec_page_size() == old(self).spec_page_size(),
            r matches Err(e) ==> e == ConvertError::CorruptedData,
            final(self).spec_clusters() == old(self).spec_clusters(),
            final(self).spec_avoid() == old(self).spec_avoid(),
            r is Ok && old(self).intact(partition@) ==> final(self).intact(partition@),
            old(self).holds(partition@) && old(self).spec_pending().len() > 0 ==> match old(self).spec_pending()[0] {
                Record::Ranges(v) => {
                    &&& r matches Ok(items)
                    &&& items@ == v@
                    &&& final(self).spec_pending() == old(self).spec_pending().drop_first()
                    &&& final(self).holds(partition@)
                },
                _ => r is Err,
            },
    {
        let ghost pending = self.pending@;
        let ghost first = pending[0];
        let ghost tracking = self.holds(partition@) && pending.len() > 0;
        let ghost matching = tracking && first is Ranges;
        let ghost vals: Seq<Range<ClusterIdx>> = match first {
            Record::Ranges(v) => v@,
            _ => Seq::empty(),
        };
        let ghost items = vals.map_values(|r: Range<ClusterIdx>| range_bytes(r));
        let ghost rest = records_objects(pending.drop_first());
        proof {
            if tracking {
                lemma_records_objects_first(pending);
                lemma_record_header(first);
                assert(record_len(pending[0]) <= u32::MAX);
                if matching {
                    assert(records_objects(pending).drop_first() =~= items + rest);
                }
            }
        }
        let len = self.read_header(TAG_RANGE, partition, Ghost(records_objects(pending)))?;
        let mut result: Vec<Range<ClusterIdx>> = Vec::new();
        proof {
            if matching {
                assert(items.skip(0) + rest =~= items + rest);
                assert(result@ =~= vals.take(0));
            }
        }
        let mut i: u32 = 0;
        while i < len
            invariant
                self.wf(),
                self.spec_page_size() == old(self).spec_page_size(),
                self.pending == old(self).pending,
                self.allocator == old(self).allocator,
                self.avoid == old(self).avoid,
                items == vals.map_values(|r: Range<ClusterIdx>| range_bytes(r)),
                tracking == (old(self).holds(partition@) && old(self).spec_pending().len() > 0),
                tracking ==> matching,
                matching ==> first == old(self).spec_pending()[0] && first is Ranges && vals == (match first {
                    Record::Ranges(v) => v@,
                    _ => Seq::empty(),
                }),
                matching ==> {
                    &&& len == vals.len()
                    &&& i <= len
                    &&& self.reads_back(partition@, items.skip(i as int) + rest)
                    &&& result@ == vals.take(i as int)
                },
            decreases len - i,
        {
            let ghost objs = items.skip(i as int) + rest;
            proof {
                if matching {
                    assert(items.len() == vals.len());
                    assert(items.skip(i as int).len() > 0);
                    assert(objs[0] == items.skip(i as int)[0]);
                    assert(objs[0] == items[i as int]);
                    assert(objs[0].len() == RANGE_SIZE);
                }
            }
            let bytes = self.next_object(RANGE_SIZE, partition, Ghost(objs))?;
            proof {
                if matching {
                    law_range_roundtrip(vals[i as int]);
                }
            }
            result.push(read_u32(bytes.as_slice(), 0)..read_u32(bytes.as_slice(), 4));
            proof {
                if matching {
                    assert(objs.drop_first() =~= items.skip(i + 1) + rest);
                    assert(result@ =~= vals.take(i + 1));
                }
            }
            i += 1;
        }
        proof {
            if matching {
                assert(items.skip(len as int) + rest =~= rest);
                assert(vals.take(len as int) =~= vals);
            }
        }
        self.pending = Ghost(if pending.len() > 0 { pending.drop_first() } else { pending });
        Ok(result)
    }
}

} // verus!
