use vstd::prelude::*;
use crate::bytes::le_u32;
use crate::ranges::Ranges;
use crate::serialization::stream_archiver::{fits_in_page, PAGE_IDX_SIZE};

verus! {

// How the objects of an archive lie in the pages of a partition. Each object lies in one page, right after the
// previous object if it fits into the rest of that page, else at the start of the next page, which the first bytes
// of a page point to. The archiver writes objects this way and the reader reads them this way.

/// The page at cluster `idx` of `p`, for pages of `ps` bytes.
pub open spec fn page_at(p: Seq<u8>, idx: int, ps: int) -> Seq<u8> {
    p.subrange(ps * idx, ps * idx + ps)
}

/// Whether cluster `idx`, among the clusters `vs..ve`, is a whole page of `p`.
pub open spec fn readable_page(p: Seq<u8>, idx: int, ps: int, vs: int, ve: int, used: Ranges) -> bool {
    &&& 0 <= vs <= idx < ve
    &&& !used.covers(idx)
    &&& 0 <= ps * idx
    &&& ps * idx + ps <= p.len()
}

/// Reading `objs` from `p`, starting in page `idx` at position `pos` and following the pointers of the pages to
/// readable pages of higher indices: where the reading ends (page and position) if every object reads back, else
/// `None`.
pub open spec fn read_end(
    p: Seq<u8>,
    idx: int,
    pos: int,
    objs: Seq<Seq<u8>>,
    ps: int,
    vs: int,
    ve: int,
    used: Ranges,
) -> Option<(int, int)>
    decreases objs.len(),
{
    if objs.len() == 0 {
        Some((idx, pos))
    } else {
        let page = page_at(p, idx, ps);
        let o = objs[0];
        if fits_in_page(ps, pos, o.len() as int) {
            if page.subrange(pos, pos + o.len()) == o {
                read_end(p, idx, pos + o.len(), objs.drop_first(), ps, vs, ve, used)
            } else {
                None
            }
        } else {
            let next = le_u32(page, 4);
            if le_u32(page, 0) == 1 && idx < next && readable_page(p, next, ps, vs, ve, used) && PAGE_IDX_SIZE + o.len()
                <= ps && page_at(
                p,
                next,
                ps,
            ).subrange(PAGE_IDX_SIZE as int, PAGE_IDX_SIZE + o.len()) == o {
                read_end(p, next, PAGE_IDX_SIZE + o.len(), objs.drop_first(), ps, vs, ve, used)
            } else {
                None
            }
        }
    }
}

/// Where `objs` end when they lie one after the other in `page` from position `pos` on, or `None` if they do not.
pub open spec fn in_page(page: Seq<u8>, pos: int, objs: Seq<Seq<u8>>, ps: int) -> Option<int>
    decreases objs.len(),
{
    if objs.len() == 0 {
        Some(pos)
    } else if fits_in_page(ps, pos, objs[0].len() as int) && page.subrange(pos, pos + objs[0].len()) == objs[0] {
        in_page(page, pos + objs[0].len(), objs.drop_first(), ps)
    } else {
        None
    }
}

/// Reading objects one after the other ends after the first ones where the others begin.
pub proof fn lemma_read_end_append(
    p: Seq<u8>,
    idx: int,
    pos: int,
    a: Seq<Seq<u8>>,
    b: Seq<Seq<u8>>,
    ps: int,
    vs: int,
    ve: int,
    used: Ranges,
)
    ensures
        read_end(p, idx, pos, a + b, ps, vs, ve, used) == match read_end(p, idx, pos, a, ps, vs, ve, used) {
            Some((j, e)) => read_end(p, j, e, b, ps, vs, ve, used),
            None => None,
        },
    decreases a.len(),
{
    if a.len() == 0 {
        assert(a + b =~= b);
    } else {
        assert((a + b).drop_first() =~= a.drop_first() + b);
        assert((a + b)[0] == a[0]);
        let o = a[0];
        let page = page_at(p, idx, ps);
        if fits_in_page(ps, pos, o.len() as int) {
            lemma_read_end_append(p, idx, pos + o.len(), a.drop_first(), b, ps, vs, ve, used);
        } else {
            let next = le_u32(page, 4);
            lemma_read_end_append(p, next, PAGE_IDX_SIZE + o.len(), a.drop_first(), b, ps, vs, ve, used);
        }
    }
}

/// Objects that lie one after the other in page `idx` read back from it.
pub proof fn lemma_read_end_in_page(p: Seq<u8>, idx: int, pos: int, objs: Seq<Seq<u8>>, ps: int, vs: int, ve: int, used: Ranges)
    requires
        in_page(page_at(p, idx, ps), pos, objs, ps) is Some,
    ensures
        read_end(p, idx, pos, objs, ps, vs, ve, used) == Some((idx, in_page(page_at(p, idx, ps), pos, objs, ps)->0)),
    decreases objs.len(),
{
    if objs.len() > 0 {
        lemma_read_end_in_page(p, idx, pos + objs[0].len(), objs.drop_first(), ps, vs, ve, used);
    }
}

/// Reading never goes back to a page of a lower index, and ends at a position after the first page's pointer.
pub proof fn lemma_read_end_forward(p: Seq<u8>, idx: int, pos: int, objs: Seq<Seq<u8>>, ps: int, vs: int, ve: int, used: Ranges)
    requires
        read_end(p, idx, pos, objs, ps, vs, ve, used) is Some,
        pos >= PAGE_IDX_SIZE,
    ensures
        read_end(p, idx, pos, objs, ps, vs, ve, used).unwrap().0 >= idx,
        read_end(p, idx, pos, objs, ps, vs, ve, used).unwrap().1 >= PAGE_IDX_SIZE,
        read_end(p, idx, pos, objs, ps, vs, ve, used).unwrap().0 == idx ==> read_end(p, idx, pos, objs, ps, vs, ve, used).unwrap().1 >= pos,
    decreases objs.len(),
{
    if objs.len() > 0 {
        let o = objs[0];
        let page = page_at(p, idx, ps);
        if fits_in_page(ps, pos, o.len() as int) {
            lemma_read_end_forward(p, idx, pos + o.len(), objs.drop_first(), ps, vs, ve, used);
        } else {
            let next = le_u32(page, 4);
            lemma_read_end_forward(p, next, PAGE_IDX_SIZE + o.len(), objs.drop_first(), ps, vs, ve, used);
        }
    }
}

/// Allowing more pages to be read does not change what reads back.
pub proof fn lemma_read_end_more_pages(
    p: Seq<u8>,
    idx: int,
    pos: int,
    objs: Seq<Seq<u8>>,
    ps: int,
    vs: int,
    ve: int,
    used: Ranges,
    ve2: int,
)
    requires
        read_end(p, idx, pos, objs, ps, vs, ve, used) is Some,
        ve <= ve2,
    ensures
        read_end(p, idx, pos, objs, ps, vs, ve2, used) == read_end(p, idx, pos, objs, ps, vs, ve, used),
    decreases objs.len(),
{
    if objs.len() > 0 {
        let o = objs[0];
        let page = page_at(p, idx, ps);
        if fits_in_page(ps, pos, o.len() as int) {
            lemma_read_end_more_pages(p, idx, pos + o.len(), objs.drop_first(), ps, vs, ve, used, ve2);
        } else {
            let next = le_u32(page, 4);
            lemma_read_end_more_pages(p, next, PAGE_IDX_SIZE + o.len(), objs.drop_first(), ps, vs, ve, used, ve2);
        }
    }
}

/// Reading ends in page `last` of `p`; `q` has the same length, the same readable pages but `last`, and the same
/// bytes in page `last` from its pointer on. Then the same objects read back from `q`.
pub proof fn lemma_read_end_frame(
    p: Seq<u8>,
    q: Seq<u8>,
    idx: int,
    pos: int,
    objs: Seq<Seq<u8>>,
    ps: int,
    vs: int,
    ve: int,
    used: Ranges,
    last: int,
)
    requires
        read_end(p, idx, pos, objs, ps, vs, ve, used) is Some,
        read_end(p, idx, pos, objs, ps, vs, ve, used).unwrap().0 == last,
        pos >= PAGE_IDX_SIZE,
        ps >= PAGE_IDX_SIZE,
        0 <= ps * idx,
        ps * idx + ps <= p.len(),
        q.len() == p.len(),
        idx == last || page_at(q, idx, ps) == page_at(p, idx, ps),
        forall|j: int| #[trigger] readable_page(p, j, ps, vs, ve, used) && j != last ==> page_at(q, j, ps) == page_at(p, j, ps),
        page_at(q, last, ps).subrange(PAGE_IDX_SIZE as int, ps) == page_at(p, last, ps).subrange(PAGE_IDX_SIZE as int, ps),
    ensures
        read_end(q, idx, pos, objs, ps, vs, ve, used) == read_end(p, idx, pos, objs, ps, vs, ve, used),
    decreases objs.len(),
{
    if objs.len() > 0 {
        let o = objs[0];
        let page = page_at(p, idx, ps);
        let qpage = page_at(q, idx, ps);
        if fits_in_page(ps, pos, o.len() as int) {
            if idx == last {
                assert(qpage.subrange(pos, pos + o.len()) =~= qpage.subrange(PAGE_IDX_SIZE as int, ps).subrange(
                    pos - PAGE_IDX_SIZE,
                    pos - PAGE_IDX_SIZE + o.len(),
                ));
                assert(page.subrange(pos, pos + o.len()) =~= page.subrange(PAGE_IDX_SIZE as int, ps).subrange(
                    pos - PAGE_IDX_SIZE,
                    pos - PAGE_IDX_SIZE + o.len(),
                ));
            }
            lemma_read_end_frame(p, q, idx, pos + o.len(), objs.drop_first(), ps, vs, ve, used, last);
        } else {
            let next = le_u32(page, 4);
            lemma_read_end_forward(p, next, PAGE_IDX_SIZE + o.len(), objs.drop_first(), ps, vs, ve, used);
            // the reading moves on from `idx` to a higher page and ends at `last`, so `idx` is not `last`
            assert(idx != last);
            if next == last {
                assert(page_at(q, next, ps).subrange(PAGE_IDX_SIZE as int, PAGE_IDX_SIZE + o.len()) =~= page_at(
                    q,
                    next,
                    ps,
                ).subrange(PAGE_IDX_SIZE as int, ps).subrange(0, o.len() as int));
                assert(page_at(p, next, ps).subrange(PAGE_IDX_SIZE as int, PAGE_IDX_SIZE + o.len()) =~= page_at(
                    p,
                    next,
                    ps,
                ).subrange(PAGE_IDX_SIZE as int, ps).subrange(0, o.len() as int));
            } else {
                assert(readable_page(p, next, ps, vs, ve, used));
            }
            lemma_read_end_frame(p, q, next, PAGE_IDX_SIZE + o.len(), objs.drop_first(), ps, vs, ve, used, last);
        }
    }
}

/// The same objects read back from `q` as from `p` where `q` has the same length and the same readable pages, and
/// the same page `idx` if there is an object to read.
pub proof fn lemma_read_end_frame_readable(
    p: Seq<u8>,
    q: Seq<u8>,
    idx: int,
    pos: int,
    objs: Seq<Seq<u8>>,
    ps: int,
    vs: int,
    ve: int,
    used: Ranges,
)
    requires
        read_end(p, idx, pos, objs, ps, vs, ve, used) is Some,
        q.len() == p.len(),
        objs.len() > 0 ==> page_at(q, idx, ps) == page_at(p, idx, ps),
        forall|j: int| #[trigger] readable_page(p, j, ps, vs, ve, used) ==> page_at(q, j, ps) == page_at(p, j, ps),
    ensures
        read_end(q, idx, pos, objs, ps, vs, ve, used) == read_end(p, idx, pos, objs, ps, vs, ve, used),
    decreases objs.len(),
{
    if objs.len() > 0 {
        let o = objs[0];
        if fits_in_page(ps, pos, o.len() as int) {
            lemma_read_end_frame_readable(p, q, idx, pos + o.len(), objs.drop_first(), ps, vs, ve, used);
        } else {
            let next = le_u32(page_at(p, idx, ps), 4);
            assert(readable_page(p, next, ps, vs, ve, used));
            lemma_read_end_frame_readable(p, q, next, PAGE_IDX_SIZE + o.len(), objs.drop_first(), ps, vs, ve, used);
        }
    }
}

/// Objects that lie one after the other in `page` still do where `page2` has the same bytes.
pub proof fn lemma_in_page_frame(page: Seq<u8>, page2: Seq<u8>, pos: int, objs: Seq<Seq<u8>>, ps: int)
    requires
        in_page(page, pos, objs, ps) is Some,
        pos >= 0,
        page.len() == ps,
        page2.len() == page.len(),
        forall|i: int| pos <= i < in_page(page, pos, objs, ps)->0 ==> page2[i] == page[i],
    ensures
        in_page(page2, pos, objs, ps) == in_page(page, pos, objs, ps),
    decreases objs.len(),
{
    if objs.len() > 0 {
        let o = objs[0];
        lemma_in_page_forward(page, pos + o.len(), objs.drop_first(), ps);
        assert(page2.subrange(pos, pos + o.len()) =~= page.subrange(pos, pos + o.len()));
        lemma_in_page_frame(page, page2, pos + o.len(), objs.drop_first(), ps);
    }
}

/// Objects that lie one after the other end at or after where they begin.
pub proof fn lemma_in_page_forward(page: Seq<u8>, pos: int, objs: Seq<Seq<u8>>, ps: int)
    requires
        in_page(page, pos, objs, ps) is Some,
    ensures
        in_page(page, pos, objs, ps)->0 >= pos,
    decreases objs.len(),
{
    if objs.len() > 0 {
        lemma_in_page_forward(page, pos + objs[0].len(), objs.drop_first(), ps);
    }
}

/// Writing object `o` into `page` right after objects that end at `e` appends it to them, if it fits.
pub proof fn lemma_in_page_push(page: Seq<u8>, pos: int, objs: Seq<Seq<u8>>, o: Seq<u8>, ps: int)
    requires
        in_page(page, pos, objs, ps) is Some,
        pos >= 0,
        page.len() == ps,
        fits_in_page(ps, in_page(page, pos, objs, ps)->0, o.len() as int),
    ensures
        in_page(crate::bytes::spliced(page, in_page(page, pos, objs, ps)->0, o), pos, objs.push(o), ps) == Some(
            in_page(page, pos, objs, ps)->0 + o.len(),
        ),
    decreases objs.len(),
{
    let e = in_page(page, pos, objs, ps)->0;
    let page2 = crate::bytes::spliced(page, e, o);
    lemma_in_page_forward(page, pos, objs, ps);
    if objs.len() == 0 {
        assert(objs.push(o).drop_first() =~= Seq::<Seq<u8>>::empty());
        assert(objs.push(o)[0] == o);
        assert(page2.subrange(pos, pos + o.len()) =~= o);
        assert(in_page(page2, pos + o.len(), Seq::<Seq<u8>>::empty(), ps) == Some(pos + o.len()));
    } else {
        let o0 = objs[0];
        lemma_in_page_forward(page, pos + o0.len(), objs.drop_first(), ps);
        assert(objs.push(o).drop_first() =~= objs.drop_first().push(o));
        assert(page2.subrange(pos, pos + o0.len()) =~= page.subrange(pos, pos + o0.len()));
        lemma_in_page_push(page, pos + o0.len(), objs.drop_first(), o, ps);
    }
}

/// Bytes outside cluster `c` belong to other pages.
pub proof fn lemma_pages_disjoint(idx: int, c: int, ps: int, b: int)
    requires
        0 <= idx,
        0 <= c,
        idx != c,
        ps > 0,
        ps * idx <= b < ps * idx + ps,
    ensures
        !(ps * c <= b < ps * c + ps),
{
    if idx < c {
        assert(ps * idx + ps <= ps * c) by (nonlinear_arith)
            requires
                idx < c,
                ps > 0,
        ;
    } else {
        assert(ps * c + ps <= ps * idx) by (nonlinear_arith)
            requires
                c < idx,
                ps > 0,
        ;
    }
}

} // verus!
