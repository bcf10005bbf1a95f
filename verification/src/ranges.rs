use std::ops::Range;
use vstd::prelude::*;

verus! {

/// An index identifying a cluster in the filesystem.
pub type ClusterIdx = u32;

/// The condition of a well-formed list of ranges: every range is non-empty, and every range ends strictly
/// before the next one starts (touching ranges are merged).
pub open spec fn ranges_wf(s: Seq<Range<u32>>) -> bool {
    &&& forall|i: int| 0 <= i < s.len() ==> (#[trigger] s[i]).start < s[i].end
    &&& forall|i: int, j: int| 0 <= i < j < s.len() ==> (#[trigger] s[i]).end < (#[trigger] s[j]).start
}

/// Whether `x` lies in one of the ranges of `s`.
pub open spec fn seq_covers(s: Seq<Range<u32>>, x: int) -> bool {
    exists|i: int| 0 <= i < s.len() && (#[trigger] s[i]).start <= x && x < s[i].end
}

/// A set of non-overlapping ranges, kept sorted.
#[derive(Debug)]
pub struct Ranges {
    ranges: Vec<Range<ClusterIdx>>,
}

#[derive(Debug)]
pub enum NotCoveredRange {
    /// a range with bounded start and end
    Bounded(Range<ClusterIdx>),
    /// a range with a bounded start and unbounded end
    Unbounded(ClusterIdx),
}

impl Ranges {
    pub closed spec fn spec_ranges(&self) -> Seq<Range<ClusterIdx>> {
        self.ranges@
    }

    pub open spec fn wf(&self) -> bool {
        ranges_wf(self.spec_ranges())
    }

    pub open spec fn covers(&self, x: int) -> bool {
        seq_covers(self.spec_ranges(), x)
    }

    /// The number of elements in `a..b` that are not covered.
    pub open spec fn uncovered_count(&self, a: int, b: int) -> nat
        decreases b - a,
    {
        if a >= b {
            0
        } else {
            (if self.covers(a) { 0nat } else { 1nat }) + self.uncovered_count(a + 1, b)
        }
    }

    /// Covered elements at the front of `a..b` add nothing to its uncovered count.
    /// No more elements of `a..b` are uncovered than there are.
    pub proof fn lemma_uncovered_count_bound(&self, a: int, b: int)
        requires
            a <= b,
        ensures
            self.uncovered_count(a, b) <= b - a,
        decreases b - a,
    {
        if a < b {
            self.lemma_uncovered_count_bound(a + 1, b);
        }
    }

    pub proof fn lemma_count_covered_prefix(&self, a: int, c: int, b: int)
        requires
            a <= c <= b,
            forall|z: int| a <= z < c ==> self.covers(z),
        ensures
            self.uncovered_count(a, b) == self.uncovered_count(c, b),
        decreases c - a,
    {
        if a < c {
            self.lemma_count_covered_prefix(a + 1, c, b);
        }
    }

    /// Uncovered elements at the front of `a..b` each add one to its uncovered count.
    pub proof fn lemma_count_uncovered_prefix(&self, a: int, c: int, b: int)
        requires
            a <= c <= b,
            forall|z: int| a <= z < c ==> !self.covers(z),
        ensures
            self.uncovered_count(a, b) == (c - a) + self.uncovered_count(c, b),
        decreases c - a,
    {
        if a < c {
            self.lemma_count_uncovered_prefix(a + 1, c, b);
        }
    }

    pub fn new() -> (r: Self)
        ensures
            r.wf(),
            r.spec_ranges() == Seq::<Range<ClusterIdx>>::empty(),
    {
        Ranges { ranges: Vec::new() }
    }

    /// Builds the set covering every given range.
    pub fn from(ranges: Vec<Range<ClusterIdx>>) -> (r: Self)
        requires
            forall|i: int| 0 <= i < ranges@.len() ==> (#[trigger] ranges@[i]).start <= ranges@[i].end,
        ensures
            r.wf(),
            forall|x: int|
                r.covers(x) <==> exists|i: int|
                    0 <= i < ranges@.len() && (#[trigger] ranges@[i]).start <= x && x < ranges@[i].end,
    {
        let mut result = Ranges::new();
        let mut i: usize = 0;
        while i < ranges.len()
            invariant
                i <= ranges@.len(),
                result.wf(),
                forall|i: int| 0 <= i < ranges@.len() ==> (#[trigger] ranges@[i]).start <= ranges@[i].end,
                forall|x: int|
                    result.covers(x) <==> exists|j: int|
                        0 <= j < i && (#[trigger] ranges@[j]).start <= x && x < ranges@[j].end,
            decreases ranges@.len() - i,
        {
            let r = ranges[i].start..ranges[i].end;
            let ghost before = result;
            result.insert(r);
            proof {
                assert forall|x: int|
                    result.covers(x) <==> exists|j: int|
                        0 <= j < i + 1 && (#[trigger] ranges@[j]).start <= x && x < ranges@[j].end by {
                    if result.covers(x) {
                        if !before.covers(x) {
                            assert(ranges@[i as int].start <= x && x < ranges@[i as int].end);
                        }
                    }
                    if exists|j: int| 0 <= j < i + 1 && (#[trigger] ranges@[j]).start <= x && x < ranges@[j].end {
                        let j = choose|j: int| 0 <= j < i + 1 && (#[trigger] ranges@[j]).start <= x && x < ranges@[j].end;
                        if j < i {
                            assert(before.covers(x));
                        }
                    }
                }
            }
            i += 1;
        }
        result
    }

    /// Returns the index of the first range that ends at or after `range.start`, or the number of ranges if
    /// there is none.
    fn first_merge_candidate(&self, range: &Range<ClusterIdx>) -> (r: usize)
        requires
            self.wf(),
        ensures
            r <= self.spec_ranges().len(),
            forall|j: int| 0 <= j < r ==> (#[trigger] self.spec_ranges()[j]).end < range.start,
            r < self.spec_ranges().len() ==> self.spec_ranges()[r as int].end >= range.start,
    {
        let mut lo: usize = 0;
        let mut hi: usize = self.ranges.len();
        while lo < hi
            invariant
                self.wf(),
                lo <= hi <= self.spec_ranges().len(),
                forall|j: int| 0 <= j < lo ==> (#[trigger] self.spec_ranges()[j]).end < range.start,
                forall|j: int| hi <= j < self.spec_ranges().len() ==> (#[trigger] self.spec_ranges()[j]).end >= range.start,
            decreases hi - lo,
        {
            let mid = lo + (hi - lo) / 2;
            if self.ranges[mid].end < range.start {
                proof {
                    assert forall|j: int| 0 <= j < mid + 1 implies (#[trigger] self.spec_ranges()[j]).end < range.start by {
                        if j < mid {
                            assert(self.spec_ranges()[j].end < self.spec_ranges()[mid as int].start);
                        }
                    }
                }
                lo = mid + 1;
            } else {
                proof {
                    assert forall|j: int| mid <= j < self.spec_ranges().len() implies (#[trigger] self.spec_ranges()[j]).end >= range.start by {
                        if j > mid {
                            assert(self.spec_ranges()[mid as int].end < self.spec_ranges()[j].start);
                        }
                    }
                }
                hi = mid;
            }
        }
        lo
    }

    /// Returns the index of the first range that ends after `range.start`, or the number of ranges if there is
    /// none.
    fn first_overlap_candidate(&self, range: &Range<ClusterIdx>) -> (r: usize)
        requires
            self.wf(),
        ensures
            r <= self.spec_ranges().len(),
            forall|j: int| 0 <= j < r ==> (#[trigger] self.spec_ranges()[j]).end <= range.start,
            r < self.spec_ranges().len() ==> self.spec_ranges()[r as int].end > range.start,
    {
        let mut lo: usize = 0;
        let mut hi: usize = self.ranges.len();
        while lo < hi
            invariant
                self.wf(),
                lo <= hi <= self.spec_ranges().len(),
                forall|j: int| 0 <= j < lo ==> (#[trigger] self.spec_ranges()[j]).end <= range.start,
                forall|j: int| hi <= j < self.spec_ranges().len() ==> (#[trigger] self.spec_ranges()[j]).end > range.start,
            decreases hi - lo,
        {
            let mid = lo + (hi - lo) / 2;
            if self.ranges[mid].end <= range.start {
                proof {
                    assert forall|j: int| 0 <= j < mid + 1 implies (#[trigger] self.spec_ranges()[j]).end <= range.start by {
                        if j < mid {
                            assert(self.spec_ranges()[j].end < self.spec_ranges()[mid as int].start);
                        }
                    }
                }
                lo = mid + 1;
            } else {
                proof {
                    assert forall|j: int| mid <= j < self.spec_ranges().len() implies (#[trigger] self.spec_ranges()[j]).end > range.start by {
                        if j > mid {
                            assert(self.spec_ranges()[mid as int].end < self.spec_ranges()[j].start);
                        }
                    }
                }
                hi = mid;
            }
        }
        lo
    }

    /// Inserts `range` in its position, merging it with every range that overlaps or touches it. An empty (or
    /// reversed) range covers nothing and leaves the set as it is.
    pub fn insert(&mut self, range: Range<ClusterIdx>)
        requires
            old(self).wf(),
        ensures
            final(self).wf(),
            forall|x: int| final(self).covers(x) <==> (old(self).covers(x) || (range.start <= x && x < range.end)),
            range.start >= range.end ==> *final(self) == *old(self),
    {
        if range.start >= range.end {
            return;
        }
        let ghost old_s = self.ranges@;
        let ghost rg = range;
        let k = self.first_merge_candidate(&range);

        // every range ends before `range` starts, so it can simply be appended
        if k == self.ranges.len() {
            self.ranges.push(range);
            proof {
                lemma_push_range(old_s, range);
                assert(forall|x: int| old(self).covers(x) <==> seq_covers(old_s, x));
            }
            return;
        }

        let mut e = k;
        while e < self.ranges.len() && self.ranges[e].start <= range.end
            invariant
                self.wf(),
                self.ranges@ == old_s,
                k <= e <= old_s.len(),
                forall|j: int| k <= j < e ==> (#[trigger] old_s[j]).start <= range.end,
            decreases old_s.len() - e,
        {
            e += 1;
        }

        // no range overlaps `range`, so it can simply be inserted
        if e == k {
            proof {
                lemma_insert_range(old_s, range, k as int);
            }
            self.ranges.insert(k, range);
            proof {
                assert(self.ranges@ == old_s.insert(k as int, rg));
                assert forall|x: int| self.covers(x) <==> (old(self).covers(x) || (rg.start <= x && x < rg.end)) by {
                    assert(seq_covers(old_s.insert(k as int, rg), x) <==> (seq_covers(old_s, x) || (rg.start <= x && x < rg.end)));
                }
            }
            return;
        }

        // one or more ranges overlap `range`: they are merged into one
        let merged_start = if self.ranges[k].start < range.start { self.ranges[k].start } else { range.start };
        let merged_end = if self.ranges[e - 1].end > range.end { self.ranges[e - 1].end } else { range.end };
        let merged = merged_start..merged_end;
        let ghost t = old_s.subrange(0, k as int).push(merged) + old_s.subrange(e as int, old_s.len() as int);
        proof {
            lemma_merge_ranges(old_s, rg, k as int, e as int, merged);
        }
        let mut tail = self.ranges.split_off(e);
        self.ranges.truncate(k);
        self.ranges.push(merged);
        self.ranges.append(&mut tail);
        proof {
            assert(self.ranges@ =~= t);
            assert forall|x: int| self.covers(x) <==> (old(self).covers(x) || (rg.start <= x && x < rg.end)) by {
                assert(seq_covers(t, x) <==> (seq_covers(old_s, x) || (rg.start <= x && x < rg.end)));
            }
        }
    }

    /// Returns the first range of non-covered items starting at or after `x`, whose end can either be bounded
    /// or unbounded.
    pub fn next_not_covered(&self, x: ClusterIdx) -> (r: NotCoveredRange)
        requires
            self.wf(),
        ensures
            match r {
                NotCoveredRange::Unbounded(y) => {
                    &&& x <= y
                    &&& forall|z: int| x <= z < y ==> self.covers(z)
                    &&& forall|z: int| y <= z ==> !self.covers(z)
                },
                NotCoveredRange::Bounded(rg) => {
                    &&& x <= rg.start < rg.end
                    &&& forall|z: int| x <= z < rg.start ==> self.covers(z)
                    &&& forall|z: int| rg.start <= z < rg.end ==> !self.covers(z)
                    &&& exists|i: int|
                        0 <= i < self.spec_ranges().len() && (#[trigger] self.spec_ranges()[i]).start == rg.end
                            && forall|j: int| 0 <= j < i ==> (#[trigger] self.spec_ranges()[j]).end <= rg.start
                },
            },
    {
        let mut cur = x;
        let mut idx = self.first_overlap_candidate(&(cur..cur));
        loop
            invariant
                self.wf(),
                x <= cur,
                forall|z: int| x <= z < cur ==> self.covers(z),
                idx <= self.spec_ranges().len(),
                forall|j: int| 0 <= j < idx ==> (#[trigger] self.spec_ranges()[j]).end <= cur,
                idx < self.spec_ranges().len() ==> self.spec_ranges()[idx as int].end > cur,
            decreases self.spec_ranges().len() - idx,
        {
            if idx == self.ranges.len() {
                proof {
                    assert forall|z: int| cur <= z implies !self.covers(z) by {
                        if self.covers(z) {
                            let i = choose|i: int| 0 <= i < self.spec_ranges().len() && (#[trigger] self.spec_ranges()[i]).start <= z && z < self.spec_ranges()[i].end;
                        }
                    }
                }
                return NotCoveredRange::Unbounded(cur);
            }
            let candidate_start = self.ranges[idx].start;
            let candidate_end = self.ranges[idx].end;
            if candidate_start > cur {
                proof {
                    assert forall|z: int| cur <= z < candidate_start implies !self.covers(z) by {
                        if self.covers(z) {
                            let i = choose|i: int| 0 <= i < self.spec_ranges().len() && (#[trigger] self.spec_ranges()[i]).start <= z && z < self.spec_ranges()[i].end;
                            if i > idx {
                                assert(self.spec_ranges()[idx as int].end < self.spec_ranges()[i].start);
                            }
                        }
                    }
                    assert(self.spec_ranges()[idx as int].start == candidate_start);
                }
                return NotCoveredRange::Bounded(cur..candidate_start);
            }
            proof {
                assert forall|z: int| x <= z < candidate_end implies self.covers(z) by {
                    if z >= cur {
                        assert(self.spec_ranges()[idx as int].start <= z && z < self.spec_ranges()[idx as int].end);
                    }
                }
            }
            cur = candidate_end;
            let next_idx = self.first_overlap_candidate(&(cur..cur));
            proof {
                if next_idx <= idx {
                    assert(self.spec_ranges()[idx as int].end <= cur);
                }
            }
            idx = next_idx;
        }
    }

    /// Splits up `range` into consecutive subranges, each marked with whether all its elements are covered
    /// (`true`) or none of them is (`false`).
    pub fn split_overlapping(&self, range: Range<ClusterIdx>) -> (r: Vec<(Range<ClusterIdx>, bool)>)
        requires
            self.wf(),
        ensures
            range.start >= range.end ==> r@.len() == 0,
            range.start < range.end ==> {
                &&& r@.len() > 0
                &&& r@[0].0.start == range.start
                &&& r@[r@.len() - 1].0.end == range.end
            },
            forall|i: int| 0 <= i < r@.len() ==> (#[trigger] r@[i]).0.start < r@[i].0.end,
            forall|i: int| 0 <= i < r@.len() - 1 ==> (#[trigger] r@[i]).0.end == r@[i + 1].0.start,
            forall|i: int| 0 <= i < r@.len() - 1 ==> (#[trigger] r@[i]).1 != r@[i + 1].1,
            forall|i: int, z: int| #![trigger r@[i], self.covers(z)]
                0 <= i < r@.len() && r@[i].0.start <= z < r@[i].0.end ==> (self.covers(z) <==> r@[i].1),
    {
        let mut result: Vec<(Range<ClusterIdx>, bool)> = Vec::new();
        if range.start >= range.end {
            return result;
        }
        let mut rem_start = range.start;
        let rem_end = range.end;
        let mut idx = self.first_overlap_candidate(&range);
        while rem_start < rem_end && idx < self.ranges.len()
            invariant
                self.wf(),
                range.start <= rem_start <= rem_end,
                rem_end == range.end,
                range.start < range.end,
                idx <= self.spec_ranges().len(),
                rem_start < rem_end ==> forall|j: int| 0 <= j < idx ==> (#[trigger] self.spec_ranges()[j]).end <= rem_start,
                idx < self.spec_ranges().len() ==> self.spec_ranges()[idx as int].end > rem_start,
                result@.len() == 0 ==> rem_start == range.start,
                result@.len() > 0 ==> result@[0].0.start == range.start && result@[result@.len() - 1].0.end == rem_start,
                forall|i: int| 0 <= i < result@.len() ==> (#[trigger] result@[i]).0.start < result@[i].0.end,
                forall|i: int| 0 <= i < result@.len() - 1 ==> (#[trigger] result@[i]).0.end == result@[i + 1].0.start,
                forall|i: int| 0 <= i < result@.len() - 1 ==> (#[trigger] result@[i]).1 != result@[i + 1].1,
                result@.len() > 0 && !result@[result@.len() - 1].1 ==> rem_start == rem_end || (idx < self.spec_ranges().len()
                    && self.spec_ranges()[idx as int].start == rem_start),
                result@.len() > 0 && result@[result@.len() - 1].1 ==> (idx < self.spec_ranges().len()
                    ==> self.spec_ranges()[idx as int].start > rem_start),
                forall|i: int, z: int| #![trigger result@[i], self.covers(z)]
                    0 <= i < result@.len() && result@[i].0.start <= z < result@[i].0.end ==> (self.covers(z) <==> result@[i].1),
            decreases self.spec_ranges().len() - idx, rem_end - rem_start,
        {
            let candidate_start = self.ranges[idx].start;
            let candidate_end = self.ranges[idx].end;
            let ghost old_result = result@;
            if candidate_start > rem_start {
                // the first subrange of the remaining range is not covered
                let fragment_end = if candidate_start < rem_end { candidate_start } else { rem_end };
                proof {
                    assert forall|z: int| rem_start <= z < fragment_end implies !self.covers(z) by {
                        if self.covers(z) {
                            let i = choose|i: int| 0 <= i < self.spec_ranges().len() && (#[trigger] self.spec_ranges()[i]).start <= z && z < self.spec_ranges()[i].end;
                            if i > idx {
                                assert(self.spec_ranges()[idx as int].end < self.spec_ranges()[i].start);
                            }
                        }
                    }
                }
                result.push((rem_start..fragment_end, false));
                rem_start = fragment_end;
            } else {
                // the first subrange of the remaining range is covered
                let fragment_end = if candidate_end < rem_end { candidate_end } else { rem_end };
                proof {
                    assert forall|z: int| rem_start <= z < fragment_end implies self.covers(z) by {
                        assert(self.spec_ranges()[idx as int].start <= z && z < self.spec_ranges()[idx as int].end);
                    }
                }
                result.push((rem_start..fragment_end, true));
                rem_start = fragment_end;
                idx += 1;
                proof {
                    if idx < self.spec_ranges().len() {
                        assert(self.spec_ranges()[idx - 1].end < self.spec_ranges()[idx as int].start);
                    }
                }
            }
            proof {
                assert forall|i: int, z: int| #![trigger result@[i], self.covers(z)]
                    0 <= i < result@.len() && result@[i].0.start <= z < result@[i].0.end implies (self.covers(z) <==> result@[i].1) by {
                    if i < old_result.len() {
                        assert(result@[i] == old_result[i]);
                    }
                }
            }
        }

        // no covering range is left, the remaining range is not covered
        if rem_start < rem_end {
            proof {
                assert forall|z: int| rem_start <= z < rem_end implies !self.covers(z) by {
                    if self.covers(z) {
                        let i = choose|i: int| 0 <= i < self.spec_ranges().len() && (#[trigger] self.spec_ranges()[i]).start <= z && z < self.spec_ranges()[i].end;
                    }
                }
            }
            let ghost old_result = result@;
            result.push((rem_start..rem_end, false));
            proof {
                assert forall|i: int, z: int| #![trigger result@[i], self.covers(z)]
                    0 <= i < result@.len() && result@[i].0.start <= z < result@[i].0.end implies (self.covers(z) <==> result@[i].1) by {
                    if i < old_result.len() {
                        assert(result@[i] == old_result[i]);
                    }
                }
            }
        }
        result
    }

    /// The number of elements in `start..end` that are not covered.
    pub fn free_element_count(&self, start: ClusterIdx, end: ClusterIdx) -> (r: usize)
        requires
            self.wf(),
        ensures
            r == self.uncovered_count(start as int, end as int),
    {
        let mut cur = start;
        let mut count: usize = 0;
        while cur < end
            invariant
                self.wf(),
                start <= cur,
                count <= cur - start,
                count + self.uncovered_count(cur as int, end as int) == self.uncovered_count(start as int, end as int),
            decreases end - cur,
        {
            match self.next_not_covered(cur) {
                NotCoveredRange::Unbounded(y) => {
                    if y < end {
                        proof {
                            self.lemma_count_covered_prefix(cur as int, y as int, end as int);
                            self.lemma_count_uncovered_prefix(y as int, end as int, end as int);
                        }
                        count = count + (end - y) as usize;
                    } else {
                        proof {
                            self.lemma_count_covered_prefix(cur as int, end as int, end as int);
                        }
                    }
                    return count;
                },
                NotCoveredRange::Bounded(rg) => {
                    if rg.start >= end {
                        proof {
                            self.lemma_count_covered_prefix(cur as int, end as int, end as int);
                        }
                        return count;
                    }
                    let gap_end = if rg.end < end { rg.end } else { end };
                    proof {
                        self.lemma_count_covered_prefix(cur as int, rg.start as int, end as int);
                        self.lemma_count_uncovered_prefix(rg.start as int, gap_end as int, end as int);
                    }
                    count = count + (gap_end - rg.start) as usize;
                    cur = gap_end;
                },
            }
        }
        count
    }

    /// The ranges, in ascending order.
    pub fn as_slice(&self) -> (s: &[Range<ClusterIdx>])
        ensures
            s@ == self.spec_ranges(),
    {
        self.ranges.as_slice()
    }
}

proof fn lemma_push_range(s: Seq<Range<u32>>, range: Range<u32>)
    requires
        ranges_wf(s),
        range.start < range.end,
        forall|j: int| 0 <= j < s.len() ==> (#[trigger] s[j]).end < range.start,
    ensures
        ranges_wf(s.push(range)),
        forall|x: int| #![trigger seq_covers(s.push(range), x)] seq_covers(s.push(range), x) <==> (seq_covers(s, x) || (range.start <= x && x < range.end)),
{
    let t = s.push(range);
    assert forall|x: int| seq_covers(t, x) <==> (seq_covers(s, x) || (range.start <= x && x < range.end)) by {
        if seq_covers(s, x) {
            let i = choose|i: int| 0 <= i < s.len() && (#[trigger] s[i]).start <= x && x < s[i].end;
            assert(t[i] == s[i]);
        }
        if range.start <= x && x < range.end {
            assert(t[s.len() as int] == range);
        }
        if seq_covers(t, x) {
            let i = choose|i: int| 0 <= i < t.len() && (#[trigger] t[i]).start <= x && x < t[i].end;
            if i < s.len() {
                assert(t[i] == s[i]);
            }
        }
    }
}

proof fn lemma_insert_range(s: Seq<Range<u32>>, range: Range<u32>, k: int)
    requires
        ranges_wf(s),
        range.start < range.end,
        0 <= k < s.len(),
        forall|j: int| 0 <= j < k ==> (#[trigger] s[j]).end < range.start,
        s[k].start > range.end,
    ensures
        ranges_wf(s.insert(k, range)),
        forall|x: int| #![trigger seq_covers(s.insert(k, range), x)] seq_covers(s.insert(k, range), x) <==> (seq_covers(s, x) || (range.start <= x && x < range.end)),
{
    let t = s.insert(k, range);
    assert forall|i: int, j: int| 0 <= i < j < t.len() implies (#[trigger] t[i]).end < (#[trigger] t[j]).start by {
        if j < k {
        } else if j == k {
        } else if i == k {
            assert(s[k].start <= s[j - 1].start) by {
                if k < j - 1 {
                    assert(s[k].end < s[j - 1].start);
                }
            }
        } else if i < k {
            assert(s[i].end < s[j - 1].start);
        } else {
            assert(s[i - 1].end < s[j - 1].start);
        }
    }
    assert forall|x: int| seq_covers(t, x) <==> (seq_covers(s, x) || (range.start <= x && x < range.end)) by {
        if seq_covers(s, x) {
            let i = choose|i: int| 0 <= i < s.len() && (#[trigger] s[i]).start <= x && x < s[i].end;
            if i < k {
                assert(t[i] == s[i]);
            } else {
                assert(t[i + 1] == s[i]);
            }
        }
        if range.start <= x && x < range.end {
            assert(t[k] == range);
        }
        if seq_covers(t, x) {
            let i = choose|i: int| 0 <= i < t.len() && (#[trigger] t[i]).start <= x && x < t[i].end;
            if i < k {
                assert(t[i] == s[i]);
            } else if i > k {
                assert(t[i] == s[i - 1]);
            }
        }
    }
}

proof fn lemma_merge_ranges(s: Seq<Range<u32>>, range: Range<u32>, k: int, e: int, merged: Range<u32>)
    requires
        ranges_wf(s),
        range.start < range.end,
        0 <= k < e <= s.len(),
        forall|j: int| 0 <= j < k ==> (#[trigger] s[j]).end < range.start,
        s[k].end >= range.start,
        forall|j: int| k <= j < e ==> (#[trigger] s[j]).start <= range.end,
        e < s.len() ==> s[e].start > range.end,
        merged.start == if s[k].start < range.start { s[k].start } else { range.start },
        merged.end == if s[e - 1].end > range.end { s[e - 1].end } else { range.end },
    ensures
        ranges_wf(s.subrange(0, k).push(merged) + s.subrange(e, s.len() as int)),
        forall|x: int| #![trigger seq_covers(s.subrange(0, k).push(merged) + s.subrange(e, s.len() as int), x)]
            seq_covers(s.subrange(0, k).push(merged) + s.subrange(e, s.len() as int), x) <==> (seq_covers(s, x) || (
            range.start <= x && x < range.end)),
{
    let t = s.subrange(0, k).push(merged) + s.subrange(e, s.len() as int);
    assert(t.len() == k + 1 + (s.len() - e));
    assert forall|i: int| 0 <= i < t.len() implies #[trigger] t[i] == if i < k { s[i] } else if i == k { merged } else {
        s[i - k - 1 + e]
    } by {}
    // ends grow along the sequence
    assert forall|i: int, j: int| 0 <= i <= j < s.len() implies (#[trigger] s[i]).end <= (#[trigger] s[j]).end by {
        if i < j {
            assert(s[i].end < s[j].start);
        }
    }
    assert forall|i: int, j: int| 0 <= i <= j < s.len() implies (#[trigger] s[i]).start <= (#[trigger] s[j]).start by {
        if i < j {
            assert(s[i].end < s[j].start);
        }
    }
    assert forall|i: int, j: int| 0 <= i < j < t.len() implies (#[trigger] t[i]).end < (#[trigger] t[j]).start by {
        if j < k {
        } else if j == k {
            assert(s[i].end < s[k].start);
        } else if i == k {
            let jj = j - k - 1 + e;
            assert(s[e - 1].end < s[jj].start);
            assert(s[e].start <= s[jj].start);
        } else if i < k {
            assert(s[i].end < s[j - k - 1 + e].start);
        } else {
            assert(s[i - k - 1 + e].end < s[j - k - 1 + e].start);
        }
    }
    assert forall|x: int| seq_covers(t, x) <==> (seq_covers(s, x) || (range.start <= x && x < range.end)) by {
        if seq_covers(s, x) {
            let i = choose|i: int| 0 <= i < s.len() && (#[trigger] s[i]).start <= x && x < s[i].end;
            if i < k {
                assert(t[i] == s[i]);
            } else if i < e {
                assert(t[k] == merged);
                assert(s[k].start <= s[i].start);
                assert(s[i].end <= s[e - 1].end);
            } else {
                assert(t[i - e + k + 1] == s[i]);
            }
        }
        if range.start <= x && x < range.end {
            assert(t[k] == merged);
        }
        if seq_covers(t, x) {
            let i = choose|i: int| 0 <= i < t.len() && (#[trigger] t[i]).start <= x && x < t[i].end;
            if i < k {
                assert(s[i] == t[i]);
            } else if i == k {
                if x < range.start {
                    assert(s[k].start <= x && x < s[k].end);
                } else if x >= range.end {
                    assert(s[e - 1].start <= x && x < s[e - 1].end);
                }
            } else {
                assert(s[i - k - 1 + e] == t[i]);
            }
        }
    }
}

} // verus!
