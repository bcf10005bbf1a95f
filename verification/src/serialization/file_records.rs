use vstd::prelude::*;
use crate::serialization::stream_archiver::{directory_child_count, Record};
use crate::serialization::FileType;

verus! {

// How the records of an archive group into files: a file is its type, its dentry and its name, followed by its
// cluster ranges if it is a regular file, or by the files it holds if it is a directory.

/// How the archive records `recs` begin with one file, read with at most `budget` files to go: `Some((k, b))` if the
/// file, with everything below it if it is a directory, is its first `k` records, leaving `b` files to go. A file
/// is its type, its dentry and its name, then its cluster ranges if it is a regular file or the files it holds if
/// it is a directory.
pub closed spec fn file_span(recs: Seq<Record>, budget: nat) -> Option<(nat, nat)>
    decreases budget, 0nat, 0nat,
{
    if budget == 0 || recs.len() < 3 {
        None
    } else {
        match (recs[0], recs[1]) {
            (Record::FileTypes(t), Record::Dentries(d)) => if t@.len() == 1 && d@.len() == 1 && recs[2] is Bytes {
                match t@[0] {
                    FileType::Directory(n) => match children_span(recs.skip(3), n as nat, (budget - 1) as nat) {
                        Some((k, b)) => Some((3 + k, b)),
                        None => None,
                    },
                    FileType::RegularFile => if recs.len() >= 4 && recs[3] is Ranges {
                        Some((4nat, (budget - 1) as nat))
                    } else {
                        None
                    },
                }
            } else {
                None
            },
            _ => None,
        }
    }
}

/// How the archive records `recs` begin with `n` files, read with at most `budget` files to go, as `file_span` says
/// of one.
pub closed spec fn children_span(recs: Seq<Record>, n: nat, budget: nat) -> Option<(nat, nat)>
    decreases budget, 1nat, n,
{
    if n == 0 {
        Some((0nat, budget))
    } else {
        match file_span(recs, budget) {
            Some((k, b)) => if b < budget && k <= recs.len() {
                match children_span(recs.skip(k as int), (n - 1) as nat, b) {
                    Some((k2, b2)) => Some((k + k2, b2)),
                    None => None,
                }
            } else {
                None
            },
            None => None,
        }
    }
}

/// A file takes at least its three leading records, no more records than there are, and at least one file of the
/// budget.
pub proof fn lemma_file_span_bounds(recs: Seq<Record>, budget: nat)
    ensures
        file_span(recs, budget) matches Some((k, b)) ==> 3 <= k <= recs.len() && b < budget,
    decreases budget, 0nat, 0nat,
{
    if budget > 0 && recs.len() >= 3 {
        if let (Record::FileTypes(t), Record::Dentries(d)) = (recs[0], recs[1]) {
            if t@.len() == 1 {
                if let FileType::Directory(n) = t@[0] {
                    lemma_children_span_bounds(recs.skip(3), n as nat, (budget - 1) as nat);
                }
            }
        }
    }
}

/// Files take no more records than there are, and no more than the budget.
pub proof fn lemma_children_span_bounds(recs: Seq<Record>, n: nat, budget: nat)
    ensures
        children_span(recs, n, budget) matches Some((k, b)) ==> k <= recs.len() && b <= budget,
    decreases budget, 1nat, n,
{
    if n > 0 {
        lemma_file_span_bounds(recs, budget);
        if let Some((k, b)) = file_span(recs, budget) {
            if b < budget && k <= recs.len() {
                lemma_children_span_bounds(recs.skip(k as int), (n - 1) as nat, b);
            }
        }
    }
}

/// The records of a file: its type, dentry and name, then its ranges or the files below it.
pub proof fn lemma_file_span_unfold(recs: Seq<Record>, budget: nat)
    requires
        file_span(recs, budget) is Some,
    ensures
        ({
            let (k, b) = file_span(recs, budget)->0;
            &&& budget > 0
            &&& recs.len() >= 3
            &&& recs[0] matches Record::FileTypes(t) && t@.len() == 1 && match t@[0] {
                FileType::Directory(n) => children_span(recs.skip(3), n as nat, (budget - 1) as nat) == Some(
                    ((k - 3) as nat, b),
                ) && k >= 3,
                FileType::RegularFile => recs.len() >= 4 && recs[3] is Ranges && k == 4 && b == budget - 1,
            }
            &&& recs[1] matches Record::Dentries(d) && d@.len() == 1
            &&& recs[2] is Bytes
        }),
{
}

/// No files take no records; files take the records of the first one, then those of the others.
pub proof fn lemma_children_span_unfold(recs: Seq<Record>, n: nat, budget: nat)
    ensures
        n == 0 ==> children_span(recs, n, budget) == Some((0nat, budget)),
        n > 0 && children_span(recs, n, budget) is Some ==> ({
            let (k, b) = children_span(recs, n, budget)->0;
            let (k1, b1) = file_span(recs, budget)->0;
            &&& file_span(recs, budget) is Some
            &&& b1 < budget
            &&& k1 <= k
            &&& k1 <= recs.len()
            &&& children_span(recs.skip(k1 as int), (n - 1) as nat, b1) == Some(((k - k1) as nat, b))
        }),
{
}

/// Reading one file takes the records that `file_span` gives it from `before`, leaving `after`, and leaves the
/// budget that `file_span` gives, wherever the records at the front of `before` form a file.
pub closed spec fn reads_one_file(before: Seq<Record>, budget_before: nat, after: Seq<Record>, budget_after: nat) -> bool {
    match file_span(before, budget_before) {
        Some((k, b)) => after == before.skip(k as int) && budget_after == b,
        None => true,
    }
}

/// Reading `n` files takes the records that `children_span` gives them from `before`, leaving `after`, and leaves
/// the budget that `children_span` gives, wherever the records at the front of `before` form `n` files.
pub closed spec fn reads_files(before: Seq<Record>, n: nat, budget_before: nat, after: Seq<Record>, budget_after: nat) -> bool {
    match children_span(before, n, budget_before) {
        Some((k, b)) => after == before.skip(k as int) && budget_after == b,
        None => true,
    }
}

/// `reads_files` in terms of `children_span`.
pub proof fn lemma_reads_files(before: Seq<Record>, n: nat, budget_before: nat, after: Seq<Record>, budget_after: nat)
    ensures
        reads_files(before, n, budget_before, after, budget_after) <==> match children_span(before, n, budget_before) {
            Some((k, b)) => after == before.skip(k as int) && budget_after == b,
            None => true,
        },
{
}

/// Reading a directory tree takes the record that gives the number of files of the root directory from `before`,
/// then the records of those files, leaving `after`.
pub closed spec fn reads_tree(before: Seq<Record>, budget: nat, after: Seq<Record>) -> bool {
    &&& before.len() > 0
    &&& match directory_child_count(before[0]) {
        Some(n) => match children_span(before.drop_first(), n as nat, budget) {
            Some((k, b)) => after == before.skip((1 + k) as int),
            None => true,
        },
        None => false,
    }
}

/// `reads_tree` in terms of `children_span`.
pub proof fn lemma_reads_tree(before: Seq<Record>, budget: nat, after: Seq<Record>)
    ensures
        reads_tree(before, budget, after) <==> {
            &&& before.len() > 0
            &&& match directory_child_count(before[0]) {
                Some(n) => match children_span(before.drop_first(), n as nat, budget) {
                    Some((k, b)) => after == before.skip((1 + k) as int),
                    None => true,
                },
                None => false,
            }
        },
{
}

/// `reads_one_file` in terms of `file_span`.
pub proof fn lemma_reads_one_file(before: Seq<Record>, budget_before: nat, after: Seq<Record>, budget_after: nat)
    ensures
        reads_one_file(before, budget_before, after, budget_after) <==> match file_span(before, budget_before) {
            Some((k, b)) => after == before.skip(k as int) && budget_after == b,
            None => true,
        },
{
}

/// The records `recs` are one file, with everything below it, taking `count` files of any budget of at least
/// `count`: what the archive of one file holds.
pub open spec fn archives_file(recs: Seq<Record>, count: nat) -> bool {
    forall|budget: nat| budget >= count ==> #[trigger] file_span(recs, budget) == Some((recs.len(), (budget - count) as nat))
}

/// The records `recs` are `n` files, with everything below them, taking `count` files of any budget of at least
/// `count`.
pub open spec fn archives_files(recs: Seq<Record>, n: nat, count: nat) -> bool {
    forall|budget: nat| budget >= count ==> #[trigger] children_span(recs, n, budget) == Some(
        (recs.len(), (budget - count) as nat),
    )
}

/// The records `recs` are an archived directory tree of `count` files: the number of files of the root directory,
/// then those files.
pub open spec fn archives_tree(recs: Seq<Record>, count: nat) -> bool {
    &&& recs.len() > 0
    &&& directory_child_count(recs[0]) matches Some(n) && archives_files(recs.drop_first(), n as nat, count)
}

/// The records of a regular file, its type, its dentry, its name and its ranges, are one file.
pub proof fn lemma_regular_file_span(recs: Seq<Record>, budget: nat)
    requires
        recs.len() == 4,
        budget >= 1,
        recs[0] matches Record::FileTypes(t) && t@ == seq![FileType::RegularFile],
        recs[1] matches Record::Dentries(d) && d@.len() == 1,
        recs[2] is Bytes,
        recs[3] is Ranges,
    ensures
        file_span(recs, budget) == Some((4nat, (budget - 1) as nat)),
{
}

/// The records of a directory of `n` files, its type, its dentry and its name followed by those files, are one
/// file.
pub proof fn lemma_directory_file_span(recs: Seq<Record>, n: u32, budget: nat, b: nat)
    requires
        recs.len() >= 3,
        budget >= 1,
        recs[0] matches Record::FileTypes(t) && t@ == seq![FileType::Directory(n)],
        recs[1] matches Record::Dentries(d) && d@.len() == 1,
        recs[2] is Bytes,
        children_span(recs.skip(3), n as nat, (budget - 1) as nat) == Some(((recs.len() - 3) as nat, b)),
    ensures
        file_span(recs, budget) == Some((recs.len(), b)),
{
}

/// Records after the ones that form a file do not change how the file reads.
pub proof fn lemma_file_span_append(recs: Seq<Record>, extra: Seq<Record>, budget: nat)
    ensures
        file_span(recs, budget) matches Some((k, b)) ==> file_span(recs + extra, budget) == Some((k, b)),
    decreases budget, 0nat, 0nat,
{
    lemma_file_span_bounds(recs, budget);
    if let Some((k, b)) = file_span(recs, budget) {
        let all = recs + extra;
        assert(all[0] == recs[0] && all[1] == recs[1] && all[2] == recs[2]);
        if let (Record::FileTypes(t), Record::Dentries(d)) = (recs[0], recs[1]) {
            match t@[0] {
                FileType::Directory(n) => {
                    lemma_children_span_append(recs.skip(3), extra, n as nat, (budget - 1) as nat);
                    assert(all.skip(3) =~= recs.skip(3) + extra);
                },
                FileType::RegularFile => {
                    assert(all[3] == recs[3]);
                },
            }
        }
    }
}

/// Records after the ones that form files do not change how the files read.
pub proof fn lemma_children_span_append(recs: Seq<Record>, extra: Seq<Record>, n: nat, budget: nat)
    ensures
        children_span(recs, n, budget) matches Some((k, b)) ==> children_span(recs + extra, n, budget) == Some((k, b)),
    decreases budget, 1nat, n,
{
    if n > 0 {
        if let Some((k1, b1)) = file_span(recs, budget) {
            lemma_file_span_append(recs, extra, budget);
            if b1 < budget && k1 <= recs.len() {
                lemma_children_span_append(recs.skip(k1 as int), extra, (n - 1) as nat, b1);
                assert((recs + extra).skip(k1 as int) =~= recs.skip(k1 as int) + extra);
            }
        }
    }
}

/// Files that read whole, followed by a file that reads whole, read whole as one more file.
pub proof fn lemma_children_span_push(a: Seq<Record>, n: nat, budget: nat, b1: nat, f: Seq<Record>, b2: nat)
    requires
        children_span(a, n, budget) == Some((a.len(), b1)),
        file_span(f, b1) == Some((f.len(), b2)),
    ensures
        children_span(a + f, n + 1, budget) == Some((a.len() + f.len(), b2)),
    decreases n,
{
    lemma_file_span_bounds(f, b1);
    if n == 0 {
        assert(a.len() == 0 && b1 == budget);
        assert(a + f =~= f);
        assert(children_span(f.skip(f.len() as int), 0, b2) == Some((0nat, b2)));
        assert(children_span(f, 1, budget) == Some((f.len(), b2)));
    } else {
        lemma_children_span_unfold(a, n, budget);
        let (k1, c1) = file_span(a, budget)->0;
        lemma_file_span_append(a, f, budget);
        assert(children_span(a.skip(k1 as int), (n - 1) as nat, c1) == Some(((a.len() - k1) as nat, b1)));
        assert(a.skip(k1 as int).len() == a.len() - k1);
        lemma_children_span_push(a.skip(k1 as int), (n - 1) as nat, c1, b1, f, b2);
        assert((a + f).skip(k1 as int) =~= a.skip(k1 as int) + f);
        assert(file_span(a + f, budget) == Some((k1, c1)));
        assert(children_span((a + f).skip(k1 as int), n, c1) == Some(((a.len() - k1 + f.len()) as nat, b2)));
    }
}

/// An archived tree of `count` files reads whole: reading the tree with a budget of at least `count` files leaves
/// no record behind.
pub proof fn law_archived_tree_reads_whole(recs: Seq<Record>, count: nat, budget: nat, after: Seq<Record>)
    requires
        archives_tree(recs, count),
        budget >= count,
        reads_tree(recs, budget, after),
    ensures
        after.len() == 0,
{
    let n = directory_child_count(recs[0])->0;
    assert(children_span(recs.drop_first(), n as nat, budget) == Some((recs.drop_first().len(), (budget - count) as nat)));
}

} // verus!
