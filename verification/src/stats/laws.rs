//! What the counts count, over all indexes.

use crate::excluded::{MECHANICAL, TOO_LARGE};
use crate::plain;
use crate::rows::{CommitRow, FileRow, IntervalRow, PathIntervalRow};
use crate::stats;
use crate::text;
use vstd::prelude::*;

verus! {

proof fn lemma_count<A>(s: Seq<A>, x: A, f: spec_fn(A) -> bool)
    ensures
        s.push(x).filter(f).len() == s.filter(f).len() + (if f(x) {
            1nat
        } else {
            0
        }),
        Seq::<A>::empty().filter(f).len() == 0,
{
    s.lemma_filter_push(x, f);
    Seq::<A>::empty().lemma_filter_len(f);
}

/// Law: without commits nothing is counted, and one more commit adds one to
/// each count that it belongs to: of those flagged too large, of those flagged
/// mechanical, of merges, and of those without a weight.
pub proof fn commits_are_counted(commits: Seq<CommitRow>, c: CommitRow)
    ensures
        stats::flagged(Seq::empty(), TOO_LARGE) == 0,
        stats::flagged(Seq::empty(), MECHANICAL) == 0,
        stats::merges(Seq::empty()) == 0,
        stats::weightless(Seq::empty()) == 0,
        stats::flagged(commits.push(c), TOO_LARGE) == stats::flagged(commits, TOO_LARGE) + (if c.excluded & 1 != 0 {
            1nat
        } else {
            0
        }),
        stats::flagged(commits.push(c), MECHANICAL) == stats::flagged(commits, MECHANICAL) + (if c.excluded & 2 != 0 {
            1nat
        } else {
            0
        }),
        stats::merges(commits.push(c)) == stats::merges(commits) + (if c.is_merge {
            1nat
        } else {
            0
        }),
        stats::weightless(commits.push(c)) == stats::weightless(commits) + (if c.weighted {
            0nat
        } else {
            1
        }),
{
    lemma_count(commits, c, |c: CommitRow| c.excluded & TOO_LARGE != 0);
    lemma_count(commits, c, |c: CommitRow| c.excluded & MECHANICAL != 0);
    lemma_count(commits, c, |c: CommitRow| c.is_merge);
    lemma_count(commits, c, |c: CommitRow| !c.weighted);
}

/// Law: one more file adds one to the files alive where it has a path at HEAD,
/// and one to the documents where it is one.
pub proof fn files_are_counted(files: Seq<FileRow>, f: FileRow)
    ensures
        stats::alive(Seq::empty()) == 0,
        stats::docs(Seq::empty()) == 0,
        stats::alive(files.push(f)) == stats::alive(files) + (if f.current_path is Some {
            1nat
        } else {
            0
        }),
        stats::docs(files.push(f)) == stats::docs(files) + (if f.is_doc {
            1nat
        } else {
            0
        }),
{
    lemma_count(files, f, |f: FileRow| f.current_path is Some);
    lemma_count(files, f, |f: FileRow| f.is_doc);
}

/// Law: the live edges are those that have an open interval.
pub proof fn live_edges_are_open(intervals: Seq<IntervalRow>, edge: i64)
    ensures
        stats::live_edges(intervals).contains(edge) <==> plain::open_now(intervals, edge),
        stats::live_edges(intervals).finite(),
    decreases intervals.len(),
{
    if intervals.len() > 0 {
        let d = intervals.drop_last();
        live_edges_are_open(d, edge);
        if plain::open_now(intervals, edge) {
            let i = choose|i: int|
                0 <= i < intervals.len() && (#[trigger] intervals[i]).edge_id == edge && intervals[i].died is None;
            if i < d.len() {
                assert(d[i] == intervals[i]);
            }
        }
        if plain::open_now(d, edge) {
            let i = choose|i: int| 0 <= i < d.len() && (#[trigger] d[i]).edge_id == edge && d[i].died is None;
            assert(intervals[i] == d[i]);
        }
        assert(intervals[intervals.len() - 1] == intervals.last());
    }
}

/// Law: one more path of a file that began within the index is one more rename,
/// and it is doubtful below eighty hundredths of confidence.
pub proof fn renames_are_counted(paths: Seq<PathIntervalRow>, p: PathIntervalRow, files: nat)
    ensures
        stats::doubtful(Seq::empty()) == 0,
        stats::doubtful(paths.push(p)) == stats::doubtful(paths) + (if p.confidence < 80 {
            1nat
        } else {
            0
        }),
        stats::begun(Seq::empty()) == 0,
        stats::begun(paths.push(p)) == stats::begun(paths) + (if p.from_commit.0 != 0 {
            1nat
        } else {
            0
        }),
        stats::begun(paths) >= files ==> stats::renames(paths, files) + files == stats::begun(paths),
        stats::begun(paths) <= files ==> stats::renames(paths, files) == 0,
{
    lemma_count(paths, p, |p: PathIntervalRow| p.confidence < stats::LOW_CONFIDENCE);
    lemma_count(paths, p, |p: PathIntervalRow| p.from_commit.0 != 0);
}

/// Law: a kept number is the one that its text writes.
pub proof fn kept_numbers_are_read(n: int)
    requires
        i64::MIN <= n <= i64::MAX,
    ensures
        stats::meta_signed(Some(text::decimal_int(n))) == n,
        stats::meta_signed(None) == 0,
{
    text::numbers_read_back(n, 0);
}

} // verus!
