//! The rows of an index, read plainly: what each says by being there, and that
//! the lookups of the queries say the same.

use crate::graph;
use crate::graph::EdgeInfoView;
use crate::model::{CommitId, FileId};
use crate::postings;
use crate::query;
use crate::rows::{CommitRow, EdgeRow, FileRow, IntervalRow, PathIntervalRow, TouchRow};
use crate::rows;
use crate::time;
use vstd::prelude::*;

verus! {

/// A commit touched a file: there is a row that says so.
pub open spec fn touched(touches: Seq<TouchRow>, c: i64, f: FileId) -> bool {
    exists|i: int| 0 <= i < touches.len() && (#[trigger] touches[i]).commit.0 == c && touches[i].file == f
}

/// A commit has a weight: there is a row that says so.
pub open spec fn weighs(commits: Seq<CommitRow>, c: i64) -> bool {
    exists|i: int| 0 <= i < commits.len() && (#[trigger] commits[i]).id.0 == c && commits[i].weighted
}

/// A commit is flagged as mechanical churn: there is a row that says so.
pub open spec fn flagged_mechanical(commits: Seq<CommitRow>, c: i64) -> bool {
    exists|i: int| 0 <= i < commits.len() && (#[trigger] commits[i]).id.0 == c && commits[i].excluded & 2 != 0
}

/// A commit was made at a time: there is a row that says so.
pub open spec fn made_at(commits: Seq<CommitRow>, c: i64, t: int) -> bool {
    exists|i: int| 0 <= i < commits.len() && (#[trigger] commits[i]).id.0 == c && commits[i].author_time == t
}

/// A file has a path at HEAD: there is a row that says so.
pub open spec fn lives(files: Seq<FileRow>, f: FileId) -> bool {
    exists|i: int| 0 <= i < files.len() && (#[trigger] files[i]).id == f && files[i].current_path is Some
}

/// An edge is open: there is an interval that has not ended.
pub open spec fn open_now(intervals: Seq<IntervalRow>, edge: i64) -> bool {
    exists|i: int| 0 <= i < intervals.len() && (#[trigger] intervals[i]).edge_id == edge && intervals[i].died is None
}

/// The last interval of an edge.
pub open spec fn last_interval(intervals: Seq<IntervalRow>, edge: i64, i: int) -> bool {
    &&& 0 <= i < intervals.len()
    &&& intervals[i].edge_id == edge
    &&& forall|j: int| i < j < intervals.len() ==> (#[trigger] intervals[j]).edge_id != edge
}

/// No two rows are of one commit.
pub open spec fn commits_once(commits: Seq<CommitRow>) -> bool {
    forall|i: int, j: int| 0 <= i < j < commits.len() ==> (#[trigger] commits[i]).id != (#[trigger] commits[j]).id
}

/// No two rows are of one file.
pub open spec fn files_once(files: Seq<FileRow>) -> bool {
    forall|i: int, j: int| 0 <= i < j < files.len() ==> (#[trigger] files[i]).id != (#[trigger] files[j]).id
}

/// No two rows are of one file in one commit.
pub open spec fn touches_once(touches: Seq<TouchRow>) -> bool {
    forall|i: int, j: int|
        0 <= i < j < touches.len() ==> (#[trigger] touches[i]).commit != (#[trigger] touches[j]).commit || touches[i].file
            != touches[j].file
}

/// The touches stand in the order of commits.
pub open spec fn touches_in_order(touches: Seq<TouchRow>) -> bool {
    forall|i: int, j: int|
        0 <= i < j < touches.len() ==> (#[trigger] touches[i]).commit.0 <= (#[trigger] touches[j]).commit.0
}

pub proof fn lemma_commit_at(commits: Seq<CommitRow>, c: i64)
    requires
        commits_once(commits),
    ensures
        match query::commit_at(commits, c) {
            Some(i) => 0 <= i < commits.len() && commits[i].id.0 == c && forall|j: int|
                0 <= j < commits.len() && (#[trigger] commits[j]).id.0 == c ==> j == i,
            None => forall|j: int| 0 <= j < commits.len() ==> (#[trigger] commits[j]).id.0 != c,
        },
{
    let ids = query::commit_ids(commits);
    postings::positions_are_indices(ids, c);
    let p = postings::positions(ids, c);
    match query::commit_at(commits, c) {
        Some(i) => {
            assert(p[p.len() - 1] == i);
            assert(ids[i] == commits[i].id.0);
            assert forall|j: int| 0 <= j < commits.len() && (#[trigger] commits[j]).id.0 == c implies j == i by {
                if j < i {
                    assert(commits[j].id != commits[i].id);
                } else if i < j {
                    assert(commits[i].id != commits[j].id);
                }
            }
        },
        None => {
            assert forall|j: int| 0 <= j < commits.len() implies (#[trigger] commits[j]).id.0 != c by {
                if commits[j].id.0 == c {
                    assert(ids[j] == c);
                    assert(p.contains(j));
                }
            }
        },
    }
}

/// Law: the commits that count are those that have a weight.
pub proof fn weight_counts(commits: Seq<CommitRow>, c: i64)
    requires
        commits_once(commits),
    ensures
        query::counts(commits, c) <==> weighs(commits, c),
{
    lemma_commit_at(commits, c);
}

/// Law: the time of a commit is the one its row has; what was there before the
/// index is as old as its oldest commit.
pub proof fn commits_have_times(commits: Seq<CommitRow>, c: i64, t: int)
    requires
        commits_once(commits),
    ensures
        c != 0 && made_at(commits, c, t) ==> query::when(commits, c) == t,
        c == 0 && commits.len() > 0 ==> (forall|i: int|
            0 <= i < commits.len() ==> query::when(commits, c) <= (#[trigger] commits[i]).author_time) && exists|i: int|
            0 <= i < commits.len() && query::when(commits, c) == (#[trigger] commits[i]).author_time,
{
    lemma_commit_at(commits, c);
    let times = query::commit_times(commits);
    graph::times_bounded(times);
    assert forall|i: int| 0 <= i < commits.len() implies times[i] == (#[trigger] commits[i]).author_time by {}
    if commits.len() > 0 {
        let i = choose|i: int| 0 <= i < times.len() && #[trigger] times[i] == graph::earliest_time(times);
        assert(commits[i].author_time == graph::earliest_time(times));
        assert forall|i: int| 0 <= i < commits.len() implies graph::earliest_time(times) <= (
        #[trigger] commits[i]).author_time by {
            assert(times[i] == commits[i].author_time);
        }
    }
}

/// Law: a file is alive where it has a path at HEAD.
pub proof fn paths_keep_alive(files: Seq<FileRow>, f: FileId)
    requires
        files_once(files),
    ensures
        rows::is_alive(files, f) <==> lives(files, f),
{
    rows::lemma_file_at(files, f);
    let ids = rows::file_ids(files);
    postings::positions_are_indices(ids, f.0);
    let p = postings::positions(ids, f.0);
    if lives(files, f) {
        let j = choose|j: int| 0 <= j < files.len() && (#[trigger] files[j]).id == f && files[j].current_path is Some;
        assert(ids[j] == f.0);
        assert(p.contains(j));
        let i = rows::file_at(files, f)->0;
        if j < i {
            assert(files[j].id != files[i].id);
        } else if i < j {
            assert(files[i].id != files[j].id);
        }
    }
}

/// Law: an edge of the graph is alive where an interval of it is open, and it
/// died where its last interval ended.
pub proof fn intervals_keep_alive(row: EdgeRow, intervals: Seq<IntervalRow>, ids: Seq<i64>, times: Seq<i64>)
    ensures
        graph::edge_info(row, intervals, ids, times).row == row,
        graph::edge_info(row, intervals, ids, times).alive <==> open_now(intervals, row.id),
        match graph::edge_info(row, intervals, ids, times).last_died {
            Some(d) => exists|i: int|
                #![trigger intervals[i]]
                last_interval(intervals, row.id, i) && intervals[i].died == Some(CommitId(d)),
            None => forall|i: int| #![trigger intervals[i]] last_interval(intervals, row.id, i) ==> intervals[i].died is None,
        },
        forall|i: int|
            #![trigger intervals[i]]
            last_interval(intervals, row.id, i) ==> {
                let e = graph::edge_info(row, intervals, ids, times);
                &&& e.intervals.len() > 0
                &&& e.intervals.last().0 == intervals[i].born.0
                &&& match intervals[i].died {
                    Some(d) => e.last_died == Some(d.0),
                    None => e.last_died is None,
                }
            },
{
    let keys = graph::interval_edges(intervals);
    let p = postings::positions(keys, row.id);
    let s = graph::spans_of(intervals, row.id);
    postings::positions_are_indices(keys, row.id);
    if open_now(intervals, row.id) {
        let i = choose|i: int|
            0 <= i < intervals.len() && (#[trigger] intervals[i]).edge_id == row.id && intervals[i].died is None;
        assert(keys[i] == row.id);
        assert(p.contains(i));
        assert(s[p.index_of(i)].1 is None);
    }
    if graph::any_open(s) {
        let k = choose|k: int| 0 <= k < s.len() && (#[trigger] s[k]).1 is None;
        assert(intervals[p[k]].died is None);
        assert(keys[p[k]] == row.id);
    }
    assert forall|i: int| last_interval(intervals, row.id, i) implies p.len() > 0 && p[p.len() - 1] == i by {
        assert(keys[i] == row.id);
        assert(p.contains(i));
        let k = p.index_of(i);
        let m = p[p.len() - 1];
        assert(keys[m] == row.id);
        assert(intervals[m].edge_id == row.id);
        if k < p.len() - 1 {
            assert(p[k] < p[p.len() - 1]);
        }
    }
    if s.len() > 0 {
        let m = p[p.len() - 1];
        assert(keys[m] == row.id);
        assert(s.last() == graph::span(intervals[m]));
        assert forall|j: int| m < j < intervals.len() implies (#[trigger] intervals[j]).edge_id != row.id by {
            if intervals[j].edge_id == row.id {
                assert(keys[j] == row.id);
                assert(p.contains(j));
                let k = p.index_of(j);
                if k < p.len() - 1 {
                    assert(p[k] < p[p.len() - 1]);
                }
            }
        }
        assert(last_interval(intervals, row.id, m));
    }
}

/// Law: the days between two times are whole ones.
pub proof fn days_are_whole(secs: int)
    requires
        secs >= 0,
    ensures
        86_400 * graph::whole_days(secs) <= secs < 86_400 * (graph::whole_days(secs) + 1),
{
}

/// Law: the touches of a file are exactly the rows that name it, in their
/// order.
pub proof fn touches_are_rows(touches: Seq<TouchRow>, f: FileId)
    ensures
        forall|i: int|
            0 <= i < query::touches_of(touches, f).len() ==> (#[trigger] query::touches_of(touches, f)[i]).file == f,
        forall|c: i64|
            touched(touches, c, f) <==> exists|i: int|
                0 <= i < query::touches_of(touches, f).len() && (#[trigger] query::touches_of(touches, f)[i]).commit.0 == c,
        touches_once(touches) ==> forall|i: int, j: int|
            0 <= i < j < query::touches_of(touches, f).len() ==> (#[trigger] query::touches_of(touches, f)[i]).commit
                != (#[trigger] query::touches_of(touches, f)[j]).commit,
        touches_in_order(touches) ==> forall|i: int, j: int|
            0 <= i < j < query::touches_of(touches, f).len() ==> (#[trigger] query::touches_of(touches, f)[i]).commit.0
                <= (#[trigger] query::touches_of(touches, f)[j]).commit.0,
{
    let keys = query::touch_files(touches);
    let p = postings::positions(keys, f.0);
    let t = query::touches_of(touches, f);
    postings::positions_are_indices(keys, f.0);
    assert forall|i: int| 0 <= i < t.len() implies (#[trigger] t[i]).file == f by {
        assert(t[i] == touches[p[i]]);
        assert(keys[p[i]] == touches[p[i]].file.0);
    }
    assert forall|c: i64|
        touched(touches, c, f) <==> exists|i: int| 0 <= i < t.len() && (#[trigger] t[i]).commit.0 == c by {
        if touched(touches, c, f) {
            let j = choose|j: int|
                0 <= j < touches.len() && (#[trigger] touches[j]).commit.0 == c && touches[j].file == f;
            assert(keys[j] == f.0);
            assert(p.contains(j));
            assert(t[p.index_of(j)].commit.0 == c);
        }
        if exists|i: int| 0 <= i < t.len() && (#[trigger] t[i]).commit.0 == c {
            let i = choose|i: int| 0 <= i < t.len() && (#[trigger] t[i]).commit.0 == c;
            assert(t[i] == touches[p[i]]);
            assert(t[i].file == f);
            assert(touches[p[i]].commit.0 == c);
        }
    }
    assert forall|i: int, j: int| 0 <= i < j < t.len() && touches_once(touches) implies (#[trigger] t[i]).commit != (
    #[trigger] t[j]).commit by {
        assert(p[i] < p[j]);
        assert(t[i] == touches[p[i]] && t[j] == touches[p[j]]);
        assert(t[i].file == f && t[j].file == f);
    }
    assert forall|i: int, j: int| 0 <= i < j < t.len() && touches_in_order(touches) implies (#[trigger] t[i]).commit.0 <= (
    #[trigger] t[j]).commit.0 by {
        assert(p[i] < p[j]);
        assert(t[i] == touches[p[i]] && t[j] == touches[p[j]]);
    }
}

/// Law: the edges at a file are exactly those that lead out of it or into it.
pub proof fn edges_meet_files(edges: Seq<EdgeInfoView>, f: FileId)
    ensures
        forall|i: int|
            #![trigger edges[i]]
            0 <= i < edges.len() ==> (graph::edges_at(edges, f).contains(i) <==> edges[i].row.src == f || edges[i].row.dst
                == f),
        forall|k: int|
            0 <= k < graph::edges_at(edges, f).len() ==> 0 <= #[trigger] graph::edges_at(edges, f)[k] < edges.len(),
        forall|i: int|
            #![trigger edges[i]]
            0 <= i < edges.len() ==> (postings::positions(graph::targets(edges), f.0).contains(i) <==> edges[i].row.dst
                == f),
        forall|k: int|
            0 <= k < postings::positions(graph::targets(edges), f.0).len() ==> 0 <= #[trigger] postings::positions(
                graph::targets(edges),
                f.0,
            )[k] < edges.len(),
{
    let s = graph::sources(edges);
    let t = graph::targets(edges);
    let a = postings::positions(s, f.0);
    let b = postings::positions(t, f.0);
    let at = graph::edges_at(edges, f);
    postings::positions_are_indices(s, f.0);
    postings::positions_are_indices(t, f.0);
    assert forall|i: int| #![trigger edges[i]] 0 <= i < edges.len() implies (b.contains(i) <==> edges[i].row.dst == f) by {
        assert(t[i] == edges[i].row.dst.0);
        if b.contains(i) {
            assert(t[b[b.index_of(i)]] == f.0);
        }
    }
    assert forall|i: int| #![trigger edges[i]] 0 <= i < edges.len() implies (at.contains(i) <==> edges[i].row.src == f
        || edges[i].row.dst == f) by {
        assert(s[i] == edges[i].row.src.0);
        if edges[i].row.src == f {
            assert(a.contains(i));
            assert(at[a.index_of(i)] == i);
        }
        if edges[i].row.dst == f {
            assert(b.contains(i));
            assert(at[a.len() + b.index_of(i)] == i);
        }
        if at.contains(i) {
            let k = at.index_of(i);
            if k < a.len() {
                assert(a[k] == i);
                assert(s[a[k]] == f.0);
            } else {
                assert(b[k - a.len()] == i);
                assert(b.contains(i));
            }
        }
    }
    assert forall|k: int| 0 <= k < at.len() implies 0 <= #[trigger] at[k] < edges.len() by {
        if k < a.len() {
            assert(at[k] == a[k]);
        } else {
            assert(at[k] == b[k - a.len()]);
        }
    }
}

/// Law: a document is behind a file where a commit with a weight touched the
/// file after every commit that touched the document.
pub proof fn behind_means_changed_since(commits: Seq<CommitRow>, touches: Seq<TouchRow>, doc: FileId, code: FileId)
    requires
        commits_once(commits),
        touches_in_order(touches),
        forall|i: int| 0 <= i < touches.len() ==> (#[trigger] touches[i]).commit.0 > 0,
    ensures
        query::behind(commits, touches, doc, code) > 0 <==> exists|c: i64|
            #![trigger touched(touches, c, code)]
            touched(touches, c, code) && weighs(commits, c) && forall|d: i64| #[trigger] touched(touches, d, doc) ==> d < c,
{
    broadcast use vstd::seq_lib::group_filter_ensures;

    let last = query::last_touch(touches, doc);
    let f = |t: TouchRow| t.commit.0 > last && query::counts(commits, t.commit.0);
    let t = query::touches_of(touches, code);
    let u = query::touches_of(touches, doc);
    let s = t.filter(f);
    touches_are_rows(touches, doc);
    touches_are_rows(touches, code);
    assert forall|d: i64| #[trigger] touched(touches, d, doc) implies d <= last by {
        let i = choose|i: int| 0 <= i < u.len() && (#[trigger] u[i]).commit.0 == d;
        if i < u.len() - 1 {
            assert(u[i].commit.0 <= u[u.len() - 1].commit.0);
        }
    }
    if u.len() > 0 {
        assert(u[u.len() - 1].commit.0 == last);
        assert(touched(touches, last, doc));
    }
    if s.len() > 0 {
        let x = s[0];
        assert(s.contains(x));
        t.lemma_filter_contains_rev(f, x);
        assert(f(x));
        let i = t.index_of(x);
        let c = x.commit.0;
        assert(t[i].commit.0 == c);
        weight_counts(commits, c);
        assert(touched(touches, c, code));
    }
    if exists|c: i64|
        #![trigger touched(touches, c, code)]
        touched(touches, c, code) && weighs(commits, c) && forall|d: i64| #[trigger] touched(touches, d, doc) ==> d < c {
        let c = choose|c: i64|
            #![trigger touched(touches, c, code)]
            touched(touches, c, code) && weighs(commits, c) && forall|d: i64| #[trigger] touched(touches, d, doc)
                ==> d < c;
        let i = choose|i: int| 0 <= i < t.len() && (#[trigger] t[i]).commit.0 == c;
        weight_counts(commits, c);
        let j = choose|j: int| 0 <= j < touches.len() && (#[trigger] touches[j]).commit.0 == c && touches[j].file == code;
        assert(c > 0);
        assert(f(t[i]));
        assert(s.contains(t[i]));
    }
}

pub proof fn lemma_positions_push(keys: Seq<i64>, x: i64, k: i64)
    ensures
        postings::positions(keys.push(x), k) == (if x == k {
            postings::positions(keys, k).push(keys.len() as int)
        } else {
            postings::positions(keys, k)
        }),
{
    assert(keys.push(x).drop_last() =~= keys);
}

/// Law: an edge lived as long as its intervals lasted, taken together. One that
/// is open has lasted until the latest commit.
pub proof fn lifetimes_add_up(row: EdgeRow, intervals: Seq<IntervalRow>, iv: IntervalRow, ids: Seq<i64>, times: Seq<i64>)
    ensures
        graph::edge_info(row, Seq::empty(), ids, times).total_lifetime_days == 0,
        iv.edge_id != row.id ==> graph::edge_info(row, intervals.push(iv), ids, times) == graph::edge_info(
            row,
            intervals,
            ids,
            times,
        ),
        iv.edge_id == row.id ==> graph::edge_info(row, intervals.push(iv), ids, times).total_lifetime_days
            == graph::edge_info(row, intervals, ids, times).total_lifetime_days + graph::whole_days(
            (match iv.died {
                Some(d) => graph::time_at(ids, times, d.0),
                None => graph::latest_time(times),
            }) - graph::time_at(ids, times, iv.born.0),
        ),
{
    let all = intervals.push(iv);
    let keys = graph::interval_edges(intervals);
    assert(graph::interval_edges(all) =~= keys.push(iv.edge_id));
    lemma_positions_push(keys, iv.edge_id, row.id);
    let p = postings::positions(keys, row.id);
    postings::positions_are_indices(keys, row.id);
    let s = graph::spans_of(intervals, row.id);
    let t = graph::spans_of(all, row.id);
    assert forall|j: int| 0 <= j < p.len() implies all[#[trigger] p[j]] == intervals[p[j]] by {}
    if iv.edge_id == row.id {
        assert(t =~= s.push(graph::span(iv)));
        assert(t.drop_last() =~= s);
    } else {
        assert(t =~= s);
    }
    assert(graph::interval_edges(Seq::empty()) =~= Seq::<i64>::empty());
}

/// Law: a commit is referred to by the start of its id, its date and its
/// subject; what was there before the index by words that say so.
pub proof fn references_name_commits(commits: Seq<CommitRow>, i: int, c: i64)
    requires
        commits_once(commits),
        0 <= i < commits.len() && commits[i].id.0 == c,
    ensures
        c != 0 ==> query::ref_to(commits, c).oid == rows::hex(rows::at_most(commits[i].oid@, 6)),
        c != 0 ==> query::ref_to(commits, c).date == time::date_of(commits[i].author_time as int),
        c != 0 ==> (match commits[i].subject {
            Some(x) => query::ref_to(commits, c).subject == x@,
            None => query::ref_to(commits, c).subject.len() == 0,
        }),
        query::ref_to(commits, 0).oid == "(index-start)"@,
        query::ref_to(commits, 0).subject == "before indexed history"@,
{
    lemma_commit_at(commits, c);
}

/// Law: a file is shown under the path it has at HEAD or, where it has none,
/// under one that it had and than which it took up none later.
pub proof fn files_are_shown_by_path(files: Seq<FileRow>, paths: Seq<PathIntervalRow>, i: int, f: FileId)
    requires
        files_once(files),
        0 <= i < files.len() && files[i].id == f,
    ensures
        files[i].current_path matches Some(p) ==> rows::shown_path(files, paths, f) == p@,
        files[i].current_path is None && (exists|k: int| 0 <= k < paths.len() && (#[trigger] paths[k]).file_id == f)
            ==> exists|k: int|
            #![trigger paths[k]]
            0 <= k < paths.len() && paths[k].file_id == f && rows::shown_path(files, paths, f) == paths[k].path@ && forall|
                j: int,
            |
                0 <= j < paths.len() && (#[trigger] paths[j]).file_id == f ==> paths[j].from_commit.0
                    <= paths[k].from_commit.0,
{
    let ids = rows::file_ids(files);
    postings::positions_are_indices(ids, f.0);
    let p = postings::positions(ids, f.0);
    assert(ids[i] == f.0);
    assert(p.contains(i));
    rows::lemma_file_at(files, f);
    let m = rows::file_at(files, f)->0;
    if m < i {
        assert(files[m].id != files[i].id);
    } else if i < m {
        assert(files[i].id != files[m].id);
    }
    let keys = rows::path_files(paths);
    let at = postings::positions(keys, f.0);
    postings::positions_are_indices(keys, f.0);
    lemma_latest(paths, at);
    assert forall|j: int| 0 <= j < paths.len() && (#[trigger] paths[j]).file_id == f implies at.contains(j) by {
        assert(keys[j] == f.0);
    }
    if files[i].current_path is None && exists|k: int| 0 <= k < paths.len() && (#[trigger] paths[k]).file_id == f {
        let k = choose|k: int| 0 <= k < paths.len() && (#[trigger] paths[k]).file_id == f;
        assert(at.contains(k));
        let b = rows::latest_of(paths, at)->0;
        let x = at.index_of(b);
        assert(keys[at[x]] == f.0);
        assert(paths[b].file_id == f);
        assert forall|j: int| 0 <= j < paths.len() && (#[trigger] paths[j]).file_id == f implies paths[j].from_commit.0
            <= paths[b].from_commit.0 by {
            assert(at.contains(j));
            assert(at[at.index_of(j)] == j);
        }
    }
}

proof fn lemma_latest(paths: Seq<PathIntervalRow>, at: Seq<int>)
    ensures
        at.len() > 0 <==> rows::latest_of(paths, at) is Some,
        rows::latest_of(paths, at) matches Some(b) ==> at.contains(b) && forall|k: int|
            0 <= k < at.len() ==> paths[#[trigger] at[k]].from_commit.0 <= paths[b].from_commit.0,
    decreases at.len(),
{
    if at.len() > 0 {
        let f = at.drop_last();
        lemma_latest(paths, f);
        assert(at[at.len() - 1] == at.last());
        let b = rows::latest_of(paths, at)->0;
        if f.contains(b) {
            assert(at[f.index_of(b)] == b);
        }
        assert forall|k: int| 0 <= k < at.len() implies paths[#[trigger] at[k]].from_commit.0 <= paths[b].from_commit.0 by {
            if k < f.len() {
                assert(f[k] == at[k]);
            }
        }
    }
}

/// What a list keeps of another, kept in its order: each of the results of the
/// items that have one, and no other.
pub proof fn lemma_kept_in_order<A, B>(s: Seq<A>, f: spec_fn(A) -> Option<B>)
    ensures
        forall|y: B|
            s.filter_map(f).contains(y) <==> exists|i: int| 0 <= i < s.len() && f(#[trigger] s[i]) == Some(y),
        forall|i: int, j: int|
            0 <= i < j < s.len() && f(#[trigger] s[i]) is Some && f(#[trigger] s[j]) is Some ==> exists|k: int, l: int|
                0 <= k < l < s.filter_map(f).len() && (#[trigger] s.filter_map(f)[k]) == f(s[i])->0 && (
                #[trigger] s.filter_map(f)[l]) == f(s[j])->0,
    decreases s.len(),
{
    let o = s.filter_map(f);
    if s.len() == 0 {
        reveal(Seq::filter_map);
        assert(o.len() == 0);
    } else {
        let d = s.drop_last();
        let b = d.filter_map(f);
        let n = s.len() - 1;
        lemma_kept_in_order(d, f);
        s.lemma_filter_map_take_succ(f, n);
        assert(s.take(n + 1) =~= s);
        assert(s.take(n) =~= d);
        assert(o =~= b + (match f(s[n]) {
            Some(y) => seq![y],
            None => Seq::empty(),
        }));
        assert forall|y: B| o.contains(y) <==> exists|i: int| 0 <= i < s.len() && f(#[trigger] s[i]) == Some(y) by {
            if o.contains(y) {
                let k = o.index_of(y);
                if k < b.len() {
                    assert(b[k] == y);
                    assert(b.contains(y));
                    let i = choose|i: int| 0 <= i < d.len() && f(#[trigger] d[i]) == Some(y);
                    assert(s[i] == d[i]);
                } else {
                    assert(f(s[n]) == Some(y));
                }
            }
            if exists|i: int| 0 <= i < s.len() && f(#[trigger] s[i]) == Some(y) {
                let i = choose|i: int| 0 <= i < s.len() && f(#[trigger] s[i]) == Some(y);
                if i < n {
                    assert(d[i] == s[i]);
                    assert(b.contains(y));
                    assert(o[b.index_of(y)] == y);
                } else {
                    assert(o[b.len() as int] == y);
                }
            }
        }
        assert forall|i: int, j: int|
            0 <= i < j < s.len() && f(#[trigger] s[i]) is Some && f(#[trigger] s[j]) is Some implies exists|k: int, l: int|
            0 <= k < l < o.len() && (#[trigger] o[k]) == f(s[i])->0 && (#[trigger] o[l]) == f(s[j])->0 by {
            assert(d[i] == s[i]);
            if j < n {
                assert(d[j] == s[j]);
                let (k, l) = choose|k: int, l: int|
                    0 <= k < l < b.len() && (#[trigger] b[k]) == f(d[i])->0 && (#[trigger] b[l]) == f(d[j])->0;
                assert(o[k] == b[k] && o[l] == b[l]);
            } else {
                let y = f(s[i])->0;
                assert(f(d[i]) == Some(y));
                assert(b.contains(y));
                let k = b.index_of(y);
                assert(o[k] == y && o[b.len() as int] == f(s[j])->0);
            }
        }
    }
}

/// What a filter keeps of a list.
pub proof fn lemma_filtered<A>(s: Seq<A>, f: spec_fn(A) -> bool)
    ensures
        forall|x: A| s.filter(f).contains(x) <==> s.contains(x) && f(x),
        forall|k: int| 0 <= k < s.filter(f).len() ==> s.contains(#[trigger] s.filter(f)[k]) && f(s.filter(f)[k]),
{
    broadcast use vstd::seq_lib::group_filter_ensures;

    let o = s.filter(f);
    assert forall|x: A| o.contains(x) implies s.contains(x) && f(x) by {
        s.lemma_filter_contains_rev(f, x);
        let k = o.index_of(x);
        assert(f(o[k]));
    }
    assert forall|x: A| s.contains(x) && f(x) implies o.contains(x) by {
        let i = s.index_of(x);
        s.lemma_filter_contains(f, i);
    }
    assert forall|k: int| 0 <= k < o.len() implies s.contains(#[trigger] o[k]) && f(o[k]) by {
        assert(o.contains(o[k]));
    }
}

proof fn lemma_latest_time(times: Seq<i64>)
    requires
        times.len() > 0,
    ensures
        forall|i: int| 0 <= i < times.len() ==> #[trigger] times[i] <= graph::latest_time(times),
        exists|i: int| 0 <= i < times.len() && #[trigger] times[i] == graph::latest_time(times),
    decreases times.len(),
{
    if times.len() > 1 {
        let t = times.drop_last();
        lemma_latest_time(t);
        let k = choose|i: int| 0 <= i < t.len() && #[trigger] t[i] == graph::latest_time(t);
        assert(times[k] == t[k]);
        assert(times[times.len() - 1] == times.last());
        assert forall|i: int| 0 <= i < times.len() implies #[trigger] times[i] <= graph::latest_time(times) by {
            if i < t.len() {
                assert(t[i] == times[i]);
            }
        }
    } else {
        assert(times[0] == graph::latest_time(times));
    }
}

/// Law: an index ends when the last of its commits was made: at the time of one
/// of them, and after none.
pub proof fn indexes_end_at_a_commit(commits: Seq<CommitRow>, i: int)
    requires
        0 <= i < commits.len(),
    ensures
        commits[i].author_time <= graph::latest_time(query::commit_times(commits)),
        exists|k: int|
            0 <= k < commits.len() && (#[trigger] commits[k]).author_time == graph::latest_time(
                query::commit_times(commits),
            ),
{
    let times = query::commit_times(commits);
    lemma_latest_time(times);
    assert(times[i] == commits[i].author_time);
    let k = choose|k: int| 0 <= k < times.len() && #[trigger] times[k] == graph::latest_time(times);
    assert(times[k] == commits[k].author_time);
}

/// Law: this much is read of a file, kept of a commit, followed of a graph and
/// shown of a result, and these are the marks of what is left out.
pub proof fn limits_are_fixed()
    ensures
        crate::extract::MAX_PARSE_BYTES == 1024 * 1024,
        crate::extract::MAX_ITEMS == 400,
        crate::extract::MIN_NAME_LEN == 3,
        crate::extract::MAX_IMPORTS == 200,
        crate::extract::MAX_DOC_ITEMS == 200,
        crate::rust_use::MAX_USE_PATHS == 100,
        crate::resolve::MAX_GO_FILES == 20,
        crate::vcs::CERTAIN == 100,
        crate::vcs::MAX_CHANGED_LINES_KEPT == 4_000,
        crate::stats::LOW_CONFIDENCE == 80,
        crate::walk::RESURRECT_WINDOW_DAYS == 90,
        crate::blast::LIVE_DEPTH == 3,
        crate::path_query::PATH_DEPTH == 6,
        crate::timeline::MAX_EVENTS == 200,
        crate::viz::MAX_GROUPS == 8,
        crate::viz::HIDDEN_MIN_N == 3,
        crate::viz::HIDDEN_LIMIT == 40,
        crate::excluded::TOO_LARGE == 1,
        crate::excluded::MECHANICAL == 2,
        crate::excluded::VENDORED == 4,
        crate::excluded::MERGE == 8,
{
}

} // verus!
