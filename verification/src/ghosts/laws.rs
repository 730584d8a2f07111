//! What a ghost candidate says, in terms of the rows of the index.

use crate::ghosts;
use crate::ghosts::CandidateView;
use crate::graph;
use crate::graph::EdgeInfoView;
use crate::model::CommitId;
use crate::plain;
use crate::query::{Ctx, Snapshot};
use crate::query;
use crate::rows::{CommitRow, EdgeRow, TouchRow};
use crate::time;
use vstd::prelude::*;

verus! {

/// The commits that have a weight, came after a severance, and touched both
/// ends.
pub open spec fn shared_since(commits: Seq<CommitRow>, touches: Seq<TouchRow>, row: EdgeRow, died: i64) -> Set<i64> {
    Set::new(
        |c: i64|
            plain::weighs(commits, c) && c > died && plain::touched(touches, c, row.src) && plain::touched(
                touches,
                c,
                row.dst,
            ),
    )
}

/// A commit is listed.
pub open spec fn lists_commit(since: Seq<(i64, bool)>, c: i64) -> bool {
    exists|i: int| 0 <= i < since.len() && (#[trigger] since[i]).0 == c
}

/// The rows of an index do not contradict each other.
pub open spec fn rows_once(snap: &Snapshot, ctx: &Ctx) -> bool {
    &&& plain::commits_once(ctx.commits@)
    &&& plain::files_once(snap.files.files())
    &&& plain::touches_once(snap.touches@)
}

proof fn lemma_counted(commits: Seq<CommitRow>, t: Seq<TouchRow>)
    requires
        plain::commits_once(commits),
    ensures
        forall|c: i64| #[trigger]
            ghosts::counted_touches(commits, t).contains(c) <==> plain::weighs(commits, c) && exists|i: int|
                0 <= i < t.len() && (#[trigger] t[i]).commit.0 == c,
        (forall|i: int, j: int| 0 <= i < j < t.len() ==> (#[trigger] t[i]).commit != (#[trigger] t[j]).commit)
            ==> ghosts::counted_touches(commits, t).no_duplicates(),
    decreases t.len(),
{
    if t.len() > 0 {
        let d = t.drop_last();
        let b = ghosts::counted_touches(commits, d);
        let r = ghosts::counted_touches(commits, t);
        let x = t.last().commit.0;
        lemma_counted(commits, d);
        plain::weight_counts(commits, x);
        assert forall|c: i64| #[trigger] r.contains(c) <==> plain::weighs(commits, c) && exists|i: int|
            0 <= i < t.len() && (#[trigger] t[i]).commit.0 == c by {
            assert(b.contains(c) <==> plain::weighs(commits, c) && exists|i: int|
                0 <= i < d.len() && (#[trigger] d[i]).commit.0 == c);
            if b.contains(c) {
                assert(r[b.index_of(c)] == c);
                let i = choose|i: int| 0 <= i < d.len() && (#[trigger] d[i]).commit.0 == c;
                assert(t[i].commit.0 == c);
            }
            if r.contains(c) {
                let k = r.index_of(c);
                if k < b.len() {
                    assert(b[k] == c);
                } else {
                    assert(t[t.len() - 1].commit.0 == c);
                }
            }
            if plain::weighs(commits, c) && exists|i: int| 0 <= i < t.len() && (#[trigger] t[i]).commit.0 == c {
                let i = choose|i: int| 0 <= i < t.len() && (#[trigger] t[i]).commit.0 == c;
                if i < d.len() {
                    assert(d[i].commit.0 == c);
                } else {
                    assert(r[r.len() - 1] == c);
                }
            }
        }
        if forall|i: int, j: int| 0 <= i < j < t.len() ==> (#[trigger] t[i]).commit != (#[trigger] t[j]).commit {
            assert forall|i: int, j: int| 0 <= i < j < d.len() implies (#[trigger] d[i]).commit != (
            #[trigger] d[j]).commit by {
                assert(t[i].commit != t[j].commit);
            }
            assert(!b.contains(x)) by {
                if b.contains(x) {
                    let i = choose|i: int| 0 <= i < d.len() && (#[trigger] d[i]).commit.0 == x;
                    assert(t[i].commit != t[t.len() - 1].commit);
                }
            }
        }
    }
}

proof fn lemma_since(src: Seq<i64>, dst: Seq<i64>, died: i64)
    ensures
        forall|i: int|
            0 <= i < ghosts::since_severance(src, dst, died).len() ==> (#[trigger] ghosts::since_severance(
                src,
                dst,
                died,
            )[i]).1 == dst.contains(ghosts::since_severance(src, dst, died)[i].0),
        forall|c: i64|
            src.contains(c) && c > died <==> exists|i: int|
                0 <= i < ghosts::since_severance(src, dst, died).len() && (#[trigger] ghosts::since_severance(
                    src,
                    dst,
                    died,
                )[i]).0 == c,
        src.no_duplicates() ==> forall|i: int, j: int|
            0 <= i < j < ghosts::since_severance(src, dst, died).len() ==> (#[trigger] ghosts::since_severance(
                src,
                dst,
                died,
            )[i]).0 != (#[trigger] ghosts::since_severance(src, dst, died)[j]).0,
    decreases src.len(),
{
    if src.len() > 0 {
        let d = src.drop_last();
        let b = ghosts::since_severance(d, dst, died);
        let r = ghosts::since_severance(src, dst, died);
        lemma_since(d, dst, died);
        assert forall|c: i64|
            src.contains(c) && c > died <==> exists|i: int| 0 <= i < r.len() && (#[trigger] r[i]).0 == c by {
            if src.contains(c) && c > died {
                let k = src.index_of(c);
                if k < d.len() {
                    assert(d[k] == c);
                    assert(d.contains(c));
                    let i = choose|i: int| 0 <= i < b.len() && (#[trigger] b[i]).0 == c;
                    assert(r[i].0 == c);
                } else {
                    assert(r[r.len() - 1].0 == c);
                }
            }
            if exists|i: int| 0 <= i < r.len() && (#[trigger] r[i]).0 == c {
                let i = choose|i: int| 0 <= i < r.len() && (#[trigger] r[i]).0 == c;
                if i < b.len() {
                    assert(b[i].0 == c);
                    assert(d.contains(c));
                    assert(src[d.index_of(c)] == c);
                } else {
                    assert(src[src.len() - 1] == c);
                }
            }
        }
        if src.no_duplicates() {
            assert(d.no_duplicates());
            assert forall|i: int, j: int| 0 <= i < j < r.len() implies (#[trigger] r[i]).0 != (#[trigger] r[j]).0 by {
                assert(r[i] == b[i]);
                if j < b.len() {
                    assert(r[j] == b[j]);
                } else {
                    let c = b[i].0;
                    assert(d.contains(c));
                    assert(src[d.index_of(c)] != src[src.len() - 1]);
                }
            }
        }
    }
}

/// The commits that are flagged.
spec fn flagged(s: Seq<(i64, bool)>) -> Seq<i64>
    decreases s.len(),
{
    if s.len() == 0 {
        Seq::empty()
    } else if s.last().1 {
        flagged(s.drop_last()).push(s.last().0)
    } else {
        flagged(s.drop_last())
    }
}

proof fn lemma_flagged(s: Seq<(i64, bool)>)
    ensures
        flagged(s).len() == ghosts::both_count(s),
        forall|c: i64| #[trigger]
            flagged(s).contains(c) <==> exists|i: int| 0 <= i < s.len() && (#[trigger] s[i]).0 == c && s[i].1,
        (forall|i: int, j: int| 0 <= i < j < s.len() ==> (#[trigger] s[i]).0 != (#[trigger] s[j]).0)
            ==> flagged(s).no_duplicates(),
    decreases s.len(),
{
    if s.len() > 0 {
        let d = s.drop_last();
        let b = flagged(d);
        let r = flagged(s);
        lemma_flagged(d);
        assert forall|c: i64| #[trigger]
            r.contains(c) <==> exists|i: int| 0 <= i < s.len() && (#[trigger] s[i]).0 == c && s[i].1 by {
            if r.contains(c) {
                let k = r.index_of(c);
                if k < b.len() {
                    assert(b[k] == c);
                    assert(b.contains(c));
                    let i = choose|i: int| 0 <= i < d.len() && (#[trigger] d[i]).0 == c && d[i].1;
                    assert(s[i].0 == c && s[i].1);
                } else {
                    assert(s[s.len() - 1].0 == c);
                }
            }
            if exists|i: int| 0 <= i < s.len() && (#[trigger] s[i]).0 == c && s[i].1 {
                let i = choose|i: int| 0 <= i < s.len() && (#[trigger] s[i]).0 == c && s[i].1;
                if i < d.len() {
                    assert(d[i].0 == c && d[i].1);
                    assert(b.contains(c));
                    assert(r[b.index_of(c)] == c);
                } else {
                    assert(r[r.len() - 1] == c);
                }
            }
        }
        if forall|i: int, j: int| 0 <= i < j < s.len() ==> (#[trigger] s[i]).0 != (#[trigger] s[j]).0 {
            assert forall|i: int, j: int| 0 <= i < j < d.len() implies (#[trigger] d[i]).0 != (#[trigger] d[j]).0 by {
                assert(s[i].0 != s[j].0);
            }
            if b.contains(s.last().0) {
                let i = choose|i: int| 0 <= i < d.len() && (#[trigger] d[i]).0 == s.last().0 && d[i].1;
                assert(s[i].0 != s[s.len() - 1].0);
            }
        }
    }
}

/// The commits behind a severance, as the rows have them.
proof fn lemma_weighed(snap: &Snapshot, ctx: &Ctx, row: EdgeRow, died: i64)
    requires
        rows_once(snap, ctx),
    ensures
        ({
            let commits = ctx.commits@;
            let touches = snap.touches@;
            let src = ghosts::counted_touches(commits, query::touches_of(touches, row.src));
            let dst = ghosts::counted_touches(commits, query::touches_of(touches, row.dst));
            let since = ghosts::since_severance(src, dst, died);
            let shared = shared_since(commits, touches, row, died);
            &&& shared.finite()
            &&& shared.len() == ghosts::both_count(since)
            &&& forall|i: int|
                0 <= i < since.len() ==> ((#[trigger] since[i]).1 <==> plain::touched(touches, since[i].0, row.dst))
            &&& forall|i: int, j: int| 0 <= i < j < since.len() ==> (#[trigger] since[i]).0 != (#[trigger] since[j]).0
            &&& forall|c: i64| #[trigger]
                lists_commit(since, c) <==> plain::weighs(commits, c) && c > died && plain::touched(touches, c, row.src)
            &&& shared.len() > 0 ==> src.len() > 0 && dst.len() > 0
        }),
{
    let commits = ctx.commits@;
    let touches = snap.touches@;
    let ts = query::touches_of(touches, row.src);
    let td = query::touches_of(touches, row.dst);
    let src = ghosts::counted_touches(commits, ts);
    let dst = ghosts::counted_touches(commits, td);
    let since = ghosts::since_severance(src, dst, died);
    let shared = shared_since(commits, touches, row, died);
    plain::touches_are_rows(touches, row.src);
    plain::touches_are_rows(touches, row.dst);
    lemma_counted(commits, ts);
    lemma_counted(commits, td);
    lemma_since(src, dst, died);
    lemma_flagged(since);
    assert forall|c: i64| #[trigger] src.contains(c) <==> plain::weighs(commits, c) && plain::touched(
        touches,
        c,
        row.src,
    ) by {}
    assert forall|c: i64| #[trigger] dst.contains(c) <==> plain::weighs(commits, c) && plain::touched(
        touches,
        c,
        row.dst,
    ) by {}
    assert forall|c: i64| #[trigger] lists_commit(since, c) <==> plain::weighs(commits, c) && c > died
        && plain::touched(touches, c, row.src) by {
        assert(src.contains(c) <==> plain::weighs(commits, c) && plain::touched(touches, c, row.src));
    }
    assert forall|i: int| 0 <= i < since.len() implies ((#[trigger] since[i]).1 <==> plain::touched(
        touches,
        since[i].0,
        row.dst,
    )) by {
        let c = since[i].0;
        assert(src.contains(c));
        assert(dst.contains(c) <==> plain::weighs(commits, c) && plain::touched(touches, c, row.dst));
    }
    let f = flagged(since);
    assert(f.to_set() =~= shared) by {
        assert forall|c: i64| f.to_set().contains(c) <==> shared.contains(c) by {
            assert(f.contains(c) <==> exists|i: int| 0 <= i < since.len() && (#[trigger] since[i]).0 == c && since[i].1);
            assert(src.contains(c) <==> plain::weighs(commits, c) && plain::touched(touches, c, row.src));
            assert(dst.contains(c) <==> plain::weighs(commits, c) && plain::touched(touches, c, row.dst));
            if shared.contains(c) {
                let i = choose|i: int| 0 <= i < since.len() && (#[trigger] since[i]).0 == c;
                assert(since[i].1);
            }
        }
    }
    f.unique_seq_to_set();
    if shared.len() > 0 {
        let c = shared.choose();
        assert(shared.contains(c));
        assert(src.contains(c) && dst.contains(c));
        assert(src[src.index_of(c)] == c && dst[dst.index_of(c)] == c);
    }
}

/// Law: a candidate is an edge that is not open, whose last interval was ended
/// by a commit that is not flagged as mechanical, whose ends both have a path
/// at HEAD, and whose ends were touched together often enough since. It counts
/// exactly the commits that touched both ends after the severance, and lists
/// exactly those that touched the source, each with whether it touched the
/// target.
pub proof fn candidates_kept_changing(snap: &Snapshot, ctx: &Ctx, i: int)
    requires
        rows_once(snap, ctx),
        0 <= i < snap.edges@.len(),
    ensures
        ghosts::candidate(snap, ctx, snap.graph(ctx)[i]) matches Some(c) ==> {
            let row = snap.edges@[i];
            let died = c.severed_commit.0;
            &&& c.edge_id == row.id
            &&& !plain::open_now(snap.intervals@, row.id)
            &&& exists|j: int|
                #![trigger snap.intervals@[j]]
                plain::last_interval(snap.intervals@, row.id, j) && snap.intervals@[j].died == Some(c.severed_commit)
            &&& !plain::flagged_mechanical(ctx.commits@, died)
            &&& plain::lives(snap.files.files(), row.src)
            &&& plain::lives(snap.files.files(), row.dst)
            &&& c.lifetime_days >= ctx.params.ghost_min_lifetime_days
            &&& c.cochanges_since == shared_since(ctx.commits@, snap.touches@, row, died).len()
            &&& c.cochanges_since >= ctx.params.ghost_min_cochanges_since
            &&& forall|j: int|
                0 <= j < c.since.len() ==> ((#[trigger] c.since[j]).1 <==> plain::touched(
                    snap.touches@,
                    c.since[j].0,
                    row.dst,
                ))
            &&& forall|j: int, k: int|
                0 <= j < k < c.since.len() ==> (#[trigger] c.since[j]).0 != (#[trigger] c.since[k]).0
            &&& forall|x: i64| #[trigger]
                lists_commit(c.since, x) <==> plain::weighs(ctx.commits@, x) && x > died && plain::touched(
                    snap.touches@,
                    x,
                    row.src,
                )
        },
{
    let row = snap.edges@[i];
    let e = snap.graph(ctx)[i];
    let ids = query::commit_ids(ctx.commits@);
    let times = query::commit_times(ctx.commits@);
    assert(e == graph::edge_info(row, snap.intervals@, ids, times));
    plain::intervals_keep_alive(row, snap.intervals@, ids, times);
    match ghosts::candidate(snap, ctx, e) {
        Some(c) => {
            let died = c.severed_commit.0;
            lemma_weighed(snap, ctx, row, died);
            lemma_mechanical(ctx.commits@, died);
            plain::paths_keep_alive(snap.files.files(), row.src);
            plain::paths_keep_alive(snap.files.files(), row.dst);
            let j = choose|j: int|
                #![trigger snap.intervals@[j]]
                plain::last_interval(snap.intervals@, row.id, j) && snap.intervals@[j].died == Some(CommitId(died));
            assert(c.severed_commit == CommitId(died));
            assert(plain::last_interval(snap.intervals@, row.id, j) && snap.intervals@[j].died == Some(
                c.severed_commit,
            ));
            let src = ghosts::counted_touches(ctx.commits@, query::touches_of(snap.touches@, row.src));
            let dst = ghosts::counted_touches(ctx.commits@, query::touches_of(snap.touches@, row.dst));
            assert(c.since == ghosts::since_severance(src, dst, died));
        },
        None => {},
    }
}

proof fn lemma_mechanical(commits: Seq<CommitRow>, c: i64)
    requires
        plain::commits_once(commits),
    ensures
        ghosts::is_mechanical(commits, c) <==> plain::flagged_mechanical(commits, c),
{
    plain::lemma_commit_at(commits, c);
}

/// Law: an edge that meets the conditions is a candidate: it is not open, the
/// commit that ended its last interval is not flagged as mechanical, both ends
/// have a path at HEAD, it lived from its birth to its death as many days as
/// are asked for, and enough commits touched both ends since.
pub proof fn ghosts_are_not_missed(snap: &Snapshot, ctx: &Ctx, i: int, j: int, born: int, died: int)
    requires
        rows_once(snap, ctx),
        0 <= i < snap.edges@.len(),
        ({
            let row = snap.edges@[i];
            let iv = snap.intervals@[j];
            &&& !plain::open_now(snap.intervals@, row.id)
            &&& plain::last_interval(snap.intervals@, row.id, j)
            &&& iv.died is Some
            &&& iv.born.0 != 0
            &&& plain::made_at(ctx.commits@, iv.born.0, born)
            &&& plain::made_at(ctx.commits@, iv.died.unwrap().0, died)
            &&& !plain::flagged_mechanical(ctx.commits@, iv.died.unwrap().0)
            &&& plain::lives(snap.files.files(), row.src)
            &&& plain::lives(snap.files.files(), row.dst)
            &&& died - born >= 86_400 * ctx.params.ghost_min_lifetime_days
            &&& died >= born
            &&& shared_since(ctx.commits@, snap.touches@, row, iv.died.unwrap().0).len()
                >= ctx.params.ghost_min_cochanges_since
            &&& shared_since(ctx.commits@, snap.touches@, row, iv.died.unwrap().0).len() >= 1
        }),
    ensures
        ghosts::candidate(snap, ctx, snap.graph(ctx)[i]) matches Some(c) && c.severed_commit
            == snap.intervals@[j].died->0 && c.severed_time == died && 86_400 * c.lifetime_days <= died - born < 86_400
            * (c.lifetime_days + 1),
{
    let row = snap.edges@[i];
    let iv = snap.intervals@[j];
    let e = snap.graph(ctx)[i];
    let ids = query::commit_ids(ctx.commits@);
    let times = query::commit_times(ctx.commits@);
    let d = iv.died.unwrap().0;
    assert(e == graph::edge_info(row, snap.intervals@, ids, times));
    plain::intervals_keep_alive(row, snap.intervals@, ids, times);
    assert(plain::last_interval(snap.intervals@, row.id, j));
    lemma_weighed(snap, ctx, row, d);
    lemma_mechanical(ctx.commits@, d);
    plain::paths_keep_alive(snap.files.files(), row.src);
    plain::paths_keep_alive(snap.files.files(), row.dst);
    plain::lemma_commit_at(ctx.commits@, d);
    plain::lemma_commit_at(ctx.commits@, iv.born.0);
    plain::days_are_whole(died - born);
}

/// Law: an edge whose ends no commit touched together since it was severed is
/// no candidate, nor is one whose ends were touched together too seldom.
pub proof fn decoupled_is_no_ghost(snap: &Snapshot, ctx: &Ctx, i: int, j: int)
    requires
        rows_once(snap, ctx),
        0 <= i < snap.edges@.len(),
        plain::last_interval(snap.intervals@, snap.edges@[i].id, j),
        snap.intervals@[j].died matches Some(d) && shared_since(
            ctx.commits@,
            snap.touches@,
            snap.edges@[i],
            d.0,
        ).len() < ctx.params.ghost_min_cochanges_since,
    ensures
        ghosts::candidate(snap, ctx, snap.graph(ctx)[i]) is None,
{
    let row = snap.edges@[i];
    let ids = query::commit_ids(ctx.commits@);
    let times = query::commit_times(ctx.commits@);
    assert(snap.graph(ctx)[i] == graph::edge_info(row, snap.intervals@, ids, times));
    plain::intervals_keep_alive(row, snap.intervals@, ids, times);
    lemma_weighed(snap, ctx, row, snap.intervals@[j].died.unwrap().0);
}

/// Law: the candidates of an index are those of its edges, each of which has
/// at most one, in their order.
pub proof fn candidates_are_of_edges(snap: &Snapshot, ctx: &Ctx, edges: Seq<EdgeInfoView>)
    ensures
        forall|c: CandidateView|
            ghosts::candidates(snap, ctx, edges).contains(c) <==> exists|i: int|
                0 <= i < edges.len() && ghosts::candidate(snap, ctx, #[trigger] edges[i]) == Some(c),
        ghosts::candidates(snap, ctx, edges).len() <= ghosts::severed_count(edges) <= edges.len(),
        ghosts::severed_count(edges) == edges.filter(|e: EdgeInfoView| !e.alive && e.last_died is Some).len(),
    decreases edges.len(),
{
    reveal(Seq::filter);
    if edges.len() > 0 {
        let d = edges.drop_last();
        candidates_are_of_edges(snap, ctx, d);
        let b = ghosts::candidates(snap, ctx, d);
        let r = ghosts::candidates(snap, ctx, edges);
        assert forall|c: CandidateView|
            r.contains(c) <==> exists|i: int|
                0 <= i < edges.len() && ghosts::candidate(snap, ctx, #[trigger] edges[i]) == Some(c) by {
            if r.contains(c) {
                let k = r.index_of(c);
                if k < b.len() {
                    assert(b[k] == c);
                    assert(b.contains(c));
                    let i = choose|i: int| 0 <= i < d.len() && ghosts::candidate(snap, ctx, #[trigger] d[i]) == Some(c);
                    assert(edges[i] == d[i]);
                } else {
                    assert(ghosts::candidate(snap, ctx, edges[edges.len() - 1]) == Some(c));
                }
            }
            if exists|i: int| 0 <= i < edges.len() && ghosts::candidate(snap, ctx, #[trigger] edges[i]) == Some(c) {
                let i = choose|i: int|
                    0 <= i < edges.len() && ghosts::candidate(snap, ctx, #[trigger] edges[i]) == Some(c);
                if i < d.len() {
                    assert(ghosts::candidate(snap, ctx, d[i]) == Some(c));
                    assert(b.contains(c));
                    assert(r[b.index_of(c)] == c);
                } else {
                    assert(r[r.len() - 1] == c);
                }
            }
        }
    }
}

proof fn lemma_earliest(times: Seq<i64>)
    requires
        times.len() > 0,
    ensures
        forall|i: int| 0 <= i < times.len() ==> graph::earliest_time(times) <= #[trigger] times[i],
        exists|i: int| 0 <= i < times.len() && graph::earliest_time(times) == #[trigger] times[i],
    decreases times.len(),
{
    if times.len() > 1 {
        let t = times.drop_last();
        lemma_earliest(t);
        let k = choose|i: int| 0 <= i < t.len() && graph::earliest_time(t) == #[trigger] t[i];
        assert(times[k] == t[k]);
        assert(times[times.len() - 1] == times.last());
        assert forall|i: int| 0 <= i < times.len() implies graph::earliest_time(times) <= #[trigger] times[i] by {
            if i < t.len() {
                assert(t[i] == times[i]);
            }
        }
    } else {
        assert(times[0] == graph::earliest_time(times));
    }
}

/// Law: an edge that stood before the first commit of the index counts as born
/// when the oldest of its commits was made; one that a commit of the index
/// made, when that commit was made.
pub proof fn births_have_times(commits: Seq<CommitRow>, id: i64, i: int)
    requires
        plain::commits_once(commits),
        0 <= i < commits.len(),
    ensures
        ghosts::birth_time(commits, 0) <= commits[i].author_time,
        exists|k: int|
            0 <= k < commits.len() && ghosts::birth_time(commits, 0) == (#[trigger] commits[k]).author_time,
        (forall|k: int| 0 <= k < commits.len() ==> (#[trigger] commits[k]).id.0 != id) ==> ghosts::birth_time(
            commits,
            id,
        ) == ghosts::birth_time(commits, 0),
        commits[i].id.0 != 0 ==> ghosts::birth_time(commits, commits[i].id.0) == commits[i].author_time,
{
    let times = query::commit_times(commits);
    lemma_earliest(times);
    assert(times[i] == commits[i].author_time);
    let k = choose|k: int| 0 <= k < times.len() && graph::earliest_time(times) == #[trigger] times[k];
    assert(times[k] == commits[k].author_time);
    plain::lemma_commit_at(commits, 0);
    plain::lemma_commit_at(commits, id);
    plain::lemma_commit_at(commits, commits[i].id.0);
}

/// Law: what was there before the index is dated by the oldest of its commits.
pub proof fn the_start_is_dated(commits: Seq<CommitRow>, i: int)
    requires
        0 <= i < commits.len(),
        forall|k: int| 0 <= k < commits.len() ==> commits[i].author_time <= (#[trigger] commits[k]).author_time,
    ensures
        query::ref_to(commits, 0).date == time::date_of(commits[i].author_time as int),
{
    let times = query::commit_times(commits);
    lemma_earliest(times);
    assert(times[i] == commits[i].author_time);
    let k = choose|k: int| 0 <= k < times.len() && graph::earliest_time(times) == #[trigger] times[k];
    assert(times[k] == commits[k].author_time);
}

} // verus!
