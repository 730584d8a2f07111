//! What a point in history is and which ways are found, over all indexes.

use crate::bfs;
use crate::blast;
use crate::graph;
use crate::model::FileId;
use crate::path_query;
use crate::path_query::HopView;
use crate::plain;
use crate::postings;
use crate::query;
use crate::query::{CommitRefView, Ctx, Snapshot};
use crate::rows;
use crate::rows::CommitRow;
use crate::text;
use crate::time;
use vstd::prelude::*;

verus! {

/// A commit was made on a day or before it.
pub open spec fn made_by(c: CommitRow, day: Seq<char>) -> bool {
    text::text_le(time::date_of(c.author_time as int), day)
}

proof fn lemma_newest(commits: Seq<CommitRow>, day: Seq<char>)
    ensures
        match path_query::newest_by(commits, day) {
            Some(id) => (exists|i: int| 0 <= i < commits.len() && made_by(#[trigger] commits[i], day) && commits[i].id.0 == id)
                && forall|i: int| 0 <= i < commits.len() && made_by(#[trigger] commits[i], day) ==> commits[i].id.0 <= id,
            None => forall|i: int| 0 <= i < commits.len() ==> !made_by(#[trigger] commits[i], day),
        },
    decreases commits.len(),
{
    if commits.len() > 0 {
        let d = commits.drop_last();
        let n = commits.len() - 1;
        lemma_newest(d, day);
        assert(commits[n] == commits.last());
        match path_query::newest_by(commits, day) {
            Some(id) => {
                if path_query::newest_by(d, day) == Some(id) {
                    let i = choose|i: int| 0 <= i < d.len() && made_by(#[trigger] d[i], day) && d[i].id.0 == id;
                    assert(commits[i] == d[i]);
                    assert(made_by(commits[i], day));
                } else {
                    assert(made_by(commits[n], day));
                }
                assert forall|i: int| 0 <= i < commits.len() && made_by(#[trigger] commits[i], day) implies commits[i].id.0
                    <= id by {
                    if i < n {
                        assert(d[i] == commits[i]);
                        assert(made_by(d[i], day));
                    }
                }
            },
            None => {
                assert forall|i: int| 0 <= i < commits.len() implies !made_by(#[trigger] commits[i], day) by {
                    if i < n {
                        assert(d[i] == commits[i]);
                    }
                }
            },
        }
    }
}

/// Law: a day names the newest commit that was made on it or before it, and
/// where there is none, that is said.
pub proof fn days_name_commits(commits: Seq<CommitRow>, day: Seq<char>)
    requires
        path_query::day_shaped(day),
    ensures
        match path_query::point_in_history(commits, day) {
            Ok(id) => (exists|i: int| 0 <= i < commits.len() && made_by(#[trigger] commits[i], day) && commits[i].id.0 == id)
                && forall|i: int| 0 <= i < commits.len() && made_by(#[trigger] commits[i], day) ==> commits[i].id.0 <= id,
            Err(m) => m == "no commits at or before "@ + day && forall|i: int|
                0 <= i < commits.len() ==> !made_by(#[trigger] commits[i], day),
        },
{
    lemma_newest(commits, day);
}

/// The object id of a commit starts with a text.
pub open spec fn id_starts(c: CommitRow, prefix: Seq<char>) -> bool {
    text::has_prefix(rows::hex(c.oid@), prefix)
}

/// A commit with that id has an object id that starts with a text.
pub open spec fn named_by(commits: Seq<CommitRow>, prefix: Seq<char>, id: i64) -> bool {
    exists|i: int| 0 <= i < commits.len() && id_starts(#[trigger] commits[i], prefix) && commits[i].id.0 == id
}

proof fn lemma_prefix(commits: Seq<CommitRow>, prefix: Seq<char>)
    ensures
        path_query::with_prefix(commits, prefix).len() == commits.filter(|c: CommitRow| id_starts(c, prefix)).len(),
        forall|i: int|
            0 <= i < commits.len() && id_starts(#[trigger] commits[i], prefix) ==> path_query::with_prefix(
                commits,
                prefix,
            ).contains(commits[i].id.0),
        forall|k: int|
            0 <= k < path_query::with_prefix(commits, prefix).len() ==> named_by(
                commits,
                prefix,
                #[trigger] path_query::with_prefix(commits, prefix)[k],
            ),
    decreases commits.len(),
{
    let f = |c: CommitRow| id_starts(c, prefix);
    if commits.len() == 0 {
        commits.lemma_filter_len(f);
    } else {
        let d = commits.drop_last();
        let n = commits.len() - 1;
        lemma_prefix(d, prefix);
        d.lemma_filter_push(commits.last(), f);
        assert(d.push(commits.last()) =~= commits);
        let b = path_query::with_prefix(d, prefix);
        let s = path_query::with_prefix(commits, prefix);
        assert forall|i: int| 0 <= i < commits.len() && id_starts(#[trigger] commits[i], prefix) implies s.contains(
            commits[i].id.0,
        ) by {
            if i < n {
                assert(d[i] == commits[i]);
                assert(b.contains(d[i].id.0));
                assert(s[b.index_of(d[i].id.0)] == d[i].id.0);
            } else {
                assert(s[b.len() as int] == commits[i].id.0);
            }
        }
        assert forall|k: int| 0 <= k < s.len() implies named_by(commits, prefix, #[trigger] s[k]) by {
            if k < b.len() {
                assert(b[k] == s[k]);
                assert(named_by(d, prefix, b[k]));
                let i = choose|i: int| 0 <= i < d.len() && id_starts(#[trigger] d[i], prefix) && d[i].id.0 == b[k];
                assert(commits[i] == d[i]);
                assert(id_starts(commits[i], prefix));
            } else {
                assert(id_starts(commits[n], prefix));
            }
        }
    }
}

/// Law: the start of an object id, in either case of letters, names the commit
/// that alone has it. Where none has it or several do, that is said.
pub proof fn starts_name_commits(commits: Seq<CommitRow>, rev: Seq<char>)
    requires
        !path_query::day_shaped(rev),
    ensures
        ({
            let n = commits.filter(|c: CommitRow| id_starts(c, text::lower(rev))).len();
            match path_query::point_in_history(commits, rev) {
                Ok(id) => n == 1 && named_by(commits, text::lower(rev), id),
                Err(m) => n != 1 && m == (if n == 0 {
                    "rev "@ + rev + " not found in indexed history"@
                } else {
                    "rev "@ + rev + " is ambiguous"@
                }),
            }
        }),
{
    lemma_prefix(commits, text::lower(rev));
    let s = path_query::with_prefix(commits, text::lower(rev));
    if s.len() == 1 {
        assert(named_by(commits, text::lower(rev), s[0]));
    }
}

/// Law: at a commit the edges are followed that had begun by it and had not
/// ended; without one, those that are open.
pub proof fn edges_are_followed_as_of(snap: &Snapshot, ctx: &Ctx, i: int, c: i64)
    requires
        0 <= i < snap.edges@.len(),
    ensures
        path_query::keep_at(snap.graph(ctx), Some(c))[i] <==> exists|j: int|
            #![trigger snap.intervals@[j]]
            0 <= j < snap.intervals@.len() && snap.intervals@[j].edge_id == snap.edges@[i].id
                && snap.intervals@[j].born.0 <= c && (snap.intervals@[j].died matches Some(d) ==> d.0 > c),
        path_query::keep_at(snap.graph(ctx), None)[i] <==> crate::plain::open_now(snap.intervals@, snap.edges@[i].id),
{
    let row = snap.edges@[i];
    let e = snap.graph(ctx)[i];
    crate::plain::intervals_keep_alive(
        row,
        snap.intervals@,
        query::commit_ids(ctx.commits@),
        query::commit_times(ctx.commits@),
    );
    let keys = graph::interval_edges(snap.intervals@);
    postings::positions_are_indices(keys, row.id);
    let p = postings::positions(keys, row.id);
    assert(e.intervals == graph::spans_of(snap.intervals@, row.id));
    if path_query::alive_at(e, Some(c)) {
        let k = choose|k: int| 0 <= k < e.intervals.len() && path_query::covers(#[trigger] e.intervals[k], c);
        assert(e.intervals[k] == graph::span(snap.intervals@[p[k]]));
        assert(keys[p[k]] == row.id);
        assert(snap.intervals@[p[k]].edge_id == row.id);
    }
    if exists|j: int|
        #![trigger snap.intervals@[j]]
        0 <= j < snap.intervals@.len() && snap.intervals@[j].edge_id == row.id && snap.intervals@[j].born.0 <= c && (
        snap.intervals@[j].died matches Some(d) ==> d.0 > c) {
        let j = choose|j: int|
            #![trigger snap.intervals@[j]]
            0 <= j < snap.intervals@.len() && snap.intervals@[j].edge_id == row.id && snap.intervals@[j].born.0 <= c && (
            snap.intervals@[j].died matches Some(d) ==> d.0 > c);
        assert(keys[j] == row.id);
        assert(p.contains(j));
        let k = p.index_of(j);
        assert(e.intervals[k] == graph::span(snap.intervals@[j]));
        assert(path_query::covers(e.intervals[k], c));
    }
}

/// Law: a way over the edges alive at the cutoff is found where one of at most
/// six steps leads there; a way over the edges that lasted is looked for where
/// there is none, as far.
pub proof fn ways_are_found(
    snap: &Snapshot,
    ctx: &Ctx,
    a: FileId,
    b: FileId,
    cutoff: Option<i64>,
    live: bfs::Found,
    union: bfs::Found,
)
    requires
        bfs::searched(snap.graph(ctx), path_query::keep_at(snap.graph(ctx), cutoff), a, 6, live),
        bfs::searched(
            snap.graph(ctx),
            blast::union_keep(snap.graph(ctx), ctx.params.ghost_min_lifetime_days),
            a,
            6,
            union,
        ),
    ensures
        ({
            let edges = snap.graph(ctx);
            let found = path_query::path_found(snap, ctx, a, b, cutoff);
            let near = bfs::reach(edges, path_query::keep_at(edges, cutoff), a, 6, b);
            let once = bfs::reach(edges, blast::union_keep(edges, ctx.params.ghost_min_lifetime_days), a, 6, b);
            &&& found.0 is Some <==> near
            &&& found.1 is Some <==> !near && once
            &&& found.1 is None ==> found.2 is None
        }),
{
    let edges = snap.graph(ctx);
    let k = path_query::keep_at(edges, cutoff);
    let u = blast::union_keep(edges, ctx.params.ghost_min_lifetime_days);
    bfs::search_is_determined(edges, k, a, 6, live, bfs::search(edges, k, a, 6));
    bfs::search_is_determined(edges, u, a, 6, union, bfs::search(edges, u, a, 6));
    lemma_found(edges, k, a, live, b);
    lemma_found(edges, u, a, union, b);
}

proof fn lemma_found(edges: Seq<graph::EdgeInfoView>, keep: Seq<bool>, a: FileId, r: bfs::Found, b: FileId)
    requires
        bfs::searched(edges, keep, a, 6, r),
    ensures
        r.nodes.contains(b) <==> bfs::reach(edges, keep, a, 6, b),
{
    if r.nodes.contains(b) {
        let j = r.nodes.index_of(b);
        assert(r.nodes[j] == b);
        if j > 0 {
            assert(r.parent[j] < j);
        }
        assert(bfs::found_within(r, b, 6));
    }
    if bfs::reach(edges, keep, a, 6, b) {
        assert(bfs::found_within(r, b, 6));
        let j = choose|j: int| 0 <= j < r.nodes.len() && #[trigger] r.nodes[j] == b && r.dist[j] <= 6;
        assert(r.nodes.contains(b));
    }
}

/// A hop broke on a day: it is not alive, and this is when it died.
pub open spec fn broke(h: HopView, c: CommitRefView) -> bool {
    !h.alive && h.died == Some(c)
}

/// Law: a way broke when the last of its dead hops died: at one of them, and at
/// none earlier than another.
pub proof fn ways_break_at_last_death(hops: Seq<HopView>)
    ensures
        match path_query::break_of(hops) {
            Some(c) => (exists|k: int| 0 <= k < hops.len() && broke(#[trigger] hops[k], c)) && forall|k: int|
                0 <= k < hops.len() && !(#[trigger] hops[k]).alive && hops[k].died is Some ==> text::text_le(
                    hops[k].died->0.date,
                    c.date,
                ),
            None => forall|k: int| 0 <= k < hops.len() ==> (#[trigger] hops[k]).alive || hops[k].died is None,
        },
    decreases hops.len(),
{
    if hops.len() > 0 {
        let d = hops.drop_last();
        let n = hops.len() - 1;
        ways_break_at_last_death(d);
        assert(hops[n] == hops.last());
        let b = path_query::break_of(d);
        match path_query::break_of(hops) {
            Some(c) => {
                if !hops[n].alive && hops[n].died == Some(c) {
                    assert(broke(hops[n], c));
                } else {
                    let k = choose|k: int| 0 <= k < d.len() && broke(#[trigger] d[k], c);
                    assert(hops[k] == d[k]);
                    assert(broke(hops[k], c));
                }
                assert forall|k: int|
                    0 <= k < hops.len() && !(#[trigger] hops[k]).alive && hops[k].died is Some implies text::text_le(
                    hops[k].died->0.date,
                    c.date,
                ) by {
                    if k < n {
                        assert(d[k] == hops[k]);
                        let x = b->0;
                        assert(text::text_le(d[k].died->0.date, x.date));
                        if x != c {
                            text::lemma_text_le_trans(d[k].died->0.date, x.date, c.date);
                        }
                    } else {
                        let y = hops[n].died->0;
                        text::lemma_text_le_refl(y.date);
                        if y != c {
                            text::lemma_text_le_total(c.date, y.date);
                        }
                    }
                }
            },
            None => {
                assert forall|k: int| 0 <= k < hops.len() implies (#[trigger] hops[k]).alive || hops[k].died is None by {
                    if k < n {
                        assert(d[k] == hops[k]);
                    }
                }
            },
        }
    }
}

/// An edge is one of the kept ones and joins two files.
pub open spec fn carries(
    edges: Seq<graph::EdgeInfoView>,
    keep: Seq<bool>,
    x: graph::EdgeInfoView,
    a: FileId,
    b: FileId,
) -> bool {
    &&& exists|i: int| 0 <= i < edges.len() && keep[i] && #[trigger] edges[i] == x
    &&& (x.row.src == a && x.row.dst == b) || (x.row.src == b && x.row.dst == a)
}

/// A way of edges leads through some files, from the first to the last.
pub open spec fn leads_through(
    edges: Seq<graph::EdgeInfoView>,
    keep: Seq<bool>,
    way: Seq<graph::EdgeInfoView>,
    stops: Seq<FileId>,
) -> bool {
    &&& stops.len() == way.len() + 1
    &&& forall|k: int| 0 <= k < way.len() ==> carries(edges, keep, #[trigger] way[k], stops[k], stops[k + 1])
}

/// Law: the edges of a way follow one another from the start to the file that
/// was looked for, all of them kept.
pub proof fn hops_follow_one_another(
    edges: Seq<graph::EdgeInfoView>,
    keep: Seq<bool>,
    start: FileId,
    max: u8,
    r: bfs::Found,
    i: int,
) -> (stops: Seq<FileId>)
    requires
        bfs::search_shape(edges, keep, start, max, r),
        0 <= i < r.nodes.len(),
    ensures
        leads_through(edges, keep, path_query::way_to(edges, r, i), stops),
        stops.first() == start,
        stops.last() == r.nodes[i],
        stops.len() == r.dist[i] + 1,
    decreases i,
{
    if i == 0 {
        seq![start]
    } else {
        let p = r.parent[i] as int;
        let t = hops_follow_one_another(edges, keep, start, max, r, p);
        let before = path_query::way_to(edges, r, p);
        let way = path_query::way_to(edges, r, i);
        let at = graph::edges_at(edges, r.nodes[p]);
        let s = r.step[i] as int;
        assert(bfs::leads(edges, keep, r.nodes[p], s, r.nodes[i]));
        plain::edges_meet_files(edges, r.nodes[p]);
        assert(0 <= at[s] < edges.len());
        assert(at.contains(at[s]));
        let x = edges[at[s]];
        assert(carries(edges, keep, x, r.nodes[p], r.nodes[i]));
        assert(way == before.push(x));
        let stops = t.push(r.nodes[i]);
        assert forall|k: int| 0 <= k < way.len() implies carries(edges, keep, #[trigger] way[k], stops[k], stops[k + 1]) by {
            if k < before.len() {
                assert(way[k] == before[k]);
                assert(stops[k] == t[k] && stops[k + 1] == t[k + 1]);
            } else {
                assert(stops[k] == t.last());
            }
        }
        stops
    }
}

/// Law: what is shown of a way are its edges, each from its source to its
/// target.
pub proof fn hops_show_their_edges(
    snap: &Snapshot,
    ctx: &Ctx,
    edges: Seq<graph::EdgeInfoView>,
    r: bfs::Found,
    i: int,
    k: int,
)
    requires
        0 <= i < r.nodes.len(),
        forall|a: int, b: int| 0 <= a < b < r.nodes.len() ==> #[trigger] r.nodes[a] != #[trigger] r.nodes[b],
        0 <= k < path_query::way_to(edges, r, i).len(),
    ensures
        ({
            let way = path_query::way_to(edges, r, i);
            let hops = path_query::hops_to(snap, ctx, edges, r, r.nodes[i]);
            &&& hops is Some
            &&& hops->0.len() == way.len()
            &&& hops->0[k].from == snap.shown(way[k].row.src)
            &&& hops->0[k].to == snap.shown(way[k].row.dst)
            &&& hops->0[k].kind == way[k].row.kind.name()
            &&& hops->0[k].alive == way[k].alive
            &&& hops->0[k].died is Some <==> way[k].last_died is Some
        }),
{
    assert(r.nodes.contains(r.nodes[i]));
    let j = r.nodes.index_of(r.nodes[i]);
    assert(r.nodes[j] == r.nodes[i]);
    assert(j == i);
}

} // verus!
