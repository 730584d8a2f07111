//! What is known between two files, over all indexes.

use crate::bfs;
use crate::graph;
use crate::listing::laws::{as_listed, edge_between};
use crate::model::FileId;
use crate::plain;
use crate::query;
use crate::query::{Ctx, Snapshot};
use crate::rows::{CochangeRow, GhostRow, IntervalRow};
use crate::why;
use crate::why::WhyEdgeView;
use vstd::prelude::*;

verus! {

/// The edge leads from one of the files to the other.
pub open spec fn leads_between(snap: &Snapshot, i: int, a: FileId, b: FileId) -> bool {
    &&& 0 <= i < snap.edges@.len()
    &&& (snap.edges@[i].src == a && snap.edges@[i].dst == b) || (snap.edges@[i].src == b && snap.edges@[i].dst == a)
}

/// An edge is among those shown.
pub open spec fn is_shown(snap: &Snapshot, s: Seq<WhyEdgeView>, i: int) -> bool {
    exists|k: int| 0 <= k < s.len() && #[trigger] shows(snap, s[k], i)
}

/// What is shown is an edge between the files.
pub open spec fn is_between(snap: &Snapshot, x: WhyEdgeView, a: FileId, b: FileId) -> bool {
    exists|i: int| #[trigger] leads_between(snap, i, a, b) && shows(snap, x, i)
}

/// Law: the edges shown between two files are exactly those of the index that
/// lead from one to the other, either way. Each is shown with its ends, its
/// kind, how it was resolved, and whether it is open.
pub proof fn edges_between_are_shown(snap: &Snapshot, ctx: &Ctx, a: FileId, b: FileId)
    ensures
        forall|i: int|
            #[trigger] leads_between(snap, i, a, b) ==> is_shown(snap, why::edges_between(snap, ctx, a, b), i),
        forall|k: int|
            0 <= k < why::edges_between(snap, ctx, a, b).len() ==> is_between(
                snap,
                #[trigger] why::edges_between(snap, ctx, a, b)[k],
                a,
                b,
            ),
{
    let g = snap.graph(ctx);
    let f = |e: graph::EdgeInfoView| bfs::joins(e.row, a, b);
    let s = g.filter(f);
    let w = why::edges_between(snap, ctx, a, b);
    plain::lemma_filtered(g, f);
    assert forall|i: int| #[trigger] leads_between(snap, i, a, b) implies is_shown(snap, w, i) by {
        assert(g[i].row == snap.edges@[i]);
        assert(f(g[i]));
        assert(g.contains(g[i]));
        assert(s.contains(g[i]));
        let k = s.index_of(g[i]);
        lemma_shows(snap, ctx, i);
        assert(w[k] == why::edge_view(snap, ctx, g[i]));
        assert(shows(snap, w[k], i));
    }
    assert forall|k: int| 0 <= k < w.len() implies is_between(snap, #[trigger] w[k], a, b) by {
        assert(g.contains(s[k]) && f(s[k]));
        let i = g.index_of(s[k]);
        assert(g[i].row == snap.edges@[i]);
        lemma_shows(snap, ctx, i);
        assert(w[k] == why::edge_view(snap, ctx, g[i]));
        assert(leads_between(snap, i, a, b));
    }
}

/// What is shown of an edge is what its row says.
pub open spec fn shows(snap: &Snapshot, x: WhyEdgeView, i: int) -> bool {
    &&& x.from == snap.shown(snap.edges@[i].src)
    &&& x.to == snap.shown(snap.edges@[i].dst)
    &&& x.kind == snap.edges@[i].kind.name()
    &&& x.resolution == snap.edges@[i].resolution.name()
    &&& x.alive <==> plain::open_now(snap.intervals@, snap.edges@[i].id)
    &&& x.severed is Some <==> exists|j: int|
        0 <= j < snap.ghosts@.len() && (#[trigger] snap.ghosts@[j]).edge_id == snap.edges@[i].id
}

proof fn lemma_shows(snap: &Snapshot, ctx: &Ctx, i: int)
    requires
        0 <= i < snap.edges@.len(),
    ensures
        shows(snap, why::edge_view(snap, ctx, snap.graph(ctx)[i]), i),
{
    let row = snap.edges@[i];
    plain::intervals_keep_alive(
        row,
        snap.intervals@,
        query::commit_ids(ctx.commits@),
        query::commit_times(ctx.commits@),
    );
    assert(snap.graph(ctx)[i].row == row);
    let keys = crate::blast::ghost_edges(snap.ghosts@);
    crate::postings::positions_are_indices(keys, row.id);
    let p = crate::postings::positions(keys, row.id);
    if p.len() > 0 {
        let j = p[p.len() - 1];
        assert(keys[j] == snap.ghosts@[j].edge_id);
        assert(snap.ghosts@[j].edge_id == row.id);
    }
    if exists|j: int| 0 <= j < snap.ghosts@.len() && (#[trigger] snap.ghosts@[j]).edge_id == row.id {
        let j = choose|j: int| 0 <= j < snap.ghosts@.len() && (#[trigger] snap.ghosts@[j]).edge_id == row.id;
        assert(keys[j] == row.id);
        assert(p.contains(j));
    }
}

proof fn lemma_pair_of(rows: Seq<CochangeRow>, a: FileId, b: FileId)
    requires
        forall|i: int, j: int|
            0 <= i < j < rows.len() ==> (#[trigger] rows[i]).a != (#[trigger] rows[j]).a || rows[i].b != rows[j].b,
        forall|i: int| 0 <= i < rows.len() ==> (#[trigger] rows[i]).a.0 < rows[i].b.0,
    ensures
        forall|i: int|
            0 <= i < rows.len() && (((#[trigger] rows[i]).a == a && rows[i].b == b) || (rows[i].a == b && rows[i].b == a))
                ==> why::pair_of(rows, a, b) == Some(rows[i]),
        (forall|i: int|
            0 <= i < rows.len() ==> !(((#[trigger] rows[i]).a == a && rows[i].b == b) || (rows[i].a == b && rows[i].b == a)))
            ==> why::pair_of(rows, a, b) is None,
    decreases rows.len(),
{
    if rows.len() > 0 {
        let d = rows.drop_last();
        let n = rows.len() - 1;
        assert forall|i: int, j: int| 0 <= i < j < d.len() implies (#[trigger] d[i]).a != (#[trigger] d[j]).a || d[i].b
            != d[j].b by {
            assert(rows[i] == d[i] && rows[j] == d[j]);
        }
        assert forall|i: int| 0 <= i < d.len() implies (#[trigger] d[i]).a.0 < d[i].b.0 by {
            assert(rows[i] == d[i]);
        }
        lemma_pair_of(d, a, b);
        assert(rows[n].a.0 < rows[n].b.0);
        assert forall|i: int|
            0 <= i < rows.len() && (((#[trigger] rows[i]).a == a && rows[i].b == b) || (rows[i].a == b && rows[i].b
                == a)) implies why::pair_of(rows, a, b) == Some(rows[i]) by {
            assert(rows[i].a.0 < rows[i].b.0);
            if i < n {
                assert(d[i] == rows[i]);
                assert(rows[i].a != rows[n].a || rows[i].b != rows[n].b);
            }
        }
        if forall|i: int|
            0 <= i < rows.len() ==> !(((#[trigger] rows[i]).a == a && rows[i].b == b) || (rows[i].a == b && rows[i].b
                == a)) {
            assert forall|i: int| 0 <= i < d.len() implies !(((#[trigger] d[i]).a == a && d[i].b == b) || (d[i].a == b
                && d[i].b == a)) by {
                assert(rows[i] == d[i]);
            }
        }
    }
}

/// Law: the coupling of two files is the pair that they make, whichever of them
/// is asked about first, read from the side of the first. Without such a pair
/// there is none.
pub proof fn coupling_is_of_the_pair(snap: &Snapshot, ctx: &Ctx, a: FileId, b: FileId, i: int)
    requires
        a != b,
        forall|i: int, j: int|
            0 <= i < j < snap.cochange@.len() ==> (#[trigger] snap.cochange@[i]).a != (#[trigger] snap.cochange@[j]).a
                || snap.cochange@[i].b != snap.cochange@[j].b,
        forall|i: int| 0 <= i < snap.cochange@.len() ==> (#[trigger] snap.cochange@[i]).a.0 < snap.cochange@[i].b.0,
    ensures
        0 <= i < snap.cochange@.len() && ((snap.cochange@[i].a == a && snap.cochange@[i].b == b) || (snap.cochange@[i].a
            == b && snap.cochange@[i].b == a)) ==> why::coupling(snap, ctx, a, b) == Some(
            as_listed(snap, ctx, a, snap.cochange@[i]),
        ),
        (forall|i: int|
            0 <= i < snap.cochange@.len() ==> !(((#[trigger] snap.cochange@[i]).a == a && snap.cochange@[i].b == b) || (
            snap.cochange@[i].a == b && snap.cochange@[i].b == a))) ==> why::coupling(snap, ctx, a, b) is None,
{
    lemma_pair_of(snap.cochange@, a, b);
    lemma_any_between(snap, ctx, a, b);
}

proof fn lemma_any_between(snap: &Snapshot, ctx: &Ctx, a: FileId, b: FileId)
    ensures
        why::edges_between(snap, ctx, a, b).len() > 0 <==> edge_between(snap.edges@, a, b),
{
    edges_between_are_shown(snap, ctx, a, b);
    let w = why::edges_between(snap, ctx, a, b);
    if edge_between(snap.edges@, a, b) {
        let k = choose|k: int|
            0 <= k < snap.edges@.len() && (((#[trigger] snap.edges@[k]).src == a && snap.edges@[k].dst == b) || (
            snap.edges@[k].src == b && snap.edges@[k].dst == a));
        assert(leads_between(snap, k, a, b));
        assert(is_shown(snap, w, k));
    }
    if w.len() > 0 {
        assert(is_between(snap, w[0], a, b));
        let j = choose|j: int| #[trigger] leads_between(snap, j, a, b) && shows(snap, w[0], j);
        assert(snap.edges@[j].src == a || snap.edges@[j].src == b);
    }
}

/// An interval is one of an edge.
pub open spec fn of_edge(id: i64) -> spec_fn(IntervalRow) -> bool {
    |iv: IntervalRow| iv.edge_id == id
}

proof fn lemma_spans(intervals: Seq<IntervalRow>, id: i64)
    ensures
        graph::spans_of(intervals, id).len() == intervals.filter(of_edge(id)).len(),
        forall|k: int|
            0 <= k < intervals.filter(of_edge(id)).len() ==> graph::spans_of(intervals, id)[k] == graph::span(
                #[trigger] intervals.filter(of_edge(id))[k],
            ),
    decreases intervals.len(),
{
    reveal(Seq::filter);
    let keep = of_edge(id);
    if intervals.len() == 0 {
        assert(graph::interval_edges(intervals) =~= Seq::<i64>::empty());
    } else {
        let d = intervals.drop_last();
        let iv = intervals.last();
        lemma_spans(d, id);
        let keys = graph::interval_edges(d);
        assert(graph::interval_edges(intervals) =~= keys.push(iv.edge_id));
        plain::lemma_positions_push(keys, iv.edge_id, id);
        crate::postings::positions_are_indices(keys, id);
        let p = crate::postings::positions(keys, id);
        let s = graph::spans_of(d, id);
        let t = graph::spans_of(intervals, id);
        assert forall|j: int| 0 <= j < p.len() implies intervals[#[trigger] p[j]] == d[p[j]] by {}
        if keep(iv) {
            assert(t =~= s.push(graph::span(iv)));
        } else {
            assert(t =~= s);
        }
    }
}

/// Law: an edge is shown with all the intervals it lived in, in the order of
/// the index, each with the commits that began and ended it.
pub proof fn intervals_are_shown(snap: &Snapshot, ctx: &Ctx, i: int)
    requires
        0 <= i < snap.edges@.len(),
    ensures
        ({
            let x = why::edge_view(snap, ctx, snap.graph(ctx)[i]);
            let own = snap.intervals@.filter(of_edge(snap.edges@[i].id));
            &&& x.intervals.len() == own.len()
            &&& forall|k: int|
                #![trigger own[k]]
                0 <= k < own.len() ==> x.intervals[k].born == query::ref_to(ctx.commits@, own[k].born.0) && (match own[k].died {
                    Some(d) => x.intervals[k].died == Some(query::ref_to(ctx.commits@, d.0)),
                    None => x.intervals[k].died is None,
                })
        }),
{
    let row = snap.edges@[i];
    lemma_spans(snap.intervals@, row.id);
    assert(snap.graph(ctx)[i].intervals == graph::spans_of(snap.intervals@, row.id));
}

/// Law: a ghost is shown with the author and the whole message of the commit
/// that severed it, and with its own measure.
pub proof fn severings_are_explained(ctx: &Ctx, g: GhostRow, i: int)
    requires
        plain::commits_once(ctx.commits@),
        0 <= i < ctx.commits@.len(),
        ctx.commits@[i].id == g.severed_commit,
    ensures
        ({
            let x = why::ghost_view(ctx, g);
            let c = ctx.commits@[i];
            &&& c.author matches Some(a) ==> x.severing_author == a@
            &&& c.author is None ==> x.severing_author.len() == 0
            &&& c.body matches Some(b) ==> x.severing_body == b@
            &&& c.body is None ==> x.severing_body.len() == 0
            &&& x.severed_at == query::ref_to(ctx.commits@, c.id.0)
            &&& x.lifetime_days == g.lifetime_days
            &&& x.cochanges_since == g.cochanges_since
            &&& x.confidence_pct == g.conf_pct
            &&& x.score_pct == g.score_pct
        }),
{
    plain::lemma_commit_at(ctx.commits@, g.severed_commit.0);
}

} // verus!
