//! What the lists hold and what they leave out, over all indexes.

use crate::listing;
use crate::listing::{CochangeEntryView, DriftEntryView, GhostEntryView};
use crate::model::{EdgeKind, FileId};
use crate::plain;
use crate::postings;
use crate::query;
use crate::query::{Ctx, Snapshot};
use crate::rows::{CochangeRow, EdgeRow, GhostRow};
use crate::graph;
use vstd::prelude::*;

verus! {

/// No two rows are of one edge.
pub open spec fn edges_once(edges: Seq<EdgeRow>) -> bool {
    forall|i: int, j: int| 0 <= i < j < edges.len() ==> (#[trigger] edges[i]).id != (#[trigger] edges[j]).id
}

pub proof fn lemma_edge_with(edges: Seq<EdgeRow>, id: i64)
    requires
        edges_once(edges),
    ensures
        listing::edge_with(edges, id) matches Some(e) ==> edges.contains(e) && e.id == id,
        forall|i: int| 0 <= i < edges.len() && (#[trigger] edges[i]).id == id ==> listing::edge_with(edges, id) == Some(
            edges[i],
        ),
{
    let keys = listing::edge_ids(edges);
    postings::positions_are_indices(keys, id);
    let p = postings::positions(keys, id);
    if p.len() > 0 {
        let k = p.last();
        assert(p[p.len() - 1] == k);
        assert(keys[k] == edges[k].id);
        assert(edges.contains(edges[k]));
        assert forall|i: int| 0 <= i < edges.len() && (#[trigger] edges[i]).id == id implies i == k by {
            if i < k {
                assert(edges[i].id != edges[k].id);
            } else if k < i {
                assert(edges[k].id != edges[i].id);
            }
        }
    }
    assert forall|i: int| 0 <= i < edges.len() && (#[trigger] edges[i]).id == id implies p.len() > 0 by {
        assert(keys[i] == id);
        assert(p.contains(i));
    }
}

/// Law: every ghost is listed with the ends and the kind of its edge, the commit
/// that severed it and what was measured of it. Of one file, those are listed
/// whose edge starts or ends at it, and no others.
pub proof fn ghosts_are_listed(snap: &Snapshot, ctx: &Ctx, only: Option<FileId>, i: int, j: int)
    requires
        edges_once(snap.edges@),
        0 <= i < snap.ghosts@.len(),
        0 <= j < snap.edges@.len(),
        snap.edges@[j].id == snap.ghosts@[i].edge_id,
    ensures
        only is None || only == Some(snap.edges@[j].src) || only == Some(snap.edges@[j].dst) ==> listing::ghost_entries(
            snap,
            ctx,
            only,
        ).contains(
            (GhostEntryView {
                from: snap.shown(snap.edges@[j].src),
                to: snap.shown(snap.edges@[j].dst),
                kind: snap.edges@[j].kind.name(),
                severed_at: query::ref_to(ctx.commits@, snap.ghosts@[i].severed_commit.0),
                lifetime_days: snap.ghosts@[i].lifetime_days,
                cochanges_since: snap.ghosts@[i].cochanges_since,
                confidence_pct: snap.ghosts@[i].conf_pct,
                score_pct: snap.ghosts@[i].score_pct,
            }),
        ),
{
    let f = |g: GhostRow| listing::ghost_entry(snap, ctx, only, g);
    plain::lemma_kept_in_order(snap.ghosts@, f);
    lemma_edge_with(snap.edges@, snap.ghosts@[i].edge_id);
    assert(f(snap.ghosts@[i]) == listing::ghost_entry(snap, ctx, only, snap.ghosts@[i]));
}

/// Law: what is listed is a ghost, and of one file only one whose edge starts
/// or ends at it. Ghosts are listed in the order of the index.
pub proof fn listed_are_ghosts(snap: &Snapshot, ctx: &Ctx, only: Option<FileId>, x: GhostEntryView)
    requires
        edges_once(snap.edges@),
        listing::ghost_entries(snap, ctx, only).contains(x),
    ensures
        exists|i: int, j: int|
            #![trigger snap.ghosts@[i], snap.edges@[j]]
            0 <= i < snap.ghosts@.len() && 0 <= j < snap.edges@.len() && snap.edges@[j].id == snap.ghosts@[i].edge_id
                && x.lifetime_days == snap.ghosts@[i].lifetime_days && x.cochanges_since == snap.ghosts@[i].cochanges_since
                && x.from == snap.shown(snap.edges@[j].src) && x.to == snap.shown(snap.edges@[j].dst) && (only matches Some(
                f,
            ) ==> f == snap.edges@[j].src || f == snap.edges@[j].dst),
{
    let f = |g: GhostRow| listing::ghost_entry(snap, ctx, only, g);
    plain::lemma_kept_in_order(snap.ghosts@, f);
    let i = choose|i: int| 0 <= i < snap.ghosts@.len() && f(#[trigger] snap.ghosts@[i]) == Some(x);
    lemma_edge_with(snap.edges@, snap.ghosts@[i].edge_id);
    let e = listing::edge_with(snap.edges@, snap.ghosts@[i].edge_id)->0;
    let j = snap.edges@.index_of(e);
    assert(snap.edges@[j] == e);
}

/// Law: a ghost that stands before another in the index is listed before it.
pub proof fn ghosts_keep_their_order(snap: &Snapshot, ctx: &Ctx, only: Option<FileId>, i: int, j: int)
    requires
        0 <= i < j < snap.ghosts@.len(),
        listing::ghost_entry(snap, ctx, only, snap.ghosts@[i]) is Some,
        listing::ghost_entry(snap, ctx, only, snap.ghosts@[j]) is Some,
    ensures
        exists|k: int, l: int|
            0 <= k < l < listing::ghost_entries(snap, ctx, only).len() && (#[trigger] listing::ghost_entries(
                snap,
                ctx,
                only,
            )[k]) == listing::ghost_entry(snap, ctx, only, snap.ghosts@[i])->0 && (#[trigger] listing::ghost_entries(
                snap,
                ctx,
                only,
            )[l]) == listing::ghost_entry(snap, ctx, only, snap.ghosts@[j])->0,
{
    let f = |g: GhostRow| listing::ghost_entry(snap, ctx, only, g);
    plain::lemma_kept_in_order(snap.ghosts@, f);
    let s = snap.ghosts@;
    let o = s.filter_map(f);
    assert(f(s[i]) is Some && f(s[j]) is Some);
    let (k, l) = choose|k: int, l: int|
        0 <= k < l < o.len() && (#[trigger] o[k]) == f(s[i])->0 && (#[trigger] o[l]) == f(s[j])->0;
    assert(listing::ghost_entries(snap, ctx, only) == o);
    assert(listing::ghost_entries(snap, ctx, only)[k] == o[k] && listing::ghost_entries(snap, ctx, only)[l] == o[l]);
}

/// An edge, open or not, leads from one of the files to the other.
pub open spec fn edge_between(edges: Seq<EdgeRow>, a: FileId, b: FileId) -> bool {
    exists|k: int|
        0 <= k < edges.len() && (((#[trigger] edges[k]).src == a && edges[k].dst == b) || (edges[k].src == b && edges[k].dst
            == a))
}

/// A pair is to be listed for a file: it holds the file, changed together often
/// enough, has a lift that is reportable, its partner has a path at HEAD, and
/// no edge leads between the two unless such pairs are asked for.
pub open spec fn to_list(snap: &Snapshot, ctx: &Ctx, q: FileId, structural: bool, row: CochangeRow) -> bool {
    let other = if row.a == q { row.b } else { row.a };
    &&& row.a == q || row.b == q
    &&& row.n >= ctx.params.min_cochange_n
    &&& row.lift_reportable
    &&& plain::lives(snap.files.files(), other)
    &&& structural || !edge_between(snap.edges@, q, other)
}

/// What a pair reads like from the side of a file.
pub open spec fn as_listed(snap: &Snapshot, ctx: &Ctx, q: FileId, row: CochangeRow) -> CochangeEntryView {
    let other = if row.a == q { row.b } else { row.a };
    CochangeEntryView {
        path: snap.shown(other),
        n: row.n,
        confidence_pct: if row.a == q { row.conf_ab_pct } else { row.conf_ba_pct },
        lift_tenths: row.lift_tenths,
        first: query::ref_to(ctx.commits@, row.first_commit.0).date,
        last: query::ref_to(ctx.commits@, row.last_commit.0).date,
        structural_edge: edge_between(snap.edges@, q, other),
    }
}

/// Law: the pairs listed for a file are exactly those that are to be listed,
/// each with the confidence seen from the file.
pub proof fn pairs_are_listed(snap: &Snapshot, ctx: &Ctx, q: FileId, structural: bool, x: CochangeEntryView)
    requires
        plain::files_once(snap.files.files()),
    ensures
        listing::cochange_entries(snap, ctx, q, structural).contains(x) <==> exists|i: int|
            0 <= i < snap.cochange@.len() && to_list(snap, ctx, q, structural, #[trigger] snap.cochange@[i]) && x
                == as_listed(snap, ctx, q, snap.cochange@[i]),
{
    let f = |row: CochangeRow| listing::cochange_entry(snap, ctx, q, structural, row);
    plain::lemma_kept_in_order(snap.cochange@, f);
    assert forall|i: int| 0 <= i < snap.cochange@.len() implies (f(#[trigger] snap.cochange@[i]) == (if to_list(
        snap,
        ctx,
        q,
        structural,
        snap.cochange@[i],
    ) {
        Some(as_listed(snap, ctx, q, snap.cochange@[i]))
    } else {
        None
    })) by {
        let row = snap.cochange@[i];
        let other = if row.a == q { row.b } else { row.a };
        plain::paths_keep_alive(snap.files.files(), other);
        lemma_between(snap.edges@, q, other);
    }
    if listing::cochange_entries(snap, ctx, q, structural).contains(x) {
        let i = choose|i: int| 0 <= i < snap.cochange@.len() && f(#[trigger] snap.cochange@[i]) == Some(x);
        assert(to_list(snap, ctx, q, structural, snap.cochange@[i]));
    }
}

proof fn lemma_between(edges: Seq<EdgeRow>, a: FileId, b: FileId)
    ensures
        listing::ever_joined(edges, a, b) <==> edge_between(edges, a, b),
{
    if listing::ever_joined(edges, a, b) {
        let i = choose|i: int| 0 <= i < edges.len() && crate::bfs::joins(#[trigger] edges[i], a, b);
        assert(edges[i].src == a || edges[i].src == b);
    }
    if edge_between(edges, a, b) {
        let k = choose|k: int|
            0 <= k < edges.len() && (((#[trigger] edges[k]).src == a && edges[k].dst == b) || (edges[k].src == b
                && edges[k].dst == a));
        assert(crate::bfs::joins(edges[k], a, b));
    }
}

/// Law: a drifted document is one with an open reference to a file that a
/// commit with a weight touched since, and every such document is listed.
pub proof fn drifts_are_found(snap: &Snapshot, ctx: &Ctx, i: int)
    requires
        0 <= i < snap.edges@.len(),
    ensures
        snap.edges@[i].kind == EdgeKind::DocRef && plain::open_now(snap.intervals@, snap.edges@[i].id) && query::behind(
            ctx.commits@,
            snap.touches@,
            snap.edges@[i].src,
            snap.edges@[i].dst,
        ) > 0 ==> listing::ranked_drifts(snap, ctx).contains(
            (DriftEntryView {
                doc: snap.shown(snap.edges@[i].src),
                code: snap.shown(snap.edges@[i].dst),
                commits_behind: query::behind(ctx.commits@, snap.touches@, snap.edges@[i].src, snap.edges@[i].dst) as usize,
                doc_last_touched: listing::last_touched(snap, ctx, snap.edges@[i].src),
                code_last_touched: listing::last_touched(snap, ctx, snap.edges@[i].dst),
            }),
        ),
{
    let g = snap.graph(ctx);
    let f = |e: graph::EdgeInfoView| listing::drift_entry(snap, ctx, e);
    plain::lemma_kept_in_order(g, f);
    plain::intervals_keep_alive(
        snap.edges@[i],
        snap.intervals@,
        query::commit_ids(ctx.commits@),
        query::commit_times(ctx.commits@),
    );
    assert(g[i].row == snap.edges@[i]);
    listing::drifts_descend(snap, ctx);
    match f(g[i]) {
        Some(x) => {
            let s = listing::drifts(snap, ctx);
            assert(s.contains(x));
            assert(s[s.index_of(x)] == x);
        },
        None => {},
    }
}

/// Law: nothing else is listed as drifted.
pub proof fn drifts_are_real(snap: &Snapshot, ctx: &Ctx, k: int)
    requires
        0 <= k < listing::drifts(snap, ctx).len(),
    ensures
        exists|i: int|
            #![trigger snap.edges@[i]]
            0 <= i < snap.edges@.len() && snap.edges@[i].kind == EdgeKind::DocRef && plain::open_now(
                snap.intervals@,
                snap.edges@[i].id,
            ) && query::behind(ctx.commits@, snap.touches@, snap.edges@[i].src, snap.edges@[i].dst) > 0
                && listing::drifts(snap, ctx)[k].doc == snap.shown(snap.edges@[i].src) && listing::drifts(snap, ctx)[k].code
                == snap.shown(snap.edges@[i].dst),
{
    let g = snap.graph(ctx);
    let s = listing::drifts(snap, ctx);
    let f = |e: graph::EdgeInfoView| listing::drift_entry(snap, ctx, e);
    plain::lemma_kept_in_order(g, f);
    assert(s.contains(s[k]));
    let i = choose|i: int| 0 <= i < g.len() && f(#[trigger] g[i]) == Some(s[k]);
    assert(g[i].row == snap.edges@[i]);
    plain::intervals_keep_alive(
        snap.edges@[i],
        snap.intervals@,
        query::commit_ids(ctx.commits@),
        query::commit_times(ctx.commits@),
    );
}

/// Law: a file was last touched on the day of the last commit that touched it.
pub proof fn last_days_are_of_last_touches(snap: &Snapshot, ctx: &Ctx, f: FileId, c: i64)
    requires
        plain::touches_in_order(snap.touches@),
        plain::touched(snap.touches@, c, f),
        forall|d: i64| #[trigger] plain::touched(snap.touches@, d, f) ==> d <= c,
    ensures
        listing::last_touched(snap, ctx, f) == query::ref_to(ctx.commits@, c).date,
{
    let t = query::touches_of(snap.touches@, f);
    plain::touches_are_rows(snap.touches@, f);
    let i = choose|i: int| 0 <= i < t.len() && (#[trigger] t[i]).commit.0 == c;
    let d = t[t.len() - 1].commit.0;
    assert(plain::touched(snap.touches@, d, f));
    if i < t.len() - 1 {
        assert(t[i].commit.0 <= t[t.len() - 1].commit.0);
    }
}

} // verus!
