//! What is evidence and what is not, over all indexes.

use crate::bfs;
use crate::blast;
use crate::blast::EvidenceView;
use crate::graph;
use crate::model::{Direction, EdgeKind, FileId};
use crate::plain;
use crate::postings;
use crate::query;
use crate::query::{Ctx, KindFilter, Snapshot};
use crate::rows::{CochangeRow, GhostRow};
use vstd::prelude::*;

verus! {

/// A file with a piece of evidence.
pub type Item = (FileId, EvidenceView);

/// The evidence of edges and ghosts.
spec fn of_edges(snap: &Snapshot, ctx: &Ctx, q: FileId, kinds: KindFilter) -> Seq<Item> {
    let edges = snap.graph(ctx);
    blast::edges_evidence(ctx.commits@, snap.ghosts@, kinds, q, edges, graph::edges_at(edges, q))
}

/// The evidence of edges, ghosts and pairs.
spec fn of_pairs(snap: &Snapshot, ctx: &Ctx, q: FileId, kinds: KindFilter) -> Seq<Item> {
    let a = of_edges(snap, ctx, q, kinds);
    if kinds.cochange {
        blast::with_pairs(snap, ctx, q, a, snap.cochange@)
    } else {
        a
    }
}

/// The evidence of all but the search.
spec fn of_docs(snap: &Snapshot, ctx: &Ctx, q: FileId, kinds: KindFilter) -> Seq<Item> {
    let edges = snap.graph(ctx);
    let b = of_pairs(snap, ctx, q, kinds);
    if kinds.doc {
        blast::with_docs(snap, ctx, q, b, edges, postings::positions(graph::targets(edges), q.0))
    } else {
        b
    }
}

// ---- nothing is lost ----

spec fn starts(a: Seq<Item>, b: Seq<Item>) -> bool {
    a.len() <= b.len() && forall|i: int| 0 <= i < a.len() ==> #[trigger] b[i] == a[i]
}

proof fn lemma_pairs_start(snap: &Snapshot, ctx: &Ctx, q: FileId, a: Seq<Item>, rows: Seq<CochangeRow>)
    ensures
        starts(a, blast::with_pairs(snap, ctx, q, a, rows)),
    decreases rows.len(),
{
    if rows.len() > 0 {
        lemma_pairs_start(snap, ctx, q, a, rows.drop_last());
    }
}

proof fn lemma_docs_start(snap: &Snapshot, ctx: &Ctx, q: FileId, a: Seq<Item>, edges: Seq<graph::EdgeInfoView>, at: Seq<int>)
    ensures
        starts(a, blast::with_docs(snap, ctx, q, a, edges, at)),
    decreases at.len(),
{
    if at.len() > 0 {
        lemma_docs_start(snap, ctx, q, a, edges, at.drop_last());
    }
}

proof fn lemma_nears_start(snap: &Snapshot, a: Seq<Item>, union: bfs::Found, live: bfs::Found, n: nat)
    ensures
        starts(a, blast::with_nears(snap, a, union, live, n)),
    decreases n,
{
    if n > 0 {
        lemma_nears_start(snap, a, union, live, (n - 1) as nat);
    }
}

proof fn lemma_kept(snap: &Snapshot, ctx: &Ctx, q: FileId, depth: u8, kinds: KindFilter)
    ensures
        starts(of_edges(snap, ctx, q, kinds), of_pairs(snap, ctx, q, kinds)),
        starts(of_pairs(snap, ctx, q, kinds), of_docs(snap, ctx, q, kinds)),
        starts(of_docs(snap, ctx, q, kinds), blast::all_evidence(snap, ctx, q, depth, kinds)),
{
    let edges = snap.graph(ctx);
    lemma_pairs_start(snap, ctx, q, of_edges(snap, ctx, q, kinds), snap.cochange@);
    lemma_docs_start(
        snap,
        ctx,
        q,
        of_pairs(snap, ctx, q, kinds),
        edges,
        postings::positions(graph::targets(edges), q.0),
    );
    let union = bfs::search(edges, blast::union_keep(edges, ctx.params.ghost_min_lifetime_days), q, depth);
    let live = bfs::search(edges, blast::live_keep(edges), q, blast::LIVE_DEPTH);
    lemma_nears_start(snap, of_docs(snap, ctx, q, kinds), union, live, union.nodes.len());
}

proof fn lemma_starts_has(a: Seq<Item>, b: Seq<Item>, x: Item)
    requires
        starts(a, b),
        a.contains(x),
    ensures
        b.contains(x),
{
    assert(b[a.index_of(x)] == x);
}

proof fn lemma_edge_has(
    snap: &Snapshot,
    ctx: &Ctx,
    q: FileId,
    kinds: KindFilter,
    edges: Seq<graph::EdgeInfoView>,
    at: Seq<int>,
    i: int,
    x: Item,
)
    requires
        at.contains(i),
        blast::edge_evidence(ctx.commits@, snap.ghosts@, kinds, q, edges[i]).contains(x),
    ensures
        blast::edges_evidence(ctx.commits@, snap.ghosts@, kinds, q, edges, at).contains(x),
    decreases at.len(),
{
    let f = at.drop_last();
    let a = blast::edges_evidence(ctx.commits@, snap.ghosts@, kinds, q, edges, f);
    let b = blast::edge_evidence(ctx.commits@, snap.ghosts@, kinds, q, edges[at.last()]);
    if at.last() == i {
        assert((a + b)[a.len() + b.index_of(x)] == x);
    } else {
        assert(f[at.index_of(i)] == i);
        lemma_edge_has(snap, ctx, q, kinds, edges, f, i, x);
        assert((a + b)[a.index_of(x)] == x);
    }
}

/// Law: every open edge at the file is evidence for its other end, with its
/// kind, how it was resolved and which way it leads.
pub proof fn open_edges_are_evidence(snap: &Snapshot, ctx: &Ctx, q: FileId, depth: u8, kinds: KindFilter, i: int)
    requires
        kinds.live,
        0 <= i < snap.edges@.len(),
        plain::open_now(snap.intervals@, snap.edges@[i].id),
    ensures
        snap.edges@[i].src == q ==> blast::all_evidence(snap, ctx, q, depth, kinds).contains(
            (
                snap.edges@[i].dst,
                EvidenceView::StructuralEdge {
                    kind: snap.edges@[i].kind,
                    alive: true,
                    resolution: snap.edges@[i].resolution,
                    direction: Direction::Out,
                },
            ),
        ),
        snap.edges@[i].src != q && snap.edges@[i].dst == q ==> blast::all_evidence(
            snap,
            ctx,
            q,
            depth,
            kinds,
        ).contains(
            (
                snap.edges@[i].src,
                EvidenceView::StructuralEdge {
                    kind: snap.edges@[i].kind,
                    alive: true,
                    resolution: snap.edges@[i].resolution,
                    direction: Direction::In,
                },
            ),
        ),
{
    let edges = snap.graph(ctx);
    let row = snap.edges@[i];
    let at = graph::edges_at(edges, q);
    plain::intervals_keep_alive(
        row,
        snap.intervals@,
        query::commit_ids(ctx.commits@),
        query::commit_times(ctx.commits@),
    );
    plain::edges_meet_files(edges, q);
    assert(edges[i].row == row && edges[i].alive);
    if row.src == q || row.dst == q {
        let other = if row.src == q { row.dst } else { row.src };
        let x = (
            other,
            EvidenceView::StructuralEdge {
                kind: row.kind,
                alive: true,
                resolution: row.resolution,
                direction: if row.src == q { Direction::Out } else { Direction::In },
            },
        );
        let ev = blast::edge_evidence(ctx.commits@, snap.ghosts@, kinds, q, edges[i]);
        assert(ev[0] == x);
        lemma_edge_has(snap, ctx, q, kinds, edges, at, i, x);
        lemma_kept(snap, ctx, q, depth, kinds);
        lemma_starts_has(of_edges(snap, ctx, q, kinds), of_pairs(snap, ctx, q, kinds), x);
        lemma_starts_has(of_pairs(snap, ctx, q, kinds), of_docs(snap, ctx, q, kinds), x);
        lemma_starts_has(of_docs(snap, ctx, q, kinds), blast::all_evidence(snap, ctx, q, depth, kinds), x);
    }
}

/// No two rows are of one edge.
pub open spec fn ghosts_once(ghosts: Seq<GhostRow>) -> bool {
    forall|i: int, j: int|
        0 <= i < j < ghosts.len() ==> (#[trigger] ghosts[i]).edge_id != (#[trigger] ghosts[j]).edge_id
}

/// Law: every ghost of an edge at the file is evidence for the other end, with
/// what was measured of it and the commit that severed it.
pub proof fn ghosts_are_evidence(snap: &Snapshot, ctx: &Ctx, q: FileId, depth: u8, kinds: KindFilter, i: int, j: int)
    requires
        kinds.ghosts,
        ghosts_once(snap.ghosts@),
        0 <= i < snap.edges@.len(),
        0 <= j < snap.ghosts@.len(),
        snap.ghosts@[j].edge_id == snap.edges@[i].id,
        snap.edges@[i].src == q || snap.edges@[i].dst == q,
    ensures
        ({
            let row = snap.edges@[i];
            let g = snap.ghosts@[j];
            let sever = query::ref_to(ctx.commits@, g.severed_commit.0);
            blast::all_evidence(snap, ctx, q, depth, kinds).contains(
                (
                    if row.src == q {
                        row.dst
                    } else {
                        row.src
                    },
                    EvidenceView::GhostEdge {
                        kind: row.kind,
                        severed_at: sever.oid,
                        severed_date: sever.date,
                        lifetime_days: g.lifetime_days,
                        cochanges_since: g.cochanges_since,
                        slot: g.slot,
                        severing_subject: sever.subject,
                        direction: if row.src == q {
                            Direction::Out
                        } else {
                            Direction::In
                        },
                    },
                ),
            )
        }),
{
    let edges = snap.graph(ctx);
    let row = snap.edges@[i];
    let g = snap.ghosts@[j];
    let at = graph::edges_at(edges, q);
    plain::edges_meet_files(edges, q);
    assert(edges[i].row == row);
    let keys = blast::ghost_edges(snap.ghosts@);
    postings::positions_are_indices(keys, row.id);
    let p = postings::positions(keys, row.id);
    assert(keys[j] == row.id);
    assert(p.contains(j));
    let k = p.last();
    assert(p[p.len() - 1] == k);
    assert(keys[k] == snap.ghosts@[k].edge_id);
    if j < k {
        assert(snap.ghosts@[j].edge_id != snap.ghosts@[k].edge_id);
    } else if k < j {
        assert(snap.ghosts@[k].edge_id != snap.ghosts@[j].edge_id);
    }
    assert(blast::ghost_of(snap.ghosts@, row.id) == Some(g));
    let other = if row.src == q { row.dst } else { row.src };
    let direction = if row.src == q { Direction::Out } else { Direction::In };
    let x = (other, blast::ghost_evidence(ctx.commits@, row.kind, g, direction));
    let ev = blast::edge_evidence(ctx.commits@, snap.ghosts@, kinds, q, edges[i]);
    assert(ev[ev.len() - 1] == x);
    lemma_edge_has(snap, ctx, q, kinds, edges, at, i, x);
    lemma_kept(snap, ctx, q, depth, kinds);
    lemma_starts_has(of_edges(snap, ctx, q, kinds), of_pairs(snap, ctx, q, kinds), x);
    lemma_starts_has(of_pairs(snap, ctx, q, kinds), of_docs(snap, ctx, q, kinds), x);
    lemma_starts_has(of_docs(snap, ctx, q, kinds), blast::all_evidence(snap, ctx, q, depth, kinds), x);
}

/// What a pair says of the file's partner.
pub open spec fn pair_item(ctx: &Ctx, q: FileId, row: CochangeRow) -> Item {
    (
        if row.a == q {
            row.b
        } else {
            row.a
        },
        EvidenceView::Cochange {
            n: row.n,
            slot: row.slot,
            forward: row.a == q,
            last: query::ref_to(ctx.commits@, row.last_commit.0).date,
        },
    )
}

proof fn lemma_pair_has(snap: &Snapshot, ctx: &Ctx, q: FileId, a: Seq<Item>, rows: Seq<CochangeRow>, j: int)
    requires
        0 <= j < rows.len(),
        rows[j].a == q || rows[j].b == q,
        blast::has_evidence(a, pair_item(ctx, q, rows[j]).0) || (rows[j].n >= ctx.params.min_cochange_n
            && rows[j].lift_reportable && snap.alive(pair_item(ctx, q, rows[j]).0)),
    ensures
        blast::with_pairs(snap, ctx, q, a, rows).contains(pair_item(ctx, q, rows[j])),
    decreases rows.len(),
{
    let f = rows.drop_last();
    let x = pair_item(ctx, q, rows[j]);
    let b = blast::with_pairs(snap, ctx, q, a, f);
    let c = blast::with_pairs(snap, ctx, q, a, rows);
    if j == rows.len() - 1 {
        lemma_pairs_start(snap, ctx, q, a, f);
        if blast::has_evidence(a, x.0) {
            let i = choose|i: int| 0 <= i < a.len() && (#[trigger] a[i]).0 == x.0;
            assert(b[i].0 == x.0);
        }
        assert(c == b.push(x));
        assert(c[c.len() - 1] == x);
    } else {
        assert(f[j] == rows[j]);
        lemma_pair_has(snap, ctx, q, a, f, j);
        assert(c[b.index_of(x)] == x);
    }
}

/// Law: a pair that changed together often enough, with a lift that is
/// reportable, is evidence for a partner that has a path at HEAD. Any pair is
/// evidence for a partner that an open edge already ties to the file.
pub proof fn coupled_files_are_evidence(snap: &Snapshot, ctx: &Ctx, q: FileId, depth: u8, kinds: KindFilter, j: int, i: int)
    requires
        kinds.cochange,
        plain::files_once(snap.files.files()),
        0 <= j < snap.cochange@.len(),
        snap.cochange@[j].a == q || snap.cochange@[j].b == q,
    ensures
        snap.cochange@[j].n >= ctx.params.min_cochange_n && snap.cochange@[j].lift_reportable && plain::lives(
            snap.files.files(),
            pair_item(ctx, q, snap.cochange@[j]).0,
        ) ==> blast::all_evidence(snap, ctx, q, depth, kinds).contains(pair_item(ctx, q, snap.cochange@[j])),
        kinds.live && 0 <= i < snap.edges@.len() && plain::open_now(snap.intervals@, snap.edges@[i].id) && bfs::joins(
            snap.edges@[i],
            q,
            pair_item(ctx, q, snap.cochange@[j]).0,
        ) ==> blast::all_evidence(snap, ctx, q, depth, kinds).contains(pair_item(ctx, q, snap.cochange@[j])),
{
    let x = pair_item(ctx, q, snap.cochange@[j]);
    let a = of_edges(snap, ctx, q, kinds);
    plain::paths_keep_alive(snap.files.files(), x.0);
    lemma_kept(snap, ctx, q, depth, kinds);
    let row = snap.edges@[i];
    if kinds.live && 0 <= i < snap.edges@.len() && plain::open_now(snap.intervals@, row.id) && bfs::joins(row, q, x.0) {
        let edges = snap.graph(ctx);
        plain::intervals_keep_alive(
            row,
            snap.intervals@,
            query::commit_ids(ctx.commits@),
            query::commit_times(ctx.commits@),
        );
        plain::edges_meet_files(edges, q);
        assert(edges[i].row == row && edges[i].alive);
        let ev = blast::edge_evidence(ctx.commits@, snap.ghosts@, kinds, q, edges[i]);
        assert(ev[0].0 == x.0);
        lemma_edge_has(snap, ctx, q, kinds, edges, graph::edges_at(edges, q), i, ev[0]);
        assert(a[a.index_of(ev[0])].0 == x.0);
        assert(blast::has_evidence(a, x.0));
    }
    if blast::has_evidence(a, x.0) || (snap.cochange@[j].n >= ctx.params.min_cochange_n
        && snap.cochange@[j].lift_reportable && snap.alive(x.0)) {
        lemma_pair_has(snap, ctx, q, a, snap.cochange@, j);
        lemma_starts_has(of_pairs(snap, ctx, q, kinds), of_docs(snap, ctx, q, kinds), x);
        lemma_starts_has(of_docs(snap, ctx, q, kinds), blast::all_evidence(snap, ctx, q, depth, kinds), x);
    }
}

proof fn lemma_doc_has(
    snap: &Snapshot,
    ctx: &Ctx,
    q: FileId,
    a: Seq<Item>,
    edges: Seq<graph::EdgeInfoView>,
    at: Seq<int>,
    i: int,
)
    requires
        at.contains(i),
        edges[i].row.kind == EdgeKind::DocRef,
        edges[i].alive,
        query::behind(ctx.commits@, snap.touches@, edges[i].row.src, q) > 0,
    ensures
        blast::with_docs(snap, ctx, q, a, edges, at).contains(
            (
                edges[i].row.src,
                EvidenceView::DocDrift {
                    doc: snap.shown(edges[i].row.src),
                    commits_behind: query::behind(ctx.commits@, snap.touches@, edges[i].row.src, q) as usize,
                },
            ),
        ),
    decreases at.len(),
{
    let f = at.drop_last();
    let b = blast::with_docs(snap, ctx, q, a, edges, f);
    let c = blast::with_docs(snap, ctx, q, a, edges, at);
    let x = (
        edges[i].row.src,
        EvidenceView::DocDrift {
            doc: snap.shown(edges[i].row.src),
            commits_behind: query::behind(ctx.commits@, snap.touches@, edges[i].row.src, q) as usize,
        },
    );
    if at.last() == i {
        assert(c == b.push(x));
        assert(c[c.len() - 1] == x);
    } else {
        assert(f[at.index_of(i)] == i);
        lemma_doc_has(snap, ctx, q, a, edges, f, i);
        assert(c[b.index_of(x)] == x);
    }
}

/// Law: a document with an open reference to the file that is behind it is
/// evidence, with the number of commits it is behind.
pub proof fn docs_behind_are_evidence(snap: &Snapshot, ctx: &Ctx, q: FileId, depth: u8, kinds: KindFilter, i: int)
    requires
        kinds.doc,
        0 <= i < snap.edges@.len(),
        snap.edges@[i].dst == q,
        snap.edges@[i].kind == EdgeKind::DocRef,
        plain::open_now(snap.intervals@, snap.edges@[i].id),
        query::behind(ctx.commits@, snap.touches@, snap.edges@[i].src, q) > 0,
    ensures
        blast::all_evidence(snap, ctx, q, depth, kinds).contains(
            (
                snap.edges@[i].src,
                EvidenceView::DocDrift {
                    doc: snap.shown(snap.edges@[i].src),
                    commits_behind: query::behind(ctx.commits@, snap.touches@, snap.edges@[i].src, q) as usize,
                },
            ),
        ),
{
    let edges = snap.graph(ctx);
    let row = snap.edges@[i];
    plain::intervals_keep_alive(
        row,
        snap.intervals@,
        query::commit_ids(ctx.commits@),
        query::commit_times(ctx.commits@),
    );
    plain::edges_meet_files(edges, q);
    assert(edges[i].row == row && edges[i].alive);
    let at = postings::positions(graph::targets(edges), q.0);
    assert(at.contains(i));
    lemma_doc_has(snap, ctx, q, of_pairs(snap, ctx, q, kinds), edges, at, i);
    lemma_kept(snap, ctx, q, depth, kinds);
    let x = (
        row.src,
        EvidenceView::DocDrift {
            doc: snap.shown(row.src),
            commits_behind: query::behind(ctx.commits@, snap.touches@, row.src, q) as usize,
        },
    );
    lemma_starts_has(of_docs(snap, ctx, q, kinds), blast::all_evidence(snap, ctx, q, depth, kinds), x);
}

// ---- nothing is made up ----

/// An item has its reason in the rows of the index.
pub open spec fn has_reason(snap: &Snapshot, ctx: &Ctx, q: FileId, x: Item) -> bool {
    match x.1 {
        EvidenceView::StructuralEdge { kind, alive, resolution, direction } => exists|i: int|
            #![trigger snap.edges@[i]]
            0 <= i < snap.edges@.len() && plain::open_now(snap.intervals@, snap.edges@[i].id) && snap.edges@[i].kind
                == kind && snap.edges@[i].resolution == resolution && (if direction == Direction::Out {
                snap.edges@[i].src == q && snap.edges@[i].dst == x.0
            } else {
                snap.edges@[i].dst == q && snap.edges@[i].src == x.0
            }),
        EvidenceView::GhostEdge { kind, slot, cochanges_since, lifetime_days, .. } => exists|i: int, j: int|
            #![trigger snap.edges@[i], snap.ghosts@[j]]
            0 <= i < snap.edges@.len() && 0 <= j < snap.ghosts@.len() && snap.ghosts@[j].edge_id == snap.edges@[i].id
                && snap.ghosts@[j].slot == slot && snap.ghosts@[j].cochanges_since == cochanges_since
                && snap.ghosts@[j].lifetime_days == lifetime_days && snap.edges@[i].kind == kind && bfs::joins(
                snap.edges@[i],
                q,
                x.0,
            ),
        EvidenceView::Cochange { .. } => exists|j: int|
            #![trigger snap.cochange@[j]]
            0 <= j < snap.cochange@.len() && (snap.cochange@[j].a == q || snap.cochange@[j].b == q) && x == pair_item(
                ctx,
                q,
                snap.cochange@[j],
            ),
        EvidenceView::DocDrift { commits_behind, .. } => exists|i: int|
            #![trigger snap.edges@[i]]
            0 <= i < snap.edges@.len() && plain::open_now(snap.intervals@, snap.edges@[i].id) && snap.edges@[i].kind
                == EdgeKind::DocRef && snap.edges@[i].src == x.0 && snap.edges@[i].dst == q && commits_behind
                == query::behind(ctx.commits@, snap.touches@, x.0, q) as usize,
        EvidenceView::Transitive { .. } => x.0 != q && snap.alive(x.0),
    }
}

spec fn all_have_reasons(snap: &Snapshot, ctx: &Ctx, q: FileId, s: Seq<Item>) -> bool {
    forall|i: int| 0 <= i < s.len() ==> has_reason(snap, ctx, q, #[trigger] s[i])
}

proof fn lemma_edge_reasons(snap: &Snapshot, ctx: &Ctx, q: FileId, kinds: KindFilter, i: int)
    requires
        0 <= i < snap.edges@.len(),
        snap.edges@[i].src == q || snap.edges@[i].dst == q,
    ensures
        all_have_reasons(
            snap,
            ctx,
            q,
            blast::edge_evidence(ctx.commits@, snap.ghosts@, kinds, q, snap.graph(ctx)[i]),
        ),
{
    let edges = snap.graph(ctx);
    let row = snap.edges@[i];
    plain::intervals_keep_alive(
        row,
        snap.intervals@,
        query::commit_ids(ctx.commits@),
        query::commit_times(ctx.commits@),
    );
    assert(edges[i].row == row);
    let s = blast::edge_evidence(ctx.commits@, snap.ghosts@, kinds, q, edges[i]);
    let keys = blast::ghost_edges(snap.ghosts@);
    postings::positions_are_indices(keys, row.id);
    let p = postings::positions(keys, row.id);
    assert forall|k: int| 0 <= k < s.len() implies has_reason(snap, ctx, q, #[trigger] s[k]) by {
        match s[k].1 {
            EvidenceView::GhostEdge { .. } => {
                let j = p.last();
                assert(p[p.len() - 1] == j);
                assert(keys[j] == snap.ghosts@[j].edge_id);
                assert(snap.ghosts@[j].edge_id == snap.edges@[i].id);
                assert(bfs::joins(snap.edges@[i], q, s[k].0));
            },
            _ => {
                assert(snap.edges@[i] == row);
            },
        }
    }
}

proof fn lemma_edges_reasons(snap: &Snapshot, ctx: &Ctx, q: FileId, kinds: KindFilter, at: Seq<int>)
    requires
        forall|k: int|
            0 <= k < at.len() ==> 0 <= #[trigger] at[k] < snap.edges@.len() && (snap.edges@[at[k]].src == q || snap.edges@[at[k]].dst
                == q),
    ensures
        all_have_reasons(
            snap,
            ctx,
            q,
            blast::edges_evidence(ctx.commits@, snap.ghosts@, kinds, q, snap.graph(ctx), at),
        ),
    decreases at.len(),
{
    if at.len() > 0 {
        let f = at.drop_last();
        assert forall|k: int| 0 <= k < f.len() implies 0 <= #[trigger] f[k] < snap.edges@.len() && (snap.edges@[f[k]].src
            == q || snap.edges@[f[k]].dst == q) by {
            assert(f[k] == at[k]);
        }
        lemma_edges_reasons(snap, ctx, q, kinds, f);
        assert(0 <= at[at.len() - 1] < snap.edges@.len());
        lemma_edge_reasons(snap, ctx, q, kinds, at.last());
    }
}

proof fn lemma_pairs_reasons(snap: &Snapshot, ctx: &Ctx, q: FileId, a: Seq<Item>, n: nat)
    requires
        all_have_reasons(snap, ctx, q, a),
        n <= snap.cochange@.len(),
    ensures
        all_have_reasons(snap, ctx, q, blast::with_pairs(snap, ctx, q, a, snap.cochange@.take(n as int))),
    decreases n,
{
    if n > 0 {
        let rows = snap.cochange@.take(n as int);
        assert(rows.drop_last() =~= snap.cochange@.take(n - 1));
        lemma_pairs_reasons(snap, ctx, q, a, (n - 1) as nat);
        let row = snap.cochange@[n - 1];
        assert(rows.last() == row);
        if row.a == q || row.b == q {
            assert(has_reason(snap, ctx, q, pair_item(ctx, q, row)));
        }
    }
}

proof fn lemma_docs_reasons(snap: &Snapshot, ctx: &Ctx, q: FileId, a: Seq<Item>, at: Seq<int>)
    requires
        all_have_reasons(snap, ctx, q, a),
        forall|k: int| 0 <= k < at.len() ==> 0 <= #[trigger] at[k] < snap.edges@.len() && snap.edges@[at[k]].dst == q,
    ensures
        all_have_reasons(snap, ctx, q, blast::with_docs(snap, ctx, q, a, snap.graph(ctx), at)),
    decreases at.len(),
{
    if at.len() > 0 {
        let f = at.drop_last();
        assert forall|k: int| 0 <= k < f.len() implies 0 <= #[trigger] f[k] < snap.edges@.len() && snap.edges@[f[k]].dst
            == q by {
            assert(f[k] == at[k]);
        }
        lemma_docs_reasons(snap, ctx, q, a, f);
        let i = at[at.len() - 1];
        let row = snap.edges@[i];
        plain::intervals_keep_alive(
            row,
            snap.intervals@,
            query::commit_ids(ctx.commits@),
            query::commit_times(ctx.commits@),
        );
        let e = snap.graph(ctx)[i];
        assert(e.row == row);
        let n = query::behind(ctx.commits@, snap.touches@, row.src, q);
        if row.kind == EdgeKind::DocRef && e.alive && n > 0 {
            let x = (row.src, EvidenceView::DocDrift { doc: snap.shown(row.src), commits_behind: n as usize });
            assert(snap.edges@[i].dst == q);
            assert(has_reason(snap, ctx, q, x));
        }
    }
}

proof fn lemma_nears_reasons(
    snap: &Snapshot,
    ctx: &Ctx,
    q: FileId,
    a: Seq<Item>,
    union: bfs::Found,
    live: bfs::Found,
    n: nat,
)
    requires
        all_have_reasons(snap, ctx, q, a),
        n <= union.nodes.len(),
        forall|i: int| 0 < i < union.nodes.len() ==> #[trigger] union.nodes[i] != q,
    ensures
        all_have_reasons(snap, ctx, q, blast::with_nears(snap, a, union, live, n)),
    decreases n,
{
    if n > 0 {
        lemma_nears_reasons(snap, ctx, q, a, union, live, (n - 1) as nat);
    }
}

/// Law: every piece of evidence has its reason in the index: an open edge, a
/// ghost, a pair or an open reference that joins the two files.
pub proof fn evidence_has_reasons(snap: &Snapshot, ctx: &Ctx, q: FileId, depth: u8, kinds: KindFilter, union: bfs::Found, k: int)
    requires
        bfs::searched(
            snap.graph(ctx),
            blast::union_keep(snap.graph(ctx), ctx.params.ghost_min_lifetime_days),
            q,
            depth,
            union,
        ),
        0 <= k < blast::all_evidence(snap, ctx, q, depth, kinds).len(),
    ensures
        has_reason(snap, ctx, q, blast::all_evidence(snap, ctx, q, depth, kinds)[k]),
{
    let edges = snap.graph(ctx);
    let at = graph::edges_at(edges, q);
    plain::edges_meet_files(edges, q);
    assert forall|k: int| 0 <= k < at.len() implies 0 <= #[trigger] at[k] < snap.edges@.len() && (snap.edges@[at[k]].src
        == q || snap.edges@[at[k]].dst == q) by {
        let i = at[k];
        assert(at.contains(i));
        assert(edges[i].row == snap.edges@[i]);
    }
    lemma_edges_reasons(snap, ctx, q, kinds, at);
    let a = of_edges(snap, ctx, q, kinds);
    assert(snap.cochange@.take(snap.cochange@.len() as int) =~= snap.cochange@);
    lemma_pairs_reasons(snap, ctx, q, a, snap.cochange@.len());
    let b = of_pairs(snap, ctx, q, kinds);
    let into = postings::positions(graph::targets(edges), q.0);
    assert forall|k: int| 0 <= k < into.len() implies 0 <= #[trigger] into[k] < snap.edges@.len()
        && snap.edges@[into[k]].dst == q by {
        let i = into[k];
        assert(into.contains(i));
        assert(edges[i].row == snap.edges@[i]);
    }
    lemma_docs_reasons(snap, ctx, q, b, into);
    let keep = blast::union_keep(edges, ctx.params.ghost_min_lifetime_days);
    bfs::search_is_determined(edges, keep, q, depth, union, bfs::search(edges, keep, q, depth));
    assert forall|i: int| 0 < i < union.nodes.len() implies #[trigger] union.nodes[i] != q by {
        assert(union.nodes[0] != union.nodes[i]);
    }
    let live = bfs::search(edges, blast::live_keep(edges), q, blast::LIVE_DEPTH);
    lemma_nears_reasons(snap, ctx, q, of_docs(snap, ctx, q, kinds), union, live, union.nodes.len());
}

// ---- near in the union of all time ----

proof fn lemma_near_has(snap: &Snapshot, a: Seq<Item>, union: bfs::Found, live: bfs::Found, n: nat, i: int)
    requires
        0 < i < n <= union.nodes.len(),
        forall|x: int, y: int| 0 <= x < y < union.nodes.len() ==> #[trigger] union.nodes[x] != #[trigger] union.nodes[y],
        !blast::has_evidence(a, union.nodes[i]),
        snap.alive(union.nodes[i]),
        blast::distance(live, union.nodes[i]) matches Some(h) ==> h > union.dist[i],
    ensures
        exists|k: int|
            0 <= k < blast::with_nears(snap, a, union, live, n).len() && (#[trigger] blast::with_nears(
                snap,
                a,
                union,
                live,
                n,
            )[k]).0 == union.nodes[i] && (blast::with_nears(snap, a, union, live, n)[k].1 matches EvidenceView::Transitive {
                union_dist,
                head_dist,
                ..
            } && union_dist == union.dist[i] && head_dist == blast::distance(live, union.nodes[i])),
    decreases n,
{
    let b = blast::with_nears(snap, a, union, live, (n - 1) as nat);
    let c = blast::with_nears(snap, a, union, live, n);
    if i == n - 1 {
        lemma_nears_fresh(snap, a, union, live, (n - 1) as nat, i);
        assert(c.len() == b.len() + 1);
        assert(c[b.len() as int].0 == union.nodes[i]);
    } else {
        lemma_near_has(snap, a, union, live, (n - 1) as nat, i);
        let k = choose|k: int|
            0 <= k < b.len() && (#[trigger] b[k]).0 == union.nodes[i] && (b[k].1 matches EvidenceView::Transitive {
                union_dist,
                head_dist,
                ..
            } && union_dist == union.dist[i] && head_dist == blast::distance(live, union.nodes[i]));
        assert(c[k] == b[k]);
    }
}

proof fn lemma_nears_fresh(snap: &Snapshot, a: Seq<Item>, union: bfs::Found, live: bfs::Found, n: nat, i: int)
    requires
        n <= i < union.nodes.len(),
        forall|x: int, y: int| 0 <= x < y < union.nodes.len() ==> #[trigger] union.nodes[x] != #[trigger] union.nodes[y],
        !blast::has_evidence(a, union.nodes[i]),
    ensures
        !blast::has_evidence(blast::with_nears(snap, a, union, live, n), union.nodes[i]),
    decreases n,
{
    if n > 0 {
        lemma_nears_fresh(snap, a, union, live, (n - 1) as nat, i);
        let b = blast::with_nears(snap, a, union, live, (n - 1) as nat);
        let c = blast::with_nears(snap, a, union, live, n);
        if blast::has_evidence(c, union.nodes[i]) {
            let k = choose|k: int| 0 <= k < c.len() && (#[trigger] c[k]).0 == union.nodes[i];
            if k < b.len() {
                assert(b[k] == c[k]);
            } else {
                assert(union.nodes[n - 1] != union.nodes[i]);
            }
        }
    }
}

/// Law: a file that no other evidence names, that lies near in the union of all
/// edges that lasted, and that is farther away over open edges or out of reach
/// there, is evidence with both distances.
pub proof fn once_near_files_are_evidence(
    snap: &Snapshot,
    ctx: &Ctx,
    q: FileId,
    depth: u8,
    kinds: KindFilter,
    union: bfs::Found,
    live: bfs::Found,
    i: int,
)
    requires
        kinds.transitive,
        depth >= 2,
        plain::files_once(snap.files.files()),
        bfs::searched(
            snap.graph(ctx),
            blast::union_keep(snap.graph(ctx), ctx.params.ghost_min_lifetime_days),
            q,
            depth,
            union,
        ),
        bfs::searched(snap.graph(ctx), blast::live_keep(snap.graph(ctx)), q, 3, live),
        0 < i < union.nodes.len(),
        plain::lives(snap.files.files(), union.nodes[i]),
        !blast::has_evidence(
            blast::all_evidence(
                snap,
                ctx,
                q,
                depth,
                (KindFilter {
                    live: kinds.live,
                    ghosts: kinds.ghosts,
                    cochange: kinds.cochange,
                    doc: kinds.doc,
                    transitive: false,
                }),
            ),
            union.nodes[i],
        ),
        !bfs::reach(snap.graph(ctx), blast::live_keep(snap.graph(ctx)), q, union.dist[i] as nat, union.nodes[i])
            || union.dist[i] > 3,
        union.dist[i] > 3 ==> !bfs::reach(snap.graph(ctx), blast::live_keep(snap.graph(ctx)), q, 3, union.nodes[i]),
    ensures
        exists|k: int|
            0 <= k < blast::all_evidence(snap, ctx, q, depth, kinds).len() && (#[trigger] blast::all_evidence(
                snap,
                ctx,
                q,
                depth,
                kinds,
            )[k]).0 == union.nodes[i] && (blast::all_evidence(snap, ctx, q, depth, kinds)[k].1 matches EvidenceView::Transitive {
                union_dist,
                head_dist,
                ..
            } && union_dist == union.dist[i] && (head_dist is None <==> !bfs::reach(
                snap.graph(ctx),
                blast::live_keep(snap.graph(ctx)),
                q,
                3,
                union.nodes[i],
            ))),
{
    let edges = snap.graph(ctx);
    let keep = blast::union_keep(edges, ctx.params.ghost_min_lifetime_days);
    let alive = blast::live_keep(edges);
    let f = union.nodes[i];
    bfs::search_is_determined(edges, keep, q, depth, union, bfs::search(edges, keep, q, depth));
    bfs::search_is_determined(edges, alive, q, 3, live, bfs::search(edges, alive, q, 3));
    plain::paths_keep_alive(snap.files.files(), f);
    let rest = KindFilter {
        live: kinds.live,
        ghosts: kinds.ghosts,
        cochange: kinds.cochange,
        doc: kinds.doc,
        transitive: false,
    };
    let c = of_docs(snap, ctx, q, kinds);
    lemma_edges_filter(snap, ctx, q, kinds, rest, graph::edges_at(edges, q));
    assert(c == blast::all_evidence(snap, ctx, q, depth, rest));
    assert(blast::distance(live, f) is Some <==> bfs::reach(edges, alive, q, 3, f)) by {
        if live.nodes.contains(f) {
            let j = live.nodes.index_of(f);
            assert(live.nodes[j] == f);
            if j > 0 {
                assert(live.parent[j] < j);
            }
            assert(bfs::found_within(live, f, 3));
        }
        if bfs::reach(edges, alive, q, 3, f) {
            assert(bfs::found_within(live, f, 3));
            let j = choose|j: int| 0 <= j < live.nodes.len() && #[trigger] live.nodes[j] == f && live.dist[j] <= 3;
            assert(live.nodes.contains(f));
        }
    }
    if blast::distance(live, f) is Some {
        let j = live.nodes.index_of(f);
        if union.dist[i] <= 3 {
            bfs::distances_are_shortest(edges, alive, q, 3, live, j, union.dist[i] as nat);
        }
    }
    lemma_near_has(snap, c, union, live, union.nodes.len(), i);
    let all = blast::with_nears(snap, c, union, live, union.nodes.len());
    assert(all == blast::all_evidence(snap, ctx, q, depth, kinds));
    let k = choose|k: int|
        0 <= k < all.len() && (#[trigger] all[k]).0 == f && (all[k].1 matches EvidenceView::Transitive {
            union_dist,
            head_dist,
            ..
        } && union_dist == union.dist[i] && head_dist == blast::distance(live, f));
    assert(blast::all_evidence(snap, ctx, q, depth, kinds)[k] == all[k]);
}

proof fn lemma_edges_filter(snap: &Snapshot, ctx: &Ctx, q: FileId, a: KindFilter, b: KindFilter, at: Seq<int>)
    requires
        a.live == b.live,
        a.ghosts == b.ghosts,
    ensures
        blast::edges_evidence(ctx.commits@, snap.ghosts@, a, q, snap.graph(ctx), at) == blast::edges_evidence(
            ctx.commits@,
            snap.ghosts@,
            b,
            q,
            snap.graph(ctx),
            at,
        ),
    decreases at.len(),
{
    if at.len() > 0 {
        lemma_edges_filter(snap, ctx, q, a, b, at.drop_last());
    }
}

/// Law: the edges that lasted are those that are alive and those that lived
/// for the given number of days at least.
pub proof fn lasting_edges_are_kept(edges: Seq<graph::EdgeInfoView>, days: i64, i: int)
    requires
        0 <= i < edges.len(),
    ensures
        blast::union_keep(edges, days)[i] <==> edges[i].alive || edges[i].total_lifetime_days >= days,
        blast::live_keep(edges)[i] <==> edges[i].alive,
        blast::union_keep(edges, days).len() == edges.len(),
        blast::live_keep(edges).len() == edges.len(),
{
}

/// Law: two files are one step apart where a kept edge leads from one to the
/// other, either way, and one step more reaches all that is one step from what
/// is reached.
pub proof fn steps_follow_edges(edges: Seq<graph::EdgeInfoView>, keep: Seq<bool>, q: FileId, d: nat, f: FileId)
    ensures
        bfs::reach(edges, keep, q, 0, f) <==> f == q,
        bfs::reach(edges, keep, q, d + 1, f) <==> bfs::reach(edges, keep, q, d, f) || exists|g: FileId, i: int|
            #![trigger bfs::reach(edges, keep, q, d, g), edges[i]]
            bfs::reach(edges, keep, q, d, g) && 0 <= i < edges.len() && keep[i] && ((edges[i].row.src == g && edges[i].row.dst
                == f) || (edges[i].row.src == f && edges[i].row.dst == g)),
{
    let w = bfs::within(edges, keep, q, d);
    assert(bfs::within(edges, keep, q, d + 1) == bfs::grown(edges, keep, w));
    if exists|g: FileId| #[trigger] w.contains(g) && bfs::linked(edges, keep, g, f) {
        let g = choose|g: FileId| #[trigger] w.contains(g) && bfs::linked(edges, keep, g, f);
        let i = choose|i: int| 0 <= i < edges.len() && keep[i] && bfs::joins((#[trigger] edges[i]).row, g, f);
        assert(bfs::reach(edges, keep, q, d, g));
    }
    if exists|g: FileId, i: int|
        #![trigger bfs::reach(edges, keep, q, d, g), edges[i]]
        bfs::reach(edges, keep, q, d, g) && 0 <= i < edges.len() && keep[i] && ((edges[i].row.src == g && edges[i].row.dst
            == f) || (edges[i].row.src == f && edges[i].row.dst == g)) {
        let (g, i) = choose|g: FileId, i: int|
            #![trigger bfs::reach(edges, keep, q, d, g), edges[i]]
            bfs::reach(edges, keep, q, d, g) && 0 <= i < edges.len() && keep[i] && ((edges[i].row.src == g
                && edges[i].row.dst == f) || (edges[i].row.src == f && edges[i].row.dst == g));
        assert(bfs::joins(edges[i].row, g, f));
        assert(bfs::linked(edges, keep, g, f));
        assert(w.contains(g));
    }
}

/// A kept edge leads from one file to the other, either way.
pub open spec fn step(edges: Seq<graph::EdgeInfoView>, keep: Seq<bool>, a: FileId, b: FileId) -> bool {
    exists|i: int|
        0 <= i < edges.len() && keep[i] && (((#[trigger] edges[i]).row.src == a && edges[i].row.dst == b) || (
        edges[i].row.src == b && edges[i].row.dst == a))
}

/// The files on the way from the start of a search to what it found, both with
/// it.
pub open spec fn way(r: bfs::Found, i: int) -> Seq<FileId> {
    seq![r.nodes[0]] + blast::between(r, i) + seq![r.nodes[i]]
}

/// Law: the files that a file was reached by lie on a way of kept edges from
/// the start to it, and that way is as long as the file is far.
pub proof fn ways_follow_edges(edges: Seq<graph::EdgeInfoView>, keep: Seq<bool>, q: FileId, max: u8, r: bfs::Found, i: int)
    requires
        bfs::search_shape(edges, keep, q, max, r),
        0 < i < r.nodes.len(),
    ensures
        blast::between(r, i).len() + 1 == r.dist[i],
        way(r, i).first() == q,
        way(r, i).last() == r.nodes[i],
        forall|k: int| 0 <= k < way(r, i).len() - 1 ==> step(edges, keep, #[trigger] way(r, i)[k], way(r, i)[k + 1]),
    decreases i,
{
    let p = r.parent[i] as int;
    let at = graph::edges_at(edges, r.nodes[p]);
    let s = r.step[i] as int;
    assert(bfs::leads(edges, keep, r.nodes[p], s, r.nodes[i]));
    plain::edges_meet_files(edges, r.nodes[p]);
    assert(at.contains(at[s]));
    assert(step(edges, keep, r.nodes[p], r.nodes[i])) by {
        let e = edges[at[s]];
        assert(0 <= at[s] < edges.len());
    }
    let w = way(r, i);
    if p == 0 {
        assert(w =~= seq![q, r.nodes[i]]);
    } else {
        ways_follow_edges(edges, keep, q, max, r, p);
        let v = way(r, p);
        assert(w =~= v.push(r.nodes[i]));
        assert(v.len() + 1 == w.len());
        assert forall|k: int| 0 <= k < w.len() - 1 implies step(edges, keep, #[trigger] w[k], w[k + 1]) by {
            if k < v.len() - 1 {
                assert(v[k] == w[k] && v[k + 1] == w[k + 1]);
            } else {
                assert(w[k] == r.nodes[p]);
            }
        }
    }
}

/// The evidence for one file, in order.
pub open spec fn evidence_of(s: Seq<Item>, f: FileId) -> Seq<EvidenceView> {
    s.filter(|x: Item| x.0 == f).map_values(|x: Item| x.1)
}

proof fn lemma_evidence_for(s: Seq<Item>, f: FileId)
    ensures
        blast::evidence_for(s, f) == evidence_of(s, f),
    decreases s.len(),
{
    reveal(Seq::filter);
    let keep = |x: Item| x.0 == f;
    let tell = |x: Item| x.1;
    if s.len() == 0 {
        assert(s.filter(keep).map_values(tell) =~= Seq::<EvidenceView>::empty());
    } else {
        lemma_evidence_for(s.drop_last(), f);
        let b = s.drop_last().filter(keep);
        if keep(s.last()) {
            assert(b.push(s.last()).map_values(tell) =~= b.map_values(tell).push(s.last().1));
        }
    }
}

/// Law: each file that there is evidence for has one entry, which holds all the
/// evidence for it, in order, and no other.
pub proof fn evidence_is_gathered(s: Seq<Item>)
    ensures
        forall|k: int|
            0 <= k < s.len() ==> exists|i: int|
                0 <= i < blast::gathered(s).len() && (#[trigger] blast::gathered(s)[i]).0 == (#[trigger] s[k]).0,
        forall|i: int|
            0 <= i < blast::gathered(s).len() ==> (#[trigger] blast::gathered(s)[i]).1 == evidence_of(
                s,
                blast::gathered(s)[i].0,
            ) && blast::gathered(s)[i].1.len() > 0,
        forall|i: int, j: int|
            0 <= i < j < blast::gathered(s).len() ==> (#[trigger] blast::gathered(s)[i]).0 != (
            #[trigger] blast::gathered(s)[j]).0,
{
    let g = blast::gathered(s);
    blast::gathering_keeps_evidence(s);
    assert forall|i: int| 0 <= i < g.len() implies (#[trigger] g[i]).1 == evidence_of(s, g[i].0) by {
        lemma_evidence_for(s, g[i].0);
    }
    assert forall|k: int| 0 <= k < s.len() implies exists|i: int|
        0 <= i < g.len() && (#[trigger] g[i]).0 == (#[trigger] s[k]).0 by {
        assert(blast::has_evidence(s, s[k].0));
        blast::lemma_candidate_at(g, s[k].0);
        let i = blast::candidate_at(g, s[k].0)->0;
        assert(g[i].0 == s[k].0);
    }
}

/// Law: evidence is of a kind that was asked for and tells something: an edge is
/// open, a document is behind, and a file that lies near in the union of all
/// edges that lasted is farther away over open edges, or not found there.
pub proof fn evidence_tells_something(snap: &Snapshot, ctx: &Ctx, q: FileId, depth: u8, kinds: KindFilter, k: int)
    requires
        0 <= k < blast::all_evidence(snap, ctx, q, depth, kinds).len(),
    ensures
        match blast::all_evidence(snap, ctx, q, depth, kinds)[k].1 {
            EvidenceView::StructuralEdge { alive, .. } => kinds.live && alive,
            EvidenceView::GhostEdge { .. } => kinds.ghosts,
            EvidenceView::Cochange { .. } => kinds.cochange,
            EvidenceView::Transitive { union_dist, head_dist, .. } => kinds.transitive && (head_dist is Some ==> union_dist
                < head_dist.unwrap()),
            EvidenceView::DocDrift { commits_behind, .. } => kinds.doc && commits_behind > 0,
        },
{
    blast::evidence_is_asked_for(snap, ctx, q, depth, kinds);
}

/// The evidence that a file was near says how far it was and by which files it
/// was reached.
pub open spec fn tells_way(snap: &Snapshot, union: bfs::Found, x: Item) -> bool {
    x.1 matches EvidenceView::Transitive { via, union_dist, .. } ==> exists|i: int|
        0 < i < union.nodes.len() && #[trigger] union.nodes[i] == x.0 && union_dist == union.dist[i] && via
            == blast::between(union, i).map_values(|p: FileId| snap.shown(p))
}

proof fn lemma_nears_way(snap: &Snapshot, a: Seq<Item>, union: bfs::Found, live: bfs::Found, n: nat)
    requires
        forall|k: int| 0 <= k < a.len() ==> tells_way(snap, union, #[trigger] a[k]),
        n <= union.nodes.len(),
    ensures
        forall|k: int|
            0 <= k < blast::with_nears(snap, a, union, live, n).len() ==> tells_way(
                snap,
                union,
                #[trigger] blast::with_nears(snap, a, union, live, n)[k],
            ),
    decreases n,
{
    if n > 0 {
        let b = blast::with_nears(snap, a, union, live, (n - 1) as nat);
        lemma_nears_way(snap, a, union, live, (n - 1) as nat);
        let c = blast::with_nears(snap, a, union, live, n);
        assert forall|k: int| 0 <= k < c.len() implies tells_way(snap, union, #[trigger] c[k]) by {
            if k < b.len() {
                assert(c[k] == b[k]);
            } else {
                assert(union.nodes[n - 1] == c[k].0);
            }
        }
    }
}

/// Law: the evidence that a file was near names the files between the two, one
/// less than it is far.
pub proof fn evidence_tells_the_way(
    snap: &Snapshot,
    ctx: &Ctx,
    q: FileId,
    depth: u8,
    kinds: KindFilter,
    union: bfs::Found,
    k: int,
)
    requires
        bfs::searched(
            snap.graph(ctx),
            blast::union_keep(snap.graph(ctx), ctx.params.ghost_min_lifetime_days),
            q,
            depth,
            union,
        ),
        0 <= k < blast::all_evidence(snap, ctx, q, depth, kinds).len(),
    ensures
        tells_way(snap, union, blast::all_evidence(snap, ctx, q, depth, kinds)[k]),
        blast::all_evidence(snap, ctx, q, depth, kinds)[k].1 matches EvidenceView::Transitive { via, union_dist, .. }
            ==> via.len() + 1 == union_dist,
{
    let edges = snap.graph(ctx);
    let keep = blast::union_keep(edges, ctx.params.ghost_min_lifetime_days);
    bfs::search_is_determined(edges, keep, q, depth, union, bfs::search(edges, keep, q, depth));
    let rest = KindFilter {
        live: kinds.live,
        ghosts: kinds.ghosts,
        cochange: kinds.cochange,
        doc: kinds.doc,
        transitive: false,
    };
    let c = of_docs(snap, ctx, q, kinds);
    lemma_edges_filter(snap, ctx, q, kinds, rest, graph::edges_at(edges, q));
    assert(c == blast::all_evidence(snap, ctx, q, depth, rest));
    blast::evidence_is_asked_for(snap, ctx, q, depth, rest);
    assert forall|j: int| 0 <= j < c.len() implies tells_way(snap, union, #[trigger] c[j]) by {
        assert(blast::is_asked_for(rest, c[j].1));
    }
    let live = bfs::search(edges, blast::live_keep(edges), q, blast::LIVE_DEPTH);
    lemma_nears_way(snap, c, union, live, union.nodes.len());
    let x = blast::all_evidence(snap, ctx, q, depth, kinds)[k];
    assert(tells_way(snap, union, x));
    if x.1 is Transitive {
        let i = choose|i: int|
            0 < i < union.nodes.len() && #[trigger] union.nodes[i] == x.0 && x.1->union_dist == union.dist[i] && x.1->via
                == blast::between(union, i).map_values(|p: FileId| snap.shown(p));
        ways_follow_edges(edges, keep, q, depth, union, i);
    }
}

} // verus!
