//! Blast radius: everything that ties other files to the one that is asked
//! about. Evidence is never collapsed into a single score: the reader is
//! deciding what to open, and "severed in 2023, still co-changes" means
//! something a bare number does not.

use crate::bfs::{bfs, Reach};
use crate::bfs;
use crate::graph::{load_graph, Graph};
use crate::graph;
use crate::model::{Direction, EdgeKind, FileId, Resolution};
use crate::order::stable_order;
use crate::order;
use crate::params::Params;
use crate::postings::Postings;
use crate::postings;
use crate::query::{
    commits_behind, query_info, resolve_file, Ctx, KindFilter, QueryError, QueryInfo, Snapshot, SCHEMA_VERSION,
};
use crate::query;
use crate::rows::{CochangeRow, CommitRow, GhostRow};
use crate::text;
use vstd::prelude::*;

pub mod laws;

verus! {

/// One piece of evidence tying two files together, with provenance.
#[derive(Debug, Clone, PartialEq)]
pub enum Evidence {
    StructuralEdge { kind: EdgeKind, alive: bool, resolution: Resolution, direction: Direction },
    GhostEdge {
        kind: EdgeKind,
        severed_at: String,
        severed_date: String,
        lifetime_days: i64,
        cochanges_since: i64,
        /// Where the measurements of the ghost are kept.
        slot: usize,
        severing_subject: String,
        direction: Direction,
    },
    Cochange {
        n: i64,
        /// Where the measurements of the pair are kept, and whether the file
        /// that was asked about is the first of it.
        slot: usize,
        forward: bool,
        last: String,
    },
    Transitive { via: Vec<String>, union_dist: u8, head_dist: Option<u8> },
    DocDrift { doc: String, commits_behind: usize },
}

#[verifier::ext_equal]
pub enum EvidenceView {
    StructuralEdge { kind: EdgeKind, alive: bool, resolution: Resolution, direction: Direction },
    GhostEdge {
        kind: EdgeKind,
        severed_at: Seq<char>,
        severed_date: Seq<char>,
        lifetime_days: i64,
        cochanges_since: i64,
        slot: usize,
        severing_subject: Seq<char>,
        direction: Direction,
    },
    Cochange { n: i64, slot: usize, forward: bool, last: Seq<char> },
    Transitive { via: Seq<Seq<char>>, union_dist: u8, head_dist: Option<u8> },
    DocDrift { doc: Seq<char>, commits_behind: usize },
}

impl View for Evidence {
    type V = EvidenceView;

    open spec fn view(&self) -> EvidenceView {
        match *self {
            Evidence::StructuralEdge { kind, alive, resolution, direction } => EvidenceView::StructuralEdge {
                kind,
                alive,
                resolution,
                direction,
            },
            Evidence::GhostEdge {
                kind,
                severed_at,
                severed_date,
                lifetime_days,
                cochanges_since,
                slot,
                severing_subject,
                direction,
            } => EvidenceView::GhostEdge {
                kind,
                severed_at: severed_at@,
                severed_date: severed_date@,
                lifetime_days,
                cochanges_since,
                slot,
                severing_subject: severing_subject@,
                direction,
            },
            Evidence::Cochange { n, slot, forward, last } => EvidenceView::Cochange { n, slot, forward, last: last@ },
            Evidence::Transitive { via, union_dist, head_dist } => EvidenceView::Transitive {
                via: text::views(via@),
                union_dist,
                head_dist,
            },
            Evidence::DocDrift { doc, commits_behind } => EvidenceView::DocDrift { doc: doc@, commits_behind },
        }
    }
}

/// A file and a piece of evidence that ties it to the one asked about.
pub open spec fn found_views(s: Seq<(FileId, Evidence)>) -> Seq<(FileId, EvidenceView)> {
    s.map_values(|x: (FileId, Evidence)| (x.0, x.1@))
}

/// There is evidence for a file.
pub open spec fn has_evidence(s: Seq<(FileId, EvidenceView)>, f: FileId) -> bool {
    exists|i: int| 0 <= i < s.len() && (#[trigger] s[i]).0 == f
}

// ---- live edges and ghosts ----

pub open spec fn ghost_edges(ghosts: Seq<GhostRow>) -> Seq<i64> {
    ghosts.map_values(|g: GhostRow| g.edge_id)
}

/// The ghost of an edge.
pub open spec fn ghost_of(ghosts: Seq<GhostRow>, edge: i64) -> Option<GhostRow> {
    match postings::last_position(ghost_edges(ghosts), edge) {
        Some(i) => Some(ghosts[i]),
        None => None,
    }
}

/// The evidence of a ghost.
pub open spec fn ghost_evidence(
    commits: Seq<CommitRow>,
    kind: EdgeKind,
    g: GhostRow,
    direction: Direction,
) -> EvidenceView {
    let sever = query::ref_to(commits, g.severed_commit.0);
    EvidenceView::GhostEdge {
        kind,
        severed_at: sever.oid,
        severed_date: sever.date,
        lifetime_days: g.lifetime_days,
        cochanges_since: g.cochanges_since,
        slot: g.slot,
        severing_subject: sever.subject,
        direction,
    }
}

/// Whether an edge leads out of a file or into it.
pub open spec fn direction_at(e: graph::EdgeInfoView, q: FileId) -> Direction {
    if e.row.src == q {
        Direction::Out
    } else {
        Direction::In
    }
}

/// What an edge at the file says: that it is alive, and that it is a ghost.
pub open spec fn edge_evidence(
    commits: Seq<CommitRow>,
    ghosts: Seq<GhostRow>,
    kinds: KindFilter,
    q: FileId,
    e: graph::EdgeInfoView,
) -> Seq<(FileId, EvidenceView)> {
    let other = graph::other_end(e.row, q);
    let direction = direction_at(e, q);
    let live = if e.alive && kinds.live {
        seq![
            (
                other,
                EvidenceView::StructuralEdge {
                    kind: e.row.kind,
                    alive: true,
                    resolution: e.row.resolution,
                    direction,
                },
            ),
        ]
    } else {
        Seq::empty()
    };
    match ghost_of(ghosts, e.row.id) {
        Some(g) => if kinds.ghosts {
            live.push((other, ghost_evidence(commits, e.row.kind, g, direction)))
        } else {
            live
        },
        None => live,
    }
}

/// What the edges at the file say.
pub open spec fn edges_evidence(
    commits: Seq<CommitRow>,
    ghosts: Seq<GhostRow>,
    kinds: KindFilter,
    q: FileId,
    edges: Seq<graph::EdgeInfoView>,
    at: Seq<int>,
) -> Seq<(FileId, EvidenceView)>
    decreases at.len(),
{
    if at.len() == 0 {
        Seq::empty()
    } else {
        edges_evidence(commits, ghosts, kinds, q, edges, at.drop_last()) + edge_evidence(
            commits,
            ghosts,
            kinds,
            q,
            edges[at.last()],
        )
    }
}

// ---- co-change ----

/// The other file of a pair.
pub open spec fn partner(row: CochangeRow, q: FileId) -> FileId {
    if row.a == q {
        row.b
    } else {
        row.a
    }
}

/// A pair that is reportable by itself.
pub open spec fn is_strong(params: Params, row: CochangeRow) -> bool {
    row.n >= params.min_cochange_n && row.lift_reportable
}

/// The evidence with that of a pair. A pair below the gates only adds to other
/// evidence, and a dead partner is not reported for co-change alone.
pub open spec fn with_pair(
    snap: &Snapshot,
    ctx: &Ctx,
    q: FileId,
    so_far: Seq<(FileId, EvidenceView)>,
    row: CochangeRow,
) -> Seq<(FileId, EvidenceView)> {
    let other = partner(row, q);
    if row.a != q && row.b != q {
        so_far
    } else if has_evidence(so_far, other) || (is_strong(ctx.params, row) && snap.alive(other)) {
        so_far.push(
            (
                other,
                EvidenceView::Cochange {
                    n: row.n,
                    slot: row.slot,
                    forward: row.a == q,
                    last: query::ref_to(ctx.commits@, row.last_commit.0).date,
                },
            ),
        )
    } else {
        so_far
    }
}

/// The evidence with that of some pairs.
pub open spec fn with_pairs(
    snap: &Snapshot,
    ctx: &Ctx,
    q: FileId,
    so_far: Seq<(FileId, EvidenceView)>,
    rows: Seq<CochangeRow>,
) -> Seq<(FileId, EvidenceView)>
    decreases rows.len(),
{
    if rows.len() == 0 {
        so_far
    } else {
        with_pair(snap, ctx, q, with_pairs(snap, ctx, q, so_far, rows.drop_last()), rows.last())
    }
}

// ---- docs ----

/// The evidence with that of a document that refers to the file and is behind
/// it.
pub open spec fn with_doc(
    snap: &Snapshot,
    ctx: &Ctx,
    q: FileId,
    so_far: Seq<(FileId, EvidenceView)>,
    e: graph::EdgeInfoView,
) -> Seq<(FileId, EvidenceView)> {
    let doc = e.row.src;
    let n = query::behind(ctx.commits@, snap.touches@, doc, q);
    if e.row.kind == EdgeKind::DocRef && e.alive && n > 0 {
        so_far.push((doc, EvidenceView::DocDrift { doc: snap.shown(doc), commits_behind: n as usize }))
    } else {
        so_far
    }
}

/// The evidence with that of the edges into the file.
pub open spec fn with_docs(
    snap: &Snapshot,
    ctx: &Ctx,
    q: FileId,
    so_far: Seq<(FileId, EvidenceView)>,
    edges: Seq<graph::EdgeInfoView>,
    at: Seq<int>,
) -> Seq<(FileId, EvidenceView)>
    decreases at.len(),
{
    if at.len() == 0 {
        so_far
    } else {
        with_doc(snap, ctx, q, with_docs(snap, ctx, q, so_far, edges, at.drop_last()), edges[at.last()])
    }
}

// ---- transitive ----

/// The edges of the union of all time that lasted: alive, or long-lived.
pub open spec fn union_keep(edges: Seq<graph::EdgeInfoView>, min_life: i64) -> Seq<bool> {
    edges.map_values(|e: graph::EdgeInfoView| e.alive || e.total_lifetime_days >= min_life)
}

/// The edges that are alive.
pub open spec fn live_keep(edges: Seq<graph::EdgeInfoView>) -> Seq<bool> {
    edges.map_values(|e: graph::EdgeInfoView| e.alive)
}

/// The files between the start of a search and its `i`-th file, from the start
/// on.
pub open spec fn between(r: bfs::Found, i: int) -> Seq<FileId>
    decreases i,
{
    let p = r.parent[i] as int;
    if i <= 0 || p <= 0 || p >= i {
        Seq::empty()
    } else {
        between(r, p).push(r.nodes[p])
    }
}

/// How far a file is, where a search found it.
pub open spec fn distance(r: bfs::Found, f: FileId) -> Option<u8> {
    if r.nodes.contains(f) {
        Some(r.dist[r.nodes.index_of(f)])
    } else {
        None
    }
}

/// The evidence with that of the `i`-th file found in the union graph: near
/// there, and far or unreachable over live edges.
pub open spec fn with_near(
    snap: &Snapshot,
    so_far: Seq<(FileId, EvidenceView)>,
    union: bfs::Found,
    live: bfs::Found,
    i: int,
) -> Seq<(FileId, EvidenceView)> {
    let f = union.nodes[i];
    let d = union.dist[i];
    let head = distance(live, f);
    let as_near = match head {
        Some(h) => h <= d,
        None => false,
    };
    if i == 0 || has_evidence(so_far, f) || as_near || !snap.alive(f) {
        so_far
    } else {
        so_far.push(
            (
                f,
                EvidenceView::Transitive {
                    via: between(union, i).map_values(|p: FileId| snap.shown(p)),
                    union_dist: d,
                    head_dist: head,
                },
            ),
        )
    }
}

/// The evidence with that of the first `n` files found in the union graph.
pub open spec fn with_nears(
    snap: &Snapshot,
    so_far: Seq<(FileId, EvidenceView)>,
    union: bfs::Found,
    live: bfs::Found,
    n: nat,
) -> Seq<(FileId, EvidenceView)>
    decreases n,
{
    if n == 0 {
        so_far
    } else {
        with_near(snap, with_nears(snap, so_far, union, live, (n - 1) as nat), union, live, n - 1)
    }
}

// ---- all of it ----

/// How far away live ways are looked for.
pub const LIVE_DEPTH: u8 = 3;

pub struct BlastOptions {
    pub depth: u8,
    pub limit: usize,
    pub kinds: KindFilter,
}

impl Default for BlastOptions {
    fn default() -> (r: Self)
        ensures
            r.depth == 2,
            r.limit == 20,
            r.kinds == (KindFilter { live: true, ghosts: true, cochange: true, doc: true, transitive: true }),
    {
        BlastOptions { depth: 2, limit: 20, kinds: KindFilter::default() }
    }
}

/// Everything that ties other files to `q`, in the order in which it is
/// found.
pub open spec fn all_evidence(snap: &Snapshot, ctx: &Ctx, q: FileId, depth: u8, kinds: KindFilter) -> Seq<
    (FileId, EvidenceView),
> {
    let edges = snap.graph(ctx);
    let a = edges_evidence(ctx.commits@, snap.ghosts@, kinds, q, edges, graph::edges_at(edges, q));
    let b = if kinds.cochange { with_pairs(snap, ctx, q, a, snap.cochange@) } else { a };
    let c = if kinds.doc {
        with_docs(snap, ctx, q, b, edges, postings::positions(graph::targets(edges), q.0))
    } else {
        b
    };
    if kinds.transitive && depth >= 2 {
        let union = bfs::search(edges, union_keep(edges, ctx.params.ghost_min_lifetime_days), q, depth);
        let live = bfs::search(edges, live_keep(edges), q, LIVE_DEPTH);
        with_nears(snap, c, union, live, union.nodes.len())
    } else {
        c
    }
}

/// Evidence of a kind that was asked for, and that tells something: a live
/// edge, a document that is behind, a file that is nearer than at HEAD.
pub open spec fn is_asked_for(kinds: KindFilter, e: EvidenceView) -> bool {
    match e {
        EvidenceView::StructuralEdge { alive, .. } => kinds.live && alive,
        EvidenceView::GhostEdge { .. } => kinds.ghosts,
        EvidenceView::Cochange { .. } => kinds.cochange,
        EvidenceView::Transitive { union_dist, head_dist, .. } => kinds.transitive && (head_dist matches Some(h)
            ==> union_dist < h),
        EvidenceView::DocDrift { commits_behind, .. } => kinds.doc && commits_behind > 0,
    }
}

pub open spec fn all_asked_for(kinds: KindFilter, s: Seq<(FileId, EvidenceView)>) -> bool {
    forall|i: int| 0 <= i < s.len() ==> is_asked_for(kinds, (#[trigger] s[i]).1)
}

proof fn lemma_edges_asked_for(
    commits: Seq<CommitRow>,
    ghosts: Seq<GhostRow>,
    kinds: KindFilter,
    q: FileId,
    edges: Seq<graph::EdgeInfoView>,
    at: Seq<int>,
)
    ensures
        all_asked_for(kinds, edges_evidence(commits, ghosts, kinds, q, edges, at)),
    decreases at.len(),
{
    if at.len() > 0 {
        lemma_edges_asked_for(commits, ghosts, kinds, q, edges, at.drop_last());
        assert(all_asked_for(kinds, edge_evidence(commits, ghosts, kinds, q, edges[at.last()])));
    }
}

proof fn lemma_pairs_asked_for(
    snap: &Snapshot,
    ctx: &Ctx,
    kinds: KindFilter,
    q: FileId,
    so_far: Seq<(FileId, EvidenceView)>,
    rows: Seq<CochangeRow>,
)
    requires
        kinds.cochange,
        all_asked_for(kinds, so_far),
    ensures
        all_asked_for(kinds, with_pairs(snap, ctx, q, so_far, rows)),
    decreases rows.len(),
{
    if rows.len() > 0 {
        lemma_pairs_asked_for(snap, ctx, kinds, q, so_far, rows.drop_last());
    }
}

proof fn lemma_docs_asked_for(
    snap: &Snapshot,
    ctx: &Ctx,
    kinds: KindFilter,
    q: FileId,
    so_far: Seq<(FileId, EvidenceView)>,
    edges: Seq<graph::EdgeInfoView>,
    at: Seq<int>,
)
    requires
        kinds.doc,
        all_asked_for(kinds, so_far),
    ensures
        all_asked_for(kinds, with_docs(snap, ctx, q, so_far, edges, at)),
    decreases at.len(),
{
    if at.len() > 0 {
        lemma_docs_asked_for(snap, ctx, kinds, q, so_far, edges, at.drop_last());
        query::lemma_behind_fits(snap, ctx.commits@, edges[at.last()].row.src, q);
    }
}

proof fn lemma_nears_asked_for(
    snap: &Snapshot,
    kinds: KindFilter,
    so_far: Seq<(FileId, EvidenceView)>,
    union: bfs::Found,
    live: bfs::Found,
    n: nat,
)
    requires
        kinds.transitive,
        all_asked_for(kinds, so_far),
    ensures
        all_asked_for(kinds, with_nears(snap, so_far, union, live, n)),
    decreases n,
{
    if n > 0 {
        lemma_nears_asked_for(snap, kinds, so_far, union, live, (n - 1) as nat);
    }
}

/// Law: only what was asked for is reported. A document is reported only
/// where it is behind, and a file near in the union of all time only where it
/// is farther or out of reach at HEAD.
pub proof fn evidence_is_asked_for(snap: &Snapshot, ctx: &Ctx, q: FileId, depth: u8, kinds: KindFilter)
    ensures
        all_asked_for(kinds, all_evidence(snap, ctx, q, depth, kinds)),
{
    let edges = snap.graph(ctx);
    lemma_edges_asked_for(ctx.commits@, snap.ghosts@, kinds, q, edges, graph::edges_at(edges, q));
    let a = edges_evidence(ctx.commits@, snap.ghosts@, kinds, q, edges, graph::edges_at(edges, q));
    if kinds.cochange {
        lemma_pairs_asked_for(snap, ctx, kinds, q, a, snap.cochange@);
    }
    let b = if kinds.cochange { with_pairs(snap, ctx, q, a, snap.cochange@) } else { a };
    let at = postings::positions(graph::targets(edges), q.0);
    if kinds.doc {
        lemma_docs_asked_for(snap, ctx, kinds, q, b, edges, at);
    }
    let c = if kinds.doc { with_docs(snap, ctx, q, b, edges, at) } else { b };
    if kinds.transitive && depth >= 2 {
        let union = bfs::search(edges, union_keep(edges, ctx.params.ghost_min_lifetime_days), q, depth);
        let live = bfs::search(edges, live_keep(edges), q, LIVE_DEPTH);
        lemma_nears_asked_for(snap, kinds, c, union, live, union.nodes.len());
    }
}

fn evidence_known(s: &Vec<(FileId, Evidence)>, f: FileId) -> (r: bool)
    ensures
        r == has_evidence(found_views(s@), f),
{
    let mut i: usize = 0;
    while i < s.len()
        invariant
            i <= s@.len(),
            forall|k: int| 0 <= k < i ==> (#[trigger] s@[k]).0 != f,
        decreases s@.len() - i,
    {
        if s[i].0 == f {
            assert(found_views(s@)[i as int].0 == f);
            return true;
        }
        i += 1;
    }
    proof {
        if has_evidence(found_views(s@), f) {
            let k = choose|k: int| 0 <= k < found_views(s@).len() && (#[trigger] found_views(s@)[k]).0 == f;
            assert(s@[k].0 == f);
        }
    }
    false
}

proof fn lemma_found_push(s: Seq<(FileId, Evidence)>, x: (FileId, Evidence))
    ensures
        found_views(s.push(x)) == found_views(s).push((x.0, x.1@)),
{
    assert(found_views(s.push(x)) =~= found_views(s).push((x.0, x.1@)));
}

/// Where the ghost of each edge stands.
pub fn ghost_postings(ghosts: &Vec<GhostRow>) -> (r: Postings)
    ensures
        r.wf(),
        r@ == ghost_edges(ghosts@),
{
    let mut keys: Vec<i64> = Vec::new();
    let mut i: usize = 0;
    while i < ghosts.len()
        invariant
            i <= ghosts@.len(),
            keys@.len() == i,
            forall|k: int| 0 <= k < i ==> #[trigger] keys@[k] == ghosts@[k].edge_id,
        decreases ghosts@.len() - i,
    {
        keys.push(ghosts[i].edge_id);
        i += 1;
    }
    assert(keys@ =~= ghost_edges(ghosts@));
    Postings::build(&keys)
}

fn add_edge(
    out: &mut Vec<(FileId, Evidence)>,
    snap: &Snapshot,
    ctx: &Ctx,
    by_edge: &Postings,
    kinds: KindFilter,
    q: FileId,
    e: &graph::EdgeInfo,
)
    requires
        ctx.wf(),
        by_edge.wf(),
        by_edge@ == ghost_edges(snap.ghosts@),
    ensures
        found_views(final(out)@) == found_views(old(out)@) + edge_evidence(ctx.commits@, snap.ghosts@, kinds, q, e@),
{
    let ghost start = found_views(out@);
    let other = if e.row.src == q {
        e.row.dst
    } else {
        e.row.src
    };
    let direction = if e.row.src == q {
        Direction::Out
    } else {
        Direction::In
    };
    if e.alive && kinds.live {
        let ev = Evidence::StructuralEdge { kind: e.row.kind, alive: true, resolution: e.row.resolution, direction };
        proof {
            lemma_found_push(out@, (other, ev));
        }
        out.push((other, ev));
    }
    if kinds.ghosts {
        match by_edge.last(e.row.id) {
            Some(i) => {
                let g = snap.ghosts[i];
                let sever = ctx.commit_ref(g.severed_commit.0);
                let ev = Evidence::GhostEdge {
                    kind: e.row.kind,
                    severed_at: sever.oid,
                    severed_date: sever.date,
                    lifetime_days: g.lifetime_days,
                    cochanges_since: g.cochanges_since,
                    slot: g.slot,
                    severing_subject: sever.subject,
                    direction,
                };
                proof {
                    lemma_found_push(out@, (other, ev));
                }
                out.push((other, ev));
            },
            None => {},
        }
    }
    assert(found_views(out@) =~= start + edge_evidence(ctx.commits@, snap.ghosts@, kinds, q, e@));
}

fn add_edges(out: &mut Vec<(FileId, Evidence)>, snap: &Snapshot, ctx: &Ctx, graph: &Graph, kinds: KindFilter, q: FileId)
    requires
        ctx.wf(),
        graph.wf(),
        old(out)@.len() == 0,
    ensures
        found_views(final(out)@) == edges_evidence(
            ctx.commits@,
            snap.ghosts@,
            kinds,
            q,
            graph@,
            graph::edges_at(graph@, q),
        ),
{
    let by_edge = ghost_postings(&snap.ghosts);
    let at = graph.neighbors(q);
    let ghost s = postings::as_ints(at@);
    let mut i: usize = 0;
    assert(s.take(0) =~= Seq::<int>::empty());
    assert(found_views(out@) =~= Seq::<(FileId, EvidenceView)>::empty());
    while i < at.len()
        invariant
            i <= at@.len(),
            s == postings::as_ints(at@),
            ctx.wf(),
            graph.wf(),
            by_edge.wf(),
            by_edge@ == ghost_edges(snap.ghosts@),
            forall|j: int| 0 <= j < at@.len() ==> #[trigger] at@[j] < graph@.len(),
            found_views(out@) == edges_evidence(ctx.commits@, snap.ghosts@, kinds, q, graph@, s.take(i as int)),
        decreases at@.len() - i,
    {
        assert(s.take(i + 1).drop_last() =~= s.take(i as int));
        assert(s.take(i + 1).last() == at@[i as int]);
        assert(graph@[at@[i as int] as int] == graph.edges@[at@[i as int] as int]@);
        add_edge(out, snap, ctx, &by_edge, kinds, q, &graph.edges[at[i]]);
        i += 1;
    }
    assert(s.take(i as int) =~= s);
}

fn add_pairs(out: &mut Vec<(FileId, Evidence)>, snap: &Snapshot, ctx: &Ctx, q: FileId)
    requires
        snap.wf(),
        ctx.wf(),
    ensures
        found_views(final(out)@) == with_pairs(snap, ctx, q, found_views(old(out)@), snap.cochange@),
{
    let ghost start = found_views(out@);
    let ghost rows = snap.cochange@;
    let mut i: usize = 0;
    assert(rows.take(0) =~= Seq::<CochangeRow>::empty());
    while i < snap.cochange.len()
        invariant
            i <= snap.cochange@.len(),
            rows == snap.cochange@,
            snap.wf(),
            ctx.wf(),
            found_views(out@) == with_pairs(snap, ctx, q, start, rows.take(i as int)),
        decreases snap.cochange@.len() - i,
    {
        assert(rows.take(i + 1).drop_last() =~= rows.take(i as int));
        let row = snap.cochange[i];
        if row.a == q || row.b == q {
            let other = if row.a == q {
                row.b
            } else {
                row.a
            };
            let strong = row.n >= ctx.params.min_cochange_n && row.lift_reportable;
            let already = evidence_known(out, other);
            if already || (strong && snap.files.alive(other)) {
                let last = ctx.commit_ref(row.last_commit.0);
                let ev = Evidence::Cochange { n: row.n, slot: row.slot, forward: row.a == q, last: last.date };
                proof {
                    lemma_found_push(out@, (other, ev));
                }
                out.push((other, ev));
            }
        }
        i += 1;
    }
    assert(rows.take(i as int) =~= rows);
}

fn add_docs(out: &mut Vec<(FileId, Evidence)>, snap: &Snapshot, ctx: &Ctx, graph: &Graph, q: FileId)
    requires
        snap.wf(),
        ctx.wf(),
        graph.wf(),
    ensures
        found_views(final(out)@) == with_docs(
            snap,
            ctx,
            q,
            found_views(old(out)@),
            graph@,
            postings::positions(graph::targets(graph@), q.0),
        ),
{
    let ghost start = found_views(out@);
    let at = graph.into_file(q);
    let ghost s = postings::as_ints(at@);
    let mut i: usize = 0;
    assert(s.take(0) =~= Seq::<int>::empty());
    while i < at.len()
        invariant
            i <= at@.len(),
            s == postings::as_ints(at@),
            snap.wf(),
            ctx.wf(),
            graph.wf(),
            forall|j: int| 0 <= j < at@.len() ==> #[trigger] at@[j] < graph@.len(),
            found_views(out@) == with_docs(snap, ctx, q, start, graph@, s.take(i as int)),
        decreases at@.len() - i,
    {
        assert(s.take(i + 1).drop_last() =~= s.take(i as int));
        assert(s.take(i + 1).last() == at@[i as int]);
        let e = &graph.edges[at[i]];
        assert(graph@[at@[i as int] as int] == e@);
        if e.row.kind == EdgeKind::DocRef && e.alive {
            let doc = e.row.src;
            let n = commits_behind(snap, ctx, doc, q);
            if n > 0 {
                let ev = Evidence::DocDrift { doc: snap.files.display_path(doc), commits_behind: n };
                proof {
                    lemma_found_push(out@, (doc, ev));
                }
                out.push((doc, ev));
            }
        }
        i += 1;
    }
    assert(s.take(i as int) =~= s);
}

/// Which edges are alive or lasted `min_life` days.
pub fn lasting(graph: &Graph, min_life: i64) -> (r: Vec<bool>)
    ensures
        r@ == union_keep(graph@, min_life),
{
    let mut out: Vec<bool> = Vec::new();
    let mut i: usize = 0;
    while i < graph.edges.len()
        invariant
            i <= graph.edges@.len(),
            out@.len() == i,
            forall|k: int|
                0 <= k < i ==> #[trigger] out@[k] == (graph.edges@[k]@.alive || graph.edges@[k]@.total_lifetime_days
                    >= min_life),
        decreases graph.edges@.len() - i,
    {
        let e = &graph.edges[i];
        out.push(e.alive || e.total_lifetime_days >= min_life as i128);
        i += 1;
    }
    assert(out@ =~= union_keep(graph@, min_life));
    out
}

/// Which edges are alive.
pub fn living(graph: &Graph) -> (r: Vec<bool>)
    ensures
        r@ == live_keep(graph@),
{
    let mut out: Vec<bool> = Vec::new();
    let mut i: usize = 0;
    while i < graph.edges.len()
        invariant
            i <= graph.edges@.len(),
            out@.len() == i,
            forall|k: int| 0 <= k < i ==> #[trigger] out@[k] == graph.edges@[k]@.alive,
        decreases graph.edges@.len() - i,
    {
        out.push(graph.edges[i].alive);
        i += 1;
    }
    assert(out@ =~= live_keep(graph@));
    out
}

fn ways(snap: &Snapshot, r: &Reach, i: usize) -> (out: Vec<String>)
    requires
        snap.wf(),
        r.wf(),
        i < r@.nodes.len(),
        forall|k: int| 0 < k < r@.nodes.len() ==> (#[trigger] r@.parent[k]) < k,
        r@.parent[0] == 0,
    ensures
        text::views(out@) == between(r@, i as int).map_values(|p: FileId| snap.shown(p)),
    decreases i,
{
    let ghost f = |p: FileId| snap.shown(p);
    let p = r.parent(i);
    if i == 0 || p == 0 {
        let out: Vec<String> = Vec::new();
        assert(text::views(out@) =~= between(r@, i as int).map_values(f));
        return out;
    }
    assert(r@.parent[i as int] < i);
    let mut out = ways(snap, r, p);
    let path = snap.files.display_path(r.node(p));
    proof {
        text::lemma_views_push(out@, path);
        let b = between(r@, p as int);
        assert(b.push(r@.nodes[p as int]).map_values(f) =~= b.map_values(f).push(path@));
    }
    out.push(path);
    out
}

fn add_nears(out: &mut Vec<(FileId, Evidence)>, snap: &Snapshot, union: &Reach, live: &Reach)
    requires
        snap.wf(),
        union.wf(),
        live.wf(),
        forall|k: int| 0 < k < union@.nodes.len() ==> (#[trigger] union@.parent[k]) < k,
        union@.nodes.len() > 0,
        union@.parent[0] == 0,
        forall|i: int, j: int|
            0 <= i < j < live@.nodes.len() ==> #[trigger] live@.nodes[i] != #[trigger] live@.nodes[j],
    ensures
        found_views(final(out)@) == with_nears(
            snap,
            found_views(old(out)@),
            union@,
            live@,
            union@.nodes.len(),
        ),
{
    let ghost start = found_views(out@);
    let mut i: usize = 0;
    while i < union.len()
        invariant
            i <= union@.nodes.len(),
            snap.wf(),
            union.wf(),
            live.wf(),
            forall|k: int| 0 < k < union@.nodes.len() ==> (#[trigger] union@.parent[k]) < k,
            union@.parent[0] == 0,
            forall|i: int, j: int|
                0 <= i < j < live@.nodes.len() ==> #[trigger] live@.nodes[i] != #[trigger] live@.nodes[j],
            found_views(out@) == with_nears(snap, start, union@, live@, i as nat),
        decreases union@.nodes.len() - i,
    {
        let f = union.node(i);
        let d = union.dist(i);
        let head: Option<u8> = match live.find(f) {
            Some(k) => {
                proof {
                    assert(live@.nodes.contains(f));
                    let m = live@.nodes.index_of(f);
                    if m < k {
                        assert(live@.nodes[m] != live@.nodes[k as int]);
                    } else if k < m {
                        assert(live@.nodes[k as int] != live@.nodes[m]);
                    }
                }
                Some(live.dist(k))
            },
            None => None,
        };
        assert(head == distance(live@, f));
        let as_near = match head {
            Some(h) => h <= d,
            None => false,
        };
        if i != 0 && !evidence_known(out, f) && !as_near && snap.files.alive(f) {
            let via = ways(snap, union, i);
            let ev = Evidence::Transitive { via, union_dist: d, head_dist: head };
            proof {
                lemma_found_push(out@, (f, ev));
            }
            out.push((f, ev));
        }
        i += 1;
    }
}

/// Everything that ties other files to `q`, in the order in which it is
/// found.
pub fn blast_evidence(snap: &Snapshot, ctx: &Ctx, q: FileId, depth: u8, kinds: KindFilter) -> (r: Vec<
    (FileId, Evidence),
>)
    requires
        snap.wf(),
        ctx.wf(),
    ensures
        found_views(r@) == all_evidence(snap, ctx, q, depth, kinds),
{
    let graph = load_graph(&snap.edges, &snap.intervals, &ctx.times);
    let mut out: Vec<(FileId, Evidence)> = Vec::new();
    add_edges(&mut out, snap, ctx, &graph, kinds, q);
    if kinds.cochange {
        add_pairs(&mut out, snap, ctx, q);
    }
    if kinds.doc {
        add_docs(&mut out, snap, ctx, &graph, q);
    }
    if kinds.transitive && depth >= 2 {
        let keep = lasting(&graph, ctx.params.ghost_min_lifetime_days);
        let union = bfs(&graph, q, depth, &keep);
        let alive = living(&graph);
        let live = bfs(&graph, q, LIVE_DEPTH, &alive);
        add_nears(&mut out, snap, &union, &live);
    }
    out
}

// ---- by file ----

/// A file and everything that ties it to the one asked about.
pub struct Candidate {
    pub file_id: FileId,
    pub evidence: Vec<Evidence>,
}

pub open spec fn evidence_views(s: Seq<Evidence>) -> Seq<EvidenceView> {
    s.map_values(|e: Evidence| e@)
}

pub open spec fn candidate_views(s: Seq<Candidate>) -> Seq<(FileId, Seq<EvidenceView>)> {
    s.map_values(|c: Candidate| (c.file_id, evidence_views(c.evidence@)))
}

/// Where a file stands among candidates.
pub open spec fn candidate_at(s: Seq<(FileId, Seq<EvidenceView>)>, f: FileId) -> Option<int>
    decreases s.len(),
{
    if s.len() == 0 {
        None
    } else if s.last().0 == f {
        Some(s.len() - 1)
    } else {
        candidate_at(s.drop_last(), f)
    }
}

/// Evidence gathered by file, in the order in which the files came up.
pub open spec fn gathered(s: Seq<(FileId, EvidenceView)>) -> Seq<(FileId, Seq<EvidenceView>)>
    decreases s.len(),
{
    if s.len() == 0 {
        Seq::empty()
    } else {
        let b = gathered(s.drop_last());
        match candidate_at(b, s.last().0) {
            Some(i) => b.update(i, (b[i].0, b[i].1.push(s.last().1))),
            None => b.push((s.last().0, seq![s.last().1])),
        }
    }
}

/// The evidence for one file, in order.
pub open spec fn evidence_for(s: Seq<(FileId, EvidenceView)>, f: FileId) -> Seq<EvidenceView>
    decreases s.len(),
{
    if s.len() == 0 {
        Seq::empty()
    } else if s.last().0 == f {
        evidence_for(s.drop_last(), f).push(s.last().1)
    } else {
        evidence_for(s.drop_last(), f)
    }
}

pub proof fn lemma_candidate_at(s: Seq<(FileId, Seq<EvidenceView>)>, f: FileId)
    ensures
        match candidate_at(s, f) {
            Some(i) => 0 <= i < s.len() && s[i].0 == f,
            None => forall|i: int| 0 <= i < s.len() ==> (#[trigger] s[i]).0 != f,
        },
    decreases s.len(),
{
    if s.len() > 0 {
        lemma_candidate_at(s.drop_last(), f);
        match candidate_at(s, f) {
            Some(i) => {},
            None => {
                assert forall|i: int| 0 <= i < s.len() implies (#[trigger] s[i]).0 != f by {
                    if i < s.len() - 1 {
                        assert(s.drop_last()[i] == s[i]);
                    }
                }
            },
        }
    }
}

/// Law: gathering keeps every piece of evidence with its file, in order, and
/// gives each file one entry.
pub proof fn gathering_keeps_evidence(s: Seq<(FileId, EvidenceView)>)
    ensures
        forall|i: int|
            0 <= i < gathered(s).len() ==> (#[trigger] gathered(s)[i]).1 == evidence_for(s, gathered(s)[i].0)
                && gathered(s)[i].1.len() > 0,
        forall|i: int, j: int|
            0 <= i < j < gathered(s).len() ==> (#[trigger] gathered(s)[i]).0 != (#[trigger] gathered(s)[j]).0,
        forall|f: FileId| #[trigger] has_evidence(s, f) <==> candidate_at(gathered(s), f) is Some,
    decreases s.len(),
{
    let g = gathered(s);
    if s.len() > 0 {
        let t = s.drop_last();
        let x = s.last();
        gathering_keeps_evidence(t);
        let b = gathered(t);
        lemma_candidate_at(b, x.0);
        assert forall|f: FileId| has_evidence(s, f) <==> has_evidence(t, f) || f == x.0 by {
            if has_evidence(s, f) && f != x.0 {
                let i = choose|i: int| 0 <= i < s.len() && (#[trigger] s[i]).0 == f;
                assert(t[i].0 == f);
            }
            if has_evidence(t, f) {
                let i = choose|i: int| 0 <= i < t.len() && (#[trigger] t[i]).0 == f;
                assert(s[i].0 == f);
            }
            assert(s[s.len() - 1].0 == x.0);
        }
        assert forall|i: int| 0 <= i < g.len() implies (#[trigger] g[i]).1 == evidence_for(s, g[i].0)
            && g[i].1.len() > 0 by {
            if i < b.len() {
                assert(b[i].0 == g[i].0);
                if g[i].0 == x.0 {
                    let k = candidate_at(b, x.0).unwrap();
                    if k < i {
                        assert(b[k].0 != b[i].0);
                    } else if i < k {
                        assert(b[i].0 != b[k].0);
                    }
                }
            } else {
                lemma_no_evidence(t, x.0);
                assert(evidence_for(t, x.0).push(x.1) =~= seq![x.1]);
            }
        }
        assert forall|i: int, j: int| 0 <= i < j < g.len() implies (#[trigger] g[i]).0 != (#[trigger] g[j]).0 by {
            if j < b.len() {
                assert(b[i].0 != b[j].0);
            } else {
                assert(b[i].0 != x.0);
            }
        }
        assert forall|f: FileId| #[trigger] has_evidence(s, f) <==> candidate_at(g, f) is Some by {
            lemma_candidate_at(g, f);
            lemma_candidate_at(b, f);
            if has_evidence(t, f) {
                let k = candidate_at(b, f).unwrap();
                assert(g[k].0 == f);
            }
            if f == x.0 {
                match candidate_at(b, f) {
                    Some(k) => {
                        assert(g[k].0 == f);
                    },
                    None => {
                        assert(g[b.len() as int].0 == f);
                    },
                }
            }
            if candidate_at(g, f) is Some {
                let k = candidate_at(g, f).unwrap();
                if k < b.len() {
                    assert(b[k].0 == f);
                }
            }
        }
    } else {
        assert forall|f: FileId| #[trigger] has_evidence(s, f) <==> candidate_at(g, f) is Some by {}
    }
}

proof fn lemma_no_evidence(s: Seq<(FileId, EvidenceView)>, f: FileId)
    requires
        !has_evidence(s, f),
    ensures
        evidence_for(s, f).len() == 0,
    decreases s.len(),
{
    if s.len() > 0 {
        let t = s.drop_last();
        assert(!has_evidence(t, f)) by {
            if has_evidence(t, f) {
                let i = choose|i: int| 0 <= i < t.len() && (#[trigger] t[i]).0 == f;
                assert(s[i].0 == f);
            }
        }
        lemma_no_evidence(t, f);
        assert(s[s.len() - 1].0 != f);
    }
}

/// Gather evidence by file.
pub fn gather(found: Vec<(FileId, Evidence)>) -> (r: Vec<Candidate>)
    ensures
        candidate_views(r@) == gathered(found_views(found@)),
{
    let ghost s = found_views(found@);
    let mut out: Vec<Candidate> = Vec::new();
    assert(s.take(0) =~= Seq::<(FileId, EvidenceView)>::empty());
    assert(candidate_views(out@) =~= Seq::<(FileId, Seq<EvidenceView>)>::empty());
    for x in it: found
        invariant
            it.seq() == found@,
            s == found_views(found@),
            candidate_views(out@) == gathered(s.take(it.index() as int)),
    {
        let ghost n = it.index() as int;
        let ghost b = candidate_views(out@);
        let ghost o = out@;
        let ghost xv = (x.0, x.1@);
        proof {
            assert(s.take(n + 1).drop_last() =~= s.take(n));
            assert(s.take(n + 1).last() == xv);
        }
        let (f, ev) = x;
        let mut i: usize = out.len();
        assert(b.take(i as int) =~= b);
        while i > 0 && out[i - 1].file_id != f
            invariant
                i <= out@.len(),
                out@ == o,
                b == candidate_views(o),
                candidate_at(b, f) == candidate_at(b.take(i as int), f),
            decreases i,
        {
            assert(b.take(i as int).drop_last() =~= b.take(i - 1));
            assert(b.take(i as int).last().0 == o[i - 1].file_id);
            i -= 1;
        }
        if i > 0 {
            assert(b.take(i as int).last().0 == o[i - 1].file_id);
            let ghost before = out@[i - 1].evidence@;
            out[i - 1].evidence.push(ev);
            proof {
                assert(evidence_views(out@[i - 1].evidence@) =~= evidence_views(before).push(xv.1));
                assert(candidate_views(out@) =~= b.update(i - 1, (b[i - 1].0, b[i - 1].1.push(xv.1))));
            }
        } else {
            let mut one: Vec<Evidence> = Vec::new();
            one.push(ev);
            assert(evidence_views(one@) =~= seq![xv.1]);
            out.push(Candidate { file_id: f, evidence: one });
            assert(candidate_views(out@) =~= b.push((f, seq![xv.1])));
        }
    }
    assert(s.take(s.len() as int) =~= s);
    out
}

/// The files that may be affected by a change to the one that a path names,
/// with everything that ties them to it.
pub fn blast_candidates(snap: &Snapshot, ctx: &Ctx, path: &str, opts: &BlastOptions) -> (r: Result<
    (usize, Vec<Candidate>),
    QueryError,
>)
    requires
        snap.wf(),
        ctx.wf(),
    ensures
        match r {
            Ok((i, cands)) => query::asked_file(snap, path@) == Some(i as int) && i < snap.files.files().len()
                && candidate_views(cands@) == gathered(
                all_evidence(snap, ctx, snap.files.files()[i as int].id, opts.depth, opts.kinds),
            ),
            Err(QueryError::FileNotFound(p)) => query::asked_file(snap, path@) is None && p@ == path@,
            Err(QueryError::Other(_)) => false,
        },
{
    let i = match resolve_file(snap, path) {
        Ok(i) => i,
        Err(e) => {
            return Err(e);
        },
    };
    let q = snap.files.rows()[i].id;
    let found = blast_evidence(snap, ctx, q, opts.depth, opts.kinds);
    Ok((i, gather(found)))
}

// ---- ranked ----

/// What was measured of a candidate: whether its rank reaches the threshold,
/// and the rank in rounded hundredths.
#[derive(Debug, Clone, Copy, PartialEq, Eq, Structural)]
pub struct Rank {
    pub reported: bool,
    pub pct: i64,
}

/// A ranked relationship between the query file and another file.
pub struct Relation {
    pub path: String,
    pub file_id: FileId,
    pub rank_pct: i64,
    pub evidence: Vec<Evidence>,
}

#[verifier::ext_equal]
pub struct RelationView {
    pub path: Seq<char>,
    pub file_id: FileId,
    pub rank_pct: i64,
    pub evidence: Seq<EvidenceView>,
}

impl View for Relation {
    type V = RelationView;

    open spec fn view(&self) -> RelationView {
        RelationView {
            path: self.path@,
            file_id: self.file_id,
            rank_pct: self.rank_pct,
            evidence: evidence_views(self.evidence@),
        }
    }
}

pub open spec fn relation_views(s: Seq<Relation>) -> Seq<RelationView> {
    s.map_values(|x: Relation| x@)
}

pub struct BlastOutput {
    pub schema: i64,
    pub query: QueryInfo,
    pub results: Vec<Relation>,
    pub truncated: bool,
    pub caveats: Vec<String>,
}

/// The indices of the candidates that reach the threshold.
pub open spec fn reported(ranks: Seq<Rank>) -> Seq<int>
    decreases ranks.len(),
{
    if ranks.len() == 0 {
        Seq::empty()
    } else {
        let b = reported(ranks.drop_last());
        if ranks.last().reported {
            b.push(ranks.len() - 1)
        } else {
            b
        }
    }
}

/// The keys by which higher ranks come first.
pub open spec fn rank_keys(ranks: Seq<Rank>, at: Seq<int>) -> Seq<i128> {
    at.map_values(|i: int| (-(ranks[i].pct as int)) as i128)
}

/// The candidates that reach the threshold, by descending rank.
pub open spec fn by_rank(ranks: Seq<Rank>) -> Seq<int> {
    let at = reported(ranks);
    order::order_of(rank_keys(ranks, at)).map_values(|k: int| at[k])
}

/// What is shown of a candidate.
pub open spec fn relation_of(
    snap: &Snapshot,
    cands: Seq<(FileId, Seq<EvidenceView>)>,
    ranks: Seq<Rank>,
    i: int,
) -> RelationView {
    RelationView {
        path: snap.shown(cands[i].0),
        file_id: cands[i].0,
        rank_pct: ranks[i].pct,
        evidence: cands[i].1,
    }
}

/// What a deleted file's result is prefaced with.
pub open spec fn deleted_caveat(path: Seq<char>) -> Seq<char> {
    path + " is deleted at HEAD; results describe its historical neighborhood"@
}

/// A copy of a piece of evidence.
pub fn copy_evidence(e: &Evidence) -> (r: Evidence)
    ensures
        r@ == e@,
{
    match e {
        Evidence::StructuralEdge { kind, alive, resolution, direction } => Evidence::StructuralEdge {
            kind: *kind,
            alive: *alive,
            resolution: *resolution,
            direction: *direction,
        },
        Evidence::GhostEdge {
            kind,
            severed_at,
            severed_date,
            lifetime_days,
            cochanges_since,
            slot,
            severing_subject,
            direction,
        } => Evidence::GhostEdge {
            kind: *kind,
            severed_at: severed_at.clone(),
            severed_date: severed_date.clone(),
            lifetime_days: *lifetime_days,
            cochanges_since: *cochanges_since,
            slot: *slot,
            severing_subject: severing_subject.clone(),
            direction: *direction,
        },
        Evidence::Cochange { n, slot, forward, last } => Evidence::Cochange {
            n: *n,
            slot: *slot,
            forward: *forward,
            last: last.clone(),
        },
        Evidence::Transitive { via, union_dist, head_dist } => Evidence::Transitive {
            via: text::copy_texts(via),
            union_dist: *union_dist,
            head_dist: *head_dist,
        },
        Evidence::DocDrift { doc, commits_behind } => Evidence::DocDrift {
            doc: doc.clone(),
            commits_behind: *commits_behind,
        },
    }
}

fn copy_all(v: &Vec<Evidence>) -> (r: Vec<Evidence>)
    ensures
        evidence_views(r@) == evidence_views(v@),
{
    let mut out: Vec<Evidence> = Vec::new();
    let mut i: usize = 0;
    while i < v.len()
        invariant
            i <= v@.len(),
            out@.len() == i,
            forall|k: int| 0 <= k < i ==> (#[trigger] out@[k])@ == v@[k]@,
        decreases v@.len() - i,
    {
        out.push(copy_evidence(&v[i]));
        i += 1;
    }
    assert(evidence_views(out@) =~= evidence_views(v@));
    out
}

proof fn lemma_reported(ranks: Seq<Rank>)
    ensures
        forall|j: int|
            0 <= j < reported(ranks).len() ==> 0 <= #[trigger] reported(ranks)[j] < ranks.len()
                && ranks[reported(ranks)[j]].reported,
        forall|i: int| 0 <= i < ranks.len() && ranks[i].reported ==> #[trigger] reported(ranks).contains(i),
    decreases ranks.len(),
{
    if ranks.len() > 0 {
        let t = ranks.drop_last();
        lemma_reported(t);
        let b = reported(t);
        let p = reported(ranks);
        assert forall|j: int| 0 <= j < p.len() implies 0 <= #[trigger] p[j] < ranks.len() && ranks[p[j]].reported by {
            if j < b.len() {
                assert(p[j] == b[j]);
                assert(t[b[j]].reported);
            }
        }
        assert forall|i: int| 0 <= i < ranks.len() && ranks[i].reported implies #[trigger] p.contains(i) by {
            if i == ranks.len() - 1 {
                assert(p[p.len() - 1] == i);
            } else {
                assert(t[i].reported);
                assert(b.contains(i));
                let j = b.index_of(i);
                assert(p[j] == i);
            }
        }
    }
}

/// Law: the ranked candidates are exactly those that reach the threshold, none
/// before one of higher rank.
pub proof fn ranking_descends(ranks: Seq<Rank>)
    ensures
        by_rank(ranks).len() == reported(ranks).len(),
        forall|i: int|
            0 <= i < by_rank(ranks).len() ==> 0 <= #[trigger] by_rank(ranks)[i] < ranks.len()
                && ranks[by_rank(ranks)[i]].reported,
        forall|i: int| 0 <= i < ranks.len() && ranks[i].reported ==> #[trigger] by_rank(ranks).contains(i),
        forall|i: int, j: int|
            0 <= i < j < by_rank(ranks).len() ==> ranks[#[trigger] by_rank(ranks)[i]].pct >= ranks[#[trigger] by_rank(
                ranks,
            )[j]].pct,
{
    let at = reported(ranks);
    let keys = rank_keys(ranks, at);
    lemma_reported(ranks);
    order::order_is_stable(keys);
    let o = order::order_of(keys);
    let r = by_rank(ranks);
    assert forall|i: int| 0 <= i < r.len() implies 0 <= #[trigger] r[i] < ranks.len() && ranks[r[i]].reported by {
        assert(0 <= o[i] < keys.len());
        assert(r[i] == at[o[i]]);
    }
    assert forall|i: int| 0 <= i < ranks.len() && ranks[i].reported implies #[trigger] r.contains(i) by {
        assert(at.contains(i));
        let k = at.index_of(i);
        assert(o.contains(k));
        let m = o.index_of(k);
        assert(r[m] == i);
    }
    assert forall|i: int, j: int| 0 <= i < j < r.len() implies ranks[#[trigger] r[i]].pct >= ranks[#[trigger] r[j]].pct by {
        assert(order::before(keys, o[i], o[j]));
        assert(0 <= o[i] < keys.len() && 0 <= o[j] < keys.len());
        assert(keys[o[i]] == (-(ranks[at[o[i]]].pct as int)) as i128);
        assert(keys[o[j]] == (-(ranks[at[o[j]]].pct as int)) as i128);
    }
}

fn ranked_indices(ranks: &Vec<Rank>) -> (r: Vec<usize>)
    ensures
        postings::as_ints(r@) == by_rank(ranks@),
        forall|j: int| 0 <= j < r@.len() ==> #[trigger] r@[j] < ranks@.len(),
{
    let mut at: Vec<usize> = Vec::new();
    let mut keys: Vec<i128> = Vec::new();
    let mut i: usize = 0;
    assert(ranks@.take(0) =~= Seq::<Rank>::empty());
    assert(postings::as_ints(at@) =~= reported(ranks@.take(0)));
    while i < ranks.len()
        invariant
            i <= ranks@.len(),
            at@.len() == keys@.len(),
            postings::as_ints(at@) == reported(ranks@.take(i as int)),
            forall|j: int| 0 <= j < at@.len() ==> #[trigger] at@[j] < i,
            forall|j: int| 0 <= j < keys@.len() ==> #[trigger] keys@[j] == -(ranks@[at@[j] as int].pct as int),
        decreases ranks@.len() - i,
    {
        assert(ranks@.take(i + 1).drop_last() =~= ranks@.take(i as int));
        if ranks[i].reported {
            let ghost before = at@;
            at.push(i);
            keys.push(-(ranks[i].pct as i128));
            assert(postings::as_ints(at@) =~= postings::as_ints(before).push(i as int));
        }
        i += 1;
    }
    assert(ranks@.take(i as int) =~= ranks@);
    proof {
        let a = postings::as_ints(at@);
        assert forall|j: int| 0 <= j < keys@.len() implies keys@[j] == rank_keys(ranks@, a)[j] by {
            assert(a[j] == at@[j]);
        }
        assert(keys@ =~= rank_keys(ranks@, a));
    }
    let order = stable_order(&keys);
    let mut out: Vec<usize> = Vec::new();
    let mut k: usize = 0;
    while k < order.len()
        invariant
            k <= order@.len(),
            at@.len() == keys@.len(),
            forall|j: int| 0 <= j < order@.len() ==> #[trigger] order@[j] < keys@.len(),
            forall|j: int| 0 <= j < at@.len() ==> #[trigger] at@[j] < ranks@.len(),
            out@.len() == k,
            forall|j: int| 0 <= j < k ==> #[trigger] out@[j] == at@[order@[j] as int],
        decreases order@.len() - k,
    {
        out.push(at[order[k]]);
        k += 1;
    }
    proof {
        let a = postings::as_ints(at@);
        let o = postings::as_ints(order@);
        assert forall|j: int| 0 <= j < out@.len() implies postings::as_ints(out@)[j] == by_rank(ranks@)[j] by {
            assert(o[j] == order@[j]);
            assert(a[order@[j] as int] == at@[order@[j] as int]);
        }
        assert(o.len() == order@.len());
        assert(postings::as_ints(out@) =~= by_rank(ranks@));
    }
    out
}

/// Ranked "what else is affected if I change this file", out of the candidates
/// and what was measured of them.
pub fn blast(snap: &Snapshot, file: usize, cands: &Vec<Candidate>, ranks: &Vec<Rank>, limit: usize) -> (r: BlastOutput)
    requires
        snap.wf(),
        file < snap.files.files().len(),
        ranks@.len() == cands@.len(),
    ensures
        r.schema == SCHEMA_VERSION,
        r.query@ == query::about(snap, snap.files.files()[file as int].id),
        r.truncated == (by_rank(ranks@).len() > limit),
        relation_views(r.results@) == crate::rows::at_most(by_rank(ranks@), limit as int).map_values(
            |i: int| relation_of(snap, candidate_views(cands@), ranks@, i),
        ),
        text::views(r.caveats@) == (if snap.files.files()[file as int].current_path is None {
            seq![deleted_caveat(snap.shown(snap.files.files()[file as int].id))]
        } else {
            Seq::empty()
        }),
{
    let row = &snap.files.rows()[file];
    let mut caveats: Vec<String> = Vec::new();
    if row.current_path.is_none() {
        let path = snap.files.display_path(row.id);
        caveats.push(
            text::cat2(path.as_str(), " is deleted at HEAD; results describe its historical neighborhood"),
        );
    }
    assert(text::views(caveats@) =~= (if row.current_path is None {
        seq![deleted_caveat(snap.shown(row.id))]
    } else {
        Seq::empty()
    }));
    let order = ranked_indices(ranks);
    let truncated = order.len() > limit;
    let n: usize = if truncated {
        limit
    } else {
        order.len()
    };
    let ghost o = by_rank(ranks@);
    let ghost f = |i: int| relation_of(snap, candidate_views(cands@), ranks@, i);
    let mut results: Vec<Relation> = Vec::new();
    let mut k: usize = 0;
    while k < n
        invariant
            k <= n <= order@.len(),
            snap.wf(),
            ranks@.len() == cands@.len(),
            forall|j: int| 0 <= j < order@.len() ==> #[trigger] order@[j] < ranks@.len(),
            results@.len() == k,
            forall|j: int|
                0 <= j < k ==> (#[trigger] results@[j])@ == relation_of(
                    snap,
                    candidate_views(cands@),
                    ranks@,
                    order@[j] as int,
                ),
        decreases n - k,
    {
        let i = order[k];
        let c = &cands[i];
        assert(candidate_views(cands@)[i as int] == (c.file_id, evidence_views(c.evidence@)));
        let rel = Relation {
            path: snap.files.display_path(c.file_id),
            file_id: c.file_id,
            rank_pct: ranks[i].pct,
            evidence: copy_all(&c.evidence),
        };
        assert(rel@ =~= relation_of(snap, candidate_views(cands@), ranks@, i as int));
        results.push(rel);
        k += 1;
    }
    proof {
        let m = crate::rows::at_most(o, limit as int);
        assert(postings::as_ints(order@) == o);
        assert(o.len() == order@.len());
        assert forall|j: int| 0 <= j < results@.len() implies relation_views(results@)[j] == m.map_values(f)[j] by {
            assert(o[j] == order@[j]);
            assert(m[j] == o[j]);
            assert(results@[j]@ == relation_of(snap, candidate_views(cands@), ranks@, order@[j] as int));
        }
        assert(relation_views(results@) =~= m.map_values(f));
    }
    BlastOutput { schema: SCHEMA_VERSION, query: query_info(snap, row.id), results, truncated, caveats }
}

} // verus!
