//! The full evidence chain between two files: every edge there ever was
//! between them, when it lived, what severed it, and how they change together.

use crate::bfs;
use crate::blast;
use crate::graph::{load_graph, EdgeInfo};
use crate::graph;
use crate::listing::{describe_pair, CochangeEntry, CochangeEntryView};
use crate::listing;
use crate::model::FileId;
use crate::postings::Postings;
use crate::query::{
    empty, resolve_file, text_or_empty, CommitRef, CommitRefView, Ctx, QueryError, Snapshot, SCHEMA_VERSION,
};
use crate::query;
use crate::rows::{CochangeRow, GhostRow};
use crate::text;
use vstd::prelude::*;

pub mod laws;

verus! {

pub struct WhyInterval {
    pub born: CommitRef,
    pub died: Option<CommitRef>,
}

#[verifier::ext_equal]
pub struct WhyIntervalView {
    pub born: CommitRefView,
    pub died: Option<CommitRefView>,
}

impl View for WhyInterval {
    type V = WhyIntervalView;

    open spec fn view(&self) -> WhyIntervalView {
        WhyIntervalView { born: self.born@, died: query::opt_ref(self.died) }
    }
}

pub struct WhyGhost {
    pub severed_at: CommitRef,
    pub severing_author: String,
    pub severing_body: String,
    pub lifetime_days: i64,
    pub cochanges_since: i64,
    /// In hundredths.
    pub confidence_pct: i64,
    pub score_pct: i64,
}

#[verifier::ext_equal]
pub struct WhyGhostView {
    pub severed_at: CommitRefView,
    pub severing_author: Seq<char>,
    pub severing_body: Seq<char>,
    pub lifetime_days: i64,
    pub cochanges_since: i64,
    pub confidence_pct: i64,
    pub score_pct: i64,
}

impl View for WhyGhost {
    type V = WhyGhostView;

    open spec fn view(&self) -> WhyGhostView {
        WhyGhostView {
            severed_at: self.severed_at@,
            severing_author: self.severing_author@,
            severing_body: self.severing_body@,
            lifetime_days: self.lifetime_days,
            cochanges_since: self.cochanges_since,
            confidence_pct: self.confidence_pct,
            score_pct: self.score_pct,
        }
    }
}

pub struct WhyEdge {
    pub from: String,
    pub to: String,
    pub kind: &'static str,
    pub resolution: &'static str,
    pub alive: bool,
    pub intervals: Vec<WhyInterval>,
    pub severed: Option<WhyGhost>,
}

#[verifier::ext_equal]
pub struct WhyEdgeView {
    pub from: Seq<char>,
    pub to: Seq<char>,
    pub kind: Seq<char>,
    pub resolution: Seq<char>,
    pub alive: bool,
    pub intervals: Seq<WhyIntervalView>,
    pub severed: Option<WhyGhostView>,
}

pub open spec fn opt_ghost(g: Option<WhyGhost>) -> Option<WhyGhostView> {
    match g {
        Some(g) => Some(g@),
        None => None,
    }
}

pub open spec fn opt_entry(e: Option<CochangeEntry>) -> Option<CochangeEntryView> {
    match e {
        Some(e) => Some(e@),
        None => None,
    }
}

impl View for WhyEdge {
    type V = WhyEdgeView;

    open spec fn view(&self) -> WhyEdgeView {
        WhyEdgeView {
            from: self.from@,
            to: self.to@,
            kind: self.kind@,
            resolution: self.resolution@,
            alive: self.alive,
            intervals: self.intervals@.map_values(|i: WhyInterval| i@),
            severed: opt_ghost(self.severed),
        }
    }
}

pub struct WhyOutput {
    pub schema: i64,
    pub a: String,
    pub b: String,
    pub edges: Vec<WhyEdge>,
    pub cochange: Option<CochangeEntry>,
    pub caveats: Vec<String>,
}

/// When an edge lived.
pub open spec fn interval_view(ctx: &Ctx, s: (i64, Option<i64>)) -> WhyIntervalView {
    WhyIntervalView {
        born: query::ref_to(ctx.commits@, s.0),
        died: match s.1 {
            Some(d) => Some(query::ref_to(ctx.commits@, d)),
            None => None,
        },
    }
}

/// What severed an edge, with the author and the message of the commit.
pub open spec fn ghost_view(ctx: &Ctx, g: GhostRow) -> WhyGhostView {
    let at = query::commit_at(ctx.commits@, g.severed_commit.0);
    WhyGhostView {
        severed_at: query::ref_to(ctx.commits@, g.severed_commit.0),
        severing_author: match at {
            Some(i) => query::or_empty(ctx.commits@[i].author),
            None => Seq::empty(),
        },
        severing_body: match at {
            Some(i) => query::or_empty(ctx.commits@[i].body),
            None => Seq::empty(),
        },
        lifetime_days: g.lifetime_days,
        cochanges_since: g.cochanges_since,
        confidence_pct: g.conf_pct,
        score_pct: g.score_pct,
    }
}

/// What is shown of an edge between the files.
pub open spec fn edge_view(snap: &Snapshot, ctx: &Ctx, e: graph::EdgeInfoView) -> WhyEdgeView {
    WhyEdgeView {
        from: snap.shown(e.row.src),
        to: snap.shown(e.row.dst),
        kind: e.row.kind.name(),
        resolution: e.row.resolution.name(),
        alive: e.alive,
        intervals: e.intervals.map_values(|s: (i64, Option<i64>)| interval_view(ctx, s)),
        severed: match blast::ghost_of(snap.ghosts@, e.row.id) {
            Some(g) => Some(ghost_view(ctx, g)),
            None => None,
        },
    }
}

/// The edges between two files, in the order of the index.
pub open spec fn edges_between(snap: &Snapshot, ctx: &Ctx, a: FileId, b: FileId) -> Seq<WhyEdgeView> {
    snap.graph(ctx).filter(|e: graph::EdgeInfoView| bfs::joins(e.row, a, b)).map_values(
        |e: graph::EdgeInfoView| edge_view(snap, ctx, e),
    )
}

/// The pair that two files make, lower id first.
pub open spec fn pair_of(rows: Seq<CochangeRow>, a: FileId, b: FileId) -> Option<CochangeRow>
    decreases rows.len(),
{
    let lo = if a.0 <= b.0 { a } else { b };
    let hi = if a.0 <= b.0 { b } else { a };
    if rows.len() == 0 {
        None
    } else if rows.last().a == lo && rows.last().b == hi {
        Some(rows.last())
    } else {
        pair_of(rows.drop_last(), a, b)
    }
}

/// How two files change together, seen from the first.
pub open spec fn coupling(snap: &Snapshot, ctx: &Ctx, a: FileId, b: FileId) -> Option<CochangeEntryView> {
    match pair_of(snap.cochange@, a, b) {
        Some(row) => Some(
            listing::pair_view(snap, ctx, a, b, edges_between(snap, ctx, a, b).len() > 0, row),
        ),
        None => None,
    }
}

pub open spec fn why_edges(s: Seq<WhyEdge>) -> Seq<WhyEdgeView> {
    s.map_values(|e: WhyEdge| e@)
}

fn describe_intervals(ctx: &Ctx, spans: &Vec<(i64, Option<i64>)>) -> (r: Vec<WhyInterval>)
    requires
        ctx.wf(),
    ensures
        r@.map_values(|i: WhyInterval| i@) == spans@.map_values(|s: (i64, Option<i64>)| interval_view(ctx, s)),
{
    let mut out: Vec<WhyInterval> = Vec::new();
    let mut i: usize = 0;
    while i < spans.len()
        invariant
            i <= spans@.len(),
            ctx.wf(),
            out@.len() == i,
            forall|k: int| 0 <= k < i ==> (#[trigger] out@[k])@ == interval_view(ctx, spans@[k]),
        decreases spans@.len() - i,
    {
        let (born, died) = spans[i];
        out.push(WhyInterval { born: ctx.commit_ref(born), died: ctx.opt_commit_ref(died) });
        i += 1;
    }
    assert(out@.map_values(|i: WhyInterval| i@) =~= spans@.map_values(
        |s: (i64, Option<i64>)| interval_view(ctx, s),
    ));
    out
}

fn describe_ghost(ctx: &Ctx, g: GhostRow) -> (r: WhyGhost)
    requires
        ctx.wf(),
    ensures
        r@ == ghost_view(ctx, g),
{
    let (author, body) = match ctx.commit_by_id(g.severed_commit.0) {
        Some(i) => (text_or_empty(&ctx.commits[i].author), text_or_empty(&ctx.commits[i].body)),
        None => (empty(), empty()),
    };
    WhyGhost {
        severed_at: ctx.commit_ref(g.severed_commit.0),
        severing_author: author,
        severing_body: body,
        lifetime_days: g.lifetime_days,
        cochanges_since: g.cochanges_since,
        confidence_pct: g.conf_pct,
        score_pct: g.score_pct,
    }
}

fn describe_edge(snap: &Snapshot, ctx: &Ctx, by_edge: &Postings, e: &EdgeInfo) -> (r: WhyEdge)
    requires
        snap.wf(),
        ctx.wf(),
        by_edge.wf(),
        by_edge@ == blast::ghost_edges(snap.ghosts@),
    ensures
        r@ == edge_view(snap, ctx, e@),
{
    let severed = match by_edge.last(e.row.id) {
        Some(i) => Some(describe_ghost(ctx, snap.ghosts[i])),
        None => None,
    };
    let r = WhyEdge {
        from: snap.files.display_path(e.row.src),
        to: snap.files.display_path(e.row.dst),
        kind: e.row.kind.as_str(),
        resolution: e.row.resolution.as_str(),
        alive: e.alive,
        intervals: describe_intervals(ctx, &e.intervals),
        severed,
    };
    assert(r@ =~= edge_view(snap, ctx, e@));
    r
}

fn find_pair(rows: &Vec<CochangeRow>, a: FileId, b: FileId) -> (r: Option<CochangeRow>)
    ensures
        r == pair_of(rows@, a, b),
{
    let lo = if a.0 <= b.0 {
        a
    } else {
        b
    };
    let hi = if a.0 <= b.0 {
        b
    } else {
        a
    };
    let mut i: usize = rows.len();
    assert(rows@.take(i as int) =~= rows@);
    while i > 0
        invariant
            i <= rows@.len(),
            lo == (if a.0 <= b.0 { a } else { b }),
            hi == (if a.0 <= b.0 { b } else { a }),
            pair_of(rows@, a, b) == pair_of(rows@.take(i as int), a, b),
        decreases i,
    {
        assert(rows@.take(i as int).drop_last() =~= rows@.take(i - 1));
        let row = rows[i - 1];
        if row.a == lo && row.b == hi {
            return Some(row);
        }
        i -= 1;
    }
    None
}

fn list_edges(snap: &Snapshot, ctx: &Ctx, a: FileId, b: FileId) -> (r: Vec<WhyEdge>)
    requires
        snap.wf(),
        ctx.wf(),
    ensures
        why_edges(r@) == edges_between(snap, ctx, a, b),
{
    let graph = load_graph(&snap.edges, &snap.intervals, &ctx.times);
    let by_edge = blast::ghost_postings(&snap.ghosts);
    let ghost keep = |e: graph::EdgeInfoView| bfs::joins(e.row, a, b);
    let ghost show = |e: graph::EdgeInfoView| edge_view(snap, ctx, e);
    let ghost s = graph@;
    let mut out: Vec<WhyEdge> = Vec::new();
    let mut i: usize = 0;
    proof {
        reveal(Seq::filter);
        assert(s.take(0) =~= Seq::<graph::EdgeInfoView>::empty());
        assert(why_edges(out@) =~= s.take(0).filter(keep).map_values(show));
    }
    while i < graph.edges.len()
        invariant
            i <= graph.edges@.len(),
            s == graph@,
            keep == (|e: graph::EdgeInfoView| bfs::joins(e.row, a, b)),
            show == (|e: graph::EdgeInfoView| edge_view(snap, ctx, e)),
            snap.wf(),
            ctx.wf(),
            by_edge.wf(),
            by_edge@ == blast::ghost_edges(snap.ghosts@),
            why_edges(out@) == s.take(i as int).filter(keep).map_values(show),
        decreases graph.edges@.len() - i,
    {
        proof {
            reveal(Seq::filter);
            assert(s.take(i + 1).drop_last() =~= s.take(i as int));
            assert(s[i as int] == graph.edges@[i as int]@);
        }
        let e = &graph.edges[i];
        if (e.row.src == a && e.row.dst == b) || (e.row.src == b && e.row.dst == a) {
            let shown = describe_edge(snap, ctx, &by_edge, e);
            let ghost before = out@;
            out.push(shown);
            proof {
                let f = s.take(i as int).filter(keep);
                assert(why_edges(out@) =~= why_edges(before).push(shown@));
                assert(f.push(s[i as int]).map_values(show) =~= f.map_values(show).push(shown@));
            }
        }
        i += 1;
    }
    assert(s.take(i as int) =~= s);
    out
}

/// What a result without any relationship says.
pub open spec fn nothing_known() -> Seq<char> {
    "no recorded relationship between these files"@
}

/// The full evidence chain between two files.
pub fn why(snap: &Snapshot, ctx: &Ctx, a: &str, b: &str) -> (r: Result<WhyOutput, QueryError>)
    requires
        snap.wf(),
        ctx.wf(),
    ensures
        match r {
            Ok(out) => ({
                let fa = snap.files.files()[query::asked_file(snap, a@).unwrap()].id;
                let fb = snap.files.files()[query::asked_file(snap, b@).unwrap()].id;
                &&& query::asked_file(snap, a@) is Some
                &&& query::asked_file(snap, b@) is Some
                &&& out.schema == SCHEMA_VERSION
                &&& out.a@ == snap.shown(fa)
                &&& out.b@ == snap.shown(fb)
                &&& why_edges(out.edges@) == edges_between(snap, ctx, fa, fb)
                &&& opt_entry(out.cochange) == coupling(snap, ctx, fa, fb)
                &&& text::views(out.caveats@) == (if edges_between(snap, ctx, fa, fb).len() == 0 && coupling(
                    snap,
                    ctx,
                    fa,
                    fb,
                ) is None {
                    seq![nothing_known()]
                } else {
                    Seq::empty()
                })
            }),
            Err(QueryError::FileNotFound(p)) => (query::asked_file(snap, a@) is None && p@ == a@) || (
            query::asked_file(snap, a@) is Some && query::asked_file(snap, b@) is None && p@ == b@),
            Err(QueryError::Other(_)) => false,
        },
{
    let fa = match resolve_file(snap, a) {
        Ok(i) => snap.files.rows()[i].id,
        Err(e) => {
            return Err(e);
        },
    };
    let fb = match resolve_file(snap, b) {
        Ok(i) => snap.files.rows()[i].id,
        Err(e) => {
            return Err(e);
        },
    };
    let edges = list_edges(snap, ctx, fa, fb);
    assert(why_edges(edges@).len() == edges@.len());
    let cochange = match find_pair(&snap.cochange, fa, fb) {
        Some(row) => Some(describe_pair(snap, ctx, fa, fb, edges.len() > 0, row)),
        None => None,
    };
    let mut caveats: Vec<String> = Vec::new();
    if edges.len() == 0 && cochange.is_none() {
        caveats.push("no recorded relationship between these files".to_owned());
    }
    assert(text::views(caveats@) =~= (if edges@.len() == 0 && cochange is None {
        seq![nothing_known()]
    } else {
        Seq::empty()
    }));
    Ok(
        WhyOutput {
            schema: SCHEMA_VERSION,
            a: snap.files.display_path(fa),
            b: snap.files.display_path(fb),
            edges,
            cochange,
            caveats,
        },
    )
}

} // verus!
