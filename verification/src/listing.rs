//! Listings: ghost edges, evolutionary coupling, drifted docs, and commits
//! found by their messages.

use crate::bfs;
use crate::blast;
use crate::graph::load_graph;
use crate::graph;
use crate::model::{CommitId, EdgeKind, FileId};
use crate::order::stable_order;
use crate::order;
use crate::postings::Postings;
use crate::postings;
use crate::query::{
    commits_behind, empty, query_info, resolve_file, CommitRef, CommitRefView, Ctx, QueryError, QueryInfo, Snapshot,
    SCHEMA_VERSION,
};
use crate::query;
use crate::rows::{CochangeRow, EdgeRow, GhostRow};
use crate::rows;
use vstd::prelude::*;

pub mod laws;

verus! {

// ---- ghosts ----

pub struct GhostEntry {
    pub from: String,
    pub to: String,
    pub kind: &'static str,
    pub severed_at: CommitRef,
    pub lifetime_days: i64,
    pub cochanges_since: i64,
    /// In hundredths.
    pub confidence_pct: i64,
    pub score_pct: i64,
}

#[verifier::ext_equal]
pub struct GhostEntryView {
    pub from: Seq<char>,
    pub to: Seq<char>,
    pub kind: Seq<char>,
    pub severed_at: CommitRefView,
    pub lifetime_days: i64,
    pub cochanges_since: i64,
    pub confidence_pct: i64,
    pub score_pct: i64,
}

impl View for GhostEntry {
    type V = GhostEntryView;

    open spec fn view(&self) -> GhostEntryView {
        GhostEntryView {
            from: self.from@,
            to: self.to@,
            kind: self.kind@,
            severed_at: self.severed_at@,
            lifetime_days: self.lifetime_days,
            cochanges_since: self.cochanges_since,
            confidence_pct: self.confidence_pct,
            score_pct: self.score_pct,
        }
    }
}

pub struct GhostsOutput {
    pub schema: i64,
    pub results: Vec<GhostEntry>,
    pub truncated: bool,
}

pub open spec fn edge_ids(edges: Seq<EdgeRow>) -> Seq<i64> {
    edges.map_values(|e: EdgeRow| e.id)
}

/// The edge with an id.
pub open spec fn edge_with(edges: Seq<EdgeRow>, id: i64) -> Option<EdgeRow> {
    match postings::last_position(edge_ids(edges), id) {
        Some(i) => Some(edges[i]),
        None => None,
    }
}

/// What is listed of a ghost, where its edge is known and has the file that is
/// asked for at an end.
pub open spec fn ghost_entry(snap: &Snapshot, ctx: &Ctx, only: Option<FileId>, g: GhostRow) -> Option<GhostEntryView> {
    match edge_with(snap.edges@, g.edge_id) {
        None => None,
        Some(e) => {
            let wanted = match only {
                Some(f) => e.src == f || e.dst == f,
                None => true,
            };
            if wanted {
                Some(
                    GhostEntryView {
                        from: snap.shown(e.src),
                        to: snap.shown(e.dst),
                        kind: e.kind.name(),
                        severed_at: query::ref_to(ctx.commits@, g.severed_commit.0),
                        lifetime_days: g.lifetime_days,
                        cochanges_since: g.cochanges_since,
                        confidence_pct: g.conf_pct,
                        score_pct: g.score_pct,
                    },
                )
            } else {
                None
            }
        },
    }
}

/// The ghosts that are listed.
pub open spec fn ghost_entries(snap: &Snapshot, ctx: &Ctx, only: Option<FileId>) -> Seq<GhostEntryView> {
    snap.ghosts@.filter_map(|g: GhostRow| ghost_entry(snap, ctx, only, g))
}

pub open spec fn ghost_entry_views(s: Seq<GhostEntry>) -> Seq<GhostEntryView> {
    s.map_values(|e: GhostEntry| e@)
}

/// Where the edge with each id stands.
pub fn edge_postings(edges: &Vec<EdgeRow>) -> (r: Postings)
    ensures
        r.wf(),
        r@ == edge_ids(edges@),
{
    let mut keys: Vec<i64> = Vec::new();
    let mut i: usize = 0;
    while i < edges.len()
        invariant
            i <= edges@.len(),
            keys@.len() == i,
            forall|k: int| 0 <= k < i ==> #[trigger] keys@[k] == edges@[k].id,
        decreases edges@.len() - i,
    {
        keys.push(edges[i].id);
        i += 1;
    }
    assert(keys@ =~= edge_ids(edges@));
    Postings::build(&keys)
}

fn describe_ghost(snap: &Snapshot, ctx: &Ctx, by_id: &Postings, only: Option<FileId>, g: GhostRow) -> (r: Option<
    GhostEntry,
>)
    requires
        snap.wf(),
        ctx.wf(),
        by_id.wf(),
        by_id@ == edge_ids(snap.edges@),
    ensures
        match r {
            Some(e) => ghost_entry(snap, ctx, only, g) == Some(e@),
            None => ghost_entry(snap, ctx, only, g) is None,
        },
{
    let e = match by_id.last(g.edge_id) {
        Some(i) => snap.edges[i],
        None => {
            return None;
        },
    };
    match only {
        Some(f) => {
            if e.src != f && e.dst != f {
                return None;
            }
        },
        None => {},
    }
    Some(
        GhostEntry {
            from: snap.files.display_path(e.src),
            to: snap.files.display_path(e.dst),
            kind: e.kind.as_str(),
            severed_at: ctx.commit_ref(g.severed_commit.0),
            lifetime_days: g.lifetime_days,
            cochanges_since: g.cochanges_since,
            confidence_pct: g.conf_pct,
            score_pct: g.score_pct,
        },
    )
}

fn list_ghosts(snap: &Snapshot, ctx: &Ctx, only: Option<FileId>, limit: usize) -> (r: GhostsOutput)
    requires
        snap.wf(),
        ctx.wf(),
    ensures
        r.schema == SCHEMA_VERSION,
        ghost_entry_views(r.results@) == rows::at_most(ghost_entries(snap, ctx, only), limit as int),
        r.truncated == (ghost_entries(snap, ctx, only).len() > limit),
{
    let by_id = edge_postings(&snap.edges);
    let ghost f = |g: GhostRow| ghost_entry(snap, ctx, only, g);
    let ghost s = snap.ghosts@;
    let mut results: Vec<GhostEntry> = Vec::new();
    let mut i: usize = 0;
    proof {
        reveal(Seq::filter_map);
        assert(s.take(0) =~= Seq::<GhostRow>::empty());
        assert(ghost_entry_views(results@) =~= s.take(0).filter_map(f));
    }
    while i < snap.ghosts.len()
        invariant
            i <= snap.ghosts@.len(),
            s == snap.ghosts@,
            f == (|g: GhostRow| ghost_entry(snap, ctx, only, g)),
            snap.wf(),
            ctx.wf(),
            by_id.wf(),
            by_id@ == edge_ids(snap.edges@),
            ghost_entry_views(results@) == s.take(i as int).filter_map(f),
        decreases snap.ghosts@.len() - i,
    {
        proof {
            s.lemma_filter_map_take_succ(f, i as int);
        }
        match describe_ghost(snap, ctx, &by_id, only, snap.ghosts[i]) {
            Some(e) => {
                let ghost before = results@;
                results.push(e);
                assert(ghost_entry_views(results@) =~= ghost_entry_views(before).push(e@));
            },
            None => {},
        }
        i += 1;
    }
    assert(s.take(i as int) =~= s);
    let truncated = results.len() > limit;
    let ghost all = results@;
    results.truncate(limit);
    assert(ghost_entry_views(results@) =~= rows::at_most(ghost_entry_views(all), limit as int));
    GhostsOutput { schema: SCHEMA_VERSION, results, truncated }
}

/// Ghost edges, all or those of one file, by descending score.
pub fn ghosts_list(snap: &Snapshot, ctx: &Ctx, file: Option<&str>, limit: usize) -> (r: Result<GhostsOutput, QueryError>)
    requires
        snap.wf(),
        ctx.wf(),
    ensures
        match r {
            Ok(out) => ({
                let only = match file {
                    Some(p) => Some(snap.files.files()[query::asked_file(snap, p@).unwrap()].id),
                    None => None,
                };
                &&& file matches Some(p) ==> query::asked_file(snap, p@) is Some
                &&& out.schema == SCHEMA_VERSION
                &&& ghost_entry_views(out.results@) == rows::at_most(ghost_entries(snap, ctx, only), limit as int)
                &&& out.truncated == (ghost_entries(snap, ctx, only).len() > limit)
            }),
            Err(QueryError::FileNotFound(p)) => file matches Some(q) && query::asked_file(snap, q@) is None && p@
                == q@,
            Err(QueryError::Other(_)) => false,
        },
{
    let only = match file {
        Some(p) => match resolve_file(snap, p) {
            Ok(i) => Some(snap.files.rows()[i].id),
            Err(e) => {
                return Err(e);
            },
        },
        None => None,
    };
    Ok(list_ghosts(snap, ctx, only, limit))
}

// ---- co-change ----

pub struct CochangeEntry {
    pub path: String,
    pub n: i64,
    /// In hundredths.
    pub confidence_pct: i64,
    /// In tenths.
    pub lift_tenths: i64,
    pub first: String,
    pub last: String,
    pub structural_edge: bool,
}

#[verifier::ext_equal]
pub struct CochangeEntryView {
    pub path: Seq<char>,
    pub n: i64,
    pub confidence_pct: i64,
    pub lift_tenths: i64,
    pub first: Seq<char>,
    pub last: Seq<char>,
    pub structural_edge: bool,
}

impl View for CochangeEntry {
    type V = CochangeEntryView;

    open spec fn view(&self) -> CochangeEntryView {
        CochangeEntryView {
            path: self.path@,
            n: self.n,
            confidence_pct: self.confidence_pct,
            lift_tenths: self.lift_tenths,
            first: self.first@,
            last: self.last@,
            structural_edge: self.structural_edge,
        }
    }
}

pub struct CochangeOutput {
    pub schema: i64,
    pub query: QueryInfo,
    pub results: Vec<CochangeEntry>,
    pub truncated: bool,
}

/// An edge, live or dead, joins two files.
pub open spec fn ever_joined(edges: Seq<EdgeRow>, a: FileId, b: FileId) -> bool {
    exists|i: int| 0 <= i < edges.len() && bfs::joins(#[trigger] edges[i], a, b)
}

/// What is shown of a pair from the side of `q`.
pub open spec fn pair_view(snap: &Snapshot, ctx: &Ctx, q: FileId, shown: FileId, structural: bool, row: CochangeRow) -> CochangeEntryView {
    CochangeEntryView {
        path: snap.shown(shown),
        n: row.n,
        confidence_pct: if row.a == q { row.conf_ab_pct } else { row.conf_ba_pct },
        lift_tenths: row.lift_tenths,
        first: query::ref_to(ctx.commits@, row.first_commit.0).date,
        last: query::ref_to(ctx.commits@, row.last_commit.0).date,
        structural_edge: structural,
    }
}

/// What is listed of a pair: it holds the file, is above the reporting gates,
/// its other file is alive, and it has no structural edge unless those are
/// wanted too.
pub open spec fn cochange_entry(snap: &Snapshot, ctx: &Ctx, q: FileId, structural: bool, row: CochangeRow) -> Option<
    CochangeEntryView,
> {
    let other = blast::partner(row, q);
    let joined = ever_joined(snap.edges@, q, other);
    if (row.a == q || row.b == q) && row.n >= ctx.params.min_cochange_n && row.lift_reportable && (!joined
        || structural) && snap.alive(other) {
        Some(pair_view(snap, ctx, q, other, joined, row))
    } else {
        None
    }
}

/// The pairs that are listed.
pub open spec fn cochange_entries(snap: &Snapshot, ctx: &Ctx, q: FileId, structural: bool) -> Seq<CochangeEntryView> {
    snap.cochange@.filter_map(|row: CochangeRow| cochange_entry(snap, ctx, q, structural, row))
}

pub open spec fn cochange_views(s: Seq<CochangeEntry>) -> Seq<CochangeEntryView> {
    s.map_values(|e: CochangeEntry| e@)
}

/// Does an edge, live or dead, join two files?
pub fn joined_by_edge(edges: &Vec<EdgeRow>, a: FileId, b: FileId) -> (r: bool)
    ensures
        r == ever_joined(edges@, a, b),
{
    let mut i: usize = 0;
    while i < edges.len()
        invariant
            i <= edges@.len(),
            forall|k: int| 0 <= k < i ==> !bfs::joins(#[trigger] edges@[k], a, b),
        decreases edges@.len() - i,
    {
        let e = edges[i];
        if (e.src == a && e.dst == b) || (e.src == b && e.dst == a) {
            assert(bfs::joins(edges@[i as int], a, b));
            return true;
        }
        i += 1;
    }
    false
}

/// What is shown of a pair from the side of `q`.
pub fn describe_pair(snap: &Snapshot, ctx: &Ctx, q: FileId, shown: FileId, structural: bool, row: CochangeRow) -> (r: CochangeEntry)
    requires
        snap.wf(),
        ctx.wf(),
    ensures
        r@ == pair_view(snap, ctx, q, shown, structural, row),
{
    let first = ctx.commit_ref(row.first_commit.0);
    let last = ctx.commit_ref(row.last_commit.0);
    CochangeEntry {
        path: snap.files.display_path(shown),
        n: row.n,
        confidence_pct: if row.a == q {
            row.conf_ab_pct
        } else {
            row.conf_ba_pct
        },
        lift_tenths: row.lift_tenths,
        first: first.date,
        last: last.date,
        structural_edge: structural,
    }
}

/// Pure evolutionary coupling for one file: pairs above the reporting gates,
/// flagged when a structural edge also exists (live or dead).
pub fn cochange_list(snap: &Snapshot, ctx: &Ctx, path: &str, limit: usize, structural: bool) -> (r: Result<
    CochangeOutput,
    QueryError,
>)
    requires
        snap.wf(),
        ctx.wf(),
    ensures
        match r {
            Ok(out) => ({
                let q = snap.files.files()[query::asked_file(snap, path@).unwrap()].id;
                &&& query::asked_file(snap, path@) is Some
                &&& out.schema == SCHEMA_VERSION
                &&& out.query@ == query::about(snap, q)
                &&& cochange_views(out.results@) == rows::at_most(
                    cochange_entries(snap, ctx, q, structural),
                    limit as int,
                )
                &&& out.truncated == (cochange_entries(snap, ctx, q, structural).len() > limit)
            }),
            Err(QueryError::FileNotFound(p)) => query::asked_file(snap, path@) is None && p@ == path@,
            Err(QueryError::Other(_)) => false,
        },
{
    let q = match resolve_file(snap, path) {
        Ok(i) => snap.files.rows()[i].id,
        Err(e) => {
            return Err(e);
        },
    };
    let ghost f = |row: CochangeRow| cochange_entry(snap, ctx, q, structural, row);
    let ghost s = snap.cochange@;
    let mut results: Vec<CochangeEntry> = Vec::new();
    let mut i: usize = 0;
    proof {
        reveal(Seq::filter_map);
        assert(s.take(0) =~= Seq::<CochangeRow>::empty());
        assert(cochange_views(results@) =~= s.take(0).filter_map(f));
    }
    while i < snap.cochange.len()
        invariant
            i <= snap.cochange@.len(),
            s == snap.cochange@,
            f == (|row: CochangeRow| cochange_entry(snap, ctx, q, structural, row)),
            snap.wf(),
            ctx.wf(),
            cochange_views(results@) == s.take(i as int).filter_map(f),
        decreases snap.cochange@.len() - i,
    {
        proof {
            s.lemma_filter_map_take_succ(f, i as int);
        }
        let row = snap.cochange[i];
        if (row.a == q || row.b == q) && row.n >= ctx.params.min_cochange_n && row.lift_reportable {
            let other = if row.a == q {
                row.b
            } else {
                row.a
            };
            let joined = joined_by_edge(&snap.edges, q, other);
            if (!joined || structural) && snap.files.alive(other) {
                let e = describe_pair(snap, ctx, q, other, joined, row);
                let ghost before = results@;
                results.push(e);
                assert(cochange_views(results@) =~= cochange_views(before).push(e@));
            }
        }
        i += 1;
    }
    assert(s.take(i as int) =~= s);
    let truncated = results.len() > limit;
    let ghost all = results@;
    results.truncate(limit);
    assert(cochange_views(results@) =~= rows::at_most(cochange_views(all), limit as int));
    Ok(CochangeOutput { schema: SCHEMA_VERSION, query: query_info(snap, q), results, truncated })
}

// ---- drift ----

pub struct DriftEntry {
    pub doc: String,
    pub code: String,
    pub commits_behind: usize,
    pub doc_last_touched: String,
    pub code_last_touched: String,
}

#[verifier::ext_equal]
pub struct DriftEntryView {
    pub doc: Seq<char>,
    pub code: Seq<char>,
    pub commits_behind: usize,
    pub doc_last_touched: Seq<char>,
    pub code_last_touched: Seq<char>,
}

impl View for DriftEntry {
    type V = DriftEntryView;

    open spec fn view(&self) -> DriftEntryView {
        DriftEntryView {
            doc: self.doc@,
            code: self.code@,
            commits_behind: self.commits_behind,
            doc_last_touched: self.doc_last_touched@,
            code_last_touched: self.code_last_touched@,
        }
    }
}

pub struct DriftOutput {
    pub schema: i64,
    pub results: Vec<DriftEntry>,
    pub truncated: bool,
}

/// The day a file was touched last; empty where it never was.
pub open spec fn last_touched(snap: &Snapshot, ctx: &Ctx, f: FileId) -> Seq<char> {
    let t = query::touches_of(snap.touches@, f);
    if t.len() == 0 {
        Seq::empty()
    } else {
        query::ref_to(ctx.commits@, t.last().commit.0).date
    }
}

/// What a live reference from a doc says, where the doc is behind the code.
pub open spec fn drift_entry(snap: &Snapshot, ctx: &Ctx, e: graph::EdgeInfoView) -> Option<DriftEntryView> {
    let n = query::behind(ctx.commits@, snap.touches@, e.row.src, e.row.dst);
    if e.row.kind == EdgeKind::DocRef && e.alive && n > 0 {
        Some(
            DriftEntryView {
                doc: snap.shown(e.row.src),
                code: snap.shown(e.row.dst),
                commits_behind: n as usize,
                doc_last_touched: last_touched(snap, ctx, e.row.src),
                code_last_touched: last_touched(snap, ctx, e.row.dst),
            },
        )
    } else {
        None
    }
}

/// The drifted docs in the order of their edges.
pub open spec fn drifts(snap: &Snapshot, ctx: &Ctx) -> Seq<DriftEntryView> {
    snap.graph(ctx).filter_map(|e: graph::EdgeInfoView| drift_entry(snap, ctx, e))
}

/// The keys by which the docs that are farthest behind come first.
pub open spec fn drift_keys(s: Seq<DriftEntryView>) -> Seq<i128> {
    s.map_values(|e: DriftEntryView| (-(e.commits_behind as int)) as i128)
}

/// The drifted docs, those farthest behind first.
pub open spec fn ranked_drifts(snap: &Snapshot, ctx: &Ctx) -> Seq<DriftEntryView> {
    let s = drifts(snap, ctx);
    order::order_of(drift_keys(s)).map_values(|i: int| s[i])
}

/// Law: each drifted doc is ranked, none before one that is farther behind.
pub proof fn drifts_descend(snap: &Snapshot, ctx: &Ctx)
    ensures
        ranked_drifts(snap, ctx).len() == drifts(snap, ctx).len(),
        forall|i: int| 0 <= i < drifts(snap, ctx).len() ==> ranked_drifts(snap, ctx).contains(#[trigger] drifts(snap, ctx)[i]),
        forall|i: int, j: int|
            0 <= i < j < ranked_drifts(snap, ctx).len() ==> (#[trigger] ranked_drifts(snap, ctx)[i]).commits_behind >= (
            #[trigger] ranked_drifts(snap, ctx)[j]).commits_behind,
{
    let s = drifts(snap, ctx);
    let keys = drift_keys(s);
    let o = order::order_of(keys);
    let r = ranked_drifts(snap, ctx);
    order::order_is_stable(keys);
    assert forall|i: int| 0 <= i < s.len() implies r.contains(#[trigger] s[i]) by {
        assert(o.contains(i));
        assert(r[o.index_of(i)] == s[i]);
    }
    assert forall|i: int, j: int| 0 <= i < j < r.len() implies (#[trigger] r[i]).commits_behind >= (
    #[trigger] r[j]).commits_behind by {
        assert(order::before(keys, o[i], o[j]));
        assert(0 <= o[i] < keys.len() && 0 <= o[j] < keys.len());
        assert(keys[o[i]] == (-(s[o[i]].commits_behind as int)) as i128);
        assert(keys[o[j]] == (-(s[o[j]].commits_behind as int)) as i128);
    }
}

pub open spec fn drift_views(s: Seq<DriftEntry>) -> Seq<DriftEntryView> {
    s.map_values(|e: DriftEntry| e@)
}

fn touched_on(snap: &Snapshot, ctx: &Ctx, f: FileId) -> (r: String)
    requires
        snap.wf(),
        ctx.wf(),
    ensures
        r@ == last_touched(snap, ctx, f),
{
    let t = snap.touches.touches_for_file(f);
    if t.len() == 0 {
        empty()
    } else {
        let c = ctx.commit_ref(t[t.len() - 1].commit.0);
        c.date
    }
}

/// Docs whose referenced code moved on without them.
pub fn drift(snap: &Snapshot, ctx: &Ctx, limit: usize) -> (r: DriftOutput)
    requires
        snap.wf(),
        ctx.wf(),
    ensures
        r.schema == SCHEMA_VERSION,
        drift_views(r.results@) == rows::at_most(ranked_drifts(snap, ctx), limit as int),
        r.truncated == (ranked_drifts(snap, ctx).len() > limit),
{
    let graph = load_graph(&snap.edges, &snap.intervals, &ctx.times);
    let ghost f = |e: graph::EdgeInfoView| drift_entry(snap, ctx, e);
    let ghost s = graph@;
    let mut found: Vec<DriftEntry> = Vec::new();
    let mut keys: Vec<i128> = Vec::new();
    let mut i: usize = 0;
    proof {
        reveal(Seq::filter_map);
        assert(s.take(0) =~= Seq::<graph::EdgeInfoView>::empty());
        assert(drift_views(found@) =~= s.take(0).filter_map(f));
    }
    while i < graph.edges.len()
        invariant
            i <= graph.edges@.len(),
            s == graph@,
            f == (|e: graph::EdgeInfoView| drift_entry(snap, ctx, e)),
            snap.wf(),
            ctx.wf(),
            drift_views(found@) == s.take(i as int).filter_map(f),
            keys@.len() == found@.len(),
            forall|k: int| 0 <= k < keys@.len() ==> #[trigger] keys@[k] == -(found@[k].commits_behind as int),
        decreases graph.edges@.len() - i,
    {
        proof {
            s.lemma_filter_map_take_succ(f, i as int);
            assert(s[i as int] == graph.edges@[i as int]@);
        }
        let e = &graph.edges[i];
        if e.row.kind == EdgeKind::DocRef && e.alive {
            let n = commits_behind(snap, ctx, e.row.src, e.row.dst);
            if n > 0 {
                let entry = DriftEntry {
                    doc: snap.files.display_path(e.row.src),
                    code: snap.files.display_path(e.row.dst),
                    commits_behind: n,
                    doc_last_touched: touched_on(snap, ctx, e.row.src),
                    code_last_touched: touched_on(snap, ctx, e.row.dst),
                };
                let ghost before = found@;
                found.push(entry);
                keys.push(-(n as i128));
                assert(drift_views(found@) =~= drift_views(before).push(entry@));
            }
        }
        i += 1;
    }
    assert(s.take(i as int) =~= s);
    let ghost all = drift_views(found@);
    assert(keys@ =~= drift_keys(all));
    let order = stable_order(&keys);
    let truncated = order.len() > limit;
    let n: usize = if truncated {
        limit
    } else {
        order.len()
    };
    let mut results: Vec<DriftEntry> = Vec::new();
    let mut k: usize = 0;
    while k < n
        invariant
            k <= n <= order@.len(),
            forall|j: int| 0 <= j < order@.len() ==> #[trigger] order@[j] < found@.len(),
            results@.len() == k,
            forall|j: int| 0 <= j < k ==> (#[trigger] results@[j])@ == found@[order@[j] as int]@,
        decreases n - k,
    {
        let e = &found[order[k]];
        results.push(
            DriftEntry {
                doc: e.doc.clone(),
                code: e.code.clone(),
                commits_behind: e.commits_behind,
                doc_last_touched: e.doc_last_touched.clone(),
                code_last_touched: e.code_last_touched.clone(),
            },
        );
        k += 1;
    }
    proof {
        let o = order::order_of(keys@);
        let want = rows::at_most(ranked_drifts(snap, ctx), limit as int);
        assert(postings::as_ints(order@) == o);
        assert(o.len() == order@.len());
        assert forall|j: int| 0 <= j < results@.len() implies drift_views(results@)[j] == want[j] by {
            assert(o[j] == order@[j]);
            assert(results@[j]@ == found@[order@[j] as int]@);
        }
        assert(drift_views(results@) =~= want);
    }
    DriftOutput { schema: SCHEMA_VERSION, results, truncated }
}

// ---- search ----

pub struct SearchEntry {
    pub commit: CommitRef,
    pub author: String,
}

#[verifier::ext_equal]
pub struct SearchEntryView {
    pub commit: CommitRefView,
    pub author: Seq<char>,
}

impl View for SearchEntry {
    type V = SearchEntryView;

    open spec fn view(&self) -> SearchEntryView {
        SearchEntryView { commit: self.commit@, author: self.author@ }
    }
}

pub struct SearchOutput {
    pub schema: i64,
    pub results: Vec<SearchEntry>,
}

/// The commits that a full-text search hit, with their authors, as they are
/// listed.
pub fn search(ctx: &Ctx, hits: &Vec<(CommitId, String)>) -> (r: SearchOutput)
    requires
        ctx.wf(),
    ensures
        r.schema == SCHEMA_VERSION,
        r.results@.map_values(|e: SearchEntry| e@) == hits@.map_values(
            |h: (CommitId, String)| SearchEntryView { commit: query::ref_to(ctx.commits@, h.0.0), author: h.1@ },
        ),
{
    let mut results: Vec<SearchEntry> = Vec::new();
    let mut i: usize = 0;
    while i < hits.len()
        invariant
            i <= hits@.len(),
            ctx.wf(),
            results@.len() == i,
            forall|k: int|
                0 <= k < i ==> (#[trigger] results@[k])@ == (SearchEntryView {
                    commit: query::ref_to(ctx.commits@, hits@[k].0.0),
                    author: hits@[k].1@,
                }),
        decreases hits@.len() - i,
    {
        let commit = ctx.commit_ref(hits[i].0.0);
        results.push(SearchEntry { commit, author: hits[i].1.clone() });
        i += 1;
    }
    assert(results@.map_values(|e: SearchEntry| e@) =~= hits@.map_values(
        |h: (CommitId, String)| SearchEntryView { commit: query::ref_to(ctx.commits@, h.0.0), author: h.1@ },
    ));
    SearchOutput { schema: SCHEMA_VERSION, results }
}

} // verus!
