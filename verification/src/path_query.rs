//! The way between two files: over live edges, or over those that once were,
//! and when it broke.

use crate::bfs::{bfs, Reach};
use crate::bfs;
use crate::blast::lasting;
use crate::blast;
use crate::graph::{load_graph, EdgeInfo, Graph};
use crate::graph;
use crate::model::FileId;
use crate::postings;
use crate::query::{resolve_file, CommitRef, CommitRefView, Ctx, QueryError, Snapshot, SCHEMA_VERSION};
use crate::query;
use crate::rows::{full_oid, CommitRow};
use crate::rows;
use crate::text;
use crate::time::date_str;
use crate::time;
use vstd::prelude::*;

pub mod laws;

verus! {

pub struct Hop {
    pub from: String,
    pub to: String,
    pub kind: &'static str,
    pub alive: bool,
    pub died: Option<CommitRef>,
}

#[verifier::ext_equal]
pub struct HopView {
    pub from: Seq<char>,
    pub to: Seq<char>,
    pub kind: Seq<char>,
    pub alive: bool,
    pub died: Option<CommitRefView>,
}

impl View for Hop {
    type V = HopView;

    open spec fn view(&self) -> HopView {
        HopView {
            from: self.from@,
            to: self.to@,
            kind: self.kind@,
            alive: self.alive,
            died: query::opt_ref(self.died),
        }
    }
}

pub struct PathOutput {
    pub schema: i64,
    pub a: String,
    pub b: String,
    pub live_path: Option<Vec<Hop>>,
    pub union_path: Option<Vec<Hop>>,
    pub broke_at: Option<CommitRef>,
}

/// How far ways are looked for.
pub const PATH_DEPTH: u8 = 6;

// ---- a point in history ----

/// Text of ten bytes with a hyphen behind the fourth.
pub open spec fn day_shaped(rev: Seq<char>) -> bool {
    let b = vstd::utf8::encode_utf8(rev);
    b.len() == 10 && b[4] == 0x2d
}

/// The largest id among the commits at or before a day.
pub open spec fn newest_by(commits: Seq<CommitRow>, day: Seq<char>) -> Option<i64>
    decreases commits.len(),
{
    if commits.len() == 0 {
        None
    } else {
        let b = newest_by(commits.drop_last(), day);
        let c = commits.last();
        if text::text_le(time::date_of(c.author_time as int), day) && (match b {
            Some(n) => n <= c.id.0,
            None => true,
        }) {
            Some(c.id.0)
        } else {
            b
        }
    }
}

/// The ids of the commits whose object id starts with `prefix`.
pub open spec fn with_prefix(commits: Seq<CommitRow>, prefix: Seq<char>) -> Seq<i64>
    decreases commits.len(),
{
    if commits.len() == 0 {
        Seq::empty()
    } else {
        let b = with_prefix(commits.drop_last(), prefix);
        if text::has_prefix(rows::hex(commits.last().oid@), prefix) {
            b.push(commits.last().id.0)
        } else {
            b
        }
    }
}

/// The commit that a day or the start of an object id names: the newest at or
/// before the day, or the only one with that start.
pub open spec fn point_in_history(commits: Seq<CommitRow>, rev: Seq<char>) -> Result<i64, Seq<char>> {
    if day_shaped(rev) {
        match newest_by(commits, rev) {
            Some(id) => Ok(id),
            None => Err("no commits at or before "@ + rev),
        }
    } else {
        let m = with_prefix(commits, text::lower(rev));
        if m.len() == 1 {
            Ok(m[0])
        } else if m.len() == 0 {
            Err("rev "@ + rev + " not found in indexed history"@)
        } else {
            Err("rev "@ + rev + " is ambiguous"@)
        }
    }
}

pub fn resolve_as_of(ctx: &Ctx, rev: &str) -> (r: Result<i64, QueryError>)
    ensures
        match r {
            Ok(id) => point_in_history(ctx.commits@, rev@) == Ok::<i64, Seq<char>>(id),
            Err(QueryError::Other(m)) => point_in_history(ctx.commits@, rev@) == Err::<i64, Seq<char>>(m@),
            Err(QueryError::FileNotFound(_)) => false,
        },
{
    let bytes = rev.as_bytes();
    let ghost commits = ctx.commits@;
    if bytes.len() == 10 && bytes[4] == 0x2d {
        let mut best: Option<i64> = None;
        let mut i: usize = 0;
        assert(commits.take(0) =~= Seq::<CommitRow>::empty());
        while i < ctx.commits.len()
            invariant
                i <= ctx.commits@.len(),
                commits == ctx.commits@,
                best == newest_by(commits.take(i as int), rev@),
            decreases ctx.commits@.len() - i,
        {
            assert(commits.take(i + 1).drop_last() =~= commits.take(i as int));
            let c = &ctx.commits[i];
            let day = date_str(c.author_time);
            let newer = match best {
                Some(n) => n <= c.id.0,
                None => true,
            };
            if text::le_text(day.as_str(), rev) && newer {
                best = Some(c.id.0);
            }
            i += 1;
        }
        assert(commits.take(i as int) =~= commits);
        return match best {
            Some(id) => Ok(id),
            None => Err(QueryError::Other(text::cat2("no commits at or before ", rev))),
        };
    }
    let lower = text::to_lower(rev);
    let mut matched: Vec<i64> = Vec::new();
    let mut i: usize = 0;
    assert(commits.take(0) =~= Seq::<CommitRow>::empty());
    while i < ctx.commits.len()
        invariant
            i <= ctx.commits@.len(),
            commits == ctx.commits@,
            lower@ == text::lower(rev@),
            matched@ == with_prefix(commits.take(i as int), lower@),
        decreases ctx.commits@.len() - i,
    {
        assert(commits.take(i + 1).drop_last() =~= commits.take(i as int));
        let oid = full_oid(&ctx.commits[i].oid);
        if text::starts_with(oid.as_str(), lower.as_str()) {
            matched.push(ctx.commits[i].id.0);
        }
        i += 1;
    }
    assert(commits.take(i as int) =~= commits);
    if matched.len() == 1 {
        Ok(matched[0])
    } else if matched.len() == 0 {
        Err(QueryError::Other(text::cat3("rev ", rev, " not found in indexed history")))
    } else {
        Err(QueryError::Other(text::cat3("rev ", rev, " is ambiguous")))
    }
}

// ---- liveness ----

/// A span covers a commit.
pub open spec fn covers(s: (i64, Option<i64>), c: i64) -> bool {
    s.0 <= c && (match s.1 {
        Some(d) => d > c,
        None => true,
    })
}

/// An edge was alive at a commit, or is alive where none is given.
pub open spec fn alive_at(e: graph::EdgeInfoView, cutoff: Option<i64>) -> bool {
    match cutoff {
        None => e.alive,
        Some(c) => exists|i: int| 0 <= i < e.intervals.len() && covers(#[trigger] e.intervals[i], c),
    }
}

pub open spec fn keep_at(edges: Seq<graph::EdgeInfoView>, cutoff: Option<i64>) -> Seq<bool> {
    edges.map_values(|e: graph::EdgeInfoView| alive_at(e, cutoff))
}

fn was_alive(e: &EdgeInfo, cutoff: Option<i64>) -> (r: bool)
    ensures
        r == alive_at(e@, cutoff),
{
    match cutoff {
        None => e.alive,
        Some(c) => {
            let mut i: usize = 0;
            while i < e.intervals.len()
                invariant
                    i <= e.intervals@.len(),
                    cutoff == Some(c),
                    forall|k: int| 0 <= k < i ==> !covers(#[trigger] e.intervals@[k], c),
                decreases e.intervals@.len() - i,
            {
                let (born, died) = e.intervals[i];
                let open = match died {
                    Some(d) => d > c,
                    None => true,
                };
                if born <= c && open {
                    assert(covers(e@.intervals[i as int], c));
                    return true;
                }
                i += 1;
            }
            false
        },
    }
}

fn kept_at(graph: &Graph, cutoff: Option<i64>) -> (r: Vec<bool>)
    ensures
        r@ == keep_at(graph@, cutoff),
{
    let mut out: Vec<bool> = Vec::new();
    let mut i: usize = 0;
    while i < graph.edges.len()
        invariant
            i <= graph.edges@.len(),
            out@.len() == i,
            forall|k: int| 0 <= k < i ==> #[trigger] out@[k] == alive_at(graph.edges@[k]@, cutoff),
        decreases graph.edges@.len() - i,
    {
        out.push(was_alive(&graph.edges[i], cutoff));
        i += 1;
    }
    assert(out@ =~= keep_at(graph@, cutoff));
    out
}

// ---- ways ----

/// What is shown of an edge on a way.
pub open spec fn hop_view(snap: &Snapshot, ctx: &Ctx, e: graph::EdgeInfoView) -> HopView {
    HopView {
        from: snap.shown(e.row.src),
        to: snap.shown(e.row.dst),
        kind: e.row.kind.name(),
        alive: e.alive,
        died: match e.last_died {
            Some(d) => Some(query::ref_to(ctx.commits@, d)),
            None => None,
        },
    }
}

/// The edge by which a search came to its `i`-th file.
pub open spec fn edge_to(edges: Seq<graph::EdgeInfoView>, r: bfs::Found, i: int) -> graph::EdgeInfoView {
    edges[graph::edges_at(edges, r.nodes[r.parent[i] as int])[r.step[i] as int]]
}

/// The edges from the start of a search to its `i`-th file.
pub open spec fn way_to(edges: Seq<graph::EdgeInfoView>, r: bfs::Found, i: int) -> Seq<graph::EdgeInfoView>
    decreases i,
{
    if i <= 0 || r.parent[i] >= i {
        Seq::empty()
    } else {
        way_to(edges, r, r.parent[i] as int).push(edge_to(edges, r, i))
    }
}

/// The hops of a shortest way to a file, where a search found it.
pub open spec fn hops_to(
    snap: &Snapshot,
    ctx: &Ctx,
    edges: Seq<graph::EdgeInfoView>,
    r: bfs::Found,
    f: FileId,
) -> Option<Seq<HopView>> {
    if r.nodes.contains(f) {
        Some(
            way_to(edges, r, r.nodes.index_of(f)).map_values(|e: graph::EdgeInfoView| hop_view(snap, ctx, e)),
        )
    } else {
        None
    }
}

/// Law: the hops to a found file are as many as its distance, each by a kept
/// edge that joins the files it lies between.
pub proof fn way_is_shortest(
    edges: Seq<graph::EdgeInfoView>,
    keep: Seq<bool>,
    start: FileId,
    max: u8,
    r: bfs::Found,
    i: int,
)
    requires
        bfs::searched(edges, keep, start, max, r),
        0 <= i < r.nodes.len(),
    ensures
        way_to(edges, r, i).len() == r.dist[i],
        i > 0 ==> bfs::joins(edge_to(edges, r, i).row, r.nodes[r.parent[i] as int], r.nodes[i]),
        i > 0 ==> keep[graph::edges_at(edges, r.nodes[r.parent[i] as int])[r.step[i] as int]],
    decreases i,
{
    if i > 0 {
        let p = r.parent[i] as int;
        way_is_shortest(edges, keep, start, max, r, p);
        let a = r.nodes[p];
        assert(bfs::leads(edges, keep, a, r.step[i] as int, r.nodes[i]));
        postings::positions_are_indices(graph::sources(edges), a.0);
        postings::positions_are_indices(graph::targets(edges), a.0);
        let at = graph::edges_at(edges, a);
        let q = r.step[i] as int;
        let ps = postings::positions(graph::sources(edges), a.0);
        if q < ps.len() {
            assert(ps[q] == at[q]);
            assert(graph::sources(edges)[at[q]] == edges[at[q]].row.src.0);
        } else {
            assert(postings::positions(graph::targets(edges), a.0)[q - ps.len()] == at[q]);
            assert(graph::targets(edges)[at[q]] == edges[at[q]].row.dst.0);
        }
    }
}

/// The latest day on which one of the dead hops died; among equals the last
/// hop.
pub open spec fn break_of(hops: Seq<HopView>) -> Option<CommitRefView>
    decreases hops.len(),
{
    if hops.len() == 0 {
        None
    } else {
        let b = break_of(hops.drop_last());
        let h = hops.last();
        match h.died {
            Some(d) => if !h.alive && (match b {
                Some(c) => text::text_le(c.date, d.date),
                None => true,
            }) {
                Some(d)
            } else {
                b
            },
            None => b,
        }
    }
}

pub open spec fn hop_views(s: Seq<Hop>) -> Seq<HopView> {
    s.map_values(|h: Hop| h@)
}

pub open spec fn opt_hops(s: Option<Vec<Hop>>) -> Option<Seq<HopView>> {
    match s {
        Some(v) => Some(hop_views(v@)),
        None => None,
    }
}

fn describe_hop(snap: &Snapshot, ctx: &Ctx, e: &EdgeInfo) -> (r: Hop)
    requires
        snap.wf(),
        ctx.wf(),
    ensures
        r@ == hop_view(snap, ctx, e@),
{
    Hop {
        from: snap.files.display_path(e.row.src),
        to: snap.files.display_path(e.row.dst),
        kind: e.row.kind.as_str(),
        alive: e.alive,
        died: ctx.opt_commit_ref(e.last_died),
    }
}

fn walk_back(snap: &Snapshot, ctx: &Ctx, graph: &Graph, r: &Reach, i: usize, Ghost(keep): Ghost<Seq<bool>>, Ghost(start): Ghost<FileId>, Ghost(max): Ghost<u8>) -> (out: Vec<Hop>)
    requires
        snap.wf(),
        ctx.wf(),
        graph.wf(),
        r.wf(),
        i < r@.nodes.len(),
        bfs::search_shape(graph@, keep, start, max, r@),
    ensures
        hop_views(out@) == way_to(graph@, r@, i as int).map_values(|e: graph::EdgeInfoView| hop_view(snap, ctx, e)),
    decreases i,
{
    let ghost f = |e: graph::EdgeInfoView| hop_view(snap, ctx, e);
    if i == 0 {
        let out: Vec<Hop> = Vec::new();
        assert(hop_views(out@) =~= way_to(graph@, r@, 0).map_values(f));
        return out;
    }
    let p = r.parent(i);
    assert(r@.parent[i as int] < i);
    let mut out = walk_back(snap, ctx, graph, r, p, Ghost(keep), Ghost(start), Ghost(max));
    let at = graph.neighbors(r.node(p));
    let q = r.step(i);
    proof {
        assert(bfs::leads(graph@, keep, r@.nodes[p as int], q as int, r@.nodes[i as int]));
        assert(postings::as_ints(at@)[q as int] == at@[q as int]);
        assert(postings::as_ints(at@).len() == at@.len());
    }
    let e = &graph.edges[at[q]];
    assert(graph@[at@[q as int] as int] == e@);
    let hop = describe_hop(snap, ctx, e);
    let ghost before = out@;
    out.push(hop);
    proof {
        let w = way_to(graph@, r@, p as int);
        assert(hop_views(out@) =~= hop_views(before).push(hop@));
        assert(w.push(edge_to(graph@, r@, i as int)).map_values(f) =~= w.map_values(f).push(hop@));
    }
    out
}

fn way(snap: &Snapshot, ctx: &Ctx, graph: &Graph, a: FileId, b: FileId, keep: &Vec<bool>) -> (r: Option<Vec<Hop>>)
    requires
        snap.wf(),
        ctx.wf(),
        graph.wf(),
        keep@.len() == graph@.len(),
    ensures
        opt_hops(r) == hops_to(snap, ctx, graph@, bfs::search(graph@, keep@, a, PATH_DEPTH), b),
{
    let found = bfs(graph, a, PATH_DEPTH, keep);
    match found.find(b) {
        Some(i) => {
            proof {
                let n = found@.nodes;
                assert(n.contains(b));
                let m = n.index_of(b);
                if m < i {
                    assert(n[m] != n[i as int]);
                } else if i < m {
                    assert(n[i as int] != n[m]);
                }
            }
            Some(walk_back(snap, ctx, graph, &found, i, Ghost(keep@), Ghost(a), Ghost(PATH_DEPTH)))
        },
        None => None,
    }
}

/// A copy of a reference to a commit.
pub fn copy_ref(c: &CommitRef) -> (r: CommitRef)
    ensures
        r@ == c@,
{
    CommitRef { oid: c.oid.clone(), date: c.date.clone(), subject: c.subject.clone() }
}

fn find_break(hops: &Vec<Hop>) -> (r: Option<CommitRef>)
    ensures
        query::opt_ref(r) == break_of(hop_views(hops@)),
{
    let ghost s = hop_views(hops@);
    let mut best: Option<CommitRef> = None;
    let mut i: usize = 0;
    assert(s.take(0) =~= Seq::<HopView>::empty());
    while i < hops.len()
        invariant
            i <= hops@.len(),
            s == hop_views(hops@),
            query::opt_ref(best) == break_of(s.take(i as int)),
        decreases hops@.len() - i,
    {
        assert(s.take(i + 1).drop_last() =~= s.take(i as int));
        assert(s.take(i + 1).last() == hops@[i as int]@);
        let h = &hops[i];
        match &h.died {
            Some(d) => {
                let later = match &best {
                    Some(c) => text::le_text(c.date.as_str(), d.date.as_str()),
                    None => true,
                };
                if !h.alive && later {
                    best = Some(copy_ref(d));
                }
            },
            None => {},
        }
        i += 1;
    }
    assert(s.take(i as int) =~= s);
    best
}

/// What a path query finds: a live way at the cutoff; where there is none, a
/// way over the edges that lasted, and when it broke.
pub open spec fn path_found(snap: &Snapshot, ctx: &Ctx, a: FileId, b: FileId, cutoff: Option<i64>) -> (
    Option<Seq<HopView>>,
    Option<Seq<HopView>>,
    Option<CommitRefView>,
) {
    let edges = snap.graph(ctx);
    let live = hops_to(snap, ctx, edges, bfs::search(edges, keep_at(edges, cutoff), a, PATH_DEPTH), b);
    let union = if live is Some {
        None
    } else {
        hops_to(
            snap,
            ctx,
            edges,
            bfs::search(edges, blast::union_keep(edges, ctx.params.ghost_min_lifetime_days), a, PATH_DEPTH),
            b,
        )
    };
    let broke = match union {
        Some(h) => break_of(h),
        None => None,
    };
    (live, union, broke)
}

/// The live path, the union path, and when it broke.
pub fn path_query(snap: &Snapshot, ctx: &Ctx, a: &str, b: &str, as_of: Option<&str>) -> (r: Result<
    PathOutput,
    QueryError,
>)
    requires
        snap.wf(),
        ctx.wf(),
    ensures
        match r {
            Ok(out) => ({
                let fa = snap.files.files()[query::asked_file(snap, a@).unwrap()].id;
                let fb = snap.files.files()[query::asked_file(snap, b@).unwrap()].id;
                let cutoff = match as_of {
                    Some(rev) => match point_in_history(ctx.commits@, rev@) {
                        Ok(id) => Some(id),
                        Err(_) => None,
                    },
                    None => None,
                };
                &&& query::asked_file(snap, a@) is Some
                &&& query::asked_file(snap, b@) is Some
                &&& as_of matches Some(rev) ==> point_in_history(ctx.commits@, rev@) is Ok
                &&& out.schema == SCHEMA_VERSION
                &&& out.a@ == snap.shown(fa)
                &&& out.b@ == snap.shown(fb)
                &&& (opt_hops(out.live_path), opt_hops(out.union_path), query::opt_ref(out.broke_at)) == path_found(
                    snap,
                    ctx,
                    fa,
                    fb,
                    cutoff,
                )
            }),
            Err(QueryError::FileNotFound(p)) => (query::asked_file(snap, a@) is None && p@ == a@) || (
            query::asked_file(snap, a@) is Some && query::asked_file(snap, b@) is None && p@ == b@),
            Err(QueryError::Other(m)) => query::asked_file(snap, a@) is Some && query::asked_file(snap, b@) is Some
                && (as_of matches Some(rev) && point_in_history(ctx.commits@, rev@) == Err::<i64, Seq<char>>(m@)),
        },
{
    let fa = match resolve_file(snap, a) {
        Ok(i) => snap.files.rows()[i].id,
        Err(e) => {
            return Err(e);
        },
    };
    let fb = match resolve_file(snap, b) {
        Ok(i) => snap.files.rows()[i].id,
        Err(e) => {
            return Err(e);
        },
    };
    let cutoff = match as_of {
        Some(rev) => match resolve_as_of(ctx, rev) {
            Ok(id) => Some(id),
            Err(e) => {
                return Err(e);
            },
        },
        None => None,
    };
    let graph = load_graph(&snap.edges, &snap.intervals, &ctx.times);
    let live_keep = kept_at(&graph, cutoff);
    let live_path = way(snap, ctx, &graph, fa, fb, &live_keep);
    let union_path = if live_path.is_none() {
        let keep = lasting(&graph, ctx.params.ghost_min_lifetime_days);
        way(snap, ctx, &graph, fa, fb, &keep)
    } else {
        None
    };
    let broke_at = match &union_path {
        Some(hops) => find_break(hops),
        None => None,
    };
    Ok(
        PathOutput {
            schema: SCHEMA_VERSION,
            a: snap.files.display_path(fa),
            b: snap.files.display_path(fb),
            live_path,
            union_path,
            broke_at,
        },
    )
}

} // verus!
