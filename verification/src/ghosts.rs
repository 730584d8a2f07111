//! Ghost detection: an edge whose latest interval is closed, whose severance
//! was not mechanical, whose endpoints are both alive, and whose endpoints
//! kept co-changing after the severance. The post-severance co-change
//! condition is a gate, not a score term.

use crate::excluded::MECHANICAL;
use crate::graph::{days_between, load_graph, EdgeInfo, EdgeInfoView};
use crate::graph;
use crate::model::CommitId;
use crate::query::{Ctx, Snapshot};
use crate::query;
use crate::rows::{CommitRow, TouchRow};
use vstd::prelude::*;

pub mod laws;

verus! {

pub struct GhostReport {
    pub candidates: usize,
    pub ghosts: usize,
}

/// A severed edge that meets every condition but that of confidence, which
/// weighs the commits listed here.
pub struct GhostCandidate {
    pub edge_id: i64,
    pub severed_commit: CommitId,
    pub severed_time: i64,
    pub lifetime_days: i64,
    pub cochanges_since: usize,
    /// The commits behind the severance that touched the source, and whether
    /// each touched the target too.
    pub since: Vec<(i64, bool)>,
}

#[verifier::ext_equal]
pub struct CandidateView {
    pub edge_id: i64,
    pub severed_commit: CommitId,
    pub severed_time: int,
    pub lifetime_days: int,
    pub cochanges_since: int,
    pub since: Seq<(i64, bool)>,
}

impl View for GhostCandidate {
    type V = CandidateView;

    open spec fn view(&self) -> CandidateView {
        CandidateView {
            edge_id: self.edge_id,
            severed_commit: self.severed_commit,
            severed_time: self.severed_time as int,
            lifetime_days: self.lifetime_days as int,
            cochanges_since: self.cochanges_since as int,
            since: self.since@,
        }
    }
}

pub open spec fn candidate_views(s: Seq<GhostCandidate>) -> Seq<CandidateView> {
    s.map_values(|c: GhostCandidate| c@)
}

/// A commit is mechanical churn.
pub open spec fn is_mechanical(commits: Seq<CommitRow>, id: i64) -> bool {
    match query::commit_at(commits, id) {
        Some(i) => commits[i].excluded & MECHANICAL != 0,
        None => false,
    }
}

/// When an edge was born; the start of the index where that is unknown.
pub open spec fn birth_time(commits: Seq<CommitRow>, id: i64) -> int {
    match query::commit_at(commits, id) {
        Some(i) => if id == 0 {
            graph::earliest_time(query::commit_times(commits))
        } else {
            commits[i].author_time as int
        },
        None => graph::earliest_time(query::commit_times(commits)),
    }
}

/// When an edge died; the end of the index where that is unknown.
pub open spec fn death_time(commits: Seq<CommitRow>, id: i64) -> int {
    match query::commit_at(commits, id) {
        Some(i) => commits[i].author_time as int,
        None => graph::latest_time(query::commit_times(commits)),
    }
}

/// The commits that count and touched a file.
pub open spec fn counted_touches(commits: Seq<CommitRow>, touches: Seq<TouchRow>) -> Seq<i64>
    decreases touches.len(),
{
    if touches.len() == 0 {
        Seq::empty()
    } else {
        let b = counted_touches(commits, touches.drop_last());
        if query::counts(commits, touches.last().commit.0) {
            b.push(touches.last().commit.0)
        } else {
            b
        }
    }
}

/// Of the commits of the source behind the severance, which touched the
/// target too.
pub open spec fn since_severance(src: Seq<i64>, dst: Seq<i64>, died: i64) -> Seq<(i64, bool)>
    decreases src.len(),
{
    if src.len() == 0 {
        Seq::empty()
    } else {
        let b = since_severance(src.drop_last(), dst, died);
        if src.last() > died {
            b.push((src.last(), dst.contains(src.last())))
        } else {
            b
        }
    }
}

/// How many commits touched both ends.
pub open spec fn both_count(s: Seq<(i64, bool)>) -> int
    decreases s.len(),
{
    if s.len() == 0 {
        0
    } else {
        both_count(s.drop_last()) + (if s.last().1 { 1int } else { 0 })
    }
}

/// An edge is severed: it lived, and no interval of it is open.
pub open spec fn severed(e: EdgeInfoView) -> bool {
    !e.alive && e.last_died is Some
}

/// What a severed edge is weighed by, where it meets every condition but that
/// of confidence.
pub open spec fn candidate(snap: &Snapshot, ctx: &Ctx, e: EdgeInfoView) -> Option<CandidateView> {
    let died = e.last_died.unwrap();
    let born = e.intervals.last().0;
    let lifetime = graph::whole_days(death_time(ctx.commits@, died) - birth_time(ctx.commits@, born));
    let src = counted_touches(ctx.commits@, query::touches_of(snap.touches@, e.row.src));
    let dst = counted_touches(ctx.commits@, query::touches_of(snap.touches@, e.row.dst));
    let since = since_severance(src, dst, died);
    if severed(e) && !is_mechanical(ctx.commits@, died) && snap.alive(e.row.src) && snap.alive(e.row.dst) && lifetime
        >= ctx.params.ghost_min_lifetime_days && src.len() > 0 && dst.len() > 0 && both_count(since)
        >= ctx.params.ghost_min_cochanges_since {
        Some(
            CandidateView {
                edge_id: e.row.id,
                severed_commit: CommitId(died),
                severed_time: death_time(ctx.commits@, died),
                lifetime_days: lifetime,
                cochanges_since: both_count(since),
                since,
            },
        )
    } else {
        None
    }
}

/// The candidates among some edges.
pub open spec fn candidates(snap: &Snapshot, ctx: &Ctx, edges: Seq<EdgeInfoView>) -> Seq<CandidateView>
    decreases edges.len(),
{
    if edges.len() == 0 {
        Seq::empty()
    } else {
        let b = candidates(snap, ctx, edges.drop_last());
        match candidate(snap, ctx, edges.last()) {
            Some(c) => b.push(c),
            None => b,
        }
    }
}

/// How many of some edges are severed.
pub open spec fn severed_count(edges: Seq<EdgeInfoView>) -> nat
    decreases edges.len(),
{
    if edges.len() == 0 {
        0
    } else {
        severed_count(edges.drop_last()) + (if severed(edges.last()) { 1nat } else { 0 })
    }
}

/// Law: a candidate was severed by a commit that is no mechanical
/// churn, has both ends alive, lived long enough and kept co-changing often
/// enough; and only commits behind the severance are counted.
pub proof fn conditions_hold(snap: &Snapshot, ctx: &Ctx, e: EdgeInfoView)
    ensures
        candidate(snap, ctx, e) matches Some(c) ==> {
            &&& !e.alive
            &&& e.last_died == Some(c.severed_commit.0)
            &&& !is_mechanical(ctx.commits@, c.severed_commit.0)
            &&& snap.alive(e.row.src) && snap.alive(e.row.dst)
            &&& c.lifetime_days >= ctx.params.ghost_min_lifetime_days
            &&& c.cochanges_since >= ctx.params.ghost_min_cochanges_since
            &&& c.cochanges_since <= c.since.len()
            &&& forall|i: int| 0 <= i < c.since.len() ==> (#[trigger] c.since[i]).0 > c.severed_commit.0
            &&& forall|i: int| 0 <= i < c.since.len() ==> query::counts(ctx.commits@, (#[trigger] c.since[i]).0)
        },
{
    match candidate(snap, ctx, e) {
        Some(c) => {
            let src = counted_touches(ctx.commits@, query::touches_of(snap.touches@, e.row.src));
            let dst = counted_touches(ctx.commits@, query::touches_of(snap.touches@, e.row.dst));
            lemma_counted(ctx.commits@, query::touches_of(snap.touches@, e.row.src));
            lemma_since(ctx.commits@, src, dst, e.last_died.unwrap());
            lemma_both(c.since);
        },
        None => {},
    }
}

proof fn lemma_counted(commits: Seq<CommitRow>, touches: Seq<TouchRow>)
    ensures
        forall|i: int|
            0 <= i < counted_touches(commits, touches).len() ==> query::counts(
                commits,
                #[trigger] counted_touches(commits, touches)[i],
            ),
    decreases touches.len(),
{
    if touches.len() > 0 {
        lemma_counted(commits, touches.drop_last());
        let b = counted_touches(commits, touches.drop_last());
        let r = counted_touches(commits, touches);
        assert forall|i: int| 0 <= i < r.len() implies query::counts(commits, #[trigger] r[i]) by {
            if i < b.len() {
                assert(r[i] == b[i]);
            }
        }
    }
}

proof fn lemma_since(commits: Seq<CommitRow>, src: Seq<i64>, dst: Seq<i64>, died: i64)
    requires
        forall|i: int| 0 <= i < src.len() ==> query::counts(commits, #[trigger] src[i]),
    ensures
        forall|i: int|
            0 <= i < since_severance(src, dst, died).len() ==> (#[trigger] since_severance(src, dst, died)[i]).0 > died
                && query::counts(commits, since_severance(src, dst, died)[i].0),
    decreases src.len(),
{
    if src.len() > 0 {
        assert forall|i: int| 0 <= i < src.drop_last().len() implies query::counts(
            commits,
            #[trigger] src.drop_last()[i],
        ) by {
            assert(query::counts(commits, src[i]));
        }
        assert(query::counts(commits, src[src.len() - 1]));
        lemma_since(commits, src.drop_last(), dst, died);
        let b = since_severance(src.drop_last(), dst, died);
        let r = since_severance(src, dst, died);
        assert forall|i: int| 0 <= i < r.len() implies (#[trigger] r[i]).0 > died && query::counts(
            commits,
            r[i].0,
        ) by {
            if i < b.len() {
                assert(r[i] == b[i]);
            }
        }
    }
}

proof fn lemma_both(s: Seq<(i64, bool)>)
    ensures
        0 <= both_count(s) <= s.len(),
    decreases s.len(),
{
    if s.len() > 0 {
        lemma_both(s.drop_last());
    }
}

fn mechanical_commit(ctx: &Ctx, id: i64) -> (r: bool)
    requires
        ctx.wf(),
    ensures
        r == is_mechanical(ctx.commits@, id),
{
    match ctx.commit_by_id(id) {
        Some(i) => ctx.commits[i].excluded & MECHANICAL != 0,
        None => false,
    }
}

fn time_of_birth(ctx: &Ctx, id: i64) -> (r: i64)
    requires
        ctx.wf(),
    ensures
        r == birth_time(ctx.commits@, id),
{
    if id == 0 {
        return ctx.times.earliest();
    }
    match ctx.commit_by_id(id) {
        Some(i) => ctx.commits[i].author_time,
        None => ctx.times.earliest(),
    }
}

fn time_of_death(ctx: &Ctx, id: i64) -> (r: i64)
    requires
        ctx.wf(),
    ensures
        r == death_time(ctx.commits@, id),
{
    match ctx.commit_by_id(id) {
        Some(i) => ctx.commits[i].author_time,
        None => ctx.times.now(),
    }
}

fn list_counted(ctx: &Ctx, touches: &Vec<TouchRow>) -> (r: Vec<i64>)
    requires
        ctx.wf(),
    ensures
        r@ == counted_touches(ctx.commits@, touches@),
{
    let mut out: Vec<i64> = Vec::new();
    let mut i: usize = 0;
    assert(touches@.take(0) =~= Seq::<TouchRow>::empty());
    while i < touches.len()
        invariant
            i <= touches@.len(),
            ctx.wf(),
            out@ == counted_touches(ctx.commits@, touches@.take(i as int)),
        decreases touches@.len() - i,
    {
        assert(touches@.take(i + 1).drop_last() =~= touches@.take(i as int));
        let c = touches[i].commit.0;
        if ctx.counts(c) {
            out.push(c);
        }
        i += 1;
    }
    assert(touches@.take(i as int) =~= touches@);
    out
}

fn holds(s: &Vec<i64>, x: i64) -> (r: bool)
    ensures
        r == s@.contains(x),
{
    let mut i: usize = 0;
    while i < s.len()
        invariant
            i <= s@.len(),
            forall|k: int| 0 <= k < i ==> s@[k] != x,
        decreases s@.len() - i,
    {
        if s[i] == x {
            return true;
        }
        i += 1;
    }
    false
}

fn list_since(src: &Vec<i64>, dst: &Vec<i64>, died: i64) -> (r: (Vec<(i64, bool)>, usize))
    ensures
        r.0@ == since_severance(src@, dst@, died),
        r.1 == both_count(r.0@),
{
    let mut out: Vec<(i64, bool)> = Vec::new();
    let mut n: usize = 0;
    let mut i: usize = 0;
    assert(src@.take(0) =~= Seq::<i64>::empty());
    while i < src.len()
        invariant
            i <= src@.len(),
            out@ == since_severance(src@.take(i as int), dst@, died),
            n == both_count(out@),
            n <= i,
        decreases src@.len() - i,
    {
        assert(src@.take(i + 1).drop_last() =~= src@.take(i as int));
        let c = src[i];
        if c > died {
            let ghost before = out@;
            let both = holds(dst, c);
            out.push((c, both));
            assert(out@.drop_last() =~= before);
            if both {
                n += 1;
            }
        }
        i += 1;
    }
    assert(src@.take(i as int) =~= src@);
    (out, n)
}

fn examine(snap: &Snapshot, ctx: &Ctx, e: &EdgeInfo) -> (r: Option<GhostCandidate>)
    requires
        snap.wf(),
        ctx.wf(),
        e@.last_died is Some ==> e@.intervals.len() > 0,
    ensures
        match r {
            Some(c) => candidate(snap, ctx, e@) == Some(c@),
            None => candidate(snap, ctx, e@) is None,
        },
{
    let died = match e.last_died {
        Some(d) => d,
        None => {
            return None;
        },
    };
    if e.alive || mechanical_commit(ctx, died) {
        return None;
    }
    if !snap.files.alive(e.row.src) || !snap.files.alive(e.row.dst) {
        return None;
    }
    let born = e.intervals[e.intervals.len() - 1].0;
    let severed_time = time_of_death(ctx, died);
    let lifetime_days = days_between(time_of_birth(ctx, born), severed_time);
    if lifetime_days < ctx.params.ghost_min_lifetime_days {
        return None;
    }
    let src = list_counted(ctx, &snap.touches.touches_for_file(e.row.src));
    let dst = list_counted(ctx, &snap.touches.touches_for_file(e.row.dst));
    if src.len() == 0 || dst.len() == 0 {
        return None;
    }
    let (since, both) = list_since(&src, &dst, died);
    if (both as i128) < ctx.params.ghost_min_cochanges_since as i128 {
        return None;
    }
    Some(
        GhostCandidate {
            edge_id: e.row.id,
            severed_commit: CommitId(died),
            severed_time,
            lifetime_days,
            cochanges_since: both,
            since,
        },
    )
}

/// The edges that an index knows as severed, counted, and those of them that
/// meet every condition but that of confidence.
pub fn compute(snap: &Snapshot, ctx: &Ctx) -> (r: (usize, Vec<GhostCandidate>))
    requires
        snap.wf(),
        ctx.wf(),
    ensures
        r.0 == severed_count(snap.graph(ctx)),
        candidate_views(r.1@) == candidates(snap, ctx, snap.graph(ctx)),
{
    let graph = load_graph(&snap.edges, &snap.intervals, &ctx.times);
    let ghost g = graph@;
    let mut n: usize = 0;
    let mut out: Vec<GhostCandidate> = Vec::new();
    let mut i: usize = 0;
    assert(g.take(0) =~= Seq::<EdgeInfoView>::empty());
    assert(candidate_views(out@) =~= Seq::<CandidateView>::empty());
    while i < graph.edges.len()
        invariant
            i <= graph.edges@.len(),
            snap.wf(),
            ctx.wf(),
            g == graph@,
            g == snap.graph(ctx),
            g == graph::info_views(graph.edges@),
            n == severed_count(g.take(i as int)),
            n <= i,
            candidate_views(out@) == candidates(snap, ctx, g.take(i as int)),
        decreases graph.edges@.len() - i,
    {
        let e = &graph.edges[i];
        let ghost before = out@;
        proof {
            assert(g.take(i + 1).drop_last() =~= g.take(i as int));
            assert(g.take(i + 1).last() == e@);
            assert(graph::info_views(graph.edges@).len() == graph.edges@.len());
            assert(snap.graph(ctx).len() == snap.edges@.len());
            assert(snap.graph(ctx)[i as int] == graph::edge_info(
                snap.edges@[i as int],
                snap.intervals@,
                query::commit_ids(ctx.commits@),
                query::commit_times(ctx.commits@),
            ));
            assert(g[i as int] == e@);
        }
        if !e.alive && e.last_died.is_some() {
            n += 1;
        }
        match examine(snap, ctx, e) {
            Some(c) => {
                let ghost cv = c@;
                out.push(c);
                assert(candidate_views(out@) =~= candidate_views(before).push(cv));
            },
            None => {},
        }
        i += 1;
    }
    assert(g.take(i as int) =~= g);
    (n, out)
}

} // verus!
