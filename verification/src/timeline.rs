//! The history of one file: birth, renames, edge events, churn by quarter.

use crate::graph::{load_graph, Graph};
use crate::graph;
use crate::model::FileId;
use crate::order::stable_order;
use crate::order;
use crate::postings;
use crate::query::{resolve_file, CommitRef, CommitRefView, Ctx, QueryError, Snapshot, SCHEMA_VERSION};
use crate::query;
use crate::rows::{FileRow, PathIntervalRow, TouchRow};
use crate::rows;
use crate::text;
use crate::time::quarter_str;
use crate::time;
use vstd::prelude::*;

pub mod laws;

verus! {

pub struct TimelinePathSpan {
    pub path: String,
    pub from: CommitRef,
    pub to: Option<CommitRef>,
    /// In hundredths.
    pub confidence: u8,
}

#[verifier::ext_equal]
pub struct PathSpanView {
    pub path: Seq<char>,
    pub from: CommitRefView,
    pub to: Option<CommitRefView>,
    pub confidence: u8,
}

impl View for TimelinePathSpan {
    type V = PathSpanView;

    open spec fn view(&self) -> PathSpanView {
        PathSpanView {
            path: self.path@,
            from: self.from@,
            to: query::opt_ref(self.to),
            confidence: self.confidence,
        }
    }
}

pub struct TimelineEdgeEvent {
    pub commit: CommitRef,
    pub event: &'static str,
    pub kind: &'static str,
    pub other: String,
    pub direction: &'static str,
}

#[verifier::ext_equal]
pub struct EdgeEventView {
    pub commit: CommitRefView,
    pub event: Seq<char>,
    pub kind: Seq<char>,
    pub other: Seq<char>,
    pub direction: Seq<char>,
}

impl View for TimelineEdgeEvent {
    type V = EdgeEventView;

    open spec fn view(&self) -> EdgeEventView {
        EdgeEventView {
            commit: self.commit@,
            event: self.event@,
            kind: self.kind@,
            other: self.other@,
            direction: self.direction@,
        }
    }
}

pub struct ChurnBucket {
    pub period: String,
    pub touches: usize,
    pub lines: i128,
}

#[verifier::ext_equal]
pub struct BucketView {
    pub period: Seq<char>,
    pub touches: int,
    pub lines: int,
}

impl View for ChurnBucket {
    type V = BucketView;

    open spec fn view(&self) -> BucketView {
        BucketView { period: self.period@, touches: self.touches as int, lines: self.lines as int }
    }
}

pub struct TimelineOutput {
    pub schema: i64,
    pub file: String,
    pub born: CommitRef,
    pub died: Option<CommitRef>,
    pub paths: Vec<TimelinePathSpan>,
    pub edge_events: Vec<TimelineEdgeEvent>,
    pub churn: Vec<ChurnBucket>,
}

#[verifier::ext_equal]
pub struct TimelineView {
    pub schema: i64,
    pub file: Seq<char>,
    pub born: CommitRefView,
    pub died: Option<CommitRefView>,
    pub paths: Seq<PathSpanView>,
    pub edge_events: Seq<EdgeEventView>,
    pub churn: Seq<BucketView>,
}

impl View for TimelineOutput {
    type V = TimelineView;

    open spec fn view(&self) -> TimelineView {
        TimelineView {
            schema: self.schema,
            file: self.file@,
            born: self.born@,
            died: query::opt_ref(self.died),
            paths: span_views(self.paths@),
            edge_events: event_views(self.edge_events@),
            churn: bucket_views(self.churn@),
        }
    }
}

/// As many edge events are shown.
pub const MAX_EVENTS: usize = 200;

// ---- paths ----

/// The paths of a file in the order of the table.
pub open spec fn paths_of(paths: Seq<PathIntervalRow>, f: FileId) -> Seq<PathIntervalRow>
    decreases paths.len(),
{
    if paths.len() == 0 {
        Seq::empty()
    } else {
        let b = paths_of(paths.drop_last(), f);
        if paths.last().file_id == f {
            b.push(paths.last())
        } else {
            b
        }
    }
}

pub open spec fn span_view(ctx: &Ctx, p: PathIntervalRow) -> PathSpanView {
    PathSpanView {
        path: p.path@,
        from: query::ref_to(ctx.commits@, p.from_commit.0),
        to: match p.to_commit {
            Some(c) => Some(query::ref_to(ctx.commits@, c.0)),
            None => None,
        },
        confidence: p.confidence,
    }
}

pub open spec fn path_keys(s: Seq<PathIntervalRow>) -> Seq<i128> {
    s.map_values(|p: PathIntervalRow| p.from_commit.0 as i128)
}

/// The paths that a file has had, oldest first.
pub open spec fn path_history(ctx: &Ctx, paths: Seq<PathIntervalRow>, f: FileId) -> Seq<PathSpanView> {
    let s = paths_of(paths, f);
    order::order_of(path_keys(s)).map_values(|i: int| span_view(ctx, s[i]))
}

pub open spec fn span_views(s: Seq<TimelinePathSpan>) -> Seq<PathSpanView> {
    s.map_values(|p: TimelinePathSpan| p@)
}

fn list_paths(snap: &Snapshot, ctx: &Ctx, f: FileId) -> (r: Vec<TimelinePathSpan>)
    requires
        ctx.wf(),
    ensures
        span_views(r@) == path_history(ctx, snap.files.paths(), f),
{
    let all = snap.files.path_rows();
    let ghost ps = all@;
    let mut at: Vec<usize> = Vec::new();
    let mut keys: Vec<i128> = Vec::new();
    let mut i: usize = 0;
    assert(ps.take(0) =~= Seq::<PathIntervalRow>::empty());
    while i < all.len()
        invariant
            i <= all@.len(),
            ps == all@,
            at@.len() == keys@.len(),
            at@.len() == paths_of(ps.take(i as int), f).len(),
            forall|k: int| 0 <= k < at@.len() ==> #[trigger] at@[k] < all@.len(),
            forall|k: int| 0 <= k < at@.len() ==> ps[#[trigger] at@[k] as int] == paths_of(ps.take(i as int), f)[k],
            forall|k: int| 0 <= k < keys@.len() ==> #[trigger] keys@[k] == ps[at@[k] as int].from_commit.0,
        decreases all@.len() - i,
    {
        assert(ps.take(i + 1).drop_last() =~= ps.take(i as int));
        let ghost a0 = at@;
        if all[i].file_id == f {
            at.push(i);
            keys.push(all[i].from_commit.0 as i128);
        }
        proof {
            let q = paths_of(ps.take(i + 1), f);
            assert forall|k: int| 0 <= k < at@.len() implies ps[#[trigger] at@[k] as int] == q[k] by {
                if k < a0.len() {
                    assert(at@[k] == a0[k]);
                }
            }
        }
        i += 1;
    }
    assert(ps.take(i as int) =~= ps);
    let ghost s = paths_of(ps, f);
    assert(keys@ =~= path_keys(s)) by {
        assert forall|k: int| 0 <= k < keys@.len() implies keys@[k] == path_keys(s)[k] by {
            assert(ps[at@[k] as int] == s[k]);
        }
    }
    let order = stable_order(&keys);
    let mut out: Vec<TimelinePathSpan> = Vec::new();
    let mut k: usize = 0;
    while k < order.len()
        invariant
            k <= order@.len(),
            ctx.wf(),
            ps == all@,
            s == paths_of(ps, f),
            at@.len() == s.len(),
            forall|j: int| 0 <= j < at@.len() ==> #[trigger] at@[j] < all@.len(),
            forall|j: int| 0 <= j < at@.len() ==> ps[#[trigger] at@[j] as int] == s[j],
            forall|j: int| 0 <= j < order@.len() ==> #[trigger] order@[j] < at@.len(),
            out@.len() == k,
            forall|j: int| 0 <= j < k ==> (#[trigger] out@[j])@ == span_view(ctx, s[order@[j] as int]),
        decreases order@.len() - k,
    {
        let x = at[order[k]];
        assert(ps[x as int] == s[order@[k as int] as int]);
        let p = &all[x];
        let to = match p.to_commit {
            Some(c) => Some(c.0),
            None => None,
        };
        out.push(
            TimelinePathSpan {
                path: p.path.clone(),
                from: ctx.commit_ref(p.from_commit.0),
                to: ctx.opt_commit_ref(to),
                confidence: p.confidence,
            },
        );
        k += 1;
    }
    proof {
        let o = order::order_of(keys@);
        let want = path_history(ctx, ps, f);
        assert(postings::as_ints(order@) == o);
        assert(o.len() == order@.len());
        assert forall|j: int| 0 <= j < out@.len() implies span_views(out@)[j] == want[j] by {
            assert(o[j] == order@[j]);
        }
        assert(span_views(out@) =~= want);
    }
    out
}

// ---- edge events ----

/// An event and the commit it happened at.
pub open spec fn event_view(
    snap: &Snapshot,
    ctx: &Ctx,
    q: FileId,
    e: graph::EdgeInfoView,
    commit: i64,
    opened: bool,
) -> (i64, EdgeEventView) {
    (
        commit,
        EdgeEventView {
            commit: query::ref_to(ctx.commits@, commit),
            event: if opened { "opened"@ } else { "closed"@ },
            kind: e.row.kind.name(),
            other: snap.shown(graph::other_end(e.row, q)),
            direction: if e.row.src == q { "out"@ } else { "in"@ },
        },
    )
}

/// The events of one span: it opened, and it closed where it did.
pub open spec fn span_events(snap: &Snapshot, ctx: &Ctx, q: FileId, e: graph::EdgeInfoView, s: (i64, Option<i64>)) -> Seq<
    (i64, EdgeEventView),
> {
    let opened = seq![event_view(snap, ctx, q, e, s.0, true)];
    match s.1 {
        Some(d) => opened.push(event_view(snap, ctx, q, e, d, false)),
        None => opened,
    }
}

/// The events of some spans of an edge.
pub open spec fn spans_events(
    snap: &Snapshot,
    ctx: &Ctx,
    q: FileId,
    e: graph::EdgeInfoView,
    spans: Seq<(i64, Option<i64>)>,
) -> Seq<(i64, EdgeEventView)>
    decreases spans.len(),
{
    if spans.len() == 0 {
        Seq::empty()
    } else {
        spans_events(snap, ctx, q, e, spans.drop_last()) + span_events(snap, ctx, q, e, spans.last())
    }
}

/// The events of some edges at a file.
pub open spec fn edges_events(
    snap: &Snapshot,
    ctx: &Ctx,
    q: FileId,
    edges: Seq<graph::EdgeInfoView>,
    at: Seq<int>,
) -> Seq<(i64, EdgeEventView)>
    decreases at.len(),
{
    if at.len() == 0 {
        Seq::empty()
    } else {
        let e = edges[at.last()];
        edges_events(snap, ctx, q, edges, at.drop_last()) + spans_events(snap, ctx, q, e, e.intervals)
    }
}

pub open spec fn event_keys(s: Seq<(i64, EdgeEventView)>) -> Seq<i128> {
    s.map_values(|x: (i64, EdgeEventView)| x.0 as i128)
}

/// The edge events of a file, oldest first.
pub open spec fn event_history(snap: &Snapshot, ctx: &Ctx, q: FileId) -> Seq<EdgeEventView> {
    let edges = snap.graph(ctx);
    let s = edges_events(snap, ctx, q, edges, graph::edges_at(edges, q));
    order::order_of(event_keys(s)).map_values(|i: int| s[i].1)
}

pub open spec fn dated_views(s: Seq<(i64, TimelineEdgeEvent)>) -> Seq<(i64, EdgeEventView)> {
    s.map_values(|x: (i64, TimelineEdgeEvent)| (x.0, x.1@))
}

pub open spec fn event_views(s: Seq<TimelineEdgeEvent>) -> Seq<EdgeEventView> {
    s.map_values(|x: TimelineEdgeEvent| x@)
}

fn push_event(
    out: &mut Vec<(i64, TimelineEdgeEvent)>,
    snap: &Snapshot,
    ctx: &Ctx,
    q: FileId,
    e: &graph::EdgeInfo,
    commit: i64,
    opened: bool,
)
    requires
        snap.wf(),
        ctx.wf(),
    ensures
        dated_views(final(out)@) == dated_views(old(out)@).push(event_view(snap, ctx, q, e@, commit, opened)),
{
    let ghost before = out@;
    let other = if e.row.src == q {
        e.row.dst
    } else {
        e.row.src
    };
    let event = TimelineEdgeEvent {
        commit: ctx.commit_ref(commit),
        event: if opened {
            "opened"
        } else {
            "closed"
        },
        kind: e.row.kind.as_str(),
        other: snap.files.display_path(other),
        direction: if e.row.src == q {
            "out"
        } else {
            "in"
        },
    };
    assert(event@ =~= event_view(snap, ctx, q, e@, commit, opened).1);
    out.push((commit, event));
    assert(dated_views(out@) =~= dated_views(before).push((commit, event@)));
}

fn push_spans(
    out: &mut Vec<(i64, TimelineEdgeEvent)>,
    snap: &Snapshot,
    ctx: &Ctx,
    q: FileId,
    e: &graph::EdgeInfo,
)
    requires
        snap.wf(),
        ctx.wf(),
    ensures
        dated_views(final(out)@) == dated_views(old(out)@) + spans_events(snap, ctx, q, e@, e@.intervals),
{
    let ghost start = dated_views(out@);
    let ghost s = e.intervals@;
    let mut i: usize = 0;
    assert(s.take(0) =~= Seq::<(i64, Option<i64>)>::empty());
    assert(start + spans_events(snap, ctx, q, e@, s.take(0)) =~= start);
    while i < e.intervals.len()
        invariant
            i <= e.intervals@.len(),
            s == e.intervals@,
            snap.wf(),
            ctx.wf(),
            dated_views(out@) == start + spans_events(snap, ctx, q, e@, s.take(i as int)),
        decreases e.intervals@.len() - i,
    {
        assert(s.take(i + 1).drop_last() =~= s.take(i as int));
        let ghost b = spans_events(snap, ctx, q, e@, s.take(i as int));
        let (born, died) = e.intervals[i];
        push_event(out, snap, ctx, q, e, born, true);
        match died {
            Some(d) => {
                push_event(out, snap, ctx, q, e, d, false);
            },
            None => {},
        }
        assert(dated_views(out@) =~= start + (b + span_events(snap, ctx, q, e@, s[i as int])));
        i += 1;
    }
    assert(s.take(i as int) =~= s);
}

fn list_events(snap: &Snapshot, ctx: &Ctx, graph: &Graph, q: FileId) -> (r: Vec<TimelineEdgeEvent>)
    requires
        snap.wf(),
        ctx.wf(),
        graph.wf(),
        graph@ == snap.graph(ctx),
    ensures
        event_views(r@) == rows::at_most(event_history(snap, ctx, q), MAX_EVENTS as int),
{
    let at = graph.neighbors(q);
    let ghost a = postings::as_ints(at@);
    let mut dated: Vec<(i64, TimelineEdgeEvent)> = Vec::new();
    let mut i: usize = 0;
    assert(a.take(0) =~= Seq::<int>::empty());
    assert(dated_views(dated@) =~= Seq::<(i64, EdgeEventView)>::empty());
    while i < at.len()
        invariant
            i <= at@.len(),
            a == postings::as_ints(at@),
            snap.wf(),
            ctx.wf(),
            graph.wf(),
            forall|j: int| 0 <= j < at@.len() ==> #[trigger] at@[j] < graph@.len(),
            dated_views(dated@) == edges_events(snap, ctx, q, graph@, a.take(i as int)),
        decreases at@.len() - i,
    {
        assert(a.take(i + 1).drop_last() =~= a.take(i as int));
        assert(a.take(i + 1).last() == at@[i as int]);
        let e = &graph.edges[at[i]];
        assert(graph@[at@[i as int] as int] == e@);
        push_spans(&mut dated, snap, ctx, q, e);
        i += 1;
    }
    assert(a.take(i as int) =~= a);
    let ghost s = dated_views(dated@);
    let mut keys: Vec<i128> = Vec::new();
    let mut m: usize = 0;
    while m < dated.len()
        invariant
            m <= dated@.len(),
            keys@.len() == m,
            forall|j: int| 0 <= j < m ==> #[trigger] keys@[j] == dated@[j].0,
        decreases dated@.len() - m,
    {
        keys.push(dated[m].0 as i128);
        m += 1;
    }
    assert(keys@ =~= event_keys(s));
    let order = stable_order(&keys);
    let n: usize = if order.len() > MAX_EVENTS {
        MAX_EVENTS
    } else {
        order.len()
    };
    let mut out: Vec<TimelineEdgeEvent> = Vec::new();
    let mut k: usize = 0;
    while k < n
        invariant
            k <= n <= order@.len(),
            forall|j: int| 0 <= j < order@.len() ==> #[trigger] order@[j] < dated@.len(),
            out@.len() == k,
            forall|j: int| 0 <= j < k ==> (#[trigger] out@[j])@ == dated@[order@[j] as int].1@,
        decreases n - k,
    {
        let e = &dated[order[k]].1;
        out.push(
            TimelineEdgeEvent {
                commit: crate::path_query::copy_ref(&e.commit),
                event: e.event,
                kind: e.kind,
                other: e.other.clone(),
                direction: e.direction,
            },
        );
        k += 1;
    }
    proof {
        let o = order::order_of(keys@);
        let want = rows::at_most(event_history(snap, ctx, q), MAX_EVENTS as int);
        assert(postings::as_ints(order@) == o);
        assert(o.len() == order@.len());
        assert forall|j: int| 0 <= j < out@.len() implies event_views(out@)[j] == want[j] by {
            assert(o[j] == order@[j]);
            assert(s[order@[j] as int] == (dated@[order@[j] as int].0, dated@[order@[j] as int].1@));
        }
        assert(event_views(out@) =~= want);
    }
    out
}

// ---- churn ----

/// Where the bucket of a quarter stands.
pub open spec fn bucket_at(s: Seq<BucketView>, period: Seq<char>) -> Option<int>
    decreases s.len(),
{
    if s.len() == 0 {
        None
    } else if s.last().period == period {
        Some(s.len() - 1)
    } else {
        bucket_at(s.drop_last(), period)
    }
}

/// The buckets once a touch is counted.
pub open spec fn with_touch(s: Seq<BucketView>, period: Seq<char>, lines: int) -> Seq<BucketView> {
    match bucket_at(s, period) {
        Some(i) => s.update(
            i,
            BucketView { period: s[i].period, touches: s[i].touches + 1, lines: s[i].lines + lines },
        ),
        None => s.push(BucketView { period, touches: 1, lines }),
    }
}

/// The touches of a file by quarter, in the order in which quarters come up.
pub open spec fn bucketed(ctx: &Ctx, touches: Seq<TouchRow>) -> Seq<BucketView>
    decreases touches.len(),
{
    if touches.len() == 0 {
        Seq::empty()
    } else {
        let t = touches.last();
        with_touch(
            bucketed(ctx, touches.drop_last()),
            time::quarter_of(query::when(ctx.commits@, t.commit.0)),
            t.lines as int,
        )
    }
}

/// A bucket put into its place by quarter.
pub open spec fn bucket_placed(s: Seq<BucketView>, b: BucketView) -> Seq<BucketView>
    decreases s.len(),
{
    if s.len() == 0 || text::text_le(s.last().period, b.period) {
        s.push(b)
    } else {
        bucket_placed(s.drop_last(), b).push(s.last())
    }
}

/// The buckets ordered by quarter.
pub open spec fn by_quarter(s: Seq<BucketView>) -> Seq<BucketView>
    decreases s.len(),
{
    if s.len() == 0 {
        Seq::empty()
    } else {
        bucket_placed(by_quarter(s.drop_last()), s.last())
    }
}

pub open spec fn bucket_views(s: Seq<ChurnBucket>) -> Seq<BucketView> {
    s.map_values(|b: ChurnBucket| b@)
}

fn list_buckets(ctx: &Ctx, touches: &Vec<TouchRow>) -> (r: Vec<ChurnBucket>)
    requires
        ctx.wf(),
    ensures
        bucket_views(r@) == bucketed(ctx, touches@),
{
    let mut out: Vec<ChurnBucket> = Vec::new();
    let mut i: usize = 0;
    let len = touches.len();
    assert(touches@.take(0) =~= Seq::<TouchRow>::empty());
    assert(bucket_views(out@) =~= Seq::<BucketView>::empty());
    while i < len
        invariant
            i <= len,
            len == touches@.len(),
            ctx.wf(),
            bucket_views(out@) == bucketed(ctx, touches@.take(i as int)),
            forall|k: int| 0 <= k < out@.len() ==> (#[trigger] out@[k]).touches <= i,
            forall|k: int|
                0 <= k < out@.len() ==> -(i * 0x8000_0000_0000_0000) <= (#[trigger] out@[k]).lines <= i
                    * 0x8000_0000_0000_0000,
        decreases len - i,
    {
        assert(touches@.take(i + 1).drop_last() =~= touches@.take(i as int));
        let t = touches[i];
        let period = quarter_str(ctx.time_of(t.commit.0));
        let ghost s = bucket_views(out@);
        let ghost o = out@;
        let mut k: usize = out.len();
        assert(s.take(k as int) =~= s);
        while k > 0 && !text::eq_str(out[k - 1].period.as_str(), period.as_str())
            invariant
                k <= out@.len(),
                out@ == o,
                s == bucket_views(o),
                bucket_at(s, period@) == bucket_at(s.take(k as int), period@),
            decreases k,
        {
            assert(s.take(k as int).drop_last() =~= s.take(k - 1));
            assert(s.take(k as int).last() == o[k - 1]@);
            k -= 1;
        }
        if k > 0 {
            proof {
                assert(s.take(k as int).last() == o[k - 1]@);
                assert(o[k - 1].touches <= i);
            }
            let n = out[k - 1].touches + 1;
            let lines = out[k - 1].lines + t.lines as i128;
            out[k - 1].touches = n;
            out[k - 1].lines = lines;
            assert(bucket_views(out@) =~= with_touch(s, period@, t.lines as int));
        } else {
            let ghost pv = period@;
            out.push(ChurnBucket { period, touches: 1, lines: t.lines as i128 });
            assert(bucket_views(out@) =~= with_touch(s, pv, t.lines as int));
        }
        i += 1;
    }
    assert(touches@.take(i as int) =~= touches@);
    out
}

proof fn lemma_bucket_placed(s: Seq<BucketView>, b: BucketView, at: int)
    requires
        0 <= at <= s.len(),
        forall|j: int| at <= j < s.len() ==> !text::text_le((#[trigger] s[j]).period, b.period),
        at > 0 ==> text::text_le(s[at - 1].period, b.period),
    ensures
        bucket_placed(s, b) == s.insert(at, b),
    decreases s.len(),
{
    if at == s.len() {
        assert(s.insert(at, b) =~= s.push(b));
    } else {
        assert(!text::text_le(s[s.len() - 1].period, b.period));
        lemma_bucket_placed(s.drop_last(), b, at);
        assert(s.drop_last().insert(at, b).push(s.last()) =~= s.insert(at, b));
    }
}

fn sort_buckets(buckets: Vec<ChurnBucket>) -> (r: Vec<ChurnBucket>)
    ensures
        bucket_views(r@) == by_quarter(bucket_views(buckets@)),
{
    let ghost all = bucket_views(buckets@);
    let mut out: Vec<ChurnBucket> = Vec::new();
    assert(all.take(0) =~= Seq::<BucketView>::empty());
    assert(bucket_views(out@) =~= Seq::<BucketView>::empty());
    for b in it: buckets
        invariant
            it.seq() == buckets@,
            all == bucket_views(buckets@),
            bucket_views(out@) == by_quarter(all.take(it.index() as int)),
    {
        let ghost n = it.index() as int;
        let ghost s = bucket_views(out@);
        let ghost o = out@;
        let ghost bv = b@;
        proof {
            assert(all.take(n + 1).drop_last() =~= all.take(n));
            assert(all.take(n + 1).last() == bv);
        }
        let mut at: usize = out.len();
        while at > 0 && !text::le_text(out[at - 1].period.as_str(), b.period.as_str())
            invariant
                at <= out@.len(),
                out@ == o,
                s == bucket_views(o),
                bv == b@,
                forall|j: int| at <= j < s.len() ==> !text::text_le((#[trigger] s[j]).period, bv.period),
            decreases at,
        {
            assert(s[at - 1] == o[at - 1]@);
            at -= 1;
        }
        proof {
            if at > 0 {
                assert(s[at - 1] == o[at - 1]@);
            }
            lemma_bucket_placed(s, bv, at as int);
        }
        out.insert(at, b);
        assert(bucket_views(out@) =~= s.insert(at as int, bv));
    }
    assert(all.take(all.len() as int) =~= all);
    out
}

/// What is told of a file.
pub open spec fn file_story(snap: &Snapshot, ctx: &Ctx, row: FileRow) -> TimelineView {
    TimelineView {
        schema: SCHEMA_VERSION,
        file: snap.shown(row.id),
        born: query::ref_to(ctx.commits@, row.born_commit.0),
        died: match row.died_commit {
            Some(c) => Some(query::ref_to(ctx.commits@, c.0)),
            None => None,
        },
        paths: path_history(ctx, snap.files.paths(), row.id),
        edge_events: rows::at_most(event_history(snap, ctx, row.id), MAX_EVENTS as int),
        churn: by_quarter(bucketed(ctx, query::touches_of(snap.touches@, row.id))),
    }
}

/// What is told of the file that a path names.
pub open spec fn story(snap: &Snapshot, ctx: &Ctx, path: Seq<char>) -> Option<TimelineView> {
    match query::asked_file(snap, path) {
        Some(i) => Some(file_story(snap, ctx, snap.files.files()[i])),
        None => None,
    }
}

/// Law: a file's present path and a path it had before tell one story, unless
/// another file has the old path now or took it up later.
pub proof fn old_paths_tell_one_story(
    snap: &Snapshot,
    ctx: &Ctx,
    now: Seq<char>,
    old: Seq<char>,
    at: int,
    had: int,
)
    requires
        ({
            let files = snap.files.files();
            let paths = snap.files.paths();
            let here = query::clean_path(now);
            let there = query::clean_path(old);
            &&& 0 <= at < files.len()
            &&& text::opt_view(files[at].current_path) == Some(here)
            &&& forall|i: int|
                0 <= i < files.len() && i != at ==> text::opt_view((#[trigger] files[i]).current_path) != Some(here)
                    && files[i].id != files[at].id
            &&& forall|i: int| 0 <= i < files.len() ==> text::opt_view((#[trigger] files[i]).current_path) != Some(there)
            &&& 0 <= had < paths.len()
            &&& paths[had].path@ == there
            &&& paths[had].file_id == files[at].id
            &&& forall|j: int|
                0 <= j < paths.len() && (#[trigger] paths[j]).path@ == there && paths[j].file_id != files[at].id
                    ==> paths[j].from_commit.0 < paths[had].from_commit.0
        }),
    ensures
        story(snap, ctx, now) == Some(file_story(snap, ctx, snap.files.files()[at])),
        story(snap, ctx, old) == story(snap, ctx, now),
{
    rows::past_and_present_agree(
        snap.files.files(),
        snap.files.paths(),
        query::clean_path(now),
        query::clean_path(old),
        at,
        had,
    );
}

/// The touches that buckets count.
pub open spec fn touches_in(s: Seq<BucketView>) -> int
    decreases s.len(),
{
    if s.len() == 0 {
        0
    } else {
        touches_in(s.drop_last()) + s.last().touches
    }
}

/// The changed lines that buckets count.
pub open spec fn lines_in(s: Seq<BucketView>) -> int
    decreases s.len(),
{
    if s.len() == 0 {
        0
    } else {
        lines_in(s.drop_last()) + s.last().lines
    }
}

/// The lines that touches changed.
pub open spec fn lines_of(touches: Seq<TouchRow>) -> int
    decreases touches.len(),
{
    if touches.len() == 0 {
        0
    } else {
        lines_of(touches.drop_last()) + touches.last().lines
    }
}

/// No quarter has two buckets.
spec fn apart(s: Seq<BucketView>) -> bool {
    forall|i: int, j: int| 0 <= i < j < s.len() ==> (#[trigger] s[i]).period != (#[trigger] s[j]).period
}

/// A quarter has a bucket.
pub open spec fn has_bucket(s: Seq<BucketView>, period: Seq<char>) -> bool {
    exists|i: int| 0 <= i < s.len() && (#[trigger] s[i]).period == period
}

/// Quarters strictly ascend.
pub open spec fn quarters_ascend(s: Seq<BucketView>) -> bool {
    forall|i: int, j: int|
        0 <= i < j < s.len() ==> text::text_le((#[trigger] s[i]).period, (#[trigger] s[j]).period) && s[i].period
            != s[j].period
}

/// Where a bucket is found it is of the quarter, and it is found if there is one.
pub proof fn lemma_bucket_at(s: Seq<BucketView>, period: Seq<char>)
    ensures
        match bucket_at(s, period) {
            Some(i) => 0 <= i < s.len() && s[i].period == period,
            None => !has_bucket(s, period),
        },
    decreases s.len(),
{
    if s.len() > 0 {
        let d = s.drop_last();
        lemma_bucket_at(d, period);
        if bucket_at(s, period) is None && has_bucket(s, period) {
            let i = choose|i: int| 0 <= i < s.len() && (#[trigger] s[i]).period == period;
            assert(d[i].period == period);
        }
    }
}

proof fn lemma_sums_update(s: Seq<BucketView>, i: int, b: BucketView)
    requires
        0 <= i < s.len(),
    ensures
        touches_in(s.update(i, b)) == touches_in(s) - s[i].touches + b.touches,
        lines_in(s.update(i, b)) == lines_in(s) - s[i].lines + b.lines,
    decreases s.len(),
{
    let d = s.drop_last();
    let u = s.update(i, b);
    if i == s.len() - 1 {
        assert(u.drop_last() =~= d);
    } else {
        lemma_sums_update(d, i, b);
        assert(u.drop_last() =~= d.update(i, b));
    }
}

proof fn lemma_sums_push(s: Seq<BucketView>, b: BucketView)
    ensures
        touches_in(s.push(b)) == touches_in(s) + b.touches,
        lines_in(s.push(b)) == lines_in(s) + b.lines,
{
    assert(s.push(b).drop_last() =~= s);
}

proof fn lemma_bucketed(ctx: &Ctx, touches: Seq<TouchRow>)
    ensures
        apart(bucketed(ctx, touches)),
        touches_in(bucketed(ctx, touches)) == touches.len(),
        lines_in(bucketed(ctx, touches)) == lines_of(touches),
    decreases touches.len(),
{
    if touches.len() > 0 {
        let t = touches.last();
        let b = bucketed(ctx, touches.drop_last());
        let r = bucketed(ctx, touches);
        let period = time::quarter_of(query::when(ctx.commits@, t.commit.0));
        lemma_bucketed(ctx, touches.drop_last());
        lemma_bucket_at(b, period);
        match bucket_at(b, period) {
            Some(i) => {
                lemma_sums_update(b, i, r[i]);
            },
            None => {
                lemma_sums_push(b, r.last());
                assert forall|i: int, j: int| 0 <= i < j < r.len() implies (#[trigger] r[i]).period != (
                #[trigger] r[j]).period by {
                    assert(r[i] == b[i]);
                }
            },
        }
    }
}

proof fn lemma_placed(s: Seq<BucketView>, b: BucketView)
    requires
        quarters_ascend(s),
        !has_bucket(s, b.period),
    ensures
        quarters_ascend(bucket_placed(s, b)),
        touches_in(bucket_placed(s, b)) == touches_in(s) + b.touches,
        lines_in(bucket_placed(s, b)) == lines_in(s) + b.lines,
        forall|p: Seq<char>| #[trigger] has_bucket(bucket_placed(s, b), p) <==> has_bucket(s, p) || p == b.period,
    decreases s.len(),
{
    let r = bucket_placed(s, b);
    if s.len() == 0 || text::text_le(s.last().period, b.period) {
        lemma_sums_push(s, b);
        assert forall|i: int, j: int| 0 <= i < j < r.len() implies text::text_le(
            (#[trigger] r[i]).period,
            (#[trigger] r[j]).period,
        ) && r[i].period != r[j].period by {
            assert(r[i] == s[i]);
            if j == s.len() {
                if i < s.len() - 1 {
                    assert(text::text_le(s[i].period, s[s.len() - 1].period));
                    text::lemma_text_le_trans(s[i].period, s.last().period, b.period);
                }
            } else {
                assert(r[j] == s[j]);
            }
        }
        assert forall|p: Seq<char>| #[trigger] has_bucket(r, p) <==> has_bucket(s, p) || p == b.period by {
            lemma_push_has(s, b, p);
        }
    } else {
        let d = s.drop_last();
        assert(!has_bucket(d, b.period)) by {
            if has_bucket(d, b.period) {
                let i = choose|i: int| 0 <= i < d.len() && (#[trigger] d[i]).period == b.period;
                assert(s[i].period == b.period);
            }
        }
        lemma_placed(d, b);
        let g = bucket_placed(d, b);
        lemma_sums_push(g, s.last());
        assert(d.push(s.last()) =~= s);
        lemma_sums_push(d, s.last());
        text::lemma_text_le_total(s.last().period, b.period);
        assert forall|i: int, j: int| 0 <= i < j < r.len() implies text::text_le(
            (#[trigger] r[i]).period,
            (#[trigger] r[j]).period,
        ) && r[i].period != r[j].period by {
            assert(r[i] == g[i]);
            if j < g.len() {
                assert(r[j] == g[j]);
            } else {
                assert(has_bucket(g, g[i].period));
                if g[i].period == b.period {
                    assert(s[s.len() - 1] == s.last());
                } else {
                    assert(has_bucket(d, g[i].period));
                    let k = choose|k: int| 0 <= k < d.len() && (#[trigger] d[k]).period == g[i].period;
                    assert(s[k].period == g[i].period);
                    assert(text::text_le(s[k].period, s[s.len() - 1].period));
                }
            }
        }
        assert forall|p: Seq<char>| #[trigger] has_bucket(r, p) <==> has_bucket(s, p) || p == b.period by {
            lemma_push_has(g, s.last(), p);
            lemma_push_has(d, s.last(), p);
            assert(has_bucket(g, p) <==> has_bucket(d, p) || p == b.period);
        }
    }
}

proof fn lemma_push_has(s: Seq<BucketView>, b: BucketView, p: Seq<char>)
    ensures
        has_bucket(s.push(b), p) <==> has_bucket(s, p) || p == b.period,
{
    let r = s.push(b);
    if has_bucket(s, p) {
        let i = choose|i: int| 0 <= i < s.len() && (#[trigger] s[i]).period == p;
        assert(r[i].period == p);
    }
    if p == b.period {
        assert(r[s.len() as int].period == p);
    }
    if has_bucket(r, p) {
        let i = choose|i: int| 0 <= i < r.len() && (#[trigger] r[i]).period == p;
        if i < s.len() {
            assert(s[i].period == p);
        }
    }
}

proof fn lemma_by_quarter(s: Seq<BucketView>)
    requires
        apart(s),
    ensures
        quarters_ascend(by_quarter(s)),
        touches_in(by_quarter(s)) == touches_in(s),
        lines_in(by_quarter(s)) == lines_in(s),
        forall|p: Seq<char>| #[trigger] has_bucket(by_quarter(s), p) <==> has_bucket(s, p),
    decreases s.len(),
{
    if s.len() > 0 {
        let d = s.drop_last();
        let b = s.last();
        assert forall|i: int, j: int| 0 <= i < j < d.len() implies (#[trigger] d[i]).period != (
        #[trigger] d[j]).period by {
            assert(s[i].period != s[j].period);
        }
        lemma_by_quarter(d);
        assert(!has_bucket(d, b.period)) by {
            if has_bucket(d, b.period) {
                let i = choose|i: int| 0 <= i < d.len() && (#[trigger] d[i]).period == b.period;
                assert(s[i].period != s[s.len() - 1].period);
            }
        }
        lemma_placed(by_quarter(d), b);
        assert(d.push(b) =~= s);
        assert forall|p: Seq<char>| #[trigger] has_bucket(by_quarter(s), p) <==> has_bucket(s, p) by {
            lemma_push_has(d, b, p);
            assert(has_bucket(by_quarter(d), p) <==> has_bucket(d, p));
        }
    }
}

/// Law: the quarters of a file's churn ascend, each once, and count every
/// touch and every changed line.
pub proof fn churn_adds_up(snap: &Snapshot, ctx: &Ctx, row: FileRow)
    ensures
        quarters_ascend(file_story(snap, ctx, row).churn),
        touches_in(file_story(snap, ctx, row).churn) == query::touches_of(snap.touches@, row.id).len(),
        lines_in(file_story(snap, ctx, row).churn) == lines_of(query::touches_of(snap.touches@, row.id)),
{
    let t = query::touches_of(snap.touches@, row.id);
    lemma_bucketed(ctx, t);
    lemma_by_quarter(bucketed(ctx, t));
}

/// Birth, renames, edge events, churn by period.
pub fn timeline(snap: &Snapshot, ctx: &Ctx, path: &str) -> (r: Result<TimelineOutput, QueryError>)
    requires
        snap.wf(),
        ctx.wf(),
    ensures
        match r {
            Ok(out) => story(snap, ctx, path@) == Some(out@),
            Err(QueryError::FileNotFound(p)) => story(snap, ctx, path@) is None && p@ == path@,
            Err(QueryError::Other(_)) => false,
        },
{
    let i = match resolve_file(snap, path) {
        Ok(i) => i,
        Err(e) => {
            return Err(e);
        },
    };
    let row = &snap.files.rows()[i];
    let q = row.id;
    let paths = list_paths(snap, ctx, q);
    let graph = load_graph(&snap.edges, &snap.intervals, &ctx.times);
    let edge_events = list_events(snap, ctx, &graph, q);
    let touches = snap.touches.touches_for_file(q);
    let buckets = list_buckets(ctx, &touches);
    let died = match row.died_commit {
        Some(c) => Some(c.0),
        None => None,
    };
    Ok(
        TimelineOutput {
            schema: SCHEMA_VERSION,
            file: snap.files.display_path(q),
            born: ctx.commit_ref(row.born_commit.0),
            died: ctx.opt_commit_ref(died),
            paths,
            edge_events,
            churn: sort_buckets(buckets),
        },
    )
}

} // verus!
