//! What the history of a file tells, over all indexes.

use crate::graph;
use crate::model::FileId;
use crate::order;
use crate::plain;
use crate::postings;
use crate::query;
use crate::query::{Ctx, Snapshot};
use crate::rows::{FileRow, PathIntervalRow, TouchRow};
use crate::time;
use crate::timeline;
use crate::timeline::{BucketView, EdgeEventView, PathSpanView};
use vstd::prelude::*;

verus! {

// ---- paths ----

proof fn lemma_paths_of(paths: Seq<PathIntervalRow>, f: FileId)
    ensures
        forall|i: int|
            0 <= i < paths.len() && (#[trigger] paths[i]).file_id == f ==> timeline::paths_of(paths, f).contains(paths[i]),
        forall|k: int|
            0 <= k < timeline::paths_of(paths, f).len() ==> paths.contains(#[trigger] timeline::paths_of(paths, f)[k])
                && timeline::paths_of(paths, f)[k].file_id == f,
    decreases paths.len(),
{
    if paths.len() > 0 {
        let d = paths.drop_last();
        lemma_paths_of(d, f);
        let b = timeline::paths_of(d, f);
        let s = timeline::paths_of(paths, f);
        assert forall|i: int| 0 <= i < paths.len() && (#[trigger] paths[i]).file_id == f implies s.contains(paths[i]) by {
            if i < d.len() {
                assert(d[i] == paths[i]);
                assert(s[b.index_of(paths[i])] == paths[i]);
            } else {
                assert(s[b.len() as int] == paths[i]);
            }
        }
        assert forall|k: int| 0 <= k < s.len() implies paths.contains(#[trigger] s[k]) && s[k].file_id == f by {
            if k < b.len() {
                assert(b[k] == s[k]);
                assert(paths[d.index_of(s[k])] == s[k]);
            } else {
                assert(paths[paths.len() - 1] == s[k]);
            }
        }
    }
}

/// Law: the paths of a file's history are all the paths that it has had, each
/// with the commits it was taken up and given up at, and no others. They come
/// in the order in which they were taken up.
pub proof fn histories_hold_paths(snap: &Snapshot, ctx: &Ctx, row: FileRow)
    ensures
        forall|i: int|
            #![trigger snap.files.paths()[i]]
            0 <= i < snap.files.paths().len() && snap.files.paths()[i].file_id == row.id ==> timeline::file_story(
                snap,
                ctx,
                row,
            ).paths.contains(
                (PathSpanView {
                    path: snap.files.paths()[i].path@,
                    from: query::ref_to(ctx.commits@, snap.files.paths()[i].from_commit.0),
                    to: match snap.files.paths()[i].to_commit {
                        Some(c) => Some(query::ref_to(ctx.commits@, c.0)),
                        None => None,
                    },
                    confidence: snap.files.paths()[i].confidence,
                }),
            ),
        forall|k: int|
            #![trigger timeline::file_story(snap, ctx, row).paths[k]]
            0 <= k < timeline::file_story(snap, ctx, row).paths.len() ==> exists|i: int|
                #![trigger snap.files.paths()[i]]
                0 <= i < snap.files.paths().len() && snap.files.paths()[i].file_id == row.id
                    && timeline::file_story(snap, ctx, row).paths[k] == timeline::span_view(ctx, snap.files.paths()[i]),
{
    let all = snap.files.paths();
    let s = timeline::paths_of(all, row.id);
    let keys = timeline::path_keys(s);
    let o = order::order_of(keys);
    let h = timeline::path_history(ctx, all, row.id);
    assert(timeline::file_story(snap, ctx, row).paths == h);
    lemma_paths_of(all, row.id);
    order::order_is_stable(keys);
    assert forall|i: int| #![trigger all[i]] 0 <= i < all.len() && all[i].file_id == row.id implies h.contains(
        timeline::span_view(ctx, all[i]),
    ) by {
        let k = s.index_of(all[i]);
        assert(s[k] == all[i]);
        assert(o.contains(k));
        assert(h[o.index_of(k)] == timeline::span_view(ctx, all[i]));
    }
    assert forall|k: int| #![trigger h[k]] 0 <= k < h.len() implies exists|i: int|
        #![trigger all[i]]
        0 <= i < all.len() && all[i].file_id == row.id && h[k] == timeline::span_view(ctx, all[i]) by {
        let x = s[o[k]];
        assert(0 <= o[k] < keys.len());
        assert(all.contains(x));
        let i = all.index_of(x);
        assert(all[i] == x);
    }
}

/// Law: no path comes before one that was taken up earlier.
pub proof fn histories_ascend(ctx: &Ctx, paths: Seq<PathIntervalRow>, f: FileId, k: int, l: int)
    requires
        0 <= k < l < timeline::path_history(ctx, paths, f).len(),
    ensures
        exists|i: int, j: int|
            #![trigger paths[i], paths[j]]
            0 <= i < paths.len() && 0 <= j < paths.len() && paths[i].from_commit.0 <= paths[j].from_commit.0
                && timeline::path_history(ctx, paths, f)[k] == timeline::span_view(ctx, paths[i]) && timeline::path_history(
                ctx,
                paths,
                f,
            )[l] == timeline::span_view(ctx, paths[j]),
{
    let s = timeline::paths_of(paths, f);
    let keys = timeline::path_keys(s);
    let o = order::order_of(keys);
    lemma_paths_of(paths, f);
    order::order_is_stable(keys);
    assert(order::before(keys, o[k], o[l]));
    assert(0 <= o[k] < keys.len() && 0 <= o[l] < keys.len());
    let x = s[o[k]];
    let y = s[o[l]];
    assert(keys[o[k]] == x.from_commit.0 as i128);
    assert(keys[o[l]] == y.from_commit.0 as i128);
    assert(paths.contains(x) && paths.contains(y));
    let i = paths.index_of(x);
    let j = paths.index_of(y);
    assert(paths[i] == x && paths[j] == y);
}

// ---- edge events ----

/// What an interval of an edge at a file tells when it starts or ends.
pub open spec fn event_of(snap: &Snapshot, ctx: &Ctx, q: FileId, i: int, commit: i64, opened: bool) -> EdgeEventView {
    let row = snap.edges@[i];
    EdgeEventView {
        commit: query::ref_to(ctx.commits@, commit),
        event: if opened { "opened"@ } else { "closed"@ },
        kind: row.kind.name(),
        other: snap.shown(if row.src == q { row.dst } else { row.src }),
        direction: if row.src == q { "out"@ } else { "in"@ },
    }
}

proof fn lemma_spans_have(
    snap: &Snapshot,
    ctx: &Ctx,
    q: FileId,
    e: graph::EdgeInfoView,
    spans: Seq<(i64, Option<i64>)>,
    k: int,
)
    requires
        0 <= k < spans.len(),
    ensures
        timeline::spans_events(snap, ctx, q, e, spans).contains(timeline::event_view(snap, ctx, q, e, spans[k].0, true)),
        spans[k].1 matches Some(d) ==> timeline::spans_events(snap, ctx, q, e, spans).contains(
            timeline::event_view(snap, ctx, q, e, d, false),
        ),
    decreases spans.len(),
{
    let f = spans.drop_last();
    let a = timeline::spans_events(snap, ctx, q, e, f);
    let b = timeline::span_events(snap, ctx, q, e, spans.last());
    let x = timeline::event_view(snap, ctx, q, e, spans[k].0, true);
    if k == spans.len() - 1 {
        assert((a + b)[a.len() as int] == x);
        if let Some(d) = spans[k].1 {
            assert((a + b)[a.len() as int + 1] == timeline::event_view(snap, ctx, q, e, d, false));
        }
    } else {
        assert(f[k] == spans[k]);
        lemma_spans_have(snap, ctx, q, e, f, k);
        assert((a + b)[a.index_of(x)] == x);
        if let Some(d) = spans[k].1 {
            let y = timeline::event_view(snap, ctx, q, e, d, false);
            assert((a + b)[a.index_of(y)] == y);
        }
    }
}

proof fn lemma_edges_have(
    snap: &Snapshot,
    ctx: &Ctx,
    q: FileId,
    edges: Seq<graph::EdgeInfoView>,
    at: Seq<int>,
    i: int,
    x: (i64, EdgeEventView),
)
    requires
        at.contains(i),
        timeline::spans_events(snap, ctx, q, edges[i], edges[i].intervals).contains(x),
    ensures
        timeline::edges_events(snap, ctx, q, edges, at).contains(x),
    decreases at.len(),
{
    let f = at.drop_last();
    let e = edges[at.last()];
    let a = timeline::edges_events(snap, ctx, q, edges, f);
    let b = timeline::spans_events(snap, ctx, q, e, e.intervals);
    if at.last() == i {
        assert((a + b)[a.len() + b.index_of(x)] == x);
    } else {
        assert(f[at.index_of(i)] == i);
        lemma_edges_have(snap, ctx, q, edges, f, i, x);
        assert((a + b)[a.index_of(x)] == x);
    }
}

/// Law: every interval of an edge at a file tells that the edge opened and,
/// where it ended, that it closed, with the commit, the other file and which
/// way the edge leads.
pub proof fn intervals_are_told(snap: &Snapshot, ctx: &Ctx, q: FileId, i: int, j: int)
    requires
        0 <= i < snap.edges@.len(),
        snap.edges@[i].src == q || snap.edges@[i].dst == q,
        0 <= j < snap.intervals@.len(),
        snap.intervals@[j].edge_id == snap.edges@[i].id,
    ensures
        timeline::event_history(snap, ctx, q).contains(event_of(snap, ctx, q, i, snap.intervals@[j].born.0, true)),
        snap.intervals@[j].died matches Some(d) ==> timeline::event_history(snap, ctx, q).contains(
            event_of(snap, ctx, q, i, d.0, false),
        ),
{
    let edges = snap.graph(ctx);
    let row = snap.edges@[i];
    let at = graph::edges_at(edges, q);
    plain::edges_meet_files(edges, q);
    assert(edges[i].row == row);
    assert(at.contains(i));
    let keys = graph::interval_edges(snap.intervals@);
    postings::positions_are_indices(keys, row.id);
    let p = postings::positions(keys, row.id);
    assert(keys[j] == row.id);
    assert(p.contains(j));
    let k = p.index_of(j);
    let spans = edges[i].intervals;
    assert(spans == graph::spans_of(snap.intervals@, row.id));
    assert(spans[k] == graph::span(snap.intervals@[j]));
    lemma_spans_have(snap, ctx, q, edges[i], spans, k);
    let s = timeline::edges_events(snap, ctx, q, edges, at);
    let ev = timeline::event_keys(s);
    let o = order::order_of(ev);
    let h = timeline::event_history(snap, ctx, q);
    order::order_is_stable(ev);
    let x = timeline::event_view(snap, ctx, q, edges[i], snap.intervals@[j].born.0, true);
    lemma_edges_have(snap, ctx, q, edges, at, i, x);
    let m = s.index_of(x);
    assert(o.contains(m));
    assert(h[o.index_of(m)] == x.1);
    assert(x.1 =~= event_of(snap, ctx, q, i, snap.intervals@[j].born.0, true));
    if let Some(d) = snap.intervals@[j].died {
        let y = timeline::event_view(snap, ctx, q, edges[i], d.0, false);
        lemma_edges_have(snap, ctx, q, edges, at, i, y);
        let n = s.index_of(y);
        assert(o.contains(n));
        assert(h[o.index_of(n)] == y.1);
        assert(y.1 =~= event_of(snap, ctx, q, i, d.0, false));
    }
}

/// An event of the rows: an interval of an edge at the file that starts or ends
/// at the commit.
pub open spec fn is_event(snap: &Snapshot, ctx: &Ctx, q: FileId, x: (i64, EdgeEventView)) -> bool {
    exists|i: int, j: int|
        #![trigger snap.edges@[i], snap.intervals@[j]]
        0 <= i < snap.edges@.len() && 0 <= j < snap.intervals@.len() && snap.intervals@[j].edge_id == snap.edges@[i].id && (
        snap.edges@[i].src == q || snap.edges@[i].dst == q) && ((x.0 == snap.intervals@[j].born.0 && x.1 == event_of(
            snap,
            ctx,
            q,
            i,
            x.0,
            true,
        )) || (snap.intervals@[j].died matches Some(d) && x.0 == d.0 && x.1 == event_of(snap, ctx, q, i, x.0, false)))
}

proof fn lemma_spans_are(snap: &Snapshot, ctx: &Ctx, q: FileId, i: int, n: nat)
    requires
        0 <= i < snap.edges@.len(),
        snap.edges@[i].src == q || snap.edges@[i].dst == q,
        n <= snap.graph(ctx)[i].intervals.len(),
    ensures
        forall|k: int|
            0 <= k < timeline::spans_events(
                snap,
                ctx,
                q,
                snap.graph(ctx)[i],
                snap.graph(ctx)[i].intervals.take(n as int),
            ).len() ==> is_event(
                snap,
                ctx,
                q,
                #[trigger] timeline::spans_events(
                    snap,
                    ctx,
                    q,
                    snap.graph(ctx)[i],
                    snap.graph(ctx)[i].intervals.take(n as int),
                )[k],
            ),
    decreases n,
{
    if n > 0 {
        let e = snap.graph(ctx)[i];
        let row = snap.edges@[i];
        assert(e.row == row);
        let spans = e.intervals.take(n as int);
        let f = spans.drop_last();
        assert(f =~= e.intervals.take(n - 1));
        lemma_spans_are(snap, ctx, q, i, (n - 1) as nat);
        let a = timeline::spans_events(snap, ctx, q, e, f);
        let b = timeline::span_events(snap, ctx, q, e, spans.last());
        let keys = graph::interval_edges(snap.intervals@);
        postings::positions_are_indices(keys, row.id);
        let p = postings::positions(keys, row.id);
        assert(e.intervals == graph::spans_of(snap.intervals@, row.id));
        let j = p[n - 1];
        assert(keys[j] == row.id);
        assert(spans.last() == graph::span(snap.intervals@[j]));
        assert forall|k: int| 0 <= k < (a + b).len() implies is_event(snap, ctx, q, #[trigger] (a + b)[k]) by {
            if k < a.len() {
                assert((a + b)[k] == a[k]);
            } else {
                let x = (a + b)[k];
                assert(x == b[k - a.len()]);
                assert(snap.intervals@[j].edge_id == snap.edges@[i].id);
                if k == a.len() {
                    assert(x.1 =~= event_of(snap, ctx, q, i, x.0, true));
                } else {
                    assert(x.1 =~= event_of(snap, ctx, q, i, x.0, false));
                }
            }
        }
    }
}

proof fn lemma_edges_are(snap: &Snapshot, ctx: &Ctx, q: FileId, at: Seq<int>)
    requires
        forall|k: int|
            0 <= k < at.len() ==> 0 <= #[trigger] at[k] < snap.edges@.len() && (snap.edges@[at[k]].src == q || snap.edges@[at[k]].dst
                == q),
    ensures
        forall|k: int|
            0 <= k < timeline::edges_events(snap, ctx, q, snap.graph(ctx), at).len() ==> is_event(
                snap,
                ctx,
                q,
                #[trigger] timeline::edges_events(snap, ctx, q, snap.graph(ctx), at)[k],
            ),
    decreases at.len(),
{
    if at.len() > 0 {
        let f = at.drop_last();
        assert forall|k: int| 0 <= k < f.len() implies 0 <= #[trigger] f[k] < snap.edges@.len() && (snap.edges@[f[k]].src
            == q || snap.edges@[f[k]].dst == q) by {
            assert(f[k] == at[k]);
        }
        lemma_edges_are(snap, ctx, q, f);
        let i = at[at.len() - 1];
        let e = snap.graph(ctx)[i];
        let a = timeline::edges_events(snap, ctx, q, snap.graph(ctx), f);
        let b = timeline::spans_events(snap, ctx, q, e, e.intervals);
        lemma_spans_are(snap, ctx, q, i, e.intervals.len());
        assert(e.intervals.take(e.intervals.len() as int) =~= e.intervals);
        assert forall|k: int| 0 <= k < (a + b).len() implies is_event(snap, ctx, q, #[trigger] (a + b)[k]) by {
            if k < a.len() {
                assert((a + b)[k] == a[k]);
            } else {
                assert((a + b)[k] == b[k - a.len()]);
            }
        }
    }
}

/// Law: nothing else is told, and events come in the order of their commits.
pub proof fn told_events_happened(snap: &Snapshot, ctx: &Ctx, q: FileId, k: int, l: int)
    requires
        0 <= k < l < timeline::event_history(snap, ctx, q).len(),
    ensures
        exists|c: i64, d: i64|
            c <= d && #[trigger] is_event(snap, ctx, q, (c, timeline::event_history(snap, ctx, q)[k]))
                && #[trigger] is_event(snap, ctx, q, (d, timeline::event_history(snap, ctx, q)[l])),
{
    let edges = snap.graph(ctx);
    let at = graph::edges_at(edges, q);
    plain::edges_meet_files(edges, q);
    assert forall|k: int| 0 <= k < at.len() implies 0 <= #[trigger] at[k] < snap.edges@.len() && (snap.edges@[at[k]].src
        == q || snap.edges@[at[k]].dst == q) by {
        let i = at[k];
        assert(at.contains(i));
        assert(edges[i].row == snap.edges@[i]);
    }
    lemma_edges_are(snap, ctx, q, at);
    let s = timeline::edges_events(snap, ctx, q, edges, at);
    let keys = timeline::event_keys(s);
    let o = order::order_of(keys);
    order::order_is_stable(keys);
    assert(order::before(keys, o[k], o[l]));
    assert(0 <= o[k] < keys.len() && 0 <= o[l] < keys.len());
    let x = s[o[k]];
    let y = s[o[l]];
    assert(keys[o[k]] == x.0 as i128 && keys[o[l]] == y.0 as i128);
    assert(is_event(snap, ctx, q, x) && is_event(snap, ctx, q, y));
    assert(x == (x.0, timeline::event_history(snap, ctx, q)[k]));
    assert(y == (y.0, timeline::event_history(snap, ctx, q)[l]));
}

// ---- churn ----

/// A touch falls in a quarter.
pub open spec fn falls_in(ctx: &Ctx, t: TouchRow, period: Seq<char>) -> bool {
    time::quarter_of(query::when(ctx.commits@, t.commit.0)) == period
}

/// How many of the touches fall in a quarter.
pub open spec fn touches_falling(ctx: &Ctx, touches: Seq<TouchRow>, period: Seq<char>) -> int {
    touches.filter(|t: TouchRow| falls_in(ctx, t, period)).len() as int
}

/// The lines that the touches that fall in a quarter changed.
pub open spec fn lines_falling(ctx: &Ctx, touches: Seq<TouchRow>, period: Seq<char>) -> int {
    timeline::lines_of(touches.filter(|t: TouchRow| falls_in(ctx, t, period)))
}

proof fn lemma_falling_push(ctx: &Ctx, touches: Seq<TouchRow>, t: TouchRow, period: Seq<char>)
    ensures
        touches_falling(ctx, touches.push(t), period) == touches_falling(ctx, touches, period) + (if falls_in(
            ctx,
            t,
            period,
        ) {
            1int
        } else {
            0
        }),
        lines_falling(ctx, touches.push(t), period) == lines_falling(ctx, touches, period) + (if falls_in(ctx, t, period) {
            t.lines as int
        } else {
            0
        }),
{
    let f = |t: TouchRow| falls_in(ctx, t, period);
    touches.lemma_filter_push(t, f);
    let s = touches.filter(f);
    assert(s.push(t).drop_last() =~= s);
}

/// The bucket counts what falls in its quarter.
spec fn right(ctx: &Ctx, touches: Seq<TouchRow>, b: BucketView) -> bool {
    b.touches == touches_falling(ctx, touches, b.period) && b.lines == lines_falling(ctx, touches, b.period)
}

proof fn lemma_buckets(ctx: &Ctx, touches: Seq<TouchRow>)
    ensures
        forall|k: int|
            0 <= k < timeline::bucketed(ctx, touches).len() ==> right(
                ctx,
                touches,
                #[trigger] timeline::bucketed(ctx, touches)[k],
            ),
        forall|p: Seq<char>|
            (exists|k: int|
                0 <= k < timeline::bucketed(ctx, touches).len() && (#[trigger] timeline::bucketed(ctx, touches)[k]).period
                    == p) || #[trigger] touches_falling(ctx, touches, p) == 0,
        forall|k: int, l: int|
            0 <= k < l < timeline::bucketed(ctx, touches).len() ==> (#[trigger] timeline::bucketed(ctx, touches)[k]).period
                != (#[trigger] timeline::bucketed(ctx, touches)[l]).period,
    decreases touches.len(),
{
    let s = timeline::bucketed(ctx, touches);
    if touches.len() == 0 {
        assert forall|p: Seq<char>| #[trigger] touches_falling(ctx, touches, p) == 0 by {
            touches.lemma_filter_len(|t: TouchRow| falls_in(ctx, t, p));
        }
    } else {
        let d = touches.drop_last();
        let t = touches.last();
        let b = timeline::bucketed(ctx, d);
        lemma_buckets(ctx, d);
        assert(d.push(t) =~= touches);
        let q = time::quarter_of(query::when(ctx.commits@, t.commit.0));
        timeline::lemma_bucket_at(b, q);
        let found = timeline::bucket_at(b, q);
        assert forall|k: int| 0 <= k < s.len() implies right(ctx, touches, #[trigger] s[k]) by {
            lemma_falling_push(ctx, d, t, s[k].period);
            if k < b.len() {
                assert(right(ctx, d, b[k]));
                if b[k].period == q && found is None {
                    assert(false);
                }
                if let Some(i) = found {
                    if i < k {
                        assert(b[i].period != b[k].period);
                    } else if k < i {
                        assert(b[k].period != b[i].period);
                    }
                }
            } else {
                assert(found is None);
                assert(touches_falling(ctx, d, q) == 0);
                let g = |t: TouchRow| falls_in(ctx, t, q);
                assert(d.filter(g).len() == 0);
                assert(timeline::lines_of(d.filter(g)) == 0);
            }
        }
        assert forall|p: Seq<char>|
            (exists|k: int| 0 <= k < s.len() && (#[trigger] s[k]).period == p) || #[trigger] touches_falling(
                ctx,
                touches,
                p,
            ) == 0 by {
            lemma_falling_push(ctx, d, t, p);
            if touches_falling(ctx, d, p) != 0 {
                let k = choose|k: int| 0 <= k < b.len() && (#[trigger] b[k]).period == p;
                assert(s[k].period == p);
            } else if falls_in(ctx, t, p) {
                match found {
                    Some(i) => {
                        assert(s[i].period == p);
                    },
                    None => {
                        assert(s[b.len() as int].period == p);
                    },
                }
            }
        }
        assert forall|k: int, l: int| 0 <= k < l < s.len() implies (#[trigger] s[k]).period != (#[trigger] s[l]).period by {
            if l < b.len() {
                assert(b[k].period != b[l].period);
            } else {
                assert(b[k].period != q);
            }
        }
    }
}

proof fn lemma_placed_has(s: Seq<BucketView>, b: BucketView, x: BucketView)
    ensures
        timeline::bucket_placed(s, b).contains(x) <==> s.contains(x) || x == b,
    decreases s.len(),
{
    let r = timeline::bucket_placed(s, b);
    if s.len() == 0 || crate::text::text_le(s.last().period, b.period) {
        if s.contains(x) {
            assert(r[s.index_of(x)] == x);
        }
        assert(r[s.len() as int] == b);
        if r.contains(x) {
            let k = r.index_of(x);
            if k < s.len() {
                assert(s[k] == x);
            }
        }
    } else {
        let f = s.drop_last();
        lemma_placed_has(f, b, x);
        let p = timeline::bucket_placed(f, b);
        if s.contains(x) {
            let k = s.index_of(x);
            if k < f.len() {
                assert(f[k] == x);
                assert(r[p.index_of(x)] == x);
            } else {
                assert(r[p.len() as int] == x);
            }
        }
        if x == b {
            assert(r[p.index_of(x)] == x);
        }
        if r.contains(x) {
            let k = r.index_of(x);
            if k < p.len() {
                assert(p[k] == x);
                if f.contains(x) {
                    assert(s[f.index_of(x)] == x);
                }
            } else {
                assert(s[s.len() - 1] == x);
            }
        }
    }
}

proof fn lemma_sorted_has(s: Seq<BucketView>, x: BucketView)
    ensures
        timeline::by_quarter(s).contains(x) <==> s.contains(x),
    decreases s.len(),
{
    if s.len() > 0 {
        let f = s.drop_last();
        lemma_sorted_has(f, x);
        lemma_placed_has(timeline::by_quarter(f), s.last(), x);
        if s.contains(x) {
            let k = s.index_of(x);
            if k < f.len() {
                assert(f[k] == x);
            }
        }
        if f.contains(x) {
            assert(s[f.index_of(x)] == x);
        }
        assert(s[s.len() - 1] == s.last());
    }
}

/// Law: each quarter of a file's churn counts the touches that fall in it and
/// the lines they changed, and every quarter with a touch is there.
pub proof fn quarters_hold_their_touches(snap: &Snapshot, ctx: &Ctx, row: FileRow, b: BucketView)
    ensures
        ({
            let touches = query::touches_of(snap.touches@, row.id);
            let churn = timeline::file_story(snap, ctx, row).churn;
            &&& churn.contains(b) ==> b.touches == touches_falling(ctx, touches, b.period) && b.lines == lines_falling(
                ctx,
                touches,
                b.period,
            )
            &&& touches_falling(ctx, touches, b.period) > 0 ==> exists|k: int|
                0 <= k < churn.len() && (#[trigger] churn[k]).period == b.period
        }),
{
    let touches = query::touches_of(snap.touches@, row.id);
    let s = timeline::bucketed(ctx, touches);
    let churn = timeline::file_story(snap, ctx, row).churn;
    lemma_buckets(ctx, touches);
    lemma_sorted_has(s, b);
    if churn.contains(b) {
        let k = s.index_of(b);
        assert(right(ctx, touches, s[k]));
    }
    if touches_falling(ctx, touches, b.period) > 0 {
        let k = choose|k: int| 0 <= k < s.len() && (#[trigger] s[k]).period == b.period;
        assert(s.contains(s[k]));
        lemma_sorted_has(s, s[k]);
        assert(churn[churn.index_of(s[k])].period == b.period);
    }
}

/// Law: a story names the file's path, the commit it was born at and the one it
/// died at, where it did.
pub proof fn stories_name_their_file(snap: &Snapshot, ctx: &Ctx, row: FileRow)
    ensures
        timeline::file_story(snap, ctx, row).file == snap.shown(row.id),
        timeline::file_story(snap, ctx, row).born == query::ref_to(ctx.commits@, row.born_commit.0),
        row.died_commit is None ==> timeline::file_story(snap, ctx, row).died is None,
        row.died_commit matches Some(c) ==> timeline::file_story(snap, ctx, row).died == Some(
            query::ref_to(ctx.commits@, c.0),
        ),
        timeline::event_history(snap, ctx, row.id).len() <= 200 ==> timeline::file_story(snap, ctx, row).edge_events
            == timeline::event_history(snap, ctx, row.id),
        timeline::event_history(snap, ctx, row.id).len() > 200 ==> timeline::file_story(snap, ctx, row).edge_events
            == timeline::event_history(snap, ctx, row.id).take(200),
{
}

} // verus!
