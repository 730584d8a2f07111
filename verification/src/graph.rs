//! The graph of files: edges with their lifetimes, neighbors, and breadth-first
//! search over the edges that a filter keeps.

use crate::model::{CommitId, FileId};
use crate::postings::Postings;
use crate::postings;
use crate::rows::{EdgeRow, IntervalRow};
use vstd::prelude::*;

verus! {

broadcast use vstd::std_specs::hash::group_hash_axioms;

/// An edge, the commits at which it opened and closed, and what follows from
/// them.
pub struct EdgeInfo {
    pub row: EdgeRow,
    pub alive: bool,
    pub last_died: Option<i64>,
    pub total_lifetime_days: i128,
    pub intervals: Vec<(i64, Option<i64>)>,
}

#[verifier::ext_equal]
pub struct EdgeInfoView {
    pub row: EdgeRow,
    pub alive: bool,
    pub last_died: Option<i64>,
    pub total_lifetime_days: int,
    pub intervals: Seq<(i64, Option<i64>)>,
}

impl View for EdgeInfo {
    type V = EdgeInfoView;

    open spec fn view(&self) -> EdgeInfoView {
        EdgeInfoView {
            row: self.row,
            alive: self.alive,
            last_died: self.last_died,
            total_lifetime_days: self.total_lifetime_days as int,
            intervals: self.intervals@,
        }
    }
}

/// Whole days in a span of seconds, rounded toward zero.
pub open spec fn whole_days(secs: int) -> int {
    if secs >= 0 {
        secs / 86_400
    } else {
        -((-secs) / 86_400)
    }
}

/// Whole days between two times.
pub fn days_between(from: i64, to: i64) -> (r: i64)
    ensures
        r == whole_days(to - from),
{
    let secs: i128 = (to as i128) - (from as i128);
    if secs >= 0 {
        (secs / 86_400) as i64
    } else {
        (-((-secs) / 86_400)) as i64
    }
}

// ---- times of commits ----

/// When commits were made: the time of each by its id, the earliest for the
/// start of the index, and the latest for what is unknown or still open.
pub struct Times {
    ids: Vec<i64>,
    times: Vec<i64>,
    by_id: Postings,
    now: i64,
    earliest: i64,
}

/// The largest of some times, 0 where there is none.
pub open spec fn latest_time(times: Seq<i64>) -> int
    decreases times.len(),
{
    if times.len() == 0 {
        0
    } else if times.len() == 1 {
        times[0] as int
    } else {
        let b = latest_time(times.drop_last());
        if b < times.last() {
            times.last() as int
        } else {
            b
        }
    }
}

/// The smallest of some times, 0 where there is none.
pub open spec fn earliest_time(times: Seq<i64>) -> int
    decreases times.len(),
{
    if times.len() == 0 {
        0
    } else if times.len() == 1 {
        times[0] as int
    } else {
        let b = earliest_time(times.drop_last());
        if b > times.last() {
            times.last() as int
        } else {
            b
        }
    }
}

/// Law: the largest and the smallest of some times are among them and bound
/// them all.
pub proof fn times_bounded(times: Seq<i64>)
    ensures
        forall|i: int|
            0 <= i < times.len() ==> earliest_time(times) <= #[trigger] times[i] <= latest_time(times),
        times.len() > 0 ==> exists|i: int| 0 <= i < times.len() && #[trigger] times[i] == latest_time(times),
        times.len() > 0 ==> exists|i: int| 0 <= i < times.len() && #[trigger] times[i] == earliest_time(times),
        i64::MIN <= earliest_time(times) <= latest_time(times) <= i64::MAX,
    decreases times.len(),
{
    if times.len() == 1 {
        assert(times[0] == latest_time(times));
    } else if times.len() > 1 {
        let f = times.drop_last();
        times_bounded(f);
        assert forall|i: int| 0 <= i < times.len() implies earliest_time(times) <= #[trigger] times[i]
            <= latest_time(times) by {
            if i < f.len() {
                assert(f[i] == times[i]);
            }
        }
        let a = choose|i: int| 0 <= i < f.len() && #[trigger] f[i] == latest_time(f);
        let b = choose|i: int| 0 <= i < f.len() && #[trigger] f[i] == earliest_time(f);
        assert(times[a] == f[a] && times[b] == f[b]);
        assert(times[times.len() - 1] == times.last());
    }
}

/// The time of a commit.
pub open spec fn time_at(ids: Seq<i64>, times: Seq<i64>, id: i64) -> int {
    if id == 0 {
        earliest_time(times)
    } else {
        match postings::last_position(ids, id) {
            Some(i) => times[i] as int,
            None => latest_time(times),
        }
    }
}

impl Times {
    pub closed spec fn ids(&self) -> Seq<i64> {
        self.ids@
    }

    pub closed spec fn times(&self) -> Seq<i64> {
        self.times@
    }

    pub closed spec fn wf(&self) -> bool {
        &&& self.ids@.len() == self.times@.len()
        &&& self.by_id.wf()
        &&& self.by_id@ == self.ids@
        &&& self.now == latest_time(self.times@)
        &&& self.earliest == earliest_time(self.times@)
    }

    pub fn new(ids: Vec<i64>, times: Vec<i64>) -> (r: Self)
        requires
            ids@.len() == times@.len(),
        ensures
            r.wf(),
            r.ids() == ids@,
            r.times() == times@,
    {
        let mut now: i64 = 0;
        let mut earliest: i64 = 0;
        let mut i: usize = 0;
        while i < times.len()
            invariant
                i <= times@.len(),
                now == latest_time(times@.take(i as int)),
                earliest == earliest_time(times@.take(i as int)),
            decreases times@.len() - i,
        {
            assert(times@.take(i + 1).drop_last() =~= times@.take(i as int));
            let t = times[i];
            if i == 0 || now < t {
                now = t;
            }
            if i == 0 || earliest > t {
                earliest = t;
            }
            i += 1;
        }
        assert(times@.take(i as int) =~= times@);
        let by_id = Postings::build(&ids);
        Times { ids, times, by_id, now, earliest }
    }

    pub fn now(&self) -> (r: i64)
        requires
            self.wf(),
        ensures
            r == latest_time(self.times()),
    {
        self.now
    }

    pub fn earliest(&self) -> (r: i64)
        requires
            self.wf(),
        ensures
            r == earliest_time(self.times()),
    {
        self.earliest
    }

    /// Where a commit stands.
    pub fn place(&self, id: i64) -> (r: Option<usize>)
        requires
            self.wf(),
        ensures
            match r {
                Some(i) => postings::last_position(self.ids(), id) == Some(i as int) && i < self.ids().len(),
                None => postings::last_position(self.ids(), id) is None,
            },
    {
        self.by_id.last(id)
    }

    /// The time of a commit.
    pub fn time_of(&self, id: i64) -> (r: i64)
        requires
            self.wf(),
        ensures
            r == time_at(self.ids(), self.times(), id),
    {
        if id == 0 {
            self.earliest
        } else {
            match self.by_id.last(id) {
                Some(i) => self.times[i],
                None => self.now,
            }
        }
    }
}

// ---- the graph ----

pub open spec fn interval_edges(intervals: Seq<IntervalRow>) -> Seq<i64> {
    intervals.map_values(|iv: IntervalRow| iv.edge_id)
}

/// An edge has an interval that ended at a commit, or one that is open.
pub open spec fn ended(intervals: Seq<IntervalRow>, edge: i64, at: Option<CommitId>) -> bool {
    exists|i: int| 0 <= i < intervals.len() && (#[trigger] intervals[i]).edge_id == edge && intervals[i].died == at
}

/// Where the intervals of each edge stand.
pub fn interval_postings(intervals: &Vec<IntervalRow>) -> (r: Postings)
    ensures
        r.wf(),
        r@ == interval_edges(intervals@),
{
    let mut out: Vec<i64> = Vec::new();
    let mut i: usize = 0;
    while i < intervals.len()
        invariant
            i <= intervals@.len(),
            out@.len() == i,
            forall|k: int| 0 <= k < i ==> #[trigger] out@[k] == intervals@[k].edge_id,
        decreases intervals@.len() - i,
    {
        out.push(intervals[i].edge_id);
        i += 1;
    }
    assert(out@ =~= interval_edges(intervals@));
    Postings::build(&out)
}

/// Whether an edge has an interval that ended at a commit, or one that is
/// open.
pub fn has_ended(intervals: &Vec<IntervalRow>, by_edge: &Postings, edge: i64, at: Option<CommitId>) -> (r: bool)
    requires
        by_edge.wf(),
        by_edge@ == interval_edges(intervals@),
    ensures
        r == ended(intervals@, edge, at),
{
    let ghost keys = by_edge@;
    let list = by_edge.get(edge);
    let ghost p = postings::positions(keys, edge);
    proof {
        postings::positions_are_indices(keys, edge);
    }
    let mut k: usize = 0;
    while k < list.len()
        invariant
            k <= list@.len(),
            keys == interval_edges(intervals@),
            p == postings::as_ints(list@),
            p == postings::positions(keys, edge),
            forall|j: int| 0 <= j < p.len() ==> 0 <= #[trigger] p[j] < keys.len() && keys[p[j]] == edge,
            forall|j: int| 0 <= j < k ==> intervals@[#[trigger] p[j]].died != at,
        decreases list@.len() - k,
    {
        assert(p[k as int] == list@[k as int]);
        let i = list[k];
        let same = match (intervals[i].died, at) {
            (Some(a), Some(b)) => a == b,
            (None, None) => true,
            _ => false,
        };
        if same {
            assert(intervals@[i as int].edge_id == edge && intervals@[i as int].died == at);
            return true;
        }
        k += 1;
    }
    proof {
        if ended(intervals@, edge, at) {
            let i = choose|i: int|
                0 <= i < intervals@.len() && (#[trigger] intervals@[i]).edge_id == edge && intervals@[i].died == at;
            assert(keys[i] == edge);
            assert(p.contains(i));
            let j = p.index_of(i);
            assert(p[j] == i);
        }
    }
    false
}

/// The commits at which an edge opened and closed.
pub open spec fn spans_of(intervals: Seq<IntervalRow>, edge: i64) -> Seq<(i64, Option<i64>)> {
    postings::positions(interval_edges(intervals), edge).map_values(|i: int| span(intervals[i]))
}

pub open spec fn span(iv: IntervalRow) -> (i64, Option<i64>) {
    (
        iv.born.0,
        match iv.died {
            Some(d) => Some(d.0),
            None => None,
        },
    )
}

/// The days that an edge lived in one of its spans.
pub open spec fn span_days(ids: Seq<i64>, times: Seq<i64>, s: (i64, Option<i64>)) -> int {
    let end = match s.1 {
        Some(d) => time_at(ids, times, d),
        None => latest_time(times),
    };
    whole_days(end - time_at(ids, times, s.0))
}

/// The days that an edge lived in all its spans.
pub open spec fn lifetime_days(ids: Seq<i64>, times: Seq<i64>, spans: Seq<(i64, Option<i64>)>) -> int
    decreases spans.len(),
{
    if spans.len() == 0 {
        0
    } else {
        lifetime_days(ids, times, spans.drop_last()) + span_days(ids, times, spans.last())
    }
}

/// An edge is alive where one of its spans is open.
pub open spec fn any_open(spans: Seq<(i64, Option<i64>)>) -> bool {
    exists|i: int| 0 <= i < spans.len() && (#[trigger] spans[i]).1 is None
}

/// What the spans of an edge say of it.
pub open spec fn edge_info(row: EdgeRow, intervals: Seq<IntervalRow>, ids: Seq<i64>, times: Seq<i64>) -> EdgeInfoView {
    let spans = spans_of(intervals, row.id);
    EdgeInfoView {
        row,
        alive: any_open(spans),
        last_died: if spans.len() > 0 { spans.last().1 } else { None },
        total_lifetime_days: lifetime_days(ids, times, spans),
        intervals: spans,
    }
}

pub open spec fn info_views(s: Seq<EdgeInfo>) -> Seq<EdgeInfoView> {
    s.map_values(|e: EdgeInfo| e@)
}

/// Every edge of an index with what its spans say of it.
pub open spec fn graph_edges(
    rows: Seq<EdgeRow>,
    intervals: Seq<IntervalRow>,
    ids: Seq<i64>,
    times: Seq<i64>,
) -> Seq<EdgeInfoView> {
    rows.map_values(|r: EdgeRow| edge_info(r, intervals, ids, times))
}

pub open spec fn sources(edges: Seq<EdgeInfoView>) -> Seq<i64> {
    edges.map_values(|e: EdgeInfoView| e.row.src.0)
}

pub open spec fn targets(edges: Seq<EdgeInfoView>) -> Seq<i64> {
    edges.map_values(|e: EdgeInfoView| e.row.dst.0)
}

/// The edges at a file: those out of it, then those into it.
pub open spec fn edges_at(edges: Seq<EdgeInfoView>, f: FileId) -> Seq<int> {
    postings::positions(sources(edges), f.0) + postings::positions(targets(edges), f.0)
}

/// The other end of an edge.
pub open spec fn other_end(e: EdgeRow, f: FileId) -> FileId {
    if e.src == f {
        e.dst
    } else {
        e.src
    }
}

pub struct Graph {
    pub edges: Vec<EdgeInfo>,
    pub by_src: Postings,
    pub by_dst: Postings,
}

impl View for Graph {
    type V = Seq<EdgeInfoView>;

    open spec fn view(&self) -> Seq<EdgeInfoView> {
        info_views(self.edges@)
    }
}

fn spans_from(intervals: &Vec<IntervalRow>, at: &Vec<usize>) -> (r: Vec<(i64, Option<i64>)>)
    requires
        forall|j: int| 0 <= j < at@.len() ==> #[trigger] at@[j] < intervals@.len(),
    ensures
        r@ == postings::as_ints(at@).map_values(|i: int| span(intervals@[i])),
{
    let mut out: Vec<(i64, Option<i64>)> = Vec::new();
    let mut i: usize = 0;
    while i < at.len()
        invariant
            i <= at@.len(),
            forall|j: int| 0 <= j < at@.len() ==> #[trigger] at@[j] < intervals@.len(),
            out@.len() == i,
            forall|j: int| 0 <= j < i ==> #[trigger] out@[j] == span(intervals@[at@[j] as int]),
        decreases at@.len() - i,
    {
        let iv = intervals[at[i]];
        let died = match iv.died {
            Some(d) => Some(d.0),
            None => None,
        };
        out.push((iv.born.0, died));
        i += 1;
    }
    assert(out@ =~= postings::as_ints(at@).map_values(|i: int| span(intervals@[i])));
    out
}

proof fn lemma_days_bound(secs: int)
    requires
        -0x1_0000_0000_0000_0000 <= secs <= 0x1_0000_0000_0000_0000,
    ensures
        -0x1_0000_0000_0000 <= whole_days(secs) <= 0x1_0000_0000_0000,
{
}

fn describe(row: EdgeRow, spans: Vec<(i64, Option<i64>)>, times: &Times) -> (r: EdgeInfo)
    requires
        times.wf(),
    ensures
        r@ == (EdgeInfoView {
            row,
            alive: any_open(spans@),
            last_died: if spans@.len() > 0 { spans@.last().1 } else { None },
            total_lifetime_days: lifetime_days(times.ids(), times.times(), spans@),
            intervals: spans@,
        }),
{
    let mut alive = false;
    let mut total: i128 = 0;
    let mut i: usize = 0;
    let n = spans.len();
    let now = times.now();
    assert(spans@.take(0) =~= Seq::<(i64, Option<i64>)>::empty());
    while i < n
        invariant
            i <= n,
            n == spans@.len(),
            times.wf(),
            now == latest_time(times.times()),
            alive == any_open(spans@.take(i as int)),
            total == lifetime_days(times.ids(), times.times(), spans@.take(i as int)),
            -(i * 0x1_0000_0000_0000) <= total <= i * 0x1_0000_0000_0000,
        decreases n - i,
    {
        let ghost t0 = spans@.take(i as int);
        let ghost t1 = spans@.take(i + 1);
        proof {
            assert(t1.drop_last() =~= t0);
            assert(t1.last() == spans@[i as int]);
            if any_open(t0) {
                let k = choose|k: int| 0 <= k < t0.len() && (#[trigger] t0[k]).1 is None;
                assert(t1[k].1 is None);
            }
            if any_open(t1) {
                let k = choose|k: int| 0 <= k < t1.len() && (#[trigger] t1[k]).1 is None;
                if k < i {
                    assert(t0[k].1 is None);
                }
            }
            if spans@[i as int].1 is None {
                assert(t1[i as int].1 is None);
            }
        }
        let (born, died) = spans[i];
        let from = times.time_of(born);
        let to = match died {
            Some(d) => times.time_of(d),
            None => now,
        };
        if died.is_none() {
            alive = true;
        }
        let days = days_between(from, to);
        proof {
            lemma_days_bound(to - from);
        }
        total = total + days as i128;
        i += 1;
    }
    assert(spans@.take(i as int) =~= spans@);
    let last_died = if n > 0 {
        spans[n - 1].1
    } else {
        None
    };
    EdgeInfo { row, alive, last_died, total_lifetime_days: total, intervals: spans }
}

/// Every edge with what its spans say of it.
pub fn load_graph(rows: &Vec<EdgeRow>, intervals: &Vec<IntervalRow>, times: &Times) -> (r: Graph)
    requires
        times.wf(),
    ensures
        r.wf(),
        r@ == graph_edges(rows@, intervals@, times.ids(), times.times()),
{
    let mut keys: Vec<i64> = Vec::new();
    let mut i: usize = 0;
    while i < intervals.len()
        invariant
            i <= intervals@.len(),
            keys@.len() == i,
            forall|k: int| 0 <= k < i ==> #[trigger] keys@[k] == intervals@[k].edge_id,
        decreases intervals@.len() - i,
    {
        keys.push(intervals[i].edge_id);
        i += 1;
    }
    assert(keys@ =~= interval_edges(intervals@));
    let by_edge = Postings::build(&keys);
    let mut edges: Vec<EdgeInfo> = Vec::new();
    let mut srcs: Vec<i64> = Vec::new();
    let mut dsts: Vec<i64> = Vec::new();
    let mut j: usize = 0;
    while j < rows.len()
        invariant
            j <= rows@.len(),
            times.wf(),
            by_edge.wf(),
            by_edge@ == interval_edges(intervals@),
            edges@.len() == j,
            srcs@.len() == j,
            dsts@.len() == j,
            forall|k: int|
                0 <= k < j ==> (#[trigger] edges@[k])@ == edge_info(
                    rows@[k],
                    intervals@,
                    times.ids(),
                    times.times(),
                ),
            forall|k: int| 0 <= k < j ==> #[trigger] srcs@[k] == rows@[k].src.0,
            forall|k: int| 0 <= k < j ==> #[trigger] dsts@[k] == rows@[k].dst.0,
        decreases rows@.len() - j,
    {
        let row = rows[j];
        let at = by_edge.get(row.id);
        let spans = spans_from(intervals, at);
        assert(spans@ == spans_of(intervals@, row.id));
        edges.push(describe(row, spans, times));
        srcs.push(row.src.0);
        dsts.push(row.dst.0);
        j += 1;
    }
    assert(info_views(edges@) =~= graph_edges(rows@, intervals@, times.ids(), times.times()));
    assert(srcs@ =~= sources(info_views(edges@)));
    assert(dsts@ =~= targets(info_views(edges@)));
    let by_src = Postings::build(&srcs);
    let by_dst = Postings::build(&dsts);
    Graph { edges, by_src, by_dst }
}

impl Graph {
    pub closed spec fn wf(&self) -> bool {
        &&& self.by_src.wf()
        &&& self.by_src@ == sources(self@)
        &&& self.by_dst.wf()
        &&& self.by_dst@ == targets(self@)
    }

    /// The edges into a file.
    pub fn into_file(&self, f: FileId) -> (r: &Vec<usize>)
        requires
            self.wf(),
        ensures
            postings::as_ints(r@) == postings::positions(targets(self@), f.0),
            forall|j: int| 0 <= j < r@.len() ==> #[trigger] r@[j] < self@.len(),
    {
        self.by_dst.get(f.0)
    }

    /// The edges at a file: those out of it, then those into it.
    pub fn neighbors(&self, f: FileId) -> (r: Vec<usize>)
        requires
            self.wf(),
        ensures
            postings::as_ints(r@) == edges_at(self@, f),
            forall|j: int|
                0 <= j < r@.len() ==> #[trigger] r@[j] < self@.len() && (self@[r@[j] as int].row.src == f || self@[r@[j] as int].row.dst
                    == f),
    {
        let out = self.by_src.get(f.0);
        let into = self.by_dst.get(f.0);
        let mut r: Vec<usize> = Vec::new();
        let mut i: usize = 0;
        while i < out.len()
            invariant
                i <= out@.len(),
                r@ == out@.take(i as int),
            decreases out@.len() - i,
        {
            r.push(out[i]);
            assert(r@ =~= out@.take(i + 1));
            i += 1;
        }
        assert(r@ =~= out@);
        let mut j: usize = 0;
        while j < into.len()
            invariant
                j <= into@.len(),
                r@ == out@ + into@.take(j as int),
            decreases into@.len() - j,
        {
            r.push(into[j]);
            assert(r@ =~= out@ + into@.take(j + 1));
            j += 1;
        }
        assert(r@ =~= out@ + into@);
        assert(postings::as_ints(r@) =~= edges_at(self@, f));
        proof {
            assert forall|k: int| 0 <= k < r@.len() implies #[trigger] r@[k] < self@.len() && (self@[r@[k] as int].row.src
                == f || self@[r@[k] as int].row.dst == f) by {
                if k < out@.len() {
                    assert(r@[k] == out@[k]);
                    assert(sources(self@)[r@[k] as int] == self@[r@[k] as int].row.src.0);
                } else {
                    assert(r@[k] == into@[k - out@.len()]);
                    assert(targets(self@)[r@[k] as int] == self@[r@[k] as int].row.dst.0);
                }
            }
        }
        r
    }
}

} // verus!
