//! Undirected breadth-first search over the edges that a filter keeps.

use crate::graph::{EdgeInfoView, Graph};
use crate::graph;
use crate::model::FileId;
use crate::postings;
use crate::rows::EdgeRow;
use std::collections::HashMap;
use vstd::prelude::*;

verus! {

broadcast use vstd::std_specs::hash::group_hash_axioms;

/// An edge joins two files, whichever way it points.
pub open spec fn joins(e: EdgeRow, a: FileId, b: FileId) -> bool {
    (e.src == a && e.dst == b) || (e.src == b && e.dst == a)
}

/// A kept edge joins two files.
pub open spec fn linked(edges: Seq<EdgeInfoView>, keep: Seq<bool>, a: FileId, b: FileId) -> bool {
    exists|i: int| 0 <= i < edges.len() && keep[i] && joins((#[trigger] edges[i]).row, a, b)
}

/// The files of a set, and those that a kept edge joins to one of them.
pub open spec fn grown(edges: Seq<EdgeInfoView>, keep: Seq<bool>, s: Set<FileId>) -> Set<FileId> {
    Set::new(|f: FileId| s.contains(f) || exists|a: FileId| #[trigger] s.contains(a) && linked(edges, keep, a, f))
}

/// The files at most `d` kept edges away from `start`.
pub open spec fn within(edges: Seq<EdgeInfoView>, keep: Seq<bool>, start: FileId, d: nat) -> Set<FileId>
    decreases d,
{
    if d == 0 {
        set![start]
    } else {
        grown(edges, keep, within(edges, keep, start, (d - 1) as nat))
    }
}

/// `f` lies at most `d` kept edges away from `start`.
pub open spec fn reach(edges: Seq<EdgeInfoView>, keep: Seq<bool>, start: FileId, d: nat, f: FileId) -> bool {
    within(edges, keep, start, d).contains(f)
}

/// The `q`-th edge at `a` is kept and leads to `b`.
pub open spec fn leads(edges: Seq<EdgeInfoView>, keep: Seq<bool>, a: FileId, q: int, b: FileId) -> bool {
    let at = graph::edges_at(edges, a);
    0 <= q < at.len() && keep[at[q]] && graph::other_end(edges[at[q]].row, a) == b
}

/// What a search found: the files in the order in which it came to them, how
/// far each is, the file it was come to from, and by which of that file's
/// edges.
#[verifier::ext_equal]
pub struct Found {
    pub nodes: Seq<FileId>,
    pub dist: Seq<u8>,
    pub parent: Seq<usize>,
    pub step: Seq<usize>,
}

/// `f` was found at most `d` away.
pub open spec fn found_within(r: Found, f: FileId, d: int) -> bool {
    exists|i: int| 0 <= i < r.nodes.len() && #[trigger] r.nodes[i] == f && r.dist[i] <= d
}

/// The shape of a search: it starts at `start`, comes to each file once, and
/// to each by the first edge that leads to it out of the first file that has
/// one, in the order of files and edges.
pub open spec fn search_shape(edges: Seq<EdgeInfoView>, keep: Seq<bool>, start: FileId, max: u8, r: Found) -> bool {
    let n = r.nodes.len() as int;
    &&& n >= 1
    &&& r.dist.len() == n
    &&& r.parent.len() == n
    &&& r.step.len() == n
    &&& r.nodes[0] == start
    &&& r.dist[0] == 0
    &&& r.parent[0] == 0
    &&& r.step[0] == 0
    &&& forall|i: int, j: int| 0 <= i < j < n ==> #[trigger] r.nodes[i] != #[trigger] r.nodes[j]
    &&& forall|i: int|
        0 < i < n ==> (#[trigger] r.parent[i]) < i && r.dist[i] == r.dist[r.parent[i] as int] + 1 && r.dist[i] <= max
            && leads(edges, keep, r.nodes[r.parent[i] as int], r.step[i] as int, r.nodes[i])
    &&& forall|i: int, q: int|
        0 < i < n && 0 <= q < r.step[i] ==> !#[trigger] leads(
            edges,
            keep,
            r.nodes[r.parent[i] as int],
            q,
            r.nodes[i],
        )
    &&& forall|i: int, a: int|
        0 < i < n && 0 <= a < r.parent[i] ==> !#[trigger] linked(edges, keep, r.nodes[a], r.nodes[i])
    &&& forall|i: int, j: int|
        0 < i < j < n ==> (#[trigger] r.parent[i]) < (#[trigger] r.parent[j]) || (r.parent[i] == r.parent[j]
            && r.step[i] < r.step[j])
    &&& forall|i: int, j: int| 0 <= i <= j < n ==> #[trigger] r.dist[i] <= #[trigger] r.dist[j]
}

/// What a search finds: exactly the files within `max` kept edges, each with
/// its distance.
pub open spec fn searched(edges: Seq<EdgeInfoView>, keep: Seq<bool>, start: FileId, max: u8, r: Found) -> bool {
    &&& search_shape(edges, keep, start, max, r)
    &&& forall|f: FileId, d: nat|
        d <= max ==> (#[trigger] reach(edges, keep, start, d, f) <==> found_within(r, f, d as int))
}

/// The edges at `a` are those that join it to something.
proof fn lemma_leads(edges: Seq<EdgeInfoView>, keep: Seq<bool>, a: FileId, b: FileId)
    ensures
        linked(edges, keep, a, b) <==> exists|q: int| #[trigger] leads(edges, keep, a, q, b),
{
    let srcs = graph::sources(edges);
    let dsts = graph::targets(edges);
    postings::positions_are_indices(srcs, a.0);
    postings::positions_are_indices(dsts, a.0);
    let p = postings::positions(srcs, a.0);
    let t = postings::positions(dsts, a.0);
    let at = graph::edges_at(edges, a);
    if linked(edges, keep, a, b) {
        let i = choose|i: int| 0 <= i < edges.len() && keep[i] && joins((#[trigger] edges[i]).row, a, b);
        if edges[i].row.src == a && edges[i].row.dst == b {
            assert(srcs[i] == a.0);
            assert(p.contains(i));
            let q = p.index_of(i);
            assert(at[q] == i);
            assert(leads(edges, keep, a, q, b));
        } else {
            assert(dsts[i] == a.0);
            assert(t.contains(i));
            let q = t.index_of(i);
            assert(at[p.len() + q] == i);
            assert(leads(edges, keep, a, p.len() + q, b));
        }
    }
    if exists|q: int| #[trigger] leads(edges, keep, a, q, b) {
        let q = choose|q: int| #[trigger] leads(edges, keep, a, q, b);
        let i = at[q];
        if q < p.len() {
            assert(p[q] == i);
            assert(srcs[i] == a.0);
        } else {
            assert(t[q - p.len()] == i);
            assert(dsts[i] == a.0);
        }
        assert(joins(edges[i].row, a, b));
    }
}

/// Every kept edge among the first `k` at `a` leads to a file that was found,
/// not farther than one step on.
spec fn expanded(edges: Seq<EdgeInfoView>, keep: Seq<bool>, r: Found, a: int, k: int) -> bool {
    forall|q: int, b: FileId|
        0 <= q < k && #[trigger] leads(edges, keep, r.nodes[a], q, b) ==> found_within(r, b, r.dist[a] + 1)
}

/// Where the search stands: the files before `h` are done, and `h` up to its
/// `k`-th edge.
spec fn under_way(
    edges: Seq<EdgeInfoView>,
    keep: Seq<bool>,
    start: FileId,
    max: u8,
    r: Found,
    h: int,
    k: int,
) -> bool {
    &&& search_shape(edges, keep, start, max, r)
    &&& 0 <= h <= r.nodes.len()
    &&& 0 <= k
    &&& forall|i: int| 0 < i < r.nodes.len() ==> (#[trigger] r.parent[i]) < h || (r.parent[i] == h && r.step[i] < k)
    &&& forall|a: int| 0 <= a < h && r.dist[a] < max ==> #[trigger] expanded(edges, keep, r, a, graph::edges_at(edges, r.nodes[a]).len() as int)
    &&& h < r.nodes.len() ==> expanded(edges, keep, r, h, k)
}

/// A found file adds itself without disturbing what was found.
proof fn lemma_push(
    edges: Seq<EdgeInfoView>,
    keep: Seq<bool>,
    start: FileId,
    max: u8,
    r: Found,
    h: int,
    k: int,
    b: FileId,
)
    requires
        under_way(edges, keep, start, max, r, h, k),
        h < r.nodes.len(),
        h <= usize::MAX,
        k <= usize::MAX,
        r.dist[h] < max,
        leads(edges, keep, r.nodes[h], k, b),
        !r.nodes.contains(b),
    ensures
        under_way(
            edges,
            keep,
            start,
            max,
            (Found {
                nodes: r.nodes.push(b),
                dist: r.dist.push((r.dist[h] + 1) as u8),
                parent: r.parent.push(h as usize),
                step: r.step.push(k as usize),
            }),
            h,
            k + 1,
        ),
{
    let s = Found {
        nodes: r.nodes.push(b),
        dist: r.dist.push((r.dist[h] + 1) as u8),
        parent: r.parent.push(h as usize),
        step: r.step.push(k as usize),
    };
    let n = r.nodes.len() as int;
    assert forall|f: FileId, d: int| found_within(r, f, d) implies found_within(s, f, d) by {
        let i = choose|i: int| 0 <= i < r.nodes.len() && #[trigger] r.nodes[i] == f && r.dist[i] <= d;
        assert(s.nodes[i] == f && s.dist[i] <= d);
    }
    // What was found before lies no farther than one step on.
    assert forall|i: int| 0 <= i < n implies #[trigger] r.dist[i] <= r.dist[h] + 1 by {
        if i > 0 {
            assert(r.parent[i] <= h);
            assert(r.dist[r.parent[i] as int] <= r.dist[h]);
        }
    }
    assert forall|i: int, j: int| 0 <= i < j < n + 1 implies #[trigger] s.nodes[i] != #[trigger] s.nodes[j] by {
        if j == n {
            assert(r.nodes.contains(r.nodes[i]));
        }
    }
    assert forall|i: int| 0 < i < n + 1 implies (#[trigger] s.parent[i]) < i && s.dist[i] == s.dist[s.parent[i] as int]
        + 1 && s.dist[i] <= max && leads(
        edges,
        keep,
        s.nodes[s.parent[i] as int],
        s.step[i] as int,
        s.nodes[i],
    ) by {
        if i < n {
            assert(r.parent[i] < i);
        }
    }
    assert forall|i: int, q: int| 0 < i < n + 1 && 0 <= q < s.step[i] implies !#[trigger] leads(
        edges,
        keep,
        s.nodes[s.parent[i] as int],
        q,
        s.nodes[i],
    ) by {
        if i < n {
            assert(r.parent[i] < i);
            assert(!leads(edges, keep, r.nodes[r.parent[i] as int], q, r.nodes[i]));
        } else {
            if leads(edges, keep, r.nodes[h], q, b) {
                assert(found_within(r, b, r.dist[h] + 1));
            }
        }
    }
    assert forall|i: int, a: int| 0 < i < n + 1 && 0 <= a < s.parent[i] implies !#[trigger] linked(
        edges,
        keep,
        s.nodes[a],
        s.nodes[i],
    ) by {
        if i < n {
            assert(r.parent[i] < i);
            assert(!linked(edges, keep, r.nodes[a], r.nodes[i]));
        } else {
            lemma_leads(edges, keep, r.nodes[a], b);
            if linked(edges, keep, r.nodes[a], b) {
                let q = choose|q: int| #[trigger] leads(edges, keep, r.nodes[a], q, b);
                assert(r.dist[a] <= r.dist[h]);
                assert(expanded(edges, keep, r, a, graph::edges_at(edges, r.nodes[a]).len() as int));
                assert(found_within(r, b, r.dist[a] + 1));
            }
        }
    }
    assert forall|i: int, j: int| 0 < i < j < n + 1 implies (#[trigger] s.parent[i]) < (#[trigger] s.parent[j]) || (
    s.parent[i] == s.parent[j] && s.step[i] < s.step[j]) by {
        if j < n {
            assert(r.parent[i] < r.parent[j] || (r.parent[i] == r.parent[j] && r.step[i] < r.step[j]));
        } else {
            assert(r.parent[i] < h || (r.parent[i] == h && r.step[i] < k));
        }
    }
    assert forall|i: int, j: int| 0 <= i <= j < n + 1 implies #[trigger] s.dist[i] <= #[trigger] s.dist[j] by {
        if j < n {
            assert(r.dist[i] <= r.dist[j]);
        } else if i < n {
            assert(r.dist[i] <= r.dist[h] + 1);
        }
    }
    assert forall|i: int| 0 < i < n + 1 implies (#[trigger] s.parent[i]) < h || (s.parent[i] == h && s.step[i] < k
        + 1) by {
        if i < n {
            assert(r.parent[i] < h || (r.parent[i] == h && r.step[i] < k));
        }
    }
    assert forall|a: int| 0 <= a < h && s.dist[a] < max implies #[trigger] expanded(
        edges,
        keep,
        s,
        a,
        graph::edges_at(edges, s.nodes[a]).len() as int,
    ) by {
        assert(expanded(edges, keep, r, a, graph::edges_at(edges, r.nodes[a]).len() as int));
        assert forall|q: int, c: FileId|
            0 <= q < graph::edges_at(edges, s.nodes[a]).len() && #[trigger] leads(
                edges,
                keep,
                s.nodes[a],
                q,
                c,
            ) implies found_within(s, c, s.dist[a] + 1) by {
            assert(leads(edges, keep, r.nodes[a], q, c));
            assert(found_within(r, c, r.dist[a] + 1));
        }
    }
    assert forall|q: int, c: FileId| 0 <= q < k + 1 && #[trigger] leads(
        edges,
        keep,
        s.nodes[h],
        q,
        c,
    ) implies found_within(s, c, s.dist[h] + 1) by {
        if q < k {
            assert(leads(edges, keep, r.nodes[h], q, c));
            assert(found_within(r, c, r.dist[h] + 1));
        } else {
            assert(s.nodes[n] == c);
        }
    }
}

/// An edge that is not kept, or leads to a file that was found, adds nothing.
proof fn lemma_pass(
    edges: Seq<EdgeInfoView>,
    keep: Seq<bool>,
    start: FileId,
    max: u8,
    r: Found,
    h: int,
    k: int,
)
    requires
        under_way(edges, keep, start, max, r, h, k),
        h < r.nodes.len(),
        forall|b: FileId| #[trigger] leads(edges, keep, r.nodes[h], k, b) ==> r.nodes.contains(b),
    ensures
        under_way(edges, keep, start, max, r, h, k + 1),
{
    assert forall|i: int| 0 <= i < r.nodes.len() implies #[trigger] r.dist[i] <= r.dist[h] + 1 by {
        if i > 0 {
            assert(r.parent[i] <= h);
            assert(r.dist[r.parent[i] as int] <= r.dist[h]);
        }
    }
    assert forall|q: int, b: FileId| 0 <= q < k + 1 && #[trigger] leads(
        edges,
        keep,
        r.nodes[h],
        q,
        b,
    ) implies found_within(r, b, r.dist[h] + 1) by {
        if q == k {
            let i = r.nodes.index_of(b);
            assert(r.nodes[i] == b && r.dist[i] <= r.dist[h] + 1);
        }
    }
}

/// With all edges of a file done, the search moves on.
proof fn lemma_next(edges: Seq<EdgeInfoView>, keep: Seq<bool>, start: FileId, max: u8, r: Found, h: int, k: int)
    requires
        under_way(edges, keep, start, max, r, h, k),
        h < r.nodes.len(),
        r.dist[h] < max ==> k == graph::edges_at(edges, r.nodes[h]).len(),
    ensures
        under_way(edges, keep, start, max, r, h + 1, 0),
{
    assert forall|i: int| 0 < i < r.nodes.len() implies (#[trigger] r.parent[i]) < h + 1 by {
        assert(r.parent[i] < h || r.parent[i] == h);
    }
}

proof fn lemma_reach_grows(edges: Seq<EdgeInfoView>, keep: Seq<bool>, start: FileId, d: nat, e: nat, f: FileId)
    requires
        d <= e,
        reach(edges, keep, start, d, f),
    ensures
        reach(edges, keep, start, e, f),
    decreases e,
{
    if d < e {
        lemma_reach_grows(edges, keep, start, d, (e - 1) as nat, f);
    }
}

proof fn lemma_sound(edges: Seq<EdgeInfoView>, keep: Seq<bool>, start: FileId, max: u8, r: Found, i: int)
    requires
        search_shape(edges, keep, start, max, r),
        0 <= i < r.nodes.len(),
    ensures
        reach(edges, keep, start, r.dist[i] as nat, r.nodes[i]),
    decreases i,
{
    if i > 0 {
        let p = r.parent[i] as int;
        lemma_sound(edges, keep, start, max, r, p);
        lemma_leads(edges, keep, r.nodes[p], r.nodes[i]);
        assert(leads(edges, keep, r.nodes[p], r.step[i] as int, r.nodes[i]));
        assert(within(edges, keep, start, r.dist[p] as nat).contains(r.nodes[p]));
    }
}

proof fn lemma_complete(
    edges: Seq<EdgeInfoView>,
    keep: Seq<bool>,
    start: FileId,
    max: u8,
    r: Found,
    d: nat,
    f: FileId,
)
    requires
        under_way(edges, keep, start, max, r, r.nodes.len() as int, 0),
        d <= max,
        reach(edges, keep, start, d, f),
    ensures
        found_within(r, f, d as int),
    decreases d,
{
    if d == 0 {
        assert(r.nodes[0] == f && r.dist[0] <= 0);
    } else {
        let e = (d - 1) as nat;
        if reach(edges, keep, start, e, f) {
            lemma_complete(edges, keep, start, max, r, e, f);
            let i = choose|i: int| 0 <= i < r.nodes.len() && #[trigger] r.nodes[i] == f && r.dist[i] <= e;
            assert(r.nodes[i] == f && r.dist[i] <= d);
        } else {
            let s = within(edges, keep, start, e);
            let a = choose|a: FileId| #[trigger] s.contains(a) && linked(edges, keep, a, f);
            lemma_complete(edges, keep, start, max, r, e, a);
            let i = choose|i: int| 0 <= i < r.nodes.len() && #[trigger] r.nodes[i] == a && r.dist[i] <= e;
            lemma_leads(edges, keep, a, f);
            let q = choose|q: int| #[trigger] leads(edges, keep, a, q, f);
            assert(expanded(edges, keep, r, i, graph::edges_at(edges, r.nodes[i]).len() as int));
            assert(leads(edges, keep, r.nodes[i], q, f));
            assert(found_within(r, f, r.dist[i] + 1));
            let j = choose|j: int| 0 <= j < r.nodes.len() && #[trigger] r.nodes[j] == f && r.dist[j] <= r.dist[i] + 1;
            assert(r.nodes[j] == f && r.dist[j] <= d);
        }
    }
}

proof fn lemma_done(edges: Seq<EdgeInfoView>, keep: Seq<bool>, start: FileId, max: u8, r: Found)
    requires
        under_way(edges, keep, start, max, r, r.nodes.len() as int, 0),
    ensures
        searched(edges, keep, start, max, r),
{
    assert forall|f: FileId, d: nat| d <= max implies (#[trigger] reach(edges, keep, start, d, f) <==> found_within(
        r,
        f,
        d as int,
    )) by {
        if reach(edges, keep, start, d, f) {
            lemma_complete(edges, keep, start, max, r, d, f);
        }
        if found_within(r, f, d as int) {
            let i = choose|i: int| 0 <= i < r.nodes.len() && #[trigger] r.nodes[i] == f && r.dist[i] <= d;
            lemma_sound(edges, keep, start, max, r, i);
            lemma_reach_grows(edges, keep, start, r.dist[i] as nat, d, f);
        }
    }
}

/// What a search found.
pub struct Reach {
    nodes: Vec<FileId>,
    dist: Vec<u8>,
    parent: Vec<usize>,
    step: Vec<usize>,
    slots: HashMap<i64, usize>,
}

impl View for Reach {
    type V = Found;

    closed spec fn view(&self) -> Found {
        Found { nodes: self.nodes@, dist: self.dist@, parent: self.parent@, step: self.step@ }
    }
}

/// Each file leads to its place.
spec fn slots_agree(slots: Map<i64, usize>, nodes: Seq<FileId>) -> bool {
    &&& forall|k: i64| #[trigger] slots.contains_key(k) ==> slots[k] < nodes.len() && nodes[slots[k] as int].0 == k
    &&& forall|i: int| 0 <= i < nodes.len() ==> slots.contains_key((#[trigger] nodes[i]).0)
}

impl Reach {
    pub closed spec fn wf(&self) -> bool {
        &&& slots_agree(self.slots@, self.nodes@)
        &&& self.nodes@.len() == self.dist@.len()
        &&& self.nodes@.len() == self.parent@.len()
        &&& self.nodes@.len() == self.step@.len()
    }

    pub fn len(&self) -> (r: usize)
        ensures
            r == self@.nodes.len(),
    {
        self.nodes.len()
    }

    pub fn node(&self, i: usize) -> (r: FileId)
        requires
            i < self@.nodes.len(),
        ensures
            r == self@.nodes[i as int],
    {
        self.nodes[i]
    }

    pub fn dist(&self, i: usize) -> (r: u8)
        requires
            self.wf(),
            i < self@.nodes.len(),
        ensures
            r == self@.dist[i as int],
    {
        self.dist[i]
    }

    pub fn parent(&self, i: usize) -> (r: usize)
        requires
            self.wf(),
            i < self@.nodes.len(),
        ensures
            r == self@.parent[i as int],
    {
        self.parent[i]
    }

    pub fn step(&self, i: usize) -> (r: usize)
        requires
            self.wf(),
            i < self@.nodes.len(),
        ensures
            r == self@.step[i as int],
    {
        self.step[i]
    }

    /// Where a file stands among those found.
    pub fn find(&self, f: FileId) -> (r: Option<usize>)
        requires
            self.wf(),
        ensures
            match r {
                Some(i) => i < self@.nodes.len() && self@.nodes[i as int] == f,
                None => !self@.nodes.contains(f),
            },
    {
        match self.slots.get(&f.0) {
            Some(i) => Some(*i),
            None => {
                proof {
                    if self@.nodes.contains(f) {
                        let i = self@.nodes.index_of(f);
                        assert(self.nodes@[i].0 == f.0);
                    }
                }
                None
            },
        }
    }
}

/// Undirected breadth-first search over the edges that `keep` marks, up to
/// `max_depth` edges away.
pub fn bfs(graph: &Graph, start: FileId, max_depth: u8, keep: &Vec<bool>) -> (r: Reach)
    requires
        graph.wf(),
        keep@.len() == graph@.len(),
    ensures
        r.wf(),
        searched(graph@, keep@, start, max_depth, r@),
        r@ == search(graph@, keep@, start, max_depth),
{
    let ghost edges = graph@;
    let mut r = Reach {
        nodes: Vec::new(),
        dist: Vec::new(),
        parent: Vec::new(),
        step: Vec::new(),
        slots: HashMap::new(),
    };
    r.nodes.push(start);
    r.dist.push(0);
    r.parent.push(0);
    r.step.push(0);
    r.slots.insert(start.0, 0);
    let mut h: usize = 0;
    while h < r.nodes.len()
        invariant
            graph.wf(),
            edges == graph@,
            keep@.len() == edges.len(),
            h <= r.nodes@.len(),
            r.wf(),
            under_way(edges, keep@, start, max_depth, r@, h as int, 0),
        decreases graph.edges@.len() * 2 + 2 - h,
    {
        proof {
            lemma_few_nodes(edges, keep@, start, max_depth, r@);
        }
        let cur = r.nodes[h];
        let d = r.dist[h];
        let mut k: usize = 0;
        if d < max_depth {
            let at = graph.neighbors(cur);
            while k < at.len()
                invariant
                    graph.wf(),
                    edges == graph@,
                    keep@.len() == edges.len(),
                    h < r.nodes@.len(),
                    r.wf(),
                    cur == r.nodes@[h as int],
                    d == r.dist@[h as int],
                    d < max_depth,
                    k <= at@.len(),
                    postings::as_ints(at@) == graph::edges_at(edges, cur),
                    forall|j: int| 0 <= j < at@.len() ==> #[trigger] at@[j] < edges.len(),
                    under_way(edges, keep@, start, max_depth, r@, h as int, k as int),
                decreases at@.len() - k,
            {
                let ix = at[k];
                assert(graph::edges_at(edges, cur)[k as int] == ix);
                assert(edges[ix as int] == graph.edges@[ix as int]@);
                let row = graph.edges[ix].row;
                let other = if row.src == cur {
                    row.dst
                } else {
                    row.src
                };
                if keep[ix] && r.find(other).is_none() {
                    let ghost before = r@;
                    proof {
                        lemma_push(edges, keep@, start, max_depth, before, h as int, k as int, other);
                    }
                    let n = r.nodes.len();
                    r.nodes.push(other);
                    r.dist.push(d + 1);
                    r.parent.push(h);
                    r.step.push(k);
                    r.slots.insert(other.0, n);
                    assert(r@ =~= Found {
                        nodes: before.nodes.push(other),
                        dist: before.dist.push((before.dist[h as int] + 1) as u8),
                        parent: before.parent.push(h),
                        step: before.step.push(k),
                    });
                } else {
                    proof {
                        lemma_pass(edges, keep@, start, max_depth, r@, h as int, k as int);
                    }
                }
                k += 1;
            }
        }
        proof {
            lemma_next(edges, keep@, start, max_depth, r@, h as int, k as int);
        }
        h += 1;
    }
    proof {
        lemma_done(edges, keep@, start, max_depth, r@);
        search_is_determined(edges, keep@, start, max_depth, r@, search(edges, keep@, start, max_depth));
    }
    r
}

/// A search finds no more files than edges have ends, and the start.
proof fn lemma_few_nodes(edges: Seq<EdgeInfoView>, keep: Seq<bool>, start: FileId, max: u8, r: Found)
    requires
        search_shape(edges, keep, start, max, r),
    ensures
        r.nodes.len() <= edges.len() * 2 + 1,
{
    let ends = edges.map_values(|e: EdgeInfoView| e.row.src) + edges.map_values(|e: EdgeInfoView| e.row.dst) + seq![
        start,
    ];
    assert(r.nodes.no_duplicates()) by {
        assert forall|i: int, j: int| 0 <= i < r.nodes.len() && 0 <= j < r.nodes.len() && i != j implies r.nodes[i]
            != r.nodes[j] by {
            if i < j {
                assert(r.nodes[i] != r.nodes[j]);
            } else {
                assert(r.nodes[j] != r.nodes[i]);
            }
        }
    }
    assert forall|f: FileId| r.nodes.to_set().contains(f) implies ends.to_set().contains(f) by {
        let i = r.nodes.index_of(f);
        if i == 0 {
            assert(ends[ends.len() - 1] == f);
        } else {
            let p = r.parent[i] as int;
            assert(leads(edges, keep, r.nodes[p], r.step[i] as int, r.nodes[i]));
            let a = r.nodes[p];
            let at = graph::edges_at(edges, a);
            let ix = at[r.step[i] as int];
            postings::positions_are_indices(graph::sources(edges), a.0);
            postings::positions_are_indices(graph::targets(edges), a.0);
            let q = r.step[i] as int;
            let ps = postings::positions(graph::sources(edges), a.0);
            if q < ps.len() {
                assert(ps[q] == ix);
            } else {
                assert(postings::positions(graph::targets(edges), a.0)[q - ps.len()] == ix);
            }
            assert(0 <= ix < edges.len());
            if edges[ix].row.src == a {
                assert(ends[edges.len() + ix] == f);
            } else {
                assert(ends[ix] == f);
            }
        }
    }
    assert(r.nodes.to_set().subset_of(ends.to_set()));
    r.nodes.unique_seq_to_set();
    ends.lemma_cardinality_of_set();
    vstd::set_lib::lemma_len_subset(r.nodes.to_set(), ends.to_set());
}


/// What a search finds.
pub open spec fn search(edges: Seq<EdgeInfoView>, keep: Seq<bool>, start: FileId, max: u8) -> Found {
    choose|r: Found| searched(edges, keep, start, max, r)
}

/// Two outcomes agree on the first `n` files.
spec fn agree(a: Found, b: Found, n: int) -> bool {
    forall|i: int|
        0 <= i < n ==> #[trigger] a.nodes[i] == b.nodes[i] && a.dist[i] == b.dist[i] && (i > 0 ==> a.parent[i]
            == b.parent[i] && a.step[i] == b.step[i])
}

/// Where two outcomes agree up to `n` and one has a next file, the other comes
/// to that file next or has come to one by an earlier edge.
proof fn lemma_follows(
    edges: Seq<EdgeInfoView>,
    keep: Seq<bool>,
    start: FileId,
    max: u8,
    a: Found,
    b: Found,
    n: int,
)
    requires
        searched(edges, keep, start, max, a),
        searched(edges, keep, start, max, b),
        0 < n < a.nodes.len(),
        n <= b.nodes.len(),
        agree(a, b, n),
    ensures
        n < b.nodes.len(),
        b.parent[n] < a.parent[n] || (b.parent[n] == a.parent[n] && b.step[n] <= a.step[n]),
{
    let f = a.nodes[n];
    let p = a.parent[n] as int;
    let d = a.dist[n] as nat;
    assert(found_within(a, f, d as int));
    assert(reach(edges, keep, start, d, f));
    assert(found_within(b, f, d as int));
    let j = choose|j: int| 0 <= j < b.nodes.len() && #[trigger] b.nodes[j] == f && b.dist[j] <= d;
    if j < n {
        assert(a.nodes[j] == b.nodes[j]);
    }
    assert(p < n);
    assert(a.nodes[p] == b.nodes[p]);
    lemma_leads(edges, keep, a.nodes[p], f);
    assert(leads(edges, keep, a.nodes[p], a.step[n] as int, f));
    let q = b.parent[j] as int;
    if p < q {
        assert(!linked(edges, keep, b.nodes[p], b.nodes[j]));
    }
    if q < p {
        assert(a.nodes[q] == b.nodes[q]);
        lemma_leads(edges, keep, b.nodes[q], f);
        assert(leads(edges, keep, b.nodes[q], b.step[j] as int, f));
        assert(!linked(edges, keep, a.nodes[q], a.nodes[n]));
    }
    if a.step[n] < b.step[j] {
        assert(!leads(edges, keep, b.nodes[b.parent[j] as int], a.step[n] as int, b.nodes[j]));
    }
    if n < j {
        assert(b.parent[n] < b.parent[j] || (b.parent[n] == b.parent[j] && b.step[n] < b.step[j]));
    }
}

proof fn lemma_agree(
    edges: Seq<EdgeInfoView>,
    keep: Seq<bool>,
    start: FileId,
    max: u8,
    a: Found,
    b: Found,
    n: int,
)
    requires
        searched(edges, keep, start, max, a),
        searched(edges, keep, start, max, b),
        1 <= n <= a.nodes.len(),
    ensures
        n <= b.nodes.len(),
        agree(a, b, n),
    decreases n,
{
    if n > 1 {
        let m = n - 1;
        lemma_agree(edges, keep, start, max, a, b, m);
        lemma_follows(edges, keep, start, max, a, b, m);
        lemma_follows(edges, keep, start, max, b, a, m);
        let p = a.parent[m] as int;
        assert(b.parent[m] == a.parent[m] && b.step[m] == a.step[m]);
        assert(p < m);
        assert(a.nodes[p] == b.nodes[p] && a.dist[p] == b.dist[p]);
        assert(leads(edges, keep, a.nodes[p], a.step[m] as int, a.nodes[m]));
        assert(leads(edges, keep, b.nodes[p], b.step[m] as int, b.nodes[m]));
    }
}

/// Law: a search has one outcome.
pub proof fn search_is_determined(
    edges: Seq<EdgeInfoView>,
    keep: Seq<bool>,
    start: FileId,
    max: u8,
    a: Found,
    b: Found,
)
    requires
        searched(edges, keep, start, max, a),
        searched(edges, keep, start, max, b),
    ensures
        a == b,
{
    lemma_agree(edges, keep, start, max, a, b, a.nodes.len() as int);
    lemma_agree(edges, keep, start, max, b, a, b.nodes.len() as int);
    assert(a.nodes[0] == b.nodes[0]);
    assert(a.nodes =~= b.nodes);
    assert forall|i: int| 0 <= i < a.nodes.len() implies a.dist[i] == b.dist[i] && a.parent[i] == b.parent[i]
        && a.step[i] == b.step[i] by {
        assert(a.nodes[i] == b.nodes[i]);
    }
    assert(a =~= b);
}

/// Law: the distance of a found file is the length of a shortest way to it.
pub proof fn distances_are_shortest(
    edges: Seq<EdgeInfoView>,
    keep: Seq<bool>,
    start: FileId,
    max: u8,
    r: Found,
    i: int,
    d: nat,
)
    requires
        searched(edges, keep, start, max, r),
        0 <= i < r.nodes.len(),
        d <= max,
    ensures
        reach(edges, keep, start, d, r.nodes[i]) <==> r.dist[i] <= d,
{
    if reach(edges, keep, start, d, r.nodes[i]) {
        let f = r.nodes[i];
        assert(found_within(r, f, d as int));
        let j = choose|j: int| 0 <= j < r.nodes.len() && #[trigger] r.nodes[j] == f && r.dist[j] <= d;
        if j < i {
            assert(r.nodes[j] != r.nodes[i]);
        } else if i < j {
            assert(r.nodes[i] != r.nodes[j]);
        }
    } else if r.dist[i] <= d {
        assert(found_within(r, r.nodes[i], d as int));
    }
}

} // verus!
