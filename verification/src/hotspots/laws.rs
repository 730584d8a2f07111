//! Which files are ranked and by what, over all indexes.

use crate::hotspots;
use crate::hotspots::{Basis, HotView};
use crate::listing;
use crate::listing::laws::{edges_once, lemma_edge_with};
use crate::model::FileId;
use crate::plain;
use crate::postings;
use crate::query::{Ctx, Snapshot};
use crate::rows::{CochangeRow, EdgeRow, GhostRow, TouchRow};
use crate::text;
use vstd::prelude::*;

verus! {

proof fn lemma_push_has<A>(s: Seq<A>, x: A, y: A)
    ensures
        s.push(x).contains(y) <==> s.contains(y) || x == y,
{
    if s.contains(y) {
        assert(s.push(x)[s.index_of(y)] == y);
    }
    assert(s.push(x)[s.len() as int] == x);
    if s.push(x).contains(y) {
        let k = s.push(x).index_of(y);
        if k < s.len() {
            assert(s[k] == y);
        }
    }
}

proof fn lemma_coupled(pairs: Seq<CochangeRow>, min_n: i64, m: (FileId, int))
    ensures
        hotspots::coupled(pairs, min_n).contains(m) <==> exists|i: int|
            #![trigger pairs[i]]
            0 <= i < pairs.len() && pairs[i].lift_reportable && pairs[i].n >= min_n && pairs[i].slot == m.1 && (pairs[i].a
                == m.0 || pairs[i].b == m.0),
    decreases pairs.len(),
{
    if pairs.len() > 0 {
        let d = pairs.drop_last();
        let p = pairs.last();
        let b = hotspots::coupled(d, min_n);
        lemma_coupled(d, min_n, m);
        lemma_push_has(b, (p.a, p.slot as int), m);
        lemma_push_has(b.push((p.a, p.slot as int)), (p.b, p.slot as int), m);
        assert(pairs[pairs.len() - 1] == p);
        if b.contains(m) {
            let i = choose|i: int|
                #![trigger d[i]]
                0 <= i < d.len() && d[i].lift_reportable && d[i].n >= min_n && d[i].slot == m.1 && (d[i].a == m.0
                    || d[i].b == m.0);
            assert(pairs[i] == d[i]);
        }
        if hotspots::coupled(pairs, min_n).contains(m) && !b.contains(m) {
            assert(pairs[pairs.len() - 1].slot == m.1);
        }
        if exists|i: int|
            #![trigger pairs[i]]
            0 <= i < pairs.len() && pairs[i].lift_reportable && pairs[i].n >= min_n && pairs[i].slot == m.1 && (pairs[i].a
                == m.0 || pairs[i].b == m.0) {
            let i = choose|i: int|
                #![trigger pairs[i]]
                0 <= i < pairs.len() && pairs[i].lift_reportable && pairs[i].n >= min_n && pairs[i].slot == m.1 && (
                pairs[i].a == m.0 || pairs[i].b == m.0);
            if i < d.len() {
                assert(d[i] == pairs[i]);
            }
        }
    }
}

/// Law: by coupling, a file is mentioned by each pair that holds it, changed
/// together often enough and has a lift that is reportable.
pub proof fn pairs_mention_both(snap: &Snapshot, ctx: &Ctx, m: (FileId, int))
    ensures
        hotspots::mentions(snap, ctx, Basis::Coupling).contains(m) <==> exists|i: int|
            #![trigger snap.cochange@[i]]
            0 <= i < snap.cochange@.len() && snap.cochange@[i].lift_reportable && snap.cochange@[i].n
                >= ctx.params.min_cochange_n && snap.cochange@[i].slot == m.1 && (snap.cochange@[i].a == m.0
                || snap.cochange@[i].b == m.0),
{
    lemma_coupled(snap.cochange@, ctx.params.min_cochange_n, m);
}

/// A ghost names a file: its edge starts or ends there.
pub open spec fn haunts(edges: Seq<EdgeRow>, g: GhostRow, f: FileId) -> bool {
    exists|j: int|
        0 <= j < edges.len() && (#[trigger] edges[j]).id == g.edge_id && (edges[j].src == f || edges[j].dst == f)
}

proof fn lemma_haunted(ghosts: Seq<GhostRow>, edges: Seq<EdgeRow>, m: (FileId, int))
    requires
        edges_once(edges),
    ensures
        hotspots::haunted(ghosts, edges).contains(m) <==> exists|i: int|
            0 <= i < ghosts.len() && (#[trigger] ghosts[i]).slot == m.1 && haunts(edges, ghosts[i], m.0),
    decreases ghosts.len(),
{
    if ghosts.len() > 0 {
        let d = ghosts.drop_last();
        let g = ghosts.last();
        let b = hotspots::haunted(d, edges);
        lemma_haunted(d, edges, m);
        lemma_edge_with(edges, g.edge_id);
        assert(ghosts[ghosts.len() - 1] == g);
        match postings::last_position(listing::edge_ids(edges), g.edge_id) {
            Some(i) => {
                let e = edges[i];
                assert(listing::edge_with(edges, g.edge_id) == Some(e));
                let j = edges.index_of(e);
                assert(edges[j] == e);
                lemma_push_has(b, (e.src, g.slot as int), m);
                lemma_push_has(b.push((e.src, g.slot as int)), (e.dst, g.slot as int), m);
                assert(haunts(edges, g, m.0) <==> e.src == m.0 || e.dst == m.0) by {
                    if haunts(edges, g, m.0) {
                        let k = choose|k: int|
                            0 <= k < edges.len() && (#[trigger] edges[k]).id == g.edge_id && (edges[k].src == m.0
                                || edges[k].dst == m.0);
                        assert(Some(edges[k]) == Some(e));
                    }
                    if e.src == m.0 || e.dst == m.0 {
                        assert(edges[j].id == g.edge_id);
                    }
                }
            },
            None => {
                assert(!haunts(edges, g, m.0));
            },
        }
        if b.contains(m) {
            let i = choose|i: int| 0 <= i < d.len() && (#[trigger] d[i]).slot == m.1 && haunts(edges, d[i], m.0);
            assert(ghosts[i] == d[i]);
        }
        if exists|i: int| 0 <= i < ghosts.len() && (#[trigger] ghosts[i]).slot == m.1 && haunts(edges, ghosts[i], m.0) {
            let i = choose|i: int|
                0 <= i < ghosts.len() && (#[trigger] ghosts[i]).slot == m.1 && haunts(edges, ghosts[i], m.0);
            if i < d.len() {
                assert(d[i] == ghosts[i]);
            }
        }
    }
}

/// Law: by ghosts, a file is mentioned by each ghost whose edge starts or ends
/// at it.
pub proof fn ghosts_mention_both(snap: &Snapshot, ctx: &Ctx, m: (FileId, int))
    requires
        edges_once(snap.edges@),
    ensures
        hotspots::mentions(snap, ctx, Basis::Ghosts).contains(m) <==> exists|i: int|
            0 <= i < snap.ghosts@.len() && (#[trigger] snap.ghosts@[i]).slot == m.1 && haunts(
                snap.edges@,
                snap.ghosts@[i],
                m.0,
            ),
{
    lemma_haunted(snap.ghosts@, snap.edges@, m);
}

proof fn lemma_churned(ctx: &Ctx, touches: Seq<TouchRow>, m: (FileId, int))
    requires
        plain::commits_once(ctx.commits@),
    ensures
        hotspots::churned(ctx, touches).contains(m) <==> 0 <= m.1 < touches.len() && touches[m.1].file == m.0
            && plain::weighs(ctx.commits@, touches[m.1].commit.0),
    decreases touches.len(),
{
    if touches.len() > 0 {
        let d = touches.drop_last();
        let t = touches.last();
        lemma_churned(ctx, d, m);
        plain::weight_counts(ctx.commits@, t.commit.0);
        lemma_push_has(hotspots::churned(ctx, d), (t.file, touches.len() - 1), m);
    }
}

/// Law: by churn, a file is mentioned by each touch of it in a commit that has a
/// weight.
pub proof fn touches_mention_files(snap: &Snapshot, ctx: &Ctx, m: (FileId, int))
    requires
        plain::commits_once(ctx.commits@),
    ensures
        hotspots::mentions(snap, ctx, Basis::Churn).contains(m) <==> 0 <= m.1 < snap.touches@.len()
            && snap.touches@[m.1].file == m.0 && plain::weighs(ctx.commits@, snap.touches@[m.1].commit.0),
{
    lemma_churned(ctx, snap.touches@, m);
}

/// What is ranked of a file: its path, and where each of its mentions is
/// measured.
pub open spec fn heat(snap: &Snapshot, ms: Seq<(FileId, int)>, f: FileId) -> HotView {
    HotView {
        path: snap.shown(f),
        slots: postings::positions(hotspots::mention_files(ms), f.0).map_values(|i: int| ms[i].1),
    }
}

proof fn lemma_hot(snap: &Snapshot, ms: Seq<(FileId, int)>, n: int)
    requires
        0 <= n <= ms.len(),
    ensures
        forall|i: int|
            0 <= i < n && snap.alive((#[trigger] ms[i]).0) ==> hotspots::hot(snap, ms, n).contains(heat(snap, ms, ms[i].0)),
        forall|k: int|
            0 <= k < hotspots::hot(snap, ms, n).len() ==> exists|i: int|
                0 <= i < n && snap.alive((#[trigger] ms[i]).0) && (#[trigger] hotspots::hot(snap, ms, n)[k]) == heat(
                    snap,
                    ms,
                    ms[i].0,
                ),
    decreases n,
{
    if n > 0 {
        lemma_hot(snap, ms, n - 1);
        let b = hotspots::hot(snap, ms, n - 1);
        let h = hotspots::hot(snap, ms, n);
        let keys = hotspots::mention_files(ms);
        assert forall|i: int| 0 <= i < n && snap.alive((#[trigger] ms[i]).0) implies h.contains(
            heat(snap, ms, ms[i].0),
        ) by {
            let f = ms[i].0;
            postings::positions_are_indices(keys, f.0);
            let at = postings::positions(keys, f.0);
            assert(keys[i] == f.0);
            assert(at.contains(i));
            let x = at.index_of(i);
            if x > 0 {
                assert(at[0] < at[x]);
            }
            let first = at[0];
            assert(keys[first] == ms[first].0.0);
            assert(ms[first].0 == f);
            if first < n - 1 {
                assert(snap.alive(ms[first].0));
                assert(b.contains(heat(snap, ms, f)));
                assert(h[b.index_of(heat(snap, ms, f))] == heat(snap, ms, f));
            } else {
                assert(first == n - 1 && i == n - 1);
                assert(h[b.len() as int] == heat(snap, ms, f));
            }
        }
        assert forall|k: int| 0 <= k < h.len() implies exists|i: int|
            0 <= i < n && snap.alive((#[trigger] ms[i]).0) && (#[trigger] h[k]) == heat(snap, ms, ms[i].0) by {
            if k < b.len() {
                assert(h[k] == b[k]);
                let i = choose|i: int|
                    0 <= i < n - 1 && snap.alive((#[trigger] ms[i]).0) && (#[trigger] b[k]) == heat(snap, ms, ms[i].0);
                assert(snap.alive(ms[i].0));
            } else {
                assert(snap.alive(ms[n - 1].0));
            }
        }
    }
}

/// Law: every mentioned file that has a path at HEAD is ranked by all its
/// mentions, and no other file is.
pub proof fn mentioned_files_are_ranked(snap: &Snapshot, ctx: &Ctx, by: Basis)
    requires
        plain::files_once(snap.files.files()),
    ensures
        ({
            let ms = hotspots::mentions(snap, ctx, by);
            let h = hotspots::hot(snap, ms, ms.len() as int);
            &&& forall|i: int|
                #![trigger ms[i]]
                0 <= i < ms.len() && plain::lives(snap.files.files(), ms[i].0) ==> h.contains(heat(snap, ms, ms[i].0))
                    && heat(snap, ms, ms[i].0).slots.contains(ms[i].1)
            &&& forall|k: int|
                #![trigger h[k]]
                0 <= k < h.len() ==> exists|i: int|
                    #![trigger ms[i]]
                    0 <= i < ms.len() && plain::lives(snap.files.files(), ms[i].0) && h[k] == heat(snap, ms, ms[i].0)
        }),
{
    let ms = hotspots::mentions(snap, ctx, by);
    let h = hotspots::hot(snap, ms, ms.len() as int);
    let keys = hotspots::mention_files(ms);
    lemma_hot(snap, ms, ms.len() as int);
    assert forall|i: int|
        #![trigger ms[i]]
        0 <= i < ms.len() && plain::lives(snap.files.files(), ms[i].0) implies h.contains(heat(snap, ms, ms[i].0))
        && heat(snap, ms, ms[i].0).slots.contains(ms[i].1) by {
        plain::paths_keep_alive(snap.files.files(), ms[i].0);
        let f = ms[i].0;
        postings::positions_are_indices(keys, f.0);
        let at = postings::positions(keys, f.0);
        assert(keys[i] == f.0);
        assert(at.contains(i));
        assert(heat(snap, ms, f).slots[at.index_of(i)] == ms[i].1);
        assert(snap.alive(ms[i].0));
    }
    assert forall|k: int| #![trigger h[k]] 0 <= k < h.len() implies exists|i: int|
        #![trigger ms[i]]
        0 <= i < ms.len() && plain::lives(snap.files.files(), ms[i].0) && h[k] == heat(snap, ms, ms[i].0) by {
        let i = choose|i: int|
            0 <= i < ms.len() && snap.alive((#[trigger] ms[i]).0) && (#[trigger] h[k]) == heat(snap, ms, ms[i].0);
        plain::paths_keep_alive(snap.files.files(), ms[i].0);
    }
}

/// Law: a ranking is by coupling or by ghosts where that is asked for, by churn
/// else, and it says what it counts.
pub proof fn rankings_say_what_they_count(by: Seq<char>, n: nat)
    ensures
        Basis::of("coupling"@) == Basis::Coupling,
        Basis::of("ghosts"@) == Basis::Ghosts,
        by != "coupling"@ && by != "ghosts"@ ==> Basis::of(by) == Basis::Churn,
        Basis::Churn.told(n) == text::decimal(n) + " touches"@,
        Basis::Coupling.told(n) == text::decimal(n) + " coupled partners"@,
        Basis::Ghosts.told(n) == text::decimal(n) + " ghost edges"@,
{
    reveal_strlit("coupling");
    reveal_strlit("ghosts");
    assert("coupling"@.len() == 8 && "ghosts"@.len() == 6);
}

} // verus!
