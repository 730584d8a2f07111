//! Files ranked by churn, coupling, or ghost involvement.

use crate::listing;
use crate::model::FileId;
use crate::order::stable_order;
use crate::order;
use crate::postings::Postings;
use crate::postings;
use crate::query::{Ctx, Snapshot, SCHEMA_VERSION};
use crate::query;
use crate::rows::{CochangeRow, EdgeRow, GhostRow, TouchRow};
use crate::rows;
use crate::text;
use vstd::prelude::*;

pub mod laws;

verus! {

/// What files are ranked by.
#[derive(Debug, Clone, Copy, PartialEq, Eq, Structural)]
pub enum Basis {
    Churn,
    Coupling,
    Ghosts,
}

impl Basis {
    /// The basis that a word names; churn where it names none.
    pub open spec fn of(by: Seq<char>) -> Basis {
        if by == "coupling"@ {
            Basis::Coupling
        } else if by == "ghosts"@ {
            Basis::Ghosts
        } else {
            Basis::Churn
        }
    }

    pub fn parse(by: &str) -> (r: Self)
        ensures
            r == Basis::of(by@),
    {
        if text::eq_str(by, "coupling") {
            Basis::Coupling
        } else if text::eq_str(by, "ghosts") {
            Basis::Ghosts
        } else {
            Basis::Churn
        }
    }

    /// What so many mentions of a file are called.
    pub open spec fn told(self, n: nat) -> Seq<char> {
        text::decimal(n) + (match self {
            Basis::Churn => " touches"@,
            Basis::Coupling => " coupled partners"@,
            Basis::Ghosts => " ghost edges"@,
        })
    }

    fn tell(self, n: usize) -> (r: String)
        ensures
            r@ == self.told(n as nat),
    {
        let count = text::nat_text(n as u64);
        text::cat2(
            count.as_str(),
            match self {
                Basis::Churn => " touches",
                Basis::Coupling => " coupled partners",
                Basis::Ghosts => " ghost edges",
            },
        )
    }
}

/// The mentions of files by coupled pairs that are reportable: both files,
/// and where the pair is measured.
pub open spec fn coupled(pairs: Seq<CochangeRow>, min_n: i64) -> Seq<(FileId, int)>
    decreases pairs.len(),
{
    if pairs.len() == 0 {
        Seq::empty()
    } else {
        let b = coupled(pairs.drop_last(), min_n);
        let p = pairs.last();
        if p.lift_reportable && p.n >= min_n {
            b.push((p.a, p.slot as int)).push((p.b, p.slot as int))
        } else {
            b
        }
    }
}

/// The mentions of files by ghosts whose edge is known.
pub open spec fn haunted(ghosts: Seq<GhostRow>, edges: Seq<EdgeRow>) -> Seq<(FileId, int)>
    decreases ghosts.len(),
{
    if ghosts.len() == 0 {
        Seq::empty()
    } else {
        let b = haunted(ghosts.drop_last(), edges);
        let g = ghosts.last();
        match postings::last_position(listing::edge_ids(edges), g.edge_id) {
            Some(i) => b.push((edges[i].src, g.slot as int)).push((edges[i].dst, g.slot as int)),
            None => b,
        }
    }
}

/// The mentions of files by touches of commits that count.
pub open spec fn churned(ctx: &Ctx, touches: Seq<TouchRow>) -> Seq<(FileId, int)>
    decreases touches.len(),
{
    if touches.len() == 0 {
        Seq::empty()
    } else {
        let b = churned(ctx, touches.drop_last());
        let t = touches.last();
        if query::counts(ctx.commits@, t.commit.0) {
            b.push((t.file, touches.len() - 1))
        } else {
            b
        }
    }
}

/// The mentions that a ranking weighs, each with where its measure is found:
/// the pair's slot, the ghost's slot, or the number of the touch.
pub open spec fn mentions(snap: &Snapshot, ctx: &Ctx, by: Basis) -> Seq<(FileId, int)> {
    match by {
        Basis::Coupling => coupled(snap.cochange@, ctx.params.min_cochange_n),
        Basis::Ghosts => haunted(snap.ghosts@, snap.edges@),
        Basis::Churn => churned(ctx, snap.touches@),
    }
}

pub open spec fn mention_files(s: Seq<(FileId, int)>) -> Seq<i64> {
    s.map_values(|m: (FileId, int)| m.0.0)
}

/// A file that is mentioned, with the path it has and where its mentions are
/// measured.
pub struct HotFile {
    pub path: String,
    pub slots: Vec<usize>,
}

#[verifier::ext_equal]
pub struct HotView {
    pub path: Seq<char>,
    pub slots: Seq<int>,
}

impl View for HotFile {
    type V = HotView;

    open spec fn view(&self) -> HotView {
        HotView { path: self.path@, slots: postings::as_ints(self.slots@) }
    }
}

pub open spec fn hot_views(s: Seq<HotFile>) -> Seq<HotView> {
    s.map_values(|h: HotFile| h@)
}

/// The mentioned files that have a path, in the order of their first mention
/// among the first `n`.
pub open spec fn hot(snap: &Snapshot, ms: Seq<(FileId, int)>, n: int) -> Seq<HotView>
    decreases n,
{
    if n <= 0 {
        Seq::empty()
    } else {
        let b = hot(snap, ms, n - 1);
        let f = ms[n - 1].0;
        let at = postings::positions(mention_files(ms), f.0);
        if at[0] == n - 1 && snap.alive(f) {
            b.push(HotView { path: snap.shown(f), slots: at.map_values(|i: int| ms[i].1) })
        } else {
            b
        }
    }
}

pub open spec fn mention_views(s: Seq<(FileId, usize)>) -> Seq<(FileId, int)> {
    s.map_values(|m: (FileId, usize)| (m.0, m.1 as int))
}

fn list_coupled(pairs: &Vec<CochangeRow>, min_n: i64) -> (r: Vec<(FileId, usize)>)
    ensures
        mention_views(r@) == coupled(pairs@, min_n),
{
    let mut out: Vec<(FileId, usize)> = Vec::new();
    let mut i: usize = 0;
    assert(pairs@.take(0) =~= Seq::<CochangeRow>::empty());
    assert(mention_views(out@) =~= Seq::<(FileId, int)>::empty());
    while i < pairs.len()
        invariant
            i <= pairs@.len(),
            mention_views(out@) == coupled(pairs@.take(i as int), min_n),
        decreases pairs@.len() - i,
    {
        assert(pairs@.take(i + 1).drop_last() =~= pairs@.take(i as int));
        let p = pairs[i];
        if p.lift_reportable && p.n >= min_n {
            let ghost b = mention_views(out@);
            out.push((p.a, p.slot));
            out.push((p.b, p.slot));
            assert(mention_views(out@) =~= b.push((p.a, p.slot as int)).push((p.b, p.slot as int)));
        }
        i += 1;
    }
    assert(pairs@.take(i as int) =~= pairs@);
    out
}

fn list_haunted(ghosts: &Vec<GhostRow>, edges: &Vec<EdgeRow>) -> (r: Vec<(FileId, usize)>)
    ensures
        mention_views(r@) == haunted(ghosts@, edges@),
{
    let by_id = listing::edge_postings(edges);
    let mut out: Vec<(FileId, usize)> = Vec::new();
    let mut i: usize = 0;
    assert(ghosts@.take(0) =~= Seq::<GhostRow>::empty());
    assert(mention_views(out@) =~= Seq::<(FileId, int)>::empty());
    while i < ghosts.len()
        invariant
            i <= ghosts@.len(),
            by_id.wf(),
            by_id@ == listing::edge_ids(edges@),
            mention_views(out@) == haunted(ghosts@.take(i as int), edges@),
        decreases ghosts@.len() - i,
    {
        assert(ghosts@.take(i + 1).drop_last() =~= ghosts@.take(i as int));
        let g = ghosts[i];
        match by_id.last(g.edge_id) {
            Some(k) => {
                let e = edges[k];
                let ghost b = mention_views(out@);
                out.push((e.src, g.slot));
                out.push((e.dst, g.slot));
                assert(mention_views(out@) =~= b.push((e.src, g.slot as int)).push((e.dst, g.slot as int)));
            },
            None => {},
        }
        i += 1;
    }
    assert(ghosts@.take(i as int) =~= ghosts@);
    out
}

fn list_churned(ctx: &Ctx, touches: &Vec<TouchRow>) -> (r: Vec<(FileId, usize)>)
    requires
        ctx.wf(),
    ensures
        mention_views(r@) == churned(ctx, touches@),
{
    let mut out: Vec<(FileId, usize)> = Vec::new();
    let mut i: usize = 0;
    assert(touches@.take(0) =~= Seq::<TouchRow>::empty());
    assert(mention_views(out@) =~= Seq::<(FileId, int)>::empty());
    while i < touches.len()
        invariant
            i <= touches@.len(),
            ctx.wf(),
            mention_views(out@) == churned(ctx, touches@.take(i as int)),
        decreases touches@.len() - i,
    {
        assert(touches@.take(i + 1).drop_last() =~= touches@.take(i as int));
        let t = touches[i];
        if ctx.counts(t.commit.0) {
            let ghost b = mention_views(out@);
            out.push((t.file, i));
            assert(mention_views(out@) =~= b.push((t.file, i as int)));
        }
        i += 1;
    }
    assert(touches@.take(i as int) =~= touches@);
    out
}

/// The files that a ranking is made of.
pub fn hot_files(snap: &Snapshot, ctx: &Ctx, by: Basis) -> (r: Vec<HotFile>)
    requires
        snap.wf(),
        ctx.wf(),
    ensures
        hot_views(r@) == hot(snap, mentions(snap, ctx, by), mentions(snap, ctx, by).len() as int),
{
    let ms = match by {
        Basis::Coupling => list_coupled(&snap.cochange, ctx.params.min_cochange_n),
        Basis::Ghosts => list_haunted(&snap.ghosts, &snap.edges),
        Basis::Churn => list_churned(ctx, snap.touches.all()),
    };
    let ghost mv = mention_views(ms@);
    let mut keys: Vec<i64> = Vec::new();
    let mut k: usize = 0;
    while k < ms.len()
        invariant
            k <= ms@.len(),
            keys@.len() == k,
            forall|j: int| 0 <= j < k ==> #[trigger] keys@[j] == ms@[j].0.0,
        decreases ms@.len() - k,
    {
        keys.push(ms[k].0.0);
        k += 1;
    }
    assert(keys@ =~= mention_files(mv));
    let by_file = Postings::build(&keys);
    let mut out: Vec<HotFile> = Vec::new();
    let mut i: usize = 0;
    assert(hot_views(out@) =~= Seq::<HotView>::empty());
    while i < ms.len()
        invariant
            i <= ms@.len(),
            snap.wf(),
            mv == mention_views(ms@),
            by_file.wf(),
            by_file@ == mention_files(mv),
            hot_views(out@) == hot(snap, mv, i as int),
        decreases ms@.len() - i,
    {
        let f = ms[i].0;
        let at = by_file.get(f.0);
        let ghost p = postings::positions(mention_files(mv), f.0);
        proof {
            postings::positions_are_indices(mention_files(mv), f.0);
            assert(mention_files(mv)[i as int] == f.0);
            assert(p.contains(i as int));
            assert(p == postings::as_ints(at@));
            assert(p.len() == at@.len());
            assert(p[0] == at@[0]);
            assert(mv[i as int].0 == f);
        }
        if at[0] == i && snap.files.alive(f) {
            let mut slots: Vec<usize> = Vec::new();
            let mut j: usize = 0;
            while j < at.len()
                invariant
                    j <= at@.len(),
                    p == postings::as_ints(at@),
                    mv == mention_views(ms@),
                    forall|x: int| 0 <= x < at@.len() ==> #[trigger] at@[x] < ms@.len(),
                    slots@.len() == j,
                    forall|x: int| 0 <= x < j ==> #[trigger] slots@[x] == mv[p[x]].1,
                decreases at@.len() - j,
            {
                assert(p[j as int] == at@[j as int]);
                slots.push(ms[at[j]].1);
                j += 1;
            }
            let h = HotFile { path: snap.files.display_path(f), slots };
            let ghost b = out@;
            proof {
                assert(h@.slots =~= p.map_values(|x: int| mv[x].1));
            }
            let ghost hv = h@;
            out.push(h);
            assert(hot_views(out@) =~= hot_views(b).push(hv));
        }
        i += 1;
    }
    out
}

pub struct HotspotEntry {
    pub path: String,
    /// In rounded hundredths.
    pub score_pct: i64,
    pub detail: String,
}

#[verifier::ext_equal]
pub struct EntryView {
    pub path: Seq<char>,
    pub score_pct: i64,
    pub detail: Seq<char>,
}

impl View for HotspotEntry {
    type V = EntryView;

    open spec fn view(&self) -> EntryView {
        EntryView { path: self.path@, score_pct: self.score_pct, detail: self.detail@ }
    }
}

pub open spec fn entry_views(s: Seq<HotspotEntry>) -> Seq<EntryView> {
    s.map_values(|e: HotspotEntry| e@)
}

pub struct HotspotsOutput {
    pub schema: i64,
    pub by: String,
    pub results: Vec<HotspotEntry>,
    pub truncated: bool,
}

/// Higher scores come first.
pub open spec fn score_keys(scores: Seq<i64>) -> Seq<i128> {
    scores.map_values(|s: i64| (-(s as int)) as i128)
}

/// The ranking of files that have scores.
pub open spec fn ranking(files: Seq<HotView>, scores: Seq<i64>, by: Basis) -> Seq<EntryView> {
    order::order_of(score_keys(scores)).map_values(
        |i: int| EntryView { path: files[i].path, score_pct: scores[i], detail: by.told(files[i].slots.len()) },
    )
}

/// Law: each file is ranked, with its own score, none before one of a higher
/// score.
pub proof fn hotspots_descend(files: Seq<HotView>, scores: Seq<i64>, by: Basis)
    requires
        files.len() == scores.len(),
    ensures
        ranking(files, scores, by).len() == files.len(),
        forall|i: int|
            0 <= i < files.len() ==> ranking(files, scores, by).contains(
                (EntryView {
                    path: (#[trigger] files[i]).path,
                    score_pct: scores[i],
                    detail: by.told(files[i].slots.len()),
                }),
            ),
        forall|i: int, j: int|
            0 <= i < j < ranking(files, scores, by).len() ==> (#[trigger] ranking(files, scores, by)[i]).score_pct >= (
            #[trigger] ranking(files, scores, by)[j]).score_pct,
{
    let keys = score_keys(scores);
    let o = order::order_of(keys);
    let r = ranking(files, scores, by);
    order::order_is_stable(keys);
    assert forall|i: int| 0 <= i < files.len() implies r.contains(
        (EntryView { path: (#[trigger] files[i]).path, score_pct: scores[i], detail: by.told(files[i].slots.len()) }),
    ) by {
        assert(o.contains(i));
        assert(r[o.index_of(i)] == (EntryView {
            path: files[i].path,
            score_pct: scores[i],
            detail: by.told(files[i].slots.len()),
        }));
    }
    assert forall|i: int, j: int| 0 <= i < j < r.len() implies (#[trigger] r[i]).score_pct >= (
    #[trigger] r[j]).score_pct by {
        assert(order::before(keys, o[i], o[j]));
        assert(0 <= o[i] < keys.len() && 0 <= o[j] < keys.len());
        assert(keys[o[i]] == (-(scores[o[i]] as int)) as i128);
        assert(keys[o[j]] == (-(scores[o[j]] as int)) as i128);
    }
}

/// Rank files by the scores that their mentions add up to, in rounded
/// hundredths.
pub fn hotspots(files: &Vec<HotFile>, scores: &Vec<i64>, by: &str, limit: usize) -> (r: HotspotsOutput)
    requires
        files@.len() == scores@.len(),
    ensures
        r.schema == SCHEMA_VERSION,
        r.by@ == by@,
        r.truncated == (files@.len() > limit),
        entry_views(r.results@) == rows::at_most(
            ranking(hot_views(files@), scores@, Basis::of(by@)),
            limit as int,
        ),
{
    let basis = Basis::parse(by);
    let ghost fv = hot_views(files@);
    let mut keys: Vec<i128> = Vec::new();
    let mut m: usize = 0;
    while m < scores.len()
        invariant
            m <= scores@.len(),
            keys@.len() == m,
            forall|j: int| 0 <= j < m ==> #[trigger] keys@[j] == -scores@[j],
        decreases scores@.len() - m,
    {
        keys.push(-(scores[m] as i128));
        m += 1;
    }
    assert(keys@ =~= score_keys(scores@));
    let order = stable_order(&keys);
    let n: usize = if order.len() > limit {
        limit
    } else {
        order.len()
    };
    let mut results: Vec<HotspotEntry> = Vec::new();
    let mut k: usize = 0;
    while k < n
        invariant
            k <= n <= order@.len(),
            files@.len() == scores@.len(),
            basis == Basis::of(by@),
            fv == hot_views(files@),
            forall|j: int| 0 <= j < order@.len() ==> #[trigger] order@[j] < files@.len(),
            results@.len() == k,
            forall|j: int|
                0 <= j < k ==> (#[trigger] results@[j])@ == (EntryView {
                    path: fv[order@[j] as int].path,
                    score_pct: scores@[order@[j] as int],
                    detail: basis.told(fv[order@[j] as int].slots.len()),
                }),
        decreases n - k,
    {
        let i = order[k];
        assert(fv[i as int] == files@[i as int]@);
        assert(fv[i as int].slots.len() == files@[i as int].slots@.len());
        results.push(
            HotspotEntry {
                path: files[i].path.clone(),
                score_pct: scores[i],
                detail: basis.tell(files[i].slots.len()),
            },
        );
        k += 1;
    }
    proof {
        let o = order::order_of(keys@);
        let want = rows::at_most(ranking(fv, scores@, basis), limit as int);
        assert(postings::as_ints(order@) == o);
        assert(o.len() == order@.len());
        assert forall|j: int| 0 <= j < results@.len() implies entry_views(results@)[j] == want[j] by {
            assert(o[j] == order@[j]);
        }
        assert(entry_views(results@) =~= want);
    }
    HotspotsOutput { schema: SCHEMA_VERSION, by: by.to_owned(), results, truncated: files.len() > limit }
}

} // verus!
