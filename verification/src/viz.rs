//! The compact payload that the picture of a repository is drawn from.

use crate::cochange;
use crate::graph;
use crate::graph::{has_ended, interval_postings};
use crate::model::FileId;
use crate::postings::Postings;
use crate::postings;
use crate::query::{first_chars, Ctx, Snapshot};
use crate::rows::{CochangeRow, EdgeRow};
use crate::rows;
use crate::stats;
use crate::text;
use vstd::prelude::*;
use vstd::string::*;

pub mod laws;

verus! {

/// The page styles exactly so many group colors; the last is the catch-all.
pub const MAX_GROUPS: usize = 8;

/// Hidden coupling needs so many commits in common.
pub const HIDDEN_MIN_N: i64 = 3;

/// So many hidden couplings are shown.
pub const HIDDEN_LIMIT: usize = 40;

// ---- groups ----

/// Top-level dirs treated as monorepo containers: files under them group by
/// the second path component instead of the first.
pub open spec fn container(dir: Seq<char>) -> bool {
    dir == "packages"@ || dir == "apps"@ || dir == "crates"@ || dir == "libs"@ || dir == "services"@ || dir
        == "modules"@
}

/// Group label for a path: first component, or the first two under a
/// monorepo container dir, or "(root)" for top-level files.
pub open spec fn group_label(path: Seq<char>) -> Seq<char> {
    let parts = text::split(path, '/');
    if parts.len() < 2 {
        "(root)"@
    } else if parts.len() > 2 && container(parts[0]) {
        parts[0] + "/"@ + parts[1]
    } else {
        parts[0]
    }
}

fn is_container(dir: &str) -> (r: bool)
    ensures
        r == container(dir@),
{
    text::eq_str(dir, "packages") || text::eq_str(dir, "apps") || text::eq_str(dir, "crates") || text::eq_str(
        dir,
        "libs",
    ) || text::eq_str(dir, "services") || text::eq_str(dir, "modules")
}

/// The group that a path belongs to.
pub fn group_of(path: &str) -> (r: String)
    ensures
        r@ == group_label(path@),
{
    let parts = text::split_on(path, '/');
    let ghost s = text::views(parts@);
    assert(s.len() == parts@.len());
    if parts.len() < 2 {
        return "(root)".to_owned();
    }
    assert(s[0] == parts@[0]@ && s[1] == parts@[1]@);
    if parts.len() > 2 && is_container(parts[0].as_str()) {
        text::cat3(parts[0].as_str(), "/", parts[1].as_str())
    } else {
        parts[0].clone()
    }
}

/// Where a label stands in a tally.
pub open spec fn tally_at(s: Seq<(Seq<char>, int)>, g: Seq<char>) -> Option<int>
    decreases s.len(),
{
    if s.len() == 0 {
        None
    } else if s.last().0 == g {
        Some(s.len() - 1)
    } else {
        tally_at(s.drop_last(), g)
    }
}

/// The tally once a label is counted.
pub open spec fn tallied(s: Seq<(Seq<char>, int)>, g: Seq<char>) -> Seq<(Seq<char>, int)> {
    match tally_at(s, g) {
        Some(i) => s.update(i, (s[i].0, s[i].1 + 1)),
        None => s.push((g, 1)),
    }
}

/// How many paths each group has.
pub open spec fn tally(paths: Seq<Seq<char>>) -> Seq<(Seq<char>, int)>
    decreases paths.len(),
{
    if paths.len() == 0 {
        Seq::empty()
    } else {
        tallied(tally(paths.drop_last()), group_label(paths.last()))
    }
}

/// Larger groups come first, equal ones by name.
pub open spec fn ahead(a: (Seq<char>, int), b: (Seq<char>, int)) -> bool {
    a.1 > b.1 || (a.1 == b.1 && text::text_le(a.0, b.0))
}

pub open spec fn group_placed(s: Seq<(Seq<char>, int)>, g: (Seq<char>, int)) -> Seq<(Seq<char>, int)>
    decreases s.len(),
{
    if s.len() == 0 || ahead(s.last(), g) {
        s.push(g)
    } else {
        group_placed(s.drop_last(), g).push(s.last())
    }
}

pub open spec fn groups_ranked(s: Seq<(Seq<char>, int)>) -> Seq<(Seq<char>, int)>
    decreases s.len(),
{
    if s.len() == 0 {
        Seq::empty()
    } else {
        group_placed(groups_ranked(s.drop_last()), s.last())
    }
}

pub open spec fn labels(s: Seq<(Seq<char>, int)>) -> Seq<Seq<char>> {
    s.map_values(|g: (Seq<char>, int)| g.0)
}

/// The groups of some paths, ranked by member count. The tail is lumped into
/// "other" only when there are more groups than color slots.
pub open spec fn groups_of(paths: Seq<Seq<char>>) -> Seq<Seq<char>> {
    let all = labels(groups_ranked(tally(paths)));
    if all.len() > MAX_GROUPS {
        all.take(MAX_GROUPS - 1).push("other"@)
    } else {
        all
    }
}

/// Where a label stands among groups; the last where it does not.
pub open spec fn group_index(groups: Seq<Seq<char>>, g: Seq<char>, from: int) -> int
    decreases groups.len() - from,
{
    if from >= groups.len() {
        groups.len() - 1
    } else if groups[from] == g {
        from
    } else {
        group_index(groups, g, from + 1)
    }
}

pub open spec fn tally_views(s: Seq<(String, usize)>) -> Seq<(Seq<char>, int)> {
    s.map_values(|g: (String, usize)| (g.0@, g.1 as int))
}

fn count_groups(paths: &Vec<String>) -> (r: Vec<(String, usize)>)
    ensures
        tally_views(r@) == tally(text::views(paths@)),
{
    let ghost ps = text::views(paths@);
    let mut out: Vec<(String, usize)> = Vec::new();
    let mut i: usize = 0;
    assert(ps.take(0) =~= Seq::<Seq<char>>::empty());
    assert(tally_views(out@) =~= Seq::<(Seq<char>, int)>::empty());
    while i < paths.len()
        invariant
            i <= paths@.len(),
            ps == text::views(paths@),
            tally_views(out@) == tally(ps.take(i as int)),
            forall|k: int| 0 <= k < out@.len() ==> (#[trigger] out@[k]).1 <= i,
        decreases paths@.len() - i,
    {
        proof {
            assert(ps.take(i + 1).drop_last() =~= ps.take(i as int));
            assert(ps.take(i + 1).last() == paths@[i as int]@);
        }
        let g = group_of(paths[i].as_str());
        let ghost s = tally_views(out@);
        let ghost o = out@;
        let mut k: usize = out.len();
        assert(s.take(k as int) =~= s);
        while k > 0 && !text::eq_str(out[k - 1].0.as_str(), g.as_str())
            invariant
                k <= out@.len(),
                out@ == o,
                s == tally_views(o),
                tally_at(s, g@) == tally_at(s.take(k as int), g@),
            decreases k,
        {
            assert(s.take(k as int).drop_last() =~= s.take(k - 1));
            assert(s.take(k as int).last() == (o[k - 1].0@, o[k - 1].1 as int));
            k -= 1;
        }
        if k > 0 {
            proof {
                assert(s.take(k as int).last() == (o[k - 1].0@, o[k - 1].1 as int));
                assert(o[k - 1].1 <= i);
            }
            let n = out[k - 1].1 + 1;
            let name = out[k - 1].0.clone();
            out.set(k - 1, (name, n));
            assert(tally_views(out@) =~= tallied(s, g@));
        } else {
            let ghost gv = g@;
            out.push((g, 1));
            assert(tally_views(out@) =~= tallied(s, gv));
        }
        i += 1;
    }
    assert(ps.take(i as int) =~= ps);
    out
}

proof fn lemma_group_placed(s: Seq<(Seq<char>, int)>, g: (Seq<char>, int), at: int)
    requires
        0 <= at <= s.len(),
        forall|j: int| at <= j < s.len() ==> !ahead(#[trigger] s[j], g),
        at > 0 ==> ahead(s[at - 1], g),
    ensures
        group_placed(s, g) == s.insert(at, g),
    decreases s.len(),
{
    if at == s.len() {
        assert(s.insert(at, g) =~= s.push(g));
    } else {
        assert(!ahead(s[s.len() - 1], g));
        lemma_group_placed(s.drop_last(), g, at);
        assert(s.drop_last().insert(at, g).push(s.last()) =~= s.insert(at, g));
    }
}

fn rank_groups(counts: Vec<(String, usize)>) -> (r: Vec<(String, usize)>)
    ensures
        tally_views(r@) == groups_ranked(tally_views(counts@)),
{
    let ghost all = tally_views(counts@);
    let mut out: Vec<(String, usize)> = Vec::new();
    assert(all.take(0) =~= Seq::<(Seq<char>, int)>::empty());
    assert(tally_views(out@) =~= Seq::<(Seq<char>, int)>::empty());
    for g in it: counts
        invariant
            it.seq() == counts@,
            all == tally_views(counts@),
            tally_views(out@) == groups_ranked(all.take(it.index() as int)),
    {
        let ghost n = it.index() as int;
        let ghost s = tally_views(out@);
        let ghost o = out@;
        let ghost gv = (g.0@, g.1 as int);
        proof {
            assert(all.take(n + 1).drop_last() =~= all.take(n));
            assert(all.take(n + 1).last() == gv);
        }
        let mut at: usize = out.len();
        while at > 0 && !(out[at - 1].1 > g.1 || (out[at - 1].1 == g.1 && text::le_text(
            out[at - 1].0.as_str(),
            g.0.as_str(),
        )))
            invariant
                at <= out@.len(),
                out@ == o,
                s == tally_views(o),
                gv == (g.0@, g.1 as int),
                forall|j: int| at <= j < s.len() ==> !ahead(#[trigger] s[j], gv),
            decreases at,
        {
            assert(s[at - 1] == (o[at - 1].0@, o[at - 1].1 as int));
            at -= 1;
        }
        proof {
            if at > 0 {
                assert(s[at - 1] == (o[at - 1].0@, o[at - 1].1 as int));
            }
            lemma_group_placed(s, gv, at as int);
        }
        out.insert(at, g);
        assert(tally_views(out@) =~= s.insert(at as int, gv));
    }
    assert(all.take(all.len() as int) =~= all);
    out
}

/// The groups of some paths.
pub fn list_groups(paths: &Vec<String>) -> (r: Vec<String>)
    ensures
        text::views(r@) == groups_of(text::views(paths@)),
{
    let ranked = rank_groups(count_groups(paths));
    let ghost all = labels(tally_views(ranked@));
    let mut out: Vec<String> = Vec::new();
    let many = ranked.len() > MAX_GROUPS;
    let n: usize = if many {
        MAX_GROUPS - 1
    } else {
        ranked.len()
    };
    let mut i: usize = 0;
    while i < n
        invariant
            i <= n <= ranked@.len(),
            all == labels(tally_views(ranked@)),
            out@.len() == i,
            forall|k: int| 0 <= k < i ==> (#[trigger] out@[k])@ == all[k],
        decreases n - i,
    {
        out.push(ranked[i].0.clone());
        i += 1;
    }
    if many {
        out.push("other".to_owned());
    }
    assert(text::views(out@) =~= groups_of(text::views(paths@)));
    out
}

fn find_group(groups: &Vec<String>, g: &str) -> (r: usize)
    requires
        groups@.len() > 0,
    ensures
        r == group_index(text::views(groups@), g@, 0),
{
    let ghost s = text::views(groups@);
    let mut i: usize = 0;
    while i < groups.len()
        invariant
            i <= groups@.len(),
            groups@.len() > 0,
            s == text::views(groups@),
            group_index(s, g@, 0) == group_index(s, g@, i as int),
        decreases groups@.len() - i,
    {
        assert(s[i as int] == groups@[i as int]@);
        if text::eq_str(groups[i].as_str(), g) {
            return i;
        }
        i += 1;
    }
    groups.len() - 1
}

// ---- pairs and nodes ----

/// A pair put into its place among ordered pairs, where it is not there yet.
pub open spec fn pair_put(s: Seq<(FileId, FileId)>, p: (FileId, FileId)) -> Seq<(FileId, FileId)>
    decreases s.len(),
{
    if s.len() == 0 {
        seq![p]
    } else if s.last() == p {
        s
    } else if cochange::pair_code(s.last()) < cochange::pair_code(p) {
        s.push(p)
    } else {
        pair_put(s.drop_last(), p).push(s.last())
    }
}

/// An edge that is live between two files that have a path.
pub open spec fn shown_edge(snap: &Snapshot, e: EdgeRow) -> bool {
    graph::ended(snap.intervals@, e.id, None) && snap.alive(e.src) && snap.alive(e.dst)
}

/// The pairs of files that a live edge joins, in order.
pub open spec fn live_pairs(snap: &Snapshot, edges: Seq<EdgeRow>) -> Seq<(FileId, FileId)>
    decreases edges.len(),
{
    if edges.len() == 0 {
        Seq::empty()
    } else {
        let b = live_pairs(snap, edges.drop_last());
        let e = edges.last();
        if shown_edge(snap, e) {
            pair_put(b, cochange::in_order(e.src, e.dst))
        } else {
            b
        }
    }
}

/// A coupled pair that is drawn.
pub open spec fn drawn(snap: &Snapshot, c: CochangeRow) -> bool {
    c.lift_drawn && snap.alive(c.a) && snap.alive(c.b)
}

/// The coupled pairs that are drawn, in the order of the table.
pub open spec fn drawn_pairs(snap: &Snapshot) -> Seq<CochangeRow> {
    snap.cochange@.filter(|c: CochangeRow| drawn(snap, c))
}

/// A file put into its place among files ordered by id, where it is not there
/// yet.
pub open spec fn id_put(s: Seq<FileId>, x: FileId) -> Seq<FileId>
    decreases s.len(),
{
    if s.len() == 0 {
        seq![x]
    } else if s.last() == x {
        s
    } else if s.last().0 < x.0 {
        s.push(x)
    } else {
        id_put(s.drop_last(), x).push(s.last())
    }
}

/// The files of some live pairs, by id.
pub open spec fn pair_nodes(live: Seq<(FileId, FileId)>) -> Seq<FileId>
    decreases live.len(),
{
    if live.len() == 0 {
        Seq::empty()
    } else {
        id_put(id_put(pair_nodes(live.drop_last()), live.last().0), live.last().1)
    }
}

/// The files of some live pairs and coupled pairs, by id.
pub open spec fn nodes(live: Seq<(FileId, FileId)>, co: Seq<CochangeRow>) -> Seq<FileId>
    decreases co.len(),
{
    if co.len() == 0 {
        pair_nodes(live)
    } else {
        id_put(id_put(nodes(live, co.drop_last()), co.last().a), co.last().b)
    }
}

/// Strictly ascending ids.
pub open spec fn ascending(s: Seq<FileId>) -> bool {
    forall|i: int, j: int| 0 <= i < j < s.len() ==> (#[trigger] s[i]).0 < (#[trigger] s[j]).0
}

proof fn lemma_id_put(s: Seq<FileId>, x: FileId)
    requires
        ascending(s),
    ensures
        ascending(id_put(s, x)),
        forall|y: FileId| #[trigger] id_put(s, x).contains(y) <==> s.contains(y) || y == x,
    decreases s.len(),
{
    let r = id_put(s, x);
    if s.len() == 0 {
        assert(r[0] == x);
    } else if s.last() == x {
        assert(s[s.len() - 1] == x);
    } else if s.last().0 < x.0 {
        assert forall|i: int, j: int| 0 <= i < j < r.len() implies (#[trigger] r[i]).0 < (#[trigger] r[j]).0 by {
            if j == s.len() && i < s.len() - 1 {
                assert(s[i].0 < s[s.len() - 1].0);
            }
        }
        assert forall|y: FileId| #[trigger] r.contains(y) <==> s.contains(y) || y == x by {
            if s.contains(y) {
                assert(r[s.index_of(y)] == y);
            }
            assert(r[s.len() as int] == x);
        }
    } else {
        let f = s.drop_last();
        lemma_id_put(f, x);
        let b = id_put(f, x);
        assert forall|i: int, j: int| 0 <= i < j < r.len() implies (#[trigger] r[i]).0 < (#[trigger] r[j]).0 by {
            if j == b.len() {
                assert(b.contains(b[i]));
                if b[i] != x {
                    let k = f.index_of(b[i]);
                    assert(s[k].0 < s[s.len() - 1].0);
                }
            } else {
                assert(b[i].0 < b[j].0);
            }
        }
        assert forall|y: FileId| #[trigger] r.contains(y) <==> s.contains(y) || y == x by {
            if r.contains(y) {
                let k = r.index_of(y);
                if k < b.len() {
                    assert(b.contains(b[k]));
                    if y != x {
                        assert(s[f.index_of(y)] == y);
                    }
                } else {
                    assert(s[s.len() - 1] == y);
                }
            }
            if s.contains(y) {
                let k = s.index_of(y);
                if k < f.len() {
                    assert(f[k] == y);
                    assert(b.contains(y));
                    assert(r[b.index_of(y)] == y);
                } else {
                    assert(r[b.len() as int] == y);
                }
            }
            if y == x {
                assert(b.contains(x));
                assert(r[b.index_of(x)] == x);
            }
        }
    }
}

/// A live pair or a coupled pair has a file.
pub open spec fn joins(live: Seq<(FileId, FileId)>, co: Seq<CochangeRow>, f: FileId) -> bool {
    (exists|i: int| 0 <= i < live.len() && ((#[trigger] live[i]).0 == f || live[i].1 == f)) || exists|i: int|
        0 <= i < co.len() && ((#[trigger] co[i]).a == f || co[i].b == f)
}

proof fn lemma_pair_nodes(live: Seq<(FileId, FileId)>)
    ensures
        ascending(pair_nodes(live)),
        forall|f: FileId| #[trigger]
            pair_nodes(live).contains(f) <==> exists|i: int|
                0 <= i < live.len() && ((#[trigger] live[i]).0 == f || live[i].1 == f),
    decreases live.len(),
{
    if live.len() > 0 {
        let d = live.drop_last();
        lemma_pair_nodes(d);
        let a = pair_nodes(d);
        lemma_id_put(a, live.last().0);
        lemma_id_put(id_put(a, live.last().0), live.last().1);
        assert forall|f: FileId| #[trigger] pair_nodes(live).contains(f) <==> exists|i: int|
            0 <= i < live.len() && ((#[trigger] live[i]).0 == f || live[i].1 == f) by {
            if a.contains(f) {
                let i = choose|i: int| 0 <= i < d.len() && ((#[trigger] d[i]).0 == f || d[i].1 == f);
                assert(live[i] == d[i]);
            }
            if live.last().0 == f || live.last().1 == f {
                assert(live[live.len() - 1] == live.last());
            }
            if exists|i: int| 0 <= i < live.len() && ((#[trigger] live[i]).0 == f || live[i].1 == f) {
                let i = choose|i: int| 0 <= i < live.len() && ((#[trigger] live[i]).0 == f || live[i].1 == f);
                if i < d.len() {
                    assert(d[i] == live[i]);
                    assert(a.contains(f));
                }
            }
        }
    }
}

/// Law: the nodes are exactly the files that a live pair or a drawn coupled
/// pair joins, each once, by id.
pub proof fn nodes_are_joined(live: Seq<(FileId, FileId)>, co: Seq<CochangeRow>)
    ensures
        ascending(nodes(live, co)),
        forall|f: FileId| #[trigger] nodes(live, co).contains(f) <==> joins(live, co, f),
    decreases co.len(),
{
    if co.len() == 0 {
        lemma_pair_nodes(live);
    } else {
        let d = co.drop_last();
        nodes_are_joined(live, d);
        let a = nodes(live, d);
        lemma_id_put(a, co.last().a);
        lemma_id_put(id_put(a, co.last().a), co.last().b);
        assert forall|f: FileId| #[trigger] nodes(live, co).contains(f) <==> joins(live, co, f) by {
            if joins(live, d, f) {
                if exists|i: int| 0 <= i < d.len() && ((#[trigger] d[i]).a == f || d[i].b == f) {
                    let i = choose|i: int| 0 <= i < d.len() && ((#[trigger] d[i]).a == f || d[i].b == f);
                    assert(co[i] == d[i]);
                }
                assert(joins(live, co, f));
            }
            if co.last().a == f || co.last().b == f {
                assert(co[co.len() - 1] == co.last());
                assert(joins(live, co, f));
            }
            if joins(live, co, f) {
                if exists|i: int| 0 <= i < co.len() && ((#[trigger] co[i]).a == f || co[i].b == f) {
                    let i = choose|i: int| 0 <= i < co.len() && ((#[trigger] co[i]).a == f || co[i].b == f);
                    if i < d.len() {
                        assert(d[i] == co[i]);
                        assert(joins(live, d, f));
                    }
                } else {
                    assert(joins(live, d, f));
                }
            }
        }
    }
}

proof fn lemma_pair_put_at(s: Seq<(FileId, FileId)>, p: (FileId, FileId), at: int)
    requires
        0 <= at <= s.len(),
        forall|j: int| at <= j < s.len() ==> cochange::pair_code(#[trigger] s[j]) > cochange::pair_code(p),
        at > 0 ==> cochange::pair_code(s[at - 1]) <= cochange::pair_code(p),
    ensures
        pair_put(s, p) == (if at > 0 && s[at - 1] == p {
            s
        } else {
            s.insert(at, p)
        }),
    decreases s.len(),
{
    if s.len() == 0 {
        assert(s.insert(0, p) =~= seq![p]);
    } else if at == s.len() {
        if s.last() != p {
            cochange::codes_tell_apart(s.last(), p);
            assert(s.insert(at, p) =~= s.push(p));
        }
    } else {
        assert(cochange::pair_code(s[s.len() - 1]) > cochange::pair_code(p));
        lemma_pair_put_at(s.drop_last(), p, at);
        if at > 0 && s[at - 1] == p {
            assert(s.drop_last().push(s.last()) =~= s);
        } else {
            assert(s.drop_last().insert(at, p).push(s.last()) =~= s.insert(at, p));
        }
    }
}

fn put_pair(s: &mut Vec<(FileId, FileId)>, p: (FileId, FileId))
    ensures
        final(s)@ == pair_put(old(s)@, p),
{
    let ghost o = s@;
    let k = cochange::code(p.0, p.1);
    let mut at: usize = s.len();
    while at > 0 && cochange::code(s[at - 1].0, s[at - 1].1) > k
        invariant
            at <= s@.len(),
            s@ == o,
            k == cochange::pair_code(p),
            forall|j: int| at <= j < o.len() ==> cochange::pair_code(#[trigger] o[j]) > k,
        decreases at,
    {
        at -= 1;
    }
    proof {
        lemma_pair_put_at(o, p, at as int);
    }
    if at > 0 && s[at - 1].0 == p.0 && s[at - 1].1 == p.1 {
        return ;
    }
    s.insert(at, p);
}

proof fn lemma_id_put_at(s: Seq<FileId>, x: FileId, at: int)
    requires
        0 <= at <= s.len(),
        forall|j: int| at <= j < s.len() ==> (#[trigger] s[j]).0 > x.0,
        at > 0 ==> s[at - 1].0 <= x.0,
    ensures
        id_put(s, x) == (if at > 0 && s[at - 1] == x {
            s
        } else {
            s.insert(at, x)
        }),
    decreases s.len(),
{
    if s.len() == 0 {
        assert(s.insert(0, x) =~= seq![x]);
    } else if at == s.len() {
        if s.last() != x {
            assert(s.insert(at, x) =~= s.push(x));
        }
    } else {
        assert(s[s.len() - 1].0 > x.0);
        lemma_id_put_at(s.drop_last(), x, at);
        if at > 0 && s[at - 1] == x {
            assert(s.drop_last().push(s.last()) =~= s);
        } else {
            assert(s.drop_last().insert(at, x).push(s.last()) =~= s.insert(at, x));
        }
    }
}

fn put_id(s: &mut Vec<FileId>, x: FileId)
    ensures
        final(s)@ == id_put(old(s)@, x),
{
    let ghost o = s@;
    let mut at: usize = s.len();
    while at > 0 && s[at - 1].0 > x.0
        invariant
            at <= s@.len(),
            s@ == o,
            forall|j: int| at <= j < o.len() ==> (#[trigger] o[j]).0 > x.0,
        decreases at,
    {
        at -= 1;
    }
    proof {
        lemma_id_put_at(o, x, at as int);
    }
    if at > 0 && s[at - 1] == x {
        return ;
    }
    s.insert(at, x);
}

fn list_live(snap: &Snapshot) -> (r: Vec<(FileId, FileId)>)
    requires
        snap.wf(),
    ensures
        r@ == live_pairs(snap, snap.edges@),
{
    let by_edge = interval_postings(&snap.intervals);
    let mut out: Vec<(FileId, FileId)> = Vec::new();
    let mut i: usize = 0;
    assert(snap.edges@.take(0) =~= Seq::<EdgeRow>::empty());
    while i < snap.edges.len()
        invariant
            i <= snap.edges@.len(),
            snap.wf(),
            by_edge.wf(),
            by_edge@ == graph::interval_edges(snap.intervals@),
            out@ == live_pairs(snap, snap.edges@.take(i as int)),
        decreases snap.edges@.len() - i,
    {
        assert(snap.edges@.take(i + 1).drop_last() =~= snap.edges@.take(i as int));
        let e = snap.edges[i];
        if has_ended(&snap.intervals, &by_edge, e.id, None) && snap.files.alive(e.src) && snap.files.alive(e.dst) {
            if e.src.0 <= e.dst.0 {
                put_pair(&mut out, (e.src, e.dst));
            } else {
                put_pair(&mut out, (e.dst, e.src));
            }
        }
        i += 1;
    }
    assert(snap.edges@.take(i as int) =~= snap.edges@);
    out
}

fn list_drawn(snap: &Snapshot) -> (r: Vec<CochangeRow>)
    requires
        snap.wf(),
    ensures
        r@ == drawn_pairs(snap),
{
    let ghost f = |c: CochangeRow| drawn(snap, c);
    let mut out: Vec<CochangeRow> = Vec::new();
    let mut i: usize = 0;
    proof {
        reveal(Seq::filter);
        assert(snap.cochange@.take(0).filter(f) =~= Seq::<CochangeRow>::empty());
    }
    while i < snap.cochange.len()
        invariant
            i <= snap.cochange@.len(),
            snap.wf(),
            f == (|c: CochangeRow| drawn(snap, c)),
            out@ == snap.cochange@.take(i as int).filter(f),
        decreases snap.cochange@.len() - i,
    {
        proof {
            reveal(Seq::filter);
            assert(snap.cochange@.take(i + 1).drop_last() =~= snap.cochange@.take(i as int));
        }
        let c = snap.cochange[i];
        if c.lift_drawn && snap.files.alive(c.a) && snap.files.alive(c.b) {
            out.push(c);
        }
        i += 1;
    }
    assert(snap.cochange@.take(i as int) =~= snap.cochange@);
    out
}

fn list_nodes(live: &Vec<(FileId, FileId)>, co: &Vec<CochangeRow>) -> (r: Vec<FileId>)
    ensures
        r@ == nodes(live@, co@),
{
    let mut out: Vec<FileId> = Vec::new();
    let mut i: usize = 0;
    assert(live@.take(0) =~= Seq::<(FileId, FileId)>::empty());
    while i < live.len()
        invariant
            i <= live@.len(),
            out@ == pair_nodes(live@.take(i as int)),
        decreases live@.len() - i,
    {
        assert(live@.take(i + 1).drop_last() =~= live@.take(i as int));
        put_id(&mut out, live[i].0);
        put_id(&mut out, live[i].1);
        i += 1;
    }
    assert(live@.take(i as int) =~= live@);
    let mut j: usize = 0;
    assert(co@.take(0) =~= Seq::<CochangeRow>::empty());
    while j < co.len()
        invariant
            j <= co@.len(),
            out@ == nodes(live@, co@.take(j as int)),
        decreases co@.len() - j,
    {
        assert(co@.take(j + 1).drop_last() =~= co@.take(j as int));
        put_id(&mut out, co[j].a);
        put_id(&mut out, co[j].b);
        j += 1;
    }
    assert(co@.take(j as int) =~= co@);
    out
}

// ---- the payload ----

pub struct VizNode {
    pub path: String,
    pub group: usize,
    /// How many ends of live pairs the file is.
    pub degree: u128,
}

#[verifier::ext_equal]
pub struct VizNodeView {
    pub path: Seq<char>,
    pub group: int,
    pub degree: int,
}

impl View for VizNode {
    type V = VizNodeView;

    open spec fn view(&self) -> VizNodeView {
        VizNodeView { path: self.path@, group: self.group as int, degree: self.degree as int }
    }
}

pub open spec fn viz_node_views(s: Seq<VizNode>) -> Seq<VizNodeView> {
    s.map_values(|n: VizNode| n@)
}

/// A coupled pair: its nodes, how often it changed together, and where it is
/// measured.
#[derive(Debug, Clone, Copy, PartialEq, Eq, Structural)]
pub struct CoRow {
    pub a: usize,
    pub b: usize,
    pub n: i64,
    pub slot: usize,
}

pub struct VizData {
    pub head: Option<String>,
    pub commits: usize,
    pub files: usize,
    pub groups: Vec<String>,
    pub nodes: Vec<VizNode>,
    pub live: Vec<(usize, usize)>,
    pub co: Vec<CoRow>,
    pub hidden: Vec<CoRow>,
}

/// Where a file stands among the nodes.
pub open spec fn node_at(ids: Seq<FileId>, f: FileId) -> int {
    postings::last_position(id_keys(ids), f.0).unwrap()
}

pub open spec fn id_keys(ids: Seq<FileId>) -> Seq<i64> {
    ids.map_values(|f: FileId| f.0)
}

/// How many ends of live pairs a file is.
pub open spec fn degree(live: Seq<(FileId, FileId)>, f: FileId) -> int
    decreases live.len(),
{
    if live.len() == 0 {
        0
    } else {
        degree(live.drop_last(), f) + (if live.last().0 == f { 1int } else { 0 }) + (if live.last().1 == f {
            1int
        } else {
            0
        })
    }
}

pub open spec fn node_paths(snap: &Snapshot, ids: Seq<FileId>) -> Seq<Seq<char>> {
    ids.map_values(|f: FileId| snap.shown(f))
}

pub open spec fn viz_node(snap: &Snapshot, live: Seq<(FileId, FileId)>, groups: Seq<Seq<char>>, f: FileId) -> VizNodeView {
    VizNodeView {
        path: snap.shown(f),
        group: group_index(groups, group_label(snap.shown(f)), 0),
        degree: degree(live, f),
    }
}

pub open spec fn co_row(ids: Seq<FileId>, c: CochangeRow) -> CoRow {
    CoRow { a: node_at(ids, c.a) as usize, b: node_at(ids, c.b) as usize, n: c.n, slot: c.slot }
}

/// Coupling that no live edge explains, strong and frequent enough.
pub open spec fn is_hidden(live: Seq<(FileId, FileId)>, c: CochangeRow) -> bool {
    !live.contains(cochange::in_order(c.a, c.b)) && c.lift_hidden && c.n >= HIDDEN_MIN_N
}

/// The hidden coupling among drawn pairs.
pub open spec fn hidden_pairs(live: Seq<(FileId, FileId)>, co: Seq<CochangeRow>) -> Seq<CochangeRow> {
    rows::at_most(co.filter(|c: CochangeRow| is_hidden(live, c)), HIDDEN_LIMIT as int)
}

pub open spec fn head_mark(head: Option<Seq<char>>) -> Option<Seq<char>> {
    match head {
        Some(h) => Some(rows::at_most(h, 7)),
        None => None,
    }
}

fn count_degree(live: &Vec<(FileId, FileId)>, f: FileId) -> (r: u128)
    ensures
        r == degree(live@, f),
{
    let mut n: u128 = 0;
    let mut i: usize = 0;
    assert(live@.take(0) =~= Seq::<(FileId, FileId)>::empty());
    while i < live.len()
        invariant
            i <= live@.len(),
            n == degree(live@.take(i as int), f),
            n <= 2 * i,
        decreases live@.len() - i,
    {
        assert(live@.take(i + 1).drop_last() =~= live@.take(i as int));
        if live[i].0 == f {
            n += 1;
        }
        if live[i].1 == f {
            n += 1;
        }
        i += 1;
    }
    assert(live@.take(i as int) =~= live@);
    n
}

/// Law: the files of live and coupled pairs are found among the nodes.
pub proof fn pairs_find_their_nodes(live: Seq<(FileId, FileId)>, co: Seq<CochangeRow>, f: FileId)
    requires
        joins(live, co, f),
    ensures
        ({
            let ids = nodes(live, co);
            let k = postings::last_position(id_keys(ids), f.0);
            k is Some && 0 <= k.unwrap() < ids.len() && ids[k.unwrap()] == f
        }),
{
    let ids = nodes(live, co);
    nodes_are_joined(live, co);
    assert(ids.contains(f));
    let i = ids.index_of(f);
    let keys = id_keys(ids);
    postings::positions_are_indices(keys, f.0);
    assert(keys[i] == f.0);
    let p = postings::positions(keys, f.0);
    assert(p.contains(i));
    let k = p.last();
    assert(p[p.len() - 1] == k);
    assert(keys[k] == f.0);
}

proof fn lemma_ranked_len(s: Seq<(Seq<char>, int)>)
    ensures
        groups_ranked(s).len() == s.len(),
    decreases s.len(),
{
    if s.len() > 0 {
        lemma_ranked_len(s.drop_last());
        lemma_placed_len(groups_ranked(s.drop_last()), s.last());
    }
}

proof fn lemma_placed_len(s: Seq<(Seq<char>, int)>, g: (Seq<char>, int))
    ensures
        group_placed(s, g).len() == s.len() + 1,
    decreases s.len(),
{
    if s.len() > 0 && !ahead(s.last(), g) {
        lemma_placed_len(s.drop_last(), g);
    }
}

/// Law: where there are paths there are groups, and never more than the page
/// has colors for.
pub proof fn groups_fit(paths: Seq<Seq<char>>)
    ensures
        paths.len() > 0 ==> groups_of(paths).len() > 0,
        groups_of(paths).len() <= MAX_GROUPS,
{
    lemma_ranked_len(tally(paths));
    if paths.len() > 0 {
        let b = tally(paths.drop_last());
        assert(tally(paths) == tallied(b, group_label(paths.last())));
        lemma_tally_at(b, group_label(paths.last()));
    }
}

proof fn lemma_tally_at(s: Seq<(Seq<char>, int)>, g: Seq<char>)
    ensures
        tally_at(s, g) matches Some(i) ==> 0 <= i < s.len(),
    decreases s.len(),
{
    if s.len() > 0 {
        lemma_tally_at(s.drop_last(), g);
    }
}

fn node_keys(ids: &Vec<FileId>) -> (r: Postings)
    ensures
        r.wf(),
        r@ == id_keys(ids@),
{
    let mut keys: Vec<i64> = Vec::new();
    let mut i: usize = 0;
    while i < ids.len()
        invariant
            i <= ids@.len(),
            keys@.len() == i,
            forall|k: int| 0 <= k < i ==> #[trigger] keys@[k] == ids@[k].0,
        decreases ids@.len() - i,
    {
        keys.push(ids[i].0);
        i += 1;
    }
    assert(keys@ =~= id_keys(ids@));
    Postings::build(&keys)
}

fn node_index(ix: &Postings, f: FileId) -> (r: usize)
    requires
        ix.wf(),
        postings::last_position(ix@, f.0) is Some,
    ensures
        r == postings::last_position(ix@, f.0).unwrap(),
{
    match ix.last(f.0) {
        Some(i) => i,
        None => 0,
    }
}

fn has_pair(live: &Vec<(FileId, FileId)>, p: (FileId, FileId)) -> (r: bool)
    ensures
        r == live@.contains(p),
{
    let mut i: usize = 0;
    while i < live.len()
        invariant
            i <= live@.len(),
            forall|k: int| 0 <= k < i ==> live@[k] != p,
        decreases live@.len() - i,
    {
        if live[i].0 == p.0 && live[i].1 == p.1 {
            assert(live@[i as int] == p);
            return true;
        }
        i += 1;
    }
    false
}

fn list_hidden(live: &Vec<(FileId, FileId)>, co: &Vec<CochangeRow>) -> (r: Vec<CochangeRow>)
    ensures
        r@ == hidden_pairs(live@, co@),
{
    let ghost f = |c: CochangeRow| is_hidden(live@, c);
    let mut out: Vec<CochangeRow> = Vec::new();
    let mut i: usize = 0;
    proof {
        reveal(Seq::filter);
        assert(co@.take(0).filter(f) =~= Seq::<CochangeRow>::empty());
    }
    while i < co.len()
        invariant
            i <= co@.len(),
            f == (|c: CochangeRow| is_hidden(live@, c)),
            out@ == co@.take(i as int).filter(f),
        decreases co@.len() - i,
    {
        proof {
            reveal(Seq::filter);
            assert(co@.take(i + 1).drop_last() =~= co@.take(i as int));
        }
        let c = co[i];
        let p = if c.a.0 <= c.b.0 {
            (c.a, c.b)
        } else {
            (c.b, c.a)
        };
        if c.lift_hidden && c.n >= HIDDEN_MIN_N && !has_pair(live, p) {
            out.push(c);
        }
        i += 1;
    }
    assert(co@.take(i as int) =~= co@);
    if out.len() > HIDDEN_LIMIT {
        out.truncate(HIDDEN_LIMIT);
    }
    assert(out@ =~= hidden_pairs(live@, co@));
    out
}

fn index_pairs(ix: &Postings, ids: &Vec<FileId>, co: &Vec<CochangeRow>) -> (r: Vec<CoRow>)
    requires
        ix.wf(),
        ix@ == id_keys(ids@),
        forall|k: int|
            0 <= k < co@.len() ==> postings::last_position(ix@, (#[trigger] co@[k]).a.0) is Some
                && postings::last_position(ix@, co@[k].b.0) is Some,
    ensures
        r@ == co@.map_values(|c: CochangeRow| co_row(ids@, c)),
{
    let mut out: Vec<CoRow> = Vec::new();
    let mut i: usize = 0;
    while i < co.len()
        invariant
            i <= co@.len(),
            ix.wf(),
            ix@ == id_keys(ids@),
            forall|k: int|
                0 <= k < co@.len() ==> postings::last_position(ix@, (#[trigger] co@[k]).a.0) is Some
                    && postings::last_position(ix@, co@[k].b.0) is Some,
            out@.len() == i,
            forall|k: int| 0 <= k < i ==> #[trigger] out@[k] == co_row(ids@, co@[k]),
        decreases co@.len() - i,
    {
        let c = co[i];
        out.push(CoRow { a: node_index(ix, c.a), b: node_index(ix, c.b), n: c.n, slot: c.slot });
        i += 1;
    }
    assert(out@ =~= co@.map_values(|c: CochangeRow| co_row(ids@, c)));
    out
}

/// The payload of the picture. Nodes are files that participate in at least
/// one live structural pair or qualifying co-change pair; the other lists
/// index into the nodes.
pub fn viz_data(snap: &Snapshot, ctx: &Ctx) -> (r: VizData)
    requires
        snap.wf(),
    ensures
        ({
            let live = live_pairs(snap, snap.edges@);
            let co = drawn_pairs(snap);
            let ids = nodes(live, co);
            let groups = groups_of(node_paths(snap, ids));
            &&& text::opt_view(r.head) == head_mark(text::opt_view(snap.head))
            &&& r.commits == ctx.commits@.len()
            &&& r.files == stats::alive(snap.files.files())
            &&& text::views(r.groups@) == groups
            &&& viz_node_views(r.nodes@) == ids.map_values(|f: FileId| viz_node(snap, live, groups, f))
            &&& r.live@ == live.map_values(
                |p: (FileId, FileId)| (node_at(ids, p.0) as usize, node_at(ids, p.1) as usize),
            )
            &&& r.co@ == co.map_values(|c: CochangeRow| co_row(ids, c))
            &&& r.hidden@ == hidden_pairs(live, co).map_values(|c: CochangeRow| co_row(ids, c))
        }),
{
    let live = list_live(snap);
    let co = list_drawn(snap);
    let ids = list_nodes(&live, &co);
    let ghost lv = live@;
    let ghost cv = co@;
    let ghost iv = ids@;
    let mut paths: Vec<String> = Vec::new();
    let mut i: usize = 0;
    while i < ids.len()
        invariant
            i <= ids@.len(),
            snap.wf(),
            paths@.len() == i,
            forall|k: int| 0 <= k < i ==> (#[trigger] paths@[k])@ == snap.shown(ids@[k]),
        decreases ids@.len() - i,
    {
        paths.push(snap.files.display_path(ids[i]));
        i += 1;
    }
    assert(text::views(paths@) =~= node_paths(snap, iv));
    let groups = list_groups(&paths);
    let ghost gv = text::views(groups@);
    proof {
        groups_fit(node_paths(snap, iv));
        assert(gv.len() == groups@.len());
        assert(node_paths(snap, iv).len() == iv.len());
    }
    let mut out_nodes: Vec<VizNode> = Vec::new();
    let mut j: usize = 0;
    while j < ids.len()
        invariant
            j <= ids@.len(),
            iv == ids@,
            lv == live@,
            paths@.len() == ids@.len(),
            forall|k: int| 0 <= k < ids@.len() ==> (#[trigger] paths@[k])@ == snap.shown(ids@[k]),
            gv == text::views(groups@),
            ids@.len() > 0 ==> groups@.len() > 0,
            out_nodes@.len() == j,
            forall|k: int| 0 <= k < j ==> (#[trigger] out_nodes@[k])@ == viz_node(snap, lv, gv, iv[k]),
        decreases ids@.len() - j,
    {
        let label = group_of(paths[j].as_str());
        let group = find_group(&groups, label.as_str());
        out_nodes.push(VizNode { path: paths[j].clone(), group, degree: count_degree(&live, ids[j]) });
        j += 1;
    }
    assert(viz_node_views(out_nodes@) =~= iv.map_values(|f: FileId| viz_node(snap, lv, gv, f)));
    let ix = node_keys(&ids);
    let mut out_live: Vec<(usize, usize)> = Vec::new();
    let mut k: usize = 0;
    while k < live.len()
        invariant
            k <= live@.len(),
            lv == live@,
            iv == nodes(lv, cv),
            ix.wf(),
            ix@ == id_keys(iv),
            out_live@.len() == k,
            forall|x: int|
                0 <= x < k ==> #[trigger] out_live@[x] == (node_at(iv, lv[x].0) as usize, node_at(
                    iv,
                    lv[x].1,
                ) as usize),
        decreases live@.len() - k,
    {
        proof {
            assert(joins(lv, cv, lv[k as int].0));
            assert(joins(lv, cv, lv[k as int].1));
            pairs_find_their_nodes(lv, cv, lv[k as int].0);
            pairs_find_their_nodes(lv, cv, lv[k as int].1);
        }
        out_live.push((node_index(&ix, live[k].0), node_index(&ix, live[k].1)));
        k += 1;
    }
    assert(out_live@ =~= lv.map_values(
        |p: (FileId, FileId)| (node_at(iv, p.0) as usize, node_at(iv, p.1) as usize),
    ));
    let hidden = list_hidden(&live, &co);
    proof {
        assert forall|x: int| 0 <= x < cv.len() implies postings::last_position(ix@, (#[trigger] cv[x]).a.0) is Some
            && postings::last_position(ix@, cv[x].b.0) is Some by {
            assert(joins(lv, cv, cv[x].a));
            assert(joins(lv, cv, cv[x].b));
            pairs_find_their_nodes(lv, cv, cv[x].a);
            pairs_find_their_nodes(lv, cv, cv[x].b);
        }
        let f = |c: CochangeRow| is_hidden(lv, c);
        assert forall|x: int| 0 <= x < hidden@.len() implies postings::last_position(
            ix@,
            (#[trigger] hidden@[x]).a.0,
        ) is Some && postings::last_position(ix@, hidden@[x].b.0) is Some by {
            assert(cv.filter(f)[x] == hidden@[x]);
            assert(cv.filter(f).contains(hidden@[x]));
            cv.lemma_filter_contains_rev(f, hidden@[x]);
            let y = cv.index_of(hidden@[x]);
            assert(cv[y] == hidden@[x]);
        }
    }
    let co_rows = index_pairs(&ix, &ids, &co);
    let hidden_rows = index_pairs(&ix, &ids, &hidden);
    let head = match &snap.head {
        Some(h) => Some(first_chars(h.as_str(), 7)),
        None => None,
    };
    let files = stats::count_files(snap.files.rows()).alive;
    VizData {
        head,
        commits: ctx.commits.len(),
        files,
        groups,
        nodes: out_nodes,
        live: out_live,
        co: co_rows,
        hidden: hidden_rows,
    }
}

/// Law: hidden coupling is drawn coupling that no live edge explains, and
/// there are never more than the limit.
pub proof fn hidden_is_unexplained(live: Seq<(FileId, FileId)>, co: Seq<CochangeRow>)
    ensures
        hidden_pairs(live, co).len() <= HIDDEN_LIMIT,
        forall|i: int|
            0 <= i < hidden_pairs(live, co).len() ==> is_hidden(live, #[trigger] hidden_pairs(live, co)[i])
                && co.contains(hidden_pairs(live, co)[i]),
{
    let f = |c: CochangeRow| is_hidden(live, c);
    let h = hidden_pairs(live, co);
    assert forall|i: int| 0 <= i < h.len() implies is_hidden(live, #[trigger] h[i]) && co.contains(h[i]) by {
        assert(co.filter(f)[i] == h[i]);
        co.lemma_filter_pred(f, i);
        assert(co.filter(f).contains(h[i]));
        co.lemma_filter_contains_rev(f, h[i]);
    }
}

/// The data of a page cannot end the script block that it stands in: "</" is
/// written "<\/".
pub open spec fn inlined(s: Seq<char>) -> Seq<char>
    decreases s.len(),
{
    if s.len() == 0 {
        s
    } else if s.len() >= 2 && s[0] == '<' && s[1] == '/' {
        "<\\/"@ + inlined(s.skip(2))
    } else {
        seq![s[0]] + inlined(s.skip(1))
    }
}

/// Write data so that it can stand in an inline script block.
pub fn inline_data(s: &str) -> (r: String)
    ensures
        r@ == inlined(s@),
{
    let v = text::to_chars(s);
    let mut out = String::new();
    let mut i: usize = 0;
    assert(s@.skip(0) =~= s@);
    assert(out@ + inlined(s@) =~= inlined(s@));
    while i < v.len()
        invariant
            i <= v@.len(),
            v@ == s@,
            out@ + inlined(s@.skip(i as int)) == inlined(s@),
        decreases v@.len() - i,
    {
        let ghost rest = s@.skip(i as int);
        let ghost b = out@;
        if i + 1 < v.len() && v[i] == '<' && v[i + 1] == '/' {
            out.append("<\\/");
            proof {
                assert(rest.skip(2) =~= s@.skip(i + 2));
                assert(out@ + inlined(s@.skip(i + 2)) =~= b + inlined(rest));
            }
            i += 2;
        } else {
            let c = v[i];
            out.push(c);
            proof {
                assert(rest.skip(1) =~= s@.skip(i + 1));
                assert(out@ + inlined(s@.skip(i + 1)) =~= b + inlined(rest));
            }
            i += 1;
        }
    }
    assert(inlined(s@.skip(i as int)) =~= Seq::<char>::empty());
    assert(out@ + Seq::<char>::empty() =~= out@);
    out
}

/// Law: inlined data holds no "</".
pub proof fn inlined_never_closes(s: Seq<char>)
    ensures
        forall|i: int|
            0 <= i < inlined(s).len() - 1 ==> !((#[trigger] inlined(s)[i]) == '<' && inlined(s)[i + 1] == '/'),
        s.len() > 0 ==> inlined(s).len() > 0 && inlined(s)[0] == s[0],
        s.len() == 0 ==> inlined(s).len() == 0,
    decreases s.len(),
{
    reveal_strlit("<\\/");
    if s.len() > 0 {
        let r = inlined(s);
        if s.len() >= 2 && s[0] == '<' && s[1] == '/' {
            let b = inlined(s.skip(2));
            inlined_never_closes(s.skip(2));
            assert forall|i: int| 0 <= i < r.len() - 1 implies !((#[trigger] r[i]) == '<' && r[i + 1] == '/') by {
                if i >= 3 {
                    assert(r[i] == b[i - 3]);
                    assert(r[i + 1] == b[i - 3 + 1]);
                }
            }
        } else {
            let b = inlined(s.skip(1));
            inlined_never_closes(s.skip(1));
            assert forall|i: int| 0 <= i < r.len() - 1 implies !((#[trigger] r[i]) == '<' && r[i + 1] == '/') by {
                if i >= 1 {
                    assert(r[i] == b[i - 1]);
                    assert(r[i + 1] == b[i - 1 + 1]);
                } else {
                    assert(r[1] == b[0]);
                    assert(s.skip(1)[0] == s[1]);
                }
            }
        }
    }
}

} // verus!
