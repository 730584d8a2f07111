//! What a picture shows, over all indexes.

use crate::model::FileId;
use crate::plain;
use crate::query::Snapshot;
use crate::rows::{CochangeRow, EdgeRow};
use crate::text;
use crate::viz;
use vstd::prelude::*;

verus! {

// ---- groups ----

/// Law: a file at the top is in the group of the root, and a file in a
/// directory in the group of its first component. Below a directory that holds
/// packages it is in the group of the first two.
pub proof fn paths_have_groups(name: Seq<char>, dir: Seq<char>, sub: Seq<char>)
    requires
        !name.contains('/'),
        !dir.contains('/'),
        !sub.contains('/'),
    ensures
        viz::group_label(name) == "(root)"@,
        viz::group_label(dir + "/"@ + name) == dir,
        dir == "packages"@ || dir == "apps"@ || dir == "crates"@ || dir == "libs"@ || dir == "services"@ || dir
            == "modules"@ ==> viz::group_label(dir + "/"@ + sub + "/"@ + name) == dir + "/"@ + sub,
        !(dir == "packages"@ || dir == "apps"@ || dir == "crates"@ || dir == "libs"@ || dir == "services"@ || dir
            == "modules"@) ==> viz::group_label(dir + "/"@ + sub + "/"@ + name) == dir,
{
    reveal_strlit("/");
    text::lemma_split_plain(name, '/');
    text::lemma_split_plain(dir, '/');
    assert(dir + "/"@ + name =~= dir.push('/') + name);
    text::lemma_split_append(dir, '/', name);
    assert(dir + "/"@ + sub =~= dir.push('/') + sub);
    text::lemma_split_append(dir, '/', sub);
    let b = dir + "/"@ + sub;
    assert(b + "/"@ + name =~= b.push('/') + name);
    text::lemma_split_append(b, '/', name);
}

/// How many of the paths are in a group.
pub open spec fn members(paths: Seq<Seq<char>>, g: Seq<char>) -> int {
    paths.filter(|p: Seq<char>| viz::group_label(p) == g).len() as int
}

proof fn lemma_members_push(paths: Seq<Seq<char>>, p: Seq<char>, g: Seq<char>)
    ensures
        members(paths.push(p), g) == members(paths, g) + (if viz::group_label(p) == g {
            1int
        } else {
            0
        }),
{
    paths.lemma_filter_push(p, |p: Seq<char>| viz::group_label(p) == g);
}

proof fn lemma_tally_at(s: Seq<(Seq<char>, int)>, g: Seq<char>)
    ensures
        match viz::tally_at(s, g) {
            Some(i) => 0 <= i < s.len() && s[i].0 == g,
            None => forall|i: int| 0 <= i < s.len() ==> (#[trigger] s[i]).0 != g,
        },
    decreases s.len(),
{
    if s.len() > 0 {
        let d = s.drop_last();
        lemma_tally_at(d, g);
        if viz::tally_at(s, g) is None {
            assert forall|i: int| 0 <= i < s.len() implies (#[trigger] s[i]).0 != g by {
                if i < d.len() {
                    assert(d[i] == s[i]);
                }
            }
        }
    }
}

/// Law: each group is counted once, with as many paths as are in it, and every
/// group that a path is in is counted.
pub proof fn groups_are_counted(paths: Seq<Seq<char>>)
    ensures
        forall|k: int|
            0 <= k < viz::tally(paths).len() ==> (#[trigger] viz::tally(paths)[k]).1 == members(
                paths,
                viz::tally(paths)[k].0,
            ),
        forall|k: int, l: int|
            0 <= k < l < viz::tally(paths).len() ==> (#[trigger] viz::tally(paths)[k]).0 != (#[trigger] viz::tally(
                paths,
            )[l]).0,
        forall|g: Seq<char>|
            #[trigger] members(paths, g) == 0 || exists|k: int|
                0 <= k < viz::tally(paths).len() && (#[trigger] viz::tally(paths)[k]).0 == g,
    decreases paths.len(),
{
    let s = viz::tally(paths);
    if paths.len() == 0 {
        assert forall|g: Seq<char>| #[trigger] members(paths, g) == 0 by {
            paths.lemma_filter_len(|p: Seq<char>| viz::group_label(p) == g);
        }
    } else {
        let d = paths.drop_last();
        let p = paths.last();
        let b = viz::tally(d);
        let q = viz::group_label(p);
        groups_are_counted(d);
        lemma_tally_at(b, q);
        assert(d.push(p) =~= paths);
        let found = viz::tally_at(b, q);
        assert forall|k: int| 0 <= k < s.len() implies (#[trigger] s[k]).1 == members(paths, s[k].0) by {
            lemma_members_push(d, p, s[k].0);
            if k < b.len() {
                assert(b[k].1 == members(d, b[k].0));
                if let Some(i) = found {
                    if i < k {
                        assert(b[i].0 != b[k].0);
                    } else if k < i {
                        assert(b[k].0 != b[i].0);
                    }
                }
            } else {
                assert(members(d, q) == 0);
            }
        }
        assert forall|k: int, l: int| 0 <= k < l < s.len() implies (#[trigger] s[k]).0 != (#[trigger] s[l]).0 by {
            if l < b.len() {
                assert(b[k].0 != b[l].0);
            } else {
                assert(b[k].0 != q);
            }
        }
        assert forall|g: Seq<char>|
            #[trigger] members(paths, g) == 0 || exists|k: int| 0 <= k < s.len() && (#[trigger] s[k]).0 == g by {
            lemma_members_push(d, p, g);
            if members(d, g) != 0 {
                let k = choose|k: int| 0 <= k < b.len() && (#[trigger] b[k]).0 == g;
                assert(s[k].0 == g);
            } else if q == g {
                match found {
                    Some(i) => {
                        assert(s[i].0 == g);
                    },
                    None => {
                        assert(s[b.len() as int].0 == g);
                    },
                }
            }
        }
    }
}

proof fn lemma_placed(s: Seq<(Seq<char>, int)>, g: (Seq<char>, int))
    requires
        forall|i: int, j: int| 0 <= i < j < s.len() ==> (#[trigger] s[i]).1 >= (#[trigger] s[j]).1,
    ensures
        ({
            let r = viz::group_placed(s, g);
            &&& r.len() == s.len() + 1
            &&& forall|i: int, j: int| 0 <= i < j < r.len() ==> (#[trigger] r[i]).1 >= (#[trigger] r[j]).1
            &&& forall|x: (Seq<char>, int)| #[trigger] r.contains(x) <==> s.contains(x) || x == g
        }),
    decreases s.len(),
{
    let r = viz::group_placed(s, g);
    if s.len() == 0 || viz::ahead(s.last(), g) {
        assert forall|i: int, j: int| 0 <= i < j < r.len() implies (#[trigger] r[i]).1 >= (#[trigger] r[j]).1 by {
            if j == s.len() {
                if i < s.len() - 1 {
                    assert(s[i].1 >= s[s.len() - 1].1);
                }
            }
        }
        assert forall|x: (Seq<char>, int)| #[trigger] r.contains(x) <==> s.contains(x) || x == g by {
            if s.contains(x) {
                assert(r[s.index_of(x)] == x);
            }
            assert(r[s.len() as int] == g);
            if r.contains(x) {
                let k = r.index_of(x);
                if k < s.len() {
                    assert(s[k] == x);
                }
            }
        }
    } else {
        let f = s.drop_last();
        assert forall|i: int, j: int| 0 <= i < j < f.len() implies (#[trigger] f[i]).1 >= (#[trigger] f[j]).1 by {
            assert(s[i].1 >= s[j].1);
        }
        lemma_placed(f, g);
        let b = viz::group_placed(f, g);
        assert forall|i: int, j: int| 0 <= i < j < r.len() implies (#[trigger] r[i]).1 >= (#[trigger] r[j]).1 by {
            if j < b.len() {
                assert(b[i].1 >= b[j].1);
            } else {
                assert(r[i] == b[i]);
                assert(b.contains(b[i]));
                if f.contains(b[i]) {
                    let k = f.index_of(b[i]);
                    assert(s[k].1 >= s[s.len() - 1].1);
                }
            }
        }
        assert forall|x: (Seq<char>, int)| #[trigger] r.contains(x) <==> s.contains(x) || x == g by {
            if s.contains(x) {
                let k = s.index_of(x);
                if k < f.len() {
                    assert(f[k] == x);
                    assert(b.contains(x));
                    assert(r[b.index_of(x)] == x);
                } else {
                    assert(r[b.len() as int] == x);
                }
            }
            if x == g {
                assert(b.contains(x));
                assert(r[b.index_of(x)] == x);
            }
            if r.contains(x) {
                let k = r.index_of(x);
                if k < b.len() {
                    assert(b[k] == x);
                    assert(b.contains(x));
                    if f.contains(x) {
                        assert(s[f.index_of(x)] == x);
                    }
                } else {
                    assert(s[s.len() - 1] == x);
                }
            }
        }
    }
}

/// Law: groups come by descending size, none lost and none made up.
pub proof fn groups_descend(s: Seq<(Seq<char>, int)>)
    ensures
        viz::groups_ranked(s).len() == s.len(),
        forall|i: int, j: int|
            0 <= i < j < viz::groups_ranked(s).len() ==> (#[trigger] viz::groups_ranked(s)[i]).1 >= (
            #[trigger] viz::groups_ranked(s)[j]).1,
        forall|x: (Seq<char>, int)| #[trigger] viz::groups_ranked(s).contains(x) <==> s.contains(x),
    decreases s.len(),
{
    if s.len() > 0 {
        let f = s.drop_last();
        groups_descend(f);
        lemma_placed(viz::groups_ranked(f), s.last());
        assert forall|x: (Seq<char>, int)| #[trigger] viz::groups_ranked(s).contains(x) <==> s.contains(x) by {
            assert(viz::groups_ranked(f).contains(x) <==> f.contains(x));
            if s.contains(x) {
                let k = s.index_of(x);
                if k < f.len() {
                    assert(f[k] == x);
                }
            }
            if f.contains(x) {
                assert(s[f.index_of(x)] == x);
            }
            assert(s[s.len() - 1] == s.last());
        }
    }
}

/// Law: up to eight groups are all shown; of more, the seven largest are, and
/// the rest as one.
pub proof fn small_groups_are_lumped(paths: Seq<Seq<char>>, all: Seq<Seq<char>>)
    requires
        all == viz::labels(viz::groups_ranked(viz::tally(paths))),
    ensures
        all.len() <= 8 ==> viz::groups_of(paths) == all,
        all.len() > 8 ==> viz::groups_of(paths).len() == 8 && viz::groups_of(paths)[7] == "other"@ && viz::groups_of(
            paths,
        ).take(7) == all.take(7),
{
    if all.len() > 8 {
        assert(viz::groups_of(paths).take(7) =~= all.take(7));
    }
}

/// Law: a file is shown in its group where that is shown, and in the last one
/// else.
pub proof fn files_find_their_group(groups: Seq<Seq<char>>, g: Seq<char>, from: int)
    requires
        0 <= from <= groups.len(),
        groups.len() > 0,
    ensures
        (forall|i: int| from <= i < groups.len() ==> #[trigger] groups[i] != g) ==> viz::group_index(groups, g, from)
            == groups.len() - 1,
        (exists|i: int| from <= i < groups.len() && #[trigger] groups[i] == g) ==> groups[viz::group_index(
            groups,
            g,
            from,
        )] == g && from <= viz::group_index(groups, g, from) < groups.len(),
    decreases groups.len() - from,
{
    if from < groups.len() && groups[from] != g {
        files_find_their_group(groups, g, from + 1);
    }
}

// ---- pairs ----

proof fn lemma_pair_put(s: Seq<(FileId, FileId)>, p: (FileId, FileId), x: (FileId, FileId))
    ensures
        viz::pair_put(s, p).contains(x) <==> s.contains(x) || x == p,
    decreases s.len(),
{
    let r = viz::pair_put(s, p);
    if s.len() == 0 {
        assert(r[0] == p);
    } else if s.last() == p {
        assert(s[s.len() - 1] == p);
    } else if crate::cochange::pair_code(s.last()) < crate::cochange::pair_code(p) {
        if s.contains(x) {
            assert(r[s.index_of(x)] == x);
        }
        assert(r[s.len() as int] == p);
        if r.contains(x) {
            let k = r.index_of(x);
            if k < s.len() {
                assert(s[k] == x);
            }
        }
    } else {
        let f = s.drop_last();
        let b = viz::pair_put(f, p);
        lemma_pair_put(f, p, x);
        if s.contains(x) {
            let k = s.index_of(x);
            if k < f.len() {
                assert(f[k] == x);
                assert(r[b.index_of(x)] == x);
            } else {
                assert(r[b.len() as int] == x);
            }
        }
        if x == p {
            assert(r[b.index_of(x)] == x);
        }
        if r.contains(x) {
            let k = r.index_of(x);
            if k < b.len() {
                assert(b[k] == x);
                if f.contains(x) {
                    assert(s[f.index_of(x)] == x);
                }
            } else {
                assert(s[s.len() - 1] == x);
            }
        }
    }
}

/// An open edge joins two files that have a path at HEAD.
pub open spec fn drawn_edge(snap: &Snapshot, e: EdgeRow, a: FileId, b: FileId) -> bool {
    &&& plain::open_now(snap.intervals@, e.id)
    &&& plain::lives(snap.files.files(), a)
    &&& plain::lives(snap.files.files(), b)
    &&& (e.src == a && e.dst == b) || (e.src == b && e.dst == a)
}

proof fn lemma_live(snap: &Snapshot, edges: Seq<EdgeRow>, a: FileId, b: FileId)
    requires
        plain::files_once(snap.files.files()),
        a.0 <= b.0,
    ensures
        viz::live_pairs(snap, edges).contains((a, b)) <==> exists|i: int|
            0 <= i < edges.len() && drawn_edge(snap, #[trigger] edges[i], a, b),
    decreases edges.len(),
{
    if edges.len() > 0 {
        let d = edges.drop_last();
        let e = edges.last();
        lemma_live(snap, d, a, b);
        lemma_pair_put(viz::live_pairs(snap, d), crate::cochange::in_order(e.src, e.dst), (a, b));
        plain::paths_keep_alive(snap.files.files(), e.src);
        plain::paths_keep_alive(snap.files.files(), e.dst);
        assert(edges[edges.len() - 1] == e);
        assert(crate::graph::ended(snap.intervals@, e.id, None) <==> plain::open_now(snap.intervals@, e.id));
        if viz::live_pairs(snap, d).contains((a, b)) {
            let i = choose|i: int| 0 <= i < d.len() && drawn_edge(snap, #[trigger] d[i], a, b);
            assert(edges[i] == d[i]);
            assert(drawn_edge(snap, edges[i], a, b));
        }
        if viz::shown_edge(snap, e) && crate::cochange::in_order(e.src, e.dst) == (a, b) {
            assert(drawn_edge(snap, edges[edges.len() - 1], a, b));
        }
        if exists|i: int| 0 <= i < edges.len() && drawn_edge(snap, #[trigger] edges[i], a, b) {
            let i = choose|i: int| 0 <= i < edges.len() && drawn_edge(snap, #[trigger] edges[i], a, b);
            if i < d.len() {
                assert(d[i] == edges[i]);
                assert(drawn_edge(snap, d[i], a, b));
            }
        }
    }
}

/// Law: two files are joined in the picture where an open edge joins them and
/// both have a path at HEAD.
pub proof fn open_edges_join_files(snap: &Snapshot, a: FileId, b: FileId)
    requires
        plain::files_once(snap.files.files()),
        a.0 <= b.0,
    ensures
        viz::live_pairs(snap, snap.edges@).contains((a, b)) <==> exists|i: int|
            0 <= i < snap.edges@.len() && drawn_edge(snap, #[trigger] snap.edges@[i], a, b),
{
    lemma_live(snap, snap.edges@, a, b);
}

/// Law: the coupled pairs that are drawn are those whose lift is high enough to
/// be and whose files both have a path at HEAD.
pub proof fn coupled_pairs_are_drawn(snap: &Snapshot, c: CochangeRow)
    requires
        plain::files_once(snap.files.files()),
    ensures
        viz::drawn_pairs(snap).contains(c) <==> snap.cochange@.contains(c) && c.lift_drawn && plain::lives(
            snap.files.files(),
            c.a,
        ) && plain::lives(snap.files.files(), c.b),
{
    plain::lemma_filtered(snap.cochange@, |c: CochangeRow| viz::drawn(snap, c));
    plain::paths_keep_alive(snap.files.files(), c.a);
    plain::paths_keep_alive(snap.files.files(), c.b);
}

/// Law: coupling is hidden where no open edge joins the two files, its lift is
/// high enough to be told, and the files changed together three times or more.
/// Of up to forty such pairs all are shown.
pub proof fn hidden_pairs_are_shown(live: Seq<(FileId, FileId)>, co: Seq<CochangeRow>, c: CochangeRow)
    requires
        co.contains(c),
        c.lift_hidden,
        c.n >= 3,
        !live.contains((c.a, c.b)),
        !live.contains((c.b, c.a)),
        co.len() <= 40,
    ensures
        viz::hidden_pairs(live, co).contains(c),
{
    let f = |c: CochangeRow| viz::is_hidden(live, c);
    plain::lemma_filtered(co, f);
    co.lemma_filter_len(f);
    assert(f(c));
}

/// Law: what an open edge joins, what is too weak and what is too rare is not
/// hidden.
pub proof fn explained_pairs_are_not_hidden(live: Seq<(FileId, FileId)>, c: CochangeRow)
    requires
        c.a.0 < c.b.0,
    ensures
        live.contains((c.a, c.b)) ==> !viz::is_hidden(live, c),
        !c.lift_hidden ==> !viz::is_hidden(live, c),
        c.n < 3 ==> !viz::is_hidden(live, c),
{
}

/// Law: a file's degree counts each joined pair that it is in.
pub proof fn degrees_count_pairs(live: Seq<(FileId, FileId)>, p: (FileId, FileId), f: FileId)
    ensures
        viz::degree(Seq::empty(), f) == 0,
        p.0 != p.1 ==> viz::degree(live.push(p), f) == viz::degree(live, f) + (if p.0 == f || p.1 == f {
            1int
        } else {
            0
        }),
{
    assert(live.push(p).drop_last() =~= live);
}

// ---- what is drawn ----

/// Law: a coupled pair is drawn between the nodes of its two files, with its
/// own measure.
pub proof fn pairs_join_their_nodes(live: Seq<(FileId, FileId)>, co: Seq<CochangeRow>, j: int)
    requires
        0 <= j < co.len(),
        viz::nodes(live, co).len() <= usize::MAX,
    ensures
        ({
            let ids = viz::nodes(live, co);
            let row = viz::co_row(ids, co[j]);
            &&& row.a < ids.len() && ids[row.a as int] == co[j].a
            &&& row.b < ids.len() && ids[row.b as int] == co[j].b
            &&& row.n == co[j].n
            &&& row.slot == co[j].slot
        }),
{
    assert(viz::joins(live, co, co[j].a));
    assert(viz::joins(live, co, co[j].b));
    viz::pairs_find_their_nodes(live, co, co[j].a);
    viz::pairs_find_their_nodes(live, co, co[j].b);
}

/// Law: a node shows its file by the path it is known by, in the group of that
/// path where the group is shown.
pub proof fn nodes_show_their_files(snap: &Snapshot, live: Seq<(FileId, FileId)>, groups: Seq<Seq<char>>, f: FileId)
    requires
        groups.len() > 0,
    ensures
        viz::viz_node(snap, live, groups, f).path == snap.shown(f),
        groups.contains(viz::group_label(snap.shown(f))) ==> groups[viz::viz_node(snap, live, groups, f).group]
            == viz::group_label(snap.shown(f)),
        !groups.contains(viz::group_label(snap.shown(f))) ==> viz::viz_node(snap, live, groups, f).group
            == groups.len() - 1,
{
    files_find_their_group(groups, viz::group_label(snap.shown(f)), 0);
}

/// Law: the head is shown by its first seven characters.
pub proof fn heads_are_marked(mark: Seq<char>, rest: Seq<char>)
    requires
        mark.len() == 7,
    ensures
        viz::head_mark(Some(mark + rest)) == Some(mark),
        viz::head_mark(None) is None,
{
    assert((mark + rest).take(7) =~= mark);
    assert(rest.len() == 0 ==> mark + rest =~= mark);
}

/// Law: data is inlined as it stands but for each "</", which gets a backslash
/// between its two characters.
pub proof fn closings_are_broken(a: Seq<char>, b: Seq<char>)
    ensures
        (forall|i: int| 0 <= i < a.len() - 1 ==> !((#[trigger] a[i]) == '<' && a[i + 1] == '/')) ==> viz::inlined(a) == a,
        viz::inlined(a + seq!['<', '/'] + b) == viz::inlined(a) + seq!['<', '\\', '/'] + viz::inlined(b),
    decreases a.len(),
{
    reveal_strlit("<\\/");
    assert("<\\/"@ =~= seq!['<', '\\', '/']);
    let t = seq!['<', '/'] + b;
    let s = a + t;
    assert(a + seq!['<', '/'] + b =~= s);
    let tail = seq!['<', '\\', '/'] + viz::inlined(b);
    assert(viz::inlined(a) + seq!['<', '\\', '/'] + viz::inlined(b) =~= viz::inlined(a) + tail);
    if a.len() == 0 {
        assert(s =~= t);
        assert(t.skip(2) =~= b);
        assert(viz::inlined(a) + tail =~= tail);
    } else if a.len() >= 2 && a[0] == '<' && a[1] == '/' {
        let c = a.skip(2);
        closings_are_broken(c, b);
        assert(s[0] == a[0] && s[1] == a[1]);
        assert(s.skip(2) =~= c + t);
        assert(c + seq!['<', '/'] + b =~= c + t);
        assert(viz::inlined(c) + seq!['<', '\\', '/'] + viz::inlined(b) =~= viz::inlined(c) + tail);
        assert("<\\/"@ + (viz::inlined(c) + tail) =~= ("<\\/"@ + viz::inlined(c)) + tail);
        assert(a[0] == '<' && a[0int + 1] == '/');
    } else {
        let c = a.skip(1);
        closings_are_broken(c, b);
        assert(s[0] == a[0]);
        assert(s[1] == (if a.len() >= 2 { a[1] } else { '<' }));
        assert(s.skip(1) =~= c + t);
        assert(c + seq!['<', '/'] + b =~= c + t);
        assert(viz::inlined(c) + seq!['<', '\\', '/'] + viz::inlined(b) =~= viz::inlined(c) + tail);
        assert(seq![a[0]] + (viz::inlined(c) + tail) =~= (seq![a[0]] + viz::inlined(c)) + tail);
        if forall|i: int| 0 <= i < a.len() - 1 ==> !((#[trigger] a[i]) == '<' && a[i + 1] == '/') {
            assert forall|i: int| 0 <= i < c.len() - 1 implies !((#[trigger] c[i]) == '<' && c[i + 1] == '/') by {
                assert(c[i] == a[i + 1] && c[i + 1] == a[i + 1 + 1]);
            }
            assert(seq![a[0]] + c =~= a);
        }
    }
}

// ---- equal groups ----

/// A group comes before another: it is larger, or as large and not later by
/// name.
pub open spec fn comes_before(a: (Seq<char>, int), b: (Seq<char>, int)) -> bool {
    a.1 > b.1 || (a.1 == b.1 && text::text_le(a.0, b.0))
}

proof fn lemma_comes_before(a: (Seq<char>, int), b: (Seq<char>, int), c: (Seq<char>, int))
    ensures
        comes_before(a, b) || comes_before(b, a),
        comes_before(a, b) && comes_before(b, c) ==> comes_before(a, c),
{
    text::lemma_text_le_total(a.0, b.0);
    if text::text_le(a.0, b.0) && text::text_le(b.0, c.0) {
        text::lemma_text_le_trans(a.0, b.0, c.0);
    }
}

proof fn lemma_placed_before(s: Seq<(Seq<char>, int)>, g: (Seq<char>, int), t: (Seq<char>, int))
    requires
        forall|i: int| 0 <= i < s.len() ==> comes_before(#[trigger] s[i], t),
        comes_before(g, t),
    ensures
        forall|i: int| 0 <= i < viz::group_placed(s, g).len() ==> comes_before(#[trigger] viz::group_placed(s, g)[i], t),
    decreases s.len(),
{
    if s.len() > 0 && !viz::ahead(s.last(), g) {
        let d = s.drop_last();
        assert forall|i: int| 0 <= i < d.len() implies comes_before(#[trigger] d[i], t) by {
            assert(d[i] == s[i]);
        }
        assert(comes_before(s[s.len() - 1], t));
        lemma_placed_before(d, g, t);
        let q = viz::group_placed(d, g);
        assert(viz::group_placed(s, g) == q.push(s.last()));
        assert forall|i: int| 0 <= i < q.push(s.last()).len() implies comes_before(#[trigger] q.push(s.last())[i], t) by {
            if i < q.len() {
                assert(q.push(s.last())[i] == q[i]);
            }
        }
    } else {
        assert(viz::group_placed(s, g) == s.push(g));
        assert forall|i: int| 0 <= i < s.push(g).len() implies comes_before(#[trigger] s.push(g)[i], t) by {
            if i < s.len() {
                assert(s.push(g)[i] == s[i]);
            }
        }
    }
}

proof fn lemma_placed_in_order(s: Seq<(Seq<char>, int)>, g: (Seq<char>, int))
    requires
        forall|i: int, j: int| 0 <= i < j < s.len() ==> comes_before(#[trigger] s[i], #[trigger] s[j]),
    ensures
        forall|i: int, j: int|
            0 <= i < j < viz::group_placed(s, g).len() ==> comes_before(
                #[trigger] viz::group_placed(s, g)[i],
                #[trigger] viz::group_placed(s, g)[j],
            ),
    decreases s.len(),
{
    let p = viz::group_placed(s, g);
    if s.len() > 0 {
        let l = s.last();
        let d = s.drop_last();
        assert(s[s.len() - 1] == l);
        lemma_comes_before(l, g, g);
        if viz::ahead(l, g) {
            assert(p == s.push(g));
            assert forall|i: int, j: int| 0 <= i < j < p.len() implies comes_before(#[trigger] p[i], #[trigger] p[j]) by {
                if j < s.len() {
                    assert(p[i] == s[i] && p[j] == s[j]);
                } else if i < s.len() - 1 {
                    assert(comes_before(s[i], s[s.len() - 1]));
                    lemma_comes_before(s[i], l, g);
                }
            }
        } else {
            assert forall|i: int, j: int| 0 <= i < j < d.len() implies comes_before(#[trigger] d[i], #[trigger] d[j]) by {
                assert(d[i] == s[i] && d[j] == s[j]);
            }
            assert forall|i: int| 0 <= i < d.len() implies comes_before(#[trigger] d[i], l) by {
                assert(comes_before(s[i], s[s.len() - 1]));
            }
            lemma_placed_in_order(d, g);
            lemma_placed_before(d, g, l);
            let q = viz::group_placed(d, g);
            assert(p == q.push(l));
            assert forall|i: int, j: int| 0 <= i < j < p.len() implies comes_before(#[trigger] p[i], #[trigger] p[j]) by {
                assert(p[i] == q[i]);
                if j < q.len() {
                    assert(p[j] == q[j]);
                }
            }
        }
    }
}

/// Law: of two groups the larger comes first, and of two equal ones the one
/// whose name comes first.
pub proof fn equal_groups_come_by_name(s: Seq<(Seq<char>, int)>)
    ensures
        forall|i: int, j: int|
            0 <= i < j < viz::groups_ranked(s).len() ==> comes_before(
                #[trigger] viz::groups_ranked(s)[i],
                #[trigger] viz::groups_ranked(s)[j],
            ),
    decreases s.len(),
{
    if s.len() > 0 {
        equal_groups_come_by_name(s.drop_last());
        lemma_placed_in_order(viz::groups_ranked(s.drop_last()), s.last());
    }
}

} // verus!
