//! What a commit leaves behind of the files it changed: each is read anew, at
//! the path it has now, and its edges and names are those it has there.

use crate::changes;
use crate::lang;
use crate::model::{ChangeKind, CommitId, FileId, Resolution};
use crate::names;
use crate::open_edges::EdgeKey;
use crate::open_edges;
use crate::parsed::{DefView, ParsedView};
use crate::resolve;
use crate::store_op::OpView;
use crate::tables;
use crate::vcs::{ChangeView, FileChangeView};
use crate::walk::laws;
use crate::walk::rest;
use crate::walk::resume::Sheet;
use crate::walk::resume;
use crate::walk::tree;
use crate::walk::{FactsView, WalkView};
use crate::walk;
use vstd::prelude::*;

verus! {

// ---- which files are touched ----

/// A change that leaves a file in the tree puts it at the path it names, and
/// there it stays.
proof fn lemma_touch_lands(
    old: Set<Seq<char>>,
    new: Set<Seq<char>>,
    a: WalkView,
    s: Seq<FileChangeView>,
    import_only: Seq<bool>,
    k: int,
    m: int,
    at: CommitId,
    time: i64,
)
    requires
        tree::is_diff(old, new, s),
        a.live.dom() == old,
        0 <= k < m <= s.len(),
        !(s[k].change is Deleted),
    ensures
        ({
            let x = walk::changes_applied(a, s, import_only, m, at, time);
            let p = s[k].change.path();
            &&& x.live.contains_key(p)
            &&& walk::touched_id(walk::changes_applied(a, s, import_only, k, at, time), s[k], time) == Some(x.live[p])
        }),
    decreases m,
{
    let p = s[k].change.path();
    assert(tree::tells(old, new, s[k].change));
    if m > k + 1 {
        lemma_touch_lands(old, new, a, s, import_only, k, m - 1, at, time);
        let b = walk::changes_applied(a, s, import_only, m - 1, at, time);
        let c = s[m - 1].change;
        assert(tree::tells(old, new, c));
        assert(tree::separate(s[k].change, c));
        match c {
            ChangeView::Deleted { path } => {
                assert(path != p);
            },
            ChangeView::Renamed { from, to } => {
                assert(from != p && to != p);
            },
            ChangeView::Added { path } => {
                assert(path != p);
            },
            ChangeView::Modified { path } => {},
        }
    }
}

proof fn lemma_touched_list(
    a: WalkView,
    s: Seq<FileChangeView>,
    import_only: Seq<bool>,
    n: int,
    at: CommitId,
    time: i64,
)
    requires
        0 <= n <= s.len(),
    ensures
        ({
            let t = walk::files_touched(a, s, import_only, n, at, time);
            &&& forall|i: int|
                0 <= i < t.len() ==> 0 <= (#[trigger] t[i]).1 < n && !(s[t[i].1].change is Deleted) && walk::touched_id(
                    walk::changes_applied(a, s, import_only, t[i].1, at, time),
                    s[t[i].1],
                    time,
                ) == Some(t[i].0)
            &&& forall|i: int, j: int| 0 <= i < j < t.len() ==> (#[trigger] t[i]).1 < (#[trigger] t[j]).1
            &&& forall|k: int, id: FileId|
                0 <= k < n && walk::touched_id(
                    walk::changes_applied(a, s, import_only, k, at, time),
                    s[k],
                    time,
                ) == Some(id) ==> #[trigger] t.contains((id, k))
        }),
    decreases n,
{
    if n > 0 {
        lemma_touched_list(a, s, import_only, n - 1, at, time);
        let b = walk::files_touched(a, s, import_only, n - 1, at, time);
        let t = walk::files_touched(a, s, import_only, n, at, time);
        assert forall|i: int, j: int| 0 <= i < j < t.len() implies (#[trigger] t[i]).1 < (#[trigger] t[j]).1 by {
            assert(t[i] == b[i]);
            if j < b.len() {
                assert(t[j] == b[j]);
            }
        }
        assert forall|k: int, id: FileId|
            0 <= k < n && walk::touched_id(
                walk::changes_applied(a, s, import_only, k, at, time),
                s[k],
                time,
            ) == Some(id) implies #[trigger] t.contains((id, k)) by {
            if k == n - 1 {
                assert(t[t.len() - 1] == (id, k));
            } else {
                assert(b.contains((id, k)));
                assert(t[b.index_of((id, k))] == (id, k));
            }
        }
    }
}

/// No file is listed twice.
pub open spec fn once(s: Seq<(FileId, int)>) -> bool {
    forall|i: int, j: int| 0 <= i < j < s.len() ==> (#[trigger] s[i]).0 != (#[trigger] s[j]).0
}

/// A touch is the first of its file, with a blob that exists and a language.
spec fn first_touch(
    langs: Map<i64, lang::Lang>,
    changes: Seq<FileChangeView>,
    touched: Seq<(FileId, int)>,
    i: int,
) -> bool {
    &&& 0 <= i < touched.len()
    &&& changes[touched[i].1].new_blob matches Some(oid) && walk::real_blob(oid)
    &&& langs.contains_key(touched[i].0.0)
    &&& forall|j: int| 0 <= j < i ==> (#[trigger] touched[j]).0 != touched[i].0
}

proof fn lemma_jobs(langs: Map<i64, lang::Lang>, changes: Seq<FileChangeView>, touched: Seq<(FileId, int)>)
    ensures
        once(walk::parse_jobs(langs, changes, touched)),
        forall|x: (FileId, int)| #[trigger]
            walk::parse_jobs(langs, changes, touched).contains(x) ==> touched.contains(x) && langs.contains_key(x.0.0),
        forall|i: int|
            first_touch(langs, changes, touched, i) ==> walk::parse_jobs(langs, changes, touched).contains(
                #[trigger] touched[i],
            ),
    decreases touched.len(),
{
    if touched.len() > 0 {
        let rest = touched.drop_last();
        let b = walk::parse_jobs(langs, changes, rest);
        let r = walk::parse_jobs(langs, changes, touched);
        let n = touched.len() - 1;
        lemma_jobs(langs, changes, rest);
        assert forall|x: (FileId, int)| #[trigger] r.contains(x) implies touched.contains(x) && langs.contains_key(
            x.0.0,
        ) by {
            let k = r.index_of(x);
            if k < b.len() {
                assert(b[k] == x);
                assert(b.contains(x));
                assert(touched[rest.index_of(x)] == x);
            } else {
                assert(touched[n] == x);
            }
        }
        assert forall|i: int| first_touch(langs, changes, touched, i) implies r.contains(#[trigger] touched[i]) by {
            if i < n {
                assert(rest[i] == touched[i]);
                assert forall|j: int| 0 <= j < i implies (#[trigger] rest[j]).0 != rest[i].0 by {
                    assert(touched[j].0 != touched[i].0);
                }
                assert(first_touch(langs, changes, rest, i));
                assert(b.contains(rest[i]));
                assert(r[b.index_of(rest[i])] == touched[i]);
            } else {
                assert(!walk::lists_file(rest, touched[n].0)) by {
                    if walk::lists_file(rest, touched[n].0) {
                        let j = choose|j: int| 0 <= j < rest.len() && (#[trigger] rest[j]).0 == touched[n].0;
                        assert(touched[j].0 == touched[n].0);
                    }
                }
                assert(r[r.len() - 1] == touched[n]);
            }
        }
        assert forall|i: int, j: int| 0 <= i < j < r.len() implies (#[trigger] r[i]).0 != (#[trigger] r[j]).0 by {
            assert(r[i] == b[i]);
            if j < b.len() {
                assert(r[j] == b[j]);
            } else {
                assert(b.contains(b[i]));
                let m = rest.index_of(b[i]);
                assert(rest[m].0 == b[i].0);
            }
        }
    }
}

proof fn lemma_filter_once(s: Seq<(FileId, int)>, f: spec_fn((FileId, int)) -> bool)
    requires
        once(s),
    ensures
        once(s.filter(f)),
        forall|x: (FileId, int)| #[trigger] s.filter(f).contains(x) <==> s.contains(x) && f(x),
    decreases s.len(),
{
    reveal(Seq::filter);
    if s.len() > 0 {
        let d = s.drop_last();
        assert forall|i: int, j: int| 0 <= i < j < d.len() implies (#[trigger] d[i]).0 != (#[trigger] d[j]).0 by {
            assert(s[i].0 != s[j].0);
        }
        lemma_filter_once(d, f);
        let b = d.filter(f);
        let r = s.filter(f);
        assert forall|x: (FileId, int)| #[trigger] r.contains(x) <==> s.contains(x) && f(x) by {
            assert(b.contains(x) <==> d.contains(x) && f(x));
            if b.contains(x) {
                assert(r[b.index_of(x)] == x);
                assert(s[d.index_of(x)] == x);
            }
            if s.contains(x) {
                let k = s.index_of(x);
                if k < d.len() {
                    assert(d[k] == x);
                    assert(d.contains(x));
                } else if f(x) {
                    assert(r[r.len() - 1] == x);
                }
            }
            if r.contains(x) {
                let k = r.index_of(x);
                if k < b.len() {
                    assert(b[k] == x);
                } else {
                    assert(s[s.len() - 1] == x);
                }
            }
        }
        assert forall|i: int, j: int| 0 <= i < j < r.len() implies (#[trigger] r[i]).0 != (#[trigger] r[j]).0 by {
            assert(r[i] == b[i]);
            if j < b.len() {
                assert(r[j] == b[j]);
            } else {
                assert(b.contains(b[i]));
                let m = d.index_of(b[i]);
                assert(s[m].0 != s[s.len() - 1].0);
            }
        }
    }
}

pub proof fn lemma_order(jobs: Seq<(FileId, int)>, facts: Seq<FactsView>)
    requires
        once(jobs),
    ensures
        once(walk::parse_order(jobs, facts)),
        forall|x: (FileId, int)| #[trigger]
            walk::parse_order(jobs, facts).contains(x) <==> jobs.contains(x) && (facts[x.1].cached is Some
                || facts[x.1].fresh is Some),
{
    let f = |j: (FileId, int)| facts[j.1].cached is Some;
    let g = |j: (FileId, int)| facts[j.1].cached is None && facts[j.1].fresh is Some;
    lemma_filter_once(jobs, f);
    lemma_filter_once(jobs, g);
    let a = jobs.filter(f);
    let b = jobs.filter(g);
    let r = walk::parse_order(jobs, facts);
    assert(r == a + b);
    assert forall|x: (FileId, int)| #[trigger] r.contains(x) <==> jobs.contains(x) && (facts[x.1].cached is Some
        || facts[x.1].fresh is Some) by {
        assert(a.contains(x) <==> jobs.contains(x) && f(x));
        assert(b.contains(x) <==> jobs.contains(x) && g(x));
        if a.contains(x) {
            assert(r[a.index_of(x)] == x);
        }
        if b.contains(x) {
            assert(r[a.len() + b.index_of(x)] == x);
        }
        if r.contains(x) {
            let k = r.index_of(x);
            if k < a.len() {
                assert(a[k] == x);
            } else {
                assert(b[k - a.len()] == x);
            }
        }
    }
    assert forall|i: int, j: int| 0 <= i < j < r.len() implies (#[trigger] r[i]).0 != (#[trigger] r[j]).0 by {
        if j < a.len() {
            assert(r[i] == a[i] && r[j] == a[j]);
        } else if i >= a.len() {
            assert(r[i] == b[i - a.len()] && r[j] == b[j - a.len()]);
        } else {
            let (x, y) = (a[i], b[j - a.len()]);
            assert(a.contains(x) && b.contains(y));
            assert(f(x) && !f(y));
            let (k, m) = (jobs.index_of(x), jobs.index_of(y));
            assert(k != m);
            if k < m {
                assert(jobs[k].0 != jobs[m].0);
            } else {
                assert(jobs[m].0 != jobs[k].0);
            }
        }
    }
}

// ---- what is read of them ----

/// Two walks say the same of everything that resolution reads.
pub open spec fn reads_alike(a: WalkView, b: WalkView) -> bool {
    walk::resolve_view(a) == walk::resolve_view(b) && a.lang_of == b.lang_of && a.defs == b.defs
}

/// The edges out of a file are those that a parse result has at a path.
pub open spec fn edges_read(w: WalkView, id: FileId, l: lang::Lang, path: Seq<char>, p: ParsedView) -> bool {
    forall|e: EdgeKey|
        e.src == id ==> (#[trigger] w.open.contains(e) <==> exists|r: Resolution|
            resolve::file_resolved(walk::resolve_view(w), id, path, l, p).edges.contains((e.dst, e.kind, r)))
}

/// A name is defined in a parse result.
pub open spec fn has_def(defs: Seq<DefView>, name: Seq<char>) -> bool {
    exists|i: int| 0 <= i < defs.len() && (#[trigger] defs[i]).name == name
}

/// The names that lead to a file are those that a parse result defines.
pub open spec fn names_read(w: WalkView, id: FileId, p: ParsedView) -> bool {
    forall|n: Seq<char>| #[trigger] tables::definers(w.symbols, n).contains(id) <==> has_def(p.defs, n)
}

/// The table of symbols says of each file what it defines.
pub open spec fn symbols_say(w: WalkView) -> bool {
    forall|n: Seq<char>, f: FileId| #[trigger]
        tables::definers(w.symbols, n).contains(f) <==> walk::defs_of(w, f).contains(n)
}

pub proof fn lemma_linked_alike(
    w: WalkView,
    order: Seq<(FileId, int)>,
    paths: Seq<Seq<char>>,
    facts: Seq<FactsView>,
    at: CommitId,
)
    ensures
        reads_alike(w, walk::all_linked(w, order, paths, facts, at)),
    decreases order.len(),
{
    if order.len() > 0 {
        lemma_linked_alike(w, order.drop_last(), paths, facts, at);
    }
}

proof fn lemma_linked_others(
    w: WalkView,
    order: Seq<(FileId, int)>,
    paths: Seq<Seq<char>>,
    facts: Seq<FactsView>,
    at: CommitId,
    id: FileId,
)
    requires
        forall|i: int| 0 <= i < order.len() ==> (#[trigger] order[i]).0 != id,
    ensures
        forall|e: EdgeKey|
            e.src == id ==> (#[trigger] walk::all_linked(w, order, paths, facts, at).open.contains(e)
                <==> w.open.contains(e)),
    decreases order.len(),
{
    if order.len() > 0 {
        let d = order.drop_last();
        assert forall|i: int| 0 <= i < d.len() implies (#[trigger] d[i]).0 != id by {
            assert(order[i].0 != id);
        }
        assert(order[order.len() - 1].0 != id);
        lemma_linked_others(w, d, paths, facts, at, id);
    }
}

pub proof fn lemma_linked(
    w: WalkView,
    order: Seq<(FileId, int)>,
    paths: Seq<Seq<char>>,
    facts: Seq<FactsView>,
    at: CommitId,
    m: int,
)
    requires
        once(order),
        0 <= m < order.len(),
        w.lang_of.contains_key(order[m].0.0),
    ensures
        ({
            let (id, i) = order[m];
            edges_read(
                walk::all_linked(w, order, paths, facts, at),
                id,
                w.lang_of[id.0],
                paths[i],
                walk::parse_of(facts[i]),
            )
        }),
    decreases order.len(),
{
    let d = order.drop_last();
    let (id, i) = order[m];
    let b = walk::all_linked(w, d, paths, facts, at);
    let n = walk::all_linked(w, order, paths, facts, at);
    lemma_linked_alike(w, d, paths, facts, at);
    lemma_linked_alike(w, order, paths, facts, at);
    if m == order.len() - 1 {
        let r = resolve::file_resolved(walk::resolve_view(b), id, paths[i], b.lang_of[id.0], walk::parse_of(facts[i]));
        assert forall|e: EdgeKey| e.src == id implies (#[trigger] n.open.contains(e) <==> exists|x: Resolution|
            r.edges.contains((e.dst, e.kind, x))) by {
            assert(n.open.contains(e) <==> walk::found_keys(id, r.edges).contains(e));
        }
    } else {
        assert forall|i: int, j: int| 0 <= i < j < d.len() implies (#[trigger] d[i]).0 != (#[trigger] d[j]).0 by {
            assert(order[i].0 != order[j].0);
        }
        assert(d[m] == order[m]);
        lemma_linked(w, d, paths, facts, at, m);
        let last = order.last().0;
        assert(order[m].0 != order[order.len() - 1].0);
        assert forall|e: EdgeKey| e.src == id implies (#[trigger] n.open.contains(e) <==> b.open.contains(e)) by {
            assert(!open_edges::out_of(b.open, last).contains(e));
        }
        assert forall|e: EdgeKey| e.src == id implies (#[trigger] n.open.contains(e) <==> exists|x: Resolution|
            resolve::file_resolved(
                walk::resolve_view(n),
                id,
                paths[i],
                w.lang_of[id.0],
                walk::parse_of(facts[i]),
            ).edges.contains((e.dst, e.kind, x))) by {
            assert(b.open.contains(e) <==> n.open.contains(e));
        }
    }
}

proof fn lemma_sorted_names(s: Seq<Seq<char>>)
    ensures
        names::increasing(names::sorted_names(s)),
        forall|n: Seq<char>| #[trigger] names::sorted_names(s).contains(n) <==> s.contains(n),
    decreases s.len(),
{
    if s.len() > 0 {
        let d = s.drop_last();
        lemma_sorted_names(d);
        names::insert_keeps_order(names::sorted_names(d), s.last());
        assert forall|n: Seq<char>| #[trigger] names::sorted_names(s).contains(n) <==> s.contains(n) by {
            assert(names::sorted_names(d).contains(n) <==> d.contains(n));
            if d.contains(n) {
                assert(s[d.index_of(n)] == n);
            }
            if n == s.last() {
                assert(s[s.len() - 1] == n);
            }
            if s.contains(n) && n != s.last() {
                assert(d[s.index_of(n)] == n);
            }
        }
    }
}

pub proof fn lemma_names_of(defs: Seq<DefView>, n: Seq<char>)
    ensures
        names::sorted_names(walk::def_names(defs)).contains(n) <==> has_def(defs, n),
{
    let s = walk::def_names(defs);
    lemma_sorted_names(s);
    if s.contains(n) {
        assert(defs[s.index_of(n)].name == n);
    }
    if has_def(defs, n) {
        let i = choose|i: int| 0 <= i < defs.len() && (#[trigger] defs[i]).name == n;
        assert(s[i] == n);
    }
}

proof fn lemma_symbols_say(w: WalkView, id: FileId, p: ParsedView, at: CommitId)
    requires
        symbols_say(w),
    ensures
        symbols_say(walk::symbols_updated(w, id, p, at)),
{
    let r = walk::symbols_updated(w, id, p, at);
    let now = names::sorted_names(walk::def_names(p.defs));
    let was = walk::defs_of(w, id);
    let gone = walk::names_less(was, now);
    let fresh = walk::names_less(now, was);
    rest::lemma_definers_dropped(w.symbols, gone, id);
    rest::lemma_definers_added(walk::names_dropped(w.symbols, gone, id), fresh, id);
    assert forall|n: Seq<char>, f: FileId| #[trigger] tables::definers(r.symbols, n).contains(f) <==> walk::defs_of(
        r,
        f,
    ).contains(n) by {
        lemma_less(was, now, n);
        lemma_less(now, was, n);
        let m = walk::names_dropped(w.symbols, gone, id);
        assert(tables::definers(m, n).contains(f) <==> tables::definers(w.symbols, n).contains(f) && !(f == id
            && gone.contains(n)));
        assert(tables::definers(w.symbols, n).contains(f) <==> walk::defs_of(w, f).contains(n));
    }
}

proof fn lemma_less(a: Seq<Seq<char>>, b: Seq<Seq<char>>, n: Seq<char>)
    ensures
        walk::names_less(a, b).contains(n) <==> a.contains(n) && !b.contains(n),
{
    let f = |n: Seq<char>| !b.contains(n);
    if walk::names_less(a, b).contains(n) {
        a.lemma_filter_contains_rev(f, n);
        let k = a.filter(f).index_of(n);
        a.lemma_filter_pred(f, k);
    }
    if a.contains(n) && !b.contains(n) {
        a.lemma_filter_contains(f, a.index_of(n));
    }
}

pub proof fn lemma_all_symbols(w: WalkView, order: Seq<(FileId, int)>, facts: Seq<FactsView>, at: CommitId)
    requires
        symbols_say(w),
        once(order),
    ensures
        ({
            let n = walk::all_symbols_updated(w, order, facts, at);
            &&& symbols_say(n)
            &&& n.lang_of == w.lang_of
            &&& n.open == w.open
            &&& n.live == w.live
            &&& forall|m: int|
                0 <= m < order.len() ==> walk::defs_of(n, (#[trigger] order[m]).0) == names::sorted_names(
                    walk::def_names(walk::parse_of(facts[order[m].1]).defs),
                )
        }),
    decreases order.len(),
{
    if order.len() > 0 {
        let d = order.drop_last();
        assert forall|i: int, j: int| 0 <= i < j < d.len() implies (#[trigger] d[i]).0 != (#[trigger] d[j]).0 by {
            assert(order[i].0 != order[j].0);
        }
        lemma_all_symbols(w, d, facts, at);
        let b = walk::all_symbols_updated(w, d, facts, at);
        let n = walk::all_symbols_updated(w, order, facts, at);
        let (id, i) = order.last();
        lemma_symbols_say(b, id, walk::parse_of(facts[i]), at);
        assert forall|m: int| 0 <= m < order.len() implies walk::defs_of(n, (#[trigger] order[m]).0)
            == names::sorted_names(walk::def_names(walk::parse_of(facts[order[m].1]).defs)) by {
            if m < d.len() {
                assert(d[m] == order[m]);
                assert(order[m].0 != order[order.len() - 1].0);
                assert(walk::defs_of(n, order[m].0) == walk::defs_of(b, order[m].0));
            }
        }
    }
}

// ---- symbols through changes ----

proof fn lemma_change_says(w: WalkView, c: FileChangeView, import_only: bool, at: CommitId, time: i64)
    requires
        symbols_say(w),
    ensures
        symbols_say(walk::change_applied(w, c, import_only, at, time)),
{
    let r = walk::change_applied(w, c, import_only, at, time);
    match c.change {
        ChangeView::Deleted { path } => {
            if w.live.contains_key(path) {
                let id = w.live[path];
                rest::lemma_definers_dropped(w.symbols, walk::defs_of(w, id), id);
                assert forall|n: Seq<char>, f: FileId| #[trigger]
                    tables::definers(r.symbols, n).contains(f) <==> walk::defs_of(r, f).contains(n) by {
                    assert(tables::definers(w.symbols, n).contains(f) <==> walk::defs_of(w, f).contains(n));
                }
            }
        },
        _ => {
            assert(r.symbols == w.symbols && r.defs == w.defs);
            assert forall|n: Seq<char>, f: FileId| #[trigger]
                tables::definers(r.symbols, n).contains(f) <==> walk::defs_of(r, f).contains(n) by {
                assert(tables::definers(w.symbols, n).contains(f) <==> walk::defs_of(w, f).contains(n));
            }
        },
    }
}

proof fn lemma_changes_say(
    w: WalkView,
    s: Seq<FileChangeView>,
    import_only: Seq<bool>,
    n: int,
    at: CommitId,
    time: i64,
)
    requires
        symbols_say(w),
        0 <= n,
    ensures
        symbols_say(walk::changes_applied(w, s, import_only, n, at, time)),
    decreases n,
{
    if n > 0 {
        lemma_changes_say(w, s, import_only, n - 1, at, time);
        lemma_change_says(
            walk::changes_applied(w, s, import_only, n - 1, at, time),
            s[n - 1],
            import_only[n - 1],
            at,
            time,
        );
    }
}

proof fn lemma_detached_alike(w: WalkView, s: Seq<FileChangeView>)
    ensures
        ({
            let a = walk::detached(w, s);
            a == (WalkView { log: a.log, ..w })
        }),
    decreases s.len(),
{
    if s.len() > 0 {
        lemma_detached_alike(w, s.drop_last());
    }
}

proof fn lemma_configs_alike(w: WalkView, s: Seq<FileChangeView>, touched: Seq<(FileId, int)>, facts: Seq<FactsView>)
    ensures
        ({
            let c = walk::configs_read(w, s, touched, facts);
            c == (WalkView { go_module: c.go_module, rust_crates: c.rust_crates, ..w })
        }),
    decreases touched.len(),
{
    if touched.len() > 0 {
        lemma_configs_alike(w, s, touched.drop_last(), facts);
    }
}

pub proof fn lemma_say_alike(a: WalkView, b: WalkView)
    requires
        symbols_say(a),
        a.symbols == b.symbols,
        a.defs == b.defs,
    ensures
        symbols_say(b),
{
    assert forall|n: Seq<char>, f: FileId| #[trigger] tables::definers(b.symbols, n).contains(f) <==> walk::defs_of(
        b,
        f,
    ).contains(n) by {
        assert(tables::definers(a.symbols, n).contains(f) <==> walk::defs_of(a, f).contains(n));
    }
}

// ---- laws ----

/// A parse result was had for a change: the cached one before a fresh one.
pub open spec fn had_parse(f: FactsView, p: ParsedView) -> bool {
    f.cached == Some(p) || (f.cached is None && f.fresh == Some(p))
}

/// Law: a walk that has seen nothing has no symbols to mix up.
pub proof fn nothing_says_nothing()
    ensures
        symbols_say(walk::nothing_walked()),
{
}

/// Law: behind a commit every file that it added, modified or renamed has been
/// read at the path it has now. The edges out of it are exactly those that its
/// parse result has there, and the names that lead to it exactly those that it
/// defines. What is no longer said is closed, and what is newly said is open.
pub proof fn changed_files_are_read(
    old: Set<Seq<char>>,
    new: Set<Seq<char>>,
    w: WalkView,
    at: CommitId,
    time: i64,
    diff: Seq<FileChangeView>,
    import_only: Seq<bool>,
    facts: Seq<FactsView>,
    s: Sheet,
    k: int,
    p: ParsedView,
)
    requires
        tree::is_diff(old, new, diff),
        w.live.dom() == tree::followed(old),
        resume::agrees(s, w),
        symbols_say(w),
        i64::MIN <= w.next_file,
        w.next_file + changes::normalized(diff).len() <= i64::MAX,
        changes::normalized(diff).len() <= import_only.len(),
        0 <= k < changes::normalized(diff).len(),
        !(changes::normalized(diff)[k].change is Deleted),
        changes::normalized(diff)[k].new_blob matches Some(oid) && exists|i: int| 0 <= i < oid.len() && oid[i] != 0,
        forall|j: int|
            0 <= j < k ==> (#[trigger] changes::normalized(diff)[j]).change.path() != changes::normalized(
                diff,
            )[k].change.path(),
        had_parse(facts[k], p),
        lang::lang_at(changes::normalized(diff)[k].change.path()) is Some,
    ensures
        ({
            let n = walk::commit_applied(w, at, time, changes::normalized(diff), import_only, facts);
            let path = changes::normalized(diff)[k].change.path();
            &&& n.live.contains_key(path)
            &&& edges_read(n, n.live[path], lang::lang_at(path)->0, path, p)
            &&& names_read(n, n.live[path], p)
        }),
{
    let ch = changes::normalized(diff);
    let (o, t) = (tree::followed(old), tree::followed(new));
    let len = ch.len() as int;
    let path = ch[k].change.path();
    let a = walk::detached(w, ch);
    let b = walk::changes_applied(a, ch, import_only, len, at, time);
    let touched = walk::files_touched(a, ch, import_only, len, at, time);
    let c = walk::configs_read(b, ch, touched, facts);
    let jobs = walk::parse_jobs(c.lang_of, ch, touched);
    let order = walk::parse_order(jobs, facts);
    let d = walk::all_symbols_updated(c, order, facts, at);
    let n = walk::commit_applied(w, at, time, ch, import_only, facts);
    assert(walk::least(len, import_only.len() as int) == len);
    assert(n == walk::all_linked(d, order, walk::change_paths(ch), facts, at));
    tree::normalizing_keeps_diffs(old, new, diff);
    tree::diffs_leave_room(old, new, w, diff);
    resume::store_keeps_names_and_languages(w, at, time, ch, import_only, facts, s);
    lemma_detached_alike(w, ch);
    lemma_touch_lands(o, t, a, ch, import_only, k, len, at, time);
    let id = b.live[path];
    lemma_touched_list(a, ch, import_only, len, at, time);
    assert(touched.contains((id, k)));
    let i = touched.index_of((id, k));
    lemma_configs_alike(b, ch, touched, facts);
    lemma_say_alike(w, a);
    lemma_changes_say(a, ch, import_only, len, at, time);
    lemma_say_alike(b, c);
    lemma_jobs(c.lang_of, ch, touched);
    lemma_order(jobs, facts);
    lemma_all_symbols(c, order, facts, at);
    lemma_linked_alike(d, order, walk::change_paths(ch), facts, at);
    assert(n.live == b.live);
    assert(n.lang_of == c.lang_of);
    assert(resume::speaks(n, n.live[path], lang::lang_at(path)));
    assert(laws::apart(n));
    assert forall|j: int| 0 <= j < i implies (#[trigger] touched[j]).0 != touched[i].0 by {
        let kj = touched[j].1;
        assert(touched[j].1 < touched[i].1);
        lemma_touch_lands(o, t, a, ch, import_only, kj, len, at, time);
        assert(ch[kj].change.path() != path);
        assert(touched[j].0 == b.live[ch[kj].change.path()]);
        assert(n.live[ch[kj].change.path()] != n.live[path]);
    }
    assert(walk::real_blob(ch[k].new_blob->0));
    assert(first_touch(c.lang_of, ch, touched, i));
    assert(jobs.contains(touched[i]));
    assert(order.contains((id, k)));
    let m = order.index_of((id, k));
    assert(order[m] == (id, k));
    lemma_linked(d, order, walk::change_paths(ch), facts, at, m);
    assert(walk::change_paths(ch)[k] == path);
    assert(walk::parse_of(facts[k]) == p);
    assert(walk::defs_of(d, id) == names::sorted_names(walk::def_names(p.defs)));
    assert forall|x: Seq<char>| #[trigger] tables::definers(n.symbols, x).contains(id) <==> has_def(p.defs, x) by {
        assert(tables::definers(d.symbols, x).contains(id) <==> walk::defs_of(d, id).contains(x));
        lemma_names_of(p.defs, x);
    }
}

/// Law: the table of symbols says what each file defines, before a commit and
/// behind it.
pub proof fn commit_keeps_symbols(
    w: WalkView,
    at: CommitId,
    time: i64,
    s: Seq<FileChangeView>,
    import_only: Seq<bool>,
    facts: Seq<FactsView>,
)
    requires
        symbols_say(w),
    ensures
        symbols_say(walk::commit_applied(w, at, time, s, import_only, facts)),
{
    let len = walk::least(s.len() as int, import_only.len() as int);
    let a = walk::detached(w, s);
    let b = walk::changes_applied(a, s, import_only, len, at, time);
    let touched = walk::files_touched(a, s, import_only, len, at, time);
    let c = walk::configs_read(b, s, touched, facts);
    let jobs = walk::parse_jobs(c.lang_of, s, touched);
    let order = walk::parse_order(jobs, facts);
    let d = walk::all_symbols_updated(c, order, facts, at);
    lemma_detached_alike(w, s);
    lemma_say_alike(w, a);
    lemma_changes_say(a, s, import_only, len, at, time);
    lemma_configs_alike(b, s, touched, facts);
    lemma_say_alike(b, c);
    lemma_jobs(c.lang_of, s, touched);
    lemma_order(jobs, facts);
    lemma_all_symbols(c, order, facts, at);
    lemma_linked_alike(d, order, walk::change_paths(s), facts, at);
    lemma_say_alike(d, walk::all_linked(d, order, walk::change_paths(s), facts, at));
}

/// What stays at its path is the same file, and edges between two such files
/// are as they were.
proof fn lemma_stays(
    old: Set<Seq<char>>,
    new: Set<Seq<char>>,
    a: WalkView,
    s: Seq<FileChangeView>,
    import_only: Seq<bool>,
    n: int,
    at: CommitId,
    time: i64,
    p: Seq<char>,
    q: Seq<char>,
)
    requires
        tree::is_diff(old, new, s),
        a.live.dom() == old,
        rest::at_rest(a),
        i64::MIN <= a.next_file,
        a.next_file + n <= i64::MAX,
        0 <= n <= s.len(),
        old.contains(p) && new.contains(p),
        old.contains(q) && new.contains(q),
    ensures
        ({
            let x = walk::changes_applied(a, s, import_only, n, at, time);
            &&& rest::at_rest(x)
            &&& x.next_file <= a.next_file + n
            &&& a.next_file <= x.next_file
            &&& x.live.contains_key(p) && x.live[p] == a.live[p]
            &&& x.live.contains_key(q) && x.live[q] == a.live[q]
            &&& forall|e: EdgeKey|
                e.src == a.live[p] && e.dst == a.live[q] ==> (#[trigger] x.open.contains(e) <==> a.open.contains(e))
        }),
    decreases n,
{
    assert(a.live.dom().contains(p) && a.live.dom().contains(q));
    if n > 0 {
        lemma_stays(old, new, a, s, import_only, n - 1, at, time, p, q);
        let b = walk::changes_applied(a, s, import_only, n - 1, at, time);
        let x = walk::changes_applied(a, s, import_only, n, at, time);
        let c = s[n - 1];
        rest::change_keeps_rest(b, c, import_only[n - 1], at, time);
        assert(tree::tells(old, new, c.change));
        assert forall|e: EdgeKey| e.src == a.live[p] && e.dst == a.live[q] implies (#[trigger] x.open.contains(e)
            <==> b.open.contains(e)) by {
            match c.change {
                ChangeView::Deleted { path } => {
                    if b.live.contains_key(path) {
                        assert(path != p && path != q);
                        assert(b.live[path] != b.live[p] && b.live[path] != b.live[q]);
                    }
                },
                ChangeView::Renamed { from, to } => {
                    if !b.live.contains_key(from) {
                        lemma_added_stays(b, to, c.new_blob, at, time, q, e);
                    }
                },
                ChangeView::Modified { path } => {
                    if !b.live.contains_key(path) {
                        lemma_added_stays(b, path, c.new_blob, at, time, q, e);
                    }
                },
                ChangeView::Added { path } => {
                    lemma_added_stays(b, path, c.new_blob, at, time, q, e);
                },
            }
        }
    }
}

/// A file that comes back brings only edges into itself.
proof fn lemma_added_stays(
    b: WalkView,
    path: Seq<char>,
    blob: Option<Seq<u8>>,
    at: CommitId,
    time: i64,
    q: Seq<char>,
    e: EdgeKey,
)
    requires
        rest::at_rest(b),
        b.live.contains_key(q),
        e.dst == b.live[q],
    ensures
        walk::file_added(b, path, blob, at, time).open.contains(e) <==> b.open.contains(e),
{
    if walk::comes_back(b, path, blob, time) {
        let live = b.live.insert(path, b.dead[path].file);
        let keys = b.dead[path].closed_in;
        let f = |e: EdgeKey| live.contains_value(e.src);
        let back = walk::reopened(live, keys);
        assert(rest::keeps_ins(b.dead[path]));
        assert(b.live[q] != b.dead[path].file);
        if back.to_set().contains(e) {
            assert(back == keys.filter(f));
            keys.lemma_filter_contains_rev(f, e);
            let i = keys.index_of(e);
            assert(keys[i].dst == b.dead[path].file);
        }
    }
}

/// Law: a commit leaves alone what it does not touch. An edge out of a file
/// that it does not name, to a file that stays at its path, is open behind it
/// exactly where it was before.
pub proof fn untouched_edges_stay(
    old: Set<Seq<char>>,
    new: Set<Seq<char>>,
    w: WalkView,
    at: CommitId,
    time: i64,
    diff: Seq<FileChangeView>,
    import_only: Seq<bool>,
    facts: Seq<FactsView>,
    p: Seq<char>,
    q: Seq<char>,
    e: EdgeKey,
)
    requires
        tree::is_diff(old, new, diff),
        w.live.dom() == tree::followed(old),
        rest::at_rest(w),
        i64::MIN <= w.next_file,
        w.next_file + changes::normalized(diff).len() <= i64::MAX,
        changes::normalized(diff).len() <= import_only.len(),
        tree::followed(old).contains(p) && tree::followed(new).contains(p),
        tree::followed(old).contains(q) && tree::followed(new).contains(q),
        forall|k: int|
            0 <= k < changes::normalized(diff).len() ==> (#[trigger] changes::normalized(diff)[k]).change.path() != p,
        e.src == w.live[p],
        e.dst == w.live[q],
    ensures
        walk::commit_applied(w, at, time, changes::normalized(diff), import_only, facts).open.contains(e)
            <==> w.open.contains(e),
{
    let ch = changes::normalized(diff);
    let (o, t) = (tree::followed(old), tree::followed(new));
    let len = ch.len() as int;
    let a = walk::detached(w, ch);
    let b = walk::changes_applied(a, ch, import_only, len, at, time);
    let touched = walk::files_touched(a, ch, import_only, len, at, time);
    let c = walk::configs_read(b, ch, touched, facts);
    let jobs = walk::parse_jobs(c.lang_of, ch, touched);
    let order = walk::parse_order(jobs, facts);
    let d = walk::all_symbols_updated(c, order, facts, at);
    assert(walk::least(len, import_only.len() as int) == len);
    tree::normalizing_keeps_diffs(old, new, diff);
    lemma_detached_alike(w, ch);
    rest::lemma_detached_rests(w, ch);
    lemma_stays(o, t, a, ch, import_only, len, at, time, p, q);
    lemma_touched_list(a, ch, import_only, len, at, time);
    lemma_configs_alike(b, ch, touched, facts);
    lemma_jobs(c.lang_of, ch, touched);
    lemma_order(jobs, facts);
    lemma_open_kept(c, order, facts, at);
    assert forall|i: int| 0 <= i < order.len() implies (#[trigger] order[i]).0 != e.src by {
        assert(order.contains(order[i]));
        assert(jobs.contains(order[i]));
        assert(touched.contains(order[i]));
        let j = touched.index_of(order[i]);
        let k = touched[j].1;
        lemma_touch_lands(o, t, a, ch, import_only, k, len, at, time);
        assert(ch[k].change.path() != p);
        assert(b.live[ch[k].change.path()] != b.live[p]);
    }
    lemma_linked_others(d, order, walk::change_paths(ch), facts, at, e.src);
}

proof fn lemma_open_kept(w: WalkView, order: Seq<(FileId, int)>, facts: Seq<FactsView>, at: CommitId)
    ensures
        walk::all_symbols_updated(w, order, facts, at).open == w.open,
    decreases order.len(),
{
    if order.len() > 0 {
        lemma_open_kept(w, order.drop_last(), facts, at);
    }
}

// ---- touches ----

/// The later log holds the earlier one.
spec fn log_grows(a: WalkView, b: WalkView) -> bool {
    a.log.is_prefix_of(b.log)
}

proof fn lemma_log_held(a: WalkView, b: WalkView, op: OpView)
    requires
        log_grows(a, b),
        a.log.contains(op),
    ensures
        b.log.contains(op),
{
    let i = a.log.index_of(op);
    assert(b.log[i] == a.log[i]);
}

proof fn lemma_change_grows(w: WalkView, c: FileChangeView, import_only: bool, at: CommitId, time: i64)
    ensures
        log_grows(w, walk::change_applied(w, c, import_only, at, time)),
{
}

proof fn lemma_changes_grow(
    w: WalkView,
    s: Seq<FileChangeView>,
    import_only: Seq<bool>,
    k: int,
    n: int,
    at: CommitId,
    time: i64,
)
    requires
        0 <= k <= n,
    ensures
        log_grows(
            walk::changes_applied(w, s, import_only, k, at, time),
            walk::changes_applied(w, s, import_only, n, at, time),
        ),
    decreases n - k,
{
    if k < n {
        lemma_changes_grow(w, s, import_only, k, n - 1, at, time);
        lemma_change_grows(
            walk::changes_applied(w, s, import_only, n - 1, at, time),
            s[n - 1],
            import_only[n - 1],
            at,
            time,
        );
    }
}

proof fn lemma_symbols_grow(w: WalkView, order: Seq<(FileId, int)>, facts: Seq<FactsView>, at: CommitId)
    ensures
        log_grows(w, walk::all_symbols_updated(w, order, facts, at)),
    decreases order.len(),
{
    if order.len() > 0 {
        lemma_symbols_grow(w, order.drop_last(), facts, at);
    }
}

proof fn lemma_links_grow(
    w: WalkView,
    order: Seq<(FileId, int)>,
    paths: Seq<Seq<char>>,
    facts: Seq<FactsView>,
    at: CommitId,
)
    ensures
        log_grows(w, walk::all_linked(w, order, paths, facts, at)),
    decreases order.len(),
{
    if order.len() > 0 {
        lemma_links_grow(w, order.drop_last(), paths, facts, at);
    }
}

/// What a change is recorded as.
pub open spec fn kind_recorded(c: ChangeView) -> ChangeKind {
    match c {
        ChangeView::Added { .. } => ChangeKind::Added,
        ChangeView::Modified { .. } => ChangeKind::Modified,
        ChangeView::Deleted { .. } => ChangeKind::Deleted,
        ChangeView::Renamed { .. } => ChangeKind::Renamed,
    }
}

/// Law: every change of a commit is recorded as a touch of its file, in that
/// commit, with its lines: of the file that has the path behind the commit, or
/// had it before where the change deletes it.
pub proof fn changes_are_recorded(
    old: Set<Seq<char>>,
    new: Set<Seq<char>>,
    w: WalkView,
    at: CommitId,
    time: i64,
    diff: Seq<FileChangeView>,
    import_only: Seq<bool>,
    facts: Seq<FactsView>,
    k: int,
)
    requires
        tree::is_diff(old, new, diff),
        w.live.dom() == tree::followed(old),
        changes::normalized(diff).len() <= import_only.len(),
        0 <= k < changes::normalized(diff).len(),
    ensures
        ({
            let n = walk::commit_applied(w, at, time, changes::normalized(diff), import_only, facts);
            let c = changes::normalized(diff)[k];
            let path = c.change.path();
            n.log.contains(
                OpView::Touch {
                    commit: at,
                    file: if c.change is Deleted { w.live[path] } else { n.live[path] },
                    change: kind_recorded(c.change),
                    blob: if c.change is Deleted { None } else { c.new_blob },
                    lines_added: c.lines_added,
                    lines_removed: c.lines_removed,
                    import_only: import_only[k],
                },
            )
        }),
{
    let ch = changes::normalized(diff);
    let (o, t) = (tree::followed(old), tree::followed(new));
    let len = ch.len() as int;
    let path = ch[k].change.path();
    let a = walk::detached(w, ch);
    let x = walk::changes_applied(a, ch, import_only, k, at, time);
    let y = walk::changes_applied(a, ch, import_only, k + 1, at, time);
    let b = walk::changes_applied(a, ch, import_only, len, at, time);
    let touched = walk::files_touched(a, ch, import_only, len, at, time);
    let c = walk::configs_read(b, ch, touched, facts);
    let jobs = walk::parse_jobs(c.lang_of, ch, touched);
    let order = walk::parse_order(jobs, facts);
    let d = walk::all_symbols_updated(c, order, facts, at);
    let n = walk::commit_applied(w, at, time, ch, import_only, facts);
    assert(walk::least(len, import_only.len() as int) == len);
    tree::normalizing_keeps_diffs(old, new, diff);
    lemma_detached_alike(w, ch);
    lemma_configs_alike(b, ch, touched, facts);
    laws::lemma_commit_files(w, at, time, ch, import_only, facts);
    lemma_waits(o, t, a, ch, import_only, k, at, time);
    let op = y.log.last();
    if !(ch[k].change is Deleted) {
        lemma_touch_lands(o, t, a, ch, import_only, k, len, at, time);
    }
    assert(tree::tells(o, t, ch[k].change));
    assert(y.log[y.log.len() - 1] == op);
    lemma_changes_grow(a, ch, import_only, k + 1, len, at, time);
    lemma_symbols_grow(c, order, facts, at);
    lemma_links_grow(d, order, walk::change_paths(ch), facts, at);
    lemma_log_held(y, b, op);
    lemma_log_held(c, d, op);
    lemma_log_held(d, n, op);
}

/// A file that a change is about to leave or modify is still at its path.
proof fn lemma_waits(
    old: Set<Seq<char>>,
    new: Set<Seq<char>>,
    a: WalkView,
    s: Seq<FileChangeView>,
    import_only: Seq<bool>,
    k: int,
    at: CommitId,
    time: i64,
)
    requires
        tree::is_diff(old, new, s),
        a.live.dom() == old,
        0 <= k < s.len(),
    ensures
        ({
            let x = walk::changes_applied(a, s, import_only, k, at, time);
            let p = match s[k].change {
                ChangeView::Added { path } => None,
                ChangeView::Modified { path } => Some(path),
                ChangeView::Deleted { path } => Some(path),
                ChangeView::Renamed { from, to } => Some(from),
            };
            p matches Some(p) ==> x.live.contains_key(p) && x.live[p] == a.live[p]
        }),
{
    lemma_waits_until(old, new, a, s, import_only, k, k, at, time);
}

proof fn lemma_waits_until(
    old: Set<Seq<char>>,
    new: Set<Seq<char>>,
    a: WalkView,
    s: Seq<FileChangeView>,
    import_only: Seq<bool>,
    k: int,
    m: int,
    at: CommitId,
    time: i64,
)
    requires
        tree::is_diff(old, new, s),
        a.live.dom() == old,
        0 <= k < s.len(),
        0 <= m <= k,
    ensures
        ({
            let x = walk::changes_applied(a, s, import_only, m, at, time);
            let p = match s[k].change {
                ChangeView::Added { path } => None,
                ChangeView::Modified { path } => Some(path),
                ChangeView::Deleted { path } => Some(path),
                ChangeView::Renamed { from, to } => Some(from),
            };
            p matches Some(p) ==> x.live.contains_key(p) && x.live[p] == a.live[p]
        }),
    decreases m,
{
    assert(tree::tells(old, new, s[k].change));
    match s[k].change {
        ChangeView::Added { path } => {},
        ChangeView::Modified { path } => {
            assert(a.live.dom().contains(path));
        },
        ChangeView::Deleted { path } => {
            assert(a.live.dom().contains(path));
        },
        ChangeView::Renamed { from, to } => {
            assert(a.live.dom().contains(from));
        },
    }
    if m > 0 {
        lemma_waits_until(old, new, a, s, import_only, k, m - 1, at, time);
        assert(tree::tells(old, new, s[m - 1].change));
        assert(tree::separate(s[m - 1].change, s[k].change));
        assert(tree::separate(s[k].change, s[m - 1].change));
    }
}

} // verus!
