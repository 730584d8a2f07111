//! Deleted files are at rest: nothing open leads to or from them, they define
//! nothing and have no language, until they come back.

use crate::model::{CommitId, FileId, Resolution};
use crate::names;
use crate::open_edges::EdgeKey;
use crate::open_edges;
use crate::parsed::ParsedView;
use crate::resolve;
use crate::tables;
use crate::vcs::FileChangeView;
use crate::vcs;
use crate::walk::laws;
use crate::walk::{DeadView, FactsView, WalkView};
use crate::walk;
use vstd::prelude::*;

verus! {

/// Nothing of a walk speaks of a file.
pub open spec fn quiet(w: WalkView, f: FileId) -> bool {
    &&& !w.lang_of.contains_key(f.0)
    &&& forall|e: EdgeKey| #[trigger] w.open.contains(e) ==> e.src != f && e.dst != f
    &&& forall|n: Seq<char>| !(#[trigger] tables::definers(w.symbols, n).contains(f))
}

/// What a deleted file keeps are edges into it from other files.
pub open spec fn keeps_ins(d: DeadView) -> bool {
    forall|i: int| 0 <= i < d.closed_in.len() ==> (#[trigger] d.closed_in[i]).dst == d.file && d.closed_in[i].src != d.file
}

/// A walk in which deleted files are at rest, and whose tables agree.
pub open spec fn at_rest(w: WalkView) -> bool {
    &&& laws::apart(w)
    &&& tables::entries_agree(w.order, w.live)
    &&& w.open.finite()
    &&& forall|n: Seq<char>, f: FileId| #[trigger]
        tables::definers(w.symbols, n).contains(f) ==> walk::defs_of(w, f).contains(n)
    &&& forall|p: Seq<char>| #[trigger] w.dead.contains_key(p) ==> quiet(w, w.dead[p].file) && keeps_ins(w.dead[p])
}

/// Law: a walk that has seen nothing is at rest.
pub proof fn nothing_is_at_rest()
    ensures
        at_rest(walk::nothing_walked()),
{
}

// ---- symbols ----

pub proof fn lemma_definers_dropped(m: Map<Seq<char>, Set<FileId>>, s: Seq<Seq<char>>, id: FileId)
    ensures
        forall|n: Seq<char>, f: FileId| #[trigger]
            tables::definers(walk::names_dropped(m, s, id), n).contains(f) <==> tables::definers(m, n).contains(f) && !(f
                == id && s.contains(n)),
    decreases s.len(),
{
    if s.len() > 0 {
        let d = s.drop_last();
        lemma_definers_dropped(m, d, id);
        let b = walk::names_dropped(m, d, id);
        let r = walk::names_dropped(m, s, id);
        assert forall|n: Seq<char>, f: FileId| #[trigger] tables::definers(r, n).contains(f) <==> tables::definers(
            m,
            n,
        ).contains(f) && !(f == id && s.contains(n)) by {
            assert(tables::definers(b, n).contains(f) <==> tables::definers(m, n).contains(f) && !(f == id
                && d.contains(n)));
            if d.contains(n) {
                assert(s[d.index_of(n)] == n);
            }
            if n == s.last() {
                assert(s[s.len() - 1] == n);
                if b.contains_key(n) {
                    if b[n].remove(id) == Set::<FileId>::empty() {
                        assert(!b[n].remove(id).contains(f));
                    }
                }
            } else if s.contains(n) {
                let k = s.index_of(n);
                assert(d[k] == n);
            }
        }
    }
}

pub proof fn lemma_definers_added(m: Map<Seq<char>, Set<FileId>>, s: Seq<Seq<char>>, id: FileId)
    ensures
        forall|n: Seq<char>, f: FileId| #[trigger]
            tables::definers(walk::names_added(m, s, id), n).contains(f) <==> tables::definers(m, n).contains(f) || (f
                == id && s.contains(n)),
    decreases s.len(),
{
    if s.len() > 0 {
        let d = s.drop_last();
        lemma_definers_added(m, d, id);
        let b = walk::names_added(m, d, id);
        let r = walk::names_added(m, s, id);
        assert forall|n: Seq<char>, f: FileId| #[trigger] tables::definers(r, n).contains(f) <==> tables::definers(
            m,
            n,
        ).contains(f) || (f == id && s.contains(n)) by {
            assert(tables::definers(b, n).contains(f) <==> tables::definers(m, n).contains(f) || (f == id
                && d.contains(n)));
            if d.contains(n) {
                assert(s[d.index_of(n)] == n);
            }
            if n == s.last() {
                assert(s[s.len() - 1] == n);
            } else if s.contains(n) {
                let k = s.index_of(n);
                assert(d[k] == n);
            }
        }
    }
}

// ---- changes ----

proof fn lemma_gone_rests(w: WalkView, path: Seq<char>, blob: Option<Seq<u8>>, at: CommitId, time: i64)
    requires
        at_rest(w),
        w.live.contains_key(path),
    ensures
        at_rest(walk::file_gone(w, path, blob, at, time)),
{
    let n = walk::file_gone(w, path, blob, at, time);
    let id = w.live[path];
    let ins = open_edges::into(w.open, id);
    laws::gone_keeps_identities(w, path, blob, at, time);
    tables::lemma_drop_agrees(w.order, w.live, path);
    lemma_definers_dropped(w.symbols, walk::defs_of(w, id), id);
    open_edges::lemma_ordered(ins);
    assert forall|x: Seq<char>, f: FileId| #[trigger] tables::definers(n.symbols, x).contains(f) implies walk::defs_of(
        n,
        f,
    ).contains(x) by {
        assert(tables::definers(w.symbols, x).contains(f));
        assert(walk::defs_of(w, f).contains(x));
        assert(f != id);
        assert(f.0 != id.0);
    }
    assert forall|p: Seq<char>| #[trigger] n.dead.contains_key(p) implies quiet(n, n.dead[p].file) && keeps_ins(
        n.dead[p],
    ) by {
        if p == path {
            assert forall|x: Seq<char>| !(#[trigger] tables::definers(n.symbols, x).contains(id)) by {
                if tables::definers(w.symbols, x).contains(id) {
                    assert(walk::defs_of(w, id).contains(x));
                }
            }
            let c = n.dead[p].closed_in;
            assert forall|i: int| 0 <= i < c.len() implies (#[trigger] c[i]).dst == id && c[i].src != id by {
                assert(c.to_set().contains(c[i]));
                assert(ins.contains(c[i]));
            }
        } else {
            let f = w.dead[p].file;
            assert(w.dead.contains_key(p) && quiet(w, f));
            assert forall|x: Seq<char>| !(#[trigger] tables::definers(n.symbols, x).contains(f)) by {
                assert(!tables::definers(w.symbols, x).contains(f));
            }
        }
    }
}

proof fn lemma_added_rests(w: WalkView, path: Seq<char>, blob: Option<Seq<u8>>, at: CommitId, time: i64)
    requires
        at_rest(w),
        i64::MIN <= w.next_file < i64::MAX,
    ensures
        at_rest(walk::file_added(w, path, blob, at, time)),
{
    let n = walk::file_added(w, path, blob, at, time);
    let id = walk::added_id(w, path, blob, time);
    laws::adding_keeps_identities(w, path, blob, at, time);
    tables::lemma_put_agrees(w.order, w.live, path, id);
    assert forall|x: Seq<char>, f: FileId| #[trigger] tables::definers(n.symbols, x).contains(f) implies walk::defs_of(
        n,
        f,
    ).contains(x) by {
        assert(tables::definers(w.symbols, x).contains(f));
    }
    let back = walk::comes_back(w, path, blob, time);
    let edges = walk::reopened(n.live, w.dead[path].closed_in);
    if back {
        vstd::seq_lib::seq_to_set_is_finite(edges);
    }
    assert forall|p: Seq<char>| #[trigger] n.dead.contains_key(p) implies quiet(n, n.dead[p].file) && keeps_ins(
        n.dead[p],
    ) by {
        let f = w.dead[p].file;
        assert(w.dead.contains_key(p) && quiet(w, f));
        assert(f.0 != id.0) by {
            if back {
                assert(p != path);
                assert(w.dead[p].file != w.dead[path].file);
            } else {
                assert(w.dead[p].file.0 < w.next_file);
            }
        }
        assert forall|x: Seq<char>| !(#[trigger] tables::definers(n.symbols, x).contains(f)) by {
            assert(!tables::definers(w.symbols, x).contains(f));
        }
        assert forall|e: EdgeKey| #[trigger] n.open.contains(e) implies e.src != f && e.dst != f by {
            if !w.open.contains(e) {
                assert(back);
                assert(edges.to_set().contains(e));
                let g = |x: EdgeKey| n.live.contains_value(x.src);
                w.dead[path].closed_in.lemma_filter_contains_rev(g, e);
                let k = w.dead[path].closed_in.index_of(e);
                assert(keeps_ins(w.dead[path]));
                assert(w.dead[path].closed_in[k] == e);
                let j = edges.index_of(e);
                w.dead[path].closed_in.lemma_filter_pred(g, j);
                let q = choose|q: Seq<char>| #[trigger] n.live.contains_key(q) && n.live[q] == e.src;
                assert(q != path);
                assert(w.live.contains_key(q) && w.live[q] == e.src);
                assert(w.live[q] != w.dead[p].file);
            }
        }
    }
}

proof fn lemma_renamed_rests(w: WalkView, from: Seq<char>, to: Seq<char>, at: CommitId, confidence: u8)
    requires
        at_rest(w),
        w.live.contains_key(from),
    ensures
        at_rest(walk::file_renamed(w, from, to, at, confidence)),
{
    let n = walk::file_renamed(w, from, to, at, confidence);
    let id = w.live[from];
    laws::renaming_keeps_identities(w, from, to, at, confidence);
    tables::lemma_drop_agrees(w.order, w.live, from);
    tables::lemma_put_agrees(tables::entry_drop(w.order, from), w.live.remove(from), to, id);
    assert forall|x: Seq<char>, f: FileId| #[trigger] tables::definers(n.symbols, x).contains(f) implies walk::defs_of(
        n,
        f,
    ).contains(x) by {
        assert(tables::definers(w.symbols, x).contains(f));
    }
    assert forall|p: Seq<char>| #[trigger] n.dead.contains_key(p) implies quiet(n, n.dead[p].file) && keeps_ins(
        n.dead[p],
    ) by {
        let f = w.dead[p].file;
        assert(w.dead.contains_key(p) && quiet(w, f));
        assert(w.live[from] != w.dead[p].file);
        assert(f.0 != id.0);
        assert forall|x: Seq<char>| !(#[trigger] tables::definers(n.symbols, x).contains(f)) by {
            assert(!tables::definers(w.symbols, x).contains(f));
        }
    }
}

/// A walk that only logs stays at rest.
proof fn lemma_logged_rests(w: WalkView, n: WalkView)
    requires
        at_rest(w),
        n == (WalkView { log: n.log, ..w }),
    ensures
        at_rest(n),
{
    assert forall|x: Seq<char>, f: FileId| #[trigger] tables::definers(n.symbols, x).contains(f) implies walk::defs_of(
        n,
        f,
    ).contains(x) by {
        assert(tables::definers(w.symbols, x).contains(f));
    }
    assert forall|p: Seq<char>| #[trigger] n.dead.contains_key(p) implies quiet(n, n.dead[p].file) && keeps_ins(
        n.dead[p],
    ) by {
        assert(w.dead.contains_key(p) && quiet(w, w.dead[p].file));
    }
}

/// Law: a change leaves deleted files at rest.
pub proof fn change_keeps_rest(w: WalkView, c: FileChangeView, import_only: bool, at: CommitId, time: i64)
    requires
        at_rest(w),
        i64::MIN <= w.next_file < i64::MAX,
    ensures
        at_rest(walk::change_applied(w, c, import_only, at, time)),
{
    let n = walk::change_applied(w, c, import_only, at, time);
    let b = match c.change {
        vcs::ChangeView::Deleted { path } => if w.live.contains_key(path) {
            lemma_gone_rests(w, path, c.old_blob, at, time);
            walk::file_gone(w, path, c.old_blob, at, time)
        } else {
            w
        },
        vcs::ChangeView::Renamed { from, to } => if w.live.contains_key(from) {
            lemma_renamed_rests(w, from, to, at, c.confidence);
            walk::file_renamed(w, from, to, at, c.confidence)
        } else {
            lemma_added_rests(w, to, c.new_blob, at, time);
            walk::file_added(w, to, c.new_blob, at, time)
        },
        vcs::ChangeView::Modified { path } => if w.live.contains_key(path) {
            w
        } else {
            lemma_added_rests(w, path, c.new_blob, at, time);
            walk::file_added(w, path, c.new_blob, at, time)
        },
        vcs::ChangeView::Added { path } => {
            lemma_added_rests(w, path, c.new_blob, at, time);
            walk::file_added(w, path, c.new_blob, at, time)
        },
    };
    lemma_logged_rests(b, n);
}

proof fn lemma_changes_rest(
    w: WalkView,
    changes: Seq<FileChangeView>,
    import_only: Seq<bool>,
    n: int,
    at: CommitId,
    time: i64,
)
    requires
        at_rest(w),
        0 <= n,
        i64::MIN <= w.next_file,
        w.next_file + n <= i64::MAX,
    ensures
        at_rest(walk::changes_applied(w, changes, import_only, n, at, time)),
        w.next_file <= walk::changes_applied(w, changes, import_only, n, at, time).next_file <= w.next_file + n,
    decreases n,
{
    if n > 0 {
        lemma_changes_rest(w, changes, import_only, n - 1, at, time);
        let b = walk::changes_applied(w, changes, import_only, n - 1, at, time);
        change_keeps_rest(b, changes[n - 1], import_only[n - 1], at, time);
    }
}

pub proof fn lemma_detached_rests(w: WalkView, changes: Seq<FileChangeView>)
    requires
        at_rest(w),
    ensures
        at_rest(walk::detached(w, changes)),
        walk::detached(w, changes).next_file == w.next_file,
    decreases changes.len(),
{
    if changes.len() > 0 {
        let b = walk::detached(w, changes.drop_last());
        lemma_detached_rests(w, changes.drop_last());
        lemma_logged_rests(b, walk::detached(w, changes));
    }
}

/// A walk that only reads config files stays at rest.
proof fn lemma_configs_rest(
    w: WalkView,
    changes: Seq<FileChangeView>,
    touched: Seq<(FileId, int)>,
    facts: Seq<FactsView>,
)
    requires
        at_rest(w),
    ensures
        at_rest(walk::configs_read(w, changes, touched, facts)),
    decreases touched.len(),
{
    if touched.len() > 0 {
        let b = walk::configs_read(w, changes, touched.drop_last(), facts);
        let n = walk::configs_read(w, changes, touched, facts);
        lemma_configs_rest(w, changes, touched.drop_last(), facts);
        assert forall|x: Seq<char>, f: FileId| #[trigger]
            tables::definers(n.symbols, x).contains(f) implies walk::defs_of(n, f).contains(x) by {
            assert(tables::definers(b.symbols, x).contains(f));
        }
        assert forall|p: Seq<char>| #[trigger] n.dead.contains_key(p) implies quiet(n, n.dead[p].file) && keeps_ins(
            n.dead[p],
        ) by {
            assert(b.dead.contains_key(p) && quiet(b, b.dead[p].file));
        }
    }
}

// ---- symbols and edges ----

proof fn lemma_symbols_rest(w: WalkView, id: FileId, p: ParsedView, at: CommitId)
    requires
        at_rest(w),
        w.lang_of.contains_key(id.0),
    ensures
        at_rest(walk::symbols_updated(w, id, p, at)),
{
    let n = walk::symbols_updated(w, id, p, at);
    let now = names::sorted_names(walk::def_names(p.defs));
    let was = walk::defs_of(w, id);
    let gone = walk::names_less(was, now);
    let fresh = walk::names_less(now, was);
    let mid = walk::names_dropped(w.symbols, gone, id);
    lemma_definers_dropped(w.symbols, gone, id);
    lemma_definers_added(mid, fresh, id);
    assert forall|x: Seq<char>, f: FileId| #[trigger] tables::definers(n.symbols, x).contains(f) implies walk::defs_of(
        n,
        f,
    ).contains(x) by {
        assert(tables::definers(n.symbols, x).contains(f) <==> tables::definers(mid, x).contains(f) || (f == id
            && fresh.contains(x)));
        assert(tables::definers(mid, x).contains(f) <==> tables::definers(w.symbols, x).contains(f) && !(f == id
            && gone.contains(x)));
        if f == id {
            if fresh.contains(x) {
                now.lemma_filter_contains_rev(|y: Seq<char>| !was.contains(y), x);
            } else {
                assert(was.contains(x));
                if !now.contains(x) {
                    let k = was.index_of(x);
                    was.lemma_filter_contains(|y: Seq<char>| !now.contains(y), k);
                }
            }
        } else {
            assert(f.0 != id.0);
        }
    }
    assert forall|q: Seq<char>| #[trigger] n.dead.contains_key(q) implies quiet(n, n.dead[q].file) && keeps_ins(
        n.dead[q],
    ) by {
        let f = w.dead[q].file;
        assert(w.dead.contains_key(q) && quiet(w, f));
        assert forall|x: Seq<char>| !(#[trigger] tables::definers(n.symbols, x).contains(f)) by {
            assert(!tables::definers(w.symbols, x).contains(f));
            assert(!tables::definers(mid, x).contains(f));
        }
    }
}

/// A file that resolution knows is not dead.
proof fn lemma_known_alive(w: WalkView, t: FileId, p: Seq<char>)
    requires
        at_rest(w),
        resolve::known(walk::resolve_view(w), t),
        w.dead.contains_key(p),
    ensures
        t != w.dead[p].file,
{
    let ctx = walk::resolve_view(w);
    assert(quiet(w, w.dead[p].file));
    if ctx.live.contains_value(t) {
        let q = choose|q: Seq<char>| #[trigger] w.live.contains_key(q) && w.live[q] == t;
        assert(w.live[q] != w.dead[p].file);
    } else if resolve::has_entry(ctx.order, t) {
        let i = choose|i: int| 0 <= i < ctx.order.len() && (#[trigger] ctx.order[i]).1 == t;
        let q = w.order[i].0;
        assert(w.live.contains_key(q) && w.live[q] == t);
        assert(w.live[q] != w.dead[p].file);
    } else {
        let x = choose|x: Seq<char>| #[trigger] tables::definers(ctx.symbols, x).contains(t);
        assert(!tables::definers(w.symbols, x).contains(w.dead[p].file));
    }
}

proof fn lemma_linked_rests(w: WalkView, id: FileId, path: Seq<char>, p: ParsedView, at: CommitId)
    requires
        at_rest(w),
    ensures
        at_rest(walk::file_linked(w, id, path, p, at)),
{
    let n = walk::file_linked(w, id, path, p, at);
    if w.lang_of.contains_key(id.0) {
        let l = w.lang_of[id.0];
        let ctx = walk::resolve_view(w);
        let r = resolve::file_resolved(ctx, id, path, l, p);
        resolve::resolution_is_fair(ctx, id, path, l, p);
        laws::lemma_found_finite(id, r.edges);
        assert forall|x: Seq<char>, f: FileId| #[trigger]
            tables::definers(n.symbols, x).contains(f) implies walk::defs_of(n, f).contains(x) by {
            assert(tables::definers(w.symbols, x).contains(f));
        }
        assert forall|q: Seq<char>| #[trigger] n.dead.contains_key(q) implies quiet(n, n.dead[q].file) && keeps_ins(
            n.dead[q],
        ) by {
            let f = w.dead[q].file;
            assert(w.dead.contains_key(q) && quiet(w, f));
            assert(f.0 != id.0);
            assert forall|x: Seq<char>| !(#[trigger] tables::definers(n.symbols, x).contains(f)) by {
                assert(!tables::definers(w.symbols, x).contains(f));
            }
            assert forall|e: EdgeKey| #[trigger] n.open.contains(e) implies e.src != f && e.dst != f by {
                if !w.open.contains(e) {
                    let res = choose|res: Resolution| r.edges.contains((e.dst, e.kind, res));
                    assert(r.edges.contains((e.dst, e.kind, res)));
                    lemma_known_alive(w, e.dst, q);
                }
            }
        }
    }
}

/// Every file of a list has a language.
pub open spec fn all_spoken(w: WalkView, order: Seq<(FileId, int)>) -> bool {
    forall|i: int| 0 <= i < order.len() ==> w.lang_of.contains_key((#[trigger] order[i]).0.0)
}

proof fn lemma_all_symbols_rest(w: WalkView, order: Seq<(FileId, int)>, facts: Seq<FactsView>, at: CommitId)
    requires
        at_rest(w),
        all_spoken(w, order),
    ensures
        at_rest(walk::all_symbols_updated(w, order, facts, at)),
        walk::all_symbols_updated(w, order, facts, at).lang_of == w.lang_of,
    decreases order.len(),
{
    if order.len() > 0 {
        let d = order.drop_last();
        assert forall|i: int| 0 <= i < d.len() implies w.lang_of.contains_key((#[trigger] d[i]).0.0) by {
            assert(d[i] == order[i]);
        }
        lemma_all_symbols_rest(w, d, facts, at);
        let (id, i) = order.last();
        assert(order[order.len() - 1].0 == id);
        lemma_symbols_rest(walk::all_symbols_updated(w, d, facts, at), id, walk::parse_of(facts[i]), at);
    }
}

proof fn lemma_all_linked_rest(
    w: WalkView,
    order: Seq<(FileId, int)>,
    paths: Seq<Seq<char>>,
    facts: Seq<FactsView>,
    at: CommitId,
)
    requires
        at_rest(w),
    ensures
        at_rest(walk::all_linked(w, order, paths, facts, at)),
    decreases order.len(),
{
    if order.len() > 0 {
        lemma_all_linked_rest(w, order.drop_last(), paths, facts, at);
        let (id, i) = order.last();
        lemma_linked_rests(
            walk::all_linked(w, order.drop_last(), paths, facts, at),
            id,
            paths[i],
            walk::parse_of(facts[i]),
            at,
        );
    }
}

proof fn lemma_jobs_spoken(w: WalkView, changes: Seq<FileChangeView>, touched: Seq<(FileId, int)>)
    ensures
        all_spoken(w, walk::parse_jobs(w.lang_of, changes, touched)),
    decreases touched.len(),
{
    if touched.len() > 0 {
        lemma_jobs_spoken(w, changes, touched.drop_last());
        let b = walk::parse_jobs(w.lang_of, changes, touched.drop_last());
        let r = walk::parse_jobs(w.lang_of, changes, touched);
        assert forall|i: int| 0 <= i < r.len() implies w.lang_of.contains_key((#[trigger] r[i]).0.0) by {
            if i < b.len() {
                assert(r[i] == b[i]);
            }
        }
    }
}

proof fn lemma_order_spoken(w: WalkView, jobs: Seq<(FileId, int)>, facts: Seq<FactsView>)
    requires
        all_spoken(w, jobs),
    ensures
        all_spoken(w, walk::parse_order(jobs, facts)),
{
    let f = |j: (FileId, int)| facts[j.1].cached is Some;
    let g = |j: (FileId, int)| facts[j.1].cached is None && facts[j.1].fresh is Some;
    let r = walk::parse_order(jobs, facts);
    assert forall|i: int| 0 <= i < r.len() implies w.lang_of.contains_key((#[trigger] r[i]).0.0) by {
        let a = jobs.filter(f);
        let b = jobs.filter(g);
        if i < a.len() {
            assert(r[i] == a[i]);
            assert(a.contains(a[i]));
            jobs.lemma_filter_contains_rev(f, a[i]);
        } else {
            assert(r[i] == b[i - a.len()]);
            assert(b.contains(b[i - a.len()]));
            jobs.lemma_filter_contains_rev(g, b[i - a.len()]);
        }
        let k = jobs.index_of(r[i]);
        assert(jobs[k] == r[i]);
    }
}

/// Law: a commit leaves deleted files at rest, whatever it changes: no edge
/// to or from a deleted file is open, it defines no symbol and has no
/// language.
pub proof fn commit_keeps_rest(
    w: WalkView,
    at: CommitId,
    time: i64,
    changes: Seq<FileChangeView>,
    import_only: Seq<bool>,
    facts: Seq<FactsView>,
)
    requires
        at_rest(w),
        i64::MIN <= w.next_file,
        w.next_file + changes.len() <= i64::MAX,
    ensures
        at_rest(walk::commit_applied(w, at, time, changes, import_only, facts)),
{
    let n = walk::least(changes.len() as int, import_only.len() as int);
    let a = walk::detached(w, changes);
    let b = walk::changes_applied(a, changes, import_only, n, at, time);
    let touched = walk::files_touched(a, changes, import_only, n, at, time);
    let c = walk::configs_read(b, changes, touched, facts);
    let jobs = walk::parse_jobs(c.lang_of, changes, touched);
    let order = walk::parse_order(jobs, facts);
    lemma_detached_rests(w, changes);
    lemma_changes_rest(a, changes, import_only, n, at, time);
    lemma_configs_rest(b, changes, touched, facts);
    lemma_jobs_spoken(c, changes, touched);
    lemma_order_spoken(c, jobs, facts);
    lemma_all_symbols_rest(c, order, facts, at);
    lemma_all_linked_rest(
        walk::all_symbols_updated(c, order, facts, at),
        order,
        walk::change_paths(changes),
        facts,
        at,
    );
}

} // verus!
