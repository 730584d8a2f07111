//! What is written down where files go and come back, and what a tree brings
//! that was there before history.

use crate::classify;
use crate::lang;
use crate::model::{CommitId, FileId};
use crate::names;
use crate::open_edges::EdgeKey;
use crate::open_edges;
use crate::parsed::{DefView, ParsedView};
use crate::store_op::OpView;
use crate::tables;
use crate::vcs::{ChangeView, FileChangeView};
use crate::walk::link;
use crate::walk::seed::TreeFile;
use crate::walk::seed;
use crate::walk::{FactsView, WalkView};
use crate::walk;
use vstd::prelude::*;

verus! {

/// Law: a path is taken up again by the file that was deleted there where the
/// blob is the one it had, or where no more than ninety days have passed.
pub proof fn ninety_days_bring_back(w: WalkView, path: Seq<char>, blob: Option<Seq<u8>>, time: i64)
    ensures
        walk::comes_back(w, path, blob, time) <==> w.dead.contains_key(path) && ((blob is Some
            && w.dead[path].last_blob == blob) || time - w.dead[path].died_time <= 7_776_000),
        walk::comes_back(w, path, blob, time) ==> walk::added_id(w, path, blob, time) == w.dead[path].file,
        !walk::comes_back(w, path, blob, time) ==> walk::added_id(w, path, blob, time) == FileId(w.next_file as i64),
{
}

/// Law: where a file is deleted, it is written down that it died, that its
/// symbols closed, that every open edge out of it or into it closed, and that
/// it was touched. No other edge closes.
pub proof fn deletions_are_written(
    w: WalkView,
    c: FileChangeView,
    path: Seq<char>,
    import_only: bool,
    at: CommitId,
    time: i64,
    e: EdgeKey,
)
    requires
        c.change == (ChangeView::Deleted { path }),
        w.live.contains_key(path),
        w.open.finite(),
        w.log.len() == 0,
    ensures
        ({
            let id = w.live[path];
            let n = walk::change_applied(w, c, import_only, at, time);
            &&& n.log.contains(OpView::FileDied { file: id, at })
            &&& n.log.contains(OpView::CloseSymbols { file: id, at })
            &&& n.log.contains(OpView::CloseEdge { edge: e, at }) <==> w.open.contains(e) && (e.src == id || e.dst == id)
            &&& n.open.contains(e) <==> w.open.contains(e) && e.src != id && e.dst != id
            &&& forall|x: Seq<char>| #[trigger] n.live.contains_key(x) <==> w.live.contains_key(x) && x != path
            &&& n.dead[path].died_time == time
            &&& n.dead[path].last_blob == c.old_blob
            &&& n.dead[path].closed_in.contains(e) <==> w.open.contains(e) && e.dst == id && e.src != id
        }),
{
    let id = w.live[path];
    let outs = open_edges::out_of(w.open, id);
    let ins = open_edges::into(w.open, id);
    let a = open_edges::keys_in_order(outs);
    let b = open_edges::keys_in_order(ins);
    open_edges::lemma_ordered(outs);
    open_edges::lemma_ordered(ins);
    assert(a.contains(e) <==> a.to_set().contains(e));
    assert(b.contains(e) <==> b.to_set().contains(e));
    let n = walk::change_applied(w, c, import_only, at, time);
    let head = w.log.push(OpView::FileDied { file: id, at }).push(OpView::CloseSymbols { file: id, at });
    let x = walk::closings(a, at);
    let y = walk::closings(b, at);
    let op = OpView::CloseEdge { edge: e, at };
    assert(n.log.len() == 2 + x.len() + y.len() + 1);
    assert(n.log[0] == OpView::FileDied { file: id, at });
    assert(n.log[1] == OpView::CloseSymbols { file: id, at });
    if a.contains(e) {
        let k = a.index_of(e);
        assert(n.log[2 + k] == x[k]);
        assert(x[k] == op);
    }
    if b.contains(e) {
        let k = b.index_of(e);
        assert(n.log[2 + x.len() + k] == y[k]);
        assert(y[k] == op);
    }
    if n.log.contains(op) {
        let k = n.log.index_of(op);
        if k >= 2 && k < 2 + x.len() {
            assert(n.log[k] == x[k - 2]);
            assert(a[k - 2] == e);
        } else if k >= 2 + x.len() && k < 2 + x.len() + y.len() {
            assert(n.log[k] == y[k - 2 - x.len()]);
            assert(b[k - 2 - x.len()] == e);
        }
    }
}

/// Law: where a file comes back, it is written down, and so is every edge that
/// opens again: those that its deletion closed, out of files that still have a
/// path, and no others. Where a new file is added, that is written down with
/// the language of its path.
pub proof fn additions_are_written(
    w: WalkView,
    c: FileChangeView,
    path: Seq<char>,
    import_only: bool,
    at: CommitId,
    time: i64,
    e: EdgeKey,
)
    requires
        c.change == (ChangeView::Added { path }),
        w.log.len() == 0,
    ensures
        ({
            let n = walk::change_applied(w, c, import_only, at, time);
            let back = walk::comes_back(w, path, c.new_blob, time);
            &&& back ==> n.log.contains(OpView::Resurrect { file: w.dead[path].file, path, at })
            &&& back ==> (n.log.contains(OpView::ReopenEdge { edge: e, at }) <==> w.dead[path].closed_in.contains(e)
                && n.live.contains_value(e.src))
            &&& back ==> (n.open.contains(e) <==> w.open.contains(e) || (w.dead[path].closed_in.contains(e)
                && n.live.contains_value(e.src)))
            &&& !back ==> n.log.contains(
                OpView::InsertFile { file: FileId(w.next_file as i64), path, lang: lang::lang_at(path), born: at },
            )
            &&& !back ==> n.open == w.open && n.next_file == w.next_file + 1
            &&& n.live.contains_key(path)
        }),
{
    let n = walk::change_applied(w, c, import_only, at, time);
    if walk::comes_back(w, path, c.new_blob, time) {
        let id = w.dead[path].file;
        let live = w.live.insert(path, id);
        let s = w.dead[path].closed_in;
        let f = |x: EdgeKey| live.contains_value(x.src);
        let r = walk::reopened(live, s);
        crate::plain::lemma_filtered(s, f);
        assert(r.contains(e) <==> s.contains(e) && f(e));
        assert(n.live == live);
        let ops = walk::reopenings(r, at);
        let op = OpView::ReopenEdge { edge: e, at };
        assert(n.log[0] == OpView::Resurrect { file: id, path, at });
        assert(n.log.len() == 1 + ops.len() + 1);
        if r.contains(e) {
            let k = r.index_of(e);
            assert(n.log[1 + k] == ops[k]);
            assert(ops[k] == op);
        }
        if n.log.contains(op) {
            let k = n.log.index_of(op);
            assert(0 < k < 1 + ops.len());
            assert(n.log[k] == ops[k - 1]);
            assert(r[k - 1] == e);
        }
    } else {
        assert(n.log[0] == OpView::InsertFile {
            file: FileId(w.next_file as i64),
            path,
            lang: lang::lang_at(path),
            born: at,
        });
    }
}

/// Law: where a file is renamed, its new path is written down with how sure the
/// identity is, and so is the language of that path.
pub proof fn renames_are_written(
    w: WalkView,
    c: FileChangeView,
    from: Seq<char>,
    to: Seq<char>,
    import_only: bool,
    at: CommitId,
    time: i64,
)
    requires
        c.change == (ChangeView::Renamed { from, to }),
        w.live.contains_key(from),
    ensures
        ({
            let n = walk::change_applied(w, c, import_only, at, time);
            let id = w.live[from];
            &&& n.log.contains(OpView::Rename { file: id, path: to, at, confidence: c.confidence })
            &&& n.log.contains(OpView::SetLang { file: id, lang: lang::lang_at(to) })
            &&& lang::lang_at(to) matches Some(l) ==> n.lang_of.contains_key(id.0) && n.lang_of[id.0] == l
            &&& lang::lang_at(to) is None ==> !n.lang_of.contains_key(id.0)
        }),
{
    let n = walk::change_applied(w, c, import_only, at, time);
    let id = w.live[from];
    let k = w.log.len() as int;
    assert(n.log[k] == OpView::Rename { file: id, path: to, at, confidence: c.confidence });
    assert(n.log[k + 1] == OpView::SetLang { file: id, lang: lang::lang_at(to) });
}

/// Law: a symbol is written down under the kind of the first definition that
/// has its name.
pub proof fn symbols_have_first_kinds(defs: Seq<DefView>, i: int)
    requires
        0 <= i < defs.len(),
        forall|j: int| 0 <= j < i ==> (#[trigger] defs[j]).name != defs[i].name,
    ensures
        walk::kind_of(defs, defs[i].name) == defs[i].kind,
    decreases i,
{
    if i > 0 {
        let r = defs.skip(1);
        assert(defs[0].name != defs[i].name);
        assert(r[i - 1] == defs[i]);
        assert forall|j: int| 0 <= j < i - 1 implies (#[trigger] r[j]).name != r[i - 1].name by {
            assert(r[j] == defs[j + 1]);
        }
        symbols_have_first_kinds(r, i - 1);
    }
}

// ---- what was there before history ----

proof fn lemma_config_alike(w: WalkView, path: Seq<char>, content: Seq<char>)
    ensures
        ({
            let n = walk::config_read(w, path, content);
            &&& n.live == w.live
            &&& n.lang_of == w.lang_of
            &&& n.next_file == w.next_file
            &&& n.symbols == w.symbols
            &&& n.defs == w.defs
            &&& n.log == w.log
            &&& n.open == w.open
        }),
{
}

/// The number of a file of the tree among those that are followed.
proof fn lemma_seeded(w: WalkView, tree: Seq<TreeFile>, facts: Seq<FactsView>, n: int)
    requires
        0 <= n <= tree.len(),
        w.live == Map::<Seq<char>, FileId>::empty(),
        forall|i: int, j: int| 0 <= i < j < tree.len() ==> (#[trigger] tree[i]).path@ != (#[trigger] tree[j]).path@,
        0 <= w.next_file,
        w.next_file + tree.len() <= i64::MAX,
    ensures
        ({
            let x = seed::files_seeded(w, tree, facts, n);
            &&& w.next_file <= x.next_file <= w.next_file + n
            &&& x.symbols == w.symbols
            &&& x.defs == w.defs
            &&& x.open == w.open
            &&& forall|p: Seq<char>| #[trigger]
                x.live.contains_key(p) ==> x.live[p].0 < x.next_file && exists|i: int|
                    0 <= i < n && (#[trigger] tree[i]).path@ == p && !classify::excluded_path(p)
            &&& forall|i: int|
                0 <= i < n && !classify::excluded_path((#[trigger] tree[i]).path@) ==> x.live.contains_key(tree[i].path@)
                    && x.live[tree[i].path@] == FileId(seed::files_seeded(w, tree, facts, i).next_file as i64) && x.log.contains(
                    OpView::InsertFile {
                        file: x.live[tree[i].path@],
                        path: tree[i].path@,
                        lang: lang::lang_at(tree[i].path@),
                        born: CommitId(0),
                    },
                ) && (lang::lang_at(tree[i].path@) matches Some(l) ==> x.lang_of.contains_key(x.live[tree[i].path@].0)
                    && x.lang_of[x.live[tree[i].path@].0] == l)
        }),
    decreases n,
{
    if n > 0 {
        lemma_seeded(w, tree, facts, n - 1);
        let b = seed::files_seeded(w, tree, facts, n - 1);
        let x = seed::files_seeded(w, tree, facts, n);
        let path = tree[n - 1].path@;
        if classify::excluded_path(path) {
            assert forall|p: Seq<char>| #[trigger] x.live.contains_key(p) implies x.live[p].0 < x.next_file && exists|i: int|
                0 <= i < n && (#[trigger] tree[i]).path@ == p && !classify::excluded_path(p) by {
                assert(b.live.contains_key(p));
                let i = choose|i: int|
                    0 <= i < n - 1 && (#[trigger] tree[i]).path@ == p && !classify::excluded_path(p);
                assert(tree[i].path@ == p);
            }
        } else {
            let id = FileId(b.next_file as i64);
            let l = lang::lang_at(path);
            let op = OpView::InsertFile { file: id, path, lang: l, born: CommitId(0) };
            let y = WalkView {
                live: b.live.insert(path, id),
                order: tables::entry_put(b.order, path, id),
                lang_of: walk::lang_put(b.lang_of, id, l),
                next_file: b.next_file + 1,
                log: b.log.push(op),
                ..b
            };
            if let Some(c) = facts[n - 1].content {
                lemma_config_alike(y, path, crate::text::lossy(c));
            }
            assert(x.live == y.live && x.lang_of == y.lang_of && x.log == y.log && x.next_file == y.next_file);
            assert(x.log[b.log.len() as int] == op);
            assert forall|p: Seq<char>| #[trigger] x.live.contains_key(p) implies x.live[p].0 < x.next_file && exists|i: int|
                0 <= i < n && (#[trigger] tree[i]).path@ == p && !classify::excluded_path(p) by {
                if p == path {
                    assert(tree[n - 1].path@ == p);
                } else {
                    assert(b.live.contains_key(p));
                    let i = choose|i: int|
                        0 <= i < n - 1 && (#[trigger] tree[i]).path@ == p && !classify::excluded_path(p);
                    assert(tree[i].path@ == p);
                }
            }
            assert forall|i: int| 0 <= i < n && !classify::excluded_path((#[trigger] tree[i]).path@) implies x.live.contains_key(
                tree[i].path@,
            ) && x.live[tree[i].path@] == FileId(seed::files_seeded(w, tree, facts, i).next_file as i64) && x.log.contains(
                OpView::InsertFile {
                    file: x.live[tree[i].path@],
                    path: tree[i].path@,
                    lang: lang::lang_at(tree[i].path@),
                    born: CommitId(0),
                },
            ) && (lang::lang_at(tree[i].path@) matches Some(l) ==> x.lang_of.contains_key(x.live[tree[i].path@].0)
                && x.lang_of[x.live[tree[i].path@].0] == l) by {
                if i < n - 1 {
                    assert(tree[i].path@ != tree[n - 1].path@);
                    assert(b.live.contains_key(tree[i].path@));
                    let o = OpView::InsertFile {
                        file: b.live[tree[i].path@],
                        path: tree[i].path@,
                        lang: lang::lang_at(tree[i].path@),
                        born: CommitId(0),
                    };
                    assert(b.log.contains(o));
                    assert(x.log[b.log.index_of(o)] == o);
                    assert(b.live[tree[i].path@].0 < b.next_file);
                }
            }
        }
    }
}

proof fn lemma_next_grows(w: WalkView, tree: Seq<TreeFile>, facts: Seq<FactsView>, i: int, j: int)
    requires
        0 <= i <= j,
    ensures
        seed::files_seeded(w, tree, facts, i).next_file + (if i < j && !classify::excluded_path(tree[i].path@) {
            1int
        } else {
            0
        }) <= seed::files_seeded(w, tree, facts, j).next_file,
    decreases j - i,
{
    if i < j {
        lemma_next_grows(w, tree, facts, i + 1, j);
        let b = seed::files_seeded(w, tree, facts, i);
        if !classify::excluded_path(tree[i].path@) {
            if let Some(c) = facts[i].content {
                let path = tree[i].path@;
                let id = FileId(b.next_file as i64);
                let l = lang::lang_at(path);
                let y = WalkView {
                    live: b.live.insert(path, id),
                    order: tables::entry_put(b.order, path, id),
                    lang_of: walk::lang_put(b.lang_of, id, l),
                    next_file: b.next_file + 1,
                    log: b.log.push(OpView::InsertFile { file: id, path, lang: l, born: CommitId(0) }),
                    ..b
                };
                lemma_config_alike(y, path, crate::text::lossy(c));
            }
        }
    }
}

/// A file of the tree is to be parsed: it is followed, has a language and a
/// blob.
pub open spec fn to_parse(tree: Seq<TreeFile>, i: int) -> bool {
    &&& !classify::excluded_path(tree[i].path@)
    &&& lang::lang_at(tree[i].path@) is Some
    &&& exists|k: int| 0 <= k < tree[i].blob@.len() && #[trigger] tree[i].blob@[k] != 0
}

proof fn lemma_seed_jobs(w: WalkView, tree: Seq<TreeFile>, facts: Seq<FactsView>, n: int)
    requires
        0 <= n <= tree.len(),
        0 <= w.next_file,
        w.next_file + tree.len() <= i64::MAX,
        w.live == Map::<Seq<char>, FileId>::empty(),
        forall|i: int, j: int| 0 <= i < j < tree.len() ==> (#[trigger] tree[i]).path@ != (#[trigger] tree[j]).path@,
    ensures
        ({
            let s = seed::seed_jobs(w, tree, facts, n);
            &&& link::once(s)
            &&& forall|k: int|
                0 <= k < s.len() ==> 0 <= (#[trigger] s[k]).1 < n && s[k].0 == FileId(
                    seed::files_seeded(w, tree, facts, s[k].1).next_file as i64,
                ) && to_parse(tree, s[k].1)
            &&& forall|i: int|
                #![trigger tree[i]]
                0 <= i < n && to_parse(tree, i) ==> s.contains(
                    (FileId(seed::files_seeded(w, tree, facts, i).next_file as i64), i),
                )
        }),
    decreases n,
{
    if n > 0 {
        lemma_seed_jobs(w, tree, facts, n - 1);
        let b = seed::seed_jobs(w, tree, facts, n - 1);
        let s = seed::seed_jobs(w, tree, facts, n);
        assert forall|i: int, j: int| 0 <= i < j < s.len() implies (#[trigger] s[i]).0 != (#[trigger] s[j]).0 by {
            if j < b.len() {
                assert(b[i].0 != b[j].0);
            } else {
                assert(s[i] == b[i]);
                let m = b[i].1;
                assert(0 <= m < n - 1);
                lemma_next_grows(w, tree, facts, m, n - 1);
                lemma_seeded(w, tree, facts, m);
                lemma_seeded(w, tree, facts, n - 1);
            }
        }
        assert forall|k: int| 0 <= k < s.len() implies 0 <= (#[trigger] s[k]).1 < n && s[k].0 == FileId(
            seed::files_seeded(w, tree, facts, s[k].1).next_file as i64,
        ) && to_parse(tree, s[k].1) by {
            if k < b.len() {
                assert(s[k] == b[k]);
            }
        }
        assert forall|i: int| #![trigger tree[i]] 0 <= i < n && to_parse(tree, i) implies s.contains(
            (FileId(seed::files_seeded(w, tree, facts, i).next_file as i64), i),
        ) by {
            let x = (FileId(seed::files_seeded(w, tree, facts, i).next_file as i64), i);
            if i < n - 1 {
                assert(b.contains(x));
                assert(s[b.index_of(x)] == x);
            } else {
                assert(walk::real_blob(tree[i].blob@));
                assert(s[b.len() as int] == x);
            }
        }
    }
}

/// Law: of a tree that was there before history, exactly the paths that are not
/// excluded are followed, each by a file of its own, written down as born
/// before the first commit. Each that has a language, a blob and a parse
/// result is read: the edges out of it and the names that lead to it are those
/// of its parse result.
pub proof fn trees_are_followed_and_read(w: WalkView, tree: Seq<TreeFile>, facts: Seq<FactsView>, i: int, p: ParsedView)
    requires
        w == walk::nothing_walked(),
        forall|i: int, j: int| 0 <= i < j < tree.len() ==> (#[trigger] tree[i]).path@ != (#[trigger] tree[j]).path@,
        1 + tree.len() <= i64::MAX,
        0 <= i < tree.len(),
    ensures
        ({
            let n = seed::tree_seeded(w, tree, facts);
            let path = tree[i].path@;
            &&& n.live.contains_key(path) <==> !classify::excluded_path(path)
            &&& forall|x: Seq<char>| #[trigger] n.live.contains_key(x) ==> exists|j: int|
                0 <= j < tree.len() && (#[trigger] tree[j]).path@ == x
            &&& to_parse(tree, i) && link::had_parse(facts[i], p) ==> link::edges_read(
                n,
                n.live[path],
                lang::lang_at(path)->0,
                path,
                p,
            ) && link::names_read(n, n.live[path], p)
        }),
{
    let len = tree.len() as int;
    let b = seed::files_seeded(w, tree, facts, len);
    let jobs = seed::seed_jobs(w, tree, facts, len);
    let order = walk::parse_order(jobs, facts);
    let paths = seed::tree_paths(tree);
    let d = walk::all_symbols_updated(b, order, facts, CommitId(0));
    let n = seed::tree_seeded(w, tree, facts);
    let path = tree[i].path@;
    lemma_seeded(w, tree, facts, len);
    lemma_seed_jobs(w, tree, facts, len);
    link::nothing_says_nothing();
    link::lemma_say_alike(w, b);
    link::lemma_order(jobs, facts);
    link::lemma_all_symbols(b, order, facts, CommitId(0));
    link::lemma_linked_alike(d, order, paths, facts, CommitId(0));
    assert(n == walk::all_linked(d, order, paths, facts, CommitId(0)));
    assert(n.live == b.live);
    if to_parse(tree, i) && link::had_parse(facts[i], p) {
        let id = b.live[path];
        assert(jobs.contains((id, i)));
        assert(order.contains((id, i)));
        let m = order.index_of((id, i));
        assert(order[m] == (id, i));
        link::lemma_linked(d, order, paths, facts, CommitId(0), m);
        assert(paths[i] == path);
        assert(walk::parse_of(facts[i]) == p);
        assert(walk::defs_of(d, id) == names::sorted_names(walk::def_names(p.defs)));
        assert forall|x: Seq<char>| #[trigger] tables::definers(n.symbols, x).contains(id) <==> link::has_def(p.defs, x) by {
            assert(tables::definers(d.symbols, x).contains(id) <==> walk::defs_of(d, id).contains(x));
            link::lemma_names_of(p.defs, x);
        }
    }
}

} // verus!
