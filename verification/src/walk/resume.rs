//! An index that is taken up again: what the walk logs, once written, is what
//! it is rebuilt from.

use crate::lang::Lang;
use crate::lang;
use crate::model::{CommitId, FileId};
use crate::names;
use crate::open_edges;
use crate::parsed::ParsedView;
use crate::rows::{CommitRow, FileRow};
use crate::store_op::OpView;
use crate::tables;
use crate::text;
use crate::vcs::{ChangeView, FileChangeView};
use crate::walk::laws;
use crate::walk::load::IndexRows;
use crate::walk::load;
use crate::walk::paths;
use crate::walk::{FactsView, WalkView};
use crate::walk;
use vstd::prelude::*;

verus! {

/// What the store knows of names and languages: which file defines which
/// name, and the language column of each file, by id.
#[verifier::ext_equal]
pub struct Sheet {
    pub names: Set<(Seq<char>, FileId)>,
    pub langs: Map<i64, Option<Lang>>,
}

/// A sheet once something logged is written.
pub open spec fn noted(s: Sheet, op: OpView) -> Sheet {
    match op {
        OpView::OpenSymbol { name, file, kind, at } => Sheet { names: s.names.insert((name, file)), ..s },
        OpView::CloseSymbol { name, file, at } => Sheet { names: s.names.remove((name, file)), ..s },
        OpView::CloseSymbols { file, at } => Sheet {
            names: Set::new(|x: (Seq<char>, FileId)| s.names.contains(x) && x.1 != file),
            ..s
        },
        OpView::InsertFile { file, path, lang, born } => Sheet { langs: s.langs.insert(file.0, lang), ..s },
        OpView::SetLang { file, lang } => Sheet { langs: s.langs.insert(file.0, lang), ..s },
        _ => s,
    }
}

/// A sheet once what was logged is written.
pub open spec fn all_noted(s: Sheet, ops: Seq<OpView>) -> Sheet
    decreases ops.len(),
{
    if ops.len() == 0 {
        s
    } else {
        noted(all_noted(s, ops.drop_last()), ops.last())
    }
}

/// The sheet has the names that the files of a walk define.
pub open spec fn names_agree(s: Sheet, w: WalkView) -> bool {
    forall|n: Seq<char>, f: FileId|
        #![trigger s.names.contains((n, f))]
        #![trigger walk::defs_of(w, f).contains(n)]
        s.names.contains((n, f)) <==> walk::defs_of(w, f).contains(n)
}

/// A walk knows the language of a file.
pub open spec fn speaks(w: WalkView, id: FileId, l: Option<Lang>) -> bool {
    match l {
        Some(l) => w.lang_of.contains_key(id.0) && w.lang_of[id.0] == l,
        None => !w.lang_of.contains_key(id.0),
    }
}

/// The sheet has the languages of files, which are those of their paths.
pub open spec fn langs_agree(s: Sheet, w: WalkView) -> bool {
    &&& forall|p: Seq<char>| #[trigger]
        w.live.contains_key(p) ==> s.langs.contains_key(w.live[p].0) && s.langs[w.live[p].0] == lang::lang_at(p)
            && speaks(w, w.live[p], lang::lang_at(p))
    &&& forall|p: Seq<char>| #[trigger]
        w.dead.contains_key(p) ==> s.langs.contains_key(w.dead[p].file.0) && s.langs[w.dead[p].file.0]
            == lang::lang_at(p) && !w.lang_of.contains_key(w.dead[p].file.0)
    &&& forall|id: i64| #[trigger]
        w.lang_of.contains_key(id) ==> exists|p: Seq<char>| #[trigger] w.live.contains_key(p) && w.live[p].0 == id
}

pub open spec fn agrees(s: Sheet, w: WalkView) -> bool {
    &&& laws::apart(w)
    &&& names_agree(s, w)
    &&& langs_agree(s, w)
}

/// One walk leads to another, and what it logged on the way turns the sheet
/// `s` into `t`.
pub open spec fn notes(a: WalkView, b: WalkView, s: Sheet, t: Sheet) -> bool {
    &&& a.log.len() <= b.log.len()
    &&& b.log.take(a.log.len() as int) == a.log
    &&& t == all_noted(s, b.log.skip(a.log.len() as int))
}

proof fn lemma_noted_sum(s: Sheet, x: Seq<OpView>, y: Seq<OpView>)
    ensures
        all_noted(s, x + y) == all_noted(all_noted(s, x), y),
    decreases y.len(),
{
    if y.len() == 0 {
        assert(x + y =~= x);
    } else {
        lemma_noted_sum(s, x, y.drop_last());
        assert((x + y).drop_last() =~= x + y.drop_last());
    }
}

proof fn lemma_notes_sum(a: WalkView, b: WalkView, c: WalkView, s: Sheet, t: Sheet, u: Sheet)
    requires
        notes(a, b, s, t),
        notes(b, c, t, u),
    ensures
        notes(a, c, s, u),
{
    paths::lemma_log_sum(a.log, b.log, c.log);
    lemma_noted_sum(s, b.log.skip(a.log.len() as int), c.log.skip(b.log.len() as int));
}

proof fn lemma_notes_by(a: WalkView, b: WalkView, d: Seq<OpView>, s: Sheet)
    requires
        b.log == a.log + d,
    ensures
        notes(a, b, s, all_noted(s, d)),
{
    assert(b.log.take(a.log.len() as int) =~= a.log);
    assert(b.log.skip(a.log.len() as int) =~= d);
}

/// Something logged that a sheet takes no note of.
pub open spec fn unnoted(op: OpView) -> bool {
    match op {
        OpView::OpenSymbol { name, file, kind, at } => false,
        OpView::CloseSymbol { name, file, at } => false,
        OpView::CloseSymbols { file, at } => false,
        OpView::InsertFile { file, path, lang, born } => false,
        OpView::SetLang { file, lang } => false,
        _ => true,
    }
}

proof fn lemma_unnoted(s: Sheet, d: Seq<OpView>)
    requires
        forall|i: int| 0 <= i < d.len() ==> unnoted(#[trigger] d[i]),
    ensures
        all_noted(s, d) == s,
    decreases d.len(),
{
    if d.len() > 0 {
        assert(unnoted(d[d.len() - 1]));
        assert forall|i: int| 0 <= i < d.drop_last().len() implies unnoted(#[trigger] d.drop_last()[i]) by {
            assert(unnoted(d[i]));
        }
        lemma_unnoted(s, d.drop_last());
    }
}

proof fn lemma_notes_nothing(a: WalkView, b: WalkView, d: Seq<OpView>, s: Sheet)
    requires
        b.log == a.log + d,
        forall|i: int| 0 <= i < d.len() ==> unnoted(#[trigger] d[i]),
    ensures
        notes(a, b, s, s),
{
    lemma_unnoted(s, d);
    lemma_notes_by(a, b, d, s);
}

proof fn lemma_notes_same(a: WalkView, b: WalkView, s: Sheet)
    requires
        a.log == b.log,
    ensures
        notes(a, b, s, s),
{
    assert(b.log =~= a.log + Seq::<OpView>::empty());
    lemma_notes_nothing(a, b, Seq::empty(), s);
}

proof fn lemma_one_noted(s: Sheet, op: OpView)
    ensures
        all_noted(s, seq![op]) == noted(s, op),
{
    let x = seq![op];
    assert(x.drop_last() =~= Seq::<OpView>::empty());
    assert(all_noted(s, x.drop_last()) == s);
}

// ---- changes ----

/// What a diff of two trees keeps to: a path that a change gives to a file is
/// a new one, and no two changes give one path.
pub open spec fn new_targets(live: Map<Seq<char>, FileId>, changes: Seq<FileChangeView>) -> bool {
    &&& forall|k: int|
        0 <= k < changes.len() ==> (new_path((#[trigger] changes[k]).change) matches Some(p) ==> !live.contains_key(p))
    &&& forall|k: int, j: int|
        0 <= j < changes.len() && 0 <= k < changes.len() && j != k && new_path((#[trigger] changes[k]).change) is Some
            ==> new_path(changes[k].change) != Some((#[trigger] changes[j]).change.path())
}

/// The path that a change makes.
pub open spec fn new_path(c: ChangeView) -> Option<Seq<char>> {
    match c {
        ChangeView::Added { path } => Some(path),
        ChangeView::Renamed { from, to } => Some(to),
        _ => None,
    }
}

/// The live files behind the first `n` changes were there before or are at
/// the path of one of the changes.
pub open spec fn only_named(
    live: Map<Seq<char>, FileId>,
    changes: Seq<FileChangeView>,
    n: int,
    now: Map<Seq<char>, FileId>,
) -> bool {
    forall|p: Seq<char>| #[trigger]
        now.contains_key(p) ==> live.contains_key(p) || exists|j: int|
            0 <= j < n && (#[trigger] changes[j]).change.path() == p
}

proof fn lemma_added_agrees(w: WalkView, path: Seq<char>, blob: Option<Seq<u8>>, at: CommitId, time: i64, s: Sheet) -> (t:
    Sheet)
    requires
        agrees(s, w),
        !w.live.contains_key(path),
        i64::MIN <= w.next_file < i64::MAX,
    ensures
        notes(w, walk::file_added(w, path, blob, at, time), s, t),
        agrees(t, walk::file_added(w, path, blob, at, time)),
{
    let b = walk::file_added(w, path, blob, at, time);
    let id = walk::added_id(w, path, blob, time);
    laws::adding_keeps_identities(w, path, blob, at, time);
    let l = lang::lang_at(path);
    if walk::comes_back(w, path, blob, time) {
        let d = seq![OpView::Resurrect { file: id, path, at }] + walk::reopenings(
            walk::reopened(b.live, w.dead[path].closed_in),
            at,
        );
        assert(b.log =~= w.log + d);
        lemma_notes_nothing(w, b, d, s);
        assert(names_agree(s, b)) by {
            assert forall|n: Seq<char>, f: FileId| s.names.contains((n, f)) <==> walk::defs_of(b, f).contains(n) by {
                assert(walk::defs_of(b, f) == walk::defs_of(w, f));
            }
        }
        assert(langs_agree(s, b)) by {
            assert forall|p: Seq<char>| #[trigger] b.live.contains_key(p) implies s.langs.contains_key(b.live[p].0)
                && s.langs[b.live[p].0] == lang::lang_at(p) && speaks(b, b.live[p], lang::lang_at(p)) by {
                if p != path {
                    assert(w.live.contains_key(p));
                    assert(b.live[p] != b.live[path]);
                } else {
                    assert(w.dead.contains_key(path));
                }
            }
            assert forall|p: Seq<char>| #[trigger] b.dead.contains_key(p) implies s.langs.contains_key(
                b.dead[p].file.0,
            ) && s.langs[b.dead[p].file.0] == lang::lang_at(p) && !b.lang_of.contains_key(b.dead[p].file.0) by {
                assert(w.dead.contains_key(p) && p != path);
                assert(w.dead[p].file != w.dead[path].file);
            }
            assert forall|i: i64| #[trigger] b.lang_of.contains_key(i) implies exists|p: Seq<char>| #[trigger]
                b.live.contains_key(p) && b.live[p].0 == i by {
                if i == id.0 {
                    assert(b.live.contains_key(path));
                } else {
                    assert(w.lang_of.contains_key(i));
                    let p = choose|p: Seq<char>| #[trigger] w.live.contains_key(p) && w.live[p].0 == i;
                    assert(b.live.contains_key(p));
                }
            }
        }
        s
    } else {
        let op = OpView::InsertFile { file: id, path, lang: l, born: at };
        assert(b.log =~= w.log + seq![op]);
        lemma_notes_by(w, b, seq![op], s);
        lemma_one_noted(s, op);
        let t = noted(s, op);
        assert(!w.lang_of.contains_key(id.0)) by {
            if w.lang_of.contains_key(id.0) {
                let p = choose|p: Seq<char>| #[trigger] w.live.contains_key(p) && w.live[p].0 == id.0;
                assert(w.live.contains_key(p));
            }
        }
        assert(names_agree(t, b)) by {
            assert forall|n: Seq<char>, f: FileId| t.names.contains((n, f)) <==> walk::defs_of(b, f).contains(n) by {
                assert(walk::defs_of(b, f) == walk::defs_of(w, f));
                assert(s.names.contains((n, f)) <==> walk::defs_of(w, f).contains(n));
            }
        }
        assert(langs_agree(t, b)) by {
            assert forall|p: Seq<char>| #[trigger] b.live.contains_key(p) implies t.langs.contains_key(b.live[p].0)
                && t.langs[b.live[p].0] == lang::lang_at(p) && speaks(b, b.live[p], lang::lang_at(p)) by {
                if p != path {
                    assert(w.live.contains_key(p));
                }
            }
            assert forall|p: Seq<char>| #[trigger] b.dead.contains_key(p) implies t.langs.contains_key(
                b.dead[p].file.0,
            ) && t.langs[b.dead[p].file.0] == lang::lang_at(p) && !b.lang_of.contains_key(b.dead[p].file.0) by {
                assert(w.dead.contains_key(p));
            }
            assert forall|i: i64| #[trigger] b.lang_of.contains_key(i) implies exists|p: Seq<char>| #[trigger]
                b.live.contains_key(p) && b.live[p].0 == i by {
                if i == id.0 {
                    assert(b.live.contains_key(path));
                } else {
                    assert(w.lang_of.contains_key(i));
                    let p = choose|p: Seq<char>| #[trigger] w.live.contains_key(p) && w.live[p].0 == i;
                    assert(b.live.contains_key(p));
                }
            }
        }
        t
    }
}

proof fn lemma_gone_agrees(w: WalkView, path: Seq<char>, blob: Option<Seq<u8>>, at: CommitId, time: i64, s: Sheet) -> (t:
    Sheet)
    requires
        agrees(s, w),
        w.live.contains_key(path),
    ensures
        notes(w, walk::file_gone(w, path, blob, at, time), s, t),
        agrees(t, walk::file_gone(w, path, blob, at, time)),
{
    let b = walk::file_gone(w, path, blob, at, time);
    let id = w.live[path];
    laws::gone_keeps_identities(w, path, blob, at, time);
    let outs = open_edges::keys_in_order(open_edges::out_of(w.open, id));
    let ins = open_edges::keys_in_order(open_edges::into(w.open, id));
    let x = seq![OpView::FileDied { file: id, at }];
    let op = OpView::CloseSymbols { file: id, at };
    let y = walk::closings(outs, at) + walk::closings(ins, at);
    let d = x + seq![op] + y;
    assert(b.log =~= w.log + d);
    lemma_notes_by(w, b, d, s);
    lemma_unnoted(s, x);
    lemma_one_noted(s, op);
    let t = noted(s, op);
    lemma_unnoted(t, y);
    lemma_noted_sum(s, x, seq![op]);
    lemma_noted_sum(s, x + seq![op], y);
    assert(all_noted(s, d) == t);
    assert(names_agree(t, b)) by {
        assert forall|n: Seq<char>, f: FileId| t.names.contains((n, f)) <==> walk::defs_of(b, f).contains(n) by {
            assert(s.names.contains((n, f)) <==> walk::defs_of(w, f).contains(n));
            if f != id {
                assert(f.0 != id.0);
                assert(walk::defs_of(b, f) == walk::defs_of(w, f));
            } else {
                assert(walk::defs_of(b, f) == Seq::<Seq<char>>::empty());
            }
        }
    }
    assert(langs_agree(t, b)) by {
        assert forall|p: Seq<char>| #[trigger] b.live.contains_key(p) implies t.langs.contains_key(b.live[p].0)
            && t.langs[b.live[p].0] == lang::lang_at(p) && speaks(b, b.live[p], lang::lang_at(p)) by {
            assert(w.live.contains_key(p));
            assert(w.live[p] != w.live[path]);
        }
        assert forall|p: Seq<char>| #[trigger] b.dead.contains_key(p) implies t.langs.contains_key(b.dead[p].file.0)
            && t.langs[b.dead[p].file.0] == lang::lang_at(p) && !b.lang_of.contains_key(b.dead[p].file.0) by {
            if p != path {
                assert(w.dead.contains_key(p));
            }
        }
        assert forall|i: i64| #[trigger] b.lang_of.contains_key(i) implies exists|p: Seq<char>| #[trigger]
            b.live.contains_key(p) && b.live[p].0 == i by {
            assert(w.lang_of.contains_key(i));
            let p = choose|p: Seq<char>| #[trigger] w.live.contains_key(p) && w.live[p].0 == i;
            assert(p != path);
            assert(b.live.contains_key(p));
        }
    }
    t
}

proof fn lemma_renamed_agrees(w: WalkView, from: Seq<char>, to: Seq<char>, at: CommitId, confidence: u8, s: Sheet) -> (t:
    Sheet)
    requires
        agrees(s, w),
        w.live.contains_key(from),
        from == to || !w.live.contains_key(to),
    ensures
        notes(w, walk::file_renamed(w, from, to, at, confidence), s, t),
        agrees(t, walk::file_renamed(w, from, to, at, confidence)),
{
    let b = walk::file_renamed(w, from, to, at, confidence);
    let id = w.live[from];
    let l = lang::lang_at(to);
    laws::renaming_keeps_identities(w, from, to, at, confidence);
    let x = seq![OpView::Rename { file: id, path: to, at, confidence }];
    let op = OpView::SetLang { file: id, lang: l };
    assert(b.log =~= w.log + (x + seq![op]));
    lemma_notes_by(w, b, x + seq![op], s);
    lemma_unnoted(s, x);
    lemma_one_noted(s, op);
    lemma_noted_sum(s, x, seq![op]);
    let t = noted(s, op);
    assert(names_agree(t, b)) by {
        assert forall|n: Seq<char>, f: FileId| t.names.contains((n, f)) <==> walk::defs_of(b, f).contains(n) by {
            assert(walk::defs_of(b, f) == walk::defs_of(w, f));
            assert(s.names.contains((n, f)) <==> walk::defs_of(w, f).contains(n));
        }
    }
    assert(langs_agree(t, b)) by {
        assert forall|p: Seq<char>| #[trigger] b.live.contains_key(p) implies t.langs.contains_key(b.live[p].0)
            && t.langs[b.live[p].0] == lang::lang_at(p) && speaks(b, b.live[p], lang::lang_at(p)) by {
            if p != to {
                assert(w.live.contains_key(p));
                assert(w.live[p] != w.live[from]);
                assert(w.live[p].0 != id.0);
            }
        }
        assert forall|p: Seq<char>| #[trigger] b.dead.contains_key(p) implies t.langs.contains_key(b.dead[p].file.0)
            && t.langs[b.dead[p].file.0] == lang::lang_at(p) && !b.lang_of.contains_key(b.dead[p].file.0) by {
            assert(w.dead.contains_key(p));
            assert(w.live[from] != w.dead[p].file);
            assert(w.dead[p].file.0 != id.0);
        }
        assert forall|i: i64| #[trigger] b.lang_of.contains_key(i) implies exists|p: Seq<char>| #[trigger]
            b.live.contains_key(p) && b.live[p].0 == i by {
            if i == id.0 {
                assert(b.live.contains_key(to));
            } else {
                assert(w.lang_of.contains_key(i));
                let p = choose|p: Seq<char>| #[trigger] w.live.contains_key(p) && w.live[p].0 == i;
                assert(p != from && p != to);
                assert(b.live.contains_key(p));
            }
        }
    }
    t
}

/// A walk that logs one thing that a sheet takes no note of.
proof fn lemma_logged_agrees(w: WalkView, b: WalkView, op: OpView, s: Sheet, t: Sheet)
    requires
        notes(w, b, s, t),
        agrees(t, b),
        unnoted(op),
    ensures
        notes(w, walk::logged(b, op), s, t),
        agrees(t, walk::logged(b, op)),
{
    let c = walk::logged(b, op);
    assert(c.log =~= b.log + seq![op]);
    lemma_notes_nothing(b, c, seq![op], t);
    lemma_notes_sum(w, b, c, s, t, t);
    assert(laws::apart(c));
    assert forall|n: Seq<char>, f: FileId| t.names.contains((n, f)) <==> walk::defs_of(c, f).contains(n) by {
        assert(walk::defs_of(c, f) == walk::defs_of(b, f));
        assert(t.names.contains((n, f)) <==> walk::defs_of(b, f).contains(n));
    }
    assert(langs_agree(t, c)) by {
        assert forall|p: Seq<char>| #[trigger] c.live.contains_key(p) implies t.langs.contains_key(c.live[p].0)
            && t.langs[c.live[p].0] == lang::lang_at(p) && speaks(c, c.live[p], lang::lang_at(p)) by {
            assert(b.live.contains_key(p));
        }
        assert forall|p: Seq<char>| #[trigger] c.dead.contains_key(p) implies t.langs.contains_key(c.dead[p].file.0)
            && t.langs[c.dead[p].file.0] == lang::lang_at(p) && !c.lang_of.contains_key(c.dead[p].file.0) by {
            assert(b.dead.contains_key(p));
        }
        assert forall|i: i64| #[trigger] c.lang_of.contains_key(i) implies exists|p: Seq<char>| #[trigger]
            c.live.contains_key(p) && c.live[p].0 == i by {
            assert(b.lang_of.contains_key(i));
            let p = choose|p: Seq<char>| #[trigger] b.live.contains_key(p) && b.live[p].0 == i;
            assert(c.live.contains_key(p));
        }
    }
}

proof fn lemma_change_agrees(
    w: WalkView,
    c: FileChangeView,
    import_only: bool,
    at: CommitId,
    time: i64,
    s: Sheet,
) -> (t: Sheet)
    requires
        agrees(s, w),
        i64::MIN <= w.next_file < i64::MAX,
        new_path(c.change) matches Some(p) ==> !w.live.contains_key(p) || (c.change matches ChangeView::Renamed {
            from,
            to,
        } && from == to),
    ensures
        notes(w, walk::change_applied(w, c, import_only, at, time), s, t),
        agrees(t, walk::change_applied(w, c, import_only, at, time)),
{
    let z = walk::change_applied(w, c, import_only, at, time);
    match c.change {
        ChangeView::Deleted { path } => {
            if w.live.contains_key(path) {
                let t = lemma_gone_agrees(w, path, c.old_blob, at, time, s);
                let b = walk::file_gone(w, path, c.old_blob, at, time);
                lemma_logged_agrees(w, b, z.log.last(), s, t);
                assert(z == walk::logged(b, z.log.last()));
                t
            } else {
                lemma_notes_same(w, w, s);
                s
            }
        },
        ChangeView::Renamed { from, to } => {
            if w.live.contains_key(from) {
                let t = lemma_renamed_agrees(w, from, to, at, c.confidence, s);
                let b = walk::file_renamed(w, from, to, at, c.confidence);
                lemma_logged_agrees(w, b, z.log.last(), s, t);
                assert(z == walk::logged(b, z.log.last()));
                t
            } else {
                let t = lemma_added_agrees(w, to, c.new_blob, at, time, s);
                let b = walk::file_added(w, to, c.new_blob, at, time);
                lemma_logged_agrees(w, b, z.log.last(), s, t);
                assert(z == walk::logged(b, z.log.last()));
                t
            }
        },
        ChangeView::Modified { path } => {
            if w.live.contains_key(path) {
                lemma_notes_same(w, w, s);
                lemma_logged_agrees(w, w, z.log.last(), s, s);
                assert(z == walk::logged(w, z.log.last()));
                s
            } else {
                let t = lemma_added_agrees(w, path, c.new_blob, at, time, s);
                let b = walk::file_added(w, path, c.new_blob, at, time);
                lemma_logged_agrees(w, b, z.log.last(), s, t);
                assert(z == walk::logged(b, z.log.last()));
                t
            }
        },
        ChangeView::Added { path } => {
            let t = lemma_added_agrees(w, path, c.new_blob, at, time, s);
            let b = walk::file_added(w, path, c.new_blob, at, time);
            lemma_logged_agrees(w, b, z.log.last(), s, t);
            assert(z == walk::logged(b, z.log.last()));
            t
        },
    }
}

proof fn lemma_named_more(
    live: Map<Seq<char>, FileId>,
    changes: Seq<FileChangeView>,
    n: int,
    w: WalkView,
    import_only: bool,
    at: CommitId,
    time: i64,
)
    requires
        0 <= n < changes.len(),
        only_named(live, changes, n, w.live),
    ensures
        only_named(live, changes, n + 1, walk::change_applied(w, changes[n], import_only, at, time).live),
{
    let b = walk::change_applied(w, changes[n], import_only, at, time);
    assert forall|p: Seq<char>| #[trigger] b.live.contains_key(p) implies live.contains_key(p) || exists|j: int|
        0 <= j < n + 1 && (#[trigger] changes[j]).change.path() == p by {
        if w.live.contains_key(p) {
            if !live.contains_key(p) {
                let j = choose|j: int| 0 <= j < n && (#[trigger] changes[j]).change.path() == p;
                assert(changes[j].change.path() == p);
            }
        } else {
            assert(changes[n].change.path() == p);
        }
    }
}

proof fn lemma_changes_agree(
    w: WalkView,
    changes: Seq<FileChangeView>,
    import_only: Seq<bool>,
    n: int,
    at: CommitId,
    time: i64,
    s: Sheet,
) -> (t: Sheet)
    requires
        0 <= n <= changes.len(),
        agrees(s, w),
        new_targets(w.live, changes),
        i64::MIN <= w.next_file,
        w.next_file + n <= i64::MAX,
    ensures
        notes(w, walk::changes_applied(w, changes, import_only, n, at, time), s, t),
        agrees(t, walk::changes_applied(w, changes, import_only, n, at, time)),
        only_named(w.live, changes, n, walk::changes_applied(w, changes, import_only, n, at, time).live),
        w.next_file <= walk::changes_applied(w, changes, import_only, n, at, time).next_file <= w.next_file + n,
    decreases n,
{
    if n == 0 {
        lemma_notes_same(w, w, s);
        s
    } else {
        let u = lemma_changes_agree(w, changes, import_only, n - 1, at, time, s);
        let b = walk::changes_applied(w, changes, import_only, n - 1, at, time);
        let c = changes[n - 1];
        assert(new_path(c.change) matches Some(p) ==> !b.live.contains_key(p)) by {
            match new_path(c.change) {
                Some(p) => {
                    if b.live.contains_key(p) {
                        let j = choose|j: int| 0 <= j < n - 1 && (#[trigger] changes[j]).change.path() == p;
                        assert(new_path(changes[n - 1].change) != Some(changes[j].change.path()));
                    }
                },
                None => {},
            }
        }
        let t = lemma_change_agrees(b, c, import_only[n - 1], at, time, u);
        lemma_notes_sum(w, b, walk::change_applied(b, c, import_only[n - 1], at, time), s, u, t);
        lemma_named_more(w.live, changes, n - 1, b, import_only[n - 1], at, time);
        t
    }
}

proof fn lemma_detached_agrees(w: WalkView, changes: Seq<FileChangeView>, s: Sheet)
    requires
        agrees(s, w),
    ensures
        notes(w, walk::detached(w, changes), s, s),
        agrees(s, walk::detached(w, changes)),
        walk::detached(w, changes).live == w.live,
        walk::detached(w, changes).next_file == w.next_file,
    decreases changes.len(),
{
    if changes.len() == 0 {
        lemma_notes_same(w, w, s);
    } else {
        let b = walk::detached(w, changes.drop_last());
        lemma_detached_agrees(w, changes.drop_last(), s);
        match walk::left_path(changes.last().change) {
            Some(p) => {
                if w.live.contains_key(p) {
                    lemma_logged_agrees(w, b, OpView::ClearPath { file: w.live[p] }, s, s);
                }
            },
            None => {},
        }
    }
}

// ---- the rest of a commit ----

/// Two walks that have the same files, languages and names.
pub open spec fn alike(a: WalkView, b: WalkView) -> bool {
    &&& a.live == b.live
    &&& a.dead == b.dead
    &&& a.lang_of == b.lang_of
    &&& a.next_file == b.next_file
}

proof fn lemma_alike_agrees(a: WalkView, b: WalkView, s: Sheet, t: Sheet)
    requires
        agrees(s, a),
        alike(a, b),
        s.langs == t.langs,
        names_agree(t, b),
    ensures
        agrees(t, b),
{
    assert(laws::apart(b));
    assert forall|p: Seq<char>| #[trigger] b.live.contains_key(p) implies t.langs.contains_key(b.live[p].0)
        && t.langs[b.live[p].0] == lang::lang_at(p) && speaks(b, b.live[p], lang::lang_at(p)) by {
        assert(a.live.contains_key(p));
    }
    assert forall|p: Seq<char>| #[trigger] b.dead.contains_key(p) implies t.langs.contains_key(b.dead[p].file.0)
        && t.langs[b.dead[p].file.0] == lang::lang_at(p) && !b.lang_of.contains_key(b.dead[p].file.0) by {
        assert(a.dead.contains_key(p));
    }
    assert forall|i: i64| #[trigger] b.lang_of.contains_key(i) implies exists|p: Seq<char>| #[trigger]
        b.live.contains_key(p) && b.live[p].0 == i by {
        assert(a.lang_of.contains_key(i));
        let p = choose|p: Seq<char>| #[trigger] a.live.contains_key(p) && a.live[p].0 == i;
        assert(b.live.contains_key(p));
    }
}

proof fn lemma_configs_agree(
    w: WalkView,
    changes: Seq<FileChangeView>,
    touched: Seq<(FileId, int)>,
    facts: Seq<FactsView>,
)
    ensures
        alike(w, walk::configs_read(w, changes, touched, facts)),
        walk::configs_read(w, changes, touched, facts).log == w.log,
        walk::configs_read(w, changes, touched, facts).defs == w.defs,
    decreases touched.len(),
{
    if touched.len() > 0 {
        lemma_configs_agree(w, changes, touched.drop_last(), facts);
    }
}

proof fn lemma_closed_noted(s: Sheet, names: Seq<Seq<char>>, id: FileId, at: CommitId)
    ensures
        ({
            let t = all_noted(s, names.map_values(|n: Seq<char>| OpView::CloseSymbol { name: n, file: id, at }));
            t.langs == s.langs && forall|n: Seq<char>, f: FileId| #[trigger]
                t.names.contains((n, f)) <==> s.names.contains((n, f)) && !(f == id && names.contains(n))
        }),
    decreases names.len(),
{
    let g = |n: Seq<char>| OpView::CloseSymbol { name: n, file: id, at };
    let ops = names.map_values(g);
    if names.len() > 0 {
        let d = names.drop_last();
        lemma_closed_noted(s, d, id, at);
        assert(ops.drop_last() =~= d.map_values(g));
        let b = all_noted(s, d.map_values(g));
        let t = all_noted(s, ops);
        assert forall|n: Seq<char>, f: FileId| #[trigger] t.names.contains((n, f)) <==> s.names.contains((n, f)) && !(f
            == id && names.contains(n)) by {
            assert(b.names.contains((n, f)) <==> s.names.contains((n, f)) && !(f == id && d.contains(n)));
            if names.contains(n) && !d.contains(n) {
                let k = names.index_of(n);
                if k < d.len() {
                    assert(d[k] == n);
                }
            }
            if d.contains(n) {
                assert(names[d.index_of(n)] == n);
            }
            assert(names[names.len() - 1] == names.last());
        }
    }
}

proof fn lemma_opened_noted(s: Sheet, names: Seq<Seq<char>>, p: ParsedView, id: FileId, at: CommitId)
    ensures
        ({
            let t = all_noted(
                s,
                names.map_values(
                    |n: Seq<char>| OpView::OpenSymbol { name: n, file: id, kind: walk::kind_of(p.defs, n), at },
                ),
            );
            t.langs == s.langs && forall|n: Seq<char>, f: FileId| #[trigger]
                t.names.contains((n, f)) <==> s.names.contains((n, f)) || (f == id && names.contains(n))
        }),
    decreases names.len(),
{
    let g = |n: Seq<char>| OpView::OpenSymbol { name: n, file: id, kind: walk::kind_of(p.defs, n), at };
    let ops = names.map_values(g);
    if names.len() > 0 {
        let d = names.drop_last();
        lemma_opened_noted(s, d, p, id, at);
        assert(ops.drop_last() =~= d.map_values(g));
        let b = all_noted(s, d.map_values(g));
        let t = all_noted(s, ops);
        assert forall|n: Seq<char>, f: FileId| #[trigger] t.names.contains((n, f)) <==> s.names.contains((n, f)) || (f
            == id && names.contains(n)) by {
            assert(b.names.contains((n, f)) <==> s.names.contains((n, f)) || (f == id && d.contains(n)));
            if names.contains(n) && !d.contains(n) {
                let k = names.index_of(n);
                if k < d.len() {
                    assert(d[k] == n);
                }
            }
            if d.contains(n) {
                assert(names[d.index_of(n)] == n);
            }
            assert(names[names.len() - 1] == names.last());
        }
    }
}

proof fn lemma_symbols_agree(w: WalkView, id: FileId, p: ParsedView, at: CommitId, s: Sheet) -> (t: Sheet)
    requires
        agrees(s, w),
    ensures
        notes(w, walk::symbols_updated(w, id, p, at), s, t),
        agrees(t, walk::symbols_updated(w, id, p, at)),
{
    let b = walk::symbols_updated(w, id, p, at);
    let now = names::sorted_names(walk::def_names(p.defs));
    let was = walk::defs_of(w, id);
    let gone = walk::names_less(was, now);
    let fresh = walk::names_less(now, was);
    let x = gone.map_values(|n: Seq<char>| OpView::CloseSymbol { name: n, file: id, at });
    let y = fresh.map_values(
        |n: Seq<char>| OpView::OpenSymbol { name: n, file: id, kind: walk::kind_of(p.defs, n), at },
    );
    assert(b.log =~= w.log + (x + y));
    lemma_notes_by(w, b, x + y, s);
    lemma_noted_sum(s, x, y);
    let u = all_noted(s, x);
    let t = all_noted(u, y);
    lemma_closed_noted(s, gone, id, at);
    lemma_opened_noted(u, fresh, p, id, at);
    assert(names_agree(t, b)) by {
        assert forall|n: Seq<char>, f: FileId| t.names.contains((n, f)) <==> walk::defs_of(b, f).contains(n) by {
            assert(s.names.contains((n, f)) <==> walk::defs_of(w, f).contains(n));
            assert(u.names.contains((n, f)) <==> s.names.contains((n, f)) && !(f == id && gone.contains(n)));
            assert(t.names.contains((n, f)) <==> u.names.contains((n, f)) || (f == id && fresh.contains(n)));
            if f == id {
                assert(walk::defs_of(b, f) == now);
                if gone.contains(n) {
                    was.lemma_filter_contains_rev(|y: Seq<char>| !now.contains(y), n);
                    let k = gone.index_of(n);
                    was.lemma_filter_pred(|y: Seq<char>| !now.contains(y), k);
                }
                if fresh.contains(n) {
                    now.lemma_filter_contains_rev(|y: Seq<char>| !was.contains(y), n);
                }
                if was.contains(n) && !now.contains(n) {
                    was.lemma_filter_contains(|y: Seq<char>| !now.contains(y), was.index_of(n));
                }
                if now.contains(n) && !was.contains(n) {
                    now.lemma_filter_contains(|y: Seq<char>| !was.contains(y), now.index_of(n));
                }
            } else {
                assert(f.0 != id.0);
                assert(walk::defs_of(b, f) == walk::defs_of(w, f));
            }
        }
    }
    lemma_alike_agrees(w, b, s, t);
    t
}

proof fn lemma_all_symbols_agree(
    w: WalkView,
    order: Seq<(FileId, int)>,
    facts: Seq<FactsView>,
    at: CommitId,
    s: Sheet,
) -> (t: Sheet)
    requires
        agrees(s, w),
    ensures
        notes(w, walk::all_symbols_updated(w, order, facts, at), s, t),
        agrees(t, walk::all_symbols_updated(w, order, facts, at)),
    decreases order.len(),
{
    if order.len() == 0 {
        lemma_notes_same(w, w, s);
        s
    } else {
        let b = walk::all_symbols_updated(w, order.drop_last(), facts, at);
        let u = lemma_all_symbols_agree(w, order.drop_last(), facts, at, s);
        let (id, i) = order.last();
        let p = walk::parse_of(facts[i]);
        let t = lemma_symbols_agree(b, id, p, at, u);
        lemma_notes_sum(w, b, walk::symbols_updated(b, id, p, at), s, u, t);
        t
    }
}

proof fn lemma_all_linked_agree(
    w: WalkView,
    order: Seq<(FileId, int)>,
    paths: Seq<Seq<char>>,
    facts: Seq<FactsView>,
    at: CommitId,
    s: Sheet,
)
    ensures
        notes(w, walk::all_linked(w, order, paths, facts, at), s, s),
        alike(w, walk::all_linked(w, order, paths, facts, at)),
        walk::all_linked(w, order, paths, facts, at).defs == w.defs,
    decreases order.len(),
{
    if order.len() == 0 {
        lemma_notes_same(w, w, s);
    } else {
        let b = walk::all_linked(w, order.drop_last(), paths, facts, at);
        lemma_all_linked_agree(w, order.drop_last(), paths, facts, at, s);
        let (id, i) = order.last();
        let n = walk::file_linked(b, id, paths[i], walk::parse_of(facts[i]), at);
        let d = n.log.skip(b.log.len() as int);
        assert(n.log =~= b.log + d);
        lemma_notes_nothing(b, n, d, s);
        lemma_notes_sum(w, b, n, s, s, s);
    }
}

/// Law: a commit that keeps to what a diff of two trees does leaves in the
/// store the names that each file defines and the languages of files, as the
/// walk knows them.
#[verifier::spinoff_prover]
#[verifier::rlimit(80)]
pub proof fn store_keeps_names_and_languages(
    w: WalkView,
    at: CommitId,
    time: i64,
    changes: Seq<FileChangeView>,
    import_only: Seq<bool>,
    facts: Seq<FactsView>,
    s: Sheet,
)
    requires
        agrees(s, w),
        i64::MIN <= w.next_file,
        w.next_file + changes.len() <= i64::MAX,
        new_targets(w.live, changes),
    ensures
        ({
            let n = walk::commit_applied(w, at, time, changes, import_only, facts);
            let ops = n.log.skip(w.log.len() as int);
            n.log == w.log + ops && agrees(all_noted(s, ops), n)
        }),
{
    let n = walk::least(changes.len() as int, import_only.len() as int);
    let a = walk::detached(w, changes);
    let b = walk::changes_applied(a, changes, import_only, n, at, time);
    let touched = walk::files_touched(a, changes, import_only, n, at, time);
    let c = walk::configs_read(b, changes, touched, facts);
    let order = walk::parse_order(walk::parse_jobs(c.lang_of, changes, touched), facts);
    let d = walk::all_symbols_updated(c, order, facts, at);
    let e = walk::all_linked(d, order, walk::change_paths(changes), facts, at);
    lemma_detached_agrees(w, changes, s);
    let t = lemma_changes_agree(a, changes, import_only, n, at, time, s);
    lemma_notes_sum(w, a, b, s, s, t);
    lemma_configs_agree(b, changes, touched, facts);
    lemma_notes_same(b, c, t);
    lemma_notes_sum(w, b, c, s, t, t);
    assert(names_agree(t, c)) by {
        assert forall|n: Seq<char>, f: FileId| t.names.contains((n, f)) <==> walk::defs_of(c, f).contains(n) by {
            assert(walk::defs_of(c, f) == walk::defs_of(b, f));
            assert(t.names.contains((n, f)) <==> walk::defs_of(b, f).contains(n));
        }
    }
    lemma_alike_agrees(b, c, t, t);
    let u = lemma_all_symbols_agree(c, order, facts, at, t);
    lemma_notes_sum(w, c, d, s, t, u);
    lemma_all_linked_agree(d, order, walk::change_paths(changes), facts, at, u);
    lemma_notes_sum(w, d, e, s, u, u);
    assert(names_agree(u, e)) by {
        assert forall|n: Seq<char>, f: FileId| u.names.contains((n, f)) <==> walk::defs_of(e, f).contains(n) by {
            assert(walk::defs_of(e, f) == walk::defs_of(d, f));
            assert(u.names.contains((n, f)) <==> walk::defs_of(d, f).contains(n));
        }
    }
    lemma_alike_agrees(d, e, u, u);
    assert(e.log =~= w.log + e.log.skip(w.log.len() as int));
}


// ---- taking an index up again ----

/// The path in a row.
pub open spec fn row_path(f: FileRow) -> Option<Seq<char>> {
    text::opt_view(f.current_path)
}

/// The tables of an index hold what was written: the paths `m` and the sheet
/// `s`.
pub open spec fn rows_keep(rows: &IndexRows, m: Map<i64, Seq<char>>, s: Sheet) -> bool {
    let files = rows.files.files();
    &&& forall|i: int, j: int|
        #![trigger files[i], files[j]]
        0 <= i < j < files.len() ==> files[i].id != files[j].id
    &&& forall|i: int|
        0 <= i < files.len() ==> match row_path(#[trigger] files[i]) {
            Some(p) => m.contains_key(files[i].id.0) && m[files[i].id.0] == p && s.langs.contains_key(files[i].id.0)
                && load::lang_named(text::opt_view(files[i].lang)) == s.langs[files[i].id.0],
            None => !m.contains_key(files[i].id.0),
        }
    &&& forall|f: i64| #[trigger]
        m.contains_key(f) ==> exists|i: int| 0 <= i < files.len() && (#[trigger] files[i]).id.0 == f
    &&& forall|n: Seq<char>, f: FileId| #[trigger] s.names.contains((n, f)) <==> listed(rows.symbols@, n, f)
}

/// A symbol stands in a table.
pub open spec fn listed(symbols: Seq<(String, FileId)>, n: Seq<char>, f: FileId) -> bool {
    exists|j: int| 0 <= j < symbols.len() && (#[trigger] symbols[j]).0@ == n && symbols[j].1 == f
}

/// A file among the first `n` has a path.
pub open spec fn path_among(files: Seq<FileRow>, n: int, p: Seq<char>, id: FileId) -> bool {
    exists|i: int| 0 <= i < n && row_path(#[trigger] files[i]) == Some(p) && files[i].id == id
}

proof fn lemma_live_loaded(rows: &IndexRows, m: Map<i64, Seq<char>>, s: Sheet, w: WalkView, n: int)
    requires
        rows_keep(rows, m, s),
        agrees(s, w),
        paths::shows(m, w.live, Set::empty()),
        0 <= n <= rows.files.files().len(),
    ensures
        ({
            let a = load::live_loaded(walk::nothing_walked(), rows.files.files().take(n));
            &&& a.defs == walk::nothing_walked().defs
            &&& a.symbols == walk::nothing_walked().symbols
            &&& forall|p: Seq<char>| #[trigger]
                a.live.contains_key(p) ==> w.live.contains_key(p) && a.live[p] == w.live[p]
            &&& forall|p: Seq<char>| #[trigger]
                w.live.contains_key(p) && path_among(rows.files.files(), n, p, w.live[p]) ==> a.live.contains_key(p)
            &&& forall|i: i64| #[trigger]
                a.lang_of.contains_key(i) ==> w.lang_of.contains_key(i) && a.lang_of[i] == w.lang_of[i]
            &&& forall|p: Seq<char>| #[trigger]
                w.live.contains_key(p) && path_among(rows.files.files(), n, p, w.live[p]) && w.lang_of.contains_key(
                    w.live[p].0,
                ) ==> a.lang_of.contains_key(w.live[p].0)
        }),
    decreases n,
{
    let files = rows.files.files();
    let a = load::live_loaded(walk::nothing_walked(), files.take(n));
    if n == 0 {
        assert(files.take(0) =~= Seq::<FileRow>::empty());
    } else {
        lemma_live_loaded(rows, m, s, w, n - 1);
        assert(files.take(n).drop_last() =~= files.take(n - 1));
        assert(files.take(n).last() == files[n - 1]);
        let f = files[n - 1];
        assert(files[n - 1].id == f.id);
        match row_path(f) {
            Some(p) => {
                assert(m.contains_key(f.id.0) && m[f.id.0] == p);
                assert(w.live.contains_key(p) && w.live[p].0 == f.id.0);
                assert(w.live[p] == f.id);
                assert(speaks(w, w.live[p], lang::lang_at(p)));
                assert(load::lang_named(text::opt_view(f.lang)) == lang::lang_at(p));
            },
            None => {},
        }
        assert forall|p: Seq<char>| #[trigger]
            w.live.contains_key(p) && path_among(files, n, p, w.live[p]) implies a.live.contains_key(p) by {
            let i = choose|i: int| 0 <= i < n && row_path(#[trigger] files[i]) == Some(p) && files[i].id == w.live[p];
            if i < n - 1 {
                assert(path_among(files, n - 1, p, w.live[p]));
            }
        }
        assert forall|p: Seq<char>| #[trigger]
            w.live.contains_key(p) && path_among(files, n, p, w.live[p]) && w.lang_of.contains_key(
                w.live[p].0,
            ) implies a.lang_of.contains_key(w.live[p].0) by {
            let i = choose|i: int| 0 <= i < n && row_path(#[trigger] files[i]) == Some(p) && files[i].id == w.live[p];
            if i < n - 1 {
                assert(path_among(files, n - 1, p, w.live[p]));
            }
        }
    }
}

proof fn lemma_symbols_loaded(w: WalkView, symbols: Seq<(String, FileId)>)
    requires
        w.defs == walk::nothing_walked().defs,
        w.symbols == walk::nothing_walked().symbols,
    ensures
        ({
            let b = load::symbols_loaded(w, symbols);
            &&& forall|n: Seq<char>, f: FileId|
                #![trigger walk::defs_of(b, f).contains(n)]
                walk::defs_of(b, f).contains(n) <==> listed(symbols, n, f)
            &&& forall|n: Seq<char>, f: FileId|
                #![trigger tables::definers(b.symbols, n).contains(f)]
                tables::definers(b.symbols, n).contains(f) <==> listed(symbols, n, f)
            &&& forall|f: FileId| names::increasing(#[trigger] walk::defs_of(b, f))
            &&& b == (WalkView { defs: b.defs, symbols: b.symbols, ..w })
        }),
    decreases symbols.len(),
{
    let b = load::symbols_loaded(w, symbols);
    if symbols.len() > 0 {
        let d = symbols.drop_last();
        lemma_symbols_loaded(w, d);
        let a = load::symbols_loaded(w, d);
        let (name, id) = symbols.last();
        names::insert_keeps_order(walk::defs_of(a, id), name@);
        assert forall|n: Seq<char>, f: FileId| listed(symbols, n, f) <==> listed(d, n, f) || (n == name@ && f == id) by {
            if listed(symbols, n, f) {
                let j = choose|j: int| 0 <= j < symbols.len() && (#[trigger] symbols[j]).0@ == n && symbols[j].1 == f;
                if j < d.len() {
                    assert(d[j] == symbols[j]);
                }
            }
            if listed(d, n, f) {
                let j = choose|j: int| 0 <= j < d.len() && (#[trigger] d[j]).0@ == n && d[j].1 == f;
                assert(symbols[j] == d[j]);
            }
            if n == name@ && f == id {
                assert(symbols[symbols.len() - 1].0@ == n);
            }
        }
        assert forall|f: FileId| names::increasing(#[trigger] walk::defs_of(b, f)) by {
            if f == id {
            } else {
                assert(f.0 != id.0);
                assert(walk::defs_of(b, f) == walk::defs_of(a, f));
            }
        }
        assert forall|n: Seq<char>, f: FileId|
            #![trigger walk::defs_of(b, f).contains(n)]
            walk::defs_of(b, f).contains(n) <==> listed(symbols, n, f) by {
            if f != id {
                assert(f.0 != id.0);
                assert(walk::defs_of(b, f) == walk::defs_of(a, f));
            }
            assert(walk::defs_of(a, f).contains(n) <==> listed(d, n, f));
        }
        assert forall|n: Seq<char>, f: FileId|
            #![trigger tables::definers(b.symbols, n).contains(f)]
            tables::definers(b.symbols, n).contains(f) <==> listed(symbols, n, f) by {
            assert(tables::definers(a.symbols, n).contains(f) <==> listed(d, n, f));
        }
    }
}

proof fn lemma_configs_loaded(w: WalkView, configs: Seq<(String, Vec<u8>)>)
    ensures
        ({
            let b = load::configs_loaded(w, configs);
            b == (WalkView { go_module: b.go_module, rust_crates: b.rust_crates, ..w })
        }),
    decreases configs.len(),
{
    if configs.len() > 0 {
        lemma_configs_loaded(w, configs.drop_last());
    }
}

/// Law: a walk that is rebuilt from an index that holds what another walk
/// wrote knows the files that the other had, their languages and the names
/// that they define, and has the edges open that the other had.
pub proof fn resuming_gives_back(
    rows: &IndexRows,
    commits: Seq<CommitRow>,
    w: WalkView,
    m: Map<i64, Seq<char>>,
    s: Sheet,
)
    requires
        agrees(s, w),
        paths::shows(m, w.live, Set::empty()),
        rows_keep(rows, m, s),
        load::open_loaded(rows.edges@, rows.intervals@) == w.open,
    ensures
        ({
            let r = load::state_loaded(rows, commits);
            &&& r.live == w.live
            &&& r.lang_of == w.lang_of
            &&& r.open == w.open
            &&& forall|n: Seq<char>, f: FileId| #[trigger]
                walk::defs_of(r, f).contains(n) <==> walk::defs_of(w, f).contains(n)
            &&& forall|n: Seq<char>, f: FileId| #[trigger]
                tables::definers(r.symbols, n).contains(f) <==> walk::defs_of(w, f).contains(n)
        }),
{
    let files = rows.files.files();
    let n = files.len() as int;
    let a = load::live_loaded(walk::nothing_walked(), files);
    lemma_live_loaded(rows, m, s, w, n);
    assert(files.take(n) =~= files);
    let c = WalkView {
        dead: load::dead_loaded(rows, commits, n),
        open: load::open_loaded(rows.edges@, rows.intervals@),
        next_file: load::next_id(files),
        total: load::meta_number(text::opt_view(rows.imports_total)),
        resolved: load::meta_number(text::opt_view(rows.imports_resolved)),
        ..a
    };
    let b = load::symbols_loaded(c, rows.symbols@);
    lemma_symbols_loaded(c, rows.symbols@);
    lemma_configs_loaded(b, rows.configs@);
    let r = load::state_loaded(rows, commits);
    assert forall|p: Seq<char>| #[trigger] w.live.contains_key(p) implies path_among(files, n, p, w.live[p]) by {
        assert(m.contains_key(w.live[p].0) && m[w.live[p].0] == p);
        let i = choose|i: int| 0 <= i < files.len() && (#[trigger] files[i]).id.0 == w.live[p].0;
        assert(row_path(files[i]) == Some(p));
        assert(files[i].id == w.live[p]);
    }
    assert(a.live =~= w.live);
    assert(a.lang_of =~= w.lang_of) by {
        assert forall|i: i64| #[trigger] w.lang_of.contains_key(i) implies a.lang_of.contains_key(i) by {
            let p = choose|p: Seq<char>| #[trigger] w.live.contains_key(p) && w.live[p].0 == i;
            assert(path_among(files, n, p, w.live[p]));
            assert(w.live.contains_key(p) && w.lang_of.contains_key(w.live[p].0));
        }
    }
    assert forall|x: Seq<char>, f: FileId| #[trigger] walk::defs_of(r, f).contains(x) <==> walk::defs_of(w, f).contains(
        x,
    ) by {
        assert(walk::defs_of(r, f) == walk::defs_of(b, f));
        assert(walk::defs_of(b, f).contains(x) <==> listed(rows.symbols@, x, f));
        assert(s.names.contains((x, f)) <==> walk::defs_of(w, f).contains(x));
    }
    assert forall|x: Seq<char>, f: FileId| #[trigger]
        tables::definers(r.symbols, x).contains(f) <==> walk::defs_of(w, f).contains(x) by {
        assert(tables::definers(b.symbols, x).contains(f) <==> listed(rows.symbols@, x, f));
        assert(s.names.contains((x, f)) <==> walk::defs_of(w, f).contains(x));
    }
}

/// Law: a sheet with nothing on it agrees with a walk that has seen nothing.
pub proof fn empty_sheet_agrees()
    ensures
        agrees(Sheet { names: Set::empty(), langs: Map::empty() }, walk::nothing_walked()),
{
}

} // verus!
