//! The paths that the store shows for files: they are those of the live
//! files, and no two files ever claim one path.

use crate::lang;
use crate::model::{CommitId, FileId};
use crate::open_edges;
use crate::store_op::OpView;
use crate::vcs::{ChangeView, FileChangeView};
use crate::walk::laws;
use crate::walk::{FactsView, WalkView};
use crate::walk;
use vstd::prelude::*;

verus! {

/// The path that a file gets by something logged.
pub open spec fn claim(op: OpView) -> Option<(FileId, Seq<char>)> {
    match op {
        OpView::InsertFile { file, path, lang, born } => Some((file, path)),
        OpView::Resurrect { file, path, at } => Some((file, path)),
        OpView::Rename { file, path, at, confidence } => Some((file, path)),
        _ => None,
    }
}

/// The file that loses its path by something logged.
pub open spec fn loss(op: OpView) -> Option<FileId> {
    match op {
        OpView::ClearPath { file } => Some(file),
        OpView::FileDied { file, at } => Some(file),
        _ => None,
    }
}

/// The paths of files, by id, once something logged is written.
pub open spec fn path_written(m: Map<i64, Seq<char>>, op: OpView) -> Map<i64, Seq<char>> {
    match (claim(op), loss(op)) {
        (Some(c), _) => m.insert(c.0.0, c.1),
        (None, Some(f)) => m.remove(f.0),
        (None, None) => m,
    }
}

/// The paths of files, by id, once what was logged is written.
pub open spec fn held(m: Map<i64, Seq<char>>, ops: Seq<OpView>) -> Map<i64, Seq<char>>
    decreases ops.len(),
{
    if ops.len() == 0 {
        m
    } else {
        path_written(held(m, ops.drop_last()), ops.last())
    }
}

/// A file gets a path while another has it.
pub open spec fn claimed_twice(m: Map<i64, Seq<char>>, op: OpView) -> bool {
    claim(op) matches Some(c) && exists|f: i64| #[trigger] m.contains_key(f) && f != c.0.0 && m[f] == c.1
}

/// No file ever gets a path while another has it.
pub open spec fn never_twice(m: Map<i64, Seq<char>>, ops: Seq<OpView>) -> bool {
    forall|i: int| 0 <= i < ops.len() ==> !claimed_twice(held(m, ops.take(i)), #[trigger] ops[i])
}

/// The paths of files are those of the live files, but for some that are
/// detached.
pub open spec fn shows(m: Map<i64, Seq<char>>, live: Map<Seq<char>, FileId>, detached: Set<Seq<char>>) -> bool {
    &&& forall|f: i64| #[trigger]
        m.contains_key(f) ==> live.contains_key(m[f]) && live[m[f]].0 == f && !detached.contains(m[f])
    &&& forall|p: Seq<char>| #[trigger]
        live.contains_key(p) && !detached.contains(p) ==> m.contains_key(live[p].0) && m[live[p].0] == p
}

/// One walk leads to another, and what it logged on the way claims no path
/// twice and turns the paths `m` into `n`.
pub open spec fn writes(a: WalkView, b: WalkView, m: Map<i64, Seq<char>>, n: Map<i64, Seq<char>>) -> bool {
    &&& a.log.len() <= b.log.len()
    &&& b.log.take(a.log.len() as int) == a.log
    &&& n == held(m, b.log.skip(a.log.len() as int))
    &&& never_twice(m, b.log.skip(a.log.len() as int))
}

proof fn lemma_held_sum(m: Map<i64, Seq<char>>, x: Seq<OpView>, y: Seq<OpView>)
    ensures
        held(m, x + y) == held(held(m, x), y),
    decreases y.len(),
{
    if y.len() == 0 {
        assert(x + y =~= x);
    } else {
        lemma_held_sum(m, x, y.drop_last());
        assert((x + y).drop_last() =~= x + y.drop_last());
    }
}

proof fn lemma_never_sum(m: Map<i64, Seq<char>>, x: Seq<OpView>, y: Seq<OpView>)
    requires
        never_twice(m, x),
        never_twice(held(m, x), y),
    ensures
        never_twice(m, x + y),
{
    let s = x + y;
    assert forall|i: int| 0 <= i < s.len() implies !claimed_twice(held(m, s.take(i)), #[trigger] s[i]) by {
        if i < x.len() {
            assert(s.take(i) =~= x.take(i));
            assert(s[i] == x[i]);
        } else {
            assert(s.take(i) =~= x + y.take(i - x.len()));
            lemma_held_sum(m, x, y.take(i - x.len()));
            assert(s[i] == y[i - x.len()]);
        }
    }
}

pub proof fn lemma_log_sum(a: Seq<OpView>, b: Seq<OpView>, c: Seq<OpView>)
    requires
        a.len() <= b.len() <= c.len(),
        b.take(a.len() as int) == a,
        c.take(b.len() as int) == b,
    ensures
        c.take(a.len() as int) == a,
        c.skip(a.len() as int) == b.skip(a.len() as int) + c.skip(b.len() as int),
{
    assert(c.take(b.len() as int).take(a.len() as int) =~= c.take(a.len() as int));
    assert(c =~= b + c.skip(b.len() as int));
    assert(c.skip(a.len() as int) =~= b.skip(a.len() as int) + c.skip(b.len() as int));
}

pub proof fn lemma_prefix(a: Seq<OpView>, b: Seq<OpView>)
    requires
        a.len() <= b.len(),
        b.take(a.len() as int) == a,
    ensures
        b == a + b.skip(a.len() as int),
{
    assert(b =~= b.take(a.len() as int) + b.skip(a.len() as int));
}

proof fn lemma_writes_sum(
    a: WalkView,
    b: WalkView,
    c: WalkView,
    m: Map<i64, Seq<char>>,
    n: Map<i64, Seq<char>>,
    o: Map<i64, Seq<char>>,
)
    requires
        writes(a, b, m, n),
        writes(b, c, n, o),
    ensures
        writes(a, c, m, o),
{
    let x = b.log.skip(a.log.len() as int);
    let y = c.log.skip(b.log.len() as int);
    lemma_log_sum(a.log, b.log, c.log);
    lemma_held_sum(m, x, y);
    lemma_never_sum(m, x, y);
}

proof fn lemma_writes_by(a: WalkView, b: WalkView, d: Seq<OpView>, m: Map<i64, Seq<char>>)
    requires
        b.log == a.log + d,
        never_twice(m, d),
    ensures
        writes(a, b, m, held(m, d)),
{
    assert(b.log.take(a.log.len() as int) =~= a.log);
    assert(b.log.skip(a.log.len() as int) =~= d);
}

/// Something logged that is no path.
pub open spec fn pathless(op: OpView) -> bool {
    claim(op) is None && loss(op) is None
}

proof fn lemma_pathless(m: Map<i64, Seq<char>>, d: Seq<OpView>)
    requires
        forall|i: int| 0 <= i < d.len() ==> pathless(#[trigger] d[i]),
    ensures
        held(m, d) == m,
        never_twice(m, d),
    decreases d.len(),
{
    if d.len() > 0 {
        assert(pathless(d[d.len() - 1]));
        assert forall|i: int| 0 <= i < d.drop_last().len() implies pathless(#[trigger] d.drop_last()[i]) by {
            assert(pathless(d[i]));
        }
        lemma_pathless(m, d.drop_last());
    }
}

proof fn lemma_writes_nothing(a: WalkView, b: WalkView, d: Seq<OpView>, m: Map<i64, Seq<char>>)
    requires
        b.log == a.log + d,
        forall|i: int| 0 <= i < d.len() ==> pathless(#[trigger] d[i]),
    ensures
        writes(a, b, m, m),
{
    lemma_pathless(m, d);
    lemma_writes_by(a, b, d, m);
}

proof fn lemma_writes_same(a: WalkView, b: WalkView, m: Map<i64, Seq<char>>)
    requires
        a.log == b.log,
    ensures
        writes(a, b, m, m),
{
    assert(b.log =~= a.log + Seq::<OpView>::empty());
    lemma_writes_nothing(a, b, Seq::empty(), m);
}

/// One operation in front of operations that are no paths.
proof fn lemma_writes_one(a: WalkView, b: WalkView, op: OpView, d: Seq<OpView>, m: Map<i64, Seq<char>>)
    requires
        b.log == a.log + (seq![op] + d),
        !claimed_twice(m, op),
        forall|i: int| 0 <= i < d.len() ==> pathless(#[trigger] d[i]),
    ensures
        writes(a, b, m, path_written(m, op)),
{
    let x = seq![op];
    assert(x.drop_last() =~= Seq::<OpView>::empty());
    assert(held(m, x.drop_last()) == m);
    assert(held(m, x) == path_written(m, op));
    assert(never_twice(m, x)) by {
        assert(x.take(0) =~= Seq::<OpView>::empty());
        assert(held(m, x.take(0)) == m);
    }
    lemma_pathless(path_written(m, op), d);
    lemma_held_sum(m, x, d);
    lemma_never_sum(m, x, d);
    lemma_writes_by(a, b, x + d, m);
}

// ---- detaching ----

/// Some change of a commit leaves a path.
pub open spec fn is_left(changes: Seq<FileChangeView>, p: Seq<char>) -> bool {
    exists|k: int| 0 <= k < changes.len() && walk::left_path((#[trigger] changes[k]).change) == Some(p)
}

/// The paths that the first changes of a commit leave.
pub open spec fn all_left(changes: Seq<FileChangeView>) -> Set<Seq<char>> {
    Set::new(|p: Seq<char>| is_left(changes, p))
}

proof fn lemma_detached_writes(w: WalkView, changes: Seq<FileChangeView>, m: Map<i64, Seq<char>>) -> (n: Map<
    i64,
    Seq<char>,
>)
    requires
        laws::apart(w),
        shows(m, w.live, Set::empty()),
    ensures
        writes(w, walk::detached(w, changes), m, n),
        shows(n, w.live, all_left(changes)),
        walk::detached(w, changes).live == w.live,
        walk::detached(w, changes).next_file == w.next_file,
        laws::apart(walk::detached(w, changes)),
    decreases changes.len(),
{
    let a = walk::detached(w, changes);
    if changes.len() == 0 {
        lemma_writes_same(w, w, m);
        assert(all_left(changes) =~= Set::<Seq<char>>::empty());
        m
    } else {
        let d = changes.drop_last();
        let b = walk::detached(w, d);
        let n = lemma_detached_writes(w, d, m);
        let c = changes.last().change;
        assert forall|p: Seq<char>| all_left(changes).contains(p) <==> all_left(d).contains(p) || walk::left_path(c)
            == Some(p) by {
            if is_left(d, p) {
                let k = choose|k: int| 0 <= k < d.len() && walk::left_path((#[trigger] d[k]).change) == Some(p);
                assert(changes[k] == d[k]);
            }
            if is_left(changes, p) {
                let k = choose|k: int|
                    0 <= k < changes.len() && walk::left_path((#[trigger] changes[k]).change) == Some(p);
                if k < d.len() {
                    assert(d[k] == changes[k]);
                }
            }
            if walk::left_path(c) == Some(p) {
                assert(changes[changes.len() - 1].change == c);
            }
        }
        match walk::left_path(c) {
            Some(p) => {
                if w.live.contains_key(p) {
                    let op = OpView::ClearPath { file: w.live[p] };
                    assert(a.log =~= b.log + (seq![op] + Seq::<OpView>::empty()));
                    lemma_writes_one(b, a, op, Seq::empty(), n);
                    lemma_writes_sum(w, b, a, m, n, path_written(n, op));
                    let o = path_written(n, op);
                    assert forall|q: Seq<char>| #[trigger]
                        w.live.contains_key(q) && !all_left(changes).contains(q) implies o.contains_key(w.live[q].0)
                        && o[w.live[q].0] == q by {
                        assert(w.live[q] != w.live[p]);
                    }
                    o
                } else {
                    lemma_writes_same(b, a, n);
                    lemma_writes_sum(w, b, a, m, n, n);
                    n
                }
            },
            None => {
                lemma_writes_same(b, a, n);
                lemma_writes_sum(w, b, a, m, n, n);
                n
            },
        }
    }
}

// ---- changes ----

/// The path that a change gives to a file, in a commit that starts with some
/// live files.
pub open spec fn given_path(live: Map<Seq<char>, FileId>, changes: Seq<FileChangeView>, c: ChangeView) -> Option<
    Seq<char>,
> {
    match c {
        ChangeView::Deleted { path } => None,
        ChangeView::Renamed { from, to } => Some(to),
        ChangeView::Added { path } => Some(path),
        ChangeView::Modified { path } => if live.contains_key(path) && !is_left(changes, path) {
            None
        } else {
            Some(path)
        },
    }
}

/// What a diff of two trees keeps to: a path that a change gives to a file is
/// a new one or one that another change leaves, and no two changes give one
/// path.
pub open spec fn room_to_move(live: Map<Seq<char>, FileId>, changes: Seq<FileChangeView>) -> bool {
    &&& forall|k: int|
        0 <= k < changes.len() ==> (given_path(live, changes, (#[trigger] changes[k]).change) matches Some(p) ==> (
        !live.contains_key(p) || is_left(changes, p)))
    &&& forall|j: int, k: int|
        0 <= j < k < changes.len() && given_path(live, changes, (#[trigger] changes[j]).change) is Some ==> given_path(
            live,
            changes,
            changes[j].change,
        ) != given_path(live, changes, (#[trigger] changes[k]).change)
}

/// One of the first `n` changes gives a path.
pub open spec fn given_before(live: Map<Seq<char>, FileId>, changes: Seq<FileChangeView>, n: int, p: Seq<char>) -> bool {
    exists|j: int| 0 <= j < n && given_path(live, changes, (#[trigger] changes[j]).change) == Some(p)
}

/// Where a walk stands behind the first `n` changes of a commit that started
/// with the live files `live`: the store shows the live files but for those
/// that wait for their change, and what it shows was there and stays, or was
/// given.
pub open spec fn underway(
    live: Map<Seq<char>, FileId>,
    changes: Seq<FileChangeView>,
    n: int,
    w: WalkView,
    m: Map<i64, Seq<char>>,
    waiting: Set<Seq<char>>,
) -> bool {
    &&& laws::apart(w)
    &&& shows(m, w.live, waiting)
    &&& forall|p: Seq<char>| #[trigger]
        waiting.contains(p) ==> exists|k: int|
            n <= k < changes.len() && walk::left_path((#[trigger] changes[k]).change) == Some(p)
    &&& forall|p: Seq<char>| #[trigger]
        w.live.contains_key(p) && !waiting.contains(p) ==> (live.contains_key(p) && !is_left(changes, p)) || given_before(
            live,
            changes,
            n,
            p,
        )
    &&& forall|p: Seq<char>| #[trigger] live.contains_key(p) && !is_left(changes, p) ==> w.live.contains_key(p)
}

proof fn lemma_given_more(live: Map<Seq<char>, FileId>, changes: Seq<FileChangeView>, n: int)
    requires
        0 <= n < changes.len(),
    ensures
        forall|p: Seq<char>| #[trigger]
            given_before(live, changes, n, p) ==> given_before(live, changes, n + 1, p),
        given_path(live, changes, changes[n].change) matches Some(p) ==> given_before(live, changes, n + 1, p),
{
    assert forall|p: Seq<char>| #[trigger] given_before(live, changes, n, p) implies given_before(
        live,
        changes,
        n + 1,
        p,
    ) by {
        let j = choose|j: int| 0 <= j < n && given_path(live, changes, (#[trigger] changes[j]).change) == Some(p);
        assert(given_path(live, changes, changes[j].change) == Some(p));
    }
}

/// What still waits once it is no longer the turn of a path.
proof fn lemma_waiting(changes: Seq<FileChangeView>, n: int, waiting: Set<Seq<char>>, rest: Set<Seq<char>>)
    requires
        0 <= n < changes.len(),
        forall|p: Seq<char>| #[trigger]
            waiting.contains(p) ==> exists|k: int|
                n <= k < changes.len() && walk::left_path((#[trigger] changes[k]).change) == Some(p),
        rest.subset_of(waiting),
        walk::left_path(changes[n].change) matches Some(p) ==> !rest.contains(p),
    ensures
        forall|p: Seq<char>| #[trigger]
            rest.contains(p) ==> exists|k: int|
                n + 1 <= k < changes.len() && walk::left_path((#[trigger] changes[k]).change) == Some(p),
{
    assert forall|p: Seq<char>| #[trigger] rest.contains(p) implies exists|k: int|
        n + 1 <= k < changes.len() && walk::left_path((#[trigger] changes[k]).change) == Some(p) by {
        assert(waiting.contains(p));
        let k = choose|k: int| n <= k < changes.len() && walk::left_path((#[trigger] changes[k]).change) == Some(p);
        assert(k != n);
        assert(walk::left_path(changes[k].change) == Some(p));
    }
}

/// A file is added.
proof fn lemma_added_writes(
    live: Map<Seq<char>, FileId>,
    changes: Seq<FileChangeView>,
    n: int,
    w: WalkView,
    m: Map<i64, Seq<char>>,
    waiting: Set<Seq<char>>,
    path: Seq<char>,
    at: CommitId,
    time: i64,
) -> (r: (Map<i64, Seq<char>>, Set<Seq<char>>))
    requires
        0 <= n < changes.len(),
        underway(live, changes, n, w, m, waiting),
        room_to_move(live, changes),
        given_path(live, changes, changes[n].change) == Some(path),
        i64::MIN <= w.next_file < i64::MAX,
        walk::left_path(changes[n].change) matches Some(p) ==> !w.live.contains_key(p),
    ensures
        writes(w, walk::file_added(w, path, changes[n].new_blob, at, time), m, r.0),
        underway(live, changes, n + 1, walk::file_added(w, path, changes[n].new_blob, at, time), r.0, r.1),
{
    let blob = changes[n].new_blob;
    let b = walk::file_added(w, path, blob, at, time);
    let id = walk::added_id(w, path, blob, time);
    laws::adding_keeps_identities(w, path, blob, at, time);
    let op = b.log[w.log.len() as int];
    assert(!(w.live.contains_key(path) && !waiting.contains(path))) by {
        if w.live.contains_key(path) && !waiting.contains(path) {
            if given_before(live, changes, n, path) {
                let j = choose|j: int|
                    0 <= j < n && given_path(live, changes, (#[trigger] changes[j]).change) == Some(path);
                assert(given_path(live, changes, changes[j].change) != given_path(live, changes, changes[n].change));
            }
        }
    }
    if walk::comes_back(w, path, blob, time) {
        let back = walk::reopened(b.live, w.dead[path].closed_in);
        assert(op == OpView::Resurrect { file: id, path, at });
        assert(b.log =~= w.log + (seq![op] + walk::reopenings(back, at)));
        lemma_writes_one(w, b, op, walk::reopenings(back, at), m);
    } else {
        assert(op == OpView::InsertFile { file: id, path, lang: lang::lang_at(path), born: at });
        assert(b.log =~= w.log + (seq![op] + Seq::<OpView>::empty()));
        lemma_writes_one(w, b, op, Seq::empty(), m);
    }
    let o = path_written(m, op);
    let rest = match walk::left_path(changes[n].change) {
        Some(p) => waiting.remove(path).remove(p),
        None => waiting.remove(path),
    };
    lemma_waiting(changes, n, waiting, rest);
    lemma_given_more(live, changes, n);
    assert(shows(o, b.live, rest)) by {
        assert forall|p: Seq<char>| #[trigger] b.live.contains_key(p) && !rest.contains(p) implies o.contains_key(
            b.live[p].0,
        ) && o[b.live[p].0] == p by {
            if p != path {
                assert(w.live.contains_key(p) && !waiting.contains(p));
                assert(b.live[p] != b.live[path]);
            }
        }
        assert forall|f: i64| #[trigger] o.contains_key(f) implies b.live.contains_key(o[f]) && b.live[o[f]].0 == f
            && !rest.contains(o[f]) by {
            if f != id.0 {
                assert(m.contains_key(f));
                assert(w.live.contains_key(m[f]));
            }
        }
    }
    assert forall|p: Seq<char>| #[trigger] b.live.contains_key(p) && !rest.contains(p) implies (live.contains_key(p)
        && !is_left(changes, p)) || given_before(live, changes, n + 1, p) by {
        if p != path {
            assert(w.live.contains_key(p) && !waiting.contains(p));
        }
    }
    (o, rest)
}

/// Something logged that is no path, as the last thing.
proof fn lemma_touch_writes(
    live: Map<Seq<char>, FileId>,
    changes: Seq<FileChangeView>,
    n: int,
    w: WalkView,
    b: WalkView,
    op: OpView,
    m: Map<i64, Seq<char>>,
    o: Map<i64, Seq<char>>,
    waiting: Set<Seq<char>>,
)
    requires
        writes(w, b, m, o),
        underway(live, changes, n, b, o, waiting),
        pathless(op),
    ensures
        writes(w, walk::logged(b, op), m, o),
        underway(live, changes, n, walk::logged(b, op), o, waiting),
{
    let c = walk::logged(b, op);
    assert(c.log =~= b.log + seq![op]);
    lemma_writes_nothing(b, c, seq![op], o);
    lemma_writes_sum(w, b, c, m, o, o);
    assert(laws::apart(c));
}

#[verifier::spinoff_prover]
proof fn lemma_change_writes(
    live: Map<Seq<char>, FileId>,
    changes: Seq<FileChangeView>,
    n: int,
    w: WalkView,
    m: Map<i64, Seq<char>>,
    waiting: Set<Seq<char>>,
    import_only: bool,
    at: CommitId,
    time: i64,
) -> (r: (Map<i64, Seq<char>>, Set<Seq<char>>))
    requires
        0 <= n < changes.len(),
        underway(live, changes, n, w, m, waiting),
        room_to_move(live, changes),
        i64::MIN <= w.next_file < i64::MAX,
    ensures
        writes(w, walk::change_applied(w, changes[n], import_only, at, time), m, r.0),
        underway(live, changes, n + 1, walk::change_applied(w, changes[n], import_only, at, time), r.0, r.1),
{
    let c = changes[n];
    let z = walk::change_applied(w, c, import_only, at, time);
    lemma_given_more(live, changes, n);
    match c.change {
        ChangeView::Deleted { path } => {
            let rest = waiting.remove(path);
            lemma_waiting(changes, n, waiting, rest);
            if w.live.contains_key(path) {
                let b = walk::file_gone(w, path, c.old_blob, at, time);
                let id = w.live[path];
                let op = OpView::FileDied { file: id, at };
                let outs = open_edges::keys_in_order(open_edges::out_of(w.open, id));
                let ins = open_edges::keys_in_order(open_edges::into(w.open, id));
                let d = seq![OpView::CloseSymbols { file: id, at }] + walk::closings(outs, at) + walk::closings(ins, at);
                assert(b.log =~= w.log + (seq![op] + d));
                lemma_writes_one(w, b, op, d, m);
                laws::gone_keeps_identities(w, path, c.old_blob, at, time);
                let o = m.remove(id.0);
                assert(path_written(m, op) == o);
                assert(shows(o, b.live, rest)) by {
                    assert forall|p: Seq<char>| #[trigger]
                        b.live.contains_key(p) && !rest.contains(p) implies o.contains_key(b.live[p].0)
                        && o[b.live[p].0] == p by {
                        assert(w.live.contains_key(p) && !waiting.contains(p));
                        assert(w.live[p] != w.live[path]);
                    }
                }
                assert forall|p: Seq<char>| #[trigger]
                    b.live.contains_key(p) && !rest.contains(p) implies (live.contains_key(p) && !is_left(changes, p))
                    || given_before(live, changes, n + 1, p) by {
                    assert(w.live.contains_key(p) && !waiting.contains(p));
                }
                assert(walk::left_path(changes[n].change) == Some(path));
                lemma_touch_writes(
                    live,
                    changes,
                    n + 1,
                    w,
                    b,
                    walk::touch(c, id, crate::model::ChangeKind::Deleted, import_only, at),
                    m,
                    o,
                    rest,
                );
                (o, rest)
            } else {
                lemma_writes_same(w, w, m);
                assert forall|p: Seq<char>| #[trigger]
                    w.live.contains_key(p) && !rest.contains(p) implies (live.contains_key(p) && !is_left(changes, p))
                    || given_before(live, changes, n + 1, p) by {
                    assert(w.live.contains_key(p) && !waiting.contains(p));
                }
                (m, rest)
            }
        },
        ChangeView::Renamed { from, to } => {
            if w.live.contains_key(from) {
                let b = walk::file_renamed(w, from, to, at, c.confidence);
                let id = w.live[from];
                let op = OpView::Rename { file: id, path: to, at, confidence: c.confidence };
                let d = seq![OpView::SetLang { file: id, lang: lang::lang_at(to) }];
                assert(b.log =~= w.log + (seq![op] + d));
                assert(!claimed_twice(m, op)) by {
                    if claimed_twice(m, op) {
                        let f = choose|f: i64| #[trigger] m.contains_key(f) && f != id.0 && m[f] == to;
                        assert(w.live.contains_key(to) && !waiting.contains(to));
                        if given_before(live, changes, n, to) {
                            let j = choose|j: int|
                                0 <= j < n && given_path(live, changes, (#[trigger] changes[j]).change) == Some(to);
                            assert(given_path(live, changes, changes[j].change) != given_path(
                                live,
                                changes,
                                changes[n].change,
                            ));
                        }
                    }
                }
                lemma_writes_one(w, b, op, d, m);
                laws::renaming_keeps_identities(w, from, to, at, c.confidence);
                let o = m.insert(id.0, to);
                let rest = waiting.remove(from).remove(to);
                lemma_waiting(changes, n, waiting, rest);
                assert(path_written(m, op) == o);
                assert(shows(o, b.live, rest)) by {
                    assert forall|p: Seq<char>| #[trigger]
                        b.live.contains_key(p) && !rest.contains(p) implies o.contains_key(b.live[p].0)
                        && o[b.live[p].0] == p by {
                        if p != to {
                            assert(w.live.contains_key(p) && !waiting.contains(p));
                            assert(w.live[p] != w.live[from]);
                        }
                    }
                    assert forall|f: i64| #[trigger] o.contains_key(f) implies b.live.contains_key(o[f])
                        && b.live[o[f]].0 == f && !rest.contains(o[f]) by {
                        if f != id.0 {
                            assert(m.contains_key(f));
                            assert(m[f] != to) by {
                                if m[f] == to {
                                    assert(claimed_twice(m, op));
                                }
                            }
                            assert(m[f] != from);
                        }
                    }
                }
                assert forall|p: Seq<char>| #[trigger]
                    b.live.contains_key(p) && !rest.contains(p) implies (live.contains_key(p) && !is_left(changes, p))
                    || given_before(live, changes, n + 1, p) by {
                    if p != to {
                        assert(w.live.contains_key(p) && !waiting.contains(p));
                    }
                }
                assert(walk::left_path(changes[n].change) == Some(from));
                lemma_touch_writes(
                    live,
                    changes,
                    n + 1,
                    w,
                    b,
                    walk::touch(c, id, crate::model::ChangeKind::Renamed, import_only, at),
                    m,
                    o,
                    rest,
                );
                (o, rest)
            } else {
                let r = lemma_added_writes(live, changes, n, w, m, waiting, to, at, time);
                let b = walk::file_added(w, to, c.new_blob, at, time);
                let id = walk::added_id(w, to, c.new_blob, time);
                lemma_touch_writes(
                    live,
                    changes,
                    n + 1,
                    w,
                    b,
                    walk::touch(c, id, crate::model::ChangeKind::Added, import_only, at),
                    m,
                    r.0,
                    r.1,
                );
                r
            }
        },
        ChangeView::Modified { path } => {
            if w.live.contains_key(path) {
                lemma_waiting(changes, n, waiting, waiting);
                lemma_writes_same(w, w, m);
                lemma_touch_writes(
                    live,
                    changes,
                    n + 1,
                    w,
                    w,
                    walk::touch(c, w.live[path], crate::model::ChangeKind::Modified, import_only, at),
                    m,
                    m,
                    waiting,
                );
                (m, waiting)
            } else {
                assert(given_path(live, changes, c.change) == Some(path));
                let r = lemma_added_writes(live, changes, n, w, m, waiting, path, at, time);
                let b = walk::file_added(w, path, c.new_blob, at, time);
                let id = walk::added_id(w, path, c.new_blob, time);
                lemma_touch_writes(
                    live,
                    changes,
                    n + 1,
                    w,
                    b,
                    walk::touch(c, id, crate::model::ChangeKind::Modified, import_only, at),
                    m,
                    r.0,
                    r.1,
                );
                r
            }
        },
        ChangeView::Added { path } => {
            let r = lemma_added_writes(live, changes, n, w, m, waiting, path, at, time);
            let b = walk::file_added(w, path, c.new_blob, at, time);
            let id = walk::added_id(w, path, c.new_blob, time);
            lemma_touch_writes(
                live,
                changes,
                n + 1,
                w,
                b,
                walk::touch(c, id, crate::model::ChangeKind::Added, import_only, at),
                m,
                r.0,
                r.1,
            );
            r
        },
    }
}

proof fn lemma_changes_write(
    live: Map<Seq<char>, FileId>,
    w: WalkView,
    changes: Seq<FileChangeView>,
    import_only: Seq<bool>,
    n: int,
    at: CommitId,
    time: i64,
    m: Map<i64, Seq<char>>,
    waiting: Set<Seq<char>>,
) -> (r: (Map<i64, Seq<char>>, Set<Seq<char>>))
    requires
        0 <= n <= changes.len(),
        underway(live, changes, 0, w, m, waiting),
        room_to_move(live, changes),
        i64::MIN <= w.next_file,
        w.next_file + n <= i64::MAX,
    ensures
        writes(w, walk::changes_applied(w, changes, import_only, n, at, time), m, r.0),
        underway(live, changes, n, walk::changes_applied(w, changes, import_only, n, at, time), r.0, r.1),
        w.next_file <= walk::changes_applied(w, changes, import_only, n, at, time).next_file <= w.next_file + n,
    decreases n,
{
    if n == 0 {
        lemma_writes_same(w, w, m);
        (m, waiting)
    } else {
        let s = lemma_changes_write(live, w, changes, import_only, n - 1, at, time, m, waiting);
        let b = walk::changes_applied(w, changes, import_only, n - 1, at, time);
        let r = lemma_change_writes(live, changes, n - 1, b, s.0, s.1, import_only[n - 1], at, time);
        lemma_writes_sum(w, b, walk::change_applied(b, changes[n - 1], import_only[n - 1], at, time), m, s.0, r.0);
        r
    }
}

// ---- the rest of a commit ----

proof fn lemma_configs_write(
    w: WalkView,
    changes: Seq<FileChangeView>,
    touched: Seq<(FileId, int)>,
    facts: Seq<FactsView>,
)
    ensures
        walk::configs_read(w, changes, touched, facts).log == w.log,
        walk::configs_read(w, changes, touched, facts).live == w.live,
    decreases touched.len(),
{
    if touched.len() > 0 {
        lemma_configs_write(w, changes, touched.drop_last(), facts);
    }
}

proof fn lemma_symbols_write(
    w: WalkView,
    order: Seq<(FileId, int)>,
    facts: Seq<FactsView>,
    at: CommitId,
    m: Map<i64, Seq<char>>,
)
    ensures
        writes(w, walk::all_symbols_updated(w, order, facts, at), m, m),
        walk::all_symbols_updated(w, order, facts, at).live == w.live,
    decreases order.len(),
{
    if order.len() == 0 {
        lemma_writes_same(w, w, m);
    } else {
        let b = walk::all_symbols_updated(w, order.drop_last(), facts, at);
        lemma_symbols_write(w, order.drop_last(), facts, at, m);
        let (id, i) = order.last();
        let n = walk::symbols_updated(b, id, walk::parse_of(facts[i]), at);
        let d = n.log.skip(b.log.len() as int);
        assert(n.log =~= b.log + d);
        lemma_writes_nothing(b, n, d, m);
        lemma_writes_sum(w, b, n, m, m, m);
    }
}

proof fn lemma_edges_write(
    w: WalkView,
    order: Seq<(FileId, int)>,
    paths: Seq<Seq<char>>,
    facts: Seq<FactsView>,
    at: CommitId,
    m: Map<i64, Seq<char>>,
)
    ensures
        writes(w, walk::all_linked(w, order, paths, facts, at), m, m),
        walk::all_linked(w, order, paths, facts, at).live == w.live,
    decreases order.len(),
{
    if order.len() == 0 {
        lemma_writes_same(w, w, m);
    } else {
        let b = walk::all_linked(w, order.drop_last(), paths, facts, at);
        lemma_edges_write(w, order.drop_last(), paths, facts, at, m);
        let (id, i) = order.last();
        let n = walk::file_linked(b, id, paths[i], walk::parse_of(facts[i]), at);
        let d = n.log.skip(b.log.len() as int);
        assert(n.log =~= b.log + d);
        lemma_writes_nothing(b, n, d, m);
        lemma_writes_sum(w, b, n, m, m, m);
    }
}

proof fn lemma_parses_write(
    w: WalkView,
    order: Seq<(FileId, int)>,
    paths: Seq<Seq<char>>,
    facts: Seq<FactsView>,
    at: CommitId,
    m: Map<i64, Seq<char>>,
)
    ensures
        writes(w, walk::parses_applied(w, order, paths, facts, at), m, m),
        walk::parses_applied(w, order, paths, facts, at).live == w.live,
{
    let d = walk::all_symbols_updated(w, order, facts, at);
    let e = walk::all_linked(d, order, paths, facts, at);
    lemma_symbols_write(w, order, facts, at, m);
    lemma_edges_write(d, order, paths, facts, at, m);
    lemma_writes_sum(w, d, e, m, m, m);
}

proof fn lemma_moves_write(
    w: WalkView,
    changes: Seq<FileChangeView>,
    import_only: Seq<bool>,
    at: CommitId,
    time: i64,
    m: Map<i64, Seq<char>>,
) -> (r: Map<i64, Seq<char>>)
    requires
        laws::apart(w),
        i64::MIN <= w.next_file,
        w.next_file + changes.len() <= i64::MAX,
        room_to_move(w.live, changes),
        shows(m, w.live, Set::empty()),
    ensures
        ({
            let b = walk::changes_applied(
                walk::detached(w, changes),
                changes,
                import_only,
                changes.len() as int,
                at,
                time,
            );
            writes(w, b, m, r) && shows(r, b.live, Set::empty())
        }),
{
    let n = changes.len() as int;
    let a = walk::detached(w, changes);
    let b = walk::changes_applied(a, changes, import_only, n, at, time);
    let o = lemma_detached_writes(w, changes, m);
    assert(underway(w.live, changes, 0, a, o, all_left(changes))) by {
        assert forall|p: Seq<char>| #[trigger] all_left(changes).contains(p) implies exists|k: int|
            0 <= k < changes.len() && walk::left_path((#[trigger] changes[k]).change) == Some(p) by {
            assert(is_left(changes, p));
        }
    }
    let r = lemma_changes_write(w.live, a, changes, import_only, n, at, time, o, all_left(changes));
    lemma_writes_sum(w, a, b, m, o, r.0);
    assert(r.1 =~= Set::<Seq<char>>::empty()) by {
        assert forall|p: Seq<char>| !r.1.contains(p) by {
            if r.1.contains(p) {
                let k = choose|k: int|
                    n <= k < changes.len() && walk::left_path((#[trigger] changes[k]).change) == Some(p);
                assert(false);
            }
        }
    }
    r.0
}

/// Law: a commit that keeps to what a diff of two trees does gives no file a
/// path that another has, at any moment of its writing, and behind it the
/// store shows the paths of the live files and no others.
pub proof fn store_shows_live_files(
    w: WalkView,
    at: CommitId,
    time: i64,
    changes: Seq<FileChangeView>,
    import_only: Seq<bool>,
    facts: Seq<FactsView>,
    m: Map<i64, Seq<char>>,
)
    requires
        laws::apart(w),
        i64::MIN <= w.next_file,
        w.next_file + changes.len() <= i64::MAX,
        changes.len() <= import_only.len(),
        room_to_move(w.live, changes),
        shows(m, w.live, Set::empty()),
    ensures
        ({
            let n = walk::commit_applied(w, at, time, changes, import_only, facts);
            let ops = n.log.skip(w.log.len() as int);
            n.log == w.log + ops && never_twice(m, ops) && shows(held(m, ops), n.live, Set::empty())
        }),
{
    let n = walk::least(changes.len() as int, import_only.len() as int);
    let a = walk::detached(w, changes);
    let b = walk::changes_applied(a, changes, import_only, n, at, time);
    let touched = walk::files_touched(a, changes, import_only, n, at, time);
    let c = walk::configs_read(b, changes, touched, facts);
    let order = walk::parse_order(walk::parse_jobs(c.lang_of, changes, touched), facts);
    let e = walk::parses_applied(c, order, walk::change_paths(changes), facts, at);
    let r = lemma_moves_write(w, changes, import_only, at, time, m);
    lemma_configs_write(b, changes, touched, facts);
    lemma_writes_same(b, c, r);
    lemma_writes_sum(w, b, c, m, r, r);
    lemma_parses_write(c, order, walk::change_paths(changes), facts, at, r);
    lemma_writes_sum(w, c, e, m, r, r);
    lemma_prefix(w.log, e.log);
}

/// Law: a store that shows nothing shows the live files of a walk that has
/// seen nothing.
pub proof fn empty_store_shows_nothing()
    ensures
        shows(Map::empty(), walk::nothing_walked().live, Set::empty()),
{
}

} // verus!
