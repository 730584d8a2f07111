//! What holds of every walk.

use crate::changes;
use crate::classify;
use crate::lang;
use crate::model::{CommitId, EdgeKind, FileId, Resolution};
use crate::open_edges::EdgeKey;
use crate::open_edges;
use crate::resolve;
use crate::store_op::OpView;
use crate::vcs::FileChangeView;
use crate::vcs;
use crate::walk::{FactsView, WalkView};
use crate::walk;
use vstd::prelude::*;

verus! {

// ---- identities ----

/// No two paths lead to one file, no deleted file has a path, no two deleted
/// files are one, and every file got its id in turn.
pub open spec fn apart(w: WalkView) -> bool {
    &&& forall|p: Seq<char>, q: Seq<char>|
        #![trigger w.live[p], w.live[q]]
        w.live.contains_key(p) && w.live.contains_key(q) && p != q ==> w.live[p] != w.live[q]
    &&& forall|p: Seq<char>, q: Seq<char>|
        #![trigger w.live[p], w.dead[q]]
        w.live.contains_key(p) && w.dead.contains_key(q) ==> w.live[p] != w.dead[q].file
    &&& forall|p: Seq<char>, q: Seq<char>|
        #![trigger w.dead[p], w.dead[q]]
        w.dead.contains_key(p) && w.dead.contains_key(q) && p != q ==> w.dead[p].file != w.dead[q].file
    &&& forall|p: Seq<char>| #[trigger] w.live.contains_key(p) ==> w.live[p].0 < w.next_file
    &&& forall|p: Seq<char>| #[trigger] w.dead.contains_key(p) ==> w.dead[p].file.0 < w.next_file
}

/// Law: adding a file keeps identities apart.
pub proof fn adding_keeps_identities(w: WalkView, path: Seq<char>, blob: Option<Seq<u8>>, at: CommitId, time: i64)
    requires
        apart(w),
        i64::MIN <= w.next_file < i64::MAX,
    ensures
        apart(walk::file_added(w, path, blob, at, time)),
{
    let n = walk::file_added(w, path, blob, at, time);
    let id = walk::added_id(w, path, blob, time);
    assert forall|p: Seq<char>, q: Seq<char>|
        #![trigger n.live[p], n.live[q]]
        n.live.contains_key(p) && n.live.contains_key(q) && p != q implies n.live[p] != n.live[q] by {
        if p != path {
            assert(w.live.contains_key(p));
            assert(w.live[p] == n.live[p]);
        }
        if q != path {
            assert(w.live.contains_key(q));
            assert(w.live[q] == n.live[q]);
        }
        if walk::comes_back(w, path, blob, time) {
            assert(w.dead[path].file == id);
        }
    }
    assert forall|p: Seq<char>, q: Seq<char>|
        #![trigger n.live[p], n.dead[q]]
        n.live.contains_key(p) && n.dead.contains_key(q) implies n.live[p] != n.dead[q].file by {
        assert(w.dead.contains_key(q) && w.dead[q] == n.dead[q]);
        if p != path {
            assert(w.live.contains_key(p) && w.live[p] == n.live[p]);
        } else if walk::comes_back(w, path, blob, time) {
            assert(q != path);
            assert(w.dead[path].file != w.dead[q].file);
        }
    }
    assert forall|p: Seq<char>, q: Seq<char>|
        #![trigger n.dead[p], n.dead[q]]
        n.dead.contains_key(p) && n.dead.contains_key(q) && p != q implies n.dead[p].file != n.dead[q].file by {
        assert(w.dead.contains_key(p) && w.dead[p] == n.dead[p]);
        assert(w.dead.contains_key(q) && w.dead[q] == n.dead[q]);
    }
    assert forall|p: Seq<char>| #[trigger] n.live.contains_key(p) implies n.live[p].0 < n.next_file by {
        if p != path {
            assert(w.live.contains_key(p));
        } else if walk::comes_back(w, path, blob, time) {
            assert(w.dead.contains_key(path));
        }
    }
    assert forall|p: Seq<char>| #[trigger] n.dead.contains_key(p) implies n.dead[p].file.0 < n.next_file by {
        assert(w.dead.contains_key(p));
    }
}

/// Law: deleting a file keeps identities apart.
pub proof fn gone_keeps_identities(w: WalkView, path: Seq<char>, blob: Option<Seq<u8>>, at: CommitId, time: i64)
    requires
        apart(w),
        w.live.contains_key(path),
    ensures
        apart(walk::file_gone(w, path, blob, at, time)),
{
    let n = walk::file_gone(w, path, blob, at, time);
    let id = w.live[path];
    assert(n.dead[path].file == id);
    assert forall|p: Seq<char>| #[trigger] n.live.contains_key(p) implies w.live.contains_key(p) && n.live[p]
        == w.live[p] && p != path by {}
    assert forall|p: Seq<char>| #[trigger] n.dead.contains_key(p) && p != path implies w.dead.contains_key(p)
        && n.dead[p] == w.dead[p] by {}
    assert forall|p: Seq<char>, q: Seq<char>|
        #![trigger n.live[p], n.dead[q]]
        n.live.contains_key(p) && n.dead.contains_key(q) implies n.live[p] != n.dead[q].file by {
        assert(w.live[p] != w.live[path]);
        if q != path {
            assert(w.live[p] != w.dead[q].file);
        }
    }
    assert forall|p: Seq<char>, q: Seq<char>|
        #![trigger n.dead[p], n.dead[q]]
        n.dead.contains_key(p) && n.dead.contains_key(q) && p != q implies n.dead[p].file != n.dead[q].file by {
        if p == path {
            assert(w.live[path] != w.dead[q].file);
        } else if q == path {
            assert(w.live[path] != w.dead[p].file);
        } else {
            assert(w.dead[p].file != w.dead[q].file);
        }
    }
}

/// Law: renaming a file keeps identities apart.
pub proof fn renaming_keeps_identities(w: WalkView, from: Seq<char>, to: Seq<char>, at: CommitId, confidence: u8)
    requires
        apart(w),
        w.live.contains_key(from),
    ensures
        apart(walk::file_renamed(w, from, to, at, confidence)),
{
    let n = walk::file_renamed(w, from, to, at, confidence);
    let id = w.live[from];
    assert forall|p: Seq<char>| #[trigger] n.live.contains_key(p) && p != to implies w.live.contains_key(p)
        && n.live[p] == w.live[p] && p != from by {}
    assert(n.live[to] == id);
    assert forall|p: Seq<char>, q: Seq<char>|
        #![trigger n.live[p], n.live[q]]
        n.live.contains_key(p) && n.live.contains_key(q) && p != q implies n.live[p] != n.live[q] by {
        if p == to {
            assert(w.live[from] != w.live[q]);
        } else if q == to {
            assert(w.live[from] != w.live[p]);
        } else {
            assert(w.live[p] != w.live[q]);
        }
    }
    assert forall|p: Seq<char>, q: Seq<char>|
        #![trigger n.live[p], n.dead[q]]
        n.live.contains_key(p) && n.dead.contains_key(q) implies n.live[p] != n.dead[q].file by {
        if p == to {
            assert(w.live[from] != w.dead[q].file);
        } else {
            assert(w.live[p] != w.dead[q].file);
        }
    }
}

/// Law: a change keeps identities apart.
pub proof fn change_keeps_identities(w: WalkView, c: FileChangeView, import_only: bool, at: CommitId, time: i64)
    requires
        apart(w),
        i64::MIN <= w.next_file < i64::MAX,
    ensures
        apart(walk::change_applied(w, c, import_only, at, time)),
{
    match c.change {
        vcs::ChangeView::Deleted { path } => {
            if w.live.contains_key(path) {
                gone_keeps_identities(w, path, c.old_blob, at, time);
            }
        },
        vcs::ChangeView::Renamed { from, to } => {
            if w.live.contains_key(from) {
                renaming_keeps_identities(w, from, to, at, c.confidence);
            } else {
                adding_keeps_identities(w, to, c.new_blob, at, time);
            }
        },
        vcs::ChangeView::Modified { path } => {
            if !w.live.contains_key(path) {
                adding_keeps_identities(w, path, c.new_blob, at, time);
            }
        },
        vcs::ChangeView::Added { path } => {
            adding_keeps_identities(w, path, c.new_blob, at, time);
        },
    }
}

proof fn lemma_changes_apart(
    w: WalkView,
    changes: Seq<FileChangeView>,
    import_only: Seq<bool>,
    n: int,
    at: CommitId,
    time: i64,
)
    requires
        apart(w),
        0 <= n,
        i64::MIN <= w.next_file,
        w.next_file + n <= i64::MAX,
    ensures
        apart(walk::changes_applied(w, changes, import_only, n, at, time)),
        w.next_file <= walk::changes_applied(w, changes, import_only, n, at, time).next_file <= w.next_file + n,
    decreases n,
{
    if n > 0 {
        lemma_changes_apart(w, changes, import_only, n - 1, at, time);
        let b = walk::changes_applied(w, changes, import_only, n - 1, at, time);
        change_keeps_identities(b, changes[n - 1], import_only[n - 1], at, time);
    }
}

/// Two walks say the same of files and paths.
pub open spec fn same_files(a: WalkView, b: WalkView) -> bool {
    a.live == b.live && a.dead == b.dead && a.next_file == b.next_file
}

pub proof fn lemma_detached_files(w: WalkView, changes: Seq<FileChangeView>)
    ensures
        same_files(w, walk::detached(w, changes)),
    decreases changes.len(),
{
    if changes.len() > 0 {
        lemma_detached_files(w, changes.drop_last());
    }
}

proof fn lemma_configs_files(
    w: WalkView,
    changes: Seq<FileChangeView>,
    touched: Seq<(FileId, int)>,
    facts: Seq<FactsView>,
)
    ensures
        same_files(w, walk::configs_read(w, changes, touched, facts)),
    decreases touched.len(),
{
    if touched.len() > 0 {
        lemma_configs_files(w, changes, touched.drop_last(), facts);
    }
}

proof fn lemma_parses_files(
    w: WalkView,
    order: Seq<(FileId, int)>,
    paths: Seq<Seq<char>>,
    facts: Seq<FactsView>,
    at: CommitId,
)
    ensures
        same_files(w, walk::all_symbols_updated(w, order, facts, at)),
        same_files(w, walk::all_linked(w, order, paths, facts, at)),
    decreases order.len(),
{
    if order.len() > 0 {
        lemma_parses_files(w, order.drop_last(), paths, facts, at);
    }
}

/// The files of a walk after a commit are those after its changes.
pub proof fn lemma_commit_files(
    w: WalkView,
    at: CommitId,
    time: i64,
    changes: Seq<FileChangeView>,
    import_only: Seq<bool>,
    facts: Seq<FactsView>,
)
    ensures
        same_files(
            walk::changes_applied(
                walk::detached(w, changes),
                changes,
                import_only,
                walk::least(changes.len() as int, import_only.len() as int),
                at,
                time,
            ),
            walk::commit_applied(w, at, time, changes, import_only, facts),
        ),
{
    let n = walk::least(changes.len() as int, import_only.len() as int);
    let a = walk::detached(w, changes);
    let b = walk::changes_applied(a, changes, import_only, n, at, time);
    let touched = walk::files_touched(a, changes, import_only, n, at, time);
    let c = walk::configs_read(b, changes, touched, facts);
    let order = walk::parse_order(walk::parse_jobs(c.lang_of, changes, touched), facts);
    let d = walk::all_symbols_updated(c, order, facts, at);
    lemma_configs_files(b, changes, touched, facts);
    lemma_parses_files(c, order, walk::change_paths(changes), facts, at);
    lemma_parses_files(d, order, walk::change_paths(changes), facts, at);
}

/// Law: a commit keeps identities apart, whatever it changes.
pub proof fn commit_keeps_identities(
    w: WalkView,
    at: CommitId,
    time: i64,
    changes: Seq<FileChangeView>,
    import_only: Seq<bool>,
    facts: Seq<FactsView>,
)
    requires
        apart(w),
        i64::MIN <= w.next_file,
        w.next_file + changes.len() <= i64::MAX,
    ensures
        apart(walk::commit_applied(w, at, time, changes, import_only, facts)),
{
    let n = walk::least(changes.len() as int, import_only.len() as int);
    lemma_detached_files(w, changes);
    lemma_changes_apart(walk::detached(w, changes), changes, import_only, n, at, time);
    lemma_commit_files(w, at, time, changes, import_only, facts);
}

/// Law: a walk that has seen nothing has no identities to mix up.
pub proof fn nothing_is_apart()
    ensures
        apart(walk::nothing_walked()),
{
}

/// Law: a rename keeps the file's identity: the new path leads to the file
/// that the old path led to, the old path leads nowhere, and no file is new.
pub proof fn rename_keeps_identity(
    w: WalkView,
    c: FileChangeView,
    from: Seq<char>,
    to: Seq<char>,
    import_only: bool,
    at: CommitId,
    time: i64,
)
    requires
        c.change == (vcs::ChangeView::Renamed { from, to }),
        w.live.contains_key(from),
    ensures
        ({
            let n = walk::change_applied(w, c, import_only, at, time);
            &&& n.live.contains_key(to) && n.live[to] == w.live[from]
            &&& from != to ==> !n.live.contains_key(from)
            &&& n.next_file == w.next_file
            &&& n.open == w.open
            &&& n.defs == w.defs
            &&& forall|p: Seq<char>| p != from && p != to ==> (#[trigger] n.live.contains_key(p) <==> w.live.contains_key(p))
                && (w.live.contains_key(p) ==> n.live[p] == w.live[p])
        }),
{
}

/// Law: a file that is deleted and added again at its path is the same file
/// where its blob is the same or it was gone for no longer than the window,
/// and every edge into it from a file that still has a path is open again.
pub proof fn deleted_file_comes_back(
    w: WalkView,
    gone: FileChangeView,
    back: FileChangeView,
    path: Seq<char>,
    flags: (bool, bool),
    at: (CommitId, CommitId),
    time: (i64, i64),
)
    requires
        gone.change == (vcs::ChangeView::Deleted { path }),
        back.change == (vcs::ChangeView::Added { path }),
        w.live.contains_key(path),
        w.open.finite(),
        (back.new_blob is Some && gone.old_blob == back.new_blob) || time.1 - time.0
            <= walk::RESURRECT_WINDOW_DAYS * 86_400,
    ensures
        ({
            let id = w.live[path];
            let a = walk::change_applied(w, gone, flags.0, at.0, time.0);
            let b = walk::change_applied(a, back, flags.1, at.1, time.1);
            &&& !a.live.contains_key(path)
            &&& forall|e: EdgeKey| #[trigger] a.open.contains(e) ==> e.src != id && e.dst != id
            &&& b.live.contains_key(path) && b.live[path] == id
            &&& b.next_file == w.next_file
            &&& !b.dead.contains_key(path)
            &&& forall|e: EdgeKey| #[trigger]
                w.open.contains(e) && e.dst == id && e.src != id && a.live.contains_value(e.src) ==> b.open.contains(e)
        }),
{
    let id = w.live[path];
    let a = walk::change_applied(w, gone, flags.0, at.0, time.0);
    let b = walk::change_applied(a, back, flags.1, at.1, time.1);
    let ins = open_edges::into(w.open, id);
    open_edges::lemma_ordered(ins);
    assert(a.dead[path].file == id);
    assert(walk::comes_back(a, path, back.new_blob, time.1));
    let closed = a.dead[path].closed_in;
    let live = a.live.insert(path, id);
    assert forall|e: EdgeKey| #[trigger]
        w.open.contains(e) && e.dst == id && e.src != id && a.live.contains_value(e.src) implies b.open.contains(e) by {
        assert(ins.contains(e));
        assert(closed.to_set().contains(e));
        let k = closed.index_of(e);
        let p = choose|p: Seq<char>| #[trigger] a.live.contains_key(p) && a.live[p] == e.src;
        assert(live.contains_key(p) && live[p] == e.src) by {
            assert(p != path);
        }
        assert(live.contains_value(e.src));
        let f = |x: EdgeKey| live.contains_value(x.src);
        closed.lemma_filter_contains(f, k);
    }
}

/// Law: a file added at a path where another died long ago, with another
/// blob, is a new file.
pub proof fn late_return_is_new(w: WalkView, c: FileChangeView, path: Seq<char>, import_only: bool, at: CommitId, time: i64)
    requires
        c.change == (vcs::ChangeView::Added { path }),
        apart(w),
        i64::MIN <= w.next_file < i64::MAX,
        w.dead.contains_key(path),
        w.dead[path].last_blob != c.new_blob || c.new_blob is None,
        time - w.dead[path].died_time > walk::RESURRECT_WINDOW_DAYS * 86_400,
    ensures
        ({
            let n = walk::change_applied(w, c, import_only, at, time);
            &&& n.live[path].0 == w.next_file
            &&& n.live[path] != w.dead[path].file
            &&& n.next_file == w.next_file + 1
        }),
{
}

// ---- vendored paths ----

/// No path in use is vendored.
pub open spec fn clean(w: WalkView) -> bool {
    forall|p: Seq<char>| #[trigger] w.live.contains_key(p) ==> !classify::excluded_path(p)
}

proof fn lemma_changes_clean(
    w: WalkView,
    changes: Seq<FileChangeView>,
    import_only: Seq<bool>,
    n: int,
    at: CommitId,
    time: i64,
)
    requires
        clean(w),
        0 <= n <= changes.len(),
        forall|i: int| 0 <= i < changes.len() ==> changes::unvendored((#[trigger] changes[i]).change),
    ensures
        clean(walk::changes_applied(w, changes, import_only, n, at, time)),
    decreases n,
{
    if n > 0 {
        lemma_changes_clean(w, changes, import_only, n - 1, at, time);
        assert(changes::unvendored(changes[n - 1].change));
    }
}

/// Law: vendored paths stay out: where none is in use, a commit made ready
/// brings none into use.
pub proof fn vendored_paths_stay_out(
    w: WalkView,
    at: CommitId,
    time: i64,
    changes: Seq<FileChangeView>,
    import_only: Seq<bool>,
    facts: Seq<FactsView>,
)
    requires
        clean(w),
    ensures
        clean(walk::commit_applied(w, at, time, changes::normalized(changes), import_only, facts)),
{
    let s = changes::normalized(changes);
    let n = walk::least(s.len() as int, import_only.len() as int);
    changes::normalized_is_ready(changes);
    lemma_detached_files(w, s);
    lemma_changes_clean(walk::detached(w, s), s, import_only, n, at, time);
    lemma_commit_files(w, at, time, s, import_only, facts);
}

// ---- what is written and what is open ----

/// The open edges once what was logged is written.
pub open spec fn replayed(open: Set<EdgeKey>, ops: Seq<OpView>) -> Set<EdgeKey>
    decreases ops.len(),
{
    if ops.len() == 0 {
        open
    } else {
        let b = replayed(open, ops.drop_last());
        match ops.last() {
            OpView::OpenEdge { edge, resolution, at } => b.insert(edge),
            OpView::ReopenEdge { edge, at } => b.insert(edge),
            OpView::CloseEdge { edge, at } => b.remove(edge),
            _ => b,
        }
    }
}

/// One walk leads to another, and what it logged on the way tells which edges
/// are open.
pub open spec fn told(a: WalkView, b: WalkView) -> bool {
    &&& a.log.len() <= b.log.len()
    &&& b.log.take(a.log.len() as int) == a.log
    &&& b.open == replayed(a.open, b.log.skip(a.log.len() as int))
    &&& b.open.finite()
}

proof fn lemma_replayed_sum(open: Set<EdgeKey>, x: Seq<OpView>, y: Seq<OpView>)
    ensures
        replayed(open, x + y) == replayed(replayed(open, x), y),
    decreases y.len(),
{
    if y.len() == 0 {
        assert(x + y =~= x);
    } else {
        lemma_replayed_sum(open, x, y.drop_last());
        assert((x + y).drop_last() =~= x + y.drop_last());
    }
}

proof fn lemma_told_sum(a: WalkView, b: WalkView, c: WalkView)
    requires
        told(a, b),
        told(b, c),
    ensures
        told(a, c),
{
    let x = b.log.skip(a.log.len() as int);
    let y = c.log.skip(b.log.len() as int);
    lemma_replayed_sum(a.open, x, y);
    assert(c.log.skip(a.log.len() as int) =~= x + y) by {
        assert(c.log =~= b.log + y);
        assert(b.log =~= a.log + x);
    }
    assert(c.log.take(a.log.len() as int) =~= a.log) by {
        assert(c.log.take(b.log.len() as int).take(a.log.len() as int) =~= c.log.take(a.log.len() as int));
    }
}

/// A walk that logs `d` and opens and closes edges accordingly.
proof fn lemma_told_by(a: WalkView, b: WalkView, d: Seq<OpView>)
    requires
        b.log == a.log + d,
        b.open == replayed(a.open, d),
        b.open.finite(),
    ensures
        told(a, b),
{
    assert(b.log.take(a.log.len() as int) =~= a.log);
    assert(b.log.skip(a.log.len() as int) =~= d);
}

proof fn lemma_told_same(a: WalkView, b: WalkView)
    requires
        a.log == b.log,
        a.open == b.open,
        a.open.finite(),
    ensures
        told(a, b),
{
    lemma_told_by(a, b, Seq::empty());
}

/// Something logged that is no edge.
pub open spec fn edgeless(op: OpView) -> bool {
    match op {
        OpView::OpenEdge { edge, resolution, at } => false,
        OpView::ReopenEdge { edge, at } => false,
        OpView::CloseEdge { edge, at } => false,
        _ => true,
    }
}

proof fn lemma_edgeless(open: Set<EdgeKey>, ops: Seq<OpView>)
    requires
        forall|i: int| 0 <= i < ops.len() ==> edgeless(#[trigger] ops[i]),
    ensures
        replayed(open, ops) == open,
    decreases ops.len(),
{
    if ops.len() > 0 {
        assert(edgeless(ops[ops.len() - 1]));
        assert forall|i: int| 0 <= i < ops.drop_last().len() implies edgeless(#[trigger] ops.drop_last()[i]) by {
            assert(edgeless(ops[i]));
        }
        lemma_edgeless(open, ops.drop_last());
    }
}

proof fn lemma_replay_closings(open: Set<EdgeKey>, keys: Seq<EdgeKey>, at: CommitId)
    ensures
        replayed(open, walk::closings(keys, at)) == open.difference(keys.to_set()),
    decreases keys.len(),
{
    let ops = walk::closings(keys, at);
    if keys.len() == 0 {
        assert(open.difference(keys.to_set()) =~= open);
    } else {
        let d = keys.drop_last();
        lemma_replay_closings(open, d, at);
        assert(ops.drop_last() =~= walk::closings(d, at));
        open_edges::lemma_push_set(d, keys.last());
        assert(keys =~= d.push(keys.last()));
        assert(open.difference(keys.to_set()) =~= open.difference(d.to_set()).remove(keys.last()));
    }
}

proof fn lemma_replay_reopenings(open: Set<EdgeKey>, keys: Seq<EdgeKey>, at: CommitId)
    ensures
        replayed(open, walk::reopenings(keys, at)) == open.union(keys.to_set()),
    decreases keys.len(),
{
    let ops = walk::reopenings(keys, at);
    if keys.len() == 0 {
        assert(open.union(keys.to_set()) =~= open);
    } else {
        let d = keys.drop_last();
        lemma_replay_reopenings(open, d, at);
        assert(ops.drop_last() =~= walk::reopenings(d, at));
        open_edges::lemma_push_set(d, keys.last());
        assert(keys =~= d.push(keys.last()));
        assert(open.union(keys.to_set()) =~= open.union(d.to_set()).insert(keys.last()));
    }
}

/// What is written where edges open.
pub open spec fn openings(src: FileId, s: Seq<(FileId, EdgeKind, Resolution)>, at: CommitId) -> Seq<OpView> {
    s.map_values(
        |f: (FileId, EdgeKind, Resolution)|
            OpView::OpenEdge { edge: walk::found_key(src, f), resolution: f.2, at },
    )
}

proof fn lemma_replay_openings(open: Set<EdgeKey>, src: FileId, s: Seq<(FileId, EdgeKind, Resolution)>, at: CommitId)
    ensures
        replayed(open, openings(src, s, at)) == open.union(walk::found_keys(src, s.to_set())),
    decreases s.len(),
{
    let ops = openings(src, s, at);
    if s.len() == 0 {
        assert(open.union(walk::found_keys(src, s.to_set())) =~= open);
    } else {
        let n = s.len() - 1;
        let d = s.drop_last();
        lemma_replay_openings(open, src, d, at);
        assert(ops.drop_last() =~= openings(src, d, at));
        walk::lemma_found_grow(src, s, n);
        assert(s.take(n) =~= d);
        assert(s.take(n + 1) =~= s);
        assert(open.union(walk::found_keys(src, s.to_set())) =~= open.union(
            walk::found_keys(src, d.to_set()),
        ).insert(walk::found_key(src, s[n])));
    }
}

proof fn lemma_logged_told(w: WalkView, op: OpView)
    requires
        w.open.finite(),
        edgeless(op),
    ensures
        told(w, walk::logged(w, op)),
{
    let d = seq![op];
    assert(w.log.push(op) =~= w.log + d);
    lemma_edgeless(w.open, d);
    lemma_told_by(w, walk::logged(w, op), d);
}

proof fn lemma_detached_told(w: WalkView, changes: Seq<FileChangeView>)
    requires
        w.open.finite(),
    ensures
        told(w, walk::detached(w, changes)),
    decreases changes.len(),
{
    if changes.len() == 0 {
        lemma_told_same(w, w);
    } else {
        let b = walk::detached(w, changes.drop_last());
        lemma_detached_told(w, changes.drop_last());
        match walk::left_path(changes.last().change) {
            Some(p) => {
                if w.live.contains_key(p) {
                    let op = OpView::ClearPath { file: w.live[p] };
                    lemma_logged_told(b, op);
                    lemma_told_sum(w, b, walk::logged(b, op));
                }
            },
            None => {},
        }
    }
}

proof fn lemma_gone_told(w: WalkView, path: Seq<char>, blob: Option<Seq<u8>>, at: CommitId, time: i64)
    requires
        w.open.finite(),
    ensures
        told(w, walk::file_gone(w, path, blob, at, time)),
{
    let id = w.live[path];
    let out_set = open_edges::out_of(w.open, id);
    let in_set = open_edges::into(w.open, id);
    open_edges::lemma_ordered(out_set);
    open_edges::lemma_ordered(in_set);
    let outs = open_edges::keys_in_order(out_set);
    let ins = open_edges::keys_in_order(in_set);
    let n = walk::file_gone(w, path, blob, at, time);
    let head = seq![OpView::FileDied { file: id, at }, OpView::CloseSymbols { file: id, at }];
    let d = head + walk::closings(outs, at) + walk::closings(ins, at);
    assert(n.log =~= w.log + d);
    lemma_edgeless(w.open, head);
    lemma_replayed_sum(w.open, head, walk::closings(outs, at));
    lemma_replayed_sum(w.open, head + walk::closings(outs, at), walk::closings(ins, at));
    lemma_replay_closings(w.open, outs, at);
    lemma_replay_closings(w.open.difference(out_set), ins, at);
    assert(n.open =~= w.open.difference(out_set).difference(in_set));
    lemma_told_by(w, n, d);
}

proof fn lemma_added_told(w: WalkView, path: Seq<char>, blob: Option<Seq<u8>>, at: CommitId, time: i64)
    requires
        w.open.finite(),
    ensures
        told(w, walk::file_added(w, path, blob, at, time)),
{
    let n = walk::file_added(w, path, blob, at, time);
    let id = walk::added_id(w, path, blob, time);
    if walk::comes_back(w, path, blob, time) {
        let back = walk::reopened(n.live, w.dead[path].closed_in);
        let head = seq![OpView::Resurrect { file: id, path, at }];
        let d = head + walk::reopenings(back, at);
        assert(n.log =~= w.log + d);
        lemma_edgeless(w.open, head);
        lemma_replayed_sum(w.open, head, walk::reopenings(back, at));
        lemma_replay_reopenings(w.open, back, at);
        vstd::seq_lib::seq_to_set_is_finite(back);
        lemma_told_by(w, n, d);
    } else {
        let d = seq![OpView::InsertFile { file: id, path, lang: lang::lang_at(path), born: at }];
        assert(n.log =~= w.log + d);
        lemma_edgeless(w.open, d);
        lemma_told_by(w, n, d);
    }
}

proof fn lemma_renamed_told(w: WalkView, from: Seq<char>, to: Seq<char>, at: CommitId, confidence: u8)
    requires
        w.open.finite(),
    ensures
        told(w, walk::file_renamed(w, from, to, at, confidence)),
{
    let n = walk::file_renamed(w, from, to, at, confidence);
    let id = w.live[from];
    let d = seq![
        OpView::Rename { file: id, path: to, at, confidence },
        OpView::SetLang { file: id, lang: lang::lang_at(to) },
    ];
    assert(n.log =~= w.log + d);
    lemma_edgeless(w.open, d);
    lemma_told_by(w, n, d);
}

proof fn lemma_change_told(w: WalkView, c: FileChangeView, import_only: bool, at: CommitId, time: i64)
    requires
        w.open.finite(),
    ensures
        told(w, walk::change_applied(w, c, import_only, at, time)),
{
    let n = walk::change_applied(w, c, import_only, at, time);
    let b = match c.change {
        vcs::ChangeView::Deleted { path } => if w.live.contains_key(path) {
            lemma_gone_told(w, path, c.old_blob, at, time);
            walk::file_gone(w, path, c.old_blob, at, time)
        } else {
            lemma_told_same(w, w);
            w
        },
        vcs::ChangeView::Renamed { from, to } => if w.live.contains_key(from) {
            lemma_renamed_told(w, from, to, at, c.confidence);
            walk::file_renamed(w, from, to, at, c.confidence)
        } else {
            lemma_added_told(w, to, c.new_blob, at, time);
            walk::file_added(w, to, c.new_blob, at, time)
        },
        vcs::ChangeView::Modified { path } => if w.live.contains_key(path) {
            lemma_told_same(w, w);
            w
        } else {
            lemma_added_told(w, path, c.new_blob, at, time);
            walk::file_added(w, path, c.new_blob, at, time)
        },
        vcs::ChangeView::Added { path } => {
            lemma_added_told(w, path, c.new_blob, at, time);
            walk::file_added(w, path, c.new_blob, at, time)
        },
    };
    if n != b {
        lemma_logged_told(b, n.log.last());
        lemma_told_sum(w, b, n);
    }
}

proof fn lemma_changes_told(
    w: WalkView,
    changes: Seq<FileChangeView>,
    import_only: Seq<bool>,
    n: int,
    at: CommitId,
    time: i64,
)
    requires
        w.open.finite(),
    ensures
        told(w, walk::changes_applied(w, changes, import_only, n, at, time)),
    decreases n,
{
    if n <= 0 {
        lemma_told_same(w, w);
    } else {
        let b = walk::changes_applied(w, changes, import_only, n - 1, at, time);
        lemma_changes_told(w, changes, import_only, n - 1, at, time);
        lemma_change_told(b, changes[n - 1], import_only[n - 1], at, time);
        lemma_told_sum(w, b, walk::change_applied(b, changes[n - 1], import_only[n - 1], at, time));
    }
}

proof fn lemma_configs_told(
    w: WalkView,
    changes: Seq<FileChangeView>,
    touched: Seq<(FileId, int)>,
    facts: Seq<FactsView>,
)
    ensures
        walk::configs_read(w, changes, touched, facts).log == w.log,
        walk::configs_read(w, changes, touched, facts).open == w.open,
    decreases touched.len(),
{
    if touched.len() > 0 {
        lemma_configs_told(w, changes, touched.drop_last(), facts);
    }
}

proof fn lemma_symbols_told(w: WalkView, order: Seq<(FileId, int)>, facts: Seq<FactsView>, at: CommitId)
    requires
        w.open.finite(),
    ensures
        told(w, walk::all_symbols_updated(w, order, facts, at)),
    decreases order.len(),
{
    if order.len() == 0 {
        lemma_told_same(w, w);
    } else {
        let b = walk::all_symbols_updated(w, order.drop_last(), facts, at);
        lemma_symbols_told(w, order.drop_last(), facts, at);
        let (id, i) = order.last();
        let p = walk::parse_of(facts[i]);
        let n = walk::symbols_updated(b, id, p, at);
        let d = n.log.skip(b.log.len() as int);
        assert(n.log =~= b.log + d);
        lemma_edgeless(b.open, d);
        lemma_told_by(b, n, d);
        lemma_told_sum(w, b, n);
    }
}

proof fn lemma_edges_told(w: WalkView, src: FileId, found: Set<(FileId, EdgeKind, Resolution)>, at: CommitId)
    requires
        w.open.finite(),
        found.finite(),
    ensures
        told(w, walk::edges_updated(w, src, found, at)),
{
    let n = walk::edges_updated(w, src, found, at);
    let outs = open_edges::out_of(w.open, src);
    let keys = walk::found_keys(src, found);
    let lost_set = outs.difference(keys);
    let lost = open_edges::keys_in_order(lost_set);
    let list = open_edges::edges_in_order(found);
    let fresh = walk::newly_found(w.open, src, list);
    open_edges::lemma_ordered(lost_set);
    open_edges::lemma_found_ordered(found);
    let d = walk::closings(lost, at) + openings(src, fresh, at);
    assert(n.log =~= w.log + d);
    lemma_replayed_sum(w.open, walk::closings(lost, at), openings(src, fresh, at));
    lemma_replay_closings(w.open, lost, at);
    lemma_replay_openings(w.open.difference(lost_set), src, fresh, at);
    let f = |x: (FileId, EdgeKind, Resolution)| !w.open.contains(walk::found_key(src, x));
    assert(n.open =~= w.open.difference(lost_set).union(walk::found_keys(src, fresh.to_set()))) by {
        assert forall|e: EdgeKey| n.open.contains(e) <==> w.open.difference(lost_set).union(
            walk::found_keys(src, fresh.to_set()),
        ).contains(e) by {
            if keys.contains(e) && !w.open.contains(e) {
                let r = choose|r: Resolution| found.contains((e.dst, e.kind, r));
                let x = (e.dst, e.kind, r);
                assert(list.to_set().contains(x));
                let k = list.index_of(x);
                list.lemma_filter_contains(f, k);
                assert(fresh.to_set().contains(x));
            }
            if walk::found_keys(src, fresh.to_set()).contains(e) {
                let r = choose|r: Resolution| fresh.to_set().contains((e.dst, e.kind, r));
                let x = (e.dst, e.kind, r);
                list.lemma_filter_contains_rev(f, x);
                assert(list.to_set().contains(x));
            }
        }
    }
    lemma_found_finite(src, found);
    lemma_told_by(w, n, d);
}

pub proof fn lemma_found_finite(src: FileId, found: Set<(FileId, EdgeKind, Resolution)>)
    requires
        found.finite(),
    ensures
        walk::found_keys(src, found).finite(),
{
    let keys = walk::found_keys(src, found);
    let all = found.map(|f: (FileId, EdgeKind, Resolution)| walk::found_key(src, f));
    found.lemma_map_finite(|f: (FileId, EdgeKind, Resolution)| walk::found_key(src, f));
    assert(keys.subset_of(all)) by {
        assert forall|e: EdgeKey| keys.contains(e) implies all.contains(e) by {
            let r = choose|r: Resolution| found.contains((e.dst, e.kind, r));
            assert(walk::found_key(src, (e.dst, e.kind, r)) == e);
        }
    }
    vstd::set_lib::lemma_set_subset_finite(all, keys);
}

proof fn lemma_linked_told(
    w: WalkView,
    order: Seq<(FileId, int)>,
    paths: Seq<Seq<char>>,
    facts: Seq<FactsView>,
    at: CommitId,
)
    requires
        w.open.finite(),
    ensures
        told(w, walk::all_linked(w, order, paths, facts, at)),
    decreases order.len(),
{
    if order.len() == 0 {
        lemma_told_same(w, w);
    } else {
        let b = walk::all_linked(w, order.drop_last(), paths, facts, at);
        lemma_linked_told(w, order.drop_last(), paths, facts, at);
        let (id, i) = order.last();
        let p = walk::parse_of(facts[i]);
        let n = walk::file_linked(b, id, paths[i], p, at);
        if b.lang_of.contains_key(id.0) {
            let l = b.lang_of[id.0];
            let r = resolve::file_resolved(walk::resolve_view(b), id, paths[i], l, p);
            resolve::resolution_is_fair(walk::resolve_view(b), id, paths[i], l, p);
            let c = WalkView { total: b.total + r.total, resolved: b.resolved + r.resolved, ..b };
            lemma_told_same(b, c);
            lemma_edges_told(c, id, r.edges, at);
            lemma_told_sum(b, c, n);
        } else {
            lemma_told_same(b, n);
        }
        lemma_told_sum(w, b, n);
    }
}

/// Law: what a commit logs tells which edges are open behind it: those that
/// were open before, with each logged opening and closing carried out in
/// turn.
pub proof fn log_tells_open_edges(
    w: WalkView,
    at: CommitId,
    time: i64,
    changes: Seq<FileChangeView>,
    import_only: Seq<bool>,
    facts: Seq<FactsView>,
)
    requires
        w.open.finite(),
    ensures
        told(w, walk::commit_applied(w, at, time, changes, import_only, facts)),
{
    let n = walk::least(changes.len() as int, import_only.len() as int);
    let a = walk::detached(w, changes);
    let b = walk::changes_applied(a, changes, import_only, n, at, time);
    let touched = walk::files_touched(a, changes, import_only, n, at, time);
    let c = walk::configs_read(b, changes, touched, facts);
    let order = walk::parse_order(walk::parse_jobs(c.lang_of, changes, touched), facts);
    let d = walk::all_symbols_updated(c, order, facts, at);
    let e = walk::all_linked(d, order, walk::change_paths(changes), facts, at);
    lemma_detached_told(w, changes);
    lemma_changes_told(a, changes, import_only, n, at, time);
    lemma_told_sum(w, a, b);
    lemma_configs_told(b, changes, touched, facts);
    lemma_told_same(b, c);
    lemma_told_sum(w, b, c);
    lemma_symbols_told(c, order, facts, at);
    lemma_told_sum(w, c, d);
    lemma_linked_told(d, order, walk::change_paths(changes), facts, at);
    lemma_told_sum(w, d, e);
}

} // verus!
