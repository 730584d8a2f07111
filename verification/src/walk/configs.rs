//! What a commit takes from the configuration files that it changes, and which
//! paths it frees.

use crate::config;
use crate::model::CommitId;
use crate::store_op::OpView;
use crate::text;
use crate::vcs::{ChangeView, FileChangeView};
use crate::walk;
use crate::walk::{FactsView, WalkView};
use vstd::prelude::*;

verus! {

/// A change brings content to a path.
pub open spec fn brings(changes: Seq<FileChangeView>, facts: Seq<FactsView>, i: int, path: Seq<char>, content: Seq<u8>) -> bool {
    &&& 0 <= i < changes.len()
    &&& !(changes[i].change is Deleted)
    &&& changes[i].change.path() == path
    &&& changes[i].new_blob is Some
    &&& facts[i].content == Some(content)
}

proof fn lemma_module(
    a: WalkView,
    b: WalkView,
    changes: Seq<FileChangeView>,
    import_only: Seq<bool>,
    facts: Seq<FactsView>,
    n: int,
    at: CommitId,
    time: i64,
    i: int,
    content: Seq<u8>,
)
    requires
        brings(changes, facts, i, "go.mod"@, content),
        i < n <= changes.len(),
        config::module_in(text::lines(text::lossy(content))) is Some,
        forall|j: int| i < j < n ==> (#[trigger] changes[j]).change.path() != "go.mod"@,
    ensures
        walk::configs_read(b, changes, walk::files_touched(a, changes, import_only, n, at, time), facts).go_module
            == config::module_in(text::lines(text::lossy(content))),
    decreases n,
{
    let rest = walk::files_touched(a, changes, import_only, n - 1, at, time);
    let all = walk::files_touched(a, changes, import_only, n, at, time);
    let x = walk::changes_applied(a, changes, import_only, n - 1, at, time);
    match walk::touched_id(x, changes[n - 1], time) {
        Some(id) => {
            assert(all == rest.push((id, n - 1)));
            assert(all.drop_last() =~= rest);
        },
        None => {},
    }
    if n - 1 > i {
        lemma_module(a, b, changes, import_only, facts, n - 1, at, time, i, content);
    }
}

proof fn lemma_crate(
    a: WalkView,
    b: WalkView,
    changes: Seq<FileChangeView>,
    import_only: Seq<bool>,
    facts: Seq<FactsView>,
    n: int,
    at: CommitId,
    time: i64,
    i: int,
    path: Seq<char>,
    content: Seq<u8>,
    name: Seq<char>,
)
    requires
        brings(changes, facts, i, path, content),
        i < n <= changes.len(),
        path != "go.mod"@,
        text::has_suffix(path, "Cargo.toml"@),
        config::package_in(text::lines(text::lossy(content)), false) == Some(name),
        name.len() > 0,
        forall|j: int| i < j < n ==> !text::has_suffix((#[trigger] changes[j]).change.path(), "Cargo.toml"@),
    ensures
        ({
            let r = walk::configs_read(b, changes, walk::files_touched(a, changes, import_only, n, at, time), facts);
            r.rust_crates.contains_key(name) && r.rust_crates[name] == config::source_dir(path)
        }),
    decreases n,
{
    let rest = walk::files_touched(a, changes, import_only, n - 1, at, time);
    let all = walk::files_touched(a, changes, import_only, n, at, time);
    let x = walk::changes_applied(a, changes, import_only, n - 1, at, time);
    match walk::touched_id(x, changes[n - 1], time) {
        Some(id) => {
            assert(all == rest.push((id, n - 1)));
            assert(all.drop_last() =~= rest);
        },
        None => {},
    }
    if n - 1 > i {
        lemma_crate(a, b, changes, import_only, facts, n - 1, at, time, i, path, content, name);
    }
}

proof fn lemma_symbols_keep(w: WalkView, order: Seq<(crate::model::FileId, int)>, facts: Seq<FactsView>, at: CommitId)
    ensures
        walk::all_symbols_updated(w, order, facts, at).go_module == w.go_module,
        walk::all_symbols_updated(w, order, facts, at).rust_crates == w.rust_crates,
    decreases order.len(),
{
    if order.len() > 0 {
        lemma_symbols_keep(w, order.drop_last(), facts, at);
    }
}

proof fn lemma_links_keep(
    w: WalkView,
    order: Seq<(crate::model::FileId, int)>,
    paths: Seq<Seq<char>>,
    facts: Seq<FactsView>,
    at: CommitId,
)
    ensures
        walk::all_linked(w, order, paths, facts, at).go_module == w.go_module,
        walk::all_linked(w, order, paths, facts, at).rust_crates == w.rust_crates,
    decreases order.len(),
{
    if order.len() > 0 {
        lemma_links_keep(w, order.drop_last(), paths, facts, at);
    }
}

/// Law: a commit that changes go.mod or a Cargo.toml leaves the walk with the
/// module path or the crate that the new content names, where it is the last of
/// its kind in the commit.
pub proof fn changed_configs_are_read(
    w: WalkView,
    at: CommitId,
    time: i64,
    changes: Seq<FileChangeView>,
    import_only: Seq<bool>,
    facts: Seq<FactsView>,
    i: int,
    path: Seq<char>,
    content: Seq<u8>,
)
    requires
        import_only.len() == changes.len(),
        brings(changes, facts, i, path, content),
    ensures
        ({
            let after = walk::commit_applied(w, at, time, changes, import_only, facts);
            let lines = text::lines(text::lossy(content));
            &&& path == "go.mod"@ && config::module_in(lines) is Some && (forall|j: int|
                i < j < changes.len() ==> (#[trigger] changes[j]).change.path() != "go.mod"@) ==> after.go_module
                == config::module_in(lines)
            &&& path != "go.mod"@ && text::has_suffix(path, "Cargo.toml"@) && (forall|j: int|
                i < j < changes.len() ==> !text::has_suffix((#[trigger] changes[j]).change.path(), "Cargo.toml"@)) ==> (
            config::package_in(lines, false) matches Some(name) ==> name.len() > 0 ==> after.rust_crates.contains_key(name)
                && after.rust_crates[name] == config::source_dir(path))
        }),
{
    let n = changes.len() as int;
    let lines = text::lines(text::lossy(content));
    let a = walk::detached(w, changes);
    let b = walk::changes_applied(a, changes, import_only, n, at, time);
    let touched = walk::files_touched(a, changes, import_only, n, at, time);
    let c = walk::configs_read(b, changes, touched, facts);
    let order = walk::parse_order(walk::parse_jobs(c.lang_of, changes, touched), facts);
    lemma_symbols_keep(c, order, facts, at);
    lemma_links_keep(walk::all_symbols_updated(c, order, facts, at), order, walk::change_paths(changes), facts, at);
    if path == "go.mod"@ && config::module_in(lines) is Some && (forall|j: int|
        i < j < changes.len() ==> (#[trigger] changes[j]).change.path() != "go.mod"@) {
        lemma_module(a, b, changes, import_only, facts, n, at, time, i, content);
    }
    if path != "go.mod"@ && text::has_suffix(path, "Cargo.toml"@) && (forall|j: int|
        i < j < changes.len() ==> !text::has_suffix((#[trigger] changes[j]).change.path(), "Cargo.toml"@)) {
        match config::package_in(lines, false) {
            Some(name) => {
                if name.len() > 0 {
                    lemma_crate(a, b, changes, import_only, facts, n, at, time, i, path, content, name);
                }
            },
            None => {},
        }
    }
}

/// Law: before a commit is applied, every file that it deletes or moves gives up
/// its path.
pub proof fn left_paths_are_freed(w: WalkView, changes: Seq<FileChangeView>, i: int, path: Seq<char>, to: Seq<char>)
    requires
        0 <= i < changes.len(),
        changes[i].change == (ChangeView::Deleted { path }) || changes[i].change == (ChangeView::Renamed { from: path, to }),
        w.live.contains_key(path),
    ensures
        exists|k: int|
            w.log.len() <= k < walk::detached(w, changes).log.len() && #[trigger] walk::detached(w, changes).log[k] == (
            OpView::ClearPath { file: w.live[path] }),
        walk::detached(w, changes).log.take(w.log.len() as int) == w.log,
        walk::detached(w, changes).live == w.live,
    decreases changes.len(),
{
    let d = changes.drop_last();
    let b = walk::detached(w, d);
    let a = walk::detached(w, changes);
    lemma_detached_keeps(w, d);
    lemma_detached_keeps(w, changes);
    if i == changes.len() - 1 {
        assert(a.log[b.log.len() as int] == OpView::ClearPath { file: w.live[path] });
    } else {
        assert(d[i] == changes[i]);
        left_paths_are_freed(w, d, i, path, to);
        let k = choose|k: int|
            w.log.len() <= k < b.log.len() && #[trigger] b.log[k] == (OpView::ClearPath { file: w.live[path] });
        assert(a.log[k] == b.log[k]);
    }
}

proof fn lemma_detached_keeps(w: WalkView, changes: Seq<FileChangeView>)
    ensures
        walk::detached(w, changes).log.len() >= w.log.len(),
        walk::detached(w, changes).log.take(w.log.len() as int) == w.log,
        walk::detached(w, changes).live == w.live,
    decreases changes.len(),
{
    if changes.len() == 0 {
        assert(w.log.take(w.log.len() as int) =~= w.log);
    } else {
        let b = walk::detached(w, changes.drop_last());
        lemma_detached_keeps(w, changes.drop_last());
        let a = walk::detached(w, changes);
        assert(a.log.take(w.log.len() as int) =~= b.log.take(w.log.len() as int));
    }
}

} // verus!
