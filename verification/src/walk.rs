//! The walk over history, oldest to newest: file identity through renames and
//! re-adds, touches, symbols, and the edges that open and close. Each step
//! logs what the store has to write.

use crate::config;
use crate::lang::Lang;
use crate::lang;
use crate::model::{ChangeKind, CommitId, EdgeKind, FileId, Resolution};
use crate::names::NameSet;
use crate::names;
use crate::open_edges::{EdgeKey, OpenEdges};
use crate::open_edges;
use crate::parsed::{DefView, ParsedFile, ParsedView, SymbolDef};
use crate::parsed;
use crate::resolve::{resolve_file, ResolveCtx, ResolvedEdges};
use crate::resolve;
use crate::store_op::{OpView, StoreOp};
use crate::store_op;
use crate::tables::{CrateMap, EdgeSet, PathMap, SymbolTable};
use crate::tables;
use crate::text;
use crate::vcs::{copy_bytes, Change, FileChange, FileChangeView};
use crate::vcs;
use std::collections::HashMap;
use vstd::hash_map::StringHashMap;
use vstd::prelude::*;
use vstd::string::*;

pub mod configs;
pub mod laws;
pub mod link;
pub mod passing;
pub mod load;
pub mod paths;
pub mod rest;
pub mod resume;
pub mod seed;
pub mod tree;

verus! {

broadcast use vstd::std_specs::hash::group_hash_axioms;

/// A file that is deleted and added again within so many days is the same
/// file.
pub const RESURRECT_WINDOW_DAYS: i64 = 90;

/// What is remembered of a deleted file.
pub struct DeadEntry {
    pub file: FileId,
    pub died_time: i64,
    pub last_blob: Option<Vec<u8>>,
    /// The edges into the file that its death closed, for reopening on
    /// delete-then-re-add histories.
    pub closed_in: Vec<EdgeKey>,
}

#[verifier::ext_equal]
pub struct DeadView {
    pub file: FileId,
    pub died_time: i64,
    pub last_blob: Option<Seq<u8>>,
    pub closed_in: Seq<EdgeKey>,
}

impl View for DeadEntry {
    type V = DeadView;

    open spec fn view(&self) -> DeadView {
        DeadView {
            file: self.file,
            died_time: self.died_time,
            last_blob: vcs::blob_view(self.last_blob),
            closed_in: self.closed_in@,
        }
    }
}

pub struct WalkState {
    live: PathMap,
    lang_of: HashMap<i64, Lang>,
    dead: StringHashMap<DeadEntry>,
    defs_by_file: HashMap<i64, NameSet>,
    symbols: SymbolTable,
    open: OpenEdges,
    go_module: Option<String>,
    rust_crates: CrateMap,
    imports_total: u64,
    imports_resolved: u64,
    next_file: i64,
    log: Vec<StoreOp>,
}

/// What the walk knows.
#[verifier::ext_equal]
pub struct WalkView {
    /// The files that have a path, by path.
    pub live: Map<Seq<char>, FileId>,
    /// The same in the order in which they came.
    pub order: Seq<(Seq<char>, FileId)>,
    /// The languages of files, by file id.
    pub lang_of: Map<i64, Lang>,
    /// Deleted files by the path that they had.
    pub dead: Map<Seq<char>, DeadView>,
    /// The names that files define, by file id.
    pub defs: Map<i64, Seq<Seq<char>>>,
    pub symbols: Map<Seq<char>, Set<FileId>>,
    /// The edges with an open interval.
    pub open: Set<EdgeKey>,
    pub go_module: Option<Seq<char>>,
    pub rust_crates: Map<Seq<char>, Seq<char>>,
    pub total: int,
    pub resolved: int,
    /// The id of the next new file.
    pub next_file: int,
    /// What the store has to write.
    pub log: Seq<OpView>,
}

impl View for WalkState {
    type V = WalkView;

    closed spec fn view(&self) -> WalkView {
        WalkView {
            live: self.live@,
            order: self.live.order(),
            lang_of: self.lang_of@,
            dead: self.dead@.map_values(|d: DeadEntry| d@),
            defs: self.defs_by_file@.map_values(|n: NameSet| n@),
            symbols: self.symbols@,
            open: self.open@,
            go_module: text::opt_view(self.go_module),
            rust_crates: self.rust_crates@,
            total: self.imports_total as int,
            resolved: self.imports_resolved as int,
            next_file: self.next_file as int,
            log: store_op::op_views(self.log@),
        }
    }
}

/// A walk that has seen nothing.
pub open spec fn nothing_walked() -> WalkView {
    WalkView {
        live: Map::empty(),
        order: Seq::empty(),
        lang_of: Map::empty(),
        dead: Map::empty(),
        defs: Map::empty(),
        symbols: Map::empty(),
        open: Set::empty(),
        go_module: None,
        rust_crates: Map::empty(),
        total: 0,
        resolved: 0,
        next_file: 1,
        log: Seq::empty(),
    }
}

// ---- identity ----

/// The walk with one more thing to write.
pub open spec fn logged(w: WalkView, op: OpView) -> WalkView {
    WalkView { log: w.log.push(op), ..w }
}

/// The path that a file leaves by a change.
pub open spec fn left_path(c: vcs::ChangeView) -> Option<Seq<char>> {
    match c {
        vcs::ChangeView::Deleted { path } => Some(path),
        vcs::ChangeView::Renamed { from, to } => Some(from),
        _ => None,
    }
}

/// The current paths of files that leave them are detached first, so that no
/// two files ever claim one path.
pub open spec fn detached(w: WalkView, changes: Seq<FileChangeView>) -> WalkView
    decreases changes.len(),
{
    if changes.len() == 0 {
        w
    } else {
        let b = detached(w, changes.drop_last());
        match left_path(changes.last().change) {
            Some(p) => if w.live.contains_key(p) {
                logged(b, OpView::ClearPath { file: w.live[p] })
            } else {
                b
            },
            None => b,
        }
    }
}

/// The languages once a file has one or none.
pub open spec fn lang_put(m: Map<i64, Lang>, id: FileId, l: Option<Lang>) -> Map<i64, Lang> {
    match l {
        Some(l) => m.insert(id.0, l),
        None => m,
    }
}

/// The symbols once a file no longer defines some names.
pub open spec fn names_dropped(m: Map<Seq<char>, Set<FileId>>, s: Seq<Seq<char>>, id: FileId) -> Map<
    Seq<char>,
    Set<FileId>,
>
    decreases s.len(),
{
    if s.len() == 0 {
        m
    } else {
        tables::symbol_dropped(names_dropped(m, s.drop_last(), id), s.last(), id)
    }
}

/// The names that a file defines.
pub open spec fn defs_of(w: WalkView, id: FileId) -> Seq<Seq<char>> {
    if w.defs.contains_key(id.0) {
        w.defs[id.0]
    } else {
        Seq::empty()
    }
}

/// What is written where edges close.
pub open spec fn closings(keys: Seq<EdgeKey>, at: CommitId) -> Seq<OpView> {
    keys.map_values(|e: EdgeKey| OpView::CloseEdge { edge: e, at })
}

/// What is written where edges open again.
pub open spec fn reopenings(keys: Seq<EdgeKey>, at: CommitId) -> Seq<OpView> {
    keys.map_values(|e: EdgeKey| OpView::ReopenEdge { edge: e, at })
}

/// The walk once the file at a path is gone. Everything at it closes, and
/// what came into it is remembered.
pub open spec fn file_gone(w: WalkView, path: Seq<char>, blob: Option<Seq<u8>>, at: CommitId, time: i64) -> WalkView {
    let id = w.live[path];
    let outs = open_edges::keys_in_order(open_edges::out_of(w.open, id));
    let ins = open_edges::keys_in_order(open_edges::into(w.open, id));
    WalkView {
        live: w.live.remove(path),
        order: tables::entry_drop(w.order, path),
        lang_of: w.lang_of.remove(id.0),
        dead: w.dead.insert(path, DeadView { file: id, died_time: time, last_blob: blob, closed_in: ins }),
        defs: w.defs.remove(id.0),
        symbols: names_dropped(w.symbols, defs_of(w, id), id),
        open: open_edges::apart_from(w.open, id),
        log: w.log.push(OpView::FileDied { file: id, at }).push(OpView::CloseSymbols { file: id, at }) + closings(
            outs,
            at,
        ) + closings(ins, at),
        ..w
    }
}

/// A file added at a path is the one that was deleted there: its blob is the
/// same, or it was gone for no longer than the window.
pub open spec fn comes_back(w: WalkView, path: Seq<char>, blob: Option<Seq<u8>>, time: i64) -> bool {
    w.dead.contains_key(path) && ((blob is Some && w.dead[path].last_blob == blob) || time - w.dead[path].died_time
        <= RESURRECT_WINDOW_DAYS * 86_400)
}

/// The file that a path gets when one is added there.
pub open spec fn added_id(w: WalkView, path: Seq<char>, blob: Option<Seq<u8>>, time: i64) -> FileId {
    if comes_back(w, path, blob, time) {
        w.dead[path].file
    } else {
        FileId(w.next_file as i64)
    }
}

/// The edges that open again: those from files that still have a path.
pub open spec fn reopened(live: Map<Seq<char>, FileId>, keys: Seq<EdgeKey>) -> Seq<EdgeKey> {
    keys.filter(|e: EdgeKey| live.contains_value(e.src))
}

/// The walk once a file is added at a path.
pub open spec fn file_added(w: WalkView, path: Seq<char>, blob: Option<Seq<u8>>, at: CommitId, time: i64) -> WalkView {
    let id = added_id(w, path, blob, time);
    let l = lang::lang_at(path);
    let b = WalkView {
        live: w.live.insert(path, id),
        order: tables::entry_put(w.order, path, id),
        lang_of: lang_put(w.lang_of, id, l),
        ..w
    };
    if comes_back(w, path, blob, time) {
        let back = reopened(b.live, w.dead[path].closed_in);
        WalkView {
            dead: w.dead.remove(path),
            open: w.open.union(back.to_set()),
            log: w.log.push(OpView::Resurrect { file: id, path, at }) + reopenings(back, at),
            ..b
        }
    } else {
        WalkView {
            next_file: w.next_file + 1,
            log: w.log.push(OpView::InsertFile { file: id, path, lang: l, born: at }),
            ..b
        }
    }
}

/// The walk once the file at a path has another.
pub open spec fn file_renamed(w: WalkView, from: Seq<char>, to: Seq<char>, at: CommitId, confidence: u8) -> WalkView {
    let id = w.live[from];
    let l = lang::lang_at(to);
    WalkView {
        live: w.live.remove(from).insert(to, id),
        order: tables::entry_put(tables::entry_drop(w.order, from), to, id),
        lang_of: match l {
            Some(x) => w.lang_of.insert(id.0, x),
            None => w.lang_of.remove(id.0),
        },
        log: w.log.push(OpView::Rename { file: id, path: to, at, confidence }).push(
            OpView::SetLang { file: id, lang: l },
        ),
        ..w
    }
}

/// The touch of a file.
pub open spec fn touch(c: FileChangeView, id: FileId, kind: ChangeKind, import_only: bool, at: CommitId) -> OpView {
    OpView::Touch {
        commit: at,
        file: id,
        change: kind,
        blob: if kind is Deleted {
            None
        } else {
            c.new_blob
        },
        lines_added: c.lines_added,
        lines_removed: c.lines_removed,
        import_only,
    }
}

/// The walk once a change is applied.
pub open spec fn change_applied(w: WalkView, c: FileChangeView, import_only: bool, at: CommitId, time: i64) -> WalkView {
    match c.change {
        vcs::ChangeView::Deleted { path } => if w.live.contains_key(path) {
            logged(
                file_gone(w, path, c.old_blob, at, time),
                touch(c, w.live[path], ChangeKind::Deleted, import_only, at),
            )
        } else {
            w
        },
        vcs::ChangeView::Renamed { from, to } => if w.live.contains_key(from) {
            logged(
                file_renamed(w, from, to, at, c.confidence),
                touch(c, w.live[from], ChangeKind::Renamed, import_only, at),
            )
        } else {
            // The rename of a file that is not tracked adds it.
            logged(
                file_added(w, to, c.new_blob, at, time),
                touch(c, added_id(w, to, c.new_blob, time), ChangeKind::Added, import_only, at),
            )
        },
        vcs::ChangeView::Modified { path } => if w.live.contains_key(path) {
            logged(w, touch(c, w.live[path], ChangeKind::Modified, import_only, at))
        } else {
            logged(
                file_added(w, path, c.new_blob, at, time),
                touch(c, added_id(w, path, c.new_blob, time), ChangeKind::Modified, import_only, at),
            )
        },
        vcs::ChangeView::Added { path } => logged(
            file_added(w, path, c.new_blob, at, time),
            touch(c, added_id(w, path, c.new_blob, time), ChangeKind::Added, import_only, at),
        ),
    }
}

/// The file that a change touches and leaves alive.
pub open spec fn touched_id(w: WalkView, c: FileChangeView, time: i64) -> Option<FileId> {
    match c.change {
        vcs::ChangeView::Deleted { path } => None,
        vcs::ChangeView::Renamed { from, to } => if w.live.contains_key(from) {
            Some(w.live[from])
        } else {
            Some(added_id(w, to, c.new_blob, time))
        },
        vcs::ChangeView::Modified { path } => if w.live.contains_key(path) {
            Some(w.live[path])
        } else {
            Some(added_id(w, path, c.new_blob, time))
        },
        vcs::ChangeView::Added { path } => Some(added_id(w, path, c.new_blob, time)),
    }
}

/// The walk once the first `n` changes are applied.
pub open spec fn changes_applied(
    w: WalkView,
    changes: Seq<FileChangeView>,
    import_only: Seq<bool>,
    n: int,
    at: CommitId,
    time: i64,
) -> WalkView
    decreases n,
{
    if n <= 0 {
        w
    } else {
        change_applied(
            changes_applied(w, changes, import_only, n - 1, at, time),
            changes[n - 1],
            import_only[n - 1],
            at,
            time,
        )
    }
}

/// The files that the first `n` changes touch and leave alive, each with the
/// number of its change.
pub open spec fn files_touched(
    w: WalkView,
    changes: Seq<FileChangeView>,
    import_only: Seq<bool>,
    n: int,
    at: CommitId,
    time: i64,
) -> Seq<(FileId, int)>
    decreases n,
{
    if n <= 0 {
        Seq::empty()
    } else {
        let b = files_touched(w, changes, import_only, n - 1, at, time);
        match touched_id(changes_applied(w, changes, import_only, n - 1, at, time), changes[n - 1], time) {
            Some(id) => b.push((id, n - 1)),
            None => b,
        }
    }
}

// ---- configs, symbols, edges ----

/// What was found out about the blob that a change leaves.
pub struct BlobFacts {
    /// Its content, where it could be read.
    pub content: Option<Vec<u8>>,
    /// Its parse result, where the cache has one.
    pub cached: Option<ParsedFile>,
    /// Its parse result, where it had to be parsed.
    pub fresh: Option<ParsedFile>,
}

#[verifier::ext_equal]
pub struct FactsView {
    pub content: Option<Seq<u8>>,
    pub cached: Option<ParsedView>,
    pub fresh: Option<ParsedView>,
}

pub open spec fn parse_view(p: Option<ParsedFile>) -> Option<ParsedView> {
    match p {
        Some(p) => Some(p@),
        None => None,
    }
}

impl View for BlobFacts {
    type V = FactsView;

    open spec fn view(&self) -> FactsView {
        FactsView {
            content: vcs::blob_view(self.content),
            cached: parse_view(self.cached),
            fresh: parse_view(self.fresh),
        }
    }
}

pub open spec fn facts_views(s: Seq<BlobFacts>) -> Seq<FactsView> {
    s.map_values(|b: BlobFacts| b@)
}

/// The walk once a config file is read.
pub open spec fn config_read(w: WalkView, path: Seq<char>, content: Seq<char>) -> WalkView {
    if path == "go.mod"@ {
        match config::module_in(text::lines(content)) {
            Some(m) => WalkView { go_module: Some(m), ..w },
            None => w,
        }
    } else if text::has_suffix(path, "Cargo.toml"@) {
        match config::package_in(text::lines(content), false) {
            Some(n) => if n.len() > 0 {
                WalkView { rust_crates: w.rust_crates.insert(n, config::source_dir(path)), ..w }
            } else {
                w
            },
            None => w,
        }
    } else {
        w
    }
}

/// The walk once the config files among the touched files are read.
pub open spec fn configs_read(
    w: WalkView,
    changes: Seq<FileChangeView>,
    touched: Seq<(FileId, int)>,
    facts: Seq<FactsView>,
) -> WalkView
    decreases touched.len(),
{
    if touched.len() == 0 {
        w
    } else {
        let b = configs_read(w, changes, touched.drop_last(), facts);
        let i = touched.last().1;
        match (changes[i].new_blob, facts[i].content) {
            (Some(_), Some(c)) => config_read(b, changes[i].change.path(), text::lossy(c)),
            _ => b,
        }
    }
}

/// A file stands in a list of touched files.
pub open spec fn lists_file(s: Seq<(FileId, int)>, id: FileId) -> bool {
    exists|k: int| 0 <= k < s.len() && (#[trigger] s[k]).0 == id
}

/// An id of a blob that exists.
pub open spec fn real_blob(oid: Seq<u8>) -> bool {
    exists|k: int| 0 <= k < oid.len() && #[trigger] oid[k] != 0
}

/// The touched files to parse: each at its first touch, where it has a blob
/// and a language.
pub open spec fn parse_jobs(lang_of: Map<i64, Lang>, changes: Seq<FileChangeView>, touched: Seq<(FileId, int)>) -> Seq<
    (FileId, int),
>
    decreases touched.len(),
{
    if touched.len() == 0 {
        Seq::empty()
    } else {
        let rest = touched.drop_last();
        let b = parse_jobs(lang_of, changes, rest);
        let (id, i) = touched.last();
        match changes[i].new_blob {
            Some(oid) => if !lists_file(rest, id) && real_blob(oid) && lang_of.contains_key(id.0) {
                b.push((id, i))
            } else {
                b
            },
            None => b,
        }
    }
}

/// The jobs that have a parse result: those that the cache answered, and
/// behind them those that were parsed.
pub open spec fn parse_order(jobs: Seq<(FileId, int)>, facts: Seq<FactsView>) -> Seq<(FileId, int)> {
    jobs.filter(|j: (FileId, int)| facts[j.1].cached is Some) + jobs.filter(
        |j: (FileId, int)| facts[j.1].cached is None && facts[j.1].fresh is Some,
    )
}

/// The parse result of a blob.
pub open spec fn parse_of(f: FactsView) -> ParsedView {
    match f.cached {
        Some(p) => p,
        None => match f.fresh {
            Some(p) => p,
            None => parsed::nothing_parsed(),
        },
    }
}

pub open spec fn def_names(defs: Seq<DefView>) -> Seq<Seq<char>> {
    defs.map_values(|d: DefView| d.name)
}

/// The kind of the first definition that has a name.
pub open spec fn kind_of(defs: Seq<DefView>, name: Seq<char>) -> Seq<char>
    decreases defs.len(),
{
    if defs.len() == 0 {
        "def"@
    } else if defs[0].name == name {
        defs[0].kind
    } else {
        kind_of(defs.skip(1), name)
    }
}

/// The symbols once a file defines some names.
pub open spec fn names_added(m: Map<Seq<char>, Set<FileId>>, s: Seq<Seq<char>>, id: FileId) -> Map<
    Seq<char>,
    Set<FileId>,
>
    decreases s.len(),
{
    if s.len() == 0 {
        m
    } else {
        tables::symbol_added(names_added(m, s.drop_last(), id), s.last(), id)
    }
}

/// The names of one list that another lacks.
pub open spec fn names_less(a: Seq<Seq<char>>, b: Seq<Seq<char>>) -> Seq<Seq<char>> {
    a.filter(|n: Seq<char>| !b.contains(n))
}

/// The walk once the names that a file defines are those of a parse result.
pub open spec fn symbols_updated(w: WalkView, id: FileId, p: ParsedView, at: CommitId) -> WalkView {
    let now = names::sorted_names(def_names(p.defs));
    let was = defs_of(w, id);
    let gone = names_less(was, now);
    let fresh = names_less(now, was);
    WalkView {
        defs: w.defs.insert(id.0, now),
        symbols: names_added(names_dropped(w.symbols, gone, id), fresh, id),
        log: w.log + gone.map_values(|n: Seq<char>| OpView::CloseSymbol { name: n, file: id, at })
            + fresh.map_values(
            |n: Seq<char>| OpView::OpenSymbol { name: n, file: id, kind: kind_of(p.defs, n), at },
        ),
        ..w
    }
}

/// What resolution sees of the walk.
pub open spec fn resolve_view(w: WalkView) -> resolve::CtxView {
    resolve::CtxView {
        live: w.live,
        order: w.order,
        symbols: w.symbols,
        go_module: w.go_module,
        rust_crates: w.rust_crates,
    }
}

/// The edges out of a file that were found.
pub open spec fn found_keys(src: FileId, found: Set<(FileId, EdgeKind, Resolution)>) -> Set<EdgeKey> {
    Set::new(|e: EdgeKey| e.src == src && exists|r: Resolution| found.contains((e.dst, e.kind, r)))
}

pub open spec fn found_key(src: FileId, f: (FileId, EdgeKind, Resolution)) -> EdgeKey {
    EdgeKey { src, dst: f.0, kind: f.1 }
}

/// The edges found that are not open yet.
pub open spec fn newly_found(open: Set<EdgeKey>, src: FileId, found: Seq<(FileId, EdgeKind, Resolution)>) -> Seq<
    (FileId, EdgeKind, Resolution),
> {
    found.filter(|f: (FileId, EdgeKind, Resolution)| !open.contains(found_key(src, f)))
}

/// The walk once the edges out of a file are those found: what is no longer
/// found closes, and what is found for the first time opens.
pub open spec fn edges_updated(w: WalkView, src: FileId, found: Set<(FileId, EdgeKind, Resolution)>, at: CommitId) -> WalkView {
    let outs = open_edges::out_of(w.open, src);
    let lost = open_edges::keys_in_order(outs.difference(found_keys(src, found)));
    let fresh = newly_found(w.open, src, open_edges::edges_in_order(found));
    WalkView {
        open: w.open.difference(outs).union(found_keys(src, found)),
        log: w.log + closings(lost, at) + fresh.map_values(
            |f: (FileId, EdgeKind, Resolution)|
                OpView::OpenEdge { edge: found_key(src, f), resolution: f.2, at },
        ),
        ..w
    }
}

/// The walk once the edges of a file are resolved anew.
pub open spec fn file_linked(w: WalkView, id: FileId, path: Seq<char>, p: ParsedView, at: CommitId) -> WalkView {
    if w.lang_of.contains_key(id.0) {
        let r = resolve::file_resolved(resolve_view(w), id, path, w.lang_of[id.0], p);
        edges_updated(WalkView { total: w.total + r.total, resolved: w.resolved + r.resolved, ..w }, id, r.edges, at)
    } else {
        w
    }
}

/// The walk once the symbols of parsed files are updated.
pub open spec fn all_symbols_updated(
    w: WalkView,
    order: Seq<(FileId, int)>,
    facts: Seq<FactsView>,
    at: CommitId,
) -> WalkView
    decreases order.len(),
{
    if order.len() == 0 {
        w
    } else {
        let (id, i) = order.last();
        symbols_updated(all_symbols_updated(w, order.drop_last(), facts, at), id, parse_of(facts[i]), at)
    }
}

/// The walk once the edges of parsed files are resolved.
pub open spec fn all_linked(
    w: WalkView,
    order: Seq<(FileId, int)>,
    paths: Seq<Seq<char>>,
    facts: Seq<FactsView>,
    at: CommitId,
) -> WalkView
    decreases order.len(),
{
    if order.len() == 0 {
        w
    } else {
        let (id, i) = order.last();
        file_linked(all_linked(w, order.drop_last(), paths, facts, at), id, paths[i], parse_of(facts[i]), at)
    }
}

/// Symbols first, so that files of one commit can resolve each other's names,
/// and edges behind them.
pub open spec fn parses_applied(
    w: WalkView,
    order: Seq<(FileId, int)>,
    paths: Seq<Seq<char>>,
    facts: Seq<FactsView>,
    at: CommitId,
) -> WalkView {
    all_linked(all_symbols_updated(w, order, facts, at), order, paths, facts, at)
}

pub open spec fn change_paths(s: Seq<FileChangeView>) -> Seq<Seq<char>> {
    s.map_values(|c: FileChangeView| c.change.path())
}

pub open spec fn least(a: int, b: int) -> int {
    if a < b {
        a
    } else {
        b
    }
}

/// The walk once a commit is applied.
pub open spec fn commit_applied(
    w: WalkView,
    at: CommitId,
    time: i64,
    changes: Seq<FileChangeView>,
    import_only: Seq<bool>,
    facts: Seq<FactsView>,
) -> WalkView {
    let n = least(changes.len() as int, import_only.len() as int);
    let a = detached(w, changes);
    let b = changes_applied(a, changes, import_only, n, at, time);
    let touched = files_touched(a, changes, import_only, n, at, time);
    let c = configs_read(b, changes, touched, facts);
    let order = parse_order(parse_jobs(c.lang_of, changes, touched), facts);
    parses_applied(c, order, change_paths(changes), facts, at)
}

/// The references that a parse result counts.
pub open spec fn refs(p: ParsedView) -> int {
    p.imports.len() as int + p.doc_links.len()
}

/// The references of the first `n` parse results.
pub open spec fn refs_before(facts: Seq<FactsView>, n: int) -> int
    decreases n,
{
    if n <= 0 {
        0
    } else {
        refs_before(facts, n - 1) + refs(parse_of(facts[n - 1]))
    }
}

/// The counters of the walk have room for so many new files and for the
/// references of some parse results.
pub open spec fn has_room(w: WalkView, files: int, facts: Seq<FactsView>) -> bool {
    &&& w.next_file + files <= i64::MAX
    &&& w.total + refs_before(facts, facts.len() as int) <= u64::MAX
    &&& w.resolved + refs_before(facts, facts.len() as int) <= u64::MAX
}

pub open spec fn refs_listed(order: Seq<(FileId, int)>, facts: Seq<FactsView>) -> int
    decreases order.len(),
{
    if order.len() == 0 {
        0
    } else {
        refs_listed(order.drop_last(), facts) + refs(parse_of(facts[order.last().1]))
    }
}

/// The numbers in a list grow and stay below `n`.
pub open spec fn numbered(s: Seq<(FileId, int)>, n: int) -> bool {
    &&& forall|i: int| 0 <= i < s.len() ==> 0 <= (#[trigger] s[i]).1 < n
    &&& forall|i: int, j: int| 0 <= i < j < s.len() ==> (#[trigger] s[i]).1 < (#[trigger] s[j]).1
}

proof fn lemma_refs_mono(facts: Seq<FactsView>, a: int, b: int)
    requires
        a <= b,
    ensures
        0 <= refs_before(facts, a) <= refs_before(facts, b),
    decreases b,
{
    if b > 0 {
        if a < b {
            lemma_refs_mono(facts, a, b - 1);
        } else {
            lemma_refs_mono(facts, b - 1, b - 1);
        }
    }
}

pub proof fn lemma_refs_listed(s: Seq<(FileId, int)>, facts: Seq<FactsView>, n: int)
    requires
        numbered(s, n),
    ensures
        0 <= refs_listed(s, facts) <= refs_before(facts, n),
    decreases s.len(),
{
    if s.len() == 0 {
        lemma_refs_mono(facts, 0, if n > 0 { n } else { 0 });
    } else {
        let m = s.last().1;
        assert(numbered(s.drop_last(), m)) by {
            assert forall|i: int| 0 <= i < s.drop_last().len() implies 0 <= (#[trigger] s.drop_last()[i]).1 < m by {
                assert(s[i].1 < s[s.len() - 1].1);
            }
        }
        lemma_refs_listed(s.drop_last(), facts, m);
        assert(s[s.len() - 1].1 < n);
        lemma_refs_mono(facts, m + 1, n);
    }
}

proof fn lemma_refs_sum(a: Seq<(FileId, int)>, b: Seq<(FileId, int)>, facts: Seq<FactsView>)
    ensures
        refs_listed(a + b, facts) == refs_listed(a, facts) + refs_listed(b, facts),
    decreases b.len(),
{
    if b.len() == 0 {
        assert(a + b =~= a);
    } else {
        lemma_refs_sum(a, b.drop_last(), facts);
        assert((a + b).drop_last() =~= a + b.drop_last());
    }
}

proof fn lemma_refs_prefix(s: Seq<(FileId, int)>, facts: Seq<FactsView>, k: int)
    requires
        0 <= k <= s.len(),
    ensures
        0 <= refs_listed(s.take(k), facts) <= refs_listed(s, facts),
    decreases s.len(),
{
    if k == s.len() {
        assert(s.take(k) =~= s);
        if s.len() > 0 {
            lemma_refs_prefix(s.drop_last(), facts, k - 1);
            assert(s.drop_last().take(k - 1) =~= s.drop_last());
        }
    } else {
        lemma_refs_prefix(s.drop_last(), facts, k);
        assert(s.drop_last().take(k) =~= s.take(k));
    }
}

/// The jobs that the cache answered and those that were parsed are different
/// jobs.
pub proof fn lemma_refs_parts(jobs: Seq<(FileId, int)>, facts: Seq<FactsView>)
    ensures
        refs_listed(parse_order(jobs, facts), facts) <= refs_listed(jobs, facts),
    decreases jobs.len(),
{
    let f = |j: (FileId, int)| facts[j.1].cached is Some;
    let g = |j: (FileId, int)| facts[j.1].cached is None && facts[j.1].fresh is Some;
    reveal(Seq::filter);
    lemma_refs_sum(jobs.filter(f), jobs.filter(g), facts);
    if jobs.len() > 0 {
        let d = jobs.drop_last();
        lemma_refs_parts(d, facts);
        lemma_refs_sum(d.filter(f), d.filter(g), facts);
        let x = jobs.last();
        assert(d.filter(f).push(x).drop_last() =~= d.filter(f));
        assert(d.filter(g).push(x).drop_last() =~= d.filter(g));
    }
}

proof fn lemma_touched_numbered(
    w: WalkView,
    changes: Seq<FileChangeView>,
    import_only: Seq<bool>,
    n: int,
    at: CommitId,
    time: i64,
)
    requires
        n >= 0,
    ensures
        numbered(files_touched(w, changes, import_only, n, at, time), n),
    decreases n,
{
    if n > 0 {
        lemma_touched_numbered(w, changes, import_only, n - 1, at, time);
    }
}

proof fn lemma_jobs_numbered(
    lang_of: Map<i64, Lang>,
    changes: Seq<FileChangeView>,
    touched: Seq<(FileId, int)>,
    n: int,
)
    requires
        numbered(touched, n),
    ensures
        numbered(parse_jobs(lang_of, changes, touched), n),
    decreases touched.len(),
{
    if touched.len() > 0 {
        let m = touched.last().1;
        assert(touched[touched.len() - 1].1 < n);
        assert(numbered(touched.drop_last(), m)) by {
            assert forall|i: int| 0 <= i < touched.drop_last().len() implies 0 <= (
            #[trigger] touched.drop_last()[i]).1 < m by {
                assert(touched[i].1 < touched[touched.len() - 1].1);
            }
        }
        lemma_jobs_numbered(lang_of, changes, touched.drop_last(), m);
    }
}

pub open spec fn pairs(s: Seq<(FileId, usize)>) -> Seq<(FileId, int)> {
    s.map_values(|x: (FileId, usize)| (x.0, x.1 as int))
}

impl WalkState {
    /// The tables of the walk agree with themselves.
    pub closed spec fn wf(&self) -> bool {
        &&& self.live.wf()
        &&& self.open.wf()
        &&& forall|k: i64| #[trigger]
            self.defs_by_file@.contains_key(k) ==> names::increasing(self.defs_by_file@[k]@)
    }

    pub fn new() -> (r: Self)
        ensures
            r.wf(),
            r@ == nothing_walked(),
    {
        let r = WalkState {
            live: PathMap::new(),
            lang_of: HashMap::new(),
            dead: StringHashMap::new(),
            defs_by_file: HashMap::new(),
            symbols: SymbolTable::new(),
            open: OpenEdges::new(),
            go_module: None,
            rust_crates: CrateMap::new(),
            imports_total: 0,
            imports_resolved: 0,
            next_file: 1,
            log: Vec::new(),
        };
        assert(r@ =~= nothing_walked());
        r
    }

    fn write(&mut self, op: StoreOp)
        requires
            old(self).wf(),
        ensures
            final(self).wf(),
            final(self)@ == logged(old(self)@, op@),
    {
        let ghost b = self@;
        proof {
            store_op::lemma_ops_push(self.log@, op);
        }
        let ghost ov = op@;
        self.log.push(op);
        assert(self@ =~= logged(b, ov));
    }

    /// The files whose paths change hands are detached.
    fn detach(&mut self, changes: &Vec<FileChange>)
        requires
            old(self).wf(),
        ensures
            final(self).wf(),
            final(self)@ == detached(old(self)@, vcs::change_views(changes@)),
    {
        let ghost w = self@;
        let ghost s = vcs::change_views(changes@);
        let mut i: usize = 0;
        assert(s.take(0) =~= Seq::<FileChangeView>::empty());
        while i < changes.len()
            invariant
                i <= changes@.len(),
                s == vcs::change_views(changes@),
                self.wf(),
                self@ == detached(w, s.take(i as int)),
                self@.live == w.live,
            decreases changes@.len() - i,
        {
            proof {
                assert(s.take(i + 1).drop_last() =~= s.take(i as int));
                assert(s.take(i + 1).last() == changes@[i as int]@);
            }
            let leaves = match &changes[i].change {
                Change::Deleted { path } => self.live.get(path.as_str()),
                Change::Renamed { from, to: _ } => self.live.get(from.as_str()),
                Change::Added { path: _ } => None,
                Change::Modified { path: _ } => None,
            };
            match leaves {
                Some(id) => {
                    self.write(StoreOp::ClearPath { file: id });
                },
                None => {},
            }
            i += 1;
        }
        assert(s.take(i as int) =~= s);
    }

    fn set_lang(&mut self, id: FileId, l: Option<Lang>)
        requires
            old(self).wf(),
        ensures
            final(self).wf(),
            final(self)@ == (WalkView { lang_of: lang_put(old(self)@.lang_of, id, l), ..old(self)@ }),
    {
        let ghost w = self@;
        match l {
            Some(l) => {
                self.lang_of.insert(id.0, l);
            },
            None => {},
        }
        assert(self@ =~= (WalkView { lang_of: lang_put(w.lang_of, id, l), ..w }));
    }

    /// A file no longer defines anything.
    fn remove_symbols(&mut self, id: FileId)
        requires
            old(self).wf(),
        ensures
            final(self).wf(),
            final(self)@ == (WalkView {
                defs: old(self)@.defs.remove(id.0),
                symbols: names_dropped(old(self)@.symbols, defs_of(old(self)@, id), id),
                ..old(self)@
            }),
    {
        let ghost w = self@;
        let ghost d = defs_of(w, id);
        let gone: Vec<String> = match self.defs_by_file.get(&id.0) {
            Some(n) => text::copy_texts(n.list()),
            None => Vec::new(),
        };
        assert(text::views(gone@) =~= d);
        self.defs_by_file.remove(&id.0);
        assert(self@ =~= (WalkView { defs: w.defs.remove(id.0), ..w }));
        let mut i: usize = 0;
        assert(d.take(0) =~= Seq::<Seq<char>>::empty());
        while i < gone.len()
            invariant
                i <= gone@.len(),
                d == text::views(gone@),
                self.wf(),
                self@ == (WalkView {
                    defs: w.defs.remove(id.0),
                    symbols: names_dropped(w.symbols, d.take(i as int), id),
                    ..w
                }),
            decreases gone@.len() - i,
        {
            let ghost b = self@;
            proof {
                assert(d.take(i + 1).drop_last() =~= d.take(i as int));
                assert(d.take(i + 1).last() == gone@[i as int]@);
            }
            self.symbols.remove(gone[i].as_str(), id);
            assert(self@ =~= (WalkView { symbols: names_dropped(w.symbols, d.take(i + 1), id), ..b }));
            i += 1;
        }
        assert(d.take(i as int) =~= d);
    }

    fn write_closings(&mut self, keys: &Vec<EdgeKey>, at: CommitId)
        requires
            old(self).wf(),
        ensures
            final(self).wf(),
            final(self)@ == (WalkView { log: old(self)@.log + closings(keys@, at), ..old(self)@ }),
    {
        let ghost w = self@;
        let mut i: usize = 0;
        assert(self@ =~= (WalkView { log: w.log + closings(keys@.take(0), at), ..w }));
        while i < keys.len()
            invariant
                i <= keys@.len(),
                self.wf(),
                self@ == (WalkView { log: w.log + closings(keys@.take(i as int), at), ..w }),
            decreases keys@.len() - i,
        {
            self.write(StoreOp::CloseEdge { edge: keys[i], at });
            assert(self@.log =~= w.log + closings(keys@.take(i + 1), at));
            i += 1;
        }
        assert(keys@.take(i as int) =~= keys@);
    }

    /// Close every open interval at a dying file; gives the closed edges into
    /// it, for possible resurrection.
    fn close_all_edges(&mut self, id: FileId, at: CommitId) -> (r: Vec<EdgeKey>)
        requires
            old(self).wf(),
        ensures
            final(self).wf(),
            r@ == open_edges::keys_in_order(open_edges::into(old(self)@.open, id)),
            final(self)@ == (WalkView {
                open: open_edges::apart_from(old(self)@.open, id),
                log: old(self)@.log + closings(
                    open_edges::keys_in_order(open_edges::out_of(old(self)@.open, id)),
                    at,
                ) + closings(r@, at),
                ..old(self)@
            }),
    {
        let ghost w = self@;
        let outs = self.open.outs(id);
        let ins = self.open.ins(id);
        self.write_closings(&outs, at);
        self.write_closings(&ins, at);
        let ghost b = self@;
        self.open.drop_file(id);
        assert(self@ =~= (WalkView { open: open_edges::apart_from(w.open, id), ..b }));
        ins
    }

    /// The file at a path is deleted.
    fn delete_file(&mut self, path: &str, old_blob: &Option<Vec<u8>>, at: CommitId, time: i64) -> (r: FileId)
        requires
            old(self).wf(),
            old(self)@.live.contains_key(path@),
        ensures
            final(self).wf(),
            r == old(self)@.live[path@],
            final(self)@ == file_gone(old(self)@, path@, vcs::blob_view(*old_blob), at, time),
    {
        let ghost w = self@;
        let id = match self.live.remove(path) {
            Some(id) => id,
            None => FileId(0),
        };
        assert(self@ =~= (WalkView {
            live: w.live.remove(path@),
            order: tables::entry_drop(w.order, path@),
            ..w
        }));
        self.write(StoreOp::FileDied { file: id, at });
        self.write(StoreOp::CloseSymbols { file: id, at });
        self.remove_symbols(id);
        let closed_in = self.close_all_edges(id, at);
        let ghost b = self@;
        let last_blob = match old_blob {
            Some(v) => Some(copy_bytes(v)),
            None => None,
        };
        let entry = DeadEntry { file: id, died_time: time, last_blob, closed_in };
        let ghost ev = entry@;
        self.lang_of.remove(&id.0);
        self.dead.insert(path.to_owned(), entry);
        assert(self@ =~= (WalkView {
            lang_of: b.lang_of.remove(id.0),
            dead: b.dead.insert(path@, ev),
            ..b
        }));
        assert(self@ =~= file_gone(w, path@, vcs::blob_view(*old_blob), at, time));
        id
    }

    fn reopen(&mut self, keys: &Vec<EdgeKey>, at: CommitId)
        requires
            old(self).wf(),
        ensures
            final(self).wf(),
            final(self)@ == (WalkView {
                open: old(self)@.open.union(reopened(old(self)@.live, keys@).to_set()),
                log: old(self)@.log + reopenings(reopened(old(self)@.live, keys@), at),
                ..old(self)@
            }),
    {
        let ghost w = self@;
        let ghost f = |e: EdgeKey| w.live.contains_value(e.src);
        let mut i: usize = 0;
        proof {
            reveal(Seq::filter);
            assert(keys@.take(0).filter(f) =~= Seq::<EdgeKey>::empty());
            assert(w.open.union(Seq::<EdgeKey>::empty().to_set()) =~= w.open);
            assert(w.log + reopenings(Seq::<EdgeKey>::empty(), at) =~= w.log);
        }
        while i < keys.len()
            invariant
                i <= keys@.len(),
                self.wf(),
                f == (|e: EdgeKey| w.live.contains_value(e.src)),
                self@ == (WalkView {
                    open: w.open.union(keys@.take(i as int).filter(f).to_set()),
                    log: w.log + reopenings(keys@.take(i as int).filter(f), at),
                    ..w
                }),
            decreases keys@.len() - i,
        {
            let e = keys[i];
            let ghost was = keys@.take(i as int).filter(f);
            let ghost b = self@;
            proof {
                reveal(Seq::filter);
                assert(keys@.take(i + 1).drop_last() =~= keys@.take(i as int));
                assert(keys@.take(i + 1).last() == e);
            }
            if self.live.has_file(e.src) {
                self.open.insert(e);
                assert(self@ =~= (WalkView { open: b.open.insert(e), ..b }));
                self.write(StoreOp::ReopenEdge { edge: e, at });
                proof {
                    let now = was.push(e);
                    assert(now.to_set() =~= was.to_set().insert(e)) by {
                        assert forall|x: EdgeKey| now.to_set().contains(x) <==> was.to_set().insert(e).contains(x) by {
                            if was.contains(x) {
                                assert(now[was.index_of(x)] == x);
                            }
                            if x == e {
                                assert(now[was.len() as int] == x);
                            }
                        }
                    }
                    assert(self@.open =~= w.open.union(now.to_set()));
                    assert(self@.log =~= w.log + reopenings(now, at));
                }
            }
            i += 1;
        }
        assert(keys@.take(i as int) =~= keys@);
    }

    /// A file is added at a path: the one that was deleted there not long
    /// ago or with this blob, or a new one.
    fn add_file(&mut self, path: &str, new_blob: &Option<Vec<u8>>, at: CommitId, time: i64) -> (r: FileId)
        requires
            old(self).wf(),
            old(self)@.next_file < i64::MAX,
        ensures
            final(self).wf(),
            r == added_id(old(self)@, path@, vcs::blob_view(*new_blob), time),
            final(self)@ == file_added(old(self)@, path@, vcs::blob_view(*new_blob), at, time),
    {
        let ghost w = self@;
        let ghost blob = vcs::blob_view(*new_blob);
        let lang = Lang::from_path(path);
        let back = match self.dead.get(path) {
            Some(entry) => {
                assert(w.dead[path@] == entry@);
                let same_blob = match (&entry.last_blob, new_blob) {
                    (Some(a), Some(b)) => same_bytes(a, b),
                    _ => false,
                };
                let gone_for = time as i128 - entry.died_time as i128;
                if same_blob || gone_for <= RESURRECT_WINDOW_DAYS as i128 * 86_400 {
                    Some((entry.file, copy_keys(&entry.closed_in)))
                } else {
                    None
                }
            },
            None => None,
        };
        match back {
            Some((id, closed_in)) => {
                self.dead.remove(path);
                assert(self@ =~= (WalkView { dead: w.dead.remove(path@), ..w }));
                self.write(StoreOp::Resurrect { file: id, path: path.to_owned(), at });
                let ghost b = self@;
                self.live.insert(path.to_owned(), id);
                assert(self@ =~= (WalkView {
                    live: w.live.insert(path@, id),
                    order: tables::entry_put(w.order, path@, id),
                    ..b
                }));
                self.set_lang(id, lang);
                self.reopen(&closed_in, at);
                assert(self@ =~= file_added(w, path@, blob, at, time));
                id
            },
            None => {
                let id = FileId(self.next_file);
                self.next_file = self.next_file + 1;
                assert(self@ =~= (WalkView { next_file: w.next_file + 1, ..w }));
                self.write(StoreOp::InsertFile { file: id, path: path.to_owned(), lang, born: at });
                let ghost b = self@;
                self.live.insert(path.to_owned(), id);
                assert(self@ =~= (WalkView {
                    live: w.live.insert(path@, id),
                    order: tables::entry_put(w.order, path@, id),
                    ..b
                }));
                self.set_lang(id, lang);
                assert(self@ =~= file_added(w, path@, blob, at, time));
                id
            },
        }
    }

    fn rename_file(&mut self, from: &str, to: &str, at: CommitId, confidence: u8) -> (r: FileId)
        requires
            old(self).wf(),
            old(self)@.live.contains_key(from@),
        ensures
            final(self).wf(),
            r == old(self)@.live[from@],
            final(self)@ == file_renamed(old(self)@, from@, to@, at, confidence),
    {
        let ghost w = self@;
        let id = match self.live.remove(from) {
            Some(id) => id,
            None => FileId(0),
        };
        self.live.insert(to.to_owned(), id);
        let lang = Lang::from_path(to);
        match lang {
            Some(l) => {
                self.lang_of.insert(id.0, l);
            },
            None => {
                self.lang_of.remove(&id.0);
            },
        }
        let ghost b = self@;
        assert(b.log == w.log);
        self.write(StoreOp::Rename { file: id, path: to.to_owned(), at, confidence });
        self.write(StoreOp::SetLang { file: id, lang });
        assert(self@ =~= file_renamed(w, from@, to@, at, confidence));
        id
    }

    fn write_touch(&mut self, fc: &FileChange, id: FileId, kind: ChangeKind, import_only: bool, at: CommitId)
        requires
            old(self).wf(),
        ensures
            final(self).wf(),
            final(self)@ == logged(old(self)@, touch(fc@, id, kind, import_only, at)),
    {
        let blob = match (kind, &fc.new_blob) {
            (ChangeKind::Deleted, _) => None,
            (_, Some(b)) => Some(copy_bytes(b)),
            (_, None) => None,
        };
        self.write(
            StoreOp::Touch {
                commit: at,
                file: id,
                change: kind,
                blob,
                lines_added: fc.lines_added,
                lines_removed: fc.lines_removed,
                import_only,
            },
        );
    }

    /// Apply one change; gives the file that it touches and leaves alive.
    pub fn apply_change(&mut self, fc: &FileChange, import_only: bool, at: CommitId, time: i64) -> (r: Option<FileId>)
        requires
            old(self).wf(),
            old(self)@.next_file < i64::MAX,
        ensures
            final(self).wf(),
            r == touched_id(old(self)@, fc@, time),
            final(self)@ == change_applied(old(self)@, fc@, import_only, at, time),
    {
        match &fc.change {
            Change::Deleted { path } => {
                if self.live.contains_key(path.as_str()) {
                    let id = self.delete_file(path.as_str(), &fc.old_blob, at, time);
                    self.write_touch(fc, id, ChangeKind::Deleted, import_only, at);
                }
                None
            },
            Change::Renamed { from, to } => {
                if self.live.contains_key(from.as_str()) {
                    let id = self.rename_file(from.as_str(), to.as_str(), at, fc.confidence);
                    self.write_touch(fc, id, ChangeKind::Renamed, import_only, at);
                    Some(id)
                } else {
                    let id = self.add_file(to.as_str(), &fc.new_blob, at, time);
                    self.write_touch(fc, id, ChangeKind::Added, import_only, at);
                    Some(id)
                }
            },
            Change::Modified { path } => {
                let id = match self.live.get(path.as_str()) {
                    Some(id) => id,
                    None => self.add_file(path.as_str(), &fc.new_blob, at, time),
                };
                self.write_touch(fc, id, ChangeKind::Modified, import_only, at);
                Some(id)
            },
            Change::Added { path } => {
                let id = self.add_file(path.as_str(), &fc.new_blob, at, time);
                self.write_touch(fc, id, ChangeKind::Added, import_only, at);
                Some(id)
            },
        }
    }

    /// Take from a config file what the resolver needs.
    pub fn read_config(&mut self, path: &str, content: &str)
        requires
            old(self).wf(),
        ensures
            final(self).wf(),
            final(self)@ == config_read(old(self)@, path@, content@),
    {
        let ghost w = self@;
        if text::eq_str(path, "go.mod") {
            match config::go_module(content) {
                Some(m) => {
                    self.go_module = Some(m);
                },
                None => {},
            }
        } else if text::ends_with(path, "Cargo.toml") {
            match config::package_name(content) {
                Some(n) => {
                    if n.as_str().unicode_len() > 0 {
                        self.rust_crates.insert(n, config::crate_source_dir(path));
                    }
                },
                None => {},
            }
        }
        assert(self@ =~= config_read(w, path@, content@));
    }

    /// Config files feed the resolver.
    pub fn update_configs(&mut self, path: &str, content: &Vec<u8>)
        requires
            old(self).wf(),
        ensures
            final(self).wf(),
            final(self)@ == config_read(old(self)@, path@, text::lossy(content@)),
    {
        if config::is_config_path(path) {
            let t = text::utf8_lossy(content);
            self.read_config(path, t.as_str());
        }
    }

    /// The names that a file defines are those of a parse result.
    pub fn update_symbols(&mut self, id: FileId, pf: &ParsedFile, at: CommitId)
        requires
            old(self).wf(),
        ensures
            final(self).wf(),
            final(self)@ == symbols_updated(old(self)@, id, pf@, at),
    {
        let ghost w = self@;
        let ghost defs = parsed::def_views(pf.defs@);
        let ghost all = def_names(defs);
        let mut now = NameSet::new();
        let mut i: usize = 0;
        assert(all.take(0) =~= Seq::<Seq<char>>::empty());
        while i < pf.defs.len()
            invariant
                i <= pf.defs@.len(),
                defs == parsed::def_views(pf.defs@),
                all == def_names(defs),
                names::increasing(now@),
                now@ == names::sorted_names(all.take(i as int)),
            decreases pf.defs@.len() - i,
        {
            proof {
                assert(all.take(i + 1).drop_last() =~= all.take(i as int));
                assert(all.take(i + 1).last() == pf.defs@[i as int].name@);
            }
            now.insert(pf.defs[i].name.clone());
            i += 1;
        }
        assert(all.take(i as int) =~= all);
        let ghost nv = now@;
        let ghost ov = defs_of(w, id);
        let was: Vec<String> = match self.defs_by_file.get(&id.0) {
            Some(n) => text::copy_texts(n.list()),
            None => Vec::new(),
        };
        assert(text::views(was@) =~= ov);
        self.close_names(&was, &now, id, at);
        self.open_names(&was, &now, pf, id, at);
        let ghost b = self@;
        self.defs_by_file.insert(id.0, now);
        assert(self@ =~= (WalkView { defs: b.defs.insert(id.0, nv), ..b }));
        assert(self@ =~= symbols_updated(w, id, pf@, at));
    }

    fn close_names(&mut self, was: &Vec<String>, now: &NameSet, id: FileId, at: CommitId)
        requires
            old(self).wf(),
        ensures
            final(self).wf(),
            final(self)@ == ({
                let gone = names_less(text::views(was@), now@);
                WalkView {
                    symbols: names_dropped(old(self)@.symbols, gone, id),
                    log: old(self)@.log + gone.map_values(
                        |n: Seq<char>| OpView::CloseSymbol { name: n, file: id, at },
                    ),
                    ..old(self)@
                }
            }),
    {
        let ghost w = self@;
        let ghost ov = text::views(was@);
        let ghost f = |n: Seq<char>| !now@.contains(n);
        let ghost op = |n: Seq<char>| OpView::CloseSymbol { name: n, file: id, at };
        let mut i: usize = 0;
        proof {
            reveal(Seq::filter);
            assert(ov.take(0).filter(f) =~= Seq::<Seq<char>>::empty());
            assert(w.log + Seq::<Seq<char>>::empty().map_values(op) =~= w.log);
        }
        while i < was.len()
            invariant
                i <= was@.len(),
                ov == text::views(was@),
                f == (|n: Seq<char>| !now@.contains(n)),
                op == (|n: Seq<char>| OpView::CloseSymbol { name: n, file: id, at }),
                self.wf(),
                self@ == (WalkView {
                    symbols: names_dropped(w.symbols, ov.take(i as int).filter(f), id),
                    log: w.log + ov.take(i as int).filter(f).map_values(op),
                    ..w
                }),
            decreases was@.len() - i,
        {
            let ghost g = ov.take(i as int).filter(f);
            proof {
                reveal(Seq::filter);
                assert(ov.take(i + 1).drop_last() =~= ov.take(i as int));
                assert(ov.take(i + 1).last() == was@[i as int]@);
            }
            let name = was[i].as_str();
            if !now.contains(name) {
                let ghost b = self@;
                self.symbols.remove(name, id);
                assert(self@ =~= (WalkView { symbols: tables::symbol_dropped(b.symbols, name@, id), ..b }));
                self.write(StoreOp::CloseSymbol { name: was[i].clone(), file: id, at });
                proof {
                    assert(g.push(name@).drop_last() =~= g);
                    assert(self@.log =~= w.log + g.push(name@).map_values(op));
                }
            }
            i += 1;
        }
        assert(ov.take(i as int) =~= ov);
    }

    fn open_names(&mut self, was: &Vec<String>, now: &NameSet, pf: &ParsedFile, id: FileId, at: CommitId)
        requires
            old(self).wf(),
        ensures
            final(self).wf(),
            final(self)@ == ({
                let fresh = names_less(now@, text::views(was@));
                WalkView {
                    symbols: names_added(old(self)@.symbols, fresh, id),
                    log: old(self)@.log + fresh.map_values(
                        |n: Seq<char>| OpView::OpenSymbol { name: n, file: id, kind: kind_of(pf@.defs, n), at },
                    ),
                    ..old(self)@
                }
            }),
    {
        let ghost w = self@;
        let ghost ov = text::views(was@);
        let ghost nv = now@;
        let ghost f = |n: Seq<char>| !ov.contains(n);
        let ghost op = |n: Seq<char>| OpView::OpenSymbol { name: n, file: id, kind: kind_of(pf@.defs, n), at };
        let list = now.list();
        let mut i: usize = 0;
        proof {
            reveal(Seq::filter);
            assert(nv.take(0).filter(f) =~= Seq::<Seq<char>>::empty());
            assert(w.log + Seq::<Seq<char>>::empty().map_values(op) =~= w.log);
        }
        while i < list.len()
            invariant
                i <= list@.len(),
                nv == text::views(list@),
                ov == text::views(was@),
                f == (|n: Seq<char>| !ov.contains(n)),
                op == (|n: Seq<char>| OpView::OpenSymbol { name: n, file: id, kind: kind_of(pf@.defs, n), at }),
                self.wf(),
                self@ == (WalkView {
                    symbols: names_added(w.symbols, nv.take(i as int).filter(f), id),
                    log: w.log + nv.take(i as int).filter(f).map_values(op),
                    ..w
                }),
            decreases list@.len() - i,
        {
            let ghost g = nv.take(i as int).filter(f);
            proof {
                reveal(Seq::filter);
                assert(nv.take(i + 1).drop_last() =~= nv.take(i as int));
                assert(nv.take(i + 1).last() == list@[i as int]@);
            }
            let name = list[i].as_str();
            if !listed(was, name) {
                let kind = def_kind(&pf.defs, name);
                let ghost b = self@;
                self.symbols.add(name, id);
                assert(self@ =~= (WalkView { symbols: tables::symbol_added(b.symbols, name@, id), ..b }));
                self.write(StoreOp::OpenSymbol { name: list[i].clone(), file: id, kind, at });
                proof {
                    assert(g.push(name@).drop_last() =~= g);
                    assert(self@.log =~= w.log + g.push(name@).map_values(op));
                }
            }
            i += 1;
        }
        assert(nv.take(i as int) =~= nv);
    }

    fn write_openings(&mut self, src: FileId, fresh: &Vec<(FileId, EdgeKind, Resolution)>, at: CommitId)
        requires
            old(self).wf(),
        ensures
            final(self).wf(),
            final(self)@ == (WalkView {
                log: old(self)@.log + fresh@.map_values(
                    |f: (FileId, EdgeKind, Resolution)|
                        OpView::OpenEdge { edge: found_key(src, f), resolution: f.2, at },
                ),
                ..old(self)@
            }),
    {
        let ghost w = self@;
        let ghost op = |f: (FileId, EdgeKind, Resolution)|
            OpView::OpenEdge { edge: found_key(src, f), resolution: f.2, at };
        let mut i: usize = 0;
        assert(w.log + fresh@.take(0).map_values(op) =~= w.log);
        while i < fresh.len()
            invariant
                i <= fresh@.len(),
                op == (|f: (FileId, EdgeKind, Resolution)|
                    OpView::OpenEdge { edge: found_key(src, f), resolution: f.2, at }),
                self.wf(),
                self@ == (WalkView { log: w.log + fresh@.take(i as int).map_values(op), ..w }),
            decreases fresh@.len() - i,
        {
            let (dst, kind, resolution) = fresh[i];
            self.write(StoreOp::OpenEdge { edge: EdgeKey { src, dst, kind }, resolution, at });
            assert(self@.log =~= w.log + fresh@.take(i + 1).map_values(op));
            i += 1;
        }
        assert(fresh@.take(i as int) =~= fresh@);
    }

    /// The edges out of a file are those found: what is no longer found
    /// closes, and what is found for the first time opens.
    pub fn apply_edge_diff(&mut self, src: FileId, found: &EdgeSet, at: CommitId)
        requires
            old(self).wf(),
            found.wf(),
        ensures
            final(self).wf(),
            final(self)@ == edges_updated(old(self)@, src, found@, at),
    {
        let ghost w = self@;
        let list = found.list();
        let ghost keys = found_keys(src, found@);
        let outs = self.open.outs(src);
        proof {
            open_edges::lemma_found_in_order(list@);
            assert forall|k: int| 0 <= k < outs@.len() implies (#[trigger] outs@[k]).src == src by {
                assert(outs@.to_set().contains(outs@[k]));
            }
        }
        let lost = keys_less(&outs, src, list);
        proof {
            open_edges::lemma_in_order(lost@);
            assert(lost@.to_set() =~= open_edges::out_of(w.open, src).difference(keys)) by {
                assert forall|e: EdgeKey| lost@.to_set().contains(e) <==> open_edges::out_of(
                    w.open,
                    src,
                ).difference(keys).contains(e) by {
                    assert(outs@.contains(e) <==> outs@.to_set().contains(e));
                }
            }
        }
        let fresh = found_less(&self.open, src, list);
        self.write_closings(&lost, at);
        self.write_openings(src, &fresh, at);
        let ghost b = self@;
        self.open.drop_outs(src);
        assert(self@ =~= (WalkView { open: w.open.difference(open_edges::out_of(w.open, src)), ..b }));
        let mut i: usize = 0;
        let ghost rest = self@.open;
        assert(list@.take(0).to_set() =~= Set::<(FileId, EdgeKind, Resolution)>::empty());
        assert(rest.union(found_keys(src, list@.take(0).to_set())) =~= rest);
        while i < list.len()
            invariant
                i <= list@.len(),
                self.wf(),
                self@ == (WalkView { open: rest.union(found_keys(src, list@.take(i as int).to_set())), ..b }),
            decreases list@.len() - i,
        {
            let (dst, kind, res) = list[i];
            let e = EdgeKey { src, dst, kind };
            let ghost v = self@;
            self.open.insert(e);
            assert(self@ =~= (WalkView { open: v.open.insert(e), ..v }));
            proof {
                lemma_found_grow(src, list@, i as int);
                assert(self@.open =~= rest.union(found_keys(src, list@.take(i + 1).to_set())));
            }
            i += 1;
        }
        assert(list@.take(i as int) =~= list@);
        assert(self@ =~= edges_updated(w, src, found@, at));
    }

    fn resolve(&self, id: FileId, path: &str, l: Lang, pf: &ParsedFile) -> (r: ResolvedEdges)
        requires
            self.wf(),
        ensures
            r.wf(),
            r@ == resolve::file_resolved(resolve_view(self@), id, path@, l, pf@),
    {
        let go_module = match &self.go_module {
            Some(m) => Some(m.as_str()),
            None => None,
        };
        let ctx = ResolveCtx { live: &self.live, symbols: &self.symbols, go_module, rust_crates: &self.rust_crates };
        assert(ctx@ == resolve_view(self@));
        resolve_file(&ctx, id, path, l, pf)
    }

    /// Resolve the edges of a file anew.
    pub fn link_file(&mut self, id: FileId, path: &str, pf: &ParsedFile, at: CommitId)
        requires
            old(self).wf(),
            old(self)@.total + refs(pf@) <= u64::MAX,
            old(self)@.resolved + refs(pf@) <= u64::MAX,
        ensures
            final(self).wf(),
            final(self)@ == file_linked(old(self)@, id, path@, pf@, at),
            final(self)@.total <= old(self)@.total + refs(pf@),
            final(self)@.resolved <= old(self)@.resolved + refs(pf@),
    {
        let ghost w = self@;
        let l = match self.lang_of.get(&id.0) {
            Some(l) => *l,
            None => {
                return ;
            },
        };
        let r = self.resolve(id, path, l, pf);
        proof {
            resolve::resolved_within_counted(resolve_view(w), id, path@, l, pf@);
        }
        self.imports_total = self.imports_total + r.imports_total;
        self.imports_resolved = self.imports_resolved + r.imports_resolved;
        assert(self@ =~= (WalkView { total: w.total + r@.total, resolved: w.resolved + r@.resolved, ..w }));
        self.apply_edge_diff(id, &r.edges, at);
    }

    fn apply_parses(
        &mut self,
        order: &Vec<(FileId, usize)>,
        paths: &Vec<String>,
        facts: &Vec<BlobFacts>,
        at: CommitId,
    )
        requires
            old(self).wf(),
            forall|k: int|
                0 <= k < order@.len() ==> (#[trigger] order@[k]).1 < facts@.len() && order@[k].1 < paths@.len()
                    && (facts@[order@[k].1 as int].cached is Some || facts@[order@[k].1 as int].fresh is Some),
            old(self)@.total + refs_listed(pairs(order@), facts_views(facts@)) <= u64::MAX,
            old(self)@.resolved + refs_listed(pairs(order@), facts_views(facts@)) <= u64::MAX,
        ensures
            final(self).wf(),
            final(self)@ == parses_applied(
                old(self)@,
                pairs(order@),
                text::views(paths@),
                facts_views(facts@),
                at,
            ),
    {
        let ghost w = self@;
        let ghost o = pairs(order@);
        let ghost fv = facts_views(facts@);
        let ghost pv = text::views(paths@);
        let mut i: usize = 0;
        assert(o.take(0) =~= Seq::<(FileId, int)>::empty());
        while i < order.len()
            invariant
                i <= order@.len(),
                o == pairs(order@),
                fv == facts_views(facts@),
                forall|k: int|
                    0 <= k < order@.len() ==> (#[trigger] order@[k]).1 < facts@.len() && order@[k].1 < paths@.len()
                        && (facts@[order@[k].1 as int].cached is Some || facts@[order@[k].1 as int].fresh is Some),
                self.wf(),
                self@ == all_symbols_updated(w, o.take(i as int), fv, at),
                self@.total == w.total,
                self@.resolved == w.resolved,
            decreases order@.len() - i,
        {
            proof {
                assert(o.take(i + 1).drop_last() =~= o.take(i as int));
                assert(o.take(i + 1).last() == (order@[i as int].0, order@[i as int].1 as int));
            }
            let (id, k) = order[i];
            let pf = the_parse(&facts[k]);
            self.update_symbols(id, pf, at);
            i += 1;
        }
        assert(o.take(i as int) =~= o);
        let ghost b = self@;
        let mut j: usize = 0;
        while j < order.len()
            invariant
                j <= order@.len(),
                o == pairs(order@),
                fv == facts_views(facts@),
                pv == text::views(paths@),
                forall|k: int|
                    0 <= k < order@.len() ==> (#[trigger] order@[k]).1 < facts@.len() && order@[k].1 < paths@.len()
                        && (facts@[order@[k].1 as int].cached is Some || facts@[order@[k].1 as int].fresh is Some),
                b.total + refs_listed(o, fv) <= u64::MAX,
                b.resolved + refs_listed(o, fv) <= u64::MAX,
                self.wf(),
                self@ == all_linked(b, o.take(j as int), pv, fv, at),
                self@.total <= b.total + refs_listed(o.take(j as int), fv),
                self@.resolved <= b.resolved + refs_listed(o.take(j as int), fv),
            decreases order@.len() - j,
        {
            proof {
                assert(o.take(j + 1).drop_last() =~= o.take(j as int));
                assert(o.take(j + 1).last() == (order@[j as int].0, order@[j as int].1 as int));
                lemma_refs_prefix(o, fv, j + 1);
            }
            let (id, k) = order[j];
            let pf = the_parse(&facts[k]);
            assert(pv[k as int] == paths@[k as int]@);
            self.link_file(id, paths[k].as_str(), pf, at);
            j += 1;
        }
        assert(o.take(j as int) =~= o);
    }

    fn apply_changes(
        &mut self,
        at: CommitId,
        time: i64,
        changes: &Vec<FileChange>,
        import_only: &Vec<bool>,
    ) -> (touched: Vec<(FileId, usize)>)
        requires
            old(self).wf(),
            old(self)@.next_file + changes@.len() <= i64::MAX,
        ensures
            final(self).wf(),
            final(self)@ == changes_applied(
                old(self)@,
                vcs::change_views(changes@),
                import_only@,
                least(changes@.len() as int, import_only@.len() as int),
                at,
                time,
            ),
            pairs(touched@) == files_touched(
                old(self)@,
                vcs::change_views(changes@),
                import_only@,
                least(changes@.len() as int, import_only@.len() as int),
                at,
                time,
            ),
            final(self)@.total == old(self)@.total,
            final(self)@.resolved == old(self)@.resolved,
            forall|k: int| 0 <= k < touched@.len() ==> (#[trigger] touched@[k]).1 < changes@.len(),
    {
        let ghost w = self@;
        let ghost s = vcs::change_views(changes@);
        let mut touched: Vec<(FileId, usize)> = Vec::new();
        let mut i: usize = 0;
        assert(pairs(touched@) =~= Seq::<(FileId, int)>::empty());
        while i < changes.len() && i < import_only.len()
            invariant
                i <= changes@.len(),
                i <= import_only@.len(),
                s == vcs::change_views(changes@),
                w.next_file + changes@.len() <= i64::MAX,
                self.wf(),
                self@ == changes_applied(w, s, import_only@, i as int, at, time),
                self@.next_file <= w.next_file + i,
                self@.total == w.total,
                self@.resolved == w.resolved,
                pairs(touched@) == files_touched(w, s, import_only@, i as int, at, time),
                forall|k: int| 0 <= k < touched@.len() ==> (#[trigger] touched@[k]).1 < changes@.len(),
            decreases changes@.len() - i,
        {
            let ghost b = self@;
            let ghost t = touched@;
            proof {
                lemma_change_counts(b, s[i as int], import_only@[i as int], at, time);
                assert(s[i as int] == changes@[i as int]@);
            }
            match self.apply_change(&changes[i], import_only[i], at, time) {
                Some(id) => {
                    touched.push((id, i));
                    assert(pairs(touched@) =~= pairs(t).push((id, i as int)));
                },
                None => {},
            }
            i += 1;
        }
        touched
    }

    fn read_configs(&mut self, changes: &Vec<FileChange>, touched: &Vec<(FileId, usize)>, facts: &Vec<BlobFacts>)
        requires
            old(self).wf(),
            facts@.len() == changes@.len(),
            forall|k: int| 0 <= k < touched@.len() ==> (#[trigger] touched@[k]).1 < changes@.len(),
        ensures
            final(self).wf(),
            final(self)@ == configs_read(
                old(self)@,
                vcs::change_views(changes@),
                pairs(touched@),
                facts_views(facts@),
            ),
            final(self)@.total == old(self)@.total,
            final(self)@.resolved == old(self)@.resolved,
    {
        let ghost w = self@;
        let ghost s = vcs::change_views(changes@);
        let ghost o = pairs(touched@);
        let ghost fv = facts_views(facts@);
        let mut i: usize = 0;
        assert(o.take(0) =~= Seq::<(FileId, int)>::empty());
        while i < touched.len()
            invariant
                i <= touched@.len(),
                s == vcs::change_views(changes@),
                o == pairs(touched@),
                fv == facts_views(facts@),
                facts@.len() == changes@.len(),
                forall|k: int| 0 <= k < touched@.len() ==> (#[trigger] touched@[k]).1 < changes@.len(),
                self.wf(),
                self@ == configs_read(w, s, o.take(i as int), fv),
                self@.total == w.total,
                self@.resolved == w.resolved,
            decreases touched@.len() - i,
        {
            let k = touched[i].1;
            proof {
                assert(o.take(i + 1).drop_last() =~= o.take(i as int));
                assert(o.take(i + 1).last().1 == k);
                assert(s[k as int] == changes@[k as int]@);
                assert(fv[k as int] == facts@[k as int]@);
            }
            if changes[k].new_blob.is_some() {
                match &facts[k].content {
                    Some(c) => {
                        self.update_configs(changes[k].change.path(), c);
                    },
                    None => {},
                }
            }
            i += 1;
        }
        assert(o.take(i as int) =~= o);
    }

    fn list_jobs(&self, changes: &Vec<FileChange>, touched: &Vec<(FileId, usize)>) -> (r: Vec<(FileId, usize)>)
        requires
            self.wf(),
            forall|k: int| 0 <= k < touched@.len() ==> (#[trigger] touched@[k]).1 < changes@.len(),
        ensures
            pairs(r@) == parse_jobs(self@.lang_of, vcs::change_views(changes@), pairs(touched@)),
    {
        let ghost s = vcs::change_views(changes@);
        let ghost o = pairs(touched@);
        let mut out: Vec<(FileId, usize)> = Vec::new();
        let mut i: usize = 0;
        assert(o.take(0) =~= Seq::<(FileId, int)>::empty());
        assert(pairs(out@) =~= Seq::<(FileId, int)>::empty());
        while i < touched.len()
            invariant
                i <= touched@.len(),
                s == vcs::change_views(changes@),
                o == pairs(touched@),
                forall|k: int| 0 <= k < touched@.len() ==> (#[trigger] touched@[k]).1 < changes@.len(),
                pairs(out@) == parse_jobs(self@.lang_of, s, o.take(i as int)),
            decreases touched@.len() - i,
        {
            let (id, k) = touched[i];
            let ghost before = out@;
            proof {
                assert(o.take(i + 1).drop_last() =~= o.take(i as int));
                assert(o.take(i + 1).last() == (id, k as int));
                assert(s[k as int] == changes@[k as int]@);
            }
            let wanted = match &changes[k].new_blob {
                Some(oid) => !seen_before(touched, i, id) && is_real(oid) && self.lang_of.contains_key(&id.0),
                None => false,
            };
            if wanted {
                out.push((id, k));
                assert(pairs(out@) =~= pairs(before).push((id, k as int)));
            }
            i += 1;
        }
        assert(o.take(i as int) =~= o);
        out
    }

    /// Apply the changes of a commit: identity and touches first, configs,
    /// the symbols of parsed files, and their edges.
    pub fn apply_commit(
        &mut self,
        at: CommitId,
        time: i64,
        changes: &Vec<FileChange>,
        import_only: &Vec<bool>,
        facts: &Vec<BlobFacts>,
    )
        requires
            old(self).wf(),
            facts@.len() == changes@.len(),
            has_room(old(self)@, changes@.len() as int, facts_views(facts@)),
        ensures
            final(self).wf(),
            final(self)@ == commit_applied(
                old(self)@,
                at,
                time,
                vcs::change_views(changes@),
                import_only@,
                facts_views(facts@),
            ),
    {
        let ghost w = self@;
        let ghost s = vcs::change_views(changes@);
        let ghost fv = facts_views(facts@);
        let ghost n = least(changes@.len() as int, import_only@.len() as int);
        proof {
            lemma_detach_counts(w, s);
        }
        self.detach(changes);
        let ghost a = self@;
        let touched = self.apply_changes(at, time, changes, import_only);
        self.read_configs(changes, &touched, facts);
        let ghost c = self@;
        let jobs = self.list_jobs(changes, &touched);
        let ghost js = pairs(jobs@);
        proof {
            lemma_touched_numbered(a, s, import_only@, n, at, time);
            lemma_jobs_numbered(c.lang_of, s, pairs(touched@), n);
            assert forall|k: int| 0 <= k < jobs@.len() implies (#[trigger] jobs@[k]).1 < changes@.len() by {
                assert(js[k].1 == jobs@[k].1);
            }
            lemma_refs_listed(js, fv, n);
            lemma_refs_mono(fv, n, fv.len() as int);
            lemma_refs_parts(js, fv);
        }
        let order = order_parses(&jobs, facts);
        let mut paths: Vec<String> = Vec::new();
        let mut i: usize = 0;
        while i < changes.len()
            invariant
                i <= changes@.len(),
                paths@.len() == i,
                s == vcs::change_views(changes@),
                forall|k: int| 0 <= k < i ==> (#[trigger] paths@[k])@ == change_paths(s)[k],
            decreases changes@.len() - i,
        {
            paths.push(changes[i].change.path().to_owned());
            i += 1;
        }
        assert(text::views(paths@) =~= change_paths(s));
        self.apply_parses(&order, &paths, facts, at);
    }

    /// Whether the counters have room for so many new files and for the
    /// references of some parse results.
    pub fn room_for(&self, files: usize, facts: &Vec<BlobFacts>) -> (r: bool)
        ensures
            r == has_room(self@, files as int, facts_views(facts@)),
    {
        let ghost fv = facts_views(facts@);
        let mut n: u128 = 0;
        let limit: u128 = u64::MAX as u128;
        let mut i: usize = 0;
        while i < facts.len()
            invariant
                i <= facts@.len(),
                fv == facts_views(facts@),
                limit == u64::MAX,
                n <= limit,
                n == refs_before(fv, i as int),
            decreases facts@.len() - i,
        {
            assert(fv[i as int] == facts@[i as int]@);
            let f = &facts[i];
            let more: u128 = match &f.cached {
                Some(p) => p.imports.len() as u128 + p.doc_links.len() as u128,
                None => match &f.fresh {
                    Some(p) => p.imports.len() as u128 + p.doc_links.len() as u128,
                    None => 0,
                },
            };
            if n + more > limit {
                proof {
                    lemma_refs_mono(fv, i + 1, fv.len() as int);
                }
                return false;
            }
            n = n + more;
            i += 1;
        }
        self.next_file as i128 + files as i128 <= i64::MAX as i128 && self.imports_total as u128 + n <= limit
            && self.imports_resolved as u128 + n <= limit
    }

    /// Hand out what the store has to write.
    pub fn take_log(&mut self) -> (r: Vec<StoreOp>)
        requires
            old(self).wf(),
        ensures
            final(self).wf(),
            store_op::op_views(r@) == old(self)@.log,
            final(self)@ == (WalkView { log: Seq::empty(), ..old(self)@ }),
    {
        let ghost w = self@;
        let mut out: Vec<StoreOp> = Vec::new();
        out.append(&mut self.log);
        assert(store_op::op_views(out@) =~= w.log);
        assert(self@ =~= (WalkView { log: Seq::empty(), ..w }));
        out
    }

    /// The file that has a path.
    pub fn live_file(&self, path: &str) -> (r: Option<FileId>)
        ensures
            match r {
                Some(id) => self@.live.contains_key(path@) && self@.live[path@] == id,
                None => !self@.live.contains_key(path@),
            },
    {
        self.live.get(path)
    }

    /// Whether an edge has an open interval.
    pub fn is_open(&self, e: EdgeKey) -> (r: bool)
        ensures
            r == self@.open.contains(e),
    {
        self.open.contains(e)
    }

    pub fn imports(&self) -> (r: (u64, u64))
        ensures
            r.0 == self@.total,
            r.1 == self@.resolved,
    {
        (self.imports_total, self.imports_resolved)
    }
}

proof fn lemma_change_counts(w: WalkView, c: FileChangeView, import_only: bool, at: CommitId, time: i64)
    ensures
        w.next_file <= change_applied(w, c, import_only, at, time).next_file <= w.next_file + 1,
        change_applied(w, c, import_only, at, time).total == w.total,
        change_applied(w, c, import_only, at, time).resolved == w.resolved,
{
}

proof fn lemma_detach_counts(w: WalkView, s: Seq<FileChangeView>)
    ensures
        detached(w, s) == (WalkView { log: detached(w, s).log, ..w }),
    decreases s.len(),
{
    if s.len() > 0 {
        lemma_detach_counts(w, s.drop_last());
    }
}

/// Whether a file stands among the first `n` touched files.
fn seen_before(touched: &Vec<(FileId, usize)>, n: usize, id: FileId) -> (r: bool)
    requires
        n <= touched@.len(),
    ensures
        r == lists_file(pairs(touched@).take(n as int), id),
{
    let ghost s = pairs(touched@).take(n as int);
    let mut i: usize = 0;
    while i < n
        invariant
            i <= n <= touched@.len(),
            s == pairs(touched@).take(n as int),
            forall|k: int| 0 <= k < i ==> (#[trigger] s[k]).0 != id,
        decreases n - i,
    {
        assert(s[i as int].0 == touched@[i as int].0);
        if touched[i].0 == id {
            return true;
        }
        i += 1;
    }
    false
}

fn is_real(oid: &Vec<u8>) -> (r: bool)
    ensures
        r == real_blob(oid@),
{
    let mut i: usize = 0;
    while i < oid.len()
        invariant
            i <= oid@.len(),
            forall|k: int| 0 <= k < i ==> #[trigger] oid@[k] == 0,
        decreases oid@.len() - i,
    {
        if oid[i] != 0 {
            return true;
        }
        i += 1;
    }
    false
}

/// The language in which the blob of a path is to be parsed, if at all.
pub fn blob_lang(path: &str, oid: &Vec<u8>) -> (r: Option<Lang>)
    ensures
        r == (if real_blob(oid@) {
            lang::lang_at(path@)
        } else {
            None
        }),
{
    if is_real(oid) {
        Lang::from_path(path)
    } else {
        None
    }
}

/// The jobs that have a parse result: the cache's answers first.
pub fn order_parses(jobs: &Vec<(FileId, usize)>, facts: &Vec<BlobFacts>) -> (r: Vec<(FileId, usize)>)
    requires
        forall|k: int| 0 <= k < jobs@.len() ==> (#[trigger] jobs@[k]).1 < facts@.len(),
    ensures
        pairs(r@) == parse_order(pairs(jobs@), facts_views(facts@)),
        forall|k: int|
            0 <= k < r@.len() ==> (#[trigger] r@[k]).1 < facts@.len() && (facts@[r@[k].1 as int].cached is Some
                || facts@[r@[k].1 as int].fresh is Some),
{
    let ghost o = pairs(jobs@);
    let ghost fv = facts_views(facts@);
    let ghost f = |j: (FileId, int)| fv[j.1].cached is Some;
    let ghost g = |j: (FileId, int)| fv[j.1].cached is None && fv[j.1].fresh is Some;
    let mut done: Vec<(FileId, usize)> = Vec::new();
    let mut late: Vec<(FileId, usize)> = Vec::new();
    let mut i: usize = 0;
    proof {
        reveal(Seq::filter);
        assert(o.take(0).filter(f) =~= Seq::<(FileId, int)>::empty());
        assert(o.take(0).filter(g) =~= Seq::<(FileId, int)>::empty());
        assert(pairs(done@) =~= Seq::<(FileId, int)>::empty());
    }
    while i < jobs.len()
        invariant
            i <= jobs@.len(),
            o == pairs(jobs@),
            fv == facts_views(facts@),
            f == (|j: (FileId, int)| fv[j.1].cached is Some),
            g == (|j: (FileId, int)| fv[j.1].cached is None && fv[j.1].fresh is Some),
            forall|k: int| 0 <= k < jobs@.len() ==> (#[trigger] jobs@[k]).1 < facts@.len(),
            pairs(done@) == o.take(i as int).filter(f),
            pairs(late@) == o.take(i as int).filter(g),
            forall|k: int|
                0 <= k < done@.len() ==> (#[trigger] done@[k]).1 < facts@.len()
                    && facts@[done@[k].1 as int].cached is Some,
            forall|k: int|
                0 <= k < late@.len() ==> (#[trigger] late@[k]).1 < facts@.len()
                    && facts@[late@[k].1 as int].fresh is Some,
        decreases jobs@.len() - i,
    {
        let (id, k) = jobs[i];
        let ghost d = done@;
        let ghost l = late@;
        proof {
            reveal(Seq::filter);
            assert(o.take(i + 1).drop_last() =~= o.take(i as int));
            assert(o.take(i + 1).last() == (id, k as int));
            assert(fv[k as int] == facts@[k as int]@);
        }
        if facts[k].cached.is_some() {
            done.push((id, k));
            assert(pairs(done@) =~= pairs(d).push((id, k as int)));
        } else if facts[k].fresh.is_some() {
            late.push((id, k));
            assert(pairs(late@) =~= pairs(l).push((id, k as int)));
        }
        i += 1;
    }
    assert(o.take(i as int) =~= o);
    let ghost d = done@;
    let ghost l = late@;
    done.append(&mut late);
    assert(pairs(done@) =~= pairs(d) + pairs(l));
    done
}

/// Whether a list of found edges has one with this target and kind.
fn has_found(found: &Vec<(FileId, EdgeKind, Resolution)>, e: EdgeKey) -> (r: bool)
    ensures
        r == exists|x: Resolution| found@.to_set().contains((e.dst, e.kind, x)),
{
    let mut i: usize = 0;
    while i < found.len()
        invariant
            i <= found@.len(),
            forall|k: int| 0 <= k < i ==> !((#[trigger] found@[k]).0 == e.dst && found@[k].1 == e.kind),
        decreases found@.len() - i,
    {
        let (dst, kind, res) = found[i];
        if dst == e.dst && kind == e.kind {
            assert(found@.to_set().contains((e.dst, e.kind, res)));
            return true;
        }
        i += 1;
    }
    false
}

/// The edges of an ordered list that were not found again.
fn keys_less(outs: &Vec<EdgeKey>, src: FileId, found: &Vec<(FileId, EdgeKind, Resolution)>) -> (r: Vec<EdgeKey>)
    requires
        open_edges::keys_increasing(outs@),
        forall|k: int| 0 <= k < outs@.len() ==> (#[trigger] outs@[k]).src == src,
    ensures
        open_edges::keys_increasing(r@),
        forall|e: EdgeKey| #[trigger]
            r@.contains(e) <==> outs@.contains(e) && !found_keys(src, found@.to_set()).contains(e),
{
    let ghost s = outs@;
    let ghost keys = found_keys(src, found@.to_set());
    let mut out: Vec<EdgeKey> = Vec::new();
    let mut i: usize = 0;
    while i < outs.len()
        invariant
            i <= outs@.len(),
            s == outs@,
            keys == found_keys(src, found@.to_set()),
            open_edges::keys_increasing(s),
            open_edges::keys_increasing(out@),
            forall|k: int| 0 <= k < outs@.len() ==> (#[trigger] outs@[k]).src == src,
            forall|e: EdgeKey| #[trigger]
                out@.contains(e) <==> s.take(i as int).contains(e) && !keys.contains(e),
        decreases outs@.len() - i,
    {
        let e = outs[i];
        let ghost before = out@;
        proof {
            assert forall|k: int| 0 <= k < before.len() implies s.take(i as int).contains(#[trigger] before[k]) by {
                assert(before.contains(before[k]));
            }
            open_edges::lemma_kept_push(out@, s, i as int);
            assert(s.take(i + 1) =~= s.take(i as int).push(e));
        }
        if !has_found(found, e) {
            out.push(e);
        }
        proof {
            let t = s.take(i as int);
            assert forall|x: EdgeKey| #[trigger] out@.contains(x) <==> s.take(i + 1).contains(x) && !keys.contains(
                x,
            ) by {
                if before.contains(x) {
                    assert(out@[before.index_of(x)] == x);
                }
                if t.contains(x) {
                    assert(t.push(e)[t.index_of(x)] == x);
                }
                if x == e {
                    assert(t.push(e)[t.len() as int] == x);
                    if !keys.contains(e) {
                        assert(out@[before.len() as int] == x);
                    }
                }
            }
        }
        i += 1;
    }
    assert(s.take(i as int) =~= s);
    out
}

/// The edges found that are not open yet.
fn found_less(open: &OpenEdges, src: FileId, found: &Vec<(FileId, EdgeKind, Resolution)>) -> (r: Vec<
    (FileId, EdgeKind, Resolution),
>)
    ensures
        r@ == newly_found(open@, src, found@),
{
    let ghost f = |x: (FileId, EdgeKind, Resolution)| !open@.contains(found_key(src, x));
    let mut out: Vec<(FileId, EdgeKind, Resolution)> = Vec::new();
    let mut i: usize = 0;
    proof {
        reveal(Seq::filter);
        assert(found@.take(0).filter(f) =~= Seq::<(FileId, EdgeKind, Resolution)>::empty());
    }
    while i < found.len()
        invariant
            i <= found@.len(),
            f == (|x: (FileId, EdgeKind, Resolution)| !open@.contains(found_key(src, x))),
            out@ == found@.take(i as int).filter(f),
        decreases found@.len() - i,
    {
        proof {
            reveal(Seq::filter);
            assert(found@.take(i + 1).drop_last() =~= found@.take(i as int));
            assert(found@.take(i + 1).last() == found@[i as int]);
        }
        let (dst, kind, res) = found[i];
        if !open.contains(EdgeKey { src, dst, kind }) {
            out.push((dst, kind, res));
        }
        i += 1;
    }
    assert(found@.take(i as int) =~= found@);
    out
}

pub proof fn lemma_found_grow(src: FileId, s: Seq<(FileId, EdgeKind, Resolution)>, i: int)
    requires
        0 <= i < s.len(),
    ensures
        found_keys(src, s.take(i + 1).to_set()) == found_keys(src, s.take(i).to_set()).insert(found_key(src, s[i])),
{
    let a = s.take(i);
    let b = s.take(i + 1);
    assert(b =~= a.push(s[i]));
    let l = found_keys(src, b.to_set());
    let r = found_keys(src, a.to_set()).insert(found_key(src, s[i]));
    assert forall|e: EdgeKey| l.contains(e) <==> r.contains(e) by {
        if l.contains(e) {
            let x = choose|x: Resolution| b.to_set().contains((e.dst, e.kind, x));
            let k = b.index_of((e.dst, e.kind, x));
            if k < i {
                assert(a[k] == (e.dst, e.kind, x));
                assert(a.to_set().contains((e.dst, e.kind, x)));
            }
        }
        if r.contains(e) {
            if e == found_key(src, s[i]) {
                assert(b[i] == (e.dst, e.kind, s[i].2));
                assert(b.to_set().contains((e.dst, e.kind, s[i].2)));
            } else {
                let x = choose|x: Resolution| a.to_set().contains((e.dst, e.kind, x));
                let k = a.index_of((e.dst, e.kind, x));
                assert(b[k] == a[k]);
                assert(b.to_set().contains((e.dst, e.kind, x)));
            }
        }
    }
    assert(l =~= r);
}

fn the_parse(f: &BlobFacts) -> (r: &ParsedFile)
    requires
        f.cached is Some || f.fresh is Some,
    ensures
        r@ == parse_of(f@),
{
    match &f.cached {
        Some(p) => p,
        None => f.fresh.as_ref().unwrap(),
    }
}

fn listed(v: &Vec<String>, x: &str) -> (r: bool)
    ensures
        r == text::views(v@).contains(x@),
{
    let ghost s = text::views(v@);
    let mut i: usize = 0;
    while i < v.len()
        invariant
            i <= v@.len(),
            s == text::views(v@),
            forall|k: int| 0 <= k < i ==> s[k] != x@,
        decreases v@.len() - i,
    {
        assert(s[i as int] == v@[i as int]@);
        if text::eq_str(v[i].as_str(), x) {
            return true;
        }
        i += 1;
    }
    false
}

fn def_kind(defs: &Vec<SymbolDef>, name: &str) -> (r: String)
    ensures
        r@ == kind_of(parsed::def_views(defs@), name@),
{
    let ghost s = parsed::def_views(defs@);
    let mut i: usize = 0;
    assert(s.skip(0) =~= s);
    while i < defs.len()
        invariant
            i <= defs@.len(),
            s == parsed::def_views(defs@),
            kind_of(s, name@) == kind_of(s.skip(i as int), name@),
        decreases defs@.len() - i,
    {
        proof {
            assert(s.skip(i as int)[0] == defs@[i as int]@);
            assert(s.skip(i as int).skip(1) =~= s.skip(i + 1));
        }
        if text::eq_str(defs[i].name.as_str(), name) {
            return defs[i].kind.clone();
        }
        i += 1;
    }
    "def".to_owned()
}

fn copy_keys(v: &Vec<EdgeKey>) -> (r: Vec<EdgeKey>)
    ensures
        r@ == v@,
{
    let mut out: Vec<EdgeKey> = Vec::new();
    let mut i: usize = 0;
    while i < v.len()
        invariant
            i <= v@.len(),
            out@ == v@.take(i as int),
        decreases v@.len() - i,
    {
        out.push(v[i]);
        assert(v@.take(i + 1) =~= v@.take(i as int).push(v@[i as int]));
        i += 1;
    }
    assert(v@.take(i as int) =~= v@);
    out
}

fn same_bytes(a: &Vec<u8>, b: &Vec<u8>) -> (r: bool)
    ensures
        r == (a@ == b@),
{
    if a.len() != b.len() {
        return false;
    }
    let mut i: usize = 0;
    while i < a.len()
        invariant
            i <= a@.len(),
            a@.len() == b@.len(),
            forall|k: int| 0 <= k < i ==> a@[k] == b@[k],
        decreases a@.len() - i,
    {
        if a[i] != b[i] {
            return false;
        }
        i += 1;
    }
    assert(a@ =~= b@);
    true
}

} // verus!
