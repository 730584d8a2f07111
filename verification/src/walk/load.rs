//! The walk taken up where an index ends.

use crate::graph;
use crate::lang::Lang;
use crate::lang;
use crate::model::{CommitId, FileId};
use crate::names::NameSet;
use crate::names;
use crate::open_edges::EdgeKey;
use crate::postings::Postings;
use crate::query::Ctx;
use crate::query;
use crate::rows::{CommitRow, EdgeRow, FileRow, FileTable, IntervalRow};
use crate::rows;
use crate::tables;
use crate::text;
use crate::vcs::copy_bytes;
use crate::vcs;
use crate::walk::{DeadEntry, DeadView, WalkState, WalkView};
use crate::walk;
use vstd::prelude::*;

verus! {

broadcast use vstd::std_specs::hash::group_hash_axioms;

/// The language that goes by a name.
pub open spec fn lang_named(name: Option<Seq<char>>) -> Option<Lang> {
    match name {
        Some(n) => if exists|l: Lang| #[trigger] l.name() == n {
            Some(choose|l: Lang| #[trigger] l.name() == n)
        } else {
            None
        },
        None => None,
    }
}

fn named_lang(name: &Option<String>) -> (r: Option<Lang>)
    ensures
        r == lang_named(text::opt_view(*name)),
{
    match name {
        Some(n) => {
            let r = Lang::parse_str(n.as_str());
            proof {
                match r {
                    Some(l) => {
                        let x = choose|x: Lang| #[trigger] x.name() == n@;
                        lang::lang_names_identify(l, x);
                    },
                    None => {},
                }
            }
            r
        },
        None => None,
    }
}

/// The walk with the files that have a path.
pub open spec fn live_loaded(w: WalkView, files: Seq<FileRow>) -> WalkView
    decreases files.len(),
{
    if files.len() == 0 {
        w
    } else {
        let b = live_loaded(w, files.drop_last());
        let f = files.last();
        match text::opt_view(f.current_path) {
            Some(p) => WalkView {
                live: b.live.insert(p, f.id),
                order: tables::entry_put(b.order, p, f.id),
                lang_of: walk::lang_put(b.lang_of, f.id, lang_named(text::opt_view(f.lang))),
                ..b
            },
            None => b,
        }
    }
}

pub open spec fn key_of(e: EdgeRow) -> EdgeKey {
    EdgeKey { src: e.src, dst: e.dst, kind: e.kind }
}

/// The edges into a file that ended at a commit.
pub open spec fn closed_into(edges: Seq<EdgeRow>, intervals: Seq<IntervalRow>, id: FileId, at: CommitId) -> Seq<EdgeKey>
    decreases edges.len(),
{
    if edges.len() == 0 {
        Seq::empty()
    } else {
        let b = closed_into(edges.drop_last(), intervals, id, at);
        let e = edges.last();
        if e.dst == id && graph::ended(intervals, e.id, Some(at)) {
            b.push(key_of(e))
        } else {
            b
        }
    }
}

/// When a file died.
pub open spec fn died_when(commits: Seq<CommitRow>, at: CommitId) -> i64 {
    match query::commit_at(commits, at.0) {
        Some(i) => commits[i].author_time,
        None => 0,
    }
}

/// The tables of an index.
pub struct IndexRows {
    pub files: FileTable,
    /// For each file the blob that it had last, where one is known.
    pub last_blobs: Vec<Option<Vec<u8>>>,
    pub edges: Vec<EdgeRow>,
    pub intervals: Vec<IntervalRow>,
    /// The symbols that are defined.
    pub symbols: Vec<(String, FileId)>,
    /// The config files of the HEAD tree and what they hold.
    pub configs: Vec<(String, Vec<u8>)>,
    pub imports_total: Option<String>,
    pub imports_resolved: Option<String>,
}

/// The dead files among the first `n` that may come back.
pub open spec fn dead_loaded(rows: &IndexRows, commits: Seq<CommitRow>, n: int) -> Map<Seq<char>, DeadView>
    decreases n,
{
    if n <= 0 {
        Map::empty()
    } else {
        let b = dead_loaded(rows, commits, n - 1);
        let f = rows.files.files()[n - 1];
        match (f.current_path, f.died_commit) {
            (None, Some(at)) => b.insert(
                rows::shown_path(rows.files.files(), rows.files.paths(), f.id),
                DeadView {
                    file: f.id,
                    died_time: died_when(commits, at),
                    last_blob: vcs::blob_view(rows.last_blobs@[n - 1]),
                    closed_in: closed_into(rows.edges@, rows.intervals@, f.id, at),
                },
            ),
            _ => b,
        }
    }
}

/// The walk with the symbols that are defined.
pub open spec fn symbols_loaded(w: WalkView, symbols: Seq<(String, FileId)>) -> WalkView
    decreases symbols.len(),
{
    if symbols.len() == 0 {
        w
    } else {
        let b = symbols_loaded(w, symbols.drop_last());
        let (name, id) = symbols.last();
        WalkView {
            symbols: tables::symbol_added(b.symbols, name@, id),
            defs: b.defs.insert(id.0, names::sorted_insert(walk::defs_of(b, id), name@)),
            ..b
        }
    }
}

/// The edges that have an open interval.
pub open spec fn open_loaded(edges: Seq<EdgeRow>, intervals: Seq<IntervalRow>) -> Set<EdgeKey> {
    Set::new(
        |k: EdgeKey|
            exists|i: int| 0 <= i < edges.len() && key_of(#[trigger] edges[i]) == k && graph::ended(intervals, edges[i].id, None),
    )
}

/// The walk with what config files hold.
pub open spec fn configs_loaded(w: WalkView, configs: Seq<(String, Vec<u8>)>) -> WalkView
    decreases configs.len(),
{
    if configs.len() == 0 {
        w
    } else {
        let (path, content) = configs.last();
        walk::config_read(configs_loaded(w, configs.drop_last()), path@, text::lossy(content@))
    }
}

/// A number kept as text; 0 where there is none.
pub open spec fn meta_number(value: Option<Seq<char>>) -> int {
    match value {
        Some(v) => match text::unsigned_value(v) {
            Some(n) => n,
            None => 0,
        },
        None => 0,
    }
}

/// The id that the next file gets.
pub open spec fn next_id(files: Seq<FileRow>) -> int
    decreases files.len(),
{
    if files.len() == 0 {
        1
    } else {
        let b = next_id(files.drop_last());
        if files.last().id.0 >= b {
            files.last().id.0 + 1
        } else {
            b
        }
    }
}

/// The walk at the end of an index.
pub open spec fn state_loaded(rows: &IndexRows, commits: Seq<CommitRow>) -> WalkView {
    let files = rows.files.files();
    let a = live_loaded(walk::nothing_walked(), files);
    let b = symbols_loaded(
        WalkView {
            dead: dead_loaded(rows, commits, files.len() as int),
            open: open_loaded(rows.edges@, rows.intervals@),
            next_file: next_id(files),
            total: meta_number(text::opt_view(rows.imports_total)),
            resolved: meta_number(text::opt_view(rows.imports_resolved)),
            ..a
        },
        rows.symbols@,
    );
    configs_loaded(b, rows.configs@)
}

/// A number kept as text; 0 where there is none.
pub fn meta_u64(value: &Option<String>) -> (r: u64)
    ensures
        r == meta_number(text::opt_view(*value)),
{
    match value {
        Some(v) => match text::parse_u64(v.as_str()) {
            Some(n) => n,
            None => 0,
        },
        None => 0,
    }
}

fn list_closed(
    edges: &Vec<EdgeRow>,
    intervals: &Vec<IntervalRow>,
    by_edge: &Postings,
    id: FileId,
    at: CommitId,
) -> (r: Vec<EdgeKey>)
    requires
        by_edge.wf(),
        by_edge@ == graph::interval_edges(intervals@),
    ensures
        r@ == closed_into(edges@, intervals@, id, at),
{
    let mut out: Vec<EdgeKey> = Vec::new();
    let mut i: usize = 0;
    assert(edges@.take(0) =~= Seq::<EdgeRow>::empty());
    while i < edges.len()
        invariant
            i <= edges@.len(),
            by_edge.wf(),
            by_edge@ == graph::interval_edges(intervals@),
            out@ == closed_into(edges@.take(i as int), intervals@, id, at),
        decreases edges@.len() - i,
    {
        assert(edges@.take(i + 1).drop_last() =~= edges@.take(i as int));
        let e = edges[i];
        if e.dst == id && graph::has_ended(intervals, by_edge, e.id, Some(at)) {
            out.push(EdgeKey { src: e.src, dst: e.dst, kind: e.kind });
        }
        i += 1;
    }
    assert(edges@.take(i as int) =~= edges@);
    out
}

impl IndexRows {
    /// The tables agree with each other, and a file can be added.
    pub open spec fn wf(&self) -> bool {
        &&& self.files.wf()
        &&& self.last_blobs@.len() == self.files.files().len()
        &&& next_id(self.files.files()) <= i64::MAX
    }
}

proof fn lemma_next_id(files: Seq<FileRow>, k: int)
    requires
        0 <= k <= files.len(),
    ensures
        1 <= next_id(files.take(k)) <= next_id(files),
    decreases files.len(),
{
    if files.len() == 0 {
    } else if k == files.len() {
        assert(files.take(k) =~= files);
        lemma_next_id(files.drop_last(), k - 1);
        assert(files.drop_last().take(k - 1) =~= files.drop_last());
    } else {
        lemma_next_id(files.drop_last(), k);
        assert(files.drop_last().take(k) =~= files.take(k));
    }
}

impl WalkState {
    fn load_live(&mut self, files: &Vec<FileRow>)
        requires
            old(self).wf(),
            next_id(files@) <= i64::MAX,
        ensures
            final(self).wf(),
            final(self)@ == (WalkView {
                next_file: next_id(files@),
                ..live_loaded(old(self)@, files@)
            }),
    {
        let ghost w = self@;
        let mut next: i64 = 1;
        let mut i: usize = 0;
        assert(files@.take(0) =~= Seq::<FileRow>::empty());
        while i < files.len()
            invariant
                i <= files@.len(),
                next_id(files@) <= i64::MAX,
                self.wf(),
                self@ == live_loaded(w, files@.take(i as int)),
                next == next_id(files@.take(i as int)),
            decreases files@.len() - i,
        {
            proof {
                assert(files@.take(i + 1).drop_last() =~= files@.take(i as int));
                lemma_next_id(files@, i + 1);
            }
            let f = &files[i];
            let ghost b = self@;
            match &f.current_path {
                Some(p) => {
                    self.live.insert(p.clone(), f.id);
                    assert(self@ =~= (WalkView {
                        live: b.live.insert(p@, f.id),
                        order: tables::entry_put(b.order, p@, f.id),
                        ..b
                    }));
                    self.set_lang(f.id, named_lang(&f.lang));
                },
                None => {},
            }
            if f.id.0 >= next {
                next = f.id.0 + 1;
            }
            i += 1;
        }
        assert(files@.take(i as int) =~= files@);
        let ghost b = self@;
        self.next_file = next;
        assert(self@ =~= (WalkView { next_file: next_id(files@), ..b }));
    }

    fn load_dead(&mut self, rows: &IndexRows, ctx: &Ctx, by_edge: &Postings)
        requires
            old(self).wf(),
            rows.wf(),
            ctx.wf(),
            by_edge.wf(),
            by_edge@ == graph::interval_edges(rows.intervals@),
            old(self)@.dead == Map::<Seq<char>, DeadView>::empty(),
        ensures
            final(self).wf(),
            final(self)@ == (WalkView {
                dead: dead_loaded(rows, ctx.commits@, rows.files.files().len() as int),
                ..old(self)@
            }),
    {
        let ghost w = self@;
        let files = rows.files.rows();
        let mut i: usize = 0;
        assert(self@ =~= (WalkView { dead: dead_loaded(rows, ctx.commits@, 0), ..w }));
        while i < files.len()
            invariant
                i <= files@.len(),
                files@ == rows.files.files(),
                rows.wf(),
                ctx.wf(),
                by_edge.wf(),
                by_edge@ == graph::interval_edges(rows.intervals@),
                self.wf(),
                self@ == (WalkView { dead: dead_loaded(rows, ctx.commits@, i as int), ..w }),
            decreases files@.len() - i,
        {
            let f = &files[i];
            let ghost b = self@;
            if f.current_path.is_none() {
                match f.died_commit {
                    Some(at) => {
                        let died_time = match ctx.commit_by_id(at.0) {
                            Some(k) => ctx.commits[k].author_time,
                            None => 0,
                        };
                        let path = rows.files.display_path(f.id);
                        let last_blob = match &rows.last_blobs[i] {
                            Some(v) => Some(copy_bytes(v)),
                            None => None,
                        };
                        let closed_in = list_closed(&rows.edges, &rows.intervals, by_edge, f.id, at);
                        let entry = DeadEntry { file: f.id, died_time, last_blob, closed_in };
                        let ghost ev = entry@;
                        let ghost pv = path@;
                        self.dead.insert(path, entry);
                        assert(self@ =~= (WalkView { dead: b.dead.insert(pv, ev), ..b }));
                    },
                    None => {},
                }
            }
            assert(self@ =~= (WalkView { dead: dead_loaded(rows, ctx.commits@, i + 1), ..w }));
            i += 1;
        }
    }

    fn load_symbols(&mut self, symbols: &Vec<(String, FileId)>)
        requires
            old(self).wf(),
        ensures
            final(self).wf(),
            final(self)@ == symbols_loaded(old(self)@, symbols@),
    {
        let ghost w = self@;
        let mut i: usize = 0;
        assert(symbols@.take(0) =~= Seq::<(String, FileId)>::empty());
        while i < symbols.len()
            invariant
                i <= symbols@.len(),
                self.wf(),
                self@ == symbols_loaded(w, symbols@.take(i as int)),
            decreases symbols@.len() - i,
        {
            assert(symbols@.take(i + 1).drop_last() =~= symbols@.take(i as int));
            let name = symbols[i].0.as_str();
            let id = symbols[i].1;
            let ghost b = self@;
            let mut defs = match self.defs_by_file.remove(&id.0) {
                Some(d) => d,
                None => NameSet::new(),
            };
            assert(defs@ =~= walk::defs_of(b, id));
            defs.insert(name.to_owned());
            let ghost dv = defs@;
            self.symbols.add(name, id);
            self.defs_by_file.insert(id.0, defs);
            assert(self@ =~= (WalkView {
                symbols: tables::symbol_added(b.symbols, name@, id),
                defs: b.defs.insert(id.0, dv),
                ..b
            }));
            i += 1;
        }
        assert(symbols@.take(i as int) =~= symbols@);
    }

    fn load_open(&mut self, edges: &Vec<EdgeRow>, intervals: &Vec<IntervalRow>, by_edge: &Postings)
        requires
            old(self).wf(),
            by_edge.wf(),
            by_edge@ == graph::interval_edges(intervals@),
            old(self)@.open == Set::<EdgeKey>::empty(),
        ensures
            final(self).wf(),
            final(self)@ == (WalkView { open: open_loaded(edges@, intervals@), ..old(self)@ }),
    {
        let ghost w = self@;
        let mut i: usize = 0;
        assert(self@ =~= (WalkView { open: open_loaded(edges@.take(0), intervals@), ..w }));
        while i < edges.len()
            invariant
                i <= edges@.len(),
                by_edge.wf(),
                by_edge@ == graph::interval_edges(intervals@),
                self.wf(),
                self@ == (WalkView { open: open_loaded(edges@.take(i as int), intervals@), ..w }),
            decreases edges@.len() - i,
        {
            let e = edges[i];
            let k = EdgeKey { src: e.src, dst: e.dst, kind: e.kind };
            let ghost b = self@;
            let open = graph::has_ended(intervals, by_edge, e.id, None);
            if open {
                self.open.insert(k);
            }
            proof {
                let old_s = edges@.take(i as int);
                let new_s = edges@.take(i + 1);
                let l = open_loaded(new_s, intervals@);
                assert forall|x: EdgeKey| l.contains(x) <==> b.open.contains(x) || (open && x == k) by {
                    if l.contains(x) {
                        let j = choose|j: int|
                            0 <= j < new_s.len() && key_of(#[trigger] new_s[j]) == x && graph::ended(
                                intervals@,
                                new_s[j].id,
                                None,
                            );
                        if j < i {
                            assert(old_s[j] == new_s[j]);
                        }
                    }
                    if b.open.contains(x) {
                        let j = choose|j: int|
                            0 <= j < old_s.len() && key_of(#[trigger] old_s[j]) == x && graph::ended(
                                intervals@,
                                old_s[j].id,
                                None,
                            );
                        assert(old_s[j] == new_s[j]);
                    }
                    if open && x == k {
                        assert(new_s[i as int] == e);
                    }
                }
                assert(self@ =~= (WalkView { open: l, ..w }));
            }
            i += 1;
        }
        assert(edges@.take(i as int) =~= edges@);
    }

    fn load_configs(&mut self, configs: &Vec<(String, Vec<u8>)>)
        requires
            old(self).wf(),
        ensures
            final(self).wf(),
            final(self)@ == configs_loaded(old(self)@, configs@),
    {
        let ghost w = self@;
        let mut i: usize = 0;
        assert(configs@.take(0) =~= Seq::<(String, Vec<u8>)>::empty());
        while i < configs.len()
            invariant
                i <= configs@.len(),
                self.wf(),
                self@ == configs_loaded(w, configs@.take(i as int)),
            decreases configs@.len() - i,
        {
            assert(configs@.take(i + 1).drop_last() =~= configs@.take(i as int));
            self.update_configs(configs[i].0.as_str(), &configs[i].1);
            i += 1;
        }
        assert(configs@.take(i as int) =~= configs@);
    }
}

/// Rebuild walk state from an index for incremental indexing.
pub fn load_state(rows: &IndexRows, ctx: &Ctx) -> (r: WalkState)
    requires
        rows.wf(),
        ctx.wf(),
    ensures
        r.wf(),
        r@ == state_loaded(rows, ctx.commits@),
{
    let mut state = WalkState::new();
    let by_edge = graph::interval_postings(&rows.intervals);
    proof {
        lemma_live_keeps(walk::nothing_walked(), rows.files.files());
    }
    state.load_live(rows.files.rows());
    state.load_dead(rows, ctx, &by_edge);
    state.load_open(&rows.edges, &rows.intervals, &by_edge);
    let ghost b = state@;
    state.imports_total = meta_u64(&rows.imports_total);
    state.imports_resolved = meta_u64(&rows.imports_resolved);
    assert(state@ =~= (WalkView {
        total: meta_number(text::opt_view(rows.imports_total)),
        resolved: meta_number(text::opt_view(rows.imports_resolved)),
        ..b
    }));
    state.load_symbols(&rows.symbols);
    state.load_configs(&rows.configs);
    state
}

proof fn lemma_live_keeps(w: WalkView, files: Seq<FileRow>)
    ensures
        live_loaded(w, files).dead == w.dead,
        live_loaded(w, files).open == w.open,
    decreases files.len(),
{
    if files.len() > 0 {
        lemma_live_keeps(w, files.drop_last());
    }
}

} // verus!
