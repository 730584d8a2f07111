//! A small repository walked from its first commit to its last, with a store
//! in memory, and the queries over what comes out.

use palimpsest::blast::{blast, blast_candidates, BlastOptions, Evidence, Rank};
use palimpsest::cli::{classify_error, Failure};
use palimpsest::cochange;
use palimpsest::excluded;
use palimpsest::extract::extract;
use palimpsest::ghosts;
use palimpsest::index::{index_start, needs_seed, ready_commit, walk_bounds, IndexError, IndexStart};
use palimpsest::lang::Lang;
use palimpsest::listing::{cochange_list, drift, ghosts_list};
use palimpsest::model::{ChangeKind, CommitId, EdgeKind, FileId};
use palimpsest::open_edges::EdgeKey;
use palimpsest::params::Params;
use palimpsest::path_query::path_query;
use palimpsest::query::{Ctx, QueryError, Snapshot, TouchTable};
use palimpsest::rows::{
    CochangeRow, CommitRow, EdgeRow, FileRow, FileTable, GhostRow, IntervalRow, PathIntervalRow, TouchRow,
};
use palimpsest::stats::{stats, StatsMeta};
use palimpsest::store_op::StoreOp;
use palimpsest::time::parse_date;
use palimpsest::timeline::timeline;
use palimpsest::vcs::{Change, CommitInfo, FileChange};
use palimpsest::walk::load::{load_state, IndexRows};
use palimpsest::walk::seed::TreeFile;
use palimpsest::walk::{BlobFacts, WalkState};
use palimpsest::why::why;
use std::collections::BTreeMap;

fn blob_id(content: &str) -> Vec<u8> {
    let mut h: u64 = 0xcbf2_9ce4_8422_2325;
    for b in content.bytes() {
        h = (h ^ b as u64).wrapping_mul(0x0000_0100_0000_01b3);
    }
    h.to_be_bytes().to_vec()
}

#[derive(Default)]
struct Store {
    commits: Vec<CommitRow>,
    files: Vec<FileRow>,
    paths: Vec<PathIntervalRow>,
    touches: Vec<TouchRow>,
    blobs: Vec<(FileId, Vec<u8>)>,
    edges: Vec<EdgeRow>,
    intervals: Vec<IntervalRow>,
    symbols: Vec<(String, FileId, bool)>,
}

impl Store {
    fn edge(&self, key: EdgeKey) -> Option<i64> {
        self.edges.iter().find(|e| e.src == key.src && e.dst == key.dst && e.kind == key.kind).map(|e| e.id)
    }

    fn file(&mut self, id: FileId) -> &mut FileRow {
        self.files.iter_mut().find(|f| f.id == id).unwrap()
    }

    fn open(&mut self, edge_id: i64, at: CommitId) {
        if !self.intervals.iter().any(|i| i.edge_id == edge_id && i.born == at) {
            self.intervals.push(IntervalRow { edge_id, born: at, died: None });
        }
    }

    fn end_path(&mut self, file: FileId, at: CommitId) {
        for p in self.paths.iter_mut() {
            if p.file_id == file && p.to_commit.is_none() {
                p.to_commit = Some(at);
            }
        }
    }

    fn start_path(&mut self, file: FileId, path: String, at: CommitId, confidence: u8) {
        self.paths.retain(|p| !(p.file_id == file && p.from_commit == at));
        self.paths.push(PathIntervalRow { file_id: file, path, from_commit: at, to_commit: None, confidence });
    }

    fn claim(&self, file: FileId, path: &str) {
        let taken = self.files.iter().any(|f| f.id != file && f.current_path.as_deref() == Some(path));
        assert!(!taken, "two files claim {path}");
    }

    fn apply(&mut self, op: StoreOp) {
        match &op {
            StoreOp::InsertFile { file, path, .. }
            | StoreOp::Resurrect { file, path, .. }
            | StoreOp::Rename { file, path, .. } => self.claim(*file, path),
            _ => {}
        }
        match op {
            StoreOp::ClearPath { file } => self.file(file).current_path = None,
            StoreOp::InsertFile { file, path, lang, born } => {
                self.files.push(FileRow {
                    id: file,
                    current_path: Some(path.clone()),
                    lang: lang.map(|l| l.as_str().to_string()),
                    born_commit: born,
                    died_commit: None,
                    is_doc: lang.map(|l| l.is_doc()).unwrap_or(false),
                });
                self.start_path(file, path, born, 100);
            }
            StoreOp::FileDied { file, at } => {
                let f = self.file(file);
                f.died_commit = Some(at);
                f.current_path = None;
                self.end_path(file, at);
            }
            StoreOp::Resurrect { file, path, at } => {
                let f = self.file(file);
                f.died_commit = None;
                f.current_path = Some(path.clone());
                self.start_path(file, path, at, 100);
            }
            StoreOp::Rename { file, path, at, confidence } => {
                self.end_path(file, at);
                self.start_path(file, path.clone(), at, confidence);
                self.file(file).current_path = Some(path);
            }
            StoreOp::SetLang { file, lang } => {
                let f = self.file(file);
                f.lang = lang.map(|l| l.as_str().to_string());
                f.is_doc = lang.map(|l| l.is_doc()).unwrap_or(false);
            }
            StoreOp::Touch { commit, file, change, blob, lines_added, lines_removed, import_only } => {
                self.touches.retain(|t| !(t.commit == commit && t.file == file));
                self.touches.push(TouchRow { commit, file, change, lines: lines_added + lines_removed, import_only });
                if let Some(b) = blob {
                    self.blobs.push((file, b));
                }
            }
            StoreOp::OpenSymbol { name, file, kind: _, at: _ } => self.symbols.push((name, file, true)),
            StoreOp::CloseSymbol { name, file, at: _ } => {
                for s in self.symbols.iter_mut() {
                    if s.0 == name && s.1 == file {
                        s.2 = false;
                    }
                }
            }
            StoreOp::CloseSymbols { file, at: _ } => {
                for s in self.symbols.iter_mut() {
                    if s.1 == file {
                        s.2 = false;
                    }
                }
            }
            StoreOp::OpenEdge { edge, resolution, at } => {
                let id = match self.edge(edge) {
                    Some(id) => id,
                    None => {
                        let id = self.edges.len() as i64 + 1;
                        self.edges.push(EdgeRow { id, src: edge.src, dst: edge.dst, kind: edge.kind, resolution });
                        id
                    }
                };
                self.open(id, at);
            }
            StoreOp::ReopenEdge { edge, at } => {
                let id = self.edge(edge).unwrap();
                self.open(id, at);
            }
            StoreOp::CloseEdge { edge, at } => {
                let id = self.edge(edge).unwrap();
                for i in self.intervals.iter_mut() {
                    if i.edge_id == id && i.died.is_none() {
                        i.died = Some(at);
                    }
                }
            }
        }
    }
}

struct Repo {
    tree: BTreeMap<String, String>,
    last: BTreeMap<String, String>,
    renames: Vec<(String, String)>,
    state: WalkState,
    store: Store,
    params: Params,
}

impl Repo {
    fn new() -> Repo {
        Repo {
            tree: BTreeMap::new(),
            last: BTreeMap::new(),
            renames: vec![],
            state: WalkState::new(),
            store: Store::default(),
            params: Params::default(),
        }
    }

    fn write(&mut self, path: &str, content: &str) {
        self.tree.insert(path.to_string(), content.to_string());
    }

    fn append(&mut self, path: &str, line: &str) {
        let c = self.tree.entry(path.to_string()).or_default();
        c.push_str(line);
        c.push('\n');
    }

    fn mv(&mut self, from: &str, to: &str) {
        let c = self.tree.remove(from).unwrap();
        self.tree.insert(to.to_string(), c);
        self.renames.push((from.to_string(), to.to_string()));
    }

    fn change(&self, change: Change, old: Option<&String>, new: Option<&String>, confidence: u8) -> FileChange {
        let a: Vec<&str> = old.map(|s| s.lines().collect()).unwrap_or_default();
        let b: Vec<&str> = new.map(|s| s.lines().collect()).unwrap_or_default();
        let added: Vec<String> = b.iter().filter(|l| !a.contains(l)).map(|l| l.to_string()).collect();
        let removed: Vec<String> = a.iter().filter(|l| !b.contains(l)).map(|l| l.to_string()).collect();
        FileChange {
            change,
            new_blob: new.map(|c| blob_id(c)),
            old_blob: old.map(|c| blob_id(c)),
            lines_added: added.len() as i64,
            lines_removed: removed.len() as i64,
            changed_lines: added.into_iter().chain(removed).collect(),
            confidence,
        }
    }

    fn commit(&mut self, date: &str, subject: &str) -> CommitId {
        let mut changes = vec![];
        let renames = std::mem::take(&mut self.renames);
        for (from, to) in &renames {
            let c = Change::Renamed { from: from.clone(), to: to.clone() };
            changes.push(self.change(c, self.last.get(from), self.tree.get(to), 100));
        }
        for (path, content) in &self.tree {
            if renames.iter().any(|r| r.1 == *path) {
                continue;
            }
            match self.last.get(path) {
                None => {
                    changes.push(self.change(Change::Added { path: path.clone() }, None, Some(content), 100));
                }
                Some(old) if old != content => {
                    changes.push(self.change(Change::Modified { path: path.clone() }, Some(old), Some(content), 100));
                }
                _ => {}
            }
        }
        for (path, content) in &self.last {
            if !self.tree.contains_key(path) && !renames.iter().any(|r| r.0 == *path) {
                changes.push(self.change(Change::Deleted { path: path.clone() }, Some(content), None, 100));
            }
        }
        self.last = self.tree.clone();
        let time = parse_date(date).unwrap();
        self.apply(time, subject, changes)
    }

    fn apply(&mut self, time: i64, subject: &str, changes: Vec<FileChange>) -> CommitId {
        let id = CommitId(self.store.commits.len() as i64 + 1);
        let info = CommitInfo {
            oid: vec![id.0 as u8; 20],
            parent_oid: None,
            author_time: time,
            author: "Fixture".to_string(),
            subject: subject.to_string(),
            body: String::new(),
            is_merge: false,
        };
        let ready = ready_commit(&self.params, &info, changes, false);
        self.store.commits.push(CommitRow {
            id,
            oid: info.oid.clone(),
            author_time: time,
            author: Some(info.author.clone()),
            subject: Some(subject.to_string()),
            body: Some(String::new()),
            weighted: ready.class.weight_den > 0,
            excluded: ready.class.excluded_flags,
            is_merge: false,
        });
        let facts: Vec<BlobFacts> = ready.changes.iter().map(|c| self.facts(c.change.path())).collect();
        assert!(self.state.room_for(ready.changes.len(), &facts));
        self.state.apply_commit(id, time, &ready.changes, &ready.import_only, &facts);
        for op in self.state.take_log() {
            self.store.apply(op);
        }
        id
    }

    fn facts(&self, path: &str) -> BlobFacts {
        let content = self.tree.get(path).map(|c| c.as_bytes().to_vec());
        let fresh = match (&content, Lang::from_path(path)) {
            (Some(c), Some(l)) => Some(extract(l, c)),
            _ => None,
        };
        BlobFacts { content, cached: None, fresh }
    }

    fn ctx(&self) -> Ctx {
        Ctx::load(self.store.commits.clone(), self.params)
    }

    fn snapshot(&self) -> Snapshot {
        let mut intervals = self.store.intervals.clone();
        intervals.sort_by_key(|i| (i.edge_id, i.born));
        let mut touches = self.store.touches.clone();
        touches.sort_by_key(|t| t.commit);
        let mut snap = Snapshot {
            files: FileTable::new(self.store.files.clone(), self.store.paths.clone()),
            edges: self.store.edges.clone(),
            intervals,
            touches: TouchTable::new(touches),
            cochange: vec![],
            ghosts: vec![],
            head: Some("0123456789abcdef0123".to_string()),
        };
        let ctx = self.ctx();
        snap.cochange = self.coupling(&ctx, &snap);
        snap.ghosts = self.haunting(&ctx, &snap);
        snap
    }

    fn weight(&self, ctx: &Ctx, commit: i64) -> f64 {
        let n = self.store.touches.iter().filter(|t| t.commit.0 == commit).count();
        let age = (ctx.times.now() - ctx.time_of(commit)) as f64 / 86_400.0;
        0.5f64.powf(age / 365.0) / n as f64
    }

    fn coupling(&self, ctx: &Ctx, snap: &Snapshot) -> Vec<CochangeRow> {
        let survey = cochange::compute(ctx, &snap.touches);
        let w: Vec<f64> = survey.groups.iter().map(|g| self.weight(ctx, g.commit.0)).collect();
        let total: f64 = w.iter().sum();
        let support = |f: FileId| -> f64 {
            survey.groups.iter().zip(&w).filter(|(g, _)| g.files.contains(&f)).map(|(_, w)| *w).sum()
        };
        let mut rows: Vec<(f64, CochangeRow)> = survey
            .pairs
            .iter()
            .enumerate()
            .map(|(slot, p)| {
                let both: f64 = p.groups.iter().map(|g| w[*g]).sum();
                let (wa, wb) = (support(p.a), support(p.b));
                let lift = both / (wa * wb / total);
                let row = CochangeRow {
                    slot,
                    a: p.a,
                    b: p.b,
                    n: p.groups.len() as i64,
                    lift_reportable: lift >= 1.5,
                    lift_drawn: lift >= 2.0,
                    lift_hidden: lift >= 8.0,
                    conf_ab_pct: (both / wa * 100.0).round() as i64,
                    conf_ba_pct: (both / wb * 100.0).round() as i64,
                    lift_tenths: (lift * 10.0).round() as i64,
                    first_commit: survey.groups[p.groups[0]].commit,
                    last_commit: survey.groups[p.groups[p.groups.len() - 1]].commit,
                };
                (both, row)
            })
            .collect();
        rows.sort_by(|x, y| y.0.total_cmp(&x.0));
        rows.into_iter().map(|r| r.1).collect()
    }

    fn haunting(&self, ctx: &Ctx, snap: &Snapshot) -> Vec<GhostRow> {
        let (_, candidates) = ghosts::compute(snap, ctx);
        let mut out = vec![];
        for c in candidates {
            let all: f64 = c.since.iter().map(|s| self.weight(ctx, s.0)).sum();
            let both: f64 = c.since.iter().filter(|s| s.1).map(|s| self.weight(ctx, s.0)).sum();
            let conf = both / all;
            if conf < 0.25 {
                continue;
            }
            out.push(GhostRow {
                slot: out.len(),
                edge_id: c.edge_id,
                severed_commit: c.severed_commit,
                lifetime_days: c.lifetime_days,
                cochanges_since: c.cochanges_since as i64,
                conf_pct: (conf * 100.0).round() as i64,
                score_pct: 100,
            });
        }
        out
    }
}

fn fixture() -> Repo {
    let mut r = Repo::new();
    r.write(
        "src/frame.ts",
        "export interface Frame { data: Uint8Array }\nexport function makeFrame(): Frame { return { data: new Uint8Array() } }\n",
    );
    r.write(
        "src/encoder.ts",
        "import { Frame } from \"./frame\";\nexport function encode(f: Frame) { return f.data }\n",
    );
    r.write("src/parser.ts", "export function parse(s: string) { return s.length }\n");
    r.write("test/golden/basic.txt", "golden v1\n");
    r.commit("2024-01-10", "initial layout");
    for d in ["2024-02-05", "2024-03-15", "2024-04-20", "2024-06-01"] {
        r.append("src/frame.ts", &format!("// {d}"));
        r.append("src/encoder.ts", &format!("// {d}"));
        r.commit(d, &format!("evolve wire format {d}"));
    }
    for d in ["2024-06-10", "2024-06-15", "2024-07-09", "2024-07-15", "2024-08-06"] {
        r.append("src/parser.ts", &format!("// {d}"));
        r.append("test/golden/basic.txt", d);
        r.commit(d, &format!("parser edge cases {d}"));
    }
    r.write("src/iface.ts", "export interface FrameLike { data: Uint8Array }\n");
    r.write(
        "src/encoder.ts",
        "import { FrameLike } from \"./iface\";\nexport function encode(f: FrameLike) { return f.data }\n",
    );
    r.commit("2024-08-15", "extract FrameLike iface to break cycle");
    for d in ["2024-10-01", "2024-12-12", "2025-02-02", "2025-05-20", "2025-09-01"] {
        r.append("src/frame.ts", &format!("// {d}"));
        r.append("src/encoder.ts", &format!("// {d}"));
        r.commit(d, &format!("both sides change {d}"));
    }
    r.mv("src/frame.ts", "src/core/frame.ts");
    r.commit("2025-10-01", "move frame into core/");
    r.mv("src/core/frame.ts", "src/core/frame2.ts");
    r.commit("2025-10-15", "rename frame to frame2");
    r.tree.remove("src/parser.ts");
    r.commit("2025-11-01", "drop parser");
    r.write("src/parser.ts", "export function parse(s: string) { return s.length + 1 }\n");
    r.commit("2025-11-20", "restore parser");
    for i in 1..=10 {
        r.write(
            &format!("src/mod{i}.ts"),
            &format!("import {{ FrameLike }} from \"./iface\";\nexport const M{i} = {i};\n"),
        );
    }
    r.commit("2025-12-01", "add modules");
    for i in 1..=10 {
        r.write(
            &format!("src/mod{i}.ts"),
            &format!("import type {{ FrameLike }} from \"./iface\";\nexport const M{i} = {i};\n"),
        );
    }
    r.commit("2025-12-15", "chore: reorder imports");
    r
}

#[test]
fn ghost_survives_interface_extraction_and_renames() {
    let r = fixture();
    let (snap, ctx) = (r.snapshot(), r.ctx());
    let out = ghosts_list(&snap, &ctx, None, 20).ok().unwrap();
    assert!(!out.results.is_empty(), "expected at least one ghost");
    let g = out.results.iter().find(|g| g.kind == "import").expect("an import ghost");
    // Followed through two renames.
    assert_eq!(g.from, "src/encoder.ts");
    assert_eq!(g.to, "src/core/frame2.ts");
    assert!(g.cochanges_since >= 2);
    assert!(g.confidence_pct >= 25);
    assert!(g.severed_at.subject.contains("extract FrameLike"));
    // The lint storm must not have produced mod-file ghosts.
    for g in &out.results {
        assert!(!g.from.contains("mod"));
    }
}

/// How much one piece of evidence says.
fn strength(snap: &Snapshot, e: &Evidence) -> f64 {
    match e {
        Evidence::StructuralEdge { kind, alive, .. } => match (alive, kind) {
            (false, _) => 0.0,
            (_, EdgeKind::Import) => 0.55,
            (_, EdgeKind::Reexport) => 0.50,
            (_, EdgeKind::Call) => 0.45,
            (_, EdgeKind::TypeRef) => 0.40,
            (_, EdgeKind::DocRef) => 0.25,
        },
        Evidence::GhostEdge { cochanges_since, slot, .. } => {
            let conf = snap.ghosts[*slot].conf_pct as f64 / 100.0;
            let s = conf * (1.0 + *cochanges_since as f64).ln() / 3.0_f64.ln();
            (0.35 + 0.55 * s.min(1.0)).min(0.9)
        }
        Evidence::Cochange { slot, forward, .. } => {
            let row = snap.cochange.iter().find(|r| r.slot == *slot).unwrap();
            let conf = if *forward { row.conf_ab_pct } else { row.conf_ba_pct } as f64 / 100.0;
            (conf * (row.lift_tenths as f64 / 50.0).min(1.0)).min(0.85)
        }
        Evidence::Transitive { union_dist, .. } => 0.25 / (*union_dist as f64).max(1.0),
        Evidence::DocDrift { commits_behind, .. } => (0.1 + 0.05 * (*commits_behind as f64).ln_1p()).min(0.4),
    }
}

/// Independent signals reinforce each other, and none saturates the rank.
fn blended(snap: &Snapshot, evidence: &[Evidence]) -> f64 {
    1.0 - evidence.iter().map(|e| 1.0 - strength(snap, e).clamp(0.0, 0.999)).product::<f64>()
}

#[test]
fn blast_ranks_ghost_partner_first() {
    let r = fixture();
    let (snap, ctx) = (r.snapshot(), r.ctx());
    let (file, cands) = blast_candidates(&snap, &ctx, "src/encoder.ts", &BlastOptions::default()).ok().unwrap();
    let ranks: Vec<Rank> = cands
        .iter()
        .map(|c| {
            let rank = blended(&snap, &c.evidence);
            Rank { reported: rank >= 0.2, pct: (rank * 100.0).round() as i64 }
        })
        .collect();
    let out = blast(&snap, file, &cands, &ranks, 20);
    assert_eq!(out.schema, 1);
    assert!(out.results.len() > 1);
    assert!(out.results[0].rank_pct > out.results[1].rank_pct);
    assert_eq!(out.results[0].path, "src/core/frame2.ts");
    assert!(out.results[0].evidence.iter().any(|e| matches!(e, Evidence::GhostEdge { .. })));
    assert!(out.results[0].evidence.iter().any(|e| matches!(e, Evidence::Cochange { .. })));
}

#[test]
fn rename_chain_is_one_identity() {
    let r = fixture();
    let (snap, ctx) = (r.snapshot(), r.ctx());
    // The historical path resolves to the same file as the current one.
    let out = timeline(&snap, &ctx, "src/frame.ts").ok().unwrap();
    assert_eq!(out.file, "src/core/frame2.ts");
    let paths: Vec<&str> = out.paths.iter().map(|p| p.path.as_str()).collect();
    assert_eq!(paths, vec!["src/frame.ts", "src/core/frame.ts", "src/core/frame2.ts"]);
}

#[test]
fn old_paths_tell_the_same_story() {
    let r = fixture();
    let (snap, ctx) = (r.snapshot(), r.ctx());
    let told = |p: &str| {
        let out = timeline(&snap, &ctx, p).ok().unwrap();
        let churn: Vec<(String, usize, i128)> =
            out.churn.iter().map(|b| (b.period.clone(), b.touches, b.lines)).collect();
        (out.file, out.born.oid, out.edge_events.len(), churn)
    };
    let now = told("src/core/frame2.ts");
    assert_eq!(told("src/frame.ts"), now);
    assert_eq!(told("./src/core/frame.ts"), now);
    assert!(now.3.windows(2).all(|w| w[0].0 < w[1].0));
    let id = r.state.live_file("src/core/frame2.ts").unwrap();
    let touches = snap.touches.touches_for_file(id);
    assert_eq!(now.3.iter().map(|b| b.1).sum::<usize>(), touches.len());
    assert_eq!(now.3.iter().map(|b| b.2).sum::<i128>(), touches.iter().map(|t| t.lines as i128).sum::<i128>());
}

#[test]
fn delete_readd_resurrects_identity() {
    let r = fixture();
    let (snap, ctx) = (r.snapshot(), r.ctx());
    let out = timeline(&snap, &ctx, "src/parser.ts").ok().unwrap();
    // Born at the initial commit, not at the restore commit.
    assert!(out.born.subject.contains("initial"));
    assert!(out.died.is_none());
}

#[test]
fn cochange_finds_fixture_coupling_with_lift() {
    let r = fixture();
    let (snap, ctx) = (r.snapshot(), r.ctx());
    let out = cochange_list(&snap, &ctx, "src/parser.ts", 20, false).ok().unwrap();
    let golden = out.results.iter().find(|c| c.path == "test/golden/basic.txt").expect("golden fixture coupling");
    assert!(golden.lift_tenths > 15);
    assert!(golden.n >= 3);
    assert!(!golden.structural_edge);
}

#[test]
fn mechanical_commit_excluded_from_metrics() {
    let r = fixture();
    let (snap, ctx) = (r.snapshot(), r.ctx());
    let meta = StatsMeta {
        indexed_at: None,
        imports_total: Some("12".to_string()),
        imports_resolved: Some("x".to_string()),
    };
    let out = stats(&snap, &ctx, &meta);
    assert!(out.commits.excluded_mechanical >= 1);
    assert_eq!(out.commits.total, r.store.commits.len());
    assert_eq!(out.commits.weightless, r.store.commits.iter().filter(|c| !c.weighted).count());
    assert_eq!((out.imports.total, out.imports.resolved), (12, 0));
    assert_eq!(out.files.total, out.files.alive + out.files.dead);
    assert_eq!(out.edges.live, r.store.intervals.iter().filter(|i| i.died.is_none()).count());
    // Two renames and one return.
    assert_eq!(out.renames.total, 3);
}

#[test]
fn why_reports_severing_commit() {
    let r = fixture();
    let (snap, ctx) = (r.snapshot(), r.ctx());
    let out = why(&snap, &ctx, "src/encoder.ts", "src/core/frame2.ts").ok().unwrap();
    assert!(!out.edges.is_empty());
    let edge = out.edges.iter().find(|e| e.severed.is_some()).expect("ghost detail");
    assert!(edge.severed.as_ref().unwrap().severed_at.subject.contains("extract"));
}

#[test]
fn path_reports_break_commit() {
    let r = fixture();
    let (snap, ctx) = (r.snapshot(), r.ctx());
    let out = path_query(&snap, &ctx, "src/encoder.ts", "src/core/frame2.ts", None).ok().unwrap();
    assert!(out.live_path.is_none());
    assert!(out.union_path.is_some());
    assert!(out.broke_at.unwrap().subject.contains("extract"));
}

#[test]
fn exit_codes() {
    let r = fixture();
    let (snap, ctx) = (r.snapshot(), r.ctx());
    let e = match blast_candidates(&snap, &ctx, "no/such/file.ts", &BlastOptions::default()) {
        Err(e) => e,
        Ok(_) => panic!("no such file"),
    };
    let (code, words) = classify_error(&Failure::Query(e));
    assert_eq!(code, 3);
    assert!(words.contains("no/such/file.ts"));
    let missing = Failure::Missing(".pal/index.db (searched up from current directory)".to_string());
    assert_eq!(classify_error(&missing).0, 2);
    let other = classify_error(&Failure::SchemaMismatch { found: 0, expected: 1 });
    assert_eq!(other.0, 4);
    assert_eq!(
        other.1,
        "schema version mismatch: db has 0, this build expects 1; re-run `pal index`"
    );
    assert_eq!(classify_error(&Failure::Other("disk full".to_string())), (1, "disk full".to_string()));
    let garbage = Failure::Unreadable("file is not a database".to_string());
    assert_eq!(classify_error(&garbage), (2, "file is not a database".to_string()));
    assert_eq!(classify_error(&Failure::Query(QueryError::Other("bad rev".to_string()))).0, 1);
}

#[test]
fn incremental_extends_index() {
    let mut r = fixture();
    let before = r.store.commits.len();
    let (files, edges) = (r.store.files.clone(), r.store.edges.len());
    // Take the walk up from what was stored.
    let last_blobs = files
        .iter()
        .map(|f| r.store.blobs.iter().rev().find(|b| b.0 == f.id).map(|b| b.1.clone()))
        .collect();
    let rows = IndexRows {
        files: FileTable::new(files, r.store.paths.clone()),
        last_blobs,
        edges: r.store.edges.clone(),
        intervals: r.store.intervals.clone(),
        symbols: r.store.symbols.iter().filter(|s| s.2).map(|s| (s.0.clone(), s.1)).collect(),
        configs: vec![],
        imports_total: Some(r.state.imports().0.to_string()),
        imports_resolved: Some(r.state.imports().1.to_string()),
    };
    let counted = r.state.imports();
    let known = r.state.live_file("src/encoder.ts");
    r.state = load_state(&rows, &r.ctx());
    assert_eq!(r.state.imports(), counted);
    assert_eq!(r.state.live_file("src/encoder.ts"), known);
    for i in &r.store.intervals {
        let e = r.store.edges[i.edge_id as usize - 1];
        let key = EdgeKey { src: e.src, dst: e.dst, kind: e.kind };
        let open = r.store.intervals.iter().any(|x| x.edge_id == i.edge_id && x.died.is_none());
        assert_eq!(r.state.is_open(key), open);
    }
    r.append("src/encoder.ts", "// incremental touch");
    r.commit("2026-01-05", "one more encoder change");
    assert_eq!(r.store.commits.len(), before + 1);
    assert_eq!(r.store.edges.len(), edges);
    assert_eq!(r.store.touches.last().unwrap().change, ChangeKind::Modified);
}

#[test]
fn the_store_shows_the_live_files() {
    let r = fixture();
    for f in &r.store.files {
        if let Some(p) = &f.current_path {
            assert_eq!(r.state.live_file(p), Some(f.id));
            assert_eq!(f.lang, Lang::from_path(p).map(|l| l.as_str().to_string()));
        }
    }
    let shown = r.store.files.iter().filter(|f| f.current_path.is_some()).count();
    assert_eq!(shown, r.tree.len());
}

#[test]
fn the_live_files_follow_the_tree() {
    let mut r = Repo::new();
    r.write("a.ts", "1\n");
    r.write("vendor/v.ts", "2\n");
    r.write("b.ts", "3\n");
    r.commit("2024-01-01", "start");
    r.mv("a.ts", "vendor/a.ts");
    r.mv("vendor/v.ts", "v.ts");
    r.append("b.ts", "4");
    r.write("c.ts", "5\n");
    r.commit("2024-01-02", "cross the border both ways");
    r.tree.remove("b.ts");
    r.mv("c.ts", "d.ts");
    r.commit("2024-01-03", "drop and move");
    let shown: Vec<&str> = r.store.files.iter().filter_map(|f| f.current_path.as_deref()).collect();
    assert_eq!(shown, vec!["v.ts", "d.ts"]);
    for p in ["a.ts", "vendor/a.ts", "vendor/v.ts", "b.ts", "c.ts"] {
        assert_eq!(r.state.live_file(p), None, "{}", p);
    }
}

#[test]
fn deleted_files_define_nothing() {
    let mut r = Repo::new();
    r.write("a.ts", "export function alpha() { return 1 }\n");
    r.write("b.ts", "alpha();\n");
    r.commit("2024-01-01", "start");
    let (a, b) = (r.state.live_file("a.ts").unwrap(), r.state.live_file("b.ts").unwrap());
    let call = EdgeKey { src: b, dst: a, kind: EdgeKind::Call };
    assert!(r.state.is_open(call));
    r.tree.remove("a.ts");
    r.commit("2024-01-02", "drop a");
    assert!(!r.state.is_open(call));
    assert!(!r.store.symbols.iter().any(|s| s.1 == a && s.2));
    r.append("b.ts", "// touched");
    r.commit("2024-01-03", "touch b");
    assert!(!r.state.is_open(call));
}

#[test]
fn a_deleted_file_closes_its_edges_and_its_return_opens_them() {
    let mut r = Repo::new();
    r.write("a.ts", "import { b } from \"./b\";\n");
    r.write("b.ts", "import { c } from \"./c\";\nexport const b = 1;\n");
    r.write("c.ts", "export const c = 1;\n");
    r.commit("2024-01-01", "start");
    let (a, b, c) =
        (r.state.live_file("a.ts").unwrap(), r.state.live_file("b.ts").unwrap(), r.state.live_file("c.ts").unwrap());
    let ab = EdgeKey { src: a, dst: b, kind: EdgeKind::Import };
    let bc = EdgeKey { src: b, dst: c, kind: EdgeKind::Import };
    assert!(r.state.is_open(ab) && r.state.is_open(bc));
    let text = r.tree.remove("b.ts").unwrap();
    r.commit("2024-01-02", "drop b");
    assert_eq!(r.state.live_file("b.ts"), None);
    assert!(!r.state.is_open(ab) && !r.state.is_open(bc));
    assert!(r.store.intervals.iter().all(|i| i.died.is_some()));
    r.write("b.ts", &text);
    r.commit("2025-06-01", "bring b back");
    // The same blob, though the window is long over.
    assert_eq!(r.state.live_file("b.ts"), Some(b));
    assert!(r.state.is_open(ab) && r.state.is_open(bc));
    assert_eq!(r.store.files.len(), 3);
}

#[test]
fn a_late_return_with_other_content_is_a_new_file() {
    let mut r = Repo::new();
    r.write("a.py", "x = 1\n");
    r.commit("2024-01-01", "start");
    let a = r.state.live_file("a.py").unwrap();
    r.tree.remove("a.py");
    r.commit("2024-01-02", "drop");
    r.write("a.py", "y = 2\n");
    r.commit("2024-04-02", "back after 91 days");
    let b = r.state.live_file("a.py").unwrap();
    assert_ne!(a, b);
    assert_eq!(b, FileId(a.0 + 1));
    let mut s = Repo::new();
    s.write("a.py", "x = 1\n");
    s.commit("2024-01-01", "start");
    s.tree.remove("a.py");
    s.commit("2024-01-02", "drop");
    s.write("a.py", "y = 2\n");
    s.commit("2024-04-01", "back after 90 days");
    assert_eq!(s.state.live_file("a.py"), Some(a));
}

#[test]
fn a_path_can_change_hands_in_one_commit() {
    let mut r = Repo::new();
    r.write("a.ts", "export const a = 1;\n");
    r.write("b.ts", "export const b = 1;\n");
    r.commit("2024-01-01", "start");
    let (a, b) = (r.state.live_file("a.ts").unwrap(), r.state.live_file("b.ts").unwrap());
    let (ca, cb) = (r.tree["a.ts"].clone(), r.tree["b.ts"].clone());
    // One moves away, the other takes its place.
    r.tree.remove("a.ts");
    r.write("c.ts", &ca);
    r.renames.push(("a.ts".to_string(), "c.ts".to_string()));
    r.tree.remove("b.ts");
    r.write("a.ts", &cb);
    r.renames.push(("b.ts".to_string(), "a.ts".to_string()));
    r.commit("2024-01-02", "shuffle");
    assert_eq!(r.state.live_file("c.ts"), Some(a));
    assert_eq!(r.state.live_file("a.ts"), Some(b));
    assert_eq!(r.state.live_file("b.ts"), None);
}

#[test]
fn vendored_files_never_enter_the_index() {
    let mut r = Repo::new();
    r.write("node_modules/x/index.js", "module.exports = 1;\n");
    r.write("src/a.js", "const x = require('../node_modules/x');\n");
    r.commit("2024-01-01", "start");
    assert_eq!(r.store.files.len(), 1);
    r.mv("src/a.js", "node_modules/a.js");
    r.commit("2024-01-02", "vendor it");
    assert_eq!(r.state.live_file("src/a.js"), None);
    assert_eq!(r.state.live_file("node_modules/a.js"), None);
    assert_eq!(r.store.touches.last().unwrap().change, ChangeKind::Deleted);
    r.mv("node_modules/a.js", "src/a.js");
    r.commit("2024-01-03", "take it back");
    assert_eq!(r.state.live_file("src/a.js"), Some(FileId(1)));
}

#[test]
fn configs_feed_the_resolver() {
    let mut r = Repo::new();
    r.write("go.mod", "module example.com/m\n\ngo 1.21\n");
    r.write("internal/f/f.go", "package f\nfunc F() {}\n");
    r.write("main.go", "package main\nimport \"example.com/m/internal/f\"\nfunc main() { f.F() }\n");
    r.write("crates/core/Cargo.toml", "[package]\nname = \"pal-core\"\nversion = \"0.1.0\"\n\n[dependencies]\nname = \"x\"\n");
    r.write("crates/core/src/lib.rs", "pub mod frame;\n");
    r.write("crates/core/src/frame.rs", "pub struct Frame;\n");
    r.write("crates/cli/src/main.rs", "use pal_core::frame::Frame;\nfn main() {}\n");
    r.commit("2024-01-01", "start");
    let id = |p: &str| r.state.live_file(p).unwrap();
    let edge = |a: &str, b: &str| EdgeKey { src: id(a), dst: id(b), kind: EdgeKind::Import };
    assert!(r.state.is_open(edge("main.go", "internal/f/f.go")));
    assert!(r.state.is_open(edge("crates/cli/src/main.rs", "crates/core/src/frame.rs")));
}

#[test]
fn a_walk_can_start_from_a_tree() {
    let mut state = WalkState::new();
    let tree = vec![
        TreeFile { path: "a.ts".to_string(), blob: blob_id("a") },
        TreeFile { path: "b.ts".to_string(), blob: blob_id("b") },
        TreeFile { path: "Cargo.lock".to_string(), blob: blob_id("c") },
    ];
    let text = |s: &str| BlobFacts {
        content: Some(s.as_bytes().to_vec()),
        cached: None,
        fresh: Some(extract(Lang::Ts, &s.as_bytes().to_vec())),
    };
    let facts = vec![
        text("import { b } from \"./b\";\n"),
        text("export const b = 1;\n"),
        BlobFacts { content: None, cached: None, fresh: None },
    ];
    assert!(state.room_for(tree.len(), &facts));
    state.seed_from_tree(&tree, &facts);
    let (a, b) = (state.live_file("a.ts").unwrap(), state.live_file("b.ts").unwrap());
    assert!(state.is_open(EdgeKey { src: a, dst: b, kind: EdgeKind::Import }));
    assert_eq!(state.live_file("Cargo.lock"), None);
    let log = state.take_log();
    assert!(log.iter().any(|o| matches!(o, StoreOp::InsertFile { born: CommitId(0), .. })));
    assert!(state.take_log().is_empty());
}

#[test]
fn blobs_that_do_not_exist_are_not_parsed() {
    let mut state = WalkState::new();
    let tree = vec![TreeFile { path: "a.ts".to_string(), blob: vec![0; 20] }];
    let facts = vec![BlobFacts {
        content: None,
        cached: None,
        fresh: Some(extract(Lang::Ts, &b"export const x = 1;\n".to_vec())),
    }];
    state.seed_from_tree(&tree, &facts);
    assert!(!state.take_log().iter().any(|o| matches!(o, StoreOp::OpenSymbol { .. })));
}

#[test]
fn stale_docs_drift() {
    let mut r = Repo::new();
    r.write("docs/guide.md", "See [code](../src/a.ts).\n");
    r.write("src/a.ts", "export const a = 1;\n");
    r.commit("2024-01-01", "start");
    for d in ["2024-02-01", "2024-03-01"] {
        r.append("src/a.ts", &format!("// {d}"));
        r.commit(d, "change the code");
    }
    let out = drift(&r.snapshot(), &r.ctx(), 20);
    assert_eq!(out.results.len(), 1);
    assert_eq!(out.results[0].doc, "docs/guide.md");
    assert_eq!(out.results[0].code, "src/a.ts");
    assert_eq!(out.results[0].commits_behind, 2);
    assert_eq!(out.results[0].doc_last_touched, "2024-01-01");
}

#[test]
fn mechanical_commits_sever_nothing_into_ghosts() {
    let mut r = Repo::new();
    for i in 1..=12 {
        r.write(&format!("m{i}.ts"), "import { f } from \"./base\";\n");
    }
    r.write("base.ts", "export const f = 1;\n");
    r.commit("2024-01-01", "start");
    for i in 1..=12 {
        r.write(&format!("m{i}.ts"), "import { f } from \"./other\";\n");
    }
    let storm = r.commit("2024-08-01", "chore: reorder imports");
    assert!(r.store.commits[storm.0 as usize - 1].excluded & excluded::MECHANICAL != 0);
    for d in ["2024-09-01", "2024-10-01", "2024-11-01"] {
        r.append("m1.ts", &format!("// {d}"));
        r.append("base.ts", &format!("// {d}"));
        r.commit(d, "together");
    }
    let (severed, candidates) = ghosts::compute(&r.snapshot(), &r.ctx());
    assert!(severed >= 12);
    assert!(candidates.is_empty());
}

#[test]
fn index_runs_start_where_they_should() {
    let head = vec![0xab, 0xcd];
    let some = |s: &str| Some(s.to_string());
    assert!(matches!(
        index_start(true, false, &some("abcd"), &head, &None, "db"),
        Ok(IndexStart::UpToDate)
    ));
    match index_start(true, false, &some("0123"), &head, &None, "db") {
        Ok(IndexStart::Extend { behind }) => assert_eq!(behind, "0123"),
        _ => panic!("extends"),
    }
    match index_start(true, false, &None, &head, &None, "db") {
        Err(e) => assert_eq!(e.message(), "--incremental needs an existing index with a recorded head"),
        Ok(_) => panic!("no head"),
    }
    match index_start(false, false, &some("0123"), &head, &None, ".pal/index.db") {
        Err(e) => assert_eq!(
            e.message(),
            "index already exists at .pal/index.db; use --incremental to extend it or delete it to rebuild"
        ),
        Ok(_) => panic!("exists"),
    }
    match index_start(true, true, &None, &head, &some("v1"), "db") {
        Ok(IndexStart::Afresh { since }) => assert_eq!(since, some("v1")),
        _ => panic!("afresh"),
    }
}

#[test]
fn walks_are_bounded_by_revision_or_date() {
    let b = walk_bounds(&Some("v1.0".to_string())).ok().unwrap();
    assert_eq!((b.hide_rev, b.since_time), (Some("v1.0".to_string()), None));
    let b = walk_bounds(&Some("1970-01-03".to_string())).ok().unwrap();
    assert_eq!((b.hide_rev, b.since_time), (None, Some(172_800)));
    let b = walk_bounds(&None).ok().unwrap();
    assert_eq!((b.hide_rev, b.since_time), (None, None));
    match walk_bounds(&Some("20x4-yy-zz".to_string())) {
        Err(e) => assert_eq!(e.message(), "bad date: 20x4-yy-zz (expected YYYY-MM-DD)"),
        Ok(_) => panic!("bad date"),
    }
    match needs_seed(false, &vec![]) {
        Err(IndexError::NoCommits) => {}
        _ => panic!("no commits"),
    }
}
