//! The queries over a small index made by hand, and what a terminal shows of
//! them.

use palimpsest::bfs::bfs;
use palimpsest::blast::{blast, blast_candidates, BlastOptions, Evidence, Rank};
use palimpsest::cochange;
use palimpsest::export::{export_nodes, export_picture, export_states, EdgeState, Picture};
use palimpsest::graph::{days_between, load_graph};
use palimpsest::hotspots::{hot_files, hotspots, Basis};
use palimpsest::human::{self, Figures, PairFigures, Ratios};
use palimpsest::listing::{cochange_list, drift, ghosts_list, search};
use palimpsest::model::{ChangeKind, CommitId, Direction, EdgeKind, FileId, Resolution};
use palimpsest::params::Params;
use palimpsest::path_query::{path_query, resolve_as_of};
use palimpsest::query::{resolve_file, Ctx, KindFilter, QueryError, Snapshot, TouchTable};
use palimpsest::rows::{
    full_oid, short_oid, CochangeRow, CommitRow, EdgeRow, FileRow, FileTable, GhostRow, IntervalRow,
    PathIntervalRow, TouchRow,
};
use palimpsest::stats::{stats, StatsMeta};
use palimpsest::timeline::timeline;
use palimpsest::why::why;

const DAY: i64 = 86_400;

fn commit(id: i64, day: i64, excluded: i64) -> CommitRow {
    CommitRow {
        id: CommitId(id),
        oid: vec![id as u8; 20],
        author_time: day * DAY + 3600,
        author: Some(format!("author {id}")),
        subject: Some(format!("commit {id}")),
        body: Some("one\ntwo\nthree\nfour\nfive".to_string()),
        weighted: excluded == 0,
        excluded,
        is_merge: id == 5,
    }
}

fn file(id: i64, path: Option<&str>, born: i64, died: Option<i64>, is_doc: bool) -> FileRow {
    FileRow {
        id: FileId(id),
        current_path: path.map(|p| p.to_string()),
        lang: if is_doc { Some("md".to_string()) } else { Some("rust".to_string()) },
        born_commit: CommitId(born),
        died_commit: died.map(CommitId),
        is_doc,
    }
}

fn span(id: i64, path: &str, from: i64, to: Option<i64>, confidence: u8) -> PathIntervalRow {
    PathIntervalRow {
        file_id: FileId(id),
        path: path.to_string(),
        from_commit: CommitId(from),
        to_commit: to.map(CommitId),
        confidence,
    }
}

fn edge(id: i64, src: i64, dst: i64, kind: EdgeKind) -> EdgeRow {
    EdgeRow { id, src: FileId(src), dst: FileId(dst), kind, resolution: Resolution::PathExact }
}

fn interval(edge_id: i64, born: i64, died: Option<i64>) -> IntervalRow {
    IntervalRow { edge_id, born: CommitId(born), died: died.map(CommitId) }
}

fn touch(commit: i64, file: i64, lines: i64) -> TouchRow {
    TouchRow {
        commit: CommitId(commit),
        file: FileId(file),
        change: ChangeKind::Modified,
        lines,
        import_only: false,
    }
}

fn snapshot() -> Snapshot {
    Snapshot {
        files: FileTable::new(
            vec![
                file(1, Some("src/a.rs"), 1, None, false),
                file(2, Some("src/b.rs"), 1, None, false),
                file(3, None, 2, Some(4), false),
                file(4, Some("docs/guide.md"), 1, None, true),
            ],
            vec![
                span(1, "a.rs", 1, Some(2), 100),
                span(1, "src/a.rs", 2, None, 85),
                span(2, "src/b.rs", 1, None, 100),
                span(3, "src/c.rs", 2, Some(4), 100),
                span(4, "docs/guide.md", 1, None, 100),
            ],
        ),
        edges: vec![
            edge(10, 1, 2, EdgeKind::Import),
            edge(11, 1, 3, EdgeKind::Call),
            edge(12, 4, 1, EdgeKind::DocRef),
        ],
        intervals: vec![interval(10, 1, Some(3)), interval(11, 2, Some(4)), interval(12, 1, None)],
        touches: TouchTable::new(vec![
            touch(1, 1, 10),
            touch(1, 2, 5),
            touch(1, 4, 7),
            touch(2, 1, 4),
            touch(4, 1, 2),
            touch(4, 2, 3),
            touch(5, 1, 1),
            touch(5, 2, 1),
        ]),
        cochange: vec![CochangeRow {
            slot: 0,
            a: FileId(1),
            b: FileId(2),
            n: 3,
            lift_reportable: true,
            lift_drawn: true,
            lift_hidden: false,
            conf_ab_pct: 64,
            conf_ba_pct: 80,
            lift_tenths: 21,
            first_commit: CommitId(1),
            last_commit: CommitId(5),
        }],
        ghosts: vec![GhostRow {
            slot: 0,
            edge_id: 10,
            severed_commit: CommitId(3),
            lifetime_days: 200,
            cochanges_since: 2,
            conf_pct: 100,
            score_pct: 312,
        }],
        head: Some("0505050505050505".to_string()),
    }
}

fn ctx() -> Ctx {
    Ctx::load(
        vec![commit(1, 0, 0), commit(2, 100, 2), commit(3, 200, 0), commit(4, 300, 0), commit(5, 400, 0)],
        Params::default(),
    )
}

#[test]
fn object_ids_are_hexadecimal() {
    let oid: Vec<u8> = vec![0x00, 0x0f, 0xa0, 0xff, 0x10, 0x9c, 0x42];
    assert_eq!(full_oid(&oid), "000fa0ff109c42");
    assert_eq!(short_oid(&oid), "000fa0ff109c");
    assert_eq!(short_oid(&vec![1u8]), "01");
}

#[test]
fn files_are_found_by_present_and_past_paths() {
    let snap = snapshot();
    assert_eq!(resolve_file(&snap, "src/a.rs"), Ok(0));
    assert_eq!(resolve_file(&snap, "./src/a.rs"), Ok(0));
    assert_eq!(resolve_file(&snap, "a.rs"), Ok(0));
    assert_eq!(resolve_file(&snap, "src/c.rs"), Ok(2));
    assert_eq!(resolve_file(&snap, "nowhere"), Err(QueryError::FileNotFound("nowhere".to_string())));
    assert_eq!(snap.files.display_path(FileId(3)), "src/c.rs");
    assert_eq!(snap.files.display_path(FileId(99)), "<file 99>");
}

#[test]
fn lifetimes_are_whole_days() {
    assert_eq!(days_between(0, 2 * DAY - 1), 1);
    assert_eq!(days_between(0, 0), 0);
    let (snap, ctx) = (snapshot(), ctx());
    let g = load_graph(&snap.edges, &snap.intervals, &ctx.times);
    assert!(!g.edges[0].alive && g.edges[2].alive);
    assert_eq!(g.edges[0].total_lifetime_days, 200);
    assert_eq!(g.edges[0].last_died, Some(3));
    assert_eq!(g.neighbors(FileId(1)).len(), 3);
}

#[test]
fn ghosts_are_listed_by_file() {
    let (snap, ctx) = (snapshot(), ctx());
    let all = ghosts_list(&snap, &ctx, None, 20).ok().unwrap();
    assert_eq!(all.results.len(), 1);
    let of_doc = ghosts_list(&snap, &ctx, Some("docs/guide.md"), 20).ok().unwrap();
    assert!(of_doc.results.is_empty());
    let cut = ghosts_list(&snap, &ctx, None, 0).ok().unwrap();
    assert!(cut.results.is_empty() && cut.truncated);
    assert_eq!(
        human::ghosts(&all),
        vec![
            "3.12  src/a.rs -> src/b.rs (import)",
            "      severed 030303030303 1970-07-20 \"commit 3\"; lived 200d; co-changed 2x since (conf 1.00)",
        ]
    );
    assert_eq!(human::ghosts(&of_doc), vec!["no ghost edges"]);
}

#[test]
fn coupling_is_listed_from_either_side() {
    let (snap, ctx) = (snapshot(), ctx());
    let hidden = cochange_list(&snap, &ctx, "src/a.rs", 20, false).ok().unwrap();
    // The pair has had an edge, so it is listed only when asked for.
    assert!(hidden.results.is_empty());
    let from_a = cochange_list(&snap, &ctx, "src/a.rs", 20, true).ok().unwrap();
    assert_eq!((from_a.results[0].path.as_str(), from_a.results[0].confidence_pct), ("src/b.rs", 64));
    let from_b = cochange_list(&snap, &ctx, "src/b.rs", 20, true).ok().unwrap();
    assert_eq!((from_b.results[0].path.as_str(), from_b.results[0].confidence_pct), ("src/a.rs", 80));
    assert_eq!(
        human::cochange(&from_a),
        vec![
            "evolutionary coupling for src/a.rs",
            "  3x conf 0.64 lift 2.1  src/b.rs [structural]  (1970-01-01 .. 1971-02-05)",
        ]
    );
    assert_eq!(
        human::cochange(&hidden),
        vec!["evolutionary coupling for src/a.rs", "  none above gates (n >= 3, lift >= 1.5)"]
    );
}

#[test]
fn docs_drift_by_commits_that_count() {
    let (snap, ctx) = (snapshot(), ctx());
    let out = drift(&snap, &ctx, 20);
    // Commit 2 is mechanical, so only commits 4 and 5 are ahead of the doc.
    assert_eq!(out.results[0].commits_behind, 2);
    assert_eq!(
        human::drift(&out),
        vec!["2 commits behind: docs/guide.md (last 1970-01-01) references src/a.rs (last 1971-02-05)"]
    );
    let none = drift(&Snapshot { edges: vec![], ..snapshot() }, &ctx, 20);
    assert_eq!(human::drift(&none), vec!["no doc drift detected"]);
}

#[test]
fn points_in_history() {
    let ctx = ctx();
    assert_eq!(resolve_as_of(&ctx, "1970-05-01"), Ok(2));
    assert_eq!(resolve_as_of(&ctx, "1970-04-11"), Ok(2));
    assert_eq!(resolve_as_of(&ctx, "0303"), Ok(3));
    assert_eq!(
        resolve_as_of(&ctx, "1969-12-31"),
        Err(QueryError::Other("no commits at or before 1969-12-31".to_string()))
    );
    assert_eq!(
        resolve_as_of(&ctx, "feed"),
        Err(QueryError::Other("rev feed not found in indexed history".to_string()))
    );
    assert_eq!(resolve_as_of(&ctx, "0"), Err(QueryError::Other("rev 0 is ambiguous".to_string())));
}

#[test]
fn paths_then_and_now() {
    let (snap, ctx) = (snapshot(), ctx());
    let now = path_query(&snap, &ctx, "src/a.rs", "src/b.rs", None).ok().unwrap();
    assert!(now.live_path.is_none());
    assert_eq!(
        human::path(&now),
        vec![
            "no live path src/a.rs .. src/b.rs; historical path:",
            "  src/a.rs -> src/b.rs (import, died 030303030303 1970-07-20)",
            "  broke at 030303030303 1970-07-20 \"commit 3\"",
        ]
    );
    let then = path_query(&snap, &ctx, "src/a.rs", "src/b.rs", Some("1970-05-01")).ok().unwrap();
    assert_eq!(
        human::path(&then),
        vec![
            "live path src/a.rs .. src/b.rs:",
            "  src/a.rs -> src/b.rs (import, died 030303030303 1970-07-20)",
        ]
    );
    let still = path_query(&snap, &ctx, "docs/guide.md", "src/a.rs", None).ok().unwrap();
    assert_eq!(human::path(&still)[1], "  docs/guide.md -> src/a.rs (docref, live)");
    let apart = Snapshot { edges: vec![], ..snapshot() };
    let none = path_query(&apart, &ctx, "src/a.rs", "src/b.rs", None).ok().unwrap();
    assert_eq!(human::path(&none), vec!["no recorded path between src/a.rs and src/b.rs"]);
    assert!(path_query(&snap, &ctx, "src/a.rs", "gone", None).is_err());
}

#[test]
fn why_tells_the_whole_story() {
    let (snap, ctx) = (snapshot(), ctx());
    let out = why(&snap, &ctx, "src/a.rs", "src/b.rs").ok().unwrap();
    assert_eq!(
        human::why(&out),
        vec![
            "src/a.rs and src/b.rs",
            "  import edge src/a.rs -> src/b.rs (path-exact, dead)",
            "    010101010101 1970-01-01 .. 030303030303 1970-07-20 \"commit 3\"",
            "    GHOST: severed by 030303030303 (author 3) \"commit 3\"; lived 200d; co-changed 2x since (conf 1.00, score 3.12)",
            "      | one",
            "      | two",
            "      | three",
            "      | four",
            "  co-change: 3x, conf 0.64, lift 2.1, 1970-01-01 .. 1971-02-05",
        ]
    );
}

#[test]
fn timeline_of_a_renamed_file() {
    let (snap, ctx) = (snapshot(), ctx());
    let out = timeline(&snap, &ctx, "src/a.rs").ok().unwrap();
    assert_eq!(
        human::timeline(&out),
        vec![
            "src/a.rs",
            "  born 010101010101 1970-01-01 \"commit 1\"",
            "  paths:",
            "    a.rs from 010101010101 1970-01-01",
            "    src/a.rs from 020202020202 1970-04-11 (rename confidence 0.85)",
            "  edge events:",
            "    1970-01-01 010101010101 opened import -> src/b.rs",
            "    1970-01-01 010101010101 opened docref <- docs/guide.md",
            "    1970-04-11 020202020202 opened call -> src/c.rs",
            "    1970-07-20 030303030303 closed import -> src/b.rs",
            "    1970-10-28 040404040404 closed call -> src/c.rs",
            "  churn:",
            "    1970-Q1  1 touches, 10 lines",
            "    1970-Q2  1 touches, 4 lines",
            "    1970-Q4  1 touches, 2 lines",
            "    1971-Q1  1 touches, 1 lines",
        ]
    );
    let dead = timeline(&snap, &ctx, "src/c.rs").ok().unwrap();
    assert_eq!(
        human::timeline(&dead)[..3],
        [
            "src/c.rs".to_string(),
            "  born 020202020202 1970-04-11 \"commit 2\"".to_string(),
            "  died 040404040404 1970-10-28 \"commit 4\"".to_string(),
        ]
    );
}

#[test]
fn hotspots_by_every_measure() {
    let (snap, ctx) = (snapshot(), ctx());
    let files = hot_files(&snap, &ctx, Basis::Churn);
    let found: Vec<(&str, usize)> = files.iter().map(|f| (f.path.as_str(), f.slots.len())).collect();
    // The touch in the mechanical commit does not count.
    assert_eq!(found, vec![("src/a.rs", 3), ("src/b.rs", 3), ("docs/guide.md", 1)]);
    let out = hotspots(&files, &vec![150, 1250, 7], "churn", 2);
    assert!(out.truncated);
    assert_eq!(
        human::hotspots(&out),
        vec![
            "hotspots by churn",
            "     12.50  src/b.rs  (3 touches)",
            "      1.50  src/a.rs  (3 touches)",
            "  (truncated; raise --limit for more)",
        ]
    );
    let coupled = hot_files(&snap, &ctx, Basis::Coupling);
    assert_eq!(coupled.len(), 2);
    let haunted = hot_files(&snap, &ctx, Basis::parse("ghosts"));
    let out = hotspots(&haunted, &vec![1, 2], "ghosts", 5);
    assert_eq!(out.results[0].detail, "1 ghost edges");
}

#[test]
fn search_results_keep_their_order() {
    let ctx = ctx();
    let out = search(&ctx, &vec![(CommitId(3), "x".to_string()), (CommitId(1), "y".to_string())]);
    assert_eq!(
        human::search(&out),
        vec!["030303030303 1970-07-20 commit 3 (x)", "010101010101 1970-01-01 commit 1 (y)"]
    );
}

#[test]
fn stats_count_the_index() {
    let (snap, ctx) = (snapshot(), ctx());
    let meta = StatsMeta {
        indexed_at: None,
        imports_total: Some("8".to_string()),
        imports_resolved: Some("not a number".to_string()),
    };
    let out = stats(&snap, &ctx, &meta);
    assert_eq!(out.commits.weightless, 1);
    let ratios = Ratios { excluded_pct: "20".to_string(), unresolved_ratio: "1".to_string() };
    assert_eq!(
        human::stats(&out, &ratios),
        vec![
            "head 0505050505050505 indexed_at ?",
            "commits: 5 total, 0 too-large, 1 mechanical, 1 merges, 20% excluded from co-change",
            "files: 4 total (3 alive, 1 dead, 1 docs)",
            "edges: 3 total, 1 live, 1 ghosts; cochange pairs: 1",
            "imports: 0/8 resolved (unresolved ratio 1)",
            "renames: 1 total, 0 low-confidence",
        ]
    );
}

#[test]
fn pictures_show_live_edges_and_ghosts() {
    let snap = snapshot();
    assert_eq!(
        export_picture(&snap, Picture::Dot),
        vec![
            "digraph palimpsest {",
            "  n1 [label=\"src/a.rs\"];",
            "  n2 [label=\"src/b.rs\"];",
            "  n4 [label=\"docs/guide.md\"];",
            "  n1 -> n2 [style=dashed label=\"import\"];",
            "  n4 -> n1 [style=solid label=\"docref\"];",
            "}",
        ]
    );
    let xml = export_picture(&snap, Picture::Graphml);
    assert_eq!(xml[6], "  <node id=\"n1\"><data key=\"path\">src/a.rs</data></node>");
    assert_eq!(
        xml[9],
        "  <edge source=\"n1\" target=\"n2\"><data key=\"kind\">import</data><data key=\"state\">ghost</data></edge>"
    );
    assert_eq!(xml[xml.len() - 1], "</graph></graphml>");
    assert_eq!(export_states(&snap), vec![EdgeState::Severed, EdgeState::Dead, EdgeState::Live]);
    let nodes = export_nodes(&snap);
    assert_eq!((nodes[2].path.as_str(), nodes[2].alive), ("src/c.rs", false));
}

#[test]
fn evidence_of_every_kind_in_words() {
    let figures = Figures {
        ghosts: vec!["0.64".to_string()],
        pairs: vec![PairFigures {
            conf_ab: "0.50".to_string(),
            conf_ba: "0.25".to_string(),
            lift: "4.1".to_string(),
        }],
    };
    let live = Evidence::StructuralEdge {
        kind: EdgeKind::TypeRef,
        alive: true,
        resolution: Resolution::SymbolName,
        direction: Direction::In,
    };
    assert_eq!(human::evidence_line(&live, &figures), "live typeref <- (symbol-name)");
    let severed = Evidence::GhostEdge {
        kind: EdgeKind::Import,
        severed_at: "abc".to_string(),
        severed_date: "2024-11-03".to_string(),
        lifetime_days: 612,
        cochanges_since: 9,
        slot: 0,
        severing_subject: "extract iface".to_string(),
        direction: Direction::Out,
    };
    assert_eq!(
        human::evidence_line(&severed, &figures),
        "GHOST import: severed abc 2024-11-03 \"extract iface\"; co-changed 9x since (conf 0.64)"
    );
    let there = Evidence::Cochange { n: 9, slot: 0, forward: true, last: "2026-06-21".to_string() };
    let back = Evidence::Cochange { n: 9, slot: 0, forward: false, last: "2026-06-21".to_string() };
    assert_eq!(human::evidence_line(&there, &figures), "co-change 9x, conf 0.50, lift 4.1, last 2026-06-21");
    assert_eq!(human::evidence_line(&back, &figures), "co-change 9x, conf 0.25, lift 4.1, last 2026-06-21");
    let far = Evidence::Transitive {
        via: vec!["x".to_string(), "y".to_string()],
        union_dist: 3,
        head_dist: None,
    };
    assert_eq!(
        human::evidence_line(&far, &figures),
        "transitive via x > y: union-dist 3, live-dist unreachable"
    );
    let near = Evidence::Transitive { via: vec![], union_dist: 2, head_dist: Some(2) };
    assert_eq!(human::evidence_line(&near, &figures), "transitive: union-dist 2, live-dist 2");
    let stale = Evidence::DocDrift { doc: "d".to_string(), commits_behind: 4 };
    assert_eq!(human::evidence_line(&stale, &figures), "doc is 4 commits behind this file");
}

#[test]
fn blast_gathers_ranks_and_renders() {
    let (snap, ctx) = (snapshot(), ctx());
    let figures = Figures {
        ghosts: vec!["1.00".to_string()],
        pairs: vec![PairFigures {
            conf_ab: "0.64".to_string(),
            conf_ba: "0.80".to_string(),
            lift: "2.1".to_string(),
        }],
    };
    let opts = BlastOptions { depth: 1, limit: 20, kinds: KindFilter::parse("live,ghost,cochange,doc") };
    let (asked, cands) = blast_candidates(&snap, &ctx, "src/a.rs", &opts).ok().unwrap();
    let ids: Vec<i64> = cands.iter().map(|c| c.file_id.0).collect();
    assert_eq!(ids, vec![2, 4]);
    let ranks = vec![Rank { reported: true, pct: 91 }, Rank { reported: true, pct: 40 }];
    let out = blast(&snap, asked, &cands, &ranks, 20);
    assert_eq!(
        human::blast(&out, &figures),
        vec![
            "blast radius of src/a.rs (head 050505050505)",
            "  0.91  src/b.rs",
            "        GHOST import: severed 030303030303 1970-07-20 \"commit 3\"; co-changed 2x since (conf 1.00)",
            "        co-change 3x, conf 0.64, lift 2.1, last 1971-02-05",
            "  0.40  docs/guide.md",
            "        live docref <- (path-exact)",
            "        doc is 2 commits behind this file",
        ]
    );
    let quiet = vec![Rank { reported: false, pct: 9 }, Rank { reported: false, pct: 4 }];
    let none = blast(&snap, asked, &cands, &quiet, 20);
    assert_eq!(
        human::blast(&none, &figures)[1],
        "  nothing above threshold; absence of evidence is not evidence of absence"
    );
    let best = vec![Rank { reported: true, pct: 40 }, Rank { reported: true, pct: 91 }];
    let cut = blast(&snap, asked, &cands, &best, 1);
    assert!(cut.truncated);
    assert_eq!(cut.results[0].path, "docs/guide.md");
    let dead = blast_candidates(&snap, &ctx, "src/c.rs", &opts).ok().unwrap();
    let shown = blast(&snap, dead.0, &dead.1, &vec![Rank { reported: true, pct: 1 }; dead.1.len()], 20);
    assert_eq!(
        shown.caveats,
        vec!["src/c.rs is deleted at HEAD; results describe its historical neighborhood"]
    );
}

#[test]
fn blast_reports_only_what_was_asked_for() {
    let (snap, ctx) = (snapshot(), ctx());
    for (kinds, ids) in [("ghost", vec![2]), ("doc", vec![4]), ("cochange", vec![2]), ("", vec![])] {
        let opts = BlastOptions { depth: 2, limit: 20, kinds: KindFilter::parse(kinds) };
        let (_, cands) = blast_candidates(&snap, &ctx, "src/a.rs", &opts).ok().unwrap();
        let found: Vec<i64> = cands.iter().map(|c| c.file_id.0).collect();
        assert_eq!(found, ids, "{}", kinds);
        assert!(cands.iter().all(|c| c.evidence.len() == 1));
    }
}

#[test]
fn a_filter_names_the_kinds_it_keeps() {
    let all = KindFilter::default();
    assert!(all.live && all.ghosts && all.cochange && all.doc && all.transitive);
    let some = KindFilter::parse("ghost, doc,nonsense");
    assert!(!some.live && some.ghosts && !some.cochange && some.doc && !some.transitive);
}

#[test]
fn the_shortest_way_is_taken() {
    let ctx = ctx();
    let snap = Snapshot {
        edges: vec![
            edge(1, 1, 3, EdgeKind::Import),
            edge(2, 3, 4, EdgeKind::Import),
            edge(3, 4, 2, EdgeKind::Import),
            edge(4, 2, 3, EdgeKind::Import),
        ],
        intervals: (1..=4).map(|e| interval(e, 1, None)).collect(),
        ..snapshot()
    };
    let out = path_query(&snap, &ctx, "src/a.rs", "src/b.rs", None).ok().unwrap();
    let ends: Vec<(String, String)> =
        out.live_path.unwrap().into_iter().map(|h| (h.from, h.to)).collect();
    // The second edge is walked against its direction.
    assert_eq!(
        ends,
        vec![
            ("src/a.rs".to_string(), "src/c.rs".to_string()),
            ("src/b.rs".to_string(), "src/c.rs".to_string()),
        ]
    );
    let g = load_graph(&snap.edges, &snap.intervals, &ctx.times);
    let reach = bfs(&g, FileId(1), 6, &vec![true; 4]);
    let dist = |f: i64| reach.find(FileId(f)).map(|i| reach.dist(i));
    assert_eq!((dist(1), dist(3), dist(2), dist(4)), (Some(0), Some(1), Some(2), Some(2)));
    let near = bfs(&g, FileId(1), 1, &vec![true; 4]);
    assert_eq!(near.len(), 2);
    let cut = bfs(&g, FileId(1), 6, &vec![true, false, true, false]);
    assert_eq!(cut.find(FileId(2)), None);
}

#[test]
fn pairs_are_counted_over_commits_that_count() {
    let (snap, ctx) = (snapshot(), ctx());
    let survey = cochange::compute(&ctx, &snap.touches);
    assert_eq!(survey.commits_used, 4);
    let commits: Vec<i64> = survey.groups.iter().map(|g| g.commit.0).collect();
    assert_eq!(commits, vec![1, 4, 5]);
    // Files 1 and 2 changed together three times; the others only once.
    assert_eq!(survey.pairs.len(), 1);
    let p = &survey.pairs[0];
    assert_eq!((p.a, p.b, p.groups.clone()), (FileId(1), FileId(2), vec![0, 1, 2]));
}

#[test]
fn the_clock_of_an_index() {
    let ctx = ctx();
    assert_eq!(ctx.times.now(), 400 * DAY + 3600);
    assert_eq!(ctx.times.earliest(), 3600);
    assert_eq!(ctx.time_of(3), 200 * DAY + 3600);
    let none = Ctx::load(vec![], Params::default());
    assert_eq!((none.times.now(), none.times.earliest()), (0, 0));
}
