use palimpsest::cli::{requested_page, Page};
use palimpsest::export::xml_escape;
use palimpsest::model::{ChangeKind, CommitId, EdgeKind, FileId, Resolution};
use palimpsest::params::Params;
use palimpsest::query::{Ctx, Snapshot, TouchTable};
use palimpsest::rows::{CochangeRow, CommitRow, EdgeRow, FileRow, FileTable, IntervalRow, PathIntervalRow, TouchRow};
use palimpsest::viz::{group_of, inline_data, list_groups, viz_data};

#[test]
fn group_heuristic() {
    assert_eq!(group_of("README.md"), "(root)");
    assert_eq!(group_of("src/main.rs"), "src");
    assert_eq!(group_of("packages/schemas/src/book.ts"), "packages/schemas");
    assert_eq!(group_of("packages/loose.ts"), "packages");
}

fn commit(id: i64) -> CommitRow {
    CommitRow {
        id: CommitId(id),
        oid: vec![1; 20],
        author_time: 1000,
        author: Some("a".to_string()),
        subject: Some("s".to_string()),
        body: None,
        weighted: true,
        excluded: 0,
        is_merge: false,
    }
}

fn file(id: i64, path: &str, lang: &str, is_doc: bool) -> FileRow {
    FileRow {
        id: FileId(id),
        current_path: Some(path.to_string()),
        lang: Some(lang.to_string()),
        born_commit: CommitId(1),
        died_commit: None,
        is_doc,
    }
}

fn span(id: i64, path: &str) -> PathIntervalRow {
    PathIntervalRow {
        file_id: FileId(id),
        path: path.to_string(),
        from_commit: CommitId(1),
        to_commit: None,
        confidence: 100,
    }
}

fn pair(slot: usize, a: i64, b: i64, n: i64) -> CochangeRow {
    CochangeRow {
        slot,
        a: FileId(a),
        b: FileId(b),
        n,
        lift_reportable: true,
        lift_drawn: true,
        lift_hidden: true,
        conf_ab_pct: 80,
        conf_ba_pct: 70,
        lift_tenths: 90,
        first_commit: CommitId(1),
        last_commit: CommitId(1),
    }
}

fn demo() -> Snapshot {
    Snapshot {
        files: FileTable::new(
            vec![
                file(1, "src/a.rs", "rust", false),
                file(2, "src/b.rs", "rust", false),
                file(3, "docs/c.md", "markdown", true),
            ],
            vec![span(1, "src/a.rs"), span(2, "src/b.rs"), span(3, "docs/c.md")],
        ),
        edges: vec![EdgeRow {
            id: 1,
            src: FileId(1),
            dst: FileId(2),
            kind: EdgeKind::Import,
            resolution: Resolution::PathExact,
        }],
        intervals: vec![IntervalRow { edge_id: 1, born: CommitId(1), died: None }],
        touches: TouchTable::new(vec![TouchRow {
            commit: CommitId(1),
            file: FileId(1),
            change: ChangeKind::Added,
            lines: 3,
            import_only: false,
        }]),
        cochange: vec![pair(0, 1, 3, 5)],
        ghosts: vec![],
        head: Some("0123456789abcdef".to_string()),
    }
}

#[test]
fn viz_data_shape() {
    let snap = demo();
    let ctx = Ctx::load(vec![commit(1)], Params::default());
    let v = viz_data(&snap, &ctx);
    assert_eq!(v.nodes.len(), 3);
    assert_eq!(v.live.len(), 1);
    assert_eq!(v.co.len(), 1);
    // co-change pair with no live edge, lift >= 8, n >= 3: hidden coupling
    assert_eq!(v.hidden.len(), 1);
    assert!(v.groups.contains(&"src".to_string()) && v.groups.contains(&"docs".to_string()));
    assert_eq!(v.head, Some("0123456".to_string()));
    assert_eq!((v.commits, v.files), (1, 3));
    assert_eq!(v.live, vec![(0, 1)]);
    assert_eq!((v.co[0].a, v.co[0].b, v.co[0].n), (0, 2, 5));
    let degrees: Vec<u128> = v.nodes.iter().map(|n| n.degree).collect();
    assert_eq!(degrees, vec![1, 1, 0]);
    assert_eq!(v.nodes[2].path, "docs/c.md");
    assert_eq!(v.groups[v.nodes[2].group], "docs");
}

#[test]
fn coupling_that_a_live_edge_explains_is_not_hidden() {
    let mut snap = demo();
    snap.cochange = vec![pair(0, 1, 2, 5), pair(1, 2, 3, 2)];
    let ctx = Ctx::load(vec![commit(1)], Params::default());
    let v = viz_data(&snap, &ctx);
    assert_eq!(v.co.len(), 2);
    // The first pair is joined by an edge, the second changed together too rarely.
    assert!(v.hidden.is_empty());
}

#[test]
fn many_groups_end_in_other() {
    let mut paths = Vec::new();
    for d in ["a", "b", "c", "d", "e", "f", "g", "h", "i"] {
        paths.push(format!("{d}/x.rs"));
    }
    paths.push("i/y.rs".to_string());
    let groups = list_groups(&paths);
    assert_eq!(groups, vec!["i", "a", "b", "c", "d", "e", "f", "other"]);
    let few: Vec<String> = paths[..8].to_vec();
    assert_eq!(list_groups(&few), vec!["a", "b", "c", "d", "e", "f", "g", "h"]);
}

#[test]
fn inline_data_cannot_end_a_script() {
    assert_eq!(inline_data("{\"a\":\"</script>\"}"), "{\"a\":\"<\\/script>\"}");
    assert_eq!(inline_data("a < b / c"), "a < b / c");
    assert_eq!(inline_data("<</"), "<<\\/");
    assert!(!inline_data("</</").contains("</"));
}

#[test]
fn xml_text_is_escaped() {
    assert_eq!(xml_escape("a<b>&\"c\""), "a&lt;b&gt;&amp;&quot;c&quot;");
    assert_eq!(xml_escape("plain"), "plain");
    assert_eq!(xml_escape("&amp;"), "&amp;amp;");
}

#[test]
fn pages_by_request() {
    assert_eq!(requested_page("GET / HTTP/1.1\r\nHost: x\r\n"), Page::Picture);
    assert_eq!(requested_page("GET /index.html HTTP/1.1"), Page::Picture);
    assert_eq!(requested_page("GET /data.json HTTP/1.1"), Page::Data);
    assert_eq!(requested_page("GET /secret HTTP/1.1"), Page::NotFound);
    assert_eq!(requested_page(""), Page::Picture);
    assert_eq!(requested_page("  GET\t/data.json"), Page::Data);
}
