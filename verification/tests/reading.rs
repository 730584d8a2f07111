//! What is made of the reports of version control, and of config files.

use palimpsest::changes::normalize_changes;
use palimpsest::config::{crate_source_dir, go_module, is_config_path, package_name};
use palimpsest::lang::Lang;
use palimpsest::vcs::{
    commits, diff_commit, file_stem, message_body, parent_dir, Change, DeltaStatus, FileChange, RawCommit, RawDelta,
    RawPatch,
};
use palimpsest::walk::blob_lang;

fn raw_commit(id: u8, parents: usize, time: i64) -> RawCommit {
    RawCommit {
        oid: vec![id; 20],
        parents: (0..parents).map(|p| vec![100 + p as u8; 20]).collect(),
        author_time: time,
        author: Some("ann".to_string()),
        summary: Some("subject".to_string()),
        message: Some("subject\n\n body\n".to_string()),
    }
}

#[test]
fn commits_as_the_walk_sees_them() {
    let raw = vec![raw_commit(1, 0, 10), raw_commit(2, 1, 20), raw_commit(3, 2, 30)];
    let all = commits(&raw, None);
    assert_eq!(all.len(), 3);
    assert_eq!((all[0].parent_oid.clone(), all[0].is_merge), (None, false));
    assert_eq!((all[1].parent_oid.clone(), all[1].is_merge), (Some(vec![100; 20]), false));
    assert!(all[2].is_merge);
    assert_eq!((all[0].subject.as_str(), all[0].body.as_str()), ("subject", "body"));
    let late = commits(&raw, Some(20));
    assert_eq!(late.len(), 2);
    assert_eq!(late[0].oid, vec![2; 20]);
}

#[test]
fn bodies_stand_behind_subjects() {
    assert_eq!(message_body("fix it\n\nbecause\n", "fix it"), "because");
    // A summary folded from two lines does not start the message.
    assert_eq!(message_body("fix\nit\n\nbecause", "fix it"), "");
    assert_eq!(message_body("x", ""), "x");
}

fn delta(status: DeltaStatus, old: &str, new: &str) -> RawDelta {
    RawDelta {
        status,
        submodule: false,
        old_path: Some(old.to_string()),
        new_path: Some(new.to_string()),
        old_id: vec![1; 20],
        new_id: vec![2; 20],
        binary: false,
        patch: Some(RawPatch {
            added: 1,
            removed: 1,
            lines: vec![
                (' ', b"context".to_vec()),
                ('+', b"import x  \n".to_vec()),
                ('-', b"old\n".to_vec()),
            ],
        }),
    }
}

#[test]
fn every_kind_of_delta() {
    let mut gone = delta(DeltaStatus::Deleted, "d", "d");
    gone.binary = true;
    let mut module = delta(DeltaStatus::Modified, "m", "m");
    module.submodule = true;
    let found = diff_commit(&vec![
        delta(DeltaStatus::Added, "a", "a"),
        delta(DeltaStatus::Copied, "x", "c"),
        gone,
        delta(DeltaStatus::Typechange, "t", "t"),
        module,
        delta(DeltaStatus::Other, "o", "o"),
    ]);
    assert_eq!(found.len(), 4);
    assert_eq!(found[0].change, Change::Added { path: "a".to_string() });
    assert_eq!((found[0].old_blob.clone(), found[0].new_blob.clone()), (None, Some(vec![2; 20])));
    assert_eq!(found[0].changed_lines, vec!["import x", "old"]);
    assert_eq!(found[1].change, Change::Added { path: "c".to_string() });
    assert_eq!(found[1].old_blob, Some(vec![1; 20]));
    assert_eq!(found[2].change, Change::Deleted { path: "d".to_string() });
    assert_eq!((found[2].new_blob.clone(), found[2].lines_added), (None, 0));
    assert!(found[2].changed_lines.is_empty());
    assert_eq!(found[3].change, Change::Modified { path: "t".to_string() });
}

#[test]
fn how_sure_a_rename_is() {
    let sure = |old: &str, new: &str| diff_commit(&vec![delta(DeltaStatus::Renamed, old, new)])[0].confidence;
    assert_eq!(sure("src/a.rs", "src/b.rs"), 85);
    assert_eq!(sure("src/a.rs", "lib/a.ts"), 85);
    assert_eq!(sure("src/a.rs", "lib/b.rs"), 60);
    let mut same = delta(DeltaStatus::Renamed, "src/a.rs", "lib/b.rs");
    same.new_id = same.old_id.clone();
    assert_eq!(diff_commit(&vec![same])[0].confidence, 100);
    let slashes = diff_commit(&vec![delta(DeltaStatus::Renamed, "a\\b", "c\\d")]);
    assert_eq!(slashes[0].change, Change::Renamed { from: "a/b".to_string(), to: "c/d".to_string() });
}

#[test]
fn enormous_changes_keep_no_lines() {
    let mut big = delta(DeltaStatus::Modified, "a", "a");
    big.patch = Some(RawPatch { added: 4_000, removed: 1, lines: vec![('+', b"x".to_vec())] });
    let found = diff_commit(&vec![big]);
    assert_eq!((found[0].lines_added, found[0].lines_removed), (4_000, 1));
    assert!(found[0].changed_lines.is_empty());
}

#[test]
fn parts_of_paths() {
    assert_eq!((parent_dir("a/b/c.rs"), parent_dir("c.rs")), ("a/b", ""));
    assert_eq!((file_stem("a/b/c.test.ts"), file_stem("Makefile")), ("c", "Makefile"));
}

fn change(change: Change) -> FileChange {
    FileChange {
        change,
        new_blob: Some(vec![2]),
        old_blob: Some(vec![1]),
        lines_added: 1,
        lines_removed: 0,
        changed_lines: vec![],
        confidence: 85,
    }
}

#[test]
fn renames_across_the_vendored_border() {
    let vendored = "node_modules/x.js".to_string();
    let own = "src/x.js".to_string();
    let found = normalize_changes(vec![
        change(Change::Renamed { from: vendored.clone(), to: own.clone() }),
        change(Change::Renamed { from: own.clone(), to: vendored.clone() }),
        change(Change::Modified { path: vendored.clone() }),
    ]);
    assert_eq!(found.len(), 2);
    // Deletes come before adds.
    assert_eq!(found[0].change, Change::Deleted { path: own.clone() });
    assert_eq!(found[0].new_blob, None);
    assert_eq!(found[1].change, Change::Added { path: own.clone() });
    assert_eq!((found[0].confidence, found[1].confidence), (100, 100));
    // A rename within the repository keeps its own.
    let kept = normalize_changes(vec![change(Change::Renamed { from: own, to: "src/y.js".to_string() })]);
    assert_eq!(kept[0].confidence, 85);
}

#[test]
fn config_files() {
    assert_eq!(go_module("// c\nmodule example.com/m\n\ngo 1.20\n"), Some("example.com/m".to_string()));
    assert_eq!(go_module("go 1.20"), None);
    assert_eq!(
        package_name("[workspace]\nname = \"no\"\n[package]\nname = \"my-crate\"\n"),
        Some("my_crate".to_string())
    );
    assert_eq!(package_name("[dependencies]\nname = \"x\""), None);
    assert_eq!(crate_source_dir("crates/a/Cargo.toml"), "crates/a/src");
    assert_eq!(crate_source_dir("Cargo.toml"), "src");
    assert!(is_config_path("go.mod") && is_config_path("x/Cargo.toml") && !is_config_path("x/go.mod"));
}

#[test]
fn only_real_blobs_are_parsed() {
    assert_eq!(blob_lang("a.rs", &vec![0, 1]), Some(Lang::Rust));
    assert_eq!(blob_lang("a.rs", &vec![0, 0]), None);
    assert_eq!(blob_lang("a.bin", &vec![1]), None);
}
