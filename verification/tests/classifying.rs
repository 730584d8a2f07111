use palimpsest::classify::{classify_commit, classify_judged, import_only_fraction, is_excluded_path, is_import_only};
use palimpsest::excluded;
use palimpsest::lang::{is_import_line, Lang};
use palimpsest::params::Params;

#[test]
fn vendored_paths() {
    assert!(is_excluded_path("node_modules/react/index.js"));
    assert!(is_excluded_path("pkg/node_modules/x.js"));
    assert!(is_excluded_path("Cargo.lock"));
    assert!(is_excluded_path("web/dist/app.min.js"));
    assert!(!is_excluded_path("src/main.rs"));
    assert!(!is_excluded_path("docs/guide.md"));
}

#[test]
fn lint_storm_is_mechanical() {
    let p = Params::default();
    let import_only: Vec<bool> = vec![true; 40];
    let c = classify_commit(&p, "chore: reorder imports", 40, &import_only, false, false);
    assert!(c.excluded_flags & excluded::MECHANICAL != 0);
    assert_eq!(c.weight_den, 0);
}

#[test]
fn big_commit_excluded() {
    let p = Params::default();
    let flags: Vec<bool> = vec![false; 400];
    let c = classify_commit(&p, "apply lint rule", 400, &flags, false, false);
    assert!(c.excluded_flags & excluded::TOO_LARGE != 0);
    assert_eq!(c.weight_den, 0);
}

#[test]
fn normal_commit_weighted() {
    let p = Params::default();
    let c = classify_commit(&p, "fix encoder frame bug", 4, &vec![false; 4], false, false);
    assert_eq!(c.excluded_flags, 0);
    // A weight of one in four.
    assert_eq!(c.weight_den, 4);
}

#[test]
fn merges_are_flagged_and_only_excluded_on_request() {
    let p = Params::default();
    let kept = classify_commit(&p, "merge branch", 2, &vec![false; 2], true, false);
    assert_eq!(kept.excluded_flags, excluded::MERGE);
    assert_eq!(kept.weight_den, 2);
    let dropped = classify_commit(&p, "merge branch", 2, &vec![false; 2], true, true);
    assert_eq!(dropped.excluded_flags, excluded::MERGE);
    assert_eq!(dropped.weight_den, 0);
}

#[test]
fn the_subject_decides_through_the_pattern() {
    let p = Params::default();
    let flags = vec![true; 40];
    let plain = classify_commit(&p, "teach the encoder about frames", 40, &flags, false, false);
    let judged = classify_judged(&p, false, 40, &flags, false, false);
    assert_eq!(plain.excluded_flags, judged.excluded_flags);
    let storm = classify_commit(&p, "chore: reorder imports", 40, &flags, false, false);
    let judged = classify_judged(&p, true, 40, &flags, false, false);
    assert_eq!(storm.excluded_flags, judged.excluded_flags);
}

#[test]
fn flags_add_up() {
    let p = Params::default();
    let c = classify_judged(&p, true, 60, &vec![true; 60], true, true);
    assert_eq!(c.excluded_flags, excluded::TOO_LARGE | excluded::MECHANICAL | excluded::MERGE);
}

#[test]
fn import_line_detection() {
    assert!(is_import_line(Some(Lang::Ts), "import { x } from './y';"));
    assert!(is_import_line(Some(Lang::Rust), "use crate::foo::Bar;"));
    assert!(is_import_line(Some(Lang::Py), "from x import y"));
    assert!(!is_import_line(Some(Lang::Ts), "const x = 1;"));
}

fn lines(s: &[&str]) -> Vec<String> {
    s.iter().map(|l| l.to_string()).collect()
}

#[test]
fn blank_and_brace_lines_do_not_dilute() {
    let change = lines(&["import a from './a';", "", "}", "import b from './b';"]);
    assert_eq!(import_only_fraction(Some(Lang::Ts), &change), (2, 2));
    assert!(is_import_only(Some(Lang::Ts), &change, 90));
    let mixed = lines(&["import a from './a';", "const x = 1;"]);
    assert_eq!(import_only_fraction(Some(Lang::Ts), &mixed), (1, 2));
    assert!(!is_import_only(Some(Lang::Ts), &mixed, 90));
    assert!(is_import_only(Some(Lang::Ts), &mixed, 50));
    assert!(!is_import_only(Some(Lang::Ts), &lines(&[]), 90));
    assert!(!is_import_only(Some(Lang::Ts), &lines(&["", "}"]), 90));
}

#[test]
fn languages_by_extension() {
    assert_eq!(Lang::from_path("src/a.tsx"), Some(Lang::Tsx));
    assert_eq!(Lang::from_path("lib/x.rb"), Some(Lang::Rb));
    assert_eq!(Lang::from_path("docs/guide.md"), Some(Lang::Md));
    assert_eq!(Lang::from_path("Makefile"), None);
    for l in [Lang::Ts, Lang::Tsx, Lang::Js, Lang::Py, Lang::Rust, Lang::Go, Lang::Rb, Lang::Coffee, Lang::Md] {
        assert_eq!(Lang::parse_str(l.as_str()), Some(l));
    }
    assert_eq!(Lang::parse_str("cobol"), None);
    assert!(Lang::Md.is_doc());
    assert!(!Lang::Go.is_doc());
}
