//! Texts, numbers, names and orders: the small parts that everything else is
//! made of.

use palimpsest::names::NameSet;
use palimpsest::open_edges::{EdgeKey, OpenEdges};
use palimpsest::order::stable_order;
use palimpsest::model::{ChangeKind, EdgeKind, FileId, Resolution};
use palimpsest::postings::Postings;
use palimpsest::store_op::finer;
use palimpsest::cli::{check_version, classify_error, load_params, response_caveats, staleness_caveat, Failure};
use palimpsest::query::QueryError;
use palimpsest::tables::{PathMap, SymbolTable};
use palimpsest::text;

fn list(items: &[&str]) -> Vec<String> {
    items.iter().map(|s| s.to_string()).collect()
}

#[test]
fn splitting_and_joining() {
    assert_eq!(text::split_on("a/b//c", '/'), list(&["a", "b", "", "c"]));
    assert_eq!(text::split_on("", '/'), list(&[""]));
    assert_eq!(text::join_with(&text::split_on("a/b//c", '/'), "/"), "a/b//c");
    assert_eq!(text::split_on_text("a::b::c", "::"), list(&["a", "b", "c"]));
    assert_eq!(text::lines_of("one\r\ntwo\n\nthree\n"), list(&["one", "two", "", "three"]));
}

#[test]
fn trimming() {
    assert_eq!(text::trim("\t a b \u{3000}"), "a b");
    assert_eq!(text::trim_start("  a "), "a ");
    assert_eq!(text::trim_end("  a "), "  a");
    assert_eq!(text::strip_front("././x", "./"), "x");
    assert_eq!(text::strip_back("a//", "/"), "a");
}

#[test]
fn finding() {
    assert!(text::starts_with("abc", "ab") && !text::starts_with("ab", "abc"));
    assert!(text::ends_with("abc", "bc") && text::ends_with("abc", ""));
    assert!(text::contains_text("abcabd", "abd") && !text::contains_text("abcabc", "abd"));
    assert_eq!(text::index_of("a.b.c", '.'), Some(1));
    assert_eq!(text::last_index_of("a.b.c", '.'), Some(3));
    assert_eq!(text::last_index_of("abc", '.'), None);
    assert_eq!(text::to_lower("ÀBc"), "Àbc");
}

#[test]
fn numbers_written_and_read() {
    assert_eq!(text::int_text(-7), "-7");
    assert_eq!(text::int_text(i64::MIN), i64::MIN.to_string());
    assert_eq!(text::nat_text(u64::MAX), u64::MAX.to_string());
    assert_eq!(text::wide_int_text(i128::MIN), i128::MIN.to_string());
    assert_eq!(text::int_text_padded(5, 4), "0005");
    assert_eq!(text::int_text_padded(-5, 4), "-005");
    for n in [0i64, 9, 10, -1, 1_000_000, i64::MAX, i64::MIN] {
        assert_eq!(text::parse_i64(&text::int_text(n)), Some(n));
    }
    assert_eq!(text::parse_i64("+12"), Some(12));
    assert_eq!(text::parse_i64("9223372036854775808"), None);
    assert_eq!(text::parse_u64("18446744073709551616"), None);
    assert_eq!(text::parse_u64("-1"), None);
    assert_eq!(text::parse_u64(""), None);
}

#[test]
fn texts_are_ordered_by_their_characters() {
    assert!(text::le_text("a", "ab") && text::le_text("ab", "b") && !text::le_text("b", "ab"));
    assert!(text::le_text("Z", "a"));
}

#[test]
fn name_sets_are_sorted_and_hold_nothing_twice() {
    let mut s = NameSet::new();
    assert!(s.insert("b".to_string()));
    assert!(s.insert("a".to_string()));
    assert!(!s.insert("b".to_string()));
    assert_eq!(s.into_list(), list(&["a", "b"]));
}

#[test]
fn orders_are_stable() {
    assert_eq!(stable_order(&vec![3, 1, 2, 1]), vec![1, 3, 2, 0]);
    assert_eq!(stable_order(&vec![]), Vec::<usize>::new());
}

#[test]
fn postings_list_positions() {
    let p = Postings::build(&vec![7, 8, 7, 9]);
    assert_eq!(p.get(7), &vec![0, 2]);
    assert_eq!(p.get(1), &Vec::<usize>::new());
    assert_eq!(p.last(7), Some(2));
    assert_eq!(p.last(1), None);
}

#[test]
fn a_path_has_one_file() {
    let mut m = PathMap::new();
    m.insert("a".to_string(), FileId(1));
    m.insert("b".to_string(), FileId(2));
    m.insert("a".to_string(), FileId(3));
    assert_eq!((m.get("a"), m.len()), (Some(FileId(3)), 2));
    assert!(!m.has_file(FileId(1)));
    assert_eq!(m.remove("a"), Some(FileId(3)));
    assert_eq!(m.remove("a"), None);
}

#[test]
fn only_a_sole_definition_counts() {
    let mut t = SymbolTable::new();
    t.add("run", FileId(1));
    assert_eq!(t.sole(FileId(9), "run"), Some(FileId(1)));
    assert_eq!(t.sole(FileId(1), "run"), None);
    t.add("run", FileId(2));
    assert_eq!(t.sole(FileId(9), "run"), None);
    t.remove("run", FileId(2));
    assert_eq!(t.sole(FileId(9), "run"), Some(FileId(1)));
}

#[test]
fn open_edges_by_their_ends() {
    let key = |src: i64, dst: i64| EdgeKey { src: FileId(src), dst: FileId(dst), kind: EdgeKind::Import };
    let mut o = OpenEdges::new();
    for (s, d) in [(2, 1), (1, 3), (1, 2), (1, 2)] {
        o.insert(key(s, d));
    }
    assert_eq!(o.outs(FileId(1)), vec![key(1, 2), key(1, 3)]);
    assert_eq!(o.ins(FileId(1)), vec![key(2, 1)]);
    o.drop_outs(FileId(1));
    assert!(!o.contains(key(1, 2)) && o.contains(key(2, 1)));
    o.drop_file(FileId(1));
    assert!(!o.contains(key(2, 1)));
}

#[test]
fn codes_and_words_read_back() {
    for k in [EdgeKind::Import, EdgeKind::Call, EdgeKind::TypeRef, EdgeKind::DocRef, EdgeKind::Reexport] {
        assert_eq!(EdgeKind::from_i64(k.to_i64()), Some(k));
        assert_eq!(EdgeKind::parse(k.as_str()), Some(k));
    }
    assert_eq!(EdgeKind::from_i64(5), None);
    assert_eq!(EdgeKind::parse("imports"), None);
    for r in [Resolution::PathExact, Resolution::SymbolName, Resolution::Heuristic] {
        assert_eq!(Resolution::from_i64(r.to_i64()), Some(r));
    }
    assert_eq!(Resolution::from_i64(-1), None);
    assert_eq!(Resolution::Heuristic.as_str(), "heuristic");
    for c in [ChangeKind::Added, ChangeKind::Modified, ChangeKind::Deleted, ChangeKind::Renamed] {
        assert_eq!(ChangeKind::from_i64(c.to_i64()), Some(c));
    }
    assert_eq!(ChangeKind::Renamed.as_str(), "R");
}

#[test]
fn resolutions_only_get_better() {
    assert_eq!(finer(2, Resolution::PathExact), Some(0));
    assert_eq!(finer(1, Resolution::Heuristic), None);
    assert_eq!(finer(1, Resolution::SymbolName), None);
}

#[test]
fn versions_and_failures() {
    assert!(check_version(&Some("1".to_string())).is_ok());
    let wrong = check_version(&Some("99".to_string())).err().unwrap();
    assert_eq!(
        classify_error(&wrong),
        (4, "schema version mismatch: db has 99, this build expects 1; re-run `pal index`".to_string())
    );
    assert!(check_version(&None).is_err());
    assert_eq!(
        classify_error(&Failure::Missing("x.db".to_string())),
        (2, "database not found at x.db; run `pal index` first".to_string())
    );
    assert_eq!(
        classify_error(&Failure::Query(QueryError::FileNotFound("f".to_string()))),
        (3, "file not found in history: f".to_string())
    );
    assert_eq!(classify_error(&Failure::Query(QueryError::Other("o".to_string()))).0, 1);
    assert_eq!(classify_error(&Failure::Other("o".to_string())), (1, "o".to_string()));
}

#[test]
fn stale_indexes_say_so() {
    assert_eq!(staleness_caveat("a", "a", None), None);
    assert_eq!(
        staleness_caveat("a", "b", Some(3)),
        Some("index is 3 commits behind HEAD; run `pal index --incremental`".to_string())
    );
    assert_eq!(
        staleness_caveat("a", "b", None),
        Some("index head does not match repository HEAD; run `pal index --incremental`".to_string())
    );
}

#[test]
fn responses_end_with_the_stale_caveat() {
    let own = list(&["deleted at HEAD"]);
    let stale = staleness_caveat("a", "b", None);
    let all = response_caveats(&own, &stale);
    assert_eq!(all.len(), 2);
    assert_eq!(all[0], "deleted at HEAD");
    assert_eq!(Some(&all[1]), stale.as_ref());
    assert_eq!(response_caveats(&own, &None), own);
}

#[test]
fn recorded_thresholds() {
    assert_eq!(load_params(&Some("7".to_string())).max_commit_files, 7);
    assert_eq!(load_params(&Some("many".to_string())).max_commit_files, 50);
    assert_eq!(load_params(&None).min_cochange_n, 3);
}
