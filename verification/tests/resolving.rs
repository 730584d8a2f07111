use palimpsest::lang::Lang;
use palimpsest::model::{EdgeKind, FileId, Resolution};
use palimpsest::parsed::{ImportRef, ParsedFile};
use palimpsest::resolve::{
    normalize_path, python_package_root, resolve_doc, resolve_file, resolve_go, resolve_js, resolve_py, resolve_ruby,
    resolve_rust, unique_symbol, ResolveCtx,
};
use palimpsest::tables::{CrateMap, PathMap, SymbolTable};

fn ctx_fixture() -> (PathMap, SymbolTable) {
    let mut live = PathMap::new();
    live.insert("src/encoder.ts".to_string(), FileId(1));
    live.insert("src/frame.ts".to_string(), FileId(2));
    live.insert("src/util/index.ts".to_string(), FileId(3));
    live.insert("pkg/__init__.py".to_string(), FileId(4));
    live.insert("pkg/frame.py".to_string(), FileId(5));
    live.insert("pkg/sub/enc.py".to_string(), FileId(6));
    live.insert("src/lib.rs".to_string(), FileId(7));
    live.insert("src/codec/mod.rs".to_string(), FileId(8));
    live.insert("src/codec/frame.rs".to_string(), FileId(9));
    let mut symbols = SymbolTable::new();
    symbols.add("FrameCodec", FileId(2));
    symbols.add("ambiguous", FileId(2));
    symbols.add("ambiguous", FileId(3));
    (live, symbols)
}

#[test]
fn js_relative_and_index() {
    let (live, symbols) = ctx_fixture();
    let rc = CrateMap::new();
    let ctx = ResolveCtx { live: &live, symbols: &symbols, go_module: None, rust_crates: &rc };
    assert_eq!(resolve_js(&ctx, "src/encoder.ts", "./frame"), Some((FileId(2), Resolution::PathExact)));
    assert_eq!(resolve_js(&ctx, "src/encoder.ts", "./util"), Some((FileId(3), Resolution::PathExact)));
    assert_eq!(resolve_js(&ctx, "src/encoder.ts", "react"), None);
}

#[test]
fn py_relative_and_absolute() {
    let (live, symbols) = ctx_fixture();
    let rc = CrateMap::new();
    let ctx = ResolveCtx { live: &live, symbols: &symbols, go_module: None, rust_crates: &rc };
    assert_eq!(resolve_py(&ctx, "pkg/sub/enc.py", "..frame"), Some((FileId(5), Resolution::PathExact)));
    assert_eq!(resolve_py(&ctx, "pkg/sub/enc.py", "pkg.frame"), Some((FileId(5), Resolution::PathExact)));
    assert_eq!(resolve_py(&ctx, "pkg/sub/enc.py", "numpy"), None);
}

#[test]
fn rust_crate_paths() {
    let (live, symbols) = ctx_fixture();
    let rc = CrateMap::new();
    let ctx = ResolveCtx { live: &live, symbols: &symbols, go_module: None, rust_crates: &rc };
    assert_eq!(
        resolve_rust(&ctx, "src/main.rs", "crate::codec::frame::Frame"),
        Some((FileId(9), Resolution::PathExact))
    );
    assert_eq!(resolve_rust(&ctx, "src/codec/frame.rs", "super::mod"), None);
    assert_eq!(resolve_rust(&ctx, "src/lib.rs", "mod:codec"), Some((FileId(8), Resolution::PathExact)));
}

#[test]
fn ambiguous_symbol_dropped() {
    let (live, symbols) = ctx_fixture();
    let rc = CrateMap::new();
    let ctx = ResolveCtx { live: &live, symbols: &symbols, go_module: None, rust_crates: &rc };
    assert_eq!(unique_symbol(&ctx, FileId(1), "FrameCodec"), Some(FileId(2)));
    assert_eq!(unique_symbol(&ctx, FileId(1), "ambiguous"), None);
    // The only definer being the asker itself resolves to nothing.
    assert_eq!(unique_symbol(&ctx, FileId(2), "FrameCodec"), None);
}

#[test]
fn paths_are_normalized() {
    assert_eq!(normalize_path("a/./b/../c"), "a/c");
    assert_eq!(normalize_path("../../a"), "a");
    assert_eq!(normalize_path("a//b/"), "a/b");
    assert_eq!(normalize_path(""), "");
    let once = normalize_path("x/../y/./z");
    assert_eq!(normalize_path(&once), once);
}

#[test]
fn js_specifier_may_name_the_compiled_file() {
    let mut live = PathMap::new();
    live.insert("src/a.ts".to_string(), FileId(1));
    live.insert("src/b.ts".to_string(), FileId(2));
    let symbols = SymbolTable::new();
    let rc = CrateMap::new();
    let ctx = ResolveCtx { live: &live, symbols: &symbols, go_module: None, rust_crates: &rc };
    let hit = resolve_js(&ctx, "src/a.ts", "./b.js");
    assert_eq!(hit.map(|h| h.0), Some(FileId(2)));
}

#[test]
fn python_roots() {
    let (live, symbols) = ctx_fixture();
    let rc = CrateMap::new();
    let ctx = ResolveCtx { live: &live, symbols: &symbols, go_module: None, rust_crates: &rc };
    assert_eq!(python_package_root(&ctx, "pkg/frame.py"), Some("".to_string()));
    assert_eq!(python_package_root(&ctx, "tools/x.py"), None);
}

#[test]
fn go_packages_are_directories() {
    let mut live = PathMap::new();
    live.insert("internal/frame/b.go".to_string(), FileId(7));
    live.insert("internal/frame/a.go".to_string(), FileId(3));
    live.insert("internal/frame/a_test.go".to_string(), FileId(4));
    live.insert("internal/frame/sub/c.go".to_string(), FileId(5));
    live.insert("main.go".to_string(), FileId(1));
    let symbols = SymbolTable::new();
    let rc = CrateMap::new();
    let ctx = ResolveCtx { live: &live, symbols: &symbols, go_module: Some("example.com/mod"), rust_crates: &rc };
    let files = resolve_go(&ctx, "main.go", "example.com/mod/internal/frame");
    assert!(files.contains(&FileId(3)) && files.contains(&FileId(7)));
    assert!(!files.contains(&FileId(5)));
    let mut sorted = files.clone();
    sorted.sort();
    assert_eq!(files, sorted);
    assert!(resolve_go(&ctx, "main.go", "fmt").is_empty());
}

#[test]
fn ruby_relative_requires() {
    let mut live = PathMap::new();
    live.insert("lib/codec/base.rb".to_string(), FileId(1));
    live.insert("lib/x/enc.rb".to_string(), FileId(2));
    let symbols = SymbolTable::new();
    let rc = CrateMap::new();
    let ctx = ResolveCtx { live: &live, symbols: &symbols, go_module: None, rust_crates: &rc };
    let hit = resolve_ruby(&ctx, "lib/x/enc.rb", "rel:../codec/base");
    assert_eq!(hit.map(|h| h.0), Some(FileId(1)));
}

#[test]
fn a_file_resolves_to_edges_and_counts() {
    let (live, symbols) = ctx_fixture();
    let rc = CrateMap::new();
    let ctx = ResolveCtx { live: &live, symbols: &symbols, go_module: None, rust_crates: &rc };
    let mut p = ParsedFile::default();
    p.imports.push(ImportRef { spec: "./frame".to_string(), reexport: false, names: vec![] });
    p.imports.push(ImportRef { spec: "./missing".to_string(), reexport: false, names: vec![] });
    p.imports.push(ImportRef { spec: "react".to_string(), reexport: false, names: vec![] });
    p.imports.push(ImportRef { spec: "./util".to_string(), reexport: true, names: vec![] });
    p.calls.push("ambiguous".to_string());
    p.type_refs.push("FrameCodec".to_string());
    let r = resolve_file(&ctx, FileId(1), "src/encoder.ts", Lang::Ts, &p);
    assert_eq!(
        *r.edges.list(),
        vec![
            (FileId(2), EdgeKind::Import, Resolution::PathExact),
            (FileId(2), EdgeKind::TypeRef, Resolution::SymbolName),
            (FileId(3), EdgeKind::Reexport, Resolution::PathExact),
        ]
    );
    assert_eq!((r.imports_total, r.imports_resolved), (3, 2));
}

#[test]
fn a_file_never_points_at_itself() {
    let (live, symbols) = ctx_fixture();
    let rc = CrateMap::new();
    let ctx = ResolveCtx { live: &live, symbols: &symbols, go_module: None, rust_crates: &rc };
    let mut p = ParsedFile::default();
    p.imports.push(ImportRef { spec: "./frame".to_string(), reexport: false, names: vec![] });
    p.type_refs.push("FrameCodec".to_string());
    let r = resolve_file(&ctx, FileId(2), "src/frame.ts", Lang::Ts, &p);
    assert!(r.edges.list().is_empty());
}

#[test]
fn docs_link_to_paths_and_symbols() {
    let (live, symbols) = ctx_fixture();
    let rc = CrateMap::new();
    let ctx = ResolveCtx { live: &live, symbols: &symbols, go_module: None, rust_crates: &rc };
    let mut p = ParsedFile::default();
    p.doc_links.push("../src/encoder.ts".to_string());
    p.doc_tokens.push("FrameCodec".to_string());
    let r = resolve_doc(&ctx, FileId(50), "docs/guide.md", &p);
    let targets: Vec<FileId> = r.edges.list().iter().map(|e| e.0).collect();
    assert_eq!(targets, vec![FileId(1), FileId(2)]);
    assert!(r.edges.list().iter().all(|e| e.1 == EdgeKind::DocRef));
}
