//! The resolution ladder: relative path, config-aware roots, unique symbol
//! name, doc refs. Most-exact-first; ambiguity drops the edge rather than
//! guessing.

use crate::lang::Lang;
use crate::model::{EdgeKind, FileId, Resolution};
use crate::parsed::ParsedFile;
use crate::parsed;
use crate::tables::{CrateMap, EdgeSet, PathMap, SymbolTable};
use crate::tables;
use crate::text;
use crate::vcs;
use vstd::prelude::*;
use vstd::string::*;

pub mod edges;
pub mod laws;
pub mod packages;

verus! {

pub struct ResolveCtx<'a> {
    /// Live repo-relative path -> file id.
    pub live: &'a PathMap,
    /// Symbol name -> set of live files defining it.
    pub symbols: &'a SymbolTable,
    /// Module path from go.mod, when present.
    pub go_module: Option<&'a str>,
    /// Rust crate name -> src root dir (from workspace Cargo.toml files).
    pub rust_crates: &'a CrateMap,
}

/// What resolution reads.
pub struct CtxView {
    pub live: Map<Seq<char>, FileId>,
    pub order: Seq<(Seq<char>, FileId)>,
    pub symbols: Map<Seq<char>, Set<FileId>>,
    pub go_module: Option<Seq<char>>,
    pub rust_crates: Map<Seq<char>, Seq<char>>,
}

impl<'a> View for ResolveCtx<'a> {
    type V = CtxView;

    open spec fn view(&self) -> CtxView {
        CtxView {
            live: self.live@,
            order: self.live.order(),
            symbols: self.symbols@,
            go_module: match self.go_module {
                Some(m) => Some(m@),
                None => None,
            },
            rust_crates: self.rust_crates@,
        }
    }
}

// ---- paths ----

/// Segments with "." and empty ones dropped and ".." taking back the segment
/// before it.
pub open spec fn settled(segs: Seq<Seq<char>>) -> Seq<Seq<char>>
    decreases segs.len(),
{
    if segs.len() == 0 {
        Seq::empty()
    } else {
        let b = settled(segs.drop_last());
        let s = segs.last();
        if s.len() == 0 || s == "."@ {
            b
        } else if s == ".."@ {
            if b.len() > 0 {
                b.drop_last()
            } else {
                b
            }
        } else {
            b.push(s)
        }
    }
}

/// A path without empty, "." and ".." segments.
pub open spec fn normalized(path: Seq<char>) -> Seq<char> {
    text::join(settled(text::split(path, '/')), "/"@)
}

/// A path below a directory.
pub open spec fn below(dir: Seq<char>, rest: Seq<char>) -> Seq<char> {
    if dir.len() == 0 {
        rest
    } else {
        dir + "/"@ + rest
    }
}

pub fn normalize_path(path: &str) -> (r: String)
    ensures
        r@ == normalized(path@),
{
    let segs = text::split_on(path, '/');
    let ghost s = text::views(segs@);
    let mut out: Vec<String> = Vec::new();
    let mut i: usize = 0;
    assert(s.take(0) =~= Seq::<Seq<char>>::empty());
    assert(text::views(out@) =~= Seq::<Seq<char>>::empty());
    while i < segs.len()
        invariant
            i <= segs@.len(),
            s == text::views(segs@),
            text::views(out@) == settled(s.take(i as int)),
        decreases segs@.len() - i,
    {
        proof {
            assert(s.take(i + 1).drop_last() =~= s.take(i as int));
            assert(s.take(i + 1).last() == segs@[i as int]@);
        }
        let seg = segs[i].as_str();
        let ghost before = out@;
        if seg.unicode_len() == 0 || text::eq_str(seg, ".") {
        } else if text::eq_str(seg, "..") {
            out.pop();
            assert(text::views(out@) =~= (if before.len() > 0 {
                text::views(before).drop_last()
            } else {
                text::views(before)
            }));
        } else {
            proof {
                text::lemma_views_push(out@, segs@[i as int]);
            }
            out.push(segs[i].clone());
        }
        i += 1;
    }
    assert(s.take(i as int) =~= s);
    text::join_with(&out, "/")
}

/// A segment that stays in a normalized path.
pub open spec fn plain_segment(s: Seq<char>) -> bool {
    s.len() > 0 && s != "."@ && s != ".."@ && !s.contains('/')
}

/// What is settled is plain.
pub proof fn lemma_settled_plain(segs: Seq<Seq<char>>)
    requires
        forall|i: int| 0 <= i < segs.len() ==> !(#[trigger] segs[i]).contains('/'),
    ensures
        forall|i: int| 0 <= i < settled(segs).len() ==> plain_segment(#[trigger] settled(segs)[i]),
    decreases segs.len(),
{
    if segs.len() > 0 {
        let f = segs.drop_last();
        assert forall|i: int| 0 <= i < f.len() implies !(#[trigger] f[i]).contains('/') by {
            assert(f[i] == segs[i]);
        }
        lemma_settled_plain(f);
        assert(!segs[segs.len() - 1].contains('/'));
        let b = settled(f);
        let r = settled(segs);
        assert forall|i: int| 0 <= i < r.len() implies plain_segment(#[trigger] r[i]) by {
            if i < b.len() {
                assert(r[i] == b[i]);
            }
        }
    }
}

proof fn lemma_plain_settled(segs: Seq<Seq<char>>)
    requires
        forall|i: int| 0 <= i < segs.len() ==> plain_segment(#[trigger] segs[i]),
    ensures
        settled(segs) == segs,
    decreases segs.len(),
{
    if segs.len() > 0 {
        let f = segs.drop_last();
        assert forall|i: int| 0 <= i < f.len() implies plain_segment(#[trigger] f[i]) by {
            assert(f[i] == segs[i]);
        }
        lemma_plain_settled(f);
        assert(plain_segment(segs[segs.len() - 1]));
        assert(f.push(segs.last()) =~= segs);
    }
}

/// Law: a normalized path is empty or made of plain segments, and normalizing
/// it again changes nothing.
pub proof fn normalizing_settles(path: Seq<char>)
    ensures
        normalized(normalized(path)) == normalized(path),
        normalized(path).len() > 0 ==> forall|i: int|
            0 <= i < text::split(normalized(path), '/').len() ==> plain_segment(
                #[trigger] text::split(normalized(path), '/')[i],
            ),
{
    let segs = text::split(path, '/');
    assert forall|i: int| 0 <= i < segs.len() implies !(#[trigger] segs[i]).contains('/') by {
        text::lemma_split_piece(path, '/', i);
    }
    lemma_settled_plain(segs);
    let p = settled(segs);
    lemma_plain_settled(p);
    reveal_strlit("/");
    assert("/"@ =~= seq!['/']);
    if p.len() > 0 {
        assert forall|i: int| 0 <= i < p.len() implies !(#[trigger] p[i]).contains('/') by {
            assert(plain_segment(p[i]));
        }
        text::split_inverts_join(p, '/');
    } else {
        assert(text::split(normalized(path), '/') =~= seq![Seq::<char>::empty()]);
        assert(settled(text::split(normalized(path), '/')) =~= Seq::<Seq<char>>::empty()) by {
            assert(seq![Seq::<char>::empty()].drop_last() =~= Seq::<Seq<char>>::empty());
        }
    }
}

pub fn dir_of(path: &str) -> (r: &str)
    ensures
        r@ == vcs::dir_part(path@),
{
    vcs::parent_dir(path)
}

pub fn join(dir: &str, rest: &str) -> (r: String)
    ensures
        r@ == below(dir@, rest@),
{
    if dir.unicode_len() == 0 {
        rest.to_owned()
    } else {
        text::cat3(dir, "/", rest)
    }
}

/// The directory `n` levels up.
pub open spec fn up(dir: Seq<char>, n: nat) -> Seq<char>
    decreases n,
{
    if n == 0 {
        dir
    } else {
        up(vcs::dir_part(dir), (n - 1) as nat)
    }
}

/// The directory above is shorter.
pub proof fn lemma_dir_shorter(path: Seq<char>)
    requires
        path.len() > 0,
    ensures
        vcs::dir_part(path).len() < path.len(),
{
    text::lemma_last_index(path, '/');
}

// ---- candidates ----

/// The file at the first candidate path that is live.
pub open spec fn first_live(live: Map<Seq<char>, FileId>, cands: Seq<Seq<char>>) -> Option<FileId>
    decreases cands.len(),
{
    if cands.len() == 0 {
        None
    } else if live.contains_key(cands[0]) {
        Some(live[cands[0]])
    } else {
        first_live(live, cands.drop_first())
    }
}

/// A hit, with how it was found.
pub open spec fn found(hit: Option<FileId>, res: Resolution) -> Option<(FileId, Resolution)> {
    match hit {
        Some(id) => Some((id, res)),
        None => None,
    }
}

fn first_of(live: &PathMap, cands: &Vec<String>) -> (r: Option<FileId>)
    ensures
        r == first_live(live@, text::views(cands@)),
{
    let ghost s = text::views(cands@);
    let mut i: usize = 0;
    assert(s.skip(0) =~= s);
    while i < cands.len()
        invariant
            i <= cands@.len(),
            s == text::views(cands@),
            first_live(live@, s) == first_live(live@, s.skip(i as int)),
        decreases cands@.len() - i,
    {
        assert(s.skip(i as int)[0] == cands@[i as int]@);
        assert(s.skip(i as int).drop_first() =~= s.skip(i + 1));
        match live.get(cands[i].as_str()) {
            Some(id) => {
                return Some(id);
            },
            None => {},
        }
        i += 1;
    }
    assert(s.skip(i as int) =~= Seq::<Seq<char>>::empty());
    None
}

// ---- symbols ----

/// The one other file that defines a name. Where several do, none is taken.
pub open spec fn unique_definer(symbols: Map<Seq<char>, Set<FileId>>, src: FileId, name: Seq<char>) -> Option<FileId> {
    let set = tables::definers(symbols, name);
    if exists|t: FileId| #[trigger] tables::sole_definer(set, src, t) {
        Some(choose|t: FileId| #[trigger] tables::sole_definer(set, src, t))
    } else {
        None
    }
}

pub fn unique_symbol(ctx: &ResolveCtx, src: FileId, name: &str) -> (r: Option<FileId>)
    ensures
        r == unique_definer(ctx@.symbols, src, name@),
{
    let r = ctx.symbols.sole(src, name);
    proof {
        let set = tables::definers(ctx@.symbols, name@);
        match r {
            Some(t) => {
                let u = choose|u: FileId| #[trigger] tables::sole_definer(set, src, u);
                assert(tables::sole_definer(set, src, u));
                assert(set.contains(u));
            },
            None => {},
        }
    }
    r
}

/// Law: a name that two files besides the asker define resolves to nothing,
/// and one that exactly one of them defines resolves to that one.
pub proof fn ambiguity_drops(symbols: Map<Seq<char>, Set<FileId>>, src: FileId, name: Seq<char>, a: FileId, b: FileId)
    requires
        tables::definers(symbols, name).contains(a),
        a != src,
    ensures
        a != b && b != src && tables::definers(symbols, name).contains(b) ==> unique_definer(symbols, src, name)
            is None,
        (forall|u: FileId| #[trigger] tables::definers(symbols, name).contains(u) ==> u == src || u == a)
            ==> unique_definer(symbols, src, name) == Some(a),
{
    let set = tables::definers(symbols, name);
    if forall|u: FileId| #[trigger] set.contains(u) ==> u == src || u == a {
        assert(tables::sole_definer(set, src, a));
        let t = choose|t: FileId| #[trigger] tables::sole_definer(set, src, t);
        assert(set.contains(t));
    }
}

// ---- JavaScript ----

/// An ESM specifier names the emitted file while the source has another
/// ending: the source that such a path stands for.
pub open spec fn source_for(base: Seq<char>, from: Seq<char>, to: Seq<char>) -> Seq<Seq<char>> {
    if text::has_suffix(base, from) {
        seq![base.take(base.len() - from.len()) + to]
    } else {
        Seq::empty()
    }
}

/// A JavaScript module without its ending, or a directory with an index.
pub open spec fn js_endings(base: Seq<char>) -> Seq<Seq<char>> {
    seq![
        base + ".ts"@,
        base + ".tsx"@,
        base + ".d.ts"@,
        base + ".js"@,
        base + ".jsx"@,
        base + ".mjs"@,
        base + ".cjs"@,
        below(base, "index.ts"@),
        below(base, "index.tsx"@),
        below(base, "index.js"@),
        below(base, "index.jsx"@),
    ]
}

/// Where a JavaScript module may stand, most exact first.
pub open spec fn js_candidates(base: Seq<char>) -> Seq<Seq<char>> {
    seq![base] + source_for(base, ".js"@, ".ts"@) + source_for(base, ".jsx"@, ".tsx"@) + source_for(
        base,
        ".mjs"@,
        ".mts"@,
    ) + source_for(base, ".cjs"@, ".cts"@) + js_endings(base)
}

/// Where a CoffeeScript module may stand, most exact first.
pub open spec fn coffee_candidates(base: Seq<char>) -> Seq<Seq<char>> {
    seq![base, base + ".coffee"@, base + ".cjsx"@, below(base, "index.coffee"@)] + js_candidates(base)
}

/// Where a module of either language may stand.
pub open spec fn module_candidates(base: Seq<char>, coffee: bool) -> Seq<Seq<char>> {
    if coffee {
        coffee_candidates(base)
    } else {
        js_candidates(base)
    }
}

/// The module at a path.
pub open spec fn module_at(live: Map<Seq<char>, FileId>, path: Seq<char>, coffee: bool) -> Option<FileId> {
    first_live(live, module_candidates(normalized(path), coffee))
}

/// A specifier relative to the importing file.
pub open spec fn relative_spec(spec: Seq<char>) -> bool {
    text::has_prefix(spec, "./"@) || text::has_prefix(spec, "../"@) || spec == "."@ || spec == ".."@
}

/// The module that a specifier names. A bare specifier is tried against the
/// repo root and a conventional src/ root before giving up.
pub open spec fn module_target(
    live: Map<Seq<char>, FileId>,
    src_path: Seq<char>,
    spec: Seq<char>,
    coffee: bool,
) -> Option<(FileId, Resolution)> {
    if relative_spec(spec) {
        found(module_at(live, below(vcs::dir_part(src_path), spec), coffee), Resolution::PathExact)
    } else if module_at(live, spec, coffee) is Some {
        found(module_at(live, spec, coffee), Resolution::Heuristic)
    } else {
        found(module_at(live, "src/"@ + spec, coffee), Resolution::Heuristic)
    }
}

fn push_source(out: &mut Vec<String>, base: &str, from: &str, to: &str)
    ensures
        text::views(final(out)@) == text::views(old(out)@) + source_for(base@, from@, to@),
{
    let ghost before = text::views(out@);
    if text::ends_with(base, from) {
        let n = base.unicode_len();
        let m = from.unicode_len();
        let stem = text::head_text(base, n - m);
        let path = text::cat2(stem.as_str(), to);
        proof {
            text::lemma_views_push(out@, path);
        }
        out.push(path);
    }
    assert(text::views(out@) =~= before + source_for(base@, from@, to@));
}

fn push_text(out: &mut Vec<String>, s: String)
    ensures
        text::views(final(out)@) == text::views(old(out)@).push(s@),
{
    proof {
        text::lemma_views_push(out@, s);
    }
    out.push(s);
}

fn js_ending_paths(base: &str) -> (r: Vec<String>)
    ensures
        text::views(r@) == js_endings(base@),
{
    let mut out: Vec<String> = Vec::new();
    out.push(text::cat2(base, ".ts"));
    out.push(text::cat2(base, ".tsx"));
    out.push(text::cat2(base, ".d.ts"));
    out.push(text::cat2(base, ".js"));
    out.push(text::cat2(base, ".jsx"));
    out.push(text::cat2(base, ".mjs"));
    out.push(text::cat2(base, ".cjs"));
    out.push(join(base, "index.ts"));
    out.push(join(base, "index.tsx"));
    out.push(join(base, "index.js"));
    out.push(join(base, "index.jsx"));
    assert(text::views(out@) =~= js_endings(base@));
    out
}

fn js_paths(base: &str) -> (r: Vec<String>)
    ensures
        text::views(r@) == js_candidates(base@),
{
    let mut out: Vec<String> = Vec::new();
    out.push(base.to_owned());
    assert(text::views(out@) =~= seq![base@]);
    push_source(&mut out, base, ".js", ".ts");
    push_source(&mut out, base, ".jsx", ".tsx");
    push_source(&mut out, base, ".mjs", ".mts");
    push_source(&mut out, base, ".cjs", ".cts");
    let mut endings = js_ending_paths(base);
    let ghost a = out@;
    let ghost b = endings@;
    out.append(&mut endings);
    assert(text::views(out@) =~= text::views(a) + text::views(b));
    out
}

fn module_paths(base: &str, coffee: bool) -> (r: Vec<String>)
    ensures
        text::views(r@) == module_candidates(base@, coffee),
{
    let mut js = js_paths(base);
    if !coffee {
        return js;
    }
    let mut out: Vec<String> = Vec::new();
    out.push(base.to_owned());
    out.push(text::cat2(base, ".coffee"));
    out.push(text::cat2(base, ".cjsx"));
    out.push(join(base, "index.coffee"));
    let ghost a = out@;
    let ghost b = js@;
    assert(text::views(a) =~= seq![base@, base@ + ".coffee"@, base@ + ".cjsx"@, below(base@, "index.coffee"@)]);
    out.append(&mut js);
    assert(text::views(out@) =~= text::views(a) + text::views(b));
    out
}

fn module_hit(live: &PathMap, path: &str, coffee: bool) -> (r: Option<FileId>)
    ensures
        r == module_at(live@, path@, coffee),
{
    let base = normalize_path(path);
    let cands = module_paths(base.as_str(), coffee);
    first_of(live, &cands)
}

fn resolve_module(ctx: &ResolveCtx, src_path: &str, spec: &str, coffee: bool) -> (r: Option<(FileId, Resolution)>)
    ensures
        r == module_target(ctx@.live, src_path@, spec@, coffee),
{
    if text::starts_with(spec, "./") || text::starts_with(spec, "../") || text::eq_str(spec, ".") || text::eq_str(
        spec,
        "..",
    ) {
        let path = join(dir_of(src_path), spec);
        return match module_hit(ctx.live, path.as_str(), coffee) {
            Some(id) => Some((id, Resolution::PathExact)),
            None => None,
        };
    }
    // Bare specifier: try repo-root resolution and a conventional src/ root
    // before giving up. Externals fall through to None and are dropped.
    match module_hit(ctx.live, spec, coffee) {
        Some(id) => Some((id, Resolution::Heuristic)),
        None => {
            let path = text::cat2("src/", spec);
            match module_hit(ctx.live, path.as_str(), coffee) {
                Some(id) => Some((id, Resolution::Heuristic)),
                None => None,
            }
        },
    }
}

pub fn resolve_js(ctx: &ResolveCtx, src_path: &str, spec: &str) -> (r: Option<(FileId, Resolution)>)
    ensures
        r == module_target(ctx@.live, src_path@, spec@, false),
{
    resolve_module(ctx, src_path, spec, false)
}

pub fn resolve_coffee(ctx: &ResolveCtx, src_path: &str, spec: &str) -> (r: Option<(FileId, Resolution)>)
    ensures
        r == module_target(ctx@.live, src_path@, spec@, true),
{
    resolve_module(ctx, src_path, spec, true)
}

// ---- Python ----

/// The module file or package at a path.
pub open spec fn py_at(live: Map<Seq<char>, FileId>, path: Seq<char>) -> Option<FileId> {
    let base = normalized(path);
    if base.len() == 0 {
        None
    } else {
        first_live(live, seq![base + ".py"@, below(base, "__init__.py"@)])
    }
}

/// How many characters `c` a text starts with.
pub open spec fn run_of(s: Seq<char>, c: char) -> nat
    decreases s.len(),
{
    if s.len() > 0 && s[0] == c {
        1 + run_of(s.drop_first(), c)
    } else {
        0
    }
}

/// The directory above the topmost package containing a directory, judged by
/// the presence of __init__.py files in the live tree.
pub open spec fn package_root(live: Map<Seq<char>, FileId>, dir: Seq<char>, root: Option<Seq<char>>) -> Option<
    Seq<char>,
>
    decreases dir.len(),
{
    if dir.len() == 0 || !live.contains_key(below(dir, "__init__.py"@)) {
        root
    } else {
        proof {
            lemma_dir_shorter(dir);
        }
        package_root(live, vcs::dir_part(dir), Some(vcs::dir_part(dir)))
    }
}

/// What a relative import names: one dot is the current package, each further
/// dot goes up one package.
pub open spec fn py_relative(live: Map<Seq<char>, FileId>, src_path: Seq<char>, behind_dot: Seq<char>) -> Option<
    (FileId, Resolution),
> {
    let dots = run_of(behind_dot, '.');
    let rest = behind_dot.skip(dots as int);
    let dir = up(vcs::dir_part(src_path), dots);
    if rest.len() == 0 {
        found(first_live(live, seq![below(dir, "__init__.py"@)]), Resolution::PathExact)
    } else {
        found(py_at(live, below(dir, text::swap_char(rest, '.', '/'))), Resolution::PathExact)
    }
}

/// What an absolute import names: repo root, then src/, then the importing
/// file's own topmost package root.
pub open spec fn py_absolute(live: Map<Seq<char>, FileId>, src_path: Seq<char>, spec: Seq<char>) -> Option<
    (FileId, Resolution),
> {
    let path = text::swap_char(spec, '.', '/');
    if py_at(live, path) is Some {
        found(py_at(live, path), Resolution::PathExact)
    } else if py_at(live, "src/"@ + path) is Some {
        found(py_at(live, "src/"@ + path), Resolution::PathExact)
    } else {
        match package_root(live, vcs::dir_part(src_path), None) {
            Some(root) => found(py_at(live, below(root, path)), Resolution::Heuristic),
            None => None,
        }
    }
}

pub open spec fn py_target(live: Map<Seq<char>, FileId>, src_path: Seq<char>, spec: Seq<char>) -> Option<
    (FileId, Resolution),
> {
    if spec.len() > 0 && spec[0] == '.' {
        py_relative(live, src_path, spec.skip(1))
    } else {
        py_absolute(live, src_path, spec)
    }
}

fn py_hit(live: &PathMap, path: &str) -> (r: Option<FileId>)
    ensures
        r == py_at(live@, path@),
{
    let base = normalize_path(path);
    if base.as_str().unicode_len() == 0 {
        return None;
    }
    let mut cands: Vec<String> = Vec::new();
    cands.push(text::cat2(base.as_str(), ".py"));
    cands.push(join(base.as_str(), "__init__.py"));
    assert(text::views(cands@) =~= seq![base@ + ".py"@, below(base@, "__init__.py"@)]);
    first_of(live, &cands)
}

/// The directory above the topmost package containing this file, judged by
/// the presence of __init__.py files in the live tree.
pub fn python_package_root(ctx: &ResolveCtx, src_path: &str) -> (r: Option<String>)
    ensures
        text::opt_view(r) == package_root(ctx@.live, vcs::dir_part(src_path@), None),
{
    let mut dir: String = dir_of(src_path).to_owned();
    let mut root: Option<String> = None;
    loop
        invariant
            package_root(ctx@.live, vcs::dir_part(src_path@), None) == package_root(
                ctx@.live,
                dir@,
                text::opt_view(root),
            ),
        decreases dir@.len(),
    {
        if dir.as_str().unicode_len() == 0 {
            return root;
        }
        let init = join(dir.as_str(), "__init__.py");
        if !ctx.live.contains_key(init.as_str()) {
            return root;
        }
        proof {
            lemma_dir_shorter(dir@);
        }
        let above: String = dir_of(dir.as_str()).to_owned();
        root = Some(above.clone());
        dir = above;
    }
}

fn dots_in_front(v: &Vec<char>) -> (r: usize)
    ensures
        r == run_of(v@, '.'),
        r <= v@.len(),
{
    let mut i: usize = 0;
    assert(v@.skip(0) =~= v@);
    while i < v.len() && v[i] == '.'
        invariant
            i <= v@.len(),
            run_of(v@, '.') == i + run_of(v@.skip(i as int), '.'),
        decreases v@.len() - i,
    {
        assert(v@.skip(i as int).drop_first() =~= v@.skip(i + 1));
        i += 1;
    }
    i
}

pub fn resolve_py(ctx: &ResolveCtx, src_path: &str, spec: &str) -> (r: Option<(FileId, Resolution)>)
    ensures
        r == py_target(ctx@.live, src_path@, spec@),
{
    let v = text::to_chars(spec);
    if v.len() > 0 && v[0] == '.' {
        let stripped = text::tail_text(spec, 1);
        let sv = text::to_chars(stripped.as_str());
        let extra = dots_in_front(&sv);
        let rest = text::tail_text(stripped.as_str(), extra);
        let mut dir: String = dir_of(src_path).to_owned();
        let mut i: usize = 0;
        while i < extra
            invariant
                i <= extra,
                up(vcs::dir_part(src_path@), extra as nat) == up(dir@, (extra - i) as nat),
            decreases extra - i,
        {
            dir = dir_of(dir.as_str()).to_owned();
            i += 1;
        }
        if rest.as_str().unicode_len() == 0 {
            // "from . import x": the package itself.
            let mut cands: Vec<String> = Vec::new();
            cands.push(join(dir.as_str(), "__init__.py"));
            assert(text::views(cands@) =~= seq![below(dir@, "__init__.py"@)]);
            return match first_of(ctx.live, &cands) {
                Some(id) => Some((id, Resolution::PathExact)),
                None => None,
            };
        }
        let rel = text::replace_char(rest.as_str(), '.', '/');
        let path = join(dir.as_str(), rel.as_str());
        return match py_hit(ctx.live, path.as_str()) {
            Some(id) => Some((id, Resolution::PathExact)),
            None => None,
        };
    }
    let path_form = text::replace_char(spec, '.', '/');
    match py_hit(ctx.live, path_form.as_str()) {
        Some(id) => {
            return Some((id, Resolution::PathExact));
        },
        None => {},
    }
    let under_src = text::cat2("src/", path_form.as_str());
    match py_hit(ctx.live, under_src.as_str()) {
        Some(id) => {
            return Some((id, Resolution::PathExact));
        },
        None => {},
    }
    match python_package_root(ctx, src_path) {
        Some(root) => {
            let path = join(root.as_str(), path_form.as_str());
            match py_hit(ctx.live, path.as_str()) {
                Some(id) => Some((id, Resolution::Heuristic)),
                None => None,
            }
        },
        None => None,
    }
}

// ---- Rust ----

/// The nearest directory at or above `dir` that holds a crate's root file.
pub open spec fn crate_dir(live: Map<Seq<char>, FileId>, dir: Seq<char>) -> Option<Seq<char>>
    decreases dir.len(),
{
    if live.contains_key(below(dir, "lib.rs"@)) || live.contains_key(below(dir, "main.rs"@)) {
        Some(dir)
    } else if dir.len() == 0 {
        None
    } else {
        proof {
            lemma_dir_shorter(dir);
        }
        crate_dir(live, vcs::dir_part(dir))
    }
}

/// Where the module that a `mod` declaration names may stand. A mod declared
/// in foo.rs looks in foo/ when there is no sibling.
pub open spec fn mod_candidates(src_path: Seq<char>, name: Seq<char>) -> Seq<Seq<char>> {
    let dir = vcs::dir_part(src_path);
    seq![
        normalized(below(dir, name + ".rs"@)),
        normalized(below(dir, name + "/mod.rs"@)),
        normalized(below(dir, vcs::stem_part(src_path) + "/"@ + name + ".rs"@)),
    ]
}

/// The segments of a path.
pub open spec fn rust_segments(spec: Seq<char>) -> Seq<Seq<char>> {
    text::split_text(spec, "::"@).filter(|s: Seq<char>| s.len() > 0)
}

/// How many segments `super` a path starts with.
pub open spec fn supers(segs: Seq<Seq<char>>) -> nat
    decreases segs.len(),
{
    if segs.len() > 0 && segs[0] == "super"@ {
        1 + supers(segs.drop_first())
    } else {
        0
    }
}

/// Where a path starts: the directory, the segments below it, and whether the
/// directory is a crate's root. Nothing for paths that leave the repository.
pub open spec fn rust_start(
    live: Map<Seq<char>, FileId>,
    crates: Map<Seq<char>, Seq<char>>,
    src_path: Seq<char>,
    segs: Seq<Seq<char>>,
) -> Option<(Seq<char>, Seq<Seq<char>>, bool)> {
    let dir = vcs::dir_part(src_path);
    let first = segs[0];
    if first == "crate"@ {
        match crate_dir(live, dir) {
            Some(root) => Some((root, segs.skip(1), true)),
            None => None,
        }
    } else if first == "self"@ {
        Some((dir, segs.skip(1), false))
    } else if first == "super"@ {
        Some((up(dir, supers(segs)), segs.skip(supers(segs) as int), false))
    } else if first == "std"@ || first == "core"@ || first == "alloc"@ {
        None
    } else if crates.contains_key(text::swap_char(first, '-', '_')) {
        Some((crates[text::swap_char(first, '-', '_')], segs.skip(1), true))
    } else {
        None
    }
}

/// The files that a module path below a directory may stand for.
pub open spec fn module_files(root: Seq<char>, path: Seq<Seq<char>>) -> Seq<Seq<char>> {
    let prefix = text::join(path, "/"@);
    seq![normalized(below(root, prefix + ".rs"@)), normalized(below(root, prefix + "/mod.rs"@))]
}

/// The candidates other than the importing file.
pub open spec fn others(cands: Seq<Seq<char>>, src_path: Seq<char>) -> Seq<Seq<char>> {
    cands.filter(|c: Seq<char>| c != src_path)
}

/// The file of the longest prefix of at most `n` segments that names a
/// module.
pub open spec fn longest_module(
    live: Map<Seq<char>, FileId>,
    src_path: Seq<char>,
    root: Seq<char>,
    body: Seq<Seq<char>>,
    n: nat,
) -> Option<FileId>
    decreases n,
{
    if n == 0 {
        None
    } else {
        match first_live(live, others(module_files(root, body.take(n as int)), src_path)) {
            Some(id) => Some(id),
            None => longest_module(live, src_path, root, body, (n - 1) as nat),
        }
    }
}

/// What a path below a directory names. `use crate::Foo` (or
/// `other_crate::Foo`) resolves to that crate's root file.
pub open spec fn rust_below(
    live: Map<Seq<char>, FileId>,
    src_path: Seq<char>,
    root: Seq<char>,
    body: Seq<Seq<char>>,
    crate_rooted: bool,
) -> Option<FileId> {
    match longest_module(live, src_path, root, body, body.len()) {
        Some(id) => Some(id),
        None => if crate_rooted && body.len() <= 1 {
            first_live(live, others(seq![below(root, "lib.rs"@), below(root, "main.rs"@)], src_path))
        } else {
            None
        },
    }
}

pub open spec fn rust_target(
    live: Map<Seq<char>, FileId>,
    crates: Map<Seq<char>, Seq<char>>,
    src_path: Seq<char>,
    spec: Seq<char>,
) -> Option<(FileId, Resolution)> {
    if text::has_prefix(spec, "mod:"@) {
        found(first_live(live, mod_candidates(src_path, spec.skip(4))), Resolution::PathExact)
    } else if rust_segments(spec).len() == 0 {
        None
    } else {
        match rust_start(live, crates, src_path, rust_segments(spec)) {
            Some((root, body, crate_rooted)) => found(
                rust_below(live, src_path, root, body, crate_rooted),
                Resolution::PathExact,
            ),
            None => None,
        }
    }
}

pub fn rust_crate_root(ctx: &ResolveCtx, src_path: &str) -> (r: Option<String>)
    ensures
        text::opt_view(r) == crate_dir(ctx@.live, vcs::dir_part(src_path@)),
{
    let mut dir: String = dir_of(src_path).to_owned();
    loop
        invariant
            crate_dir(ctx@.live, vcs::dir_part(src_path@)) == crate_dir(ctx@.live, dir@),
        decreases dir@.len(),
    {
        let lib = join(dir.as_str(), "lib.rs");
        let main = join(dir.as_str(), "main.rs");
        if ctx.live.contains_key(lib.as_str()) || ctx.live.contains_key(main.as_str()) {
            return Some(dir);
        }
        if dir.as_str().unicode_len() == 0 {
            return None;
        }
        proof {
            lemma_dir_shorter(dir@);
        }
        dir = dir_of(dir.as_str()).to_owned();
    }
}

fn first_other(live: &PathMap, cands: &Vec<String>, src_path: &str) -> (r: Option<FileId>)
    ensures
        r == first_live(live@, others(text::views(cands@), src_path@)),
{
    let ghost s = text::views(cands@);
    let ghost f = |c: Seq<char>| c != src_path@;
    let mut kept: Vec<String> = Vec::new();
    let mut i: usize = 0;
    proof {
        reveal(Seq::filter);
        assert(s.take(0) =~= Seq::<Seq<char>>::empty());
        assert(text::views(kept@) =~= s.take(0).filter(f));
    }
    while i < cands.len()
        invariant
            i <= cands@.len(),
            s == text::views(cands@),
            f == (|c: Seq<char>| c != src_path@),
            text::views(kept@) == s.take(i as int).filter(f),
        decreases cands@.len() - i,
    {
        proof {
            reveal(Seq::filter);
            assert(s.take(i + 1).drop_last() =~= s.take(i as int));
            assert(s[i as int] == cands@[i as int]@);
        }
        if !text::eq_str(cands[i].as_str(), src_path) {
            push_text(&mut kept, cands[i].clone());
        }
        i += 1;
    }
    assert(s.take(i as int) =~= s);
    first_of(live, &kept)
}

fn segments_of(spec: &str) -> (r: Vec<String>)
    ensures
        text::views(r@) == rust_segments(spec@),
{
    proof {
        reveal_strlit("::");
    }
    let parts = text::split_on_text(spec, "::");
    let ghost s = text::views(parts@);
    let ghost f = |x: Seq<char>| x.len() > 0;
    let mut out: Vec<String> = Vec::new();
    let mut i: usize = 0;
    proof {
        reveal(Seq::filter);
        assert(s.take(0) =~= Seq::<Seq<char>>::empty());
        assert(text::views(out@) =~= s.take(0).filter(f));
    }
    while i < parts.len()
        invariant
            i <= parts@.len(),
            s == text::views(parts@),
            f == (|x: Seq<char>| x.len() > 0),
            text::views(out@) == s.take(i as int).filter(f),
        decreases parts@.len() - i,
    {
        proof {
            reveal(Seq::filter);
            assert(s.take(i + 1).drop_last() =~= s.take(i as int));
            assert(s[i as int] == parts@[i as int]@);
        }
        if parts[i].as_str().unicode_len() > 0 {
            push_text(&mut out, parts[i].clone());
        }
        i += 1;
    }
    assert(s.take(i as int) =~= s);
    out
}

fn copy_range(v: &Vec<String>, from: usize, to: usize) -> (r: Vec<String>)
    requires
        from <= to <= v@.len(),
    ensures
        text::views(r@) == text::views(v@).subrange(from as int, to as int),
{
    let mut out: Vec<String> = Vec::new();
    let mut i: usize = from;
    while i < to
        invariant
            from <= i <= to <= v@.len(),
            out@.len() == i - from,
            forall|k: int| 0 <= k < i - from ==> (#[trigger] out@[k])@ == v@[from + k]@,
        decreases to - i,
    {
        out.push(v[i].clone());
        i += 1;
    }
    assert(text::views(out@) =~= text::views(v@).subrange(from as int, to as int));
    out
}

fn count_supers(segs: &Vec<String>) -> (r: usize)
    ensures
        r == supers(text::views(segs@)),
        r <= segs@.len(),
{
    let ghost s = text::views(segs@);
    let mut i: usize = 0;
    assert(s.skip(0) =~= s);
    while i < segs.len() && text::eq_str(segs[i].as_str(), "super")
        invariant
            i <= segs@.len(),
            s == text::views(segs@),
            supers(s) == i + supers(s.skip(i as int)),
        decreases segs@.len() - i,
    {
        assert(s.skip(i as int)[0] == segs@[i as int]@);
        assert(s.skip(i as int).drop_first() =~= s.skip(i + 1));
        i += 1;
    }
    proof {
        if i < segs@.len() {
            assert(s.skip(i as int)[0] == segs@[i as int]@);
        }
    }
    i
}

fn start_of(ctx: &ResolveCtx, src_path: &str, segs: &Vec<String>) -> (r: Option<(String, Vec<String>, bool)>)
    requires
        segs@.len() > 0,
    ensures
        match r {
            Some((root, body, rooted)) => rust_start(
                ctx@.live,
                ctx@.rust_crates,
                src_path@,
                text::views(segs@),
            ) == Some((root@, text::views(body@), rooted)),
            None => rust_start(ctx@.live, ctx@.rust_crates, src_path@, text::views(segs@)) is None,
        },
{
    let ghost s = text::views(segs@);
    let n = segs.len();
    let first = segs[0].as_str();
    assert(s[0] == first@);
    let rest = copy_range(segs, 1, n);
    assert(text::views(rest@) =~= s.skip(1));
    if text::eq_str(first, "crate") {
        return match rust_crate_root(ctx, src_path) {
            Some(root) => Some((root, rest, true)),
            None => None,
        };
    }
    if text::eq_str(first, "self") {
        return Some((dir_of(src_path).to_owned(), rest, false));
    }
    if text::eq_str(first, "super") {
        let k = count_supers(segs);
        let mut d: String = dir_of(src_path).to_owned();
        let mut i: usize = 0;
        while i < k
            invariant
                i <= k,
                up(vcs::dir_part(src_path@), k as nat) == up(d@, (k - i) as nat),
            decreases k - i,
        {
            d = dir_of(d.as_str()).to_owned();
            i += 1;
        }
        let body = copy_range(segs, k, n);
        assert(text::views(body@) =~= s.skip(k as int));
        return Some((d, body, false));
    }
    if text::eq_str(first, "std") || text::eq_str(first, "core") || text::eq_str(first, "alloc") {
        return None;
    }
    let name = text::replace_char(first, '-', '_');
    match ctx.rust_crates.get(name.as_str()) {
        Some(root) => Some((root, rest, true)),
        None => None,
    }
}

fn module_below(ctx: &ResolveCtx, src_path: &str, root: &str, body: &Vec<String>, crate_rooted: bool) -> (r: Option<
    FileId,
>)
    ensures
        r == rust_below(ctx@.live, src_path@, root@, text::views(body@), crate_rooted),
{
    let ghost b = text::views(body@);
    let mut n: usize = body.len();
    while n > 0
        invariant
            n <= body@.len(),
            b == text::views(body@),
            longest_module(ctx@.live, src_path@, root@, b, b.len()) == longest_module(
                ctx@.live,
                src_path@,
                root@,
                b,
                n as nat,
            ),
        decreases n,
    {
        let path = copy_range(body, 0, n);
        assert(text::views(path@) =~= b.take(n as int));
        let prefix = text::join_with(&path, "/");
        let file = text::cat2(prefix.as_str(), ".rs");
        let package = text::cat2(prefix.as_str(), "/mod.rs");
        let mut cands: Vec<String> = Vec::new();
        let below_file = join(root, file.as_str());
        let below_package = join(root, package.as_str());
        cands.push(normalize_path(below_file.as_str()));
        cands.push(normalize_path(below_package.as_str()));
        assert(text::views(cands@) =~= module_files(root@, b.take(n as int)));
        match first_other(ctx.live, &cands, src_path) {
            Some(id) => {
                return Some(id);
            },
            None => {},
        }
        n -= 1;
    }
    if crate_rooted && body.len() <= 1 {
        let mut cands: Vec<String> = Vec::new();
        cands.push(join(root, "lib.rs"));
        cands.push(join(root, "main.rs"));
        assert(text::views(cands@) =~= seq![below(root@, "lib.rs"@), below(root@, "main.rs"@)]);
        return first_other(ctx.live, &cands, src_path);
    }
    None
}

pub fn resolve_rust(ctx: &ResolveCtx, src_path: &str, spec: &str) -> (r: Option<(FileId, Resolution)>)
    ensures
        r == rust_target(ctx@.live, ctx@.rust_crates, src_path@, spec@),
{
    proof {
        reveal_strlit("mod:");
    }
    if text::starts_with(spec, "mod:") {
        let name = text::tail_text(spec, 4);
        let dir = dir_of(src_path);
        let file = text::cat2(name.as_str(), ".rs");
        let package = text::cat2(name.as_str(), "/mod.rs");
        let inside = text::cat3(vcs::file_stem(src_path), "/", name.as_str());
        let inner = text::cat2(inside.as_str(), ".rs");
        let a = join(dir, file.as_str());
        let b = join(dir, package.as_str());
        let c = join(dir, inner.as_str());
        let mut cands: Vec<String> = Vec::new();
        cands.push(normalize_path(a.as_str()));
        cands.push(normalize_path(b.as_str()));
        cands.push(normalize_path(c.as_str()));
        assert(text::views(cands@) =~= mod_candidates(src_path@, name@));
        return match first_of(ctx.live, &cands) {
            Some(id) => Some((id, Resolution::PathExact)),
            None => None,
        };
    }
    let segs = segments_of(spec);
    assert(text::views(segs@).len() == segs@.len());
    if segs.len() == 0 {
        return None;
    }
    match start_of(ctx, src_path, &segs) {
        Some((root, body, crate_rooted)) => {
            match module_below(ctx, src_path, root.as_str(), &body, crate_rooted) {
                Some(id) => Some((id, Resolution::PathExact)),
                None => None,
            }
        },
        None => None,
    }
}

// ---- Go ----

/// A package import leads to as many files at most.
pub const MAX_GO_FILES: usize = 20;

/// The directory of the repository that an import path names.
pub open spec fn go_dir(module: Option<Seq<char>>, src_path: Seq<char>, spec: Seq<char>) -> Option<Seq<char>> {
    let inside = match module {
        Some(m) => if spec == m {
            Some(Seq::<char>::empty())
        } else if text::has_prefix(spec, m + "/"@) {
            Some(spec.skip(m.len() as int + 1))
        } else {
            None
        },
        None => None,
    };
    match inside {
        Some(d) => Some(d),
        None => if text::has_prefix(spec, "./"@) {
            Some(normalized(below(vcs::dir_part(src_path), spec)))
        } else {
            None
        },
    }
}

/// A Go source that stands directly in a directory, tests left out.
pub open spec fn go_source(dir: Seq<char>, path: Seq<char>) -> bool {
    let prefix = if dir.len() == 0 { Seq::empty() } else { dir + "/"@ };
    &&& text::has_suffix(path, ".go"@)
    &&& !text::has_suffix(path, "_test.go"@)
    &&& text::has_prefix(path, prefix)
    &&& !path.skip(prefix.len() as int).contains('/')
}

/// The Go sources of a directory among the entries, in their order.
pub open spec fn go_sources(order: Seq<(Seq<char>, FileId)>, dir: Seq<char>) -> Seq<FileId> {
    order.filter(|e: (Seq<char>, FileId)| go_source(dir, e.0)).map_values(|e: (Seq<char>, FileId)| e.1)
}

/// An id put into its place in an ascending list.
pub open spec fn ids_insert(s: Seq<FileId>, x: FileId) -> Seq<FileId>
    decreases s.len(),
{
    if s.len() == 0 || s.last().0 <= x.0 {
        s.push(x)
    } else {
        ids_insert(s.drop_last(), x).push(s.last())
    }
}

/// The ids in ascending order.
pub open spec fn ids_sorted(s: Seq<FileId>) -> Seq<FileId>
    decreases s.len(),
{
    if s.len() == 0 {
        Seq::empty()
    } else {
        ids_insert(ids_sorted(s.drop_last()), s.last())
    }
}

/// The files of the package that an import names, in ascending order.
pub open spec fn go_targets(
    module: Option<Seq<char>>,
    order: Seq<(Seq<char>, FileId)>,
    src_path: Seq<char>,
    spec: Seq<char>,
) -> Seq<FileId> {
    match go_dir(module, src_path, spec) {
        Some(dir) => {
            let all = go_sources(order, dir);
            ids_sorted(if all.len() > MAX_GO_FILES { all.take(MAX_GO_FILES as int) } else { all })
        },
        None => Seq::empty(),
    }
}

proof fn lemma_ids_insert_at(s: Seq<FileId>, x: FileId, i: int)
    requires
        0 <= i <= s.len(),
        forall|j: int| i <= j < s.len() ==> (#[trigger] s[j]).0 > x.0,
        i > 0 ==> s[i - 1].0 <= x.0,
    ensures
        ids_insert(s, x) == s.insert(i, x),
    decreases s.len(),
{
    if i == s.len() {
        assert(s.insert(i, x) =~= s.push(x));
    } else {
        lemma_ids_insert_at(s.drop_last(), x, i);
        assert(s.drop_last().insert(i, x).push(s.last()) =~= s.insert(i, x));
    }
}

/// Law: sorting ids gives an ascending list of the same ids.
pub proof fn sorting_ids(s: Seq<FileId>)
    ensures
        forall|i: int, j: int|
            0 <= i < j < ids_sorted(s).len() ==> (#[trigger] ids_sorted(s)[i]).0 <= (#[trigger] ids_sorted(s)[j]).0,
        ids_sorted(s).to_multiset() =~= s.to_multiset(),
        ids_sorted(s).len() == s.len(),
    decreases s.len(),
{
    broadcast use vstd::seq_lib::group_to_multiset_ensures;

    if s.len() > 0 {
        sorting_ids(s.drop_last());
        lemma_insert_ascends(ids_sorted(s.drop_last()), s.last());
        assert(s =~= s.drop_last().push(s.last()));
    }
}

proof fn lemma_insert_ascends(s: Seq<FileId>, x: FileId)
    requires
        forall|i: int, j: int| 0 <= i < j < s.len() ==> (#[trigger] s[i]).0 <= (#[trigger] s[j]).0,
    ensures
        forall|i: int, j: int|
            0 <= i < j < ids_insert(s, x).len() ==> (#[trigger] ids_insert(s, x)[i]).0 <= (#[trigger] ids_insert(
                s,
                x,
            )[j]).0,
        ids_insert(s, x).to_multiset() =~= s.to_multiset().insert(x),
        ids_insert(s, x).len() == s.len() + 1,
        forall|i: int|
            0 <= i < ids_insert(s, x).len() ==> (#[trigger] ids_insert(s, x)[i]) == x || s.contains(
                ids_insert(s, x)[i],
            ),
    decreases s.len(),
{
    broadcast use vstd::seq_lib::group_to_multiset_ensures;

    let r = ids_insert(s, x);
    if s.len() == 0 || s.last().0 <= x.0 {
        assert forall|i: int| 0 <= i < r.len() implies (#[trigger] r[i]) == x || s.contains(r[i]) by {
            if i < s.len() {
                assert(s[i] == r[i]);
            }
        }
        assert forall|i: int, j: int| 0 <= i < j < r.len() implies (#[trigger] r[i]).0 <= (#[trigger] r[j]).0 by {
            if j == s.len() && i < s.len() - 1 {
                assert(s[i].0 <= s[s.len() - 1].0);
            }
        }
    } else {
        let f = s.drop_last();
        lemma_insert_ascends(f, x);
        let g = ids_insert(f, x);
        assert forall|i: int| 0 <= i < r.len() implies (#[trigger] r[i]) == x || s.contains(r[i]) by {
            if i < g.len() {
                assert(r[i] == g[i]);
                if g[i] != x {
                    let k = f.index_of(g[i]);
                    assert(s[k] == r[i]);
                }
            } else {
                assert(s[s.len() - 1] == r[i]);
            }
        }
        assert forall|i: int, j: int| 0 <= i < j < r.len() implies (#[trigger] r[i]).0 <= (#[trigger] r[j]).0 by {
            if j == g.len() {
                if g[i] != x {
                    let k = f.index_of(g[i]);
                    assert(s[k].0 <= s[s.len() - 1].0);
                }
            } else {
                assert(g[i].0 <= g[j].0);
            }
        }
        assert(s =~= f.push(s.last()));
    }
}

fn go_directory(ctx: &ResolveCtx, src_path: &str, spec: &str) -> (r: Option<String>)
    ensures
        text::opt_view(r) == go_dir(ctx@.go_module, src_path@, spec@),
{
    proof {
        reveal_strlit("/");
        reveal_strlit("");
        assert(""@ =~= Seq::<char>::empty());
    }
    match ctx.go_module {
        Some(module) => {
            if text::eq_str(spec, module) {
                return Some("".to_owned());
            }
            let prefix = text::cat2(module, "/");
            if text::starts_with(spec, prefix.as_str()) {
                let n = prefix.as_str().unicode_len();
                return Some(text::tail_text(spec, n));
            }
        },
        None => {},
    }
    if text::starts_with(spec, "./") {
        let path = join(dir_of(src_path), spec);
        Some(normalize_path(path.as_str()))
    } else {
        None
    }
}

fn is_go_source(prefix: &str, path: &str) -> (r: bool)
    ensures
        r == (text::has_suffix(path@, ".go"@) && !text::has_suffix(path@, "_test.go"@) && text::has_prefix(
            path@,
            prefix@,
        ) && !path@.skip(prefix@.len() as int).contains('/')),
{
    if !text::ends_with(path, ".go") || text::ends_with(path, "_test.go") || !text::starts_with(path, prefix) {
        return false;
    }
    let n = prefix.unicode_len();
    let rest = text::tail_text(path, n);
    proof {
        text::lemma_first_index(rest@, '/');
    }
    match text::index_of(rest.as_str(), '/') {
        Some(i) => {
            assert(rest@.contains(rest@[i as int]));
            false
        },
        None => true,
    }
}

pub fn resolve_go(ctx: &ResolveCtx, src_path: &str, spec: &str) -> (r: Vec<FileId>)
    ensures
        r@ == go_targets(ctx@.go_module, ctx@.order, src_path@, spec@),
{
    let dir = match go_directory(ctx, src_path, spec) {
        Some(d) => d,
        None => {
            return Vec::new();
        },
    };
    // Package import: edge to each direct .go file in the directory.
    proof {
        reveal_strlit("");
        assert(""@ =~= Seq::<char>::empty());
    }
    let prefix = if dir.as_str().unicode_len() == 0 {
        "".to_owned()
    } else {
        text::cat2(dir.as_str(), "/")
    };
    let ghost o = ctx@.order;
    let ghost f = |e: (Seq<char>, FileId)| go_source(dir@, e.0);
    let ghost g = |e: (Seq<char>, FileId)| e.1;
    let mut picked: Vec<FileId> = Vec::new();
    let mut i: usize = 0;
    let n = ctx.live.len();
    proof {
        reveal(Seq::filter);
        assert(o.take(0) =~= Seq::<(Seq<char>, FileId)>::empty());
        assert(picked@ =~= o.take(0).filter(f).map_values(g));
    }
    while i < n && picked.len() < MAX_GO_FILES
        invariant
            i <= n,
            n == o.len(),
            o == ctx@.order,
            o == ctx.live.order(),
            prefix@ == (if dir@.len() == 0 { Seq::empty() } else { dir@ + "/"@ }),
            f == (|e: (Seq<char>, FileId)| go_source(dir@, e.0)),
            g == (|e: (Seq<char>, FileId)| e.1),
            picked@ == o.take(i as int).filter(f).map_values(g),
            picked@.len() <= MAX_GO_FILES,
        decreases n - i,
    {
        proof {
            reveal(Seq::filter);
            assert(o.take(i + 1).drop_last() =~= o.take(i as int));
        }
        let (path, id) = ctx.live.entry(i);
        if is_go_source(prefix.as_str(), path) {
            let ghost before = o.take(i as int).filter(f);
            picked.push(id);
            assert(before.push(o[i as int]).map_values(g) =~= before.map_values(g).push(id));
        }
        i += 1;
    }
    proof {
        let all = go_sources(o, dir@);
        lemma_filter_prefix(o, f, i as int);
        assert(o.filter(f).map_values(g) == all);
        if i == n {
            assert(o.take(i as int) =~= o);
            assert(picked@ =~= all.take(picked@.len() as int));
        } else {
            assert(picked@ =~= all.take(picked@.len() as int));
        }
    }
    let ghost chosen = picked@;
    let mut out: Vec<FileId> = Vec::new();
    let mut k: usize = 0;
    assert(chosen.take(0) =~= Seq::<FileId>::empty());
    while k < picked.len()
        invariant
            k <= picked@.len(),
            picked@ == chosen,
            out@ == ids_sorted(chosen.take(k as int)),
        decreases picked@.len() - k,
    {
        let x = picked[k];
        let ghost s = out@;
        let mut j: usize = out.len();
        while j > 0 && out[j - 1].0 > x.0
            invariant
                j <= out@.len(),
                out@ == s,
                forall|m: int| j <= m < s.len() ==> (#[trigger] s[m]).0 > x.0,
            decreases j,
        {
            j -= 1;
        }
        proof {
            lemma_ids_insert_at(s, x, j as int);
            assert(chosen.take(k + 1).drop_last() =~= chosen.take(k as int));
        }
        out.insert(j, x);
        k += 1;
    }
    assert(chosen.take(k as int) =~= chosen);
    proof {
        let all = go_sources(o, dir@);
        if all.len() <= MAX_GO_FILES {
            assert(chosen =~= all);
        }
    }
    out
}

/// What a filter keeps of a prefix is a prefix of what it keeps.
proof fn lemma_filter_prefix(o: Seq<(Seq<char>, FileId)>, f: spec_fn((Seq<char>, FileId)) -> bool, i: int)
    requires
        0 <= i <= o.len(),
    ensures
        o.take(i).filter(f).len() <= o.filter(f).len(),
        o.take(i).filter(f) == o.filter(f).take(o.take(i).filter(f).len() as int),
    decreases o.len() - i,
{
    reveal(Seq::filter);
    if i == o.len() {
        assert(o.take(i) =~= o);
        assert(o.filter(f).take(o.filter(f).len() as int) =~= o.filter(f));
    } else {
        lemma_filter_prefix(o, f, i + 1);
        assert(o.take(i + 1).drop_last() =~= o.take(i));
        let a = o.take(i).filter(f);
        let b = o.take(i + 1).filter(f);
        assert(a =~= b.take(a.len() as int));
        assert(o.filter(f).take(a.len() as int) =~= o.filter(f).take(b.len() as int).take(a.len() as int));
    }
}

// ---- Ruby ----

/// What a require names: a relative one stands below the importing file's own
/// directory, with or without the ending; others are left to symbols.
pub open spec fn ruby_target(live: Map<Seq<char>, FileId>, src_path: Seq<char>, spec: Seq<char>) -> Option<
    (FileId, Resolution),
> {
    if text::has_prefix(spec, "rel:"@) {
        let base = normalized(below(vcs::dir_part(src_path), spec.skip(4)));
        found(first_live(live, seq![base, base + ".rb"@]), Resolution::PathExact)
    } else {
        None
    }
}

pub fn resolve_ruby(ctx: &ResolveCtx, src_path: &str, spec: &str) -> (r: Option<(FileId, Resolution)>)
    ensures
        r == ruby_target(ctx@.live, src_path@, spec@),
{
    proof {
        reveal_strlit("rel:");
    }
    if !text::starts_with(spec, "rel:") {
        return None;
    }
    let rest = text::tail_text(spec, 4);
    let path = join(dir_of(src_path), rest.as_str());
    let base = normalize_path(path.as_str());
    let mut cands: Vec<String> = Vec::new();
    cands.push(base.clone());
    cands.push(text::cat2(base.as_str(), ".rb"));
    assert(text::views(cands@) =~= seq![base@, base@ + ".rb"@]);
    match first_of(ctx.live, &cands) {
        Some(id) => Some((id, Resolution::PathExact)),
        None => None,
    }
}

// ---- a whole file ----

/// The edges found for a file, and how many of its internal-shaped imports
/// were counted and resolved.
pub struct ResolvedEdges {
    pub edges: EdgeSet,
    pub imports_total: u64,
    pub imports_resolved: u64,
}

#[verifier::ext_equal]
pub struct ResolvedView {
    pub edges: Set<(FileId, EdgeKind, Resolution)>,
    pub total: int,
    pub resolved: int,
}

impl View for ResolvedEdges {
    type V = ResolvedView;

    open spec fn view(&self) -> ResolvedView {
        ResolvedView {
            edges: self.edges@,
            total: self.imports_total as int,
            resolved: self.imports_resolved as int,
        }
    }
}

/// Nothing resolved yet.
pub open spec fn nothing_resolved() -> ResolvedView {
    ResolvedView { edges: Set::empty(), total: 0, resolved: 0 }
}

/// With an edge, unless it leads back to the file itself.
pub open spec fn with_edge(acc: ResolvedView, src: FileId, t: FileId, kind: EdgeKind, res: Resolution) -> ResolvedView {
    if t == src {
        acc
    } else {
        ResolvedView { edges: acc.edges.insert((t, kind, res)), ..acc }
    }
}

/// With an edge to the one other file that defines a name, where there is
/// one.
pub open spec fn with_symbol(
    acc: ResolvedView,
    ctx: CtxView,
    src: FileId,
    name: Seq<char>,
    kind: EdgeKind,
    res: Resolution,
) -> ResolvedView {
    match unique_definer(ctx.symbols, src, name) {
        Some(t) => ResolvedView { edges: acc.edges.insert((t, kind, res)), ..acc },
        None => acc,
    }
}

/// With the edges of several names.
pub open spec fn with_symbols(
    acc: ResolvedView,
    ctx: CtxView,
    src: FileId,
    names: Seq<Seq<char>>,
    kind: EdgeKind,
    res: Resolution,
) -> ResolvedView
    decreases names.len(),
{
    if names.len() == 0 {
        acc
    } else {
        with_symbol(with_symbols(acc, ctx, src, names.drop_last(), kind, res), ctx, src, names.last(), kind, res)
    }
}

/// With the edges of imported names: by the last segment of each, where it is
/// long enough.
pub open spec fn with_import_names(acc: ResolvedView, ctx: CtxView, src: FileId, names: Seq<Seq<char>>) -> ResolvedView
    decreases names.len(),
{
    if names.len() == 0 {
        acc
    } else {
        let b = with_import_names(acc, ctx, src, names.drop_last());
        let last = text::after_last(names.last(), "."@);
        if text::byte_len(last) >= 3 {
            with_symbol(b, ctx, src, last, EdgeKind::Import, Resolution::SymbolName)
        } else {
            b
        }
    }
}

/// Only internal-shaped specifiers count toward the resolution health ratio; a
/// bare `torch` or `react` that stays unresolved is an external dependency,
/// not an indexing failure.
pub open spec fn internal_shaped(ctx: CtxView, lang: Lang, spec: Seq<char>) -> bool {
    match lang {
        Lang::Ts | Lang::Tsx | Lang::Js | Lang::Py | Lang::Coffee => text::has_prefix(spec, "."@),
        Lang::Rb => text::has_prefix(spec, "rel:"@),
        Lang::Rust => {
            let first = text::split_text(spec, "::"@)[0];
            ||| text::has_prefix(spec, "mod:"@)
            ||| first == "crate"@
            ||| first == "self"@
            ||| first == "super"@
            ||| ctx.rust_crates.contains_key(text::swap_char(first, '-', '_'))
        },
        Lang::Go => {
            ||| text::has_prefix(spec, "./"@)
            ||| match ctx.go_module {
                Some(m) => spec == m || text::has_prefix(spec, m + "/"@),
                None => false,
            }
        },
        Lang::Md => false,
    }
}

/// What a specifier names, in the languages where it names one file.
pub open spec fn import_target(ctx: CtxView, lang: Lang, src_path: Seq<char>, spec: Seq<char>) -> Option<
    (FileId, Resolution),
> {
    match lang {
        Lang::Ts | Lang::Tsx | Lang::Js => module_target(ctx.live, src_path, spec, false),
        Lang::Coffee => module_target(ctx.live, src_path, spec, true),
        Lang::Py => py_target(ctx.live, src_path, spec),
        Lang::Rust => rust_target(ctx.live, ctx.rust_crates, src_path, spec),
        Lang::Rb => ruby_target(ctx.live, src_path, spec),
        Lang::Go => None,
        Lang::Md => None,
    }
}

/// With the edges to the files of a package.
pub open spec fn with_package(acc: ResolvedView, src: FileId, files: Seq<FileId>, kind: EdgeKind) -> ResolvedView
    decreases files.len(),
{
    if files.len() == 0 {
        acc
    } else {
        with_edge(with_package(acc, src, files.drop_last(), kind), src, files.last(), kind, Resolution::Heuristic)
    }
}

pub open spec fn counted(acc: ResolvedView, total: bool, resolved: bool) -> ResolvedView {
    ResolvedView {
        total: acc.total + (if total { 1int } else { 0 }),
        resolved: acc.resolved + (if resolved { 1int } else { 0 }),
        ..acc
    }
}

/// What a specifier adds. A bare specifier that resolves against the repo
/// tree counts: it turned out to be internal after all. One that names no file
/// falls back to a unique symbol with the name of its last segment.
pub open spec fn with_spec(
    acc: ResolvedView,
    ctx: CtxView,
    src: FileId,
    src_path: Seq<char>,
    lang: Lang,
    spec: Seq<char>,
    kind: EdgeKind,
) -> ResolvedView {
    let internal = internal_shaped(ctx, lang, spec);
    if lang is Go {
        let files = go_targets(ctx.go_module, ctx.order, src_path, spec);
        with_package(counted(acc, internal, internal && files.len() > 0), src, files, kind)
    } else {
        match import_target(ctx, lang, src_path, spec) {
            Some((t, res)) => with_edge(counted(acc, true, true), src, t, kind, res),
            None => {
                let last = text::after_last(spec, ":./"@);
                if text::byte_len(last) >= 3 && unique_definer(ctx.symbols, src, last) is Some {
                    with_symbol(counted(acc, internal, internal), ctx, src, last, kind, Resolution::SymbolName)
                } else {
                    counted(acc, internal, false)
                }
            },
        }
    }
}

/// What an import adds: its names, and its specifier where it has one.
pub open spec fn with_import(
    acc: ResolvedView,
    ctx: CtxView,
    src: FileId,
    src_path: Seq<char>,
    lang: Lang,
    import: parsed::ImportView,
) -> ResolvedView {
    let b = with_import_names(acc, ctx, src, import.names);
    let kind = if import.reexport { EdgeKind::Reexport } else { EdgeKind::Import };
    if import.spec.len() == 0 {
        b
    } else {
        with_spec(b, ctx, src, src_path, lang, import.spec, kind)
    }
}

/// What the imports of a file add up to.
pub open spec fn imports_resolved(
    ctx: CtxView,
    src: FileId,
    src_path: Seq<char>,
    lang: Lang,
    imports: Seq<parsed::ImportView>,
) -> ResolvedView
    decreases imports.len(),
{
    if imports.len() == 0 {
        nothing_resolved()
    } else {
        with_import(
            imports_resolved(ctx, src, src_path, lang, imports.drop_last()),
            ctx,
            src,
            src_path,
            lang,
            imports.last(),
        )
    }
}

/// The paths of a link that are not empty: below the document's directory,
/// then from the repo root.
pub open spec fn link_candidates(src_path: Seq<char>, link: Seq<char>) -> Seq<Seq<char>> {
    let near = normalized(below(vcs::dir_part(src_path), link));
    let top = normalized(link);
    (if near.len() > 0 { seq![near] } else { Seq::empty() }) + (if top.len() > 0 { seq![top] } else { Seq::empty() })
}

/// What the links of a document add up to.
pub open spec fn links_resolved(ctx: CtxView, src: FileId, src_path: Seq<char>, links: Seq<Seq<char>>) -> ResolvedView
    decreases links.len(),
{
    if links.len() == 0 {
        nothing_resolved()
    } else {
        let b = links_resolved(ctx, src, src_path, links.drop_last());
        match first_live(ctx.live, link_candidates(src_path, links.last())) {
            Some(id) => with_edge(counted(b, true, true), src, id, EdgeKind::DocRef, Resolution::PathExact),
            None => counted(b, true, false),
        }
    }
}

/// The edges of a document.
pub open spec fn doc_resolved(ctx: CtxView, src: FileId, src_path: Seq<char>, p: parsed::ParsedView) -> ResolvedView {
    with_symbols(
        links_resolved(ctx, src, src_path, p.doc_links),
        ctx,
        src,
        p.doc_tokens,
        EdgeKind::DocRef,
        Resolution::Heuristic,
    )
}

/// The edges of a source file: its imports, then its call sites and type
/// references through unique symbols.
pub open spec fn source_resolved(
    ctx: CtxView,
    src: FileId,
    src_path: Seq<char>,
    lang: Lang,
    p: parsed::ParsedView,
) -> ResolvedView {
    let a = imports_resolved(ctx, src, src_path, lang, p.imports);
    let b = with_symbols(a, ctx, src, p.calls, EdgeKind::Call, Resolution::SymbolName);
    with_symbols(b, ctx, src, p.type_refs, EdgeKind::TypeRef, Resolution::SymbolName)
}

/// The edges of a file.
pub open spec fn file_resolved(
    ctx: CtxView,
    src: FileId,
    src_path: Seq<char>,
    lang: Lang,
    p: parsed::ParsedView,
) -> ResolvedView {
    if lang is Md {
        doc_resolved(ctx, src, src_path, p)
    } else {
        source_resolved(ctx, src, src_path, lang, p)
    }
}

impl ResolvedEdges {
    pub open spec fn wf(&self) -> bool {
        self.edges.wf()
    }

    fn new() -> (r: Self)
        ensures
            r@ == nothing_resolved(),
            r.wf(),
    {
        let r = ResolvedEdges { edges: EdgeSet::new(), imports_total: 0, imports_resolved: 0 };
        assert(r@ =~= nothing_resolved());
        r
    }

    fn add(&mut self, src: FileId, t: FileId, kind: EdgeKind, res: Resolution)
        requires
            old(self).wf(),
        ensures
            final(self).wf(),
            final(self)@ == with_edge(old(self)@, src, t, kind, res),
    {
        let ghost before = self@;
        if t != src {
            self.edges.insert((t, kind, res));
        }
        assert(self@ =~= with_edge(before, src, t, kind, res));
    }

    fn add_symbol(&mut self, ctx: &ResolveCtx, src: FileId, name: &str, kind: EdgeKind, res: Resolution)
        requires
            old(self).wf(),
        ensures
            final(self).wf(),
            final(self)@ == with_symbol(old(self)@, ctx@, src, name@, kind, res),
    {
        let ghost before = self@;
        match unique_symbol(ctx, src, name) {
            Some(t) => {
                self.edges.insert((t, kind, res));
            },
            None => {},
        }
        assert(self@ =~= with_symbol(before, ctx@, src, name@, kind, res));
    }

    fn add_symbols(&mut self, ctx: &ResolveCtx, src: FileId, names: &Vec<String>, kind: EdgeKind, res: Resolution)
        requires
            old(self).wf(),
        ensures
            final(self).wf(),
            final(self)@ == with_symbols(old(self)@, ctx@, src, text::views(names@), kind, res),
    {
        let ghost before = self@;
        let ghost s = text::views(names@);
        let mut i: usize = 0;
        assert(s.take(0) =~= Seq::<Seq<char>>::empty());
        while i < names.len()
            invariant
                i <= names@.len(),
                s == text::views(names@),
                self.wf(),
                self@ == with_symbols(before, ctx@, src, s.take(i as int), kind, res),
            decreases names@.len() - i,
        {
            assert(s.take(i + 1).drop_last() =~= s.take(i as int));
            assert(s.take(i + 1).last() == names@[i as int]@);
            self.add_symbol(ctx, src, names[i].as_str(), kind, res);
            i += 1;
        }
        assert(s.take(i as int) =~= s);
    }

    fn add_import_names(&mut self, ctx: &ResolveCtx, src: FileId, names: &Vec<String>)
        requires
            old(self).wf(),
        ensures
            final(self).wf(),
            final(self)@ == with_import_names(old(self)@, ctx@, src, text::views(names@)),
    {
        let ghost before = self@;
        let ghost s = text::views(names@);
        let mut i: usize = 0;
        assert(s.take(0) =~= Seq::<Seq<char>>::empty());
        while i < names.len()
            invariant
                i <= names@.len(),
                s == text::views(names@),
                self.wf(),
                self@ == with_import_names(before, ctx@, src, s.take(i as int)),
            decreases names@.len() - i,
        {
            assert(s.take(i + 1).drop_last() =~= s.take(i as int));
            assert(s.take(i + 1).last() == names@[i as int]@);
            let last = text::behind_last(names[i].as_str(), ".");
            if text::bytes_in(last.as_str()) >= 3 {
                self.add_symbol(ctx, src, last.as_str(), EdgeKind::Import, Resolution::SymbolName);
            }
            i += 1;
        }
        assert(s.take(i as int) =~= s);
    }

    fn count(&mut self, total: bool, resolved: bool)
        requires
            old(self).wf(),
            old(self).imports_total < u64::MAX,
            old(self).imports_resolved < u64::MAX,
        ensures
            final(self).wf(),
            final(self)@ == counted(old(self)@, total, resolved),
    {
        if total {
            self.imports_total = self.imports_total + 1;
        }
        if resolved {
            self.imports_resolved = self.imports_resolved + 1;
        }
    }

    fn add_package(&mut self, src: FileId, files: &Vec<FileId>, kind: EdgeKind)
        requires
            old(self).wf(),
        ensures
            final(self).wf(),
            final(self)@ == with_package(old(self)@, src, files@, kind),
    {
        let ghost before = self@;
        let mut i: usize = 0;
        assert(files@.take(0) =~= Seq::<FileId>::empty());
        while i < files.len()
            invariant
                i <= files@.len(),
                self.wf(),
                self@ == with_package(before, src, files@.take(i as int), kind),
            decreases files@.len() - i,
        {
            assert(files@.take(i + 1).drop_last() =~= files@.take(i as int));
            self.add(src, files[i], kind, Resolution::Heuristic);
            i += 1;
        }
        assert(files@.take(i as int) =~= files@);
    }

    fn add_spec(&mut self, ctx: &ResolveCtx, src: FileId, src_path: &str, lang: Lang, spec: &str, kind: EdgeKind)
        requires
            old(self).wf(),
            old(self).imports_total < u64::MAX,
            old(self).imports_resolved < u64::MAX,
        ensures
            final(self).wf(),
            final(self)@ == with_spec(old(self)@, ctx@, src, src_path@, lang, spec@, kind),
    {
        let internal = is_internal_shaped(ctx, lang, spec);
        let target = match lang {
            Lang::Go => {
                let files = resolve_go(ctx, src_path, spec);
                self.count(internal, internal && files.len() > 0);
                self.add_package(src, &files, kind);
                return ;
            },
            Lang::Ts | Lang::Tsx | Lang::Js => resolve_js(ctx, src_path, spec),
            Lang::Coffee => resolve_coffee(ctx, src_path, spec),
            Lang::Py => resolve_py(ctx, src_path, spec),
            Lang::Rust => resolve_rust(ctx, src_path, spec),
            Lang::Rb => resolve_ruby(ctx, src_path, spec),
            Lang::Md => None,
        };
        match target {
            Some((t, res)) => {
                self.count(true, true);
                self.add(src, t, kind, res);
            },
            None => {
                // Unique-symbol fallback on the last path segment.
                let last = text::behind_last(spec, ":./");
                if text::bytes_in(last.as_str()) >= 3 && unique_symbol(ctx, src, last.as_str()).is_some() {
                    self.count(internal, internal);
                    self.add_symbol(ctx, src, last.as_str(), kind, Resolution::SymbolName);
                } else {
                    self.count(internal, false);
                }
            },
        }
    }
}

fn is_internal_shaped(ctx: &ResolveCtx, lang: Lang, spec: &str) -> (r: bool)
    ensures
        r == internal_shaped(ctx@, lang, spec@),
{
    match lang {
        Lang::Ts | Lang::Tsx | Lang::Js | Lang::Py | Lang::Coffee => text::starts_with(spec, "."),
        Lang::Rb => text::starts_with(spec, "rel:"),
        Lang::Rust => {
            proof {
                reveal_strlit("::");
            }
            let parts = text::split_on_text(spec, "::");
            assert(text::views(parts@)[0] == parts@[0]@);
            let first = parts[0].as_str();
            let name = text::replace_char(first, '-', '_');
            text::starts_with(spec, "mod:") || text::eq_str(first, "crate") || text::eq_str(first, "self")
                || text::eq_str(first, "super") || ctx.rust_crates.contains_key(name.as_str())
        },
        Lang::Go => {
            text::starts_with(spec, "./") || match ctx.go_module {
                Some(m) => {
                    let prefix = text::cat2(m, "/");
                    text::eq_str(spec, m) || text::starts_with(spec, prefix.as_str())
                },
                None => false,
            }
        },
        Lang::Md => false,
    }
}

proof fn lemma_names_count(acc: ResolvedView, ctx: CtxView, src: FileId, names: Seq<Seq<char>>)
    ensures
        with_import_names(acc, ctx, src, names).total == acc.total,
        with_import_names(acc, ctx, src, names).resolved == acc.resolved,
    decreases names.len(),
{
    if names.len() > 0 {
        lemma_names_count(acc, ctx, src, names.drop_last());
    }
}

proof fn lemma_package_count(acc: ResolvedView, src: FileId, files: Seq<FileId>, kind: EdgeKind)
    ensures
        with_package(acc, src, files, kind).total == acc.total,
        with_package(acc, src, files, kind).resolved == acc.resolved,
    decreases files.len(),
{
    if files.len() > 0 {
        lemma_package_count(acc, src, files.drop_last(), kind);
    }
}

proof fn lemma_symbols_count(
    acc: ResolvedView,
    ctx: CtxView,
    src: FileId,
    names: Seq<Seq<char>>,
    kind: EdgeKind,
    res: Resolution,
)
    ensures
        with_symbols(acc, ctx, src, names, kind, res).total == acc.total,
        with_symbols(acc, ctx, src, names, kind, res).resolved == acc.resolved,
    decreases names.len(),
{
    if names.len() > 0 {
        lemma_symbols_count(acc, ctx, src, names.drop_last(), kind, res);
    }
}

proof fn lemma_imports_count(
    ctx: CtxView,
    src: FileId,
    src_path: Seq<char>,
    lang: Lang,
    imports: Seq<parsed::ImportView>,
)
    ensures
        ({
            let r = imports_resolved(ctx, src, src_path, lang, imports);
            0 <= r.resolved <= r.total <= imports.len()
        }),
    decreases imports.len(),
{
    if imports.len() > 0 {
        let a = imports_resolved(ctx, src, src_path, lang, imports.drop_last());
        let i = imports.last();
        lemma_imports_count(ctx, src, src_path, lang, imports.drop_last());
        lemma_names_count(a, ctx, src, i.names);
        let b = with_import_names(a, ctx, src, i.names);
        let kind = if i.reexport { EdgeKind::Reexport } else { EdgeKind::Import };
        let internal = internal_shaped(ctx, lang, i.spec);
        let files = go_targets(ctx.go_module, ctx.order, src_path, i.spec);
        lemma_package_count(counted(b, internal, internal && files.len() > 0), src, files, kind);
    }
}

proof fn lemma_links_count(ctx: CtxView, src: FileId, src_path: Seq<char>, links: Seq<Seq<char>>)
    ensures
        ({
            let r = links_resolved(ctx, src, src_path, links);
            0 <= r.resolved <= r.total == links.len()
        }),
    decreases links.len(),
{
    if links.len() > 0 {
        lemma_links_count(ctx, src, src_path, links.drop_last());
    }
}

/// Law: no more imports are resolved than counted. A document counts each of
/// its links, and a source no more than its imports.
pub proof fn resolved_within_counted(ctx: CtxView, src: FileId, src_path: Seq<char>, lang: Lang, p: parsed::ParsedView)
    ensures
        ({
            let r = file_resolved(ctx, src, src_path, lang, p);
            &&& 0 <= r.resolved <= r.total
            &&& lang is Md ==> r.total == p.doc_links.len()
            &&& !(lang is Md) ==> r.total <= p.imports.len()
        }),
{
    lemma_imports_count(ctx, src, src_path, lang, p.imports);
    lemma_links_count(ctx, src, src_path, p.doc_links);
    lemma_symbols_count(
        links_resolved(ctx, src, src_path, p.doc_links),
        ctx,
        src,
        p.doc_tokens,
        EdgeKind::DocRef,
        Resolution::Heuristic,
    );
    let a = imports_resolved(ctx, src, src_path, lang, p.imports);
    lemma_symbols_count(a, ctx, src, p.calls, EdgeKind::Call, Resolution::SymbolName);
    let b = with_symbols(a, ctx, src, p.calls, EdgeKind::Call, Resolution::SymbolName);
    lemma_symbols_count(b, ctx, src, p.type_refs, EdgeKind::TypeRef, Resolution::SymbolName);
}

/// A file has an entry in the order of live paths.
pub open spec fn has_entry(order: Seq<(Seq<char>, FileId)>, t: FileId) -> bool {
    exists|i: int| 0 <= i < order.len() && (#[trigger] order[i]).1 == t
}

/// A file defines a symbol.
pub open spec fn defines(symbols: Map<Seq<char>, Set<FileId>>, t: FileId) -> bool {
    exists|n: Seq<char>| #[trigger] tables::definers(symbols, n).contains(t)
}

/// Resolution knows a file: it has a live path or defines a symbol.
pub open spec fn known(ctx: CtxView, t: FileId) -> bool {
    ctx.live.contains_value(t) || has_entry(ctx.order, t) || defines(ctx.symbols, t)
}

/// There are finitely many edges, each leads to a known file, and none leads
/// to `src`.
pub open spec fn fair(ctx: CtxView, edges: Set<(FileId, EdgeKind, Resolution)>, src: FileId) -> bool {
    &&& edges.finite()
    &&& forall|e: (FileId, EdgeKind, Resolution)| #[trigger] edges.contains(e) ==> e.0 != src && known(ctx, e.0)
}

proof fn lemma_first_live(live: Map<Seq<char>, FileId>, cands: Seq<Seq<char>>)
    ensures
        first_live(live, cands) matches Some(t) ==> live.contains_value(t),
    decreases cands.len(),
{
    if cands.len() > 0 {
        if !live.contains_key(cands[0]) {
            lemma_first_live(live, cands.drop_first());
        }
    }
}

proof fn lemma_longest_live(
    live: Map<Seq<char>, FileId>,
    src_path: Seq<char>,
    root: Seq<char>,
    body: Seq<Seq<char>>,
    n: nat,
)
    ensures
        longest_module(live, src_path, root, body, n) matches Some(t) ==> live.contains_value(t),
    decreases n,
{
    if n > 0 {
        lemma_first_live(live, others(module_files(root, body.take(n as int)), src_path));
        lemma_longest_live(live, src_path, root, body, (n - 1) as nat);
    }
}

proof fn lemma_py_live(live: Map<Seq<char>, FileId>, path: Seq<char>)
    ensures
        py_at(live, path) matches Some(t) ==> live.contains_value(t),
{
    let base = normalized(path);
    lemma_first_live(live, seq![base + ".py"@, below(base, "__init__.py"@)]);
}

proof fn lemma_py_target_live(live: Map<Seq<char>, FileId>, src_path: Seq<char>, spec: Seq<char>)
    ensures
        py_target(live, src_path, spec) matches Some(t) ==> live.contains_value(t.0),
{
    if spec.len() > 0 && spec[0] == '.' {
        let behind = spec.skip(1);
        let dots = run_of(behind, '.');
        let rest = behind.skip(dots as int);
        let dir = up(vcs::dir_part(src_path), dots);
        lemma_first_live(live, seq![below(dir, "__init__.py"@)]);
        lemma_py_live(live, below(dir, text::swap_char(rest, '.', '/')));
    } else {
        let path = text::swap_char(spec, '.', '/');
        lemma_py_live(live, path);
        lemma_py_live(live, "src/"@ + path);
        match package_root(live, vcs::dir_part(src_path), None) {
            Some(root) => {
                lemma_py_live(live, below(root, path));
            },
            None => {},
        }
    }
}

proof fn lemma_rust_live(
    live: Map<Seq<char>, FileId>,
    crates: Map<Seq<char>, Seq<char>>,
    src_path: Seq<char>,
    spec: Seq<char>,
)
    ensures
        rust_target(live, crates, src_path, spec) matches Some(t) ==> live.contains_value(t.0),
{
    lemma_first_live(live, mod_candidates(src_path, spec.skip(4)));
    match rust_start(live, crates, src_path, rust_segments(spec)) {
        Some((root, body, crate_rooted)) => {
            lemma_longest_live(live, src_path, root, body, body.len());
            lemma_first_live(live, others(seq![below(root, "lib.rs"@), below(root, "main.rs"@)], src_path));
        },
        None => {},
    }
}

proof fn lemma_target_live(ctx: CtxView, lang: Lang, src_path: Seq<char>, spec: Seq<char>)
    ensures
        import_target(ctx, lang, src_path, spec) matches Some(t) ==> ctx.live.contains_value(t.0),
{
    let live = ctx.live;
    lemma_py_target_live(live, src_path, spec);
    lemma_rust_live(live, ctx.rust_crates, src_path, spec);
    let base = normalized(below(vcs::dir_part(src_path), spec.skip(4)));
    lemma_first_live(live, seq![base, base + ".rb"@]);
    let near = normalized(below(vcs::dir_part(src_path), spec));
    let top = normalized(spec);
    let src = normalized("src/"@ + spec);
    lemma_first_live(live, module_candidates(near, false));
    lemma_first_live(live, module_candidates(near, true));
    lemma_first_live(live, module_candidates(top, false));
    lemma_first_live(live, module_candidates(top, true));
    lemma_first_live(live, module_candidates(src, false));
    lemma_first_live(live, module_candidates(src, true));
}

proof fn lemma_go_entries(ctx: CtxView, src_path: Seq<char>, spec: Seq<char>)
    ensures
        forall|i: int|
            0 <= i < go_targets(ctx.go_module, ctx.order, src_path, spec).len() ==> has_entry(
                ctx.order,
                #[trigger] go_targets(ctx.go_module, ctx.order, src_path, spec)[i],
            ),
{
    let files = go_targets(ctx.go_module, ctx.order, src_path, spec);
    match go_dir(ctx.go_module, src_path, spec) {
        Some(dir) => {
            let all = go_sources(ctx.order, dir);
            let some = if all.len() > MAX_GO_FILES { all.take(MAX_GO_FILES as int) } else { all };
            let f = |e: (Seq<char>, FileId)| go_source(dir, e.0);
            sorting_ids(some);
            assert forall|i: int| 0 <= i < files.len() implies has_entry(ctx.order, #[trigger] files[i]) by {
                broadcast use vstd::seq_lib::group_to_multiset_ensures;

                assert(files.contains(files[i]));
                assert(files.to_multiset().contains(files[i]));
                assert(some.to_multiset().contains(files[i]));
                assert(some.contains(files[i]));
                let j = some.index_of(files[i]);
                let kept = ctx.order.filter(f);
                assert(all[j] == kept[j].1);
                assert(kept.contains(kept[j]));
                ctx.order.lemma_filter_contains_rev(f, kept[j]);
                let k = ctx.order.index_of(kept[j]);
                assert(ctx.order[k].1 == files[i]);
            }
        },
        None => {},
    }
}

proof fn lemma_definer_known(ctx: CtxView, src: FileId, name: Seq<char>)
    ensures
        unique_definer(ctx.symbols, src, name) matches Some(t) ==> t != src && known(ctx, t),
{
    match unique_definer(ctx.symbols, src, name) {
        Some(t) => {
            assert(tables::sole_definer(tables::definers(ctx.symbols, name), src, t));
            assert(tables::definers(ctx.symbols, name).contains(t));
        },
        None => {},
    }
}

proof fn lemma_symbols_fair(
    acc: ResolvedView,
    ctx: CtxView,
    src: FileId,
    names: Seq<Seq<char>>,
    kind: EdgeKind,
    res: Resolution,
)
    requires
        fair(ctx, acc.edges, src),
    ensures
        fair(ctx, with_symbols(acc, ctx, src, names, kind, res).edges, src),
    decreases names.len(),
{
    if names.len() > 0 {
        lemma_symbols_fair(acc, ctx, src, names.drop_last(), kind, res);
        lemma_definer_known(ctx, src, names.last());
    }
}

proof fn lemma_names_fair(acc: ResolvedView, ctx: CtxView, src: FileId, names: Seq<Seq<char>>)
    requires
        fair(ctx, acc.edges, src),
    ensures
        fair(ctx, with_import_names(acc, ctx, src, names).edges, src),
    decreases names.len(),
{
    if names.len() > 0 {
        lemma_names_fair(acc, ctx, src, names.drop_last());
        lemma_definer_known(ctx, src, text::after_last(names.last(), "."@));
    }
}

proof fn lemma_package_fair(acc: ResolvedView, ctx: CtxView, src: FileId, files: Seq<FileId>, kind: EdgeKind)
    requires
        fair(ctx, acc.edges, src),
        forall|i: int| 0 <= i < files.len() ==> has_entry(ctx.order, #[trigger] files[i]),
    ensures
        fair(ctx, with_package(acc, src, files, kind).edges, src),
    decreases files.len(),
{
    if files.len() > 0 {
        assert forall|i: int| 0 <= i < files.drop_last().len() implies has_entry(
            ctx.order,
            #[trigger] files.drop_last()[i],
        ) by {
            assert(has_entry(ctx.order, files[i]));
        }
        lemma_package_fair(acc, ctx, src, files.drop_last(), kind);
        assert(has_entry(ctx.order, files[files.len() - 1]));
    }
}

proof fn lemma_imports_fair(
    ctx: CtxView,
    src: FileId,
    src_path: Seq<char>,
    lang: Lang,
    imports: Seq<parsed::ImportView>,
)
    ensures
        fair(ctx, imports_resolved(ctx, src, src_path, lang, imports).edges, src),
    decreases imports.len(),
{
    if imports.len() > 0 {
        let a = imports_resolved(ctx, src, src_path, lang, imports.drop_last());
        let i = imports.last();
        lemma_imports_fair(ctx, src, src_path, lang, imports.drop_last());
        lemma_names_fair(a, ctx, src, i.names);
        let b = with_import_names(a, ctx, src, i.names);
        let kind = if i.reexport { EdgeKind::Reexport } else { EdgeKind::Import };
        let internal = internal_shaped(ctx, lang, i.spec);
        let files = go_targets(ctx.go_module, ctx.order, src_path, i.spec);
        lemma_go_entries(ctx, src_path, i.spec);
        lemma_package_fair(counted(b, internal, internal && files.len() > 0), ctx, src, files, kind);
        lemma_target_live(ctx, lang, src_path, i.spec);
        lemma_definer_known(ctx, src, text::after_last(i.spec, ":./"@));
    }
}

proof fn lemma_links_fair(ctx: CtxView, src: FileId, src_path: Seq<char>, links: Seq<Seq<char>>)
    ensures
        fair(ctx, links_resolved(ctx, src, src_path, links).edges, src),
    decreases links.len(),
{
    if links.len() > 0 {
        lemma_links_fair(ctx, src, src_path, links.drop_last());
        lemma_first_live(ctx.live, link_candidates(src_path, links.last()));
    }
}

/// Law: resolution gives finitely many edges, each to a file that has a live
/// path or defines a symbol, and never one from a file to itself.
pub proof fn resolution_is_fair(ctx: CtxView, src: FileId, src_path: Seq<char>, lang: Lang, p: parsed::ParsedView)
    ensures
        fair(ctx, file_resolved(ctx, src, src_path, lang, p).edges, src),
{
    lemma_imports_fair(ctx, src, src_path, lang, p.imports);
    lemma_links_fair(ctx, src, src_path, p.doc_links);
    lemma_symbols_fair(
        links_resolved(ctx, src, src_path, p.doc_links),
        ctx,
        src,
        p.doc_tokens,
        EdgeKind::DocRef,
        Resolution::Heuristic,
    );
    let a = imports_resolved(ctx, src, src_path, lang, p.imports);
    lemma_symbols_fair(a, ctx, src, p.calls, EdgeKind::Call, Resolution::SymbolName);
    let b = with_symbols(a, ctx, src, p.calls, EdgeKind::Call, Resolution::SymbolName);
    lemma_symbols_fair(b, ctx, src, p.type_refs, EdgeKind::TypeRef, Resolution::SymbolName);
}

/// All edges are references of documents, or none is.
pub open spec fn edges_of_docs(edges: Set<(FileId, EdgeKind, Resolution)>, doc: bool) -> bool {
    forall|e: (FileId, EdgeKind, Resolution)| #[trigger] edges.contains(e) ==> (e.1 == EdgeKind::DocRef) == doc
}

proof fn lemma_symbols_kind(
    acc: ResolvedView,
    ctx: CtxView,
    src: FileId,
    names: Seq<Seq<char>>,
    kind: EdgeKind,
    res: Resolution,
    doc: bool,
)
    requires
        edges_of_docs(acc.edges, doc),
        (kind == EdgeKind::DocRef) == doc,
    ensures
        edges_of_docs(with_symbols(acc, ctx, src, names, kind, res).edges, doc),
    decreases names.len(),
{
    if names.len() > 0 {
        lemma_symbols_kind(acc, ctx, src, names.drop_last(), kind, res, doc);
    }
}

proof fn lemma_names_kind(acc: ResolvedView, ctx: CtxView, src: FileId, names: Seq<Seq<char>>)
    requires
        edges_of_docs(acc.edges, false),
    ensures
        edges_of_docs(with_import_names(acc, ctx, src, names).edges, false),
    decreases names.len(),
{
    if names.len() > 0 {
        lemma_names_kind(acc, ctx, src, names.drop_last());
    }
}

proof fn lemma_package_kind(acc: ResolvedView, src: FileId, files: Seq<FileId>, kind: EdgeKind)
    requires
        edges_of_docs(acc.edges, false),
        kind != EdgeKind::DocRef,
    ensures
        edges_of_docs(with_package(acc, src, files, kind).edges, false),
    decreases files.len(),
{
    if files.len() > 0 {
        lemma_package_kind(acc, src, files.drop_last(), kind);
    }
}

proof fn lemma_imports_kind(
    ctx: CtxView,
    src: FileId,
    src_path: Seq<char>,
    lang: Lang,
    imports: Seq<parsed::ImportView>,
)
    ensures
        edges_of_docs(imports_resolved(ctx, src, src_path, lang, imports).edges, false),
    decreases imports.len(),
{
    if imports.len() > 0 {
        let a = imports_resolved(ctx, src, src_path, lang, imports.drop_last());
        let i = imports.last();
        lemma_imports_kind(ctx, src, src_path, lang, imports.drop_last());
        lemma_names_kind(a, ctx, src, i.names);
        let b = with_import_names(a, ctx, src, i.names);
        let kind = if i.reexport { EdgeKind::Reexport } else { EdgeKind::Import };
        let internal = internal_shaped(ctx, lang, i.spec);
        let files = go_targets(ctx.go_module, ctx.order, src_path, i.spec);
        lemma_package_kind(counted(b, internal, internal && files.len() > 0), src, files, kind);
    }
}

proof fn lemma_links_kind(ctx: CtxView, src: FileId, src_path: Seq<char>, links: Seq<Seq<char>>)
    ensures
        edges_of_docs(links_resolved(ctx, src, src_path, links).edges, true),
    decreases links.len(),
{
    if links.len() > 0 {
        lemma_links_kind(ctx, src, src_path, links.drop_last());
    }
}

/// Law: the edges out of a document are its references, and no other file has
/// such edges.
pub proof fn only_docs_refer(ctx: CtxView, src: FileId, src_path: Seq<char>, lang: Lang, p: parsed::ParsedView)
    ensures
        edges_of_docs(file_resolved(ctx, src, src_path, lang, p).edges, lang is Md),
{
    lemma_imports_kind(ctx, src, src_path, lang, p.imports);
    lemma_links_kind(ctx, src, src_path, p.doc_links);
    lemma_symbols_kind(
        links_resolved(ctx, src, src_path, p.doc_links),
        ctx,
        src,
        p.doc_tokens,
        EdgeKind::DocRef,
        Resolution::Heuristic,
        true,
    );
    let a = imports_resolved(ctx, src, src_path, lang, p.imports);
    lemma_symbols_kind(a, ctx, src, p.calls, EdgeKind::Call, Resolution::SymbolName, false);
    let b = with_symbols(a, ctx, src, p.calls, EdgeKind::Call, Resolution::SymbolName);
    lemma_symbols_kind(b, ctx, src, p.type_refs, EdgeKind::TypeRef, Resolution::SymbolName, false);
}

fn link_paths(src_path: &str, link: &str) -> (r: Vec<String>)
    ensures
        text::views(r@) == link_candidates(src_path@, link@),
{
    let joined = join(dir_of(src_path), link);
    let near = normalize_path(joined.as_str());
    let top = normalize_path(link);
    let mut cands: Vec<String> = Vec::new();
    let ghost nv = near@;
    let ghost tv = top@;
    if near.as_str().unicode_len() > 0 {
        cands.push(near);
    }
    if top.as_str().unicode_len() > 0 {
        cands.push(top);
    }
    assert(text::views(cands@) =~= link_candidates(src_path@, link@));
    cands
}

pub fn resolve_doc(ctx: &ResolveCtx, src: FileId, src_path: &str, parsed: &ParsedFile) -> (r: ResolvedEdges)
    ensures
        r@ == doc_resolved(ctx@, src, src_path@, parsed@),
        r.wf(),
{
    let mut out = ResolvedEdges::new();
    let ghost s = text::views(parsed.doc_links@);
    let n = parsed.doc_links.len();
    let mut i: usize = 0;
    assert(s.take(0) =~= Seq::<Seq<char>>::empty());
    while i < n
        invariant
            i <= n,
            n == parsed.doc_links@.len(),
            s == text::views(parsed.doc_links@),
            out.wf(),
            out@ == links_resolved(ctx@, src, src_path@, s.take(i as int)),
        decreases n - i,
    {
        proof {
            assert(s.take(i + 1).drop_last() =~= s.take(i as int));
            assert(s.take(i + 1).last() == parsed.doc_links@[i as int]@);
            lemma_links_count(ctx@, src, src_path@, s.take(i as int));
        }
        let cands = link_paths(src_path, parsed.doc_links[i].as_str());
        match first_of(ctx.live, &cands) {
            Some(id) => {
                out.count(true, true);
                out.add(src, id, EdgeKind::DocRef, Resolution::PathExact);
            },
            None => {
                out.count(true, false);
            },
        }
        i += 1;
    }
    assert(s.take(i as int) =~= s);
    out.add_symbols(ctx, src, &parsed.doc_tokens, EdgeKind::DocRef, Resolution::Heuristic);
    out
}

pub fn resolve_file(ctx: &ResolveCtx, src: FileId, src_path: &str, lang: Lang, parsed: &ParsedFile) -> (r: ResolvedEdges)
    ensures
        r@ == file_resolved(ctx@, src, src_path@, lang, parsed@),
        r.wf(),
{
    match lang {
        Lang::Md => {
            return resolve_doc(ctx, src, src_path, parsed);
        },
        _ => {},
    }
    let mut out = ResolvedEdges::new();
    let ghost s = parsed::import_views(parsed.imports@);
    let n = parsed.imports.len();
    let mut i: usize = 0;
    assert(s.take(0) =~= Seq::<parsed::ImportView>::empty());
    while i < n
        invariant
            i <= n,
            n == parsed.imports@.len(),
            s == parsed::import_views(parsed.imports@),
            out.wf(),
            out@ == imports_resolved(ctx@, src, src_path@, lang, s.take(i as int)),
        decreases n - i,
    {
        let import = &parsed.imports[i];
        proof {
            assert(s.take(i + 1).drop_last() =~= s.take(i as int));
            assert(s.take(i + 1).last() == import@);
            lemma_imports_count(ctx@, src, src_path@, lang, s.take(i as int));
            lemma_names_count(out@, ctx@, src, text::views(import.names@));
        }
        out.add_import_names(ctx, src, &import.names);
        if import.spec.as_str().unicode_len() > 0 {
            let kind = if import.reexport {
                EdgeKind::Reexport
            } else {
                EdgeKind::Import
            };
            out.add_spec(ctx, src, src_path, lang, import.spec.as_str(), kind);
        }
        i += 1;
    }
    assert(s.take(i as int) =~= s);
    out.add_symbols(ctx, src, &parsed.calls, EdgeKind::Call, Resolution::SymbolName);
    out.add_symbols(ctx, src, &parsed.type_refs, EdgeKind::TypeRef, Resolution::SymbolName);
    out
}

} // verus!
