//! Which edges a file has, over all parse results.

use crate::lang::Lang;
use crate::model::{EdgeKind, FileId, Resolution};
use crate::parsed;
use crate::resolve;
use crate::resolve::{CtxView, ResolvedView};
use crate::text;
use crate::vcs;
use vstd::prelude::*;

verus! {

/// An edge: where it leads, what it is and how it was found.
pub type Edge = (FileId, EdgeKind, Resolution);

/// The edge comes of one of the names, each of which leads to the one other
/// file that defines it.
pub open spec fn by_names(ctx: CtxView, src: FileId, names: Seq<Seq<char>>, kind: EdgeKind, res: Resolution, e: Edge) -> bool {
    &&& e.1 == kind
    &&& e.2 == res
    &&& exists|i: int|
        0 <= i < names.len() && resolve::unique_definer(ctx.symbols, src, #[trigger] names[i]) == Some(e.0)
}

/// The edge comes of one of the names of an import: of what stands behind its
/// last dot, where that has three bytes or more.
pub open spec fn by_imported_name(ctx: CtxView, src: FileId, names: Seq<Seq<char>>, e: Edge) -> bool {
    &&& e.1 == EdgeKind::Import
    &&& e.2 == Resolution::SymbolName
    &&& exists|i: int|
        0 <= i < names.len() && text::byte_len(text::after_last(#[trigger] names[i], "."@)) >= 3
            && resolve::unique_definer(ctx.symbols, src, text::after_last(names[i], "."@)) == Some(e.0)
}

/// The edge comes of a specifier: it leads to the file that this names or,
/// where it names none, to the one other file that defines its last segment,
/// where that has three bytes or more. A Go import leads to the files of the
/// package. None leads to the file itself.
pub open spec fn by_specifier(ctx: CtxView, src: FileId, src_path: Seq<char>, lang: Lang, spec: Seq<char>, e: Edge) -> bool {
    if lang is Go {
        &&& e.0 != src
        &&& e.2 == Resolution::Heuristic
        &&& resolve::go_targets(ctx.go_module, ctx.order, src_path, spec).contains(e.0)
    } else {
        match resolve::import_target(ctx, lang, src_path, spec) {
            Some((t, res)) => e.0 == t && e.2 == res && t != src,
            None => {
                &&& text::byte_len(text::after_last(spec, ":./"@)) >= 3
                &&& resolve::unique_definer(ctx.symbols, src, text::after_last(spec, ":./"@)) == Some(e.0)
                &&& e.2 == Resolution::SymbolName
            },
        }
    }
}

/// The edge comes of an import.
pub open spec fn by_import(
    ctx: CtxView,
    src: FileId,
    src_path: Seq<char>,
    lang: Lang,
    import: parsed::ImportView,
    e: Edge,
) -> bool {
    ||| by_imported_name(ctx, src, import.names, e)
    ||| {
        &&& import.spec.len() > 0
        &&& e.1 == (if import.reexport { EdgeKind::Reexport } else { EdgeKind::Import })
        &&& by_specifier(ctx, src, src_path, lang, import.spec, e)
    }
}

/// The edge comes of one of the imports.
pub open spec fn by_imports(
    ctx: CtxView,
    src: FileId,
    src_path: Seq<char>,
    lang: Lang,
    imports: Seq<parsed::ImportView>,
    e: Edge,
) -> bool {
    exists|i: int| 0 <= i < imports.len() && #[trigger] by_import(ctx, src, src_path, lang, imports[i], e)
}

/// The file that a link names: below the directory of the document or, where
/// none is live there, from the root of the repository.
pub open spec fn linked(ctx: CtxView, src_path: Seq<char>, link: Seq<char>) -> Option<FileId> {
    let near = resolve::normalized(resolve::below(vcs::dir_part(src_path), link));
    let top = resolve::normalized(link);
    if near.len() > 0 && ctx.live.contains_key(near) {
        Some(ctx.live[near])
    } else if top.len() > 0 && ctx.live.contains_key(top) {
        Some(ctx.live[top])
    } else {
        None
    }
}

/// The edge comes of one of the links.
pub open spec fn by_links(ctx: CtxView, src: FileId, src_path: Seq<char>, links: Seq<Seq<char>>, e: Edge) -> bool {
    &&& e.0 != src
    &&& e.1 == EdgeKind::DocRef
    &&& e.2 == Resolution::PathExact
    &&& exists|i: int| 0 <= i < links.len() && linked(ctx, src_path, #[trigger] links[i]) == Some(e.0)
}

proof fn lemma_symbols(
    acc: ResolvedView,
    ctx: CtxView,
    src: FileId,
    names: Seq<Seq<char>>,
    kind: EdgeKind,
    res: Resolution,
    e: Edge,
)
    ensures
        resolve::with_symbols(acc, ctx, src, names, kind, res).edges.contains(e) <==> acc.edges.contains(e) || by_names(
            ctx,
            src,
            names,
            kind,
            res,
            e,
        ),
    decreases names.len(),
{
    if names.len() > 0 {
        let f = names.drop_last();
        lemma_symbols(acc, ctx, src, f, kind, res, e);
        if by_names(ctx, src, f, kind, res, e) {
            let i = choose|i: int|
                0 <= i < f.len() && resolve::unique_definer(ctx.symbols, src, #[trigger] f[i]) == Some(e.0);
            assert(f[i] == names[i]);
        }
        if by_names(ctx, src, names, kind, res, e) {
            let i = choose|i: int|
                0 <= i < names.len() && resolve::unique_definer(ctx.symbols, src, #[trigger] names[i]) == Some(e.0);
            if i < f.len() {
                assert(f[i] == names[i]);
            }
        }
        assert(names[names.len() - 1] == names.last());
    }
}

proof fn lemma_imported_names(acc: ResolvedView, ctx: CtxView, src: FileId, names: Seq<Seq<char>>, e: Edge)
    ensures
        resolve::with_import_names(acc, ctx, src, names).edges.contains(e) <==> acc.edges.contains(e)
            || by_imported_name(ctx, src, names, e),
    decreases names.len(),
{
    if names.len() > 0 {
        let f = names.drop_last();
        lemma_imported_names(acc, ctx, src, f, e);
        if by_imported_name(ctx, src, f, e) {
            let i = choose|i: int|
                0 <= i < f.len() && text::byte_len(text::after_last(#[trigger] f[i], "."@)) >= 3
                    && resolve::unique_definer(ctx.symbols, src, text::after_last(f[i], "."@)) == Some(e.0);
            assert(f[i] == names[i]);
        }
        if by_imported_name(ctx, src, names, e) {
            let i = choose|i: int|
                0 <= i < names.len() && text::byte_len(text::after_last(#[trigger] names[i], "."@)) >= 3
                    && resolve::unique_definer(ctx.symbols, src, text::after_last(names[i], "."@)) == Some(e.0);
            if i < f.len() {
                assert(f[i] == names[i]);
            }
        }
        assert(names[names.len() - 1] == names.last());
    }
}

proof fn lemma_package(acc: ResolvedView, src: FileId, files: Seq<FileId>, kind: EdgeKind, e: Edge)
    ensures
        resolve::with_package(acc, src, files, kind).edges.contains(e) <==> acc.edges.contains(e) || (e.0 != src && e.1
            == kind && e.2 == Resolution::Heuristic && files.contains(e.0)),
    decreases files.len(),
{
    if files.len() > 0 {
        let f = files.drop_last();
        lemma_package(acc, src, f, kind, e);
        assert(files.contains(e.0) <==> f.contains(e.0) || files.last() == e.0) by {
            if files.contains(e.0) {
                let i = files.index_of(e.0);
                if i < f.len() {
                    assert(f[i] == e.0);
                }
            }
            if f.contains(e.0) {
                assert(files[f.index_of(e.0)] == e.0);
            }
            assert(files[files.len() - 1] == files.last());
        }
    }
}

proof fn lemma_imports(ctx: CtxView, src: FileId, src_path: Seq<char>, lang: Lang, imports: Seq<parsed::ImportView>, e: Edge)
    ensures
        resolve::imports_resolved(ctx, src, src_path, lang, imports).edges.contains(e) <==> by_imports(
            ctx,
            src,
            src_path,
            lang,
            imports,
            e,
        ),
    decreases imports.len(),
{
    if imports.len() > 0 {
        let f = imports.drop_last();
        let x = imports.last();
        lemma_imports(ctx, src, src_path, lang, f, e);
        let a = resolve::imports_resolved(ctx, src, src_path, lang, f);
        let b = resolve::with_import_names(a, ctx, src, x.names);
        lemma_imported_names(a, ctx, src, x.names, e);
        let kind = if x.reexport { EdgeKind::Reexport } else { EdgeKind::Import };
        if x.spec.len() > 0 {
            let internal = resolve::internal_shaped(ctx, lang, x.spec);
            let files = resolve::go_targets(ctx.go_module, ctx.order, src_path, x.spec);
            lemma_package(resolve::counted(b, internal, internal && files.len() > 0), src, files, kind, e);
        }
        assert(resolve::with_import(a, ctx, src, src_path, lang, x).edges.contains(e) <==> a.edges.contains(e)
            || by_import(ctx, src, src_path, lang, x, e));
        assert(imports[imports.len() - 1] == x);
        if by_imports(ctx, src, src_path, lang, f, e) {
            let i = choose|i: int| 0 <= i < f.len() && #[trigger] by_import(ctx, src, src_path, lang, f[i], e);
            assert(f[i] == imports[i]);
            assert(by_import(ctx, src, src_path, lang, imports[i], e));
        }
        if by_imports(ctx, src, src_path, lang, imports, e) {
            let i = choose|i: int|
                0 <= i < imports.len() && #[trigger] by_import(ctx, src, src_path, lang, imports[i], e);
            if i < f.len() {
                assert(f[i] == imports[i]);
                assert(by_import(ctx, src, src_path, lang, f[i], e));
            }
        }
    }
}

proof fn lemma_linked(ctx: CtxView, src_path: Seq<char>, link: Seq<char>)
    ensures
        resolve::first_live(ctx.live, resolve::link_candidates(src_path, link)) == linked(ctx, src_path, link),
{
    let c = resolve::link_candidates(src_path, link);
    let near = resolve::normalized(resolve::below(vcs::dir_part(src_path), link));
    let top = resolve::normalized(link);
    let b = if top.len() > 0 { seq![top] } else { Seq::<Seq<char>>::empty() };
    resolve::laws::lemma_first_of(ctx.live, top, Seq::empty());
    assert(seq![top] + Seq::<Seq<char>>::empty() =~= seq![top]);
    resolve::laws::lemma_first_of(ctx.live, near, b);
    assert(Seq::<Seq<char>>::empty() + b =~= b);
}

proof fn lemma_links(ctx: CtxView, src: FileId, src_path: Seq<char>, links: Seq<Seq<char>>, e: Edge)
    ensures
        resolve::links_resolved(ctx, src, src_path, links).edges.contains(e) <==> by_links(ctx, src, src_path, links, e),
    decreases links.len(),
{
    if links.len() > 0 {
        let f = links.drop_last();
        lemma_links(ctx, src, src_path, f, e);
        lemma_linked(ctx, src_path, links.last());
        assert(links[links.len() - 1] == links.last());
        if by_links(ctx, src, src_path, f, e) {
            let i = choose|i: int| 0 <= i < f.len() && linked(ctx, src_path, #[trigger] f[i]) == Some(e.0);
            assert(f[i] == links[i]);
        }
        if by_links(ctx, src, src_path, links, e) {
            let i = choose|i: int| 0 <= i < links.len() && linked(ctx, src_path, #[trigger] links[i]) == Some(e.0);
            if i < f.len() {
                assert(f[i] == links[i]);
            }
        }
    }
}

/// Law: the edges out of a source file are those that its imports, the calls in
/// it and the types it refers to give it: all of them and no others.
pub proof fn sources_have_these_edges(ctx: CtxView, src: FileId, src_path: Seq<char>, lang: Lang, p: parsed::ParsedView, e: Edge)
    requires
        !(lang is Md),
    ensures
        resolve::file_resolved(ctx, src, src_path, lang, p).edges.contains(e) <==> {
            ||| by_imports(ctx, src, src_path, lang, p.imports, e)
            ||| by_names(ctx, src, p.calls, EdgeKind::Call, Resolution::SymbolName, e)
            ||| by_names(ctx, src, p.type_refs, EdgeKind::TypeRef, Resolution::SymbolName, e)
        },
{
    let a = resolve::imports_resolved(ctx, src, src_path, lang, p.imports);
    let b = resolve::with_symbols(a, ctx, src, p.calls, EdgeKind::Call, Resolution::SymbolName);
    lemma_imports(ctx, src, src_path, lang, p.imports, e);
    lemma_symbols(a, ctx, src, p.calls, EdgeKind::Call, Resolution::SymbolName, e);
    lemma_symbols(b, ctx, src, p.type_refs, EdgeKind::TypeRef, Resolution::SymbolName, e);
}

/// Law: the edges out of a document are those that its links and the names in
/// it give it: all of them and no others.
pub proof fn documents_have_these_edges(ctx: CtxView, src: FileId, src_path: Seq<char>, p: parsed::ParsedView, e: Edge)
    ensures
        resolve::file_resolved(ctx, src, src_path, Lang::Md, p).edges.contains(e) <==> {
            ||| by_links(ctx, src, src_path, p.doc_links, e)
            ||| by_names(ctx, src, p.doc_tokens, EdgeKind::DocRef, Resolution::Heuristic, e)
        },
{
    let a = resolve::links_resolved(ctx, src, src_path, p.doc_links);
    lemma_links(ctx, src, src_path, p.doc_links, e);
    lemma_symbols(a, ctx, src, p.doc_tokens, EdgeKind::DocRef, Resolution::Heuristic, e);
}

/// Law: the last segment of a name is what stands behind the last of the
/// separators, and the whole name where it has none.
pub proof fn last_segments_are_taken(front: Seq<char>, c: char, last: Seq<char>, listed: Seq<char>)
    requires
        forall|i: int| 0 <= i < last.len() ==> !listed.contains(#[trigger] last[i]),
    ensures
        listed.contains(c) ==> text::after_last(front.push(c) + last, listed) == last,
        text::after_last(last, listed) == last,
    decreases last.len(),
{
    if last.len() == 0 {
        assert(front.push(c) + last =~= front.push(c));
        assert(last =~= Seq::<char>::empty());
    } else {
        let f = last.drop_last();
        assert forall|i: int| 0 <= i < f.len() implies !listed.contains(#[trigger] f[i]) by {
            assert(f[i] == last[i]);
        }
        last_segments_are_taken(front, c, f, listed);
        assert((front.push(c) + last).drop_last() =~= front.push(c) + f);
        assert(last[last.len() - 1] == last.last());
        assert(f.push(last.last()) =~= last);
    }
}

/// Law: one more import adds at most one to either count. It counts where it
/// resolves to a file or is shaped like one of the repository's own, and is
/// resolved where it leads to a file or to the one that defines its last
/// segment.
pub proof fn imports_count_once(
    ctx: CtxView,
    src: FileId,
    src_path: Seq<char>,
    lang: Lang,
    imports: Seq<parsed::ImportView>,
    x: parsed::ImportView,
)
    requires
        !(lang is Go),
    ensures
        ({
            let a = resolve::imports_resolved(ctx, src, src_path, lang, imports);
            let b = resolve::imports_resolved(ctx, src, src_path, lang, imports.push(x));
            let hit = resolve::import_target(ctx, lang, src_path, x.spec) is Some;
            let own = resolve::internal_shaped(ctx, lang, x.spec);
            let last = text::after_last(x.spec, ":./"@);
            let named = text::byte_len(last) >= 3 && resolve::unique_definer(ctx.symbols, src, last) is Some;
            &&& x.spec.len() == 0 ==> b.total == a.total && b.resolved == a.resolved
            &&& x.spec.len() > 0 ==> b.total == a.total + (if hit || own { 1int } else { 0 })
            &&& x.spec.len() > 0 ==> b.resolved == a.resolved + (if hit || (own && named) { 1int } else { 0 })
        }),
{
    assert(imports.push(x).drop_last() =~= imports);
    let a = resolve::imports_resolved(ctx, src, src_path, lang, imports);
    lemma_names_uncounted(a, ctx, src, x.names);
}

proof fn lemma_names_uncounted(acc: ResolvedView, ctx: CtxView, src: FileId, names: Seq<Seq<char>>)
    ensures
        resolve::with_import_names(acc, ctx, src, names).total == acc.total,
        resolve::with_import_names(acc, ctx, src, names).resolved == acc.resolved,
    decreases names.len(),
{
    if names.len() > 0 {
        lemma_names_uncounted(acc, ctx, src, names.drop_last());
    }
}

/// Law: a specifier is shaped like one of the repository's own where it starts
/// with a dot, in Ruby where it is relative, in Rust where it declares a module
/// or starts in the crate or in one of the workspace, and in Go where it is
/// relative or starts with the module's path.
pub proof fn own_specifiers_are_told_apart(ctx: CtxView, rest: Seq<char>, spec: Seq<char>, path: Seq<char>)
    ensures
        resolve::internal_shaped(ctx, Lang::Js, "."@ + rest),
        resolve::internal_shaped(ctx, Lang::Ts, "."@ + rest),
        resolve::internal_shaped(ctx, Lang::Tsx, "."@ + rest),
        resolve::internal_shaped(ctx, Lang::Coffee, "."@ + rest),
        resolve::internal_shaped(ctx, Lang::Py, "."@ + rest),
        resolve::internal_shaped(ctx, Lang::Rb, "rel:"@ + rest),
        resolve::internal_shaped(ctx, Lang::Rust, "mod:"@ + rest),
        resolve::internal_shaped(ctx, Lang::Go, "./"@ + rest),
        ctx.go_module matches Some(m) ==> resolve::internal_shaped(ctx, Lang::Go, m) && resolve::internal_shaped(
            ctx,
            Lang::Go,
            m + "/"@ + path,
        ),
        spec.len() == 0 || spec[0] != '.' ==> !resolve::internal_shaped(ctx, Lang::Js, spec)
            && !resolve::internal_shaped(ctx, Lang::Ts, spec) && !resolve::internal_shaped(ctx, Lang::Tsx, spec)
            && !resolve::internal_shaped(ctx, Lang::Coffee, spec) && !resolve::internal_shaped(ctx, Lang::Py, spec),
        spec.len() == 0 || spec[0] != 'r' ==> !resolve::internal_shaped(ctx, Lang::Rb, spec),
        (spec.len() == 0 || spec[0] != '.') && ctx.go_module is None ==> !resolve::internal_shaped(ctx, Lang::Go, spec),
        !resolve::internal_shaped(ctx, Lang::Md, spec),
{
    reveal_strlit(".");
    reveal_strlit("rel:");
    reveal_strlit("mod:");
    reveal_strlit("./");
    reveal_strlit("/");
    assert(("."@ + rest).take(1) =~= "."@);
    assert(("rel:"@ + rest).take(4) =~= "rel:"@);
    assert(("mod:"@ + rest).take(4) =~= "mod:"@);
    assert(("./"@ + rest).take(2) =~= "./"@);
    if let Some(m) = ctx.go_module {
        assert((m + "/"@ + path).take((m + "/"@).len() as int) =~= m + "/"@);
    }
    if text::has_prefix(spec, "."@) {
        assert(spec.take(1)[0] == spec[0]);
    }
    if text::has_prefix(spec, "./"@) {
        assert(spec.take(2)[0] == spec[0]);
    }
    if text::has_prefix(spec, "rel:"@) {
        assert(spec.take(4)[0] == spec[0]);
    }
}

/// Law: a Rust path is shaped like one of the repository's own by its first
/// segment.
pub proof fn own_paths_are_told_apart(ctx: CtxView, first: Seq<char>, rest: Seq<char>)
    requires
        !first.contains(':'),
    ensures
        first == "crate"@ || first == "self"@ || first == "super"@ || ctx.rust_crates.contains_key(
            text::swap_char(first, '-', '_'),
        ) ==> resolve::internal_shaped(ctx, Lang::Rust, first + "::"@ + rest),
        first != "mod"@ && first != "crate"@ && first != "self"@ && first != "super"@ && !ctx.rust_crates.contains_key(
            text::swap_char(first, '-', '_'),
        ) ==> !resolve::internal_shaped(ctx, Lang::Rust, first + "::"@ + rest),
{
    reveal_strlit("::");
    reveal_strlit("mod");
    reveal_strlit("mod:");
    let s = first + "::"@ + rest;
    text::lemma_find_from(s, "::"@, 0);
    assert(s.subrange(first.len() as int, first.len() as int + 2) =~= "::"@);
    assert(text::occurs_at(s, "::"@, first.len() as int));
    let i = text::find_from(s, "::"@, 0)->0;
    if i < first.len() {
        assert(s.subrange(i, i + 2)[0] == s[i]);
        assert(first.contains(first[i]));
    }
    assert(s.take(i) =~= first);
    assert(text::split_text(s, "::"@)[0] == first);
    if text::has_prefix(s, "mod:"@) {
        assert forall|k: int| 0 <= k < 4 implies s[k] == "mod:"@[k] by {
            assert(s.take(4)[k] == s[k]);
        }
        if first.len() > 3 {
            assert(first[3] == ':');
            assert(first.contains(':'));
        } else if first.len() < 3 {
            assert(s[first.len() as int] == ':');
        } else {
            assert(first =~= "mod"@);
        }
    }
}

} // verus!
