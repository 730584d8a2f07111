//! The parse result cached per blob oid. This is what extraction produces and
//! what edge resolution consumes. It must stay stable across runs; bump
//! PARSER_VERSION whenever its shape or the extraction queries change so stale
//! cache rows are invalidated.

use crate::text;
use vstd::prelude::*;

verus! {

/// Bump on any change to extraction queries or this struct's encoding.
pub const PARSER_VERSION: i64 = 1;

#[derive(Debug, Clone, PartialEq)]
pub struct ParsedFile {
    pub imports: Vec<ImportRef>,
    /// Names called in call position that are not defined in this file.
    pub calls: Vec<String>,
    /// Names referenced in type position that are not defined in this file.
    pub type_refs: Vec<String>,
    pub defs: Vec<SymbolDef>,
    /// Markdown only: link targets that look like repo paths, and inline
    /// code tokens that may name symbols.
    pub doc_links: Vec<String>,
    pub doc_tokens: Vec<String>,
}

#[derive(Debug, Clone, PartialEq)]
pub struct ImportRef {
    /// The raw module specifier as written: "./foo", "crate::bar", "pkg/util".
    pub spec: String,
    /// True for re-export forms such as `export * from "./x"` or `pub use`.
    pub reexport: bool,
    /// Names imported from the specifier, when the syntax exposes them.
    pub names: Vec<String>,
}

#[derive(Debug, Clone, PartialEq)]
pub struct SymbolDef {
    pub name: String,
    /// Free-form kind string from the grammar: "fn", "struct", "class", ...
    pub kind: String,
}

/// What a parse result says.
#[verifier::ext_equal]
pub struct ParsedView {
    pub imports: Seq<ImportView>,
    pub calls: Seq<Seq<char>>,
    pub type_refs: Seq<Seq<char>>,
    pub defs: Seq<DefView>,
    pub doc_links: Seq<Seq<char>>,
    pub doc_tokens: Seq<Seq<char>>,
}

#[verifier::ext_equal]
pub struct ImportView {
    pub spec: Seq<char>,
    pub reexport: bool,
    pub names: Seq<Seq<char>>,
}

#[verifier::ext_equal]
pub struct DefView {
    pub name: Seq<char>,
    pub kind: Seq<char>,
}

impl View for ImportRef {
    type V = ImportView;

    open spec fn view(&self) -> ImportView {
        ImportView { spec: self.spec@, reexport: self.reexport, names: text::views(self.names@) }
    }
}

impl View for SymbolDef {
    type V = DefView;

    open spec fn view(&self) -> DefView {
        DefView { name: self.name@, kind: self.kind@ }
    }
}

pub open spec fn import_views(s: Seq<ImportRef>) -> Seq<ImportView> {
    s.map_values(|i: ImportRef| i@)
}

pub open spec fn def_views(s: Seq<SymbolDef>) -> Seq<DefView> {
    s.map_values(|d: SymbolDef| d@)
}

impl View for ParsedFile {
    type V = ParsedView;

    open spec fn view(&self) -> ParsedView {
        ParsedView {
            imports: import_views(self.imports@),
            calls: text::views(self.calls@),
            type_refs: text::views(self.type_refs@),
            defs: def_views(self.defs@),
            doc_links: text::views(self.doc_links@),
            doc_tokens: text::views(self.doc_tokens@),
        }
    }
}

/// A parse result that says nothing.
pub open spec fn nothing_parsed() -> ParsedView {
    ParsedView {
        imports: Seq::empty(),
        calls: Seq::empty(),
        type_refs: Seq::empty(),
        defs: Seq::empty(),
        doc_links: Seq::empty(),
        doc_tokens: Seq::empty(),
    }
}

impl Default for ParsedFile {
    fn default() -> (r: Self)
        ensures
            r@ == nothing_parsed(),
    {
        let r = ParsedFile {
            imports: Vec::new(),
            calls: Vec::new(),
            type_refs: Vec::new(),
            defs: Vec::new(),
            doc_links: Vec::new(),
            doc_tokens: Vec::new(),
        };
        assert(r@ =~= nothing_parsed());
        r
    }
}

pub proof fn lemma_imports_push(s: Seq<ImportRef>, x: ImportRef)
    ensures
        import_views(s.push(x)) == import_views(s).push(x@),
{
    assert(import_views(s.push(x)) =~= import_views(s).push(x@));
}

pub proof fn lemma_defs_push(s: Seq<SymbolDef>, x: SymbolDef)
    ensures
        def_views(s.push(x)) == def_views(s).push(x@),
{
    assert(def_views(s.push(x)) =~= def_views(s).push(x@));
}

} // verus!
