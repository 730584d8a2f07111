//! Per-blob extraction: what a file imports, calls, refers to and defines.
//! Markdown and CoffeeScript are handled with small line extractors instead of
//! a grammar.

use crate::coffee;
use crate::grammar;
use crate::grammar::Capture;
use crate::lang::Lang;
use crate::lang;
use crate::markdown;
use crate::names::NameSet;
use crate::names;
use crate::parsed::{ImportRef, ParsedFile, SymbolDef};
use crate::parsed;
use crate::pattern;
use crate::rust_use::expand_rust_use;
use crate::rust_use;
use crate::text;
use vstd::prelude::*;

pub mod laws;
pub mod takes;

verus! {

/// Larger files are not parsed.
pub const MAX_PARSE_BYTES: usize = 1_048_576;

/// As many definitions, calls and type references are kept of one file.
pub const MAX_ITEMS: usize = 400;

/// Shorter names are not worth resolving.
pub const MIN_NAME_LEN: usize = 3;

/// As many imports are kept of one file.
pub const MAX_IMPORTS: usize = 200;

/// As many links and tokens are kept of one document.
pub const MAX_DOC_ITEMS: usize = 200;

// ---- what a scan has found so far ----

/// What has been found in a file so far.
#[verifier::ext_equal]
pub struct Found {
    pub imports: Seq<parsed::ImportView>,
    /// Imported names, not yet attached to an import.
    pub names: Seq<Seq<char>>,
    pub defs: Seq<parsed::DefView>,
    pub def_names: Seq<Seq<char>>,
    pub calls: Seq<Seq<char>>,
    pub type_refs: Seq<Seq<char>>,
}

/// Nothing found yet.
pub open spec fn nothing_found() -> Found {
    Found {
        imports: Seq::empty(),
        names: Seq::empty(),
        defs: Seq::empty(),
        def_names: Seq::empty(),
        calls: Seq::empty(),
        type_refs: Seq::empty(),
    }
}

/// An import without names.
pub open spec fn bare_import(spec: Seq<char>, reexport: bool) -> parsed::ImportView {
    parsed::ImportView { spec, reexport, names: Seq::empty() }
}

pub open spec fn with_import(f: Found, spec: Seq<char>, reexport: bool) -> Found {
    Found { imports: f.imports.push(bare_import(spec, reexport)), ..f }
}

pub open spec fn with_call(f: Found, name: Seq<char>) -> Found {
    if f.calls.len() < MAX_ITEMS {
        Found { calls: names::sorted_insert(f.calls, name), ..f }
    } else {
        f
    }
}

pub open spec fn with_type_ref(f: Found, name: Seq<char>) -> Found {
    if text::byte_len(name) >= MIN_NAME_LEN && f.type_refs.len() < MAX_ITEMS {
        Found { type_refs: names::sorted_insert(f.type_refs, name), ..f }
    } else {
        f
    }
}

/// The first definition of a name counts.
pub open spec fn with_def(f: Found, name: Seq<char>, kind: Seq<char>) -> Found {
    if f.defs.len() >= MAX_ITEMS || f.def_names.contains(name) {
        f
    } else {
        Found {
            defs: f.defs.push(parsed::DefView { name, kind }),
            def_names: names::sorted_insert(f.def_names, name),
            ..f
        }
    }
}

/// The imports with each specifier and form once, up to the limit.
pub open spec fn deduped(s: Seq<parsed::ImportView>) -> Seq<parsed::ImportView>
    decreases s.len(),
{
    if s.len() == 0 {
        Seq::empty()
    } else {
        let d = deduped(s.drop_last());
        if d.len() >= MAX_IMPORTS || import_listed(d, s.last()) {
            d
        } else {
            d.push(s.last())
        }
    }
}

/// An import of the same specifier in the same form is listed.
pub open spec fn import_listed(d: Seq<parsed::ImportView>, x: parsed::ImportView) -> bool {
    exists|k: int| 0 <= k < d.len() && (#[trigger] d[k]).spec == x.spec && d[k].reexport == x.reexport
}

/// The imports with the imported names attached to the first of them. Where
/// there is none, an import without a specifier holds the names if `keep`
/// says so.
pub open spec fn named_imports(imports: Seq<parsed::ImportView>, names: Seq<Seq<char>>, keep: bool) -> Seq<
    parsed::ImportView,
> {
    if names.len() == 0 {
        imports
    } else if imports.len() > 0 {
        imports.update(0, parsed::ImportView { names, ..imports[0] })
    } else if keep {
        seq![parsed::ImportView { spec: Seq::empty(), reexport: false, names }]
    } else {
        imports
    }
}

/// The names that the file does not define itself.
pub open spec fn foreign(names: Seq<Seq<char>>, defs: Seq<Seq<char>>) -> Seq<Seq<char>> {
    names.filter(|n: Seq<char>| !defs.contains(n))
}

/// The parse result that comes of what was found. A file does not call or
/// reference itself through the graph.
pub open spec fn finished(f: Found, keep: bool) -> parsed::ParsedView {
    parsed::ParsedView {
        imports: deduped(named_imports(f.imports, f.names, keep)),
        calls: foreign(f.calls, f.def_names),
        type_refs: foreign(f.type_refs, f.def_names),
        defs: f.defs,
        doc_links: Seq::empty(),
        doc_tokens: Seq::empty(),
    }
}

/// What has been found in a file so far.
pub struct Extraction {
    imports: Vec<ImportRef>,
    names: Vec<String>,
    defs: Vec<SymbolDef>,
    def_names: NameSet,
    calls: NameSet,
    type_refs: NameSet,
}

impl View for Extraction {
    type V = Found;

    closed spec fn view(&self) -> Found {
        Found {
            imports: parsed::import_views(self.imports@),
            names: text::views(self.names@),
            defs: parsed::def_views(self.defs@),
            def_names: self.def_names@,
            calls: self.calls@,
            type_refs: self.type_refs@,
        }
    }
}

impl Extraction {
    /// The sets of names are in order.
    pub open spec fn wf(&self) -> bool {
        &&& names::increasing(self@.def_names)
        &&& names::increasing(self@.calls)
        &&& names::increasing(self@.type_refs)
    }

    pub fn new() -> (r: Self)
        ensures
            r@ == nothing_found(),
            r.wf(),
    {
        let r = Extraction {
            imports: Vec::new(),
            names: Vec::new(),
            defs: Vec::new(),
            def_names: NameSet::new(),
            calls: NameSet::new(),
            type_refs: NameSet::new(),
        };
        assert(r@ =~= nothing_found());
        r
    }

    pub fn add_import(&mut self, spec: String, reexport: bool)
        requires
            old(self).wf(),
        ensures
            final(self).wf(),
            final(self)@ == with_import(old(self)@, spec@, reexport),
    {
        let ghost before = self@;
        let ghost sv = spec@;
        let import = ImportRef { spec, reexport, names: Vec::new() };
        proof {
            parsed::lemma_imports_push(self.imports@, import);
            assert(import@ =~= bare_import(sv, reexport));
        }
        self.imports.push(import);
        assert(self@ =~= with_import(before, sv, reexport));
    }

    pub fn add_name(&mut self, name: String)
        requires
            old(self).wf(),
        ensures
            final(self).wf(),
            final(self)@ == (Found { names: old(self)@.names.push(name@), ..old(self)@ }),
    {
        let ghost before = self@;
        let ghost nv = name@;
        proof {
            text::lemma_views_push(self.names@, name);
        }
        self.names.push(name);
        assert(self@ =~= Found { names: before.names.push(nv), ..before });
    }

    pub fn add_call(&mut self, name: String)
        requires
            old(self).wf(),
        ensures
            final(self).wf(),
            final(self)@ == with_call(old(self)@, name@),
    {
        let ghost before = self@;
        let ghost nv = name@;
        if self.calls.len() < MAX_ITEMS {
            self.calls.insert(name);
        }
        assert(self@ =~= with_call(before, nv));
    }

    pub fn add_type_ref(&mut self, name: String)
        requires
            old(self).wf(),
        ensures
            final(self).wf(),
            final(self)@ == with_type_ref(old(self)@, name@),
    {
        let ghost before = self@;
        let ghost nv = name@;
        if text::bytes_in(name.as_str()) >= MIN_NAME_LEN && self.type_refs.len() < MAX_ITEMS {
            self.type_refs.insert(name);
        }
        assert(self@ =~= with_type_ref(before, nv));
    }

    pub fn add_def(&mut self, name: String, kind: &str)
        requires
            old(self).wf(),
        ensures
            final(self).wf(),
            final(self)@ == with_def(old(self)@, name@, kind@),
    {
        let ghost before = self@;
        let ghost nv = name@;
        if self.defs.len() < MAX_ITEMS {
            let def = SymbolDef { name: name.clone(), kind: kind.to_owned() };
            if !self.def_names.contains(name.as_str()) {
                self.def_names.insert(name);
                proof {
                    parsed::lemma_defs_push(self.defs@, def);
                }
                self.defs.push(def);
            }
        }
        assert(self@ =~= with_def(before, nv, kind@));
    }

    /// The parse result that comes of what was found.
    pub fn finish(self, keep: bool) -> (r: ParsedFile)
        requires
            self.wf(),
        ensures
            r@ == finished(self@, keep),
    {
        let Extraction { imports, names, defs, def_names, calls, type_refs } = self;
        let ghost iv = parsed::import_views(imports@);
        let ghost nv = text::views(names@);
        let mut imports = imports;
        if names.len() > 0 {
            if imports.len() > 0 {
                imports[0].names = names;
                assert(parsed::import_views(imports@) =~= named_imports(iv, nv, keep));
            } else if keep {
                proof {
                    reveal_strlit("");
                    assert(""@ =~= Seq::<char>::empty());
                }
                imports.push(ImportRef { spec: "".to_owned(), reexport: false, names });
                assert(parsed::import_views(imports@) =~= named_imports(iv, nv, keep));
            }
        }
        let calls = without(calls.list(), &def_names);
        let type_refs = without(type_refs.list(), &def_names);
        let r = ParsedFile {
            imports: dedup_imports(imports),
            calls,
            type_refs,
            defs,
            doc_links: Vec::new(),
            doc_tokens: Vec::new(),
        };
        assert(r@ =~= finished(self@, keep));
        r
    }
}

fn without(names: &Vec<String>, defs: &NameSet) -> (r: Vec<String>)
    ensures
        text::views(r@) == foreign(text::views(names@), defs@),
{
    let ghost s = text::views(names@);
    let ghost f = |n: Seq<char>| !defs@.contains(n);
    let mut out: Vec<String> = Vec::new();
    let mut i: usize = 0;
    proof {
        reveal(Seq::filter);
        assert(s.take(0) =~= Seq::<Seq<char>>::empty());
        assert(text::views(out@) =~= s.take(0).filter(f));
    }
    while i < names.len()
        invariant
            i <= names@.len(),
            s == text::views(names@),
            f == (|n: Seq<char>| !defs@.contains(n)),
            text::views(out@) == s.take(i as int).filter(f),
        decreases names@.len() - i,
    {
        proof {
            reveal(Seq::filter);
            assert(s.take(i + 1).drop_last() =~= s.take(i as int));
            assert(s[i as int] == names@[i as int]@);
        }
        if !defs.contains(names[i].as_str()) {
            proof {
                text::lemma_views_push(out@, names@[i as int]);
            }
            out.push(names[i].clone());
        }
        i += 1;
    }
    assert(s.take(i as int) =~= s);
    out
}

/// Keep the first import of each specifier and form, up to the limit.
pub fn dedup_imports(imports: Vec<ImportRef>) -> (r: Vec<ImportRef>)
    ensures
        parsed::import_views(r@) == deduped(parsed::import_views(imports@)),
{
    let ghost s = parsed::import_views(imports@);
    let mut out: Vec<ImportRef> = Vec::new();
    assert(s.take(0) =~= Seq::<parsed::ImportView>::empty());
    assert(parsed::import_views(out@) =~= Seq::<parsed::ImportView>::empty());
    for x in it: imports
        invariant
            it.seq() == imports@,
            s == parsed::import_views(imports@),
            parsed::import_views(out@) == deduped(s.take(it.index() as int)),
    {
        let ghost i = it.index() as int;
        proof {
            assert(s.take(i + 1).drop_last() =~= s.take(i));
            assert(s.take(i + 1).last() == x@);
        }
        if out.len() < MAX_IMPORTS {
            let mut listed = false;
            let mut k: usize = 0;
            while k < out.len()
                invariant
                    k <= out@.len(),
                    listed ==> import_listed(parsed::import_views(out@), x@),
                    !listed ==> forall|m: int|
                        0 <= m < k ==> !((#[trigger] out@[m]).spec@ == x.spec@ && out@[m].reexport == x.reexport),
                decreases out@.len() - k,
            {
                if out[k].reexport == x.reexport && text::eq_str(out[k].spec.as_str(), x.spec.as_str()) {
                    assert(parsed::import_views(out@)[k as int] == out@[k as int]@);
                    listed = true;
                }
                k += 1;
            }
            proof {
                let d = parsed::import_views(out@);
                if !listed && import_listed(d, x@) {
                    let m = choose|m: int|
                        0 <= m < d.len() && (#[trigger] d[m]).spec == x@.spec && d[m].reexport == x@.reexport;
                    assert(d[m] == out@[m]@);
                }
            }
            if !listed {
                proof {
                    parsed::lemma_imports_push(out@, x);
                }
                out.push(x);
            }
        }
    }
    assert(s.take(s.len() as int) =~= s);
    out
}

pub open spec fn unquoted(s: Seq<char>) -> Seq<char> {
    text::trim_back(text::trim_front(s, false, "\"'`"@), false, "\"'`"@)
}

pub fn trim_quotes(s: &str) -> (r: String)
    ensures
        r@ == unquoted(s@),
{
    let front = text::trim_front_of(s, false, "\"'`");
    text::trim_back_of(front.as_str(), false, "\"'`")
}

// ---- captures ----

/// The kinds of the statements that stand at the top of a module.
pub open spec fn top_kind(k: Seq<char>) -> bool {
    k == "program"@ || k == "export_statement"@
}

/// So many ancestors of a node decide whether it stands at the top level.
pub const ANCESTORS_READ: usize = 3;

/// A declarator sits at module top level, possibly under an export statement,
/// by the kinds of its name's ancestors. Local variables are not symbols.
pub open spec fn top_level(outer: Seq<Seq<char>>) -> bool {
    outer.len() >= 2 && (top_kind(outer[1]) || (outer.len() >= 3 && top_kind(outer[2])))
}

/// The imports of a use declaration.
pub open spec fn use_imports(decl: Seq<char>) -> Seq<parsed::ImportView> {
    rust_use::use_paths(decl).map_values(|p: Seq<char>| bare_import(p, rust_use::is_reexport(decl)))
}

/// What one more capture adds.
pub open spec fn capture_step(f: Found, name: Seq<char>, raw: Seq<char>, outer: Seq<Seq<char>>) -> Found {
    let t = text::trimmed(raw);
    if t.len() == 0 {
        f
    } else if name == "spec"@ || name == "spec.from"@ || name == "spec.reexport"@ {
        if unquoted(t).len() == 0 {
            f
        } else {
            with_import(f, unquoted(t), name == "spec.reexport"@)
        }
    } else if name == "spec.relative"@ {
        if unquoted(t).len() == 0 {
            f
        } else {
            with_import(f, "rel:"@ + unquoted(t), false)
        }
    } else if name == "import.name"@ {
        Found { names: f.names.push(t), ..f }
    } else if name == "use_decl"@ {
        Found { imports: f.imports + use_imports(t), ..f }
    } else if name == "mod"@ {
        with_import(f, "mod:"@ + t, false)
    } else if name == "call"@ {
        if text::byte_len(t) >= MIN_NAME_LEN {
            with_call(f, t)
        } else {
            f
        }
    } else if name == "typeref"@ {
        with_type_ref(f, t)
    } else if text::has_prefix(name, "def."@) {
        if name == "def.const"@ && !top_level(outer) {
            f
        } else {
            with_def(f, t, name.skip(4))
        }
    } else {
        f
    }
}

/// What the captures add up to.
pub open spec fn captured(s: Seq<(Seq<char>, Seq<char>, Seq<Seq<char>>)>) -> Found
    decreases s.len(),
{
    if s.len() == 0 {
        nothing_found()
    } else {
        capture_step(captured(s.drop_last()), s.last().0, s.last().1, s.last().2)
    }
}

/// True when a variable declarator sits at module top level (possibly under
/// an export statement), judged by the kinds of the ancestors of its name.
pub fn is_top_level_declarator(outer: &Vec<String>) -> (r: bool)
    ensures
        r == top_level(text::views(outer@)),
{
    if outer.len() < 2 {
        return false;
    }
    assert(text::views(outer@)[1] == outer@[1]@);
    let stmt = outer[1].as_str();
    if text::eq_str(stmt, "program") || text::eq_str(stmt, "export_statement") {
        return true;
    }
    if outer.len() < 3 {
        return false;
    }
    assert(text::views(outer@)[2] == outer@[2]@);
    let above = outer[2].as_str();
    text::eq_str(above, "program") || text::eq_str(above, "export_statement")
}

impl Extraction {
    fn add_uses(&mut self, decl: &str)
        requires
            old(self).wf(),
        ensures
            final(self).wf(),
            final(self)@ == (Found { imports: old(self)@.imports + use_imports(decl@), ..old(self)@ }),
    {
        let uses = expand_rust_use(decl);
        let ghost before = self@;
        let ghost us = use_imports(decl@);
        assert forall|k: int| 0 <= k < uses@.len() implies us[k] == bare_import(
            (#[trigger] uses@[k]).0@,
            uses@[k].1,
        ) by {
            assert(uses@.map_values(|x: (String, bool)| x.0@)[k] == uses@[k].0@);
        }
        assert(us.len() == uses@.len());
        let mut i: usize = 0;
        assert(before.imports + us.take(0) =~= before.imports);
        while i < uses.len()
            invariant
                i <= uses@.len(),
                uses@.len() == us.len(),
                self.wf(),
                forall|k: int| 0 <= k < uses@.len() ==> us[k] == bare_import((#[trigger] uses@[k]).0@, uses@[k].1),
                self@ == (Found { imports: before.imports + us.take(i as int), ..before }),
            decreases uses@.len() - i,
        {
            self.add_import(uses[i].0.clone(), uses[i].1);
            assert((before.imports + us.take(i as int)).push(us[i as int]) =~= before.imports + us.take(i + 1));
            assert(us[i as int] == bare_import(uses@[i as int].0@, uses@[i as int].1));
            i += 1;
        }
        assert(us.take(i as int) =~= us);
    }

    /// Take one more capture in.
    pub fn take_capture(&mut self, cap: &Capture)
        requires
            old(self).wf(),
        ensures
            final(self).wf(),
            final(self)@ == capture_step(old(self)@, cap.name@, cap.text@, text::views(cap.outer@)),
    {
        let t = text::trim(cap.text.as_str());
        if t.as_str().unicode_len() == 0 {
            return ;
        }
        let name = cap.name.as_str();
        if text::eq_str(name, "spec") || text::eq_str(name, "spec.from") || text::eq_str(name, "spec.reexport") {
            let spec = trim_quotes(t.as_str());
            if spec.as_str().unicode_len() > 0 {
                self.add_import(spec, text::eq_str(name, "spec.reexport"));
            }
        } else if text::eq_str(name, "spec.relative") {
            // Ruby require_relative: resolved against the file's own
            // directory, marked so the resolver can tell it apart.
            let spec = trim_quotes(t.as_str());
            if spec.as_str().unicode_len() > 0 {
                self.add_import(text::cat2("rel:", spec.as_str()), false);
            }
        } else if text::eq_str(name, "import.name") {
            self.add_name(t);
        } else if text::eq_str(name, "use_decl") {
            self.add_uses(t.as_str());
        } else if text::eq_str(name, "mod") {
            self.add_import(text::cat2("mod:", t.as_str()), false);
        } else if text::eq_str(name, "call") {
            if text::bytes_in(t.as_str()) >= MIN_NAME_LEN {
                self.add_call(t);
            }
        } else if text::eq_str(name, "typeref") {
            self.add_type_ref(t);
        } else if text::starts_with(name, "def.") {
            proof {
                reveal_strlit("def.");
            }
            if !text::eq_str(name, "def.const") || is_top_level_declarator(&cap.outer) {
                let kind = text::tail_text(name, 4);
                self.add_def(t, kind.as_str());
            }
        }
    }
}

/// The parse result of a file out of what its capture query found in it.
pub fn extract_captures(caps: &Vec<Capture>) -> (r: ParsedFile)
    ensures
        r@ == finished(captured(grammar::capture_views(caps@)), true),
{
    let mut e = Extraction::new();
    let ghost s = grammar::capture_views(caps@);
    let mut i: usize = 0;
    assert(s.take(0) =~= Seq::<(Seq<char>, Seq<char>, Seq<Seq<char>>)>::empty());
    while i < caps.len()
        invariant
            i <= caps@.len(),
            s == grammar::capture_views(caps@),
            e.wf(),
            e@ == captured(s.take(i as int)),
        decreases caps@.len() - i,
    {
        e.take_capture(&caps[i]);
        proof {
            assert(s.take(i + 1).drop_last() =~= s.take(i as int));
            assert(s.take(i + 1).last() == caps@[i as int]@);
        }
        i += 1;
    }
    assert(s.take(i as int) =~= s);
    e.finish(true)
}

/// What a file of a language with a grammar comes to: nothing where its
/// capture query does not compile or the parser gives no tree.
pub open spec fn grammar_parsed(lang: Lang, content: Seq<u8>) -> parsed::ParsedView {
    match lang.query_text() {
        Some(source) => match grammar::tree_captures(lang, source, content, ANCESTORS_READ) {
            Some(caps) => finished(captured(caps), true),
            None => parsed::nothing_parsed(),
        },
        None => parsed::nothing_parsed(),
    }
}

/// What a file comes to: nothing where it is too large.
pub open spec fn extracted(lang: Lang, content: Seq<u8>) -> parsed::ParsedView {
    if content.len() > MAX_PARSE_BYTES {
        parsed::nothing_parsed()
    } else if lang is Md {
        markdown::doc_parsed(
            pattern::regex_all_groups(markdown::LINK@, text::lossy(content)),
            pattern::regex_all_groups(markdown::CODE@, text::lossy(content)),
        )
    } else if lang is Coffee {
        coffee::coffee_parsed(content)
    } else {
        grammar_parsed(lang, content)
    }
}

/// Extract the ParsedFile for one blob. Infallible: parse errors yield an
/// empty result rather than aborting an index run.
pub fn extract(lang: Lang, content: &Vec<u8>) -> (r: ParsedFile)
    ensures
        r@ == extracted(lang, content@),
{
    if content.len() > MAX_PARSE_BYTES {
        return ParsedFile::default();
    }
    match lang {
        Lang::Md => markdown::extract_markdown(content),
        Lang::Coffee => coffee::extract_coffee(content),
        _ => match (grammar::language(lang), lang.query_source()) {
            (Some(_), Some(source)) => match grammar::query_captures(lang, source, content.as_slice(), ANCESTORS_READ) {
                Some(caps) => extract_captures(&caps),
                None => ParsedFile::default(),
            },
            _ => ParsedFile::default(),
        },
    }
}

} // verus!
