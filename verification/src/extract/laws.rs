//! What holds of every parse result, whatever the grammars and patterns give.

use crate::coffee;
use crate::extract::{Found, MAX_DOC_ITEMS, MAX_IMPORTS, MAX_ITEMS};
use crate::extract;
use crate::grammar;
use crate::lang::Lang;
use crate::markdown;
use crate::names;
use crate::parsed;
use crate::pattern;
use crate::text;
use vstd::prelude::*;

verus! {

/// A name is defined.
pub open spec fn is_defined(defs: Seq<parsed::DefView>, name: Seq<char>) -> bool {
    exists|k: int| 0 <= k < defs.len() && (#[trigger] defs[k]).name == name
}

/// No name is defined twice.
pub open spec fn defined_once(defs: Seq<parsed::DefView>) -> bool {
    forall|i: int, j: int| 0 <= i < j < defs.len() ==> (#[trigger] defs[i]).name != (#[trigger] defs[j]).name
}

/// No specifier is imported twice in one form.
pub open spec fn imported_once(s: Seq<parsed::ImportView>) -> bool {
    forall|i: int, j: int|
        0 <= i < j < s.len() ==> !((#[trigger] s[i]).spec == (#[trigger] s[j]).spec && s[i].reexport == s[j].reexport)
}

/// None of the names is defined in the file.
pub open spec fn all_foreign(s: Seq<Seq<char>>, defs: Seq<parsed::DefView>) -> bool {
    forall|i: int| 0 <= i < s.len() ==> !is_defined(defs, #[trigger] s[i])
}

/// A parse result in order: names ascend, each once, and the file defines none
/// of those it calls or refers to; no definition and no import comes twice; and
/// nothing exceeds its limit.
pub open spec fn tidy(p: parsed::ParsedView) -> bool {
    &&& names::increasing(p.calls) && p.calls.len() <= MAX_ITEMS && all_foreign(p.calls, p.defs)
    &&& names::increasing(p.type_refs) && p.type_refs.len() <= MAX_ITEMS && all_foreign(p.type_refs, p.defs)
    &&& defined_once(p.defs) && p.defs.len() <= MAX_ITEMS
    &&& imported_once(p.imports) && p.imports.len() <= MAX_IMPORTS
    &&& names::increasing(p.doc_links)
    &&& names::increasing(p.doc_tokens) && p.doc_tokens.len() <= MAX_DOC_ITEMS
}

/// What a scan keeps to.
pub open spec fn in_order(f: Found) -> bool {
    &&& names::increasing(f.calls) && f.calls.len() <= MAX_ITEMS
    &&& names::increasing(f.type_refs) && f.type_refs.len() <= MAX_ITEMS
    &&& names::increasing(f.def_names)
    &&& defined_once(f.defs) && f.defs.len() <= MAX_ITEMS
    &&& forall|n: Seq<char>| #[trigger] f.def_names.contains(n) <==> is_defined(f.defs, n)
}

proof fn lemma_insert_len(s: Seq<Seq<char>>, x: Seq<char>)
    ensures
        names::sorted_insert(s, x).len() <= s.len() + 1,
    decreases s.len(),
{
    if s.len() > 0 {
        lemma_insert_len(s.drop_last(), x);
    }
}

proof fn lemma_with_call(f: Found, name: Seq<char>)
    requires
        in_order(f),
    ensures
        in_order(extract::with_call(f, name)),
{
    names::insert_keeps_order(f.calls, name);
    lemma_insert_len(f.calls, name);
}

proof fn lemma_with_type_ref(f: Found, name: Seq<char>)
    requires
        in_order(f),
    ensures
        in_order(extract::with_type_ref(f, name)),
{
    names::insert_keeps_order(f.type_refs, name);
    lemma_insert_len(f.type_refs, name);
}

proof fn lemma_with_def(f: Found, name: Seq<char>, kind: Seq<char>)
    requires
        in_order(f),
    ensures
        in_order(extract::with_def(f, name, kind)),
{
    let r = extract::with_def(f, name, kind);
    if f.defs.len() < MAX_ITEMS && !f.def_names.contains(name) {
        names::insert_keeps_order(f.def_names, name);
        let d = parsed::DefView { name, kind };
        assert forall|n: Seq<char>| #[trigger] r.def_names.contains(n) <==> is_defined(r.defs, n) by {
            assert(f.def_names.contains(n) <==> is_defined(f.defs, n));
            if is_defined(f.defs, n) {
                let k = choose|k: int| 0 <= k < f.defs.len() && (#[trigger] f.defs[k]).name == n;
                assert(r.defs[k].name == n);
            }
            if n == name {
                assert(r.defs[f.defs.len() as int] == d);
            }
            if is_defined(r.defs, n) {
                let k = choose|k: int| 0 <= k < r.defs.len() && (#[trigger] r.defs[k]).name == n;
                if k < f.defs.len() {
                    assert(f.defs[k].name == n);
                }
            }
        }
        assert forall|i: int, j: int| 0 <= i < j < r.defs.len() implies (#[trigger] r.defs[i]).name != (
        #[trigger] r.defs[j]).name by {
            assert(r.defs[i] == f.defs[i]);
            if j == f.defs.len() && f.defs[i].name == name {
                assert(is_defined(f.defs, name));
            }
        }
    }
}

proof fn lemma_deduped(s: Seq<parsed::ImportView>)
    ensures
        imported_once(extract::deduped(s)),
        extract::deduped(s).len() <= MAX_IMPORTS,
    decreases s.len(),
{
    if s.len() > 0 {
        lemma_deduped(s.drop_last());
        let d = extract::deduped(s.drop_last());
        let r = extract::deduped(s);
        assert forall|i: int, j: int| 0 <= i < j < r.len() implies !((#[trigger] r[i]).spec == (#[trigger] r[j]).spec
            && r[i].reexport == r[j].reexport) by {
            assert(r[i] == d[i]);
        }
    }
}

proof fn lemma_filter_increasing(s: Seq<Seq<char>>, keep: spec_fn(Seq<char>) -> bool)
    requires
        names::increasing(s),
    ensures
        names::increasing(s.filter(keep)),
        s.filter(keep).len() <= s.len(),
        forall|i: int| 0 <= i < s.filter(keep).len() ==> keep(#[trigger] s.filter(keep)[i]),
        forall|x: Seq<char>| #[trigger] s.filter(keep).contains(x) ==> s.contains(x),
    decreases s.len(),
{
    reveal(Seq::filter);
    if s.len() > 0 {
        let d = s.drop_last();
        assert forall|i: int, j: int| 0 <= i < j < d.len() implies #[trigger] text::text_le(d[i], d[j]) && d[i]
            != d[j] by {
            assert(text::text_le(s[i], s[j]));
        }
        lemma_filter_increasing(d, keep);
        let b = d.filter(keep);
        let r = s.filter(keep);
        assert forall|x: Seq<char>| #[trigger] r.contains(x) implies s.contains(x) by {
            let k = r.index_of(x);
            if k < b.len() {
                assert(b[k] == x);
                assert(b.contains(x));
                assert(s[d.index_of(x)] == x);
            } else {
                assert(s[s.len() - 1] == x);
            }
        }
        assert forall|i: int, j: int| 0 <= i < j < r.len() implies #[trigger] text::text_le(r[i], r[j]) && r[i]
            != r[j] by {
            assert(r[i] == b[i]);
            if j < b.len() {
                assert(r[j] == b[j]);
                assert(text::text_le(b[i], b[j]));
            } else {
                assert(b.contains(b[i]));
                let k = d.index_of(b[i]);
                assert(text::text_le(s[k], s[s.len() - 1]));
            }
        }
    }
}

proof fn lemma_finished(f: Found, keep: bool)
    requires
        in_order(f),
    ensures
        tidy(extract::finished(f, keep)),
{
    let p = extract::finished(f, keep);
    let outside = |n: Seq<char>| !f.def_names.contains(n);
    lemma_deduped(extract::named_imports(f.imports, f.names, keep));
    lemma_filter_increasing(f.calls, outside);
    lemma_filter_increasing(f.type_refs, outside);
    assert(p.calls == f.calls.filter(outside));
    assert(p.type_refs == f.type_refs.filter(outside));
    assert forall|i: int| 0 <= i < p.calls.len() implies !is_defined(p.defs, #[trigger] p.calls[i]) by {
        assert(outside(p.calls[i]));
    }
    assert forall|i: int| 0 <= i < p.type_refs.len() implies !is_defined(p.defs, #[trigger] p.type_refs[i]) by {
        assert(outside(p.type_refs[i]));
    }
}

proof fn lemma_captured(s: Seq<(Seq<char>, Seq<char>, Seq<Seq<char>>)>)
    ensures
        in_order(extract::captured(s)),
    decreases s.len(),
{
    if s.len() > 0 {
        lemma_captured(s.drop_last());
        let f = extract::captured(s.drop_last());
        let (name, raw, outer) = s.last();
        let t = text::trimmed(raw);
        lemma_with_call(f, t);
        lemma_with_type_ref(f, t);
        lemma_with_def(f, t, name.skip(4));
    }
}

proof fn lemma_calls(f: Found, calls: Seq<Seq<Option<Seq<char>>>>)
    requires
        in_order(f),
    ensures
        in_order(coffee::with_calls(f, calls)),
    decreases calls.len(),
{
    if calls.len() > 0 {
        lemma_calls(f, calls.drop_last());
        lemma_with_call(coffee::with_calls(f, calls.drop_last()), pattern::group_text(calls.last(), 1));
    }
}

proof fn lemma_news(f: Found, news: Seq<Seq<Option<Seq<char>>>>)
    requires
        in_order(f),
    ensures
        in_order(coffee::with_news(f, news)),
    decreases news.len(),
{
    if news.len() > 0 {
        lemma_news(f, news.drop_last());
        lemma_with_type_ref(
            coffee::with_news(f, news.drop_last()),
            text::after_last(pattern::group_text(news.last(), 1), "."@),
        );
    }
}

proof fn lemma_line(f: Found, h: coffee::LineView)
    requires
        in_order(f),
    ensures
        in_order(coffee::line_step(f, h)),
{
    let a = match h.require {
        Some(g) => coffee::with_names(
            extract::with_import(f, pattern::group_text(g, 1), false),
            h.require_idents,
        ),
        None => f,
    };
    match h.class {
        Some(g) => {
            let name = text::after_last(pattern::group_text(g, 1), "."@);
            lemma_with_def(a, name, "class"@);
            lemma_with_type_ref(
                extract::with_def(a, name, "class"@),
                text::after_last(pattern::group_text(g, 2), "."@),
            );
        },
        None => {
            match h.func {
                Some(g) => {
                    lemma_with_def(a, pattern::group_text(g, 1), "fn"@);
                },
                None => {},
            }
            let b = coffee::with_func(a, h.func);
            lemma_calls(b, h.calls);
            lemma_news(coffee::with_calls(b, h.calls), h.news);
        },
    }
}

proof fn lemma_lines(lines: Seq<Seq<char>>, hits: Seq<coffee::LineView>)
    ensures
        in_order(coffee::lines_found(lines, hits).1),
    decreases lines.len(),
{
    if lines.len() > 0 && hits.len() == lines.len() {
        lemma_lines(lines.drop_last(), hits.drop_last());
        lemma_line(coffee::lines_found(lines.drop_last(), hits.drop_last()).1, hits.last());
    }
}

proof fn lemma_links(caps: Seq<Seq<Option<Seq<char>>>>)
    ensures
        names::increasing(markdown::links_found(caps)),
    decreases caps.len(),
{
    if caps.len() > 0 {
        lemma_links(caps.drop_last());
        names::insert_keeps_order(
            markdown::links_found(caps.drop_last()),
            markdown::link_target(pattern::group_text(caps.last(), 1)),
        );
    }
}

proof fn lemma_tokens(links: Seq<Seq<char>>, caps: Seq<Seq<Option<Seq<char>>>>)
    requires
        names::increasing(links),
    ensures
        names::increasing(markdown::tokens_found(links, caps).0),
        names::increasing(markdown::tokens_found(links, caps).1),
        markdown::tokens_found(links, caps).1.len() <= MAX_DOC_ITEMS,
    decreases caps.len(),
{
    if caps.len() > 0 {
        lemma_tokens(links, caps.drop_last());
        let b = markdown::tokens_found(links, caps.drop_last());
        let t = markdown::token_text(pattern::group_text(caps.last(), 1));
        names::insert_keeps_order(b.0, t);
        names::insert_keeps_order(b.1, text::after_last(t, ":."@));
        lemma_insert_len(b.1, text::after_last(t, ":."@));
    }
}

/// Law: every parse result is in order: names ascend, each once, and the file
/// defines none of those it calls or refers to; no definition and no import
/// comes twice; and nothing exceeds its limit.
pub proof fn extraction_is_tidy(lang: Lang, content: Seq<u8>)
    ensures
        tidy(extract::extracted(lang, content)),
{
    let lines = text::lines(text::lossy(content));
    let hits = lines.map_values(|l: Seq<char>| coffee::scanned(l));
    lemma_lines(lines, hits);
    lemma_finished(coffee::lines_found(lines, hits).1, false);
    let links = pattern::regex_all_groups(markdown::LINK@, text::lossy(content));
    let codes = pattern::regex_all_groups(markdown::CODE@, text::lossy(content));
    lemma_links(links);
    lemma_tokens(markdown::links_found(links), codes);
    match lang.query_text() {
        Some(source) => match grammar::tree_captures(lang, source, content, extract::ANCESTORS_READ) {
            Some(caps) => {
                lemma_captured(caps);
                lemma_finished(extract::captured(caps), true);
            },
            None => {},
        },
        None => {},
    }
}

} // verus!
