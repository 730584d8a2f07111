//! What the lines of a CoffeeScript file give, over all lines.

use crate::coffee;
use crate::coffee::LineView;
use crate::extract;
use crate::extract::Found;
use crate::names;
use crate::pattern;
use crate::text;
use vstd::prelude::*;

verus! {

/// Law: a line that starts with a hash is a comment, and one that starts with
/// three opens a block that goes on to the next three; any other line is code.
pub proof fn comments_are_told_apart(line: Seq<char>, t: Seq<char>, rest: Seq<char>)
    requires
        t == text::trim_front(line, true, Seq::empty()),
    ensures
        coffee::comment_step(true, line) == (true, !text::has_infix(t, "###"@)),
        t == "###"@ + rest ==> coffee::comment_step(false, line) == (true, !text::has_infix(rest, "###"@)),
        t.len() > 0 && t[0] == '#' && !text::has_prefix(t, "###"@) ==> coffee::comment_step(false, line) == (true, false),
        t.len() == 0 || t[0] != '#' ==> coffee::comment_step(false, line) == (false, false),
{
    reveal_strlit("###");
    reveal_strlit("#");
    let s = "###"@ + rest;
    assert(s.take(3) =~= "###"@);
    assert(s.skip(3) =~= rest);
    if t.len() > 0 {
        assert(t.take(1)[0] == t[0]);
        if t[0] == '#' {
            assert(t.take(1) =~= "#"@);
        }
    }
    if text::has_prefix(t, "###"@) {
        assert(t.take(3)[0] == t[0]);
    }
}

/// Law: a comment adds nothing, and a line of code adds what is captured in it.
pub proof fn comments_add_nothing(lines: Seq<Seq<char>>, hits: Seq<LineView>, line: Seq<char>, hit: LineView)
    requires
        hits.len() == lines.len(),
    ensures
        ({
            let b = coffee::lines_found(lines, hits);
            let n = coffee::lines_found(lines.push(line), hits.push(hit));
            let c = coffee::comment_step(b.0, line);
            &&& n.0 == c.1
            &&& c.0 ==> n.1 == b.1
            &&& !c.0 ==> n.1 == coffee::line_step(b.1, hit)
        }),
{
    assert(lines.push(line).drop_last() =~= lines);
    assert(hits.push(hit).drop_last() =~= hits);
}

/// Law: an import line imports what it names, with the names of its clause, and
/// a re-export is one; both are nothing else. A require imports as well,
/// whatever else its line is.
pub proof fn imports_are_taken(f: Found, h: LineView)
    ensures
        h.import matches Some(g) ==> coffee::line_step(f, h).imports == f.imports.push(
            extract::bare_import(pattern::group_text(g, 2), false),
        ) && coffee::line_step(f, h).defs == f.defs && coffee::line_step(f, h).calls == f.calls,
        h.import is None ==> (h.export_from matches Some(g) ==> coffee::line_step(f, h).imports == f.imports.push(
            extract::bare_import(pattern::group_text(g, 1), true),
        ) && coffee::line_step(f, h).defs == f.defs && coffee::line_step(f, h).calls == f.calls),
        h.import is None && h.export_from is None ==> (h.require matches Some(g) ==> coffee::line_step(f, h).imports
            == f.imports.push(extract::bare_import(pattern::group_text(g, 1), false))),
        h.import is None && h.export_from is None && h.require is None ==> coffee::line_step(f, h).imports == f.imports,
{
    let a = match h.require {
        Some(g) => coffee::with_names(
            extract::with_import(f, pattern::group_text(g, 1), false),
            h.require_idents,
        ),
        None => f,
    };
    lemma_calls_keep(coffee::with_func(a, h.func), h.calls);
    lemma_news_keep(coffee::with_calls(coffee::with_func(a, h.func), h.calls), h.news);
}

proof fn lemma_calls_keep(f: Found, calls: Seq<Seq<Option<Seq<char>>>>)
    ensures
        coffee::with_calls(f, calls).imports == f.imports,
        coffee::with_calls(f, calls).defs == f.defs,
        coffee::with_calls(f, calls).names == f.names,
        coffee::with_calls(f, calls).type_refs == f.type_refs,
    decreases calls.len(),
{
    if calls.len() > 0 {
        lemma_calls_keep(f, calls.drop_last());
    }
}

proof fn lemma_news_keep(f: Found, news: Seq<Seq<Option<Seq<char>>>>)
    ensures
        coffee::with_news(f, news).imports == f.imports,
        coffee::with_news(f, news).defs == f.defs,
        coffee::with_news(f, news).names == f.names,
        coffee::with_news(f, news).calls == f.calls,
    decreases news.len(),
{
    if news.len() > 0 {
        lemma_news_keep(f, news.drop_last());
    }
}

/// Law: an imported name is kept where it has three bytes or more and is not a
/// word of the import clause.
pub proof fn clause_words_are_no_names(f: Found, idents: Seq<Seq<char>>, n: Seq<char>)
    ensures
        coffee::with_names(f, idents).names.contains(n) <==> f.names.contains(n) || (idents.contains(n) && n != "as"@ && n
            != "default"@ && text::byte_len(n) >= 3),
{
    let g = |n: Seq<char>| coffee::worth_keeping(n);
    crate::plain::lemma_filtered(idents, g);
    let b = idents.filter(g);
    let s = f.names + b;
    assert(b.contains(n) <==> idents.contains(n) && g(n));
    if s.contains(n) {
        let k = s.index_of(n);
        if k < f.names.len() {
            assert(f.names[k] == n);
        } else {
            assert(b[k - f.names.len()] == n);
        }
    }
    if f.names.contains(n) {
        assert(s[f.names.index_of(n)] == n);
    }
    if b.contains(n) {
        assert(s[f.names.len() + b.index_of(n)] == n);
    }
}

/// Law: what is called is kept, up to four hundred, unless it is one of the
/// words that stand before a bracket without being called.
pub proof fn calls_are_taken(f: Found, calls: Seq<Seq<Option<Seq<char>>>>, n: Seq<char>)
    requires
        names::increasing(f.calls),
        f.calls.len() + calls.len() <= 400,
    ensures
        names::increasing(coffee::with_calls(f, calls).calls),
        coffee::with_calls(f, calls).calls.len() <= f.calls.len() + calls.len(),
        coffee::with_calls(f, calls).calls.contains(n) <==> f.calls.contains(n) || (exists|i: int|
            0 <= i < calls.len() && pattern::group_text(#[trigger] calls[i], 1) == n) && !(n == "require"@ || n
            == "return"@ || n == "unless"@ || n == "until"@ || n == "while"@ || n == "switch"@ || n == "catch"@ || n
            == "throw"@ || n == "typeof"@ || n == "super"@ || n == "then"@ || n == "when"@),
    decreases calls.len(),
{
    if calls.len() > 0 {
        let d = calls.drop_last();
        let b = coffee::with_calls(f, d);
        let name = pattern::group_text(calls.last(), 1);
        calls_are_taken(f, d, n);
        names::insert_keeps_order(b.calls, name);
        crate::markdown::laws::lemma_insert_len(b.calls, name);
        assert(calls[calls.len() - 1] == calls.last());
        if exists|i: int| 0 <= i < d.len() && pattern::group_text(#[trigger] d[i], 1) == n {
            let i = choose|i: int| 0 <= i < d.len() && pattern::group_text(#[trigger] d[i], 1) == n;
            assert(calls[i] == d[i]);
        }
        if exists|i: int| 0 <= i < calls.len() && pattern::group_text(#[trigger] calls[i], 1) == n {
            let i = choose|i: int| 0 <= i < calls.len() && pattern::group_text(#[trigger] calls[i], 1) == n;
            if i < d.len() {
                assert(d[i] == calls[i]);
            }
        }
    }
}

/// Law: a class is defined under its last segment, and refers to the class that
/// it extends; a function is defined where its name has three bytes or more.
pub proof fn classes_and_functions_are_taken(f: Found, g: Seq<Option<Seq<char>>>, n: Seq<char>)
    requires
        f.defs.len() < 400,
        n == pattern::group_text(g, 1),
    ensures
        !f.def_names.contains(text::after_last(n, "."@)) ==> coffee::with_class(f, g).defs == f.defs.push(
            (crate::parsed::DefView { name: text::after_last(n, "."@), kind: "class"@ }),
        ),
        !pattern::has_group(g, 2) ==> coffee::with_class(f, g).type_refs == f.type_refs,
        text::byte_len(n) >= 3 && !f.def_names.contains(n) ==> coffee::with_func(f, Some(g)).defs == f.defs.push(
            (crate::parsed::DefView { name: n, kind: "fn"@ }),
        ),
        text::byte_len(n) < 3 ==> coffee::with_func(f, Some(g)) == f,
        coffee::with_func(f, None) == f,
{
}

} // verus!
