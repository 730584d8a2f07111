//! Line-based CoffeeScript extraction. CoffeeScript has no maintained
//! tree-sitter grammar (its indentation-sensitive syntax resists one), so this
//! follows the Markdown precedent: conservative patterns over lines, favoring
//! missed edges over invented ones.

use crate::extract::{Extraction, MIN_NAME_LEN};
use crate::extract;
use crate::parsed::ParsedFile;
use crate::parsed;
use crate::pattern;
use crate::text;
use vstd::prelude::*;

pub mod laws;

verus! {

pub const IMPORT: &'static str = "^\\s*import\\s+(?:(.+?)\\s+from\\s+)?[\"']([^\"']+)[\"']";

pub const EXPORT_FROM: &'static str = "^\\s*export\\s+.*?\\bfrom\\s+[\"']([^\"']+)[\"']";

pub const REQUIRE: &'static str = "\\brequire\\s*\\(?\\s*[\"']([^\"']+)[\"']";

pub const REQUIRE_NAMES: &'static str = "^\\s*(?:\\{([^}]+)\\}|([A-Za-z_$][\\w$]*))\\s*=\\s*require\\b";

pub const CLASS: &'static str =
    "^\\s*class\\s+([A-Za-z_$][\\w$.]*)(?:\\s+extends\\s+([A-Za-z_$][\\w$.]*))?";

pub const FUNC: &'static str = "^\\s*([A-Za-z_$][\\w$]*)\\s*[:=]\\s*(?:\\([^)]*\\)\\s*)?[-=]>";

pub const CALL: &'static str = "([A-Za-z_$][\\w$]{2,})\\s*\\(";

pub const NEW: &'static str = "\\bnew\\s+([A-Za-z_$][\\w$.]*)";

pub const IDENT: &'static str = "[A-Za-z_$][\\w$]*";

/// Words that stand before a bracket without being called.
pub open spec fn stopword(name: Seq<char>) -> bool {
    ||| name == "require"@
    ||| name == "return"@
    ||| name == "unless"@
    ||| name == "until"@
    ||| name == "while"@
    ||| name == "switch"@
    ||| name == "catch"@
    ||| name == "throw"@
    ||| name == "typeof"@
    ||| name == "super"@
    ||| name == "then"@
    ||| name == "when"@
}

/// What the patterns captured in one line.
#[verifier::ext_equal]
pub struct LineView {
    pub import: Option<Seq<Option<Seq<char>>>>,
    /// The identifiers of the import's clause.
    pub import_idents: Seq<Seq<char>>,
    pub export_from: Option<Seq<Option<Seq<char>>>>,
    pub require: Option<Seq<Option<Seq<char>>>>,
    /// The identifiers that a require is assigned to.
    pub require_idents: Seq<Seq<char>>,
    pub class: Option<Seq<Option<Seq<char>>>>,
    pub func: Option<Seq<Option<Seq<char>>>>,
    pub calls: Seq<Seq<Option<Seq<char>>>>,
    pub news: Seq<Seq<Option<Seq<char>>>>,
}

/// What the patterns captured in each line of a file.
pub struct LineHits {
    pub import: Vec<Option<Vec<Option<String>>>>,
    pub import_idents: Vec<Vec<String>>,
    pub export_from: Vec<Option<Vec<Option<String>>>>,
    pub require: Vec<Option<Vec<Option<String>>>>,
    pub require_idents: Vec<Vec<String>>,
    pub class: Vec<Option<Vec<Option<String>>>>,
    pub func: Vec<Option<Vec<Option<String>>>>,
    pub calls: Vec<Vec<Vec<Option<String>>>>,
    pub news: Vec<Vec<Vec<Option<String>>>>,
}

impl LineHits {
    /// One entry per line.
    pub open spec fn covers(&self, n: int) -> bool {
        &&& self.import@.len() == n
        &&& self.import_idents@.len() == n
        &&& self.export_from@.len() == n
        &&& self.require@.len() == n
        &&& self.require_idents@.len() == n
        &&& self.class@.len() == n
        &&& self.func@.len() == n
        &&& self.calls@.len() == n
        &&& self.news@.len() == n
    }

    /// What was captured in line `i`.
    pub open spec fn line(&self, i: int) -> LineView {
        LineView {
            import: pattern::opt_groups_view(self.import@[i]),
            import_idents: text::views(self.import_idents@[i]@),
            export_from: pattern::opt_groups_view(self.export_from@[i]),
            require: pattern::opt_groups_view(self.require@[i]),
            require_idents: text::views(self.require_idents@[i]@),
            class: pattern::opt_groups_view(self.class@[i]),
            func: pattern::opt_groups_view(self.func@[i]),
            calls: pattern::all_groups_view(self.calls@[i]@),
            news: pattern::all_groups_view(self.news@[i]@),
        }
    }
}

/// The identifiers of the first group that took part among two.
pub open spec fn idents_in(g: Option<Seq<Option<Seq<char>>>>) -> Seq<Seq<char>> {
    match g {
        Some(g) => if pattern::has_group(g, 1) {
            pattern::regex_finds(IDENT@, pattern::group_text(g, 1))
        } else if pattern::has_group(g, 2) {
            pattern::regex_finds(IDENT@, pattern::group_text(g, 2))
        } else {
            Seq::empty()
        },
        None => Seq::empty(),
    }
}

/// The identifiers of the first group, where it took part.
pub open spec fn clause_idents(g: Option<Seq<Option<Seq<char>>>>) -> Seq<Seq<char>> {
    match g {
        Some(g) => if pattern::has_group(g, 1) {
            pattern::regex_finds(IDENT@, pattern::group_text(g, 1))
        } else {
            Seq::empty()
        },
        None => Seq::empty(),
    }
}

/// What the patterns capture in a line.
pub open spec fn scanned(line: Seq<char>) -> LineView {
    LineView {
        import: pattern::regex_groups(IMPORT@, line),
        import_idents: clause_idents(pattern::regex_groups(IMPORT@, line)),
        export_from: pattern::regex_groups(EXPORT_FROM@, line),
        require: pattern::regex_groups(REQUIRE@, line),
        require_idents: idents_in(pattern::regex_groups(REQUIRE_NAMES@, line)),
        class: pattern::regex_groups(CLASS@, line),
        func: pattern::regex_groups(FUNC@, line),
        calls: pattern::regex_all_groups(CALL@, line),
        news: pattern::regex_all_groups(NEW@, line),
    }
}

/// The identifiers worth keeping as imported names.
pub open spec fn worth_keeping(n: Seq<char>) -> bool {
    n != "as"@ && n != "default"@ && text::byte_len(n) >= MIN_NAME_LEN
}

pub open spec fn with_names(f: extract::Found, idents: Seq<Seq<char>>) -> extract::Found {
    extract::Found { names: f.names + idents.filter(|n: Seq<char>| worth_keeping(n)), ..f }
}

/// What the call sites of a line add.
pub open spec fn with_calls(f: extract::Found, calls: Seq<Seq<Option<Seq<char>>>>) -> extract::Found
    decreases calls.len(),
{
    if calls.len() == 0 {
        f
    } else {
        let b = with_calls(f, calls.drop_last());
        let name = pattern::group_text(calls.last(), 1);
        if stopword(name) {
            b
        } else {
            extract::with_call(b, name)
        }
    }
}

/// What the constructions of a line add.
pub open spec fn with_news(f: extract::Found, news: Seq<Seq<Option<Seq<char>>>>) -> extract::Found
    decreases news.len(),
{
    if news.len() == 0 {
        f
    } else {
        let b = with_news(f, news.drop_last());
        extract::with_type_ref(b, text::after_last(pattern::group_text(news.last(), 1), "."@))
    }
}

/// What a class line adds: the class, and the class it extends.
pub open spec fn with_class(f: extract::Found, g: Seq<Option<Seq<char>>>) -> extract::Found {
    let b = extract::with_def(f, text::after_last(pattern::group_text(g, 1), "."@), "class"@);
    if pattern::has_group(g, 2) {
        extract::with_type_ref(b, text::after_last(pattern::group_text(g, 2), "."@))
    } else {
        b
    }
}

/// What a function line adds.
pub open spec fn with_func(f: extract::Found, g: Option<Seq<Option<Seq<char>>>>) -> extract::Found {
    match g {
        Some(g) => if text::byte_len(pattern::group_text(g, 1)) >= MIN_NAME_LEN {
            extract::with_def(f, pattern::group_text(g, 1), "fn"@)
        } else {
            f
        },
        None => f,
    }
}

/// What a line that is no comment adds. An import or a re-export is nothing
/// else; a require may stand beside a definition, and a class line holds no
/// call.
pub open spec fn line_step(f: extract::Found, h: LineView) -> extract::Found {
    match h.import {
        Some(g) => extract::with_import(with_names(f, h.import_idents), pattern::group_text(g, 2), false),
        None => match h.export_from {
            Some(g) => extract::with_import(f, pattern::group_text(g, 1), true),
            None => {
                let a = match h.require {
                    Some(g) => with_names(
                        extract::with_import(f, pattern::group_text(g, 1), false),
                        h.require_idents,
                    ),
                    None => f,
                };
                match h.class {
                    Some(g) => with_class(a, g),
                    None => with_news(with_calls(with_func(a, h.func), h.calls), h.news),
                }
            },
        },
    }
}

/// Whether a line is a comment, and whether a block comment is open behind
/// it. A one-line ### comment ### closes itself.
pub open spec fn comment_step(open: bool, line: Seq<char>) -> (bool, bool) {
    let t = text::trim_front(line, true, Seq::empty());
    if open {
        (true, !text::has_infix(t, "###"@))
    } else if text::has_prefix(t, "###"@) {
        (true, !text::has_infix(t.skip(3), "###"@))
    } else if text::has_prefix(t, "#"@) {
        (true, false)
    } else {
        (false, false)
    }
}

/// Whether a block comment is open behind the lines, and what they add up to.
pub open spec fn lines_found(lines: Seq<Seq<char>>, hits: Seq<LineView>) -> (bool, extract::Found)
    decreases lines.len(),
{
    if lines.len() == 0 || hits.len() != lines.len() {
        (false, extract::nothing_found())
    } else {
        let b = lines_found(lines.drop_last(), hits.drop_last());
        let c = comment_step(b.0, lines.last());
        (c.1, if c.0 { b.1 } else { line_step(b.1, hits.last()) })
    }
}

/// The parse result of a CoffeeScript file.
pub open spec fn coffee_parsed(content: Seq<u8>) -> parsed::ParsedView {
    let lines = text::lines(text::lossy(content));
    extract::finished(lines_found(lines, lines.map_values(|l: Seq<char>| scanned(l))).1, false)
}

fn is_stopword(name: &str) -> (r: bool)
    ensures
        r == stopword(name@),
{
    text::eq_str(name, "require") || text::eq_str(name, "return") || text::eq_str(name, "unless") || text::eq_str(
        name,
        "until",
    ) || text::eq_str(name, "while") || text::eq_str(name, "switch") || text::eq_str(name, "catch") || text::eq_str(
        name,
        "throw",
    ) || text::eq_str(name, "typeof") || text::eq_str(name, "super") || text::eq_str(name, "then") || text::eq_str(
        name,
        "when",
    )
}

fn push_names(e: &mut Extraction, idents: &Vec<String>)
    requires
        old(e).wf(),
    ensures
        final(e).wf(),
        final(e)@ == with_names(old(e)@, text::views(idents@)),
{
    let ghost before = e@;
    let ghost s = text::views(idents@);
    let ghost f = |n: Seq<char>| worth_keeping(n);
    let mut i: usize = 0;
    proof {
        reveal(Seq::filter);
        assert(s.take(0) =~= Seq::<Seq<char>>::empty());
        assert(before.names + s.take(0).filter(f) =~= before.names);
    }
    while i < idents.len()
        invariant
            i <= idents@.len(),
            s == text::views(idents@),
            f == (|n: Seq<char>| worth_keeping(n)),
            e.wf(),
            e@ == (extract::Found { names: before.names + s.take(i as int).filter(f), ..before }),
        decreases idents@.len() - i,
    {
        let n = idents[i].as_str();
        proof {
            reveal(Seq::filter);
            assert(s.take(i + 1).drop_last() =~= s.take(i as int));
            assert(s.take(i + 1).last() == n@);
        }
        if !text::eq_str(n, "as") && !text::eq_str(n, "default") && text::bytes_in(n) >= MIN_NAME_LEN {
            e.add_name(idents[i].clone());
            assert((before.names + s.take(i as int).filter(f)).push(n@) =~= before.names + s.take(i + 1).filter(f));
        }
        i += 1;
    }
    assert(s.take(i as int) =~= s);
}

fn add_calls(e: &mut Extraction, calls: &Vec<Vec<Option<String>>>)
    requires
        old(e).wf(),
    ensures
        final(e).wf(),
        final(e)@ == with_calls(old(e)@, pattern::all_groups_view(calls@)),
{
    let ghost before = e@;
    let ghost s = pattern::all_groups_view(calls@);
    let mut i: usize = 0;
    assert(s.take(0) =~= Seq::<Seq<Option<Seq<char>>>>::empty());
    while i < calls.len()
        invariant
            i <= calls@.len(),
            s == pattern::all_groups_view(calls@),
            e.wf(),
            e@ == with_calls(before, s.take(i as int)),
        decreases calls@.len() - i,
    {
        proof {
            assert(s.take(i + 1).drop_last() =~= s.take(i as int));
            assert(s.take(i + 1).last() == pattern::groups_view(calls@[i as int]@));
        }
        let name = pattern::group(&calls[i], 1);
        if !is_stopword(name.as_str()) {
            e.add_call(name);
        }
        i += 1;
    }
    assert(s.take(i as int) =~= s);
}

fn add_news(e: &mut Extraction, news: &Vec<Vec<Option<String>>>)
    requires
        old(e).wf(),
    ensures
        final(e).wf(),
        final(e)@ == with_news(old(e)@, pattern::all_groups_view(news@)),
{
    let ghost before = e@;
    let ghost s = pattern::all_groups_view(news@);
    let mut i: usize = 0;
    assert(s.take(0) =~= Seq::<Seq<Option<Seq<char>>>>::empty());
    while i < news.len()
        invariant
            i <= news@.len(),
            s == pattern::all_groups_view(news@),
            e.wf(),
            e@ == with_news(before, s.take(i as int)),
        decreases news@.len() - i,
    {
        proof {
            assert(s.take(i + 1).drop_last() =~= s.take(i as int));
            assert(s.take(i + 1).last() == pattern::groups_view(news@[i as int]@));
        }
        let full = pattern::group(&news[i], 1);
        e.add_type_ref(text::behind_last(full.as_str(), "."));
        i += 1;
    }
    assert(s.take(i as int) =~= s);
}

/// Take in what one line that is no comment adds.
fn take_line(e: &mut Extraction, hits: &LineHits, i: usize)
    requires
        old(e).wf(),
        exists|n: int| i < n && hits.covers(n),
    ensures
        final(e).wf(),
        final(e)@ == line_step(old(e)@, hits.line(i as int)),
{
    if let Some(g) = &hits.import[i] {
        push_names(e, &hits.import_idents[i]);
        e.add_import(pattern::group(g, 2), false);
        return ;
    }
    if let Some(g) = &hits.export_from[i] {
        e.add_import(pattern::group(g, 1), true);
        return ;
    }
    if let Some(g) = &hits.require[i] {
        e.add_import(pattern::group(g, 1), false);
        push_names(e, &hits.require_idents[i]);
    }
    if let Some(g) = &hits.class[i] {
        let full = pattern::group(g, 1);
        e.add_def(text::behind_last(full.as_str(), "."), "class");
        if pattern::took_part(g, 2) {
            let parent = pattern::group(g, 2);
            e.add_type_ref(text::behind_last(parent.as_str(), "."));
        }
        return ;
    }
    if let Some(g) = &hits.func[i] {
        let name = pattern::group(g, 1);
        if text::bytes_in(name.as_str()) >= MIN_NAME_LEN {
            e.add_def(name, "fn");
        }
    }
    add_calls(e, &hits.calls[i]);
    add_news(e, &hits.news[i]);
}

/// Whether a line is a comment, and whether a block comment is open behind
/// it.
pub fn comment_line(open: bool, line: &str) -> (r: (bool, bool))
    ensures
        r == comment_step(open, line@),
{
    let t = text::trim_start(line);
    proof {
        reveal_strlit("###");
    }
    if open {
        (true, !text::contains_text(t.as_str(), "###"))
    } else if text::starts_with(t.as_str(), "###") {
        let rest = text::tail_text(t.as_str(), 3);
        (true, !text::contains_text(rest.as_str(), "###"))
    } else if text::starts_with(t.as_str(), "#") {
        (true, false)
    } else {
        (false, false)
    }
}

/// The parse result of a file out of its lines and what the patterns captured
/// in each of them.
pub fn extract_coffee_lines(lines: &Vec<String>, hits: &LineHits) -> (r: ParsedFile)
    requires
        hits.covers(lines@.len() as int),
    ensures
        r@ == extract::finished(
            lines_found(text::views(lines@), Seq::new(lines@.len(), |i: int| hits.line(i))).1,
            false,
        ),
{
    let mut e = Extraction::new();
    let mut open = false;
    let ghost ls = text::views(lines@);
    let ghost hs = Seq::new(lines@.len(), |i: int| hits.line(i));
    let mut i: usize = 0;
    while i < lines.len()
        invariant
            i <= lines@.len(),
            ls == text::views(lines@),
            hs == Seq::new(lines@.len(), |i: int| hits.line(i)),
            hits.covers(lines@.len() as int),
            e.wf(),
            (open, e@) == lines_found(ls.take(i as int), hs.take(i as int)),
        decreases lines@.len() - i,
    {
        proof {
            assert(ls.take(i + 1).drop_last() =~= ls.take(i as int));
            assert(hs.take(i + 1).drop_last() =~= hs.take(i as int));
            assert(ls.take(i + 1).last() == lines@[i as int]@);
            assert(hs.take(i + 1).last() == hits.line(i as int));
        }
        let (skip, inside) = comment_line(open, lines[i].as_str());
        open = inside;
        if !skip {
            take_line(&mut e, hits, i);
        }
        i += 1;
    }
    assert(ls.take(i as int) =~= ls);
    assert(hs.take(i as int) =~= hs);
    e.finish(false)
}

fn idents_of(found: &Vec<Option<Vec<Option<String>>>>, second: bool) -> (r: Vec<Vec<String>>)
    ensures
        r@.len() == found@.len(),
        forall|i: int|
            0 <= i < r@.len() ==> text::views((#[trigger] r@[i])@) == (if second {
                idents_in(pattern::opt_groups_view(found@[i]))
            } else {
                clause_idents(pattern::opt_groups_view(found@[i]))
            }),
{
    let mut out: Vec<Vec<String>> = Vec::new();
    let mut i: usize = 0;
    while i < found.len()
        invariant
            i <= found@.len(),
            out@.len() == i,
            forall|k: int|
                0 <= k < i ==> text::views((#[trigger] out@[k])@) == (if second {
                    idents_in(pattern::opt_groups_view(found@[k]))
                } else {
                    clause_idents(pattern::opt_groups_view(found@[k]))
                }),
        decreases found@.len() - i,
    {
        let idents = match &found[i] {
            Some(g) => {
                if pattern::took_part(g, 1) {
                    let clause = pattern::group(g, 1);
                    pattern::find_all(IDENT, clause.as_str())
                } else if second && pattern::took_part(g, 2) {
                    let single = pattern::group(g, 2);
                    pattern::find_all(IDENT, single.as_str())
                } else {
                    Vec::new()
                }
            },
            None => Vec::new(),
        };
        assert(text::views(idents@) =~= (if second {
            idents_in(pattern::opt_groups_view(found@[i as int]))
        } else {
            clause_idents(pattern::opt_groups_view(found@[i as int]))
        }));
        out.push(idents);
        i += 1;
    }
    out
}

/// What the patterns capture in each line.
pub fn scan_lines(lines: &Vec<String>) -> (r: LineHits)
    ensures
        r.covers(lines@.len() as int),
        forall|i: int| 0 <= i < lines@.len() ==> #[trigger] r.line(i) == scanned(lines@[i]@),
{
    let import = pattern::captures_each(IMPORT, lines);
    let import_idents = idents_of(&import, false);
    let require_names = pattern::captures_each(REQUIRE_NAMES, lines);
    let require_idents = idents_of(&require_names, true);
    let r = LineHits {
        import,
        import_idents,
        export_from: pattern::captures_each(EXPORT_FROM, lines),
        require: pattern::captures_each(REQUIRE, lines),
        require_idents,
        class: pattern::captures_each(CLASS, lines),
        func: pattern::captures_each(FUNC, lines),
        calls: pattern::captures_all_each(CALL, lines),
        news: pattern::captures_all_each(NEW, lines),
    };
    assert forall|i: int| 0 <= i < lines@.len() implies #[trigger] r.line(i) == scanned(lines@[i]@) by {
        let l = lines@[i]@;
        assert(pattern::opt_groups_view(r.import@[i]) == pattern::regex_groups(IMPORT@, l));
        assert(text::views(r.import_idents@[i]@) == clause_idents(pattern::regex_groups(IMPORT@, l)));
        assert(text::views(r.require_idents@[i]@) == idents_in(pattern::opt_groups_view(require_names@[i])));
        assert(pattern::opt_groups_view(require_names@[i]) == pattern::regex_groups(REQUIRE_NAMES@, l));
        assert(pattern::opt_groups_view(r.export_from@[i]) == pattern::regex_groups(EXPORT_FROM@, l));
        assert(pattern::opt_groups_view(r.require@[i]) == pattern::regex_groups(REQUIRE@, l));
        assert(pattern::opt_groups_view(r.class@[i]) == pattern::regex_groups(CLASS@, l));
        assert(pattern::opt_groups_view(r.func@[i]) == pattern::regex_groups(FUNC@, l));
        assert(pattern::all_groups_view(r.calls@[i]@) == pattern::regex_all_groups(CALL@, l));
        assert(pattern::all_groups_view(r.news@[i]@) == pattern::regex_all_groups(NEW@, l));
    }
    r
}

/// The parse result of a CoffeeScript file.
pub fn extract_coffee(content: &Vec<u8>) -> (r: ParsedFile)
    ensures
        r@ == coffee_parsed(content@),
{
    let t = text::utf8_lossy(content);
    let lines = text::lines_of(t.as_str());
    let hits = scan_lines(&lines);
    proof {
        let ls = text::views(lines@);
        assert(Seq::new(lines@.len(), |i: int| hits.line(i)) =~= ls.map_values(|l: Seq<char>| scanned(l)));
    }
    extract_coffee_lines(&lines, &hits)
}

} // verus!
