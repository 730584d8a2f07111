//! Markdown extraction: link targets that look like repo paths, and inline
//! code tokens that may name symbols.

use crate::extract::{MAX_DOC_ITEMS, MIN_NAME_LEN};
use crate::lang::Lang;
use crate::lang;
use crate::names::NameSet;
use crate::names;
use crate::parsed::ParsedFile;
use crate::parsed;
use crate::pattern;
use crate::text;
use vstd::prelude::*;

pub mod laws;

verus! {

pub const LINK: &'static str = "\\]\\(([^()\\s]+)\\)";

pub const CODE: &'static str = "`([^`\\n]{3,120})`";

/// A link target without its fragment.
pub open spec fn link_target(raw: Seq<char>) -> Seq<char> {
    text::split(raw, '#')[0]
}

/// A target that may be a path in the repository.
pub open spec fn repo_target(target: Seq<char>) -> bool {
    target.len() > 0 && !text::has_infix(target, "://"@) && !text::has_prefix(target, "mailto:"@)
        && !text::has_prefix(target, "#"@)
}

/// The links among the captured targets, up to the limit.
pub open spec fn links_found(caps: Seq<Seq<Option<Seq<char>>>>) -> Seq<Seq<char>>
    decreases caps.len(),
{
    if caps.len() == 0 {
        Seq::empty()
    } else {
        let b = links_found(caps.drop_last());
        let target = link_target(pattern::group_text(caps.last(), 1));
        if b.len() < MAX_DOC_ITEMS && repo_target(target) {
            names::sorted_insert(b, target)
        } else {
            b
        }
    }
}

/// A code token without white space and call brackets.
pub open spec fn token_text(raw: Seq<char>) -> Seq<char> {
    text::strip_back_all(text::trimmed(raw), "()"@)
}

pub open spec fn letter(c: char) -> bool {
    ('a' <= c && c <= 'z') || ('A' <= c && c <= 'Z')
}

/// Letters, digits, underscores and the separators of qualified names.
pub open spec fn identifier_like(t: Seq<char>) -> bool {
    forall|i: int|
        0 <= i < t.len() ==> letter(#[trigger] t[i]) || ('0' <= t[i] && t[i] <= '9') || t[i] == '_' || t[i] == ':'
            || t[i] == '.'
}

pub open spec fn path_like(t: Seq<char>) -> bool {
    text::has_infix(t, "/"@) || lang::lang_at(t) is Some
}

/// The links and tokens once a captured code token is taken in. A qualified
/// name counts by its last segment.
pub open spec fn token_step(links: Seq<Seq<char>>, tokens: Seq<Seq<char>>, raw: Seq<char>) -> (
    Seq<Seq<char>>,
    Seq<Seq<char>>,
) {
    let t = token_text(raw);
    if text::byte_len(t) < MIN_NAME_LEN || tokens.len() >= MAX_DOC_ITEMS {
        (links, tokens)
    } else if path_like(t) {
        (names::sorted_insert(links, t), tokens)
    } else if identifier_like(t) && t.len() > 0 && (letter(t[0]) || t[0] == '_') && text::byte_len(
        text::after_last(t, ":."@),
    ) >= MIN_NAME_LEN {
        (links, names::sorted_insert(tokens, text::after_last(t, ":."@)))
    } else {
        (links, tokens)
    }
}

/// The links and tokens behind the captured code tokens.
pub open spec fn tokens_found(links: Seq<Seq<char>>, caps: Seq<Seq<Option<Seq<char>>>>) -> (
    Seq<Seq<char>>,
    Seq<Seq<char>>,
)
    decreases caps.len(),
{
    if caps.len() == 0 {
        (links, Seq::empty())
    } else {
        let b = tokens_found(links, caps.drop_last());
        token_step(b.0, b.1, pattern::group_text(caps.last(), 1))
    }
}

/// The parse result of a document out of what the patterns captured in it.
pub open spec fn doc_parsed(
    links: Seq<Seq<Option<Seq<char>>>>,
    codes: Seq<Seq<Option<Seq<char>>>>,
) -> parsed::ParsedView {
    let found = tokens_found(links_found(links), codes);
    parsed::ParsedView { doc_links: found.0, doc_tokens: found.1, ..parsed::nothing_parsed() }
}

fn is_letter(c: char) -> (r: bool)
    ensures
        r == letter(c),
{
    ('a' <= c && c <= 'z') || ('A' <= c && c <= 'Z')
}

fn looks_like_identifier(t: &Vec<char>) -> (r: bool)
    ensures
        r == identifier_like(t@),
{
    let mut i: usize = 0;
    while i < t.len()
        invariant
            i <= t@.len(),
            identifier_like(t@.take(i as int)),
        decreases t@.len() - i,
    {
        let c = t[i];
        if !(is_letter(c) || ('0' <= c && c <= '9') || c == '_' || c == ':' || c == '.') {
            assert(t@[i as int] == c);
            return false;
        }
        assert forall|k: int| 0 <= k < i + 1 implies letter(#[trigger] t@.take(i + 1)[k]) || ('0' <= t@.take(i + 1)[k]
            && t@.take(i + 1)[k] <= '9') || t@.take(i + 1)[k] == '_' || t@.take(i + 1)[k] == ':' || t@.take(i + 1)[k]
            == '.' by {
            if k < i {
                assert(t@.take(i as int)[k] == t@[k]);
            }
        }
        i += 1;
    }
    assert(t@.take(i as int) =~= t@);
    true
}

fn collect_links(caps: &Vec<Vec<Option<String>>>) -> (r: NameSet)
    ensures
        r@ == links_found(pattern::all_groups_view(caps@)),
        names::increasing(r@),
{
    let mut links = NameSet::new();
    let ghost s = pattern::all_groups_view(caps@);
    let mut i: usize = 0;
    assert(s.take(0) =~= Seq::<Seq<Option<Seq<char>>>>::empty());
    while i < caps.len()
        invariant
            i <= caps@.len(),
            s == pattern::all_groups_view(caps@),
            links@ == links_found(s.take(i as int)),
            names::increasing(links@),
        decreases caps@.len() - i,
    {
        proof {
            assert(s.take(i + 1).drop_last() =~= s.take(i as int));
            assert(s.take(i + 1).last() == pattern::groups_view(caps@[i as int]@));
        }
        let raw = pattern::group(&caps[i], 1);
        let pieces = text::split_on(raw.as_str(), '#');
        assert(text::views(pieces@)[0] == pieces@[0]@);
        let target = pieces[0].as_str();
        if links.len() < MAX_DOC_ITEMS && target.unicode_len() > 0 && !text::contains_text(target, "://")
            && !text::starts_with(target, "mailto:") && !text::starts_with(target, "#") {
            links.insert(pieces[0].clone());
        }
        i += 1;
    }
    assert(s.take(i as int) =~= s);
    links
}

fn take_token(links: &mut NameSet, tokens: &mut NameSet, raw: &str)
    requires
        names::increasing(old(links)@),
        names::increasing(old(tokens)@),
    ensures
        names::increasing(final(links)@),
        names::increasing(final(tokens)@),
        (final(links)@, final(tokens)@) == token_step(old(links)@, old(tokens)@, raw@),
{
    proof {
        reveal_strlit("()");
    }
    let inner = text::trim(raw);
    let t = text::strip_back(inner.as_str(), "()");
    if text::bytes_in(t.as_str()) < MIN_NAME_LEN || tokens.len() >= MAX_DOC_ITEMS {
        return ;
    }
    if text::contains_text(t.as_str(), "/") || Lang::from_path(t.as_str()).is_some() {
        links.insert(t);
    } else {
        let v = text::to_chars(t.as_str());
        if looks_like_identifier(&v) && v.len() > 0 && (is_letter(v[0]) || v[0] == '_') {
            // Keep the trailing segment of Foo::bar or a.b style tokens.
            let last = text::behind_last(t.as_str(), ":.");
            if text::bytes_in(last.as_str()) >= MIN_NAME_LEN {
                tokens.insert(last);
            }
        }
    }
}

/// The parse result of a document out of the link targets and code tokens
/// that were captured in it.
pub fn extract_markdown_captures(links: &Vec<Vec<Option<String>>>, codes: &Vec<Vec<Option<String>>>) -> (r: ParsedFile)
    ensures
        r@ == doc_parsed(pattern::all_groups_view(links@), pattern::all_groups_view(codes@)),
{
    let ghost first = links_found(pattern::all_groups_view(links@));
    let mut found = collect_links(links);
    let mut tokens = NameSet::new();
    let ghost s = pattern::all_groups_view(codes@);
    let mut i: usize = 0;
    assert(s.take(0) =~= Seq::<Seq<Option<Seq<char>>>>::empty());
    while i < codes.len()
        invariant
            i <= codes@.len(),
            s == pattern::all_groups_view(codes@),
            (found@, tokens@) == tokens_found(first, s.take(i as int)),
            names::increasing(found@),
            names::increasing(tokens@),
        decreases codes@.len() - i,
    {
        proof {
            assert(s.take(i + 1).drop_last() =~= s.take(i as int));
            assert(s.take(i + 1).last() == pattern::groups_view(codes@[i as int]@));
        }
        let raw = pattern::group(&codes[i], 1);
        take_token(&mut found, &mut tokens, raw.as_str());
        i += 1;
    }
    assert(s.take(i as int) =~= s);
    let mut r = ParsedFile::default();
    r.doc_links = found.into_list();
    r.doc_tokens = tokens.into_list();
    r
}

/// The parse result of a Markdown document.
pub fn extract_markdown(content: &Vec<u8>) -> (r: ParsedFile)
    ensures
        r@ == doc_parsed(
            pattern::regex_all_groups(LINK@, text::lossy(content@)),
            pattern::regex_all_groups(CODE@, text::lossy(content@)),
        ),
{
    let mut texts: Vec<String> = Vec::new();
    texts.push(text::utf8_lossy(content));
    let links = pattern::captures_all_each(LINK, &texts);
    let codes = pattern::captures_all_each(CODE, &texts);
    assert(pattern::all_groups_view(links@[0]@) == pattern::regex_all_groups(LINK@, texts@[0]@));
    assert(pattern::all_groups_view(codes@[0]@) == pattern::regex_all_groups(CODE@, texts@[0]@));
    extract_markdown_captures(&links[0], &codes[0])
}

} // verus!
