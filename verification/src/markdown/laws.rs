//! What links and tokens a document gives, over all captures.

use crate::lang;
use crate::markdown;
use crate::names;
use crate::pattern;
use crate::text;
use vstd::prelude::*;

verus! {

/// Law: a link leads to what stands before its fragment.
pub proof fn fragments_are_cut(target: Seq<char>, fragment: Seq<char>)
    requires
        !target.contains('#'),
        !fragment.contains('#'),
    ensures
        markdown::link_target(target + "#"@ + fragment) == target,
        markdown::link_target(target) == target,
{
    reveal_strlit("#");
    text::lemma_split_plain(target, '#');
    text::lemma_split_append(target, '#', fragment);
    assert(target + "#"@ + fragment =~= target.push('#') + fragment);
}

/// Law: addresses of the web and of mail are no paths of the repository, and
/// neither is nothing.
pub proof fn addresses_are_no_paths(front: Seq<char>, rest: Seq<char>)
    ensures
        !markdown::repo_target(front + "://"@ + rest),
        !markdown::repo_target("mailto:"@ + rest),
        !markdown::repo_target("#"@ + rest),
        !markdown::repo_target(Seq::empty()),
{
    let s = front + "://"@ + rest;
    let k = front.len() as int;
    assert(s.subrange(k, k + "://"@.len()) =~= "://"@);
    assert(text::occurs_at(s, "://"@, k));
    assert(("mailto:"@ + rest).take("mailto:"@.len() as int) =~= "mailto:"@);
    assert(("#"@ + rest).take("#"@.len() as int) =~= "#"@);
}

/// Law: any other target may be one.
pub proof fn other_targets_are_paths(t: Seq<char>)
    requires
        t.len() > 0,
        t[0] != '#',
        t[0] != 'm',
        !t.contains(':'),
    ensures
        markdown::repo_target(t),
{
    reveal_strlit("://");
    reveal_strlit("mailto:");
    reveal_strlit("#");
    if text::has_infix(t, "://"@) {
        let i = choose|i: int| #[trigger] text::occurs_at(t, "://"@, i);
        assert(t.subrange(i, i + 3)[0] == t[i]);
        assert(t.contains(t[i]));
    }
    if text::has_prefix(t, "mailto:"@) {
        assert(t.take(7)[0] == t[0]);
    }
    if text::has_prefix(t, "#"@) {
        assert(t.take(1)[0] == t[0]);
    }
}

/// What the capture of a link leads to.
pub open spec fn captured_target(cap: Seq<Option<Seq<char>>>) -> Seq<char> {
    markdown::link_target(pattern::group_text(cap, 1))
}

proof fn lemma_links(caps: Seq<Seq<Option<Seq<char>>>>)
    ensures
        names::increasing(markdown::links_found(caps)),
        markdown::links_found(caps).len() <= caps.len(),
        forall|k: int|
            0 <= k < markdown::links_found(caps).len() ==> exists|i: int|
                0 <= i < caps.len() && markdown::repo_target(captured_target(#[trigger] caps[i])) && captured_target(caps[i])
                    == (#[trigger] markdown::links_found(caps)[k]),
    decreases caps.len(),
{
    if caps.len() > 0 {
        let d = caps.drop_last();
        let b = markdown::links_found(d);
        let s = markdown::links_found(caps);
        let t = captured_target(caps.last());
        lemma_links(d);
        names::insert_keeps_order(b, t);
        lemma_insert_len(b, t);
        assert(caps[caps.len() - 1] == caps.last());
        assert forall|k: int| 0 <= k < s.len() implies exists|i: int|
            0 <= i < caps.len() && markdown::repo_target(captured_target(#[trigger] caps[i])) && captured_target(caps[i])
                == (#[trigger] s[k]) by {
            assert(s.contains(s[k]));
            if b.contains(s[k]) {
                let m = b.index_of(s[k]);
                let i = choose|i: int|
                    0 <= i < d.len() && markdown::repo_target(captured_target(#[trigger] d[i])) && captured_target(d[i])
                        == (#[trigger] b[m]);
                assert(caps[i] == d[i]);
            } else {
                assert(captured_target(caps[caps.len() - 1]) == s[k]);
            }
        }
    }
}

pub proof fn lemma_insert_len(s: Seq<Seq<char>>, x: Seq<char>)
    ensures
        names::sorted_insert(s, x).len() <= s.len() + 1,
    decreases s.len(),
{
    if s.len() > 0 {
        lemma_insert_len(s.drop_last(), x);
    }
}

/// Law: of up to two hundred links every one that may be a path of the
/// repository is found, each once and in order, and nothing else is.
pub proof fn links_are_found(caps: Seq<Seq<Option<Seq<char>>>>, t: Seq<char>)
    ensures
        markdown::links_found(caps).contains(t) ==> exists|i: int|
            0 <= i < caps.len() && markdown::repo_target(t) && captured_target(#[trigger] caps[i]) == t,
        caps.len() <= 200 && markdown::repo_target(t) && (exists|i: int|
            0 <= i < caps.len() && captured_target(#[trigger] caps[i]) == t) ==> markdown::links_found(caps).contains(t),
        names::increasing(markdown::links_found(caps)),
    decreases caps.len(),
{
    lemma_links(caps);
    let s = markdown::links_found(caps);
    if s.contains(t) {
        let k = s.index_of(t);
        let i = choose|i: int|
            0 <= i < caps.len() && markdown::repo_target(captured_target(#[trigger] caps[i])) && captured_target(caps[i])
                == (#[trigger] s[k]);
        assert(captured_target(caps[i]) == t);
    }
    if caps.len() > 0 {
        let d = caps.drop_last();
        links_are_found(d, t);
        lemma_links(d);
        names::insert_keeps_order(markdown::links_found(d), captured_target(caps.last()));
        if caps.len() <= 200 && markdown::repo_target(t) && exists|i: int|
            0 <= i < caps.len() && captured_target(#[trigger] caps[i]) == t {
            let i = choose|i: int| 0 <= i < caps.len() && captured_target(#[trigger] caps[i]) == t;
            if i < d.len() {
                assert(captured_target(d[i]) == t);
            }
        }
    }
}

/// Law: a token of three bytes or more that holds a slash or ends like a source
/// file is a link; any other that reads like a name gives its last segment,
/// where that has three bytes or more; shorter ones give nothing. At two
/// hundred tokens no more is taken.
pub proof fn tokens_are_sorted_out(links: Seq<Seq<char>>, tokens: Seq<Seq<char>>, raw: Seq<char>, t: Seq<char>)
    requires
        t == markdown::token_text(raw),
    ensures
        text::byte_len(t) < 3 || tokens.len() >= 200 ==> markdown::token_step(links, tokens, raw) == (links, tokens),
        text::byte_len(t) >= 3 && tokens.len() < 200 && (text::has_infix(t, "/"@) || lang::lang_at(t) is Some)
            ==> markdown::token_step(links, tokens, raw) == (names::sorted_insert(links, t), tokens),
        text::byte_len(t) >= 3 && tokens.len() < 200 && !text::has_infix(t, "/"@) && lang::lang_at(t) is None && t.len()
            > 0 && markdown::identifier_like(t) && (markdown::letter(t[0]) || t[0] == '_') && text::byte_len(
            text::after_last(t, ":."@),
        ) >= 3 ==> markdown::token_step(links, tokens, raw) == (
            links,
            names::sorted_insert(tokens, text::after_last(t, ":."@)),
        ),
        text::byte_len(t) >= 3 && tokens.len() < 200 && !text::has_infix(t, "/"@) && lang::lang_at(t) is None && (
        !markdown::identifier_like(t) || t.len() == 0 || ('0' <= t[0] && t[0] <= '9')) ==> markdown::token_step(
            links,
            tokens,
            raw,
        ) == (links, tokens),
{
}

/// Law: a name is made of letters, digits, underscores, colons and dots.
pub proof fn names_are_made_of_these(t: Seq<char>, i: int)
    requires
        0 <= i < t.len(),
    ensures
        t[i] == ' ' || t[i] == '-' || t[i] == '(' || t[i] == '/' || t[i] == '$' ==> !markdown::identifier_like(t),
        (forall|k: int|
            0 <= k < t.len() ==> ('a' <= #[trigger] t[k] && t[k] <= 'z') || ('A' <= t[k] && t[k] <= 'Z') || ('0' <= t[k]
                && t[k] <= '9') || t[k] == '_' || t[k] == ':' || t[k] == '.') ==> markdown::identifier_like(t),
{
}

} // verus!
