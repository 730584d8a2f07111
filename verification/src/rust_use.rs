//! Textual expansion of Rust `use` declarations into full paths.

use crate::text;
use vstd::prelude::*;

pub mod laws;

verus! {

/// More paths than this are not expanded out of one declaration.
pub const MAX_USE_PATHS: usize = 100;

/// A path behind a prefix.
pub open spec fn path_under(prefix: Seq<char>, tail: Seq<char>) -> Seq<char> {
    if prefix.len() == 0 {
        tail
    } else if tail.len() == 0 {
        prefix
    } else {
        prefix + "::"@ + tail
    }
}

/// What a scan for commas outside braces has found: the finished parts, how
/// many braces are open, and the part it stands in.
#[verifier::ext_equal]
pub struct TopScan {
    pub parts: Seq<Seq<char>>,
    pub depth: int,
    pub cur: Seq<char>,
}

/// The scan over a text.
pub open spec fn top_scan(s: Seq<char>) -> TopScan
    decreases s.len(),
{
    if s.len() == 0 {
        TopScan { parts: Seq::empty(), depth: 0, cur: Seq::empty() }
    } else {
        let b = top_scan(s.drop_last());
        let c = s.last();
        if c == '{' {
            TopScan { depth: b.depth + 1, cur: b.cur.push(c), ..b }
        } else if c == '}' {
            TopScan { depth: if b.depth > 0 { b.depth - 1 } else { 0 }, cur: b.cur.push(c), ..b }
        } else if c == ',' && b.depth == 0 {
            TopScan { parts: b.parts.push(text::trimmed(b.cur)), cur: Seq::empty(), ..b }
        } else {
            TopScan { cur: b.cur.push(c), ..b }
        }
    }
}

/// The parts of a text between commas outside braces.
pub open spec fn top_parts(s: Seq<char>) -> Seq<Seq<char>> {
    let b = top_scan(s);
    if text::trimmed(b.cur).len() > 0 {
        b.parts.push(text::trimmed(b.cur))
    } else {
        b.parts
    }
}

/// The paths of a use tree under a prefix, behind those of `out`.
pub open spec fn tree_paths(s: Seq<char>, prefix: Seq<char>, out: Seq<Seq<char>>) -> Seq<Seq<char>>
    decreases s.len(), 0nat,
{
    let t = text::trimmed(s);
    if t.len() == 0 || out.len() > MAX_USE_PATHS {
        out
    } else {
        proof {
            text::lemma_trimmed_len(s);
        }
        match text::first_index(t, '{') {
            Some(b) => if t.last() == '}' && 0 <= b < t.len() - 1 {
                let head = text::strip_back_all(text::trimmed(t.take(b)), "::"@);
                let inner = t.subrange(b + 1, t.len() - 1);
                part_paths(top_parts(inner), inner.len(), path_under(prefix, head), out)
            } else {
                out
            },
            None => {
                let path = text::trimmed(text::split_text(t, " as "@)[0]);
                if path.len() == 0 {
                    out
                } else {
                    out.push(path_under(prefix, path))
                }
            },
        }
    }
}

/// The paths of several use trees, none longer than `bound`, one after the
/// other.
pub open spec fn part_paths(
    parts: Seq<Seq<char>>,
    bound: nat,
    prefix: Seq<char>,
    out: Seq<Seq<char>>,
) -> Seq<Seq<char>>
    decreases bound, parts.len() + 1,
{
    if parts.len() == 0 {
        out
    } else {
        let before = part_paths(parts.drop_last(), bound, prefix, out);
        if parts.last().len() <= bound {
            tree_paths(parts.last(), prefix, before)
        } else {
            before
        }
    }
}

/// A declaration is a re-export where it starts with `pub`.
pub open spec fn is_reexport(decl: Seq<char>) -> bool {
    text::has_prefix(decl_body(decl), "pub"@)
}

/// A declaration without its semicolon.
pub open spec fn decl_body(decl: Seq<char>) -> Seq<char> {
    text::trimmed(text::trim_back(text::trimmed(decl), false, ";"@))
}

/// A declaration without its visibility: `pub` and, where a bracket follows,
/// all up to its closing bracket.
pub open spec fn without_visibility(body: Seq<char>) -> Seq<char> {
    if text::has_prefix(body, "pub"@) {
        let rest = text::trimmed(body.skip(3));
        if rest.len() > 0 && rest[0] == '(' {
            match text::first_index(rest, ')') {
                Some(end) => text::trimmed(rest.skip(end + 1)),
                None => rest,
            }
        } else {
            rest
        }
    } else {
        body
    }
}

/// The use tree of a declaration.
pub open spec fn decl_tree(decl: Seq<char>) -> Seq<char> {
    text::trimmed(text::strip_front_all(without_visibility(decl_body(decl)), "use"@))
}

/// The paths that a declaration brings in.
pub open spec fn use_paths(decl: Seq<char>) -> Seq<Seq<char>> {
    tree_paths(decl_tree(decl), Seq::empty(), Seq::empty())
}

pub fn join_path(prefix: &str, tail: &str) -> (r: String)
    ensures
        r@ == path_under(prefix@, tail@),
{
    if prefix.unicode_len() == 0 {
        tail.to_owned()
    } else if tail.unicode_len() == 0 {
        prefix.to_owned()
    } else {
        text::cat3(prefix, "::", tail)
    }
}

proof fn lemma_scan_sizes(s: Seq<char>)
    ensures
        0 <= top_scan(s).depth <= s.len(),
        top_scan(s).cur.len() <= s.len(),
        forall|i: int| 0 <= i < top_scan(s).parts.len() ==> (#[trigger] top_scan(s).parts[i]).len() <= s.len(),
    decreases s.len(),
{
    if s.len() > 0 {
        lemma_scan_sizes(s.drop_last());
        text::lemma_trimmed_len(top_scan(s.drop_last()).cur);
    }
}

/// No part is longer than the text.
pub proof fn top_parts_fit(s: Seq<char>)
    ensures
        forall|i: int| 0 <= i < top_parts(s).len() ==> (#[trigger] top_parts(s)[i]).len() <= s.len(),
{
    lemma_scan_sizes(s);
    text::lemma_trimmed_len(top_scan(s).cur);
}

/// Split on commas not inside braces.
pub fn split_top_level(s: &str) -> (r: Vec<String>)
    ensures
        text::views(r@) == top_parts(s@),
{
    let v = text::to_chars(s);
    let mut parts: Vec<String> = Vec::new();
    let mut depth: usize = 0;
    let mut cur: Vec<char> = Vec::new();
    let mut i: usize = 0;
    assert(text::views(parts@) =~= Seq::<Seq<char>>::empty());
    assert(v@.take(0) =~= Seq::<char>::empty());
    while i < v.len()
        invariant
            i <= v@.len(),
            top_scan(v@.take(i as int)) == (TopScan { parts: text::views(parts@), depth: depth as int, cur: cur@ }),
            depth <= i,
        decreases v@.len() - i,
    {
        let c = v[i];
        assert(v@.take(i + 1).drop_last() =~= v@.take(i as int));
        assert(v@.take(i + 1).last() == c);
        if c == '{' {
            depth += 1;
            cur.push(c);
        } else if c == '}' {
            if depth > 0 {
                depth -= 1;
            }
            cur.push(c);
        } else if c == ',' && depth == 0 {
            let whole = text::text_all(&cur);
            let t = text::trim(whole.as_str());
            proof {
                text::lemma_views_push(parts@, t);
            }
            parts.push(t);
            cur = Vec::new();
        } else {
            cur.push(c);
        }
        i += 1;
    }
    assert(v@.take(i as int) =~= v@);
    let whole = text::text_all(&cur);
    let t = text::trim(whole.as_str());
    if t.as_str().unicode_len() > 0 {
        proof {
            text::lemma_views_push(parts@, t);
        }
        parts.push(t);
    }
    parts
}

/// Append the paths of a use tree to `out`.
pub fn expand_use_tree(s: &str, prefix: &str, out: &mut Vec<String>)
    ensures
        text::views(final(out)@) == tree_paths(s@, prefix@, text::views(old(out)@)),
    decreases s@.len(),
{
    let t = text::trim(s);
    let ghost start = text::views(out@);
    proof {
        text::lemma_trimmed_len(s@);
    }
    let n = t.as_str().unicode_len();
    if n == 0 || out.len() > MAX_USE_PATHS {
        return ;
    }
    match text::index_of(t.as_str(), '{') {
        Some(b) => {
            let last = t.as_str().get_char(n - 1);
            if last != '}' {
                return ;
            }
            proof {
                text::lemma_first_index(t@, '{');
            }
            let front = text::head_text(t.as_str(), b);
            let trimmed = text::trim(front.as_str());
            proof {
                reveal_strlit("::");
            }
            let head = text::strip_back(trimmed.as_str(), "::");
            let inner = text::sub_text(t.as_str(), b + 1, n - 1);
            let under = join_path(prefix, head.as_str());
            let parts = split_top_level(inner.as_str());
            let ghost ps = text::views(parts@);
            let ghost bound = inner@.len();
            proof {
                top_parts_fit(inner@);
            }
            let mut k: usize = 0;
            assert(ps.take(0) =~= Seq::<Seq<char>>::empty());
            while k < parts.len()
                invariant
                    k <= parts@.len(),
                    ps == text::views(parts@),
                    ps == top_parts(inner@),
                    bound == inner@.len(),
                    inner@.len() < s@.len(),
                    forall|i: int| 0 <= i < ps.len() ==> (#[trigger] ps[i]).len() <= bound,
                    text::views(out@) == part_paths(ps.take(k as int), bound, under@, start),
                decreases parts@.len() - k,
            {
                assert(ps[k as int] == parts@[k as int]@);
                expand_use_tree(parts[k].as_str(), under.as_str(), out);
                assert(ps.take(k + 1).drop_last() =~= ps.take(k as int));
                assert(ps.take(k + 1).last() == ps[k as int]);
                k += 1;
            }
            assert(ps.take(k as int) =~= ps);
        },
        None => {
            proof {
                reveal_strlit(" as ");
            }
            let pieces = text::split_on_text(t.as_str(), " as ");
            assert(text::views(pieces@)[0] == pieces@[0]@);
            let path = text::trim(pieces[0].as_str());
            if path.as_str().unicode_len() == 0 {
                return ;
            }
            let full = join_path(prefix, path.as_str());
            proof {
                text::lemma_views_push(out@, full);
            }
            out.push(full);
        },
    }
}

fn strip_visibility(body: &str) -> (r: String)
    ensures
        r@ == without_visibility(body@),
{
    if !text::starts_with(body, "pub") {
        return body.to_owned();
    }
    proof {
        reveal_strlit("pub");
    }
    let behind = text::tail_text(body, 3);
    let rest = text::trim(behind.as_str());
    if rest.as_str().unicode_len() > 0 && rest.as_str().get_char(0) == '(' {
        match text::index_of(rest.as_str(), ')') {
            Some(end) => {
                proof {
                    text::lemma_first_index(rest@, ')');
                }
                let inner = text::tail_text(rest.as_str(), end + 1);
                text::trim(inner.as_str())
            },
            None => rest,
        }
    } else {
        rest
    }
}

/// A text with no white space at its ends and no semicolon at its end.
spec fn is_firm(s: Seq<char>) -> bool {
    s.len() > 0 && !text::is_white(s[0]) && !text::is_white(s.last()) && s.last() != ';'
}

proof fn lemma_firm(s: Seq<char>)
    requires
        is_firm(s),
    ensures
        text::trimmed(s) == s,
        decl_body(s + ";"@) == s,
{
    reveal_strlit(";");
    let t = s + ";"@;
    assert(!text::is_white(';'));
    assert(t.drop_last() =~= s);
    assert(text::trimmed(t) == t);
    assert(";"@.contains(';')) by {
        assert(";"@[0] == ';');
    }
    reveal_with_fuel(text::trim_back, 2);
}

/// Law: whatever its visibility, a declaration leads to the paths that it
/// names without one.
pub proof fn visibility_adds_no_path(place: Seq<char>, tree: Seq<char>)
    requires
        !place.contains(')'),
        tree.len() > 0,
        !text::is_white(tree.last()),
        tree.last() != ';',
    ensures
        use_paths("pub("@ + place + ") use "@ + tree + ";"@) == use_paths("use "@ + tree + ";"@),
        use_paths("pub use "@ + tree + ";"@) == use_paths("use "@ + tree + ";"@),
        is_reexport("pub("@ + place + ") use "@ + tree + ";"@),
        is_reexport("pub use "@ + tree + ";"@),
        !is_reexport("use "@ + tree + ";"@),
{
    reveal_strlit("pub(");
    reveal_strlit(") use ");
    reveal_strlit("pub use ");
    reveal_strlit("pub");
    reveal_strlit("use ");
    let plain = "use "@ + tree;
    let open = "pub use "@ + tree;
    let bound = "pub("@ + place + ") use "@ + tree;
    lemma_firm(plain);
    lemma_firm(open);
    lemma_firm(bound);
    assert(!text::has_prefix(plain, "pub"@)) by {
        assert(plain.take(3)[0] == 'u');
        assert("pub"@[0] == 'p');
    }
    assert(text::has_prefix(open, "pub"@)) by {
        assert(open.take(3) =~= "pub"@);
    }
    assert(text::has_prefix(bound, "pub"@)) by {
        assert(bound.take(3) =~= "pub"@);
    }
    let spaced = open.skip(3);
    assert(spaced.skip(1) =~= plain);
    assert(spaced.drop_first() =~= plain);
    assert(text::is_white(' '));
    assert(text::trimmed(spaced) == plain);
    assert(plain[0] == 'u');
    let rest = bound.skip(3);
    assert(rest[0] == '(');
    lemma_firm(rest);
    text::lemma_first_index(rest, ')');
    let end = 1 + place.len() as int;
    assert(rest[end] == ')');
    assert forall|i: int| 0 <= i < end implies rest[i] != ')' by {
        if i > 0 {
            assert(rest[i] == place[i - 1]);
            assert(place.contains(place[i - 1]));
        }
    }
    assert(rest.skip(end + 1) =~= spaced);
}

/// Expand a Rust use declaration's text into full paths.
/// "pub use crate::a::{b, c::d};" becomes [("crate::a::b", true), ("crate::a::c::d", true)].
pub fn expand_rust_use(decl: &str) -> (r: Vec<(String, bool)>)
    ensures
        r@.map_values(|x: (String, bool)| x.0@) == use_paths(decl@),
        forall|i: int| 0 <= i < r@.len() ==> (#[trigger] r@[i]).1 == is_reexport(decl@),
{
    let outer = text::trim(decl);
    let back = text::trim_back_of(outer.as_str(), false, ";");
    let body = text::trim(back.as_str());
    let reexport = text::starts_with(body.as_str(), "pub");
    proof {
        reveal_strlit("use");
    }
    let plain = strip_visibility(body.as_str());
    let e = text::strip_front(plain.as_str(), "use");
    let tree = text::trim(e.as_str());
    let mut paths: Vec<String> = Vec::new();
    assert(text::views(paths@) =~= Seq::<Seq<char>>::empty());
    proof {
        reveal_strlit("");
        assert(""@ =~= Seq::<char>::empty());
    }
    expand_use_tree(tree.as_str(), "", &mut paths);
    let mut out: Vec<(String, bool)> = Vec::new();
    let mut i: usize = 0;
    while i < paths.len()
        invariant
            i <= paths@.len(),
            out@.len() == i,
            forall|k: int| 0 <= k < i ==> (#[trigger] out@[k]).0@ == paths@[k]@ && out@[k].1 == reexport,
        decreases paths@.len() - i,
    {
        out.push((paths[i].clone(), reexport));
        i += 1;
    }
    assert(out@.map_values(|x: (String, bool)| x.0@) =~= text::views(paths@));
    out
}

} // verus!
