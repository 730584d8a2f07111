//! Which paths a use declaration brings in, over all declarations.

use crate::rust_use;
use crate::text;
use vstd::prelude::*;

verus! {

/// A path without white space, braces and commas.
pub open spec fn plain_path(p: Seq<char>) -> bool {
    &&& p.len() > 0
    &&& forall|i: int|
        0 <= i < p.len() ==> !text::is_white(#[trigger] p[i]) && p[i] != '{' && p[i] != '}' && p[i] != ',' && p[i] != ';'
}

proof fn lemma_plain(p: Seq<char>)
    requires
        plain_path(p),
    ensures
        text::trimmed(p) == p,
        text::first_index(p, '{') is None,
        text::split_text(p, " as "@) == seq![p],
{
    reveal_strlit(" as ");
    assert(!text::is_white(p[0]) && !text::is_white(p[p.len() - 1]));
    text::laws::trimming_takes_white_space(Seq::empty(), p, Seq::empty());
    text::lemma_first_index(p, '{');
    if text::first_index(p, '{') is Some {
        let i = text::first_index(p, '{')->0;
        assert(p[i] != '{');
    }
    text::lemma_find_from(p, " as "@, 0);
    if text::find_from(p, " as "@, 0) is Some {
        let i = text::find_from(p, " as "@, 0)->0;
        assert(p.subrange(i, i + 4)[0] == p[i]);
        assert(text::is_white(' '));
        assert(!text::is_white(p[i]));
    }
}

/// Law: a plain path is brought in as it stands, below the prefix where there is
/// one, and under another name all the same.
pub proof fn plain_paths_are_brought_in(p: Seq<char>, name: Seq<char>, prefix: Seq<char>, out: Seq<Seq<char>>)
    requires
        plain_path(p),
        plain_path(name),
        out.len() <= 100,
    ensures
        rust_use::tree_paths(p, Seq::empty(), out) == out.push(p),
        prefix.len() > 0 ==> rust_use::tree_paths(p, prefix, out) == out.push(prefix + "::"@ + p),
        rust_use::tree_paths(p + " as "@ + name, Seq::empty(), out) == out.push(p),
        prefix.len() > 0 ==> rust_use::tree_paths(p + " as "@ + name, prefix, out) == out.push(prefix + "::"@ + p),
{
    lemma_plain(p);
    lemma_plain(name);
    reveal_strlit(" as ");
    let s = p + " as "@ + name;
    assert(!text::is_white(p[0]) && !text::is_white(name[name.len() - 1]));
    assert(s[0] == p[0] && s.last() == name.last());
    text::laws::trimming_takes_white_space(Seq::empty(), s, Seq::empty());
    text::lemma_first_index(s, '{');
    if text::first_index(s, '{') is Some {
        let i = text::first_index(s, '{')->0;
        if i < p.len() {
            assert(p[i] != '{');
        } else if i >= p.len() + 4 {
            assert(name[i - p.len() - 4] != '{');
        }
    }
    text::lemma_find_from(s, " as "@, 0);
    let k = p.len() as int;
    assert(s.subrange(k, k + 4) =~= " as "@);
    assert(text::occurs_at(s, " as "@, k));
    let i = text::find_from(s, " as "@, 0)->0;
    if i < k {
        assert(s.subrange(i, i + 4)[0] == s[i]);
        assert(s[i] == p[i]);
        assert(text::is_white(' '));
    }
    assert(s.take(k) =~= p);
    assert(text::split_text(s, " as "@)[0] == p);
}

/// Law: a declaration of a plain path brings in that path, and only one that
/// starts with `pub` is a re-export.
pub proof fn declarations_bring_in_paths(p: Seq<char>)
    requires
        plain_path(p),
    ensures
        rust_use::use_paths("use "@ + p + ";"@) == seq![p],
        !rust_use::is_reexport("use "@ + p + ";"@),
        rust_use::is_reexport("pub use "@ + p + ";"@),
{
    reveal_strlit("use ");
    reveal_strlit("use");
    reveal_strlit("pub");
    reveal_strlit("pub use ");
    reveal_strlit(";");
    let d = "use "@ + p + ";"@;
    let b = "use "@ + p;
    let r = "pub use "@ + p + ";"@;
    let rb = "pub use "@ + p;
    assert(!text::is_white('u') && !text::is_white('p') && !text::is_white(';'));
    assert(!text::is_white(p[0]) && !text::is_white(p[p.len() - 1]));
    text::laws::trimming_takes_white_space(Seq::empty(), d, Seq::empty());
    text::laws::trimming_takes_white_space(Seq::empty(), b, Seq::empty());
    text::laws::trimming_takes_white_space(Seq::empty(), r, Seq::empty());
    text::laws::trimming_takes_white_space(Seq::empty(), rb, Seq::empty());
    assert(";"@.contains(';')) by {
        assert(";"@[0] == ';');
    }
    assert(p[p.len() - 1] != ';');
    assert(!";"@.contains(p.last())) by {
        if ";"@.contains(p.last()) {
            let k = ";"@.index_of(p.last());
            assert(";"@[k] == p.last());
        }
    }
    assert(d.last() == ';' && d.drop_last() =~= b);
    assert(b.last() == p.last());
    assert(text::trim_back(d, false, ";"@) == text::trim_back(b, false, ";"@));
    assert(text::trim_back(b, false, ";"@) == b);
    assert(r.last() == ';' && r.drop_last() =~= rb);
    assert(rb.last() == p.last());
    assert(text::trim_back(r, false, ";"@) == text::trim_back(rb, false, ";"@));
    assert(text::trim_back(rb, false, ";"@) == rb);
    assert(rust_use::decl_body(d) == b);
    assert(rust_use::decl_body(r) == rb);
    assert(rb.take(3) =~= "pub"@);
    if text::has_prefix(b, "pub"@) {
        assert(b.take(3)[0] == b[0]);
    }
    let s = b.skip(3);
    assert(b.take(3) =~= "use"@);
    assert(s[0] == ' ');
    if text::has_prefix(s, "use"@) {
        assert(s.take(3)[0] == s[0]);
    }
    assert(text::strip_front_all(b, "use"@) == text::strip_front_all(s, "use"@));
    assert(text::strip_front_all(s, "use"@) == s);
    assert(s =~= seq![' '] + p + Seq::<char>::empty());
    assert(text::laws::all_white(seq![' ']));
    text::laws::trimming_takes_white_space(seq![' '], p, Seq::empty());
    assert(rust_use::decl_tree(d) == p);
    plain_paths_are_brought_in(p, p, Seq::empty(), Seq::empty());
    assert(Seq::<Seq<char>>::empty().push(p) =~= seq![p]);
}

proof fn lemma_scan_plain(a: Seq<char>)
    requires
        forall|i: int| 0 <= i < a.len() ==> #[trigger] a[i] != '{' && a[i] != '}' && a[i] != ',',
    ensures
        rust_use::top_scan(a).parts.len() == 0,
        rust_use::top_scan(a).depth == 0,
        rust_use::top_scan(a).cur == a,
    decreases a.len(),
{
    if a.len() > 0 {
        let d = a.drop_last();
        assert forall|i: int| 0 <= i < d.len() implies #[trigger] d[i] != '{' && d[i] != '}' && d[i] != ',' by {
            assert(d[i] == a[i]);
        }
        lemma_scan_plain(d);
        assert(a[a.len() - 1] == a.last());
        assert(d.push(a.last()) =~= a);
    }
}

proof fn lemma_scan_behind(a: Seq<char>, b: Seq<char>)
    requires
        rust_use::top_scan(a).depth == 0,
        rust_use::top_scan(a).cur.len() == 0,
        forall|i: int| 0 <= i < b.len() ==> #[trigger] b[i] != '{' && b[i] != '}' && b[i] != ',',
    ensures
        rust_use::top_scan(a + b).parts == rust_use::top_scan(a).parts,
        rust_use::top_scan(a + b).depth == 0,
        rust_use::top_scan(a + b).cur == b,
    decreases b.len(),
{
    if b.len() == 0 {
        assert(a + b =~= a);
        assert(rust_use::top_scan(a).cur =~= b);
    } else {
        let d = b.drop_last();
        assert forall|i: int| 0 <= i < d.len() implies #[trigger] d[i] != '{' && d[i] != '}' && d[i] != ',' by {
            assert(d[i] == b[i]);
        }
        lemma_scan_behind(a, d);
        assert((a + b).drop_last() =~= a + d);
        assert((a + b).last() == b.last());
        assert(b[b.len() - 1] == b.last());
        assert(d.push(b.last()) =~= b);
    }
}

/// Law: the parts of a group stand between its commas.
pub proof fn parts_stand_between_commas(a: Seq<char>, b: Seq<char>)
    requires
        plain_path(a),
        plain_path(b),
    ensures
        rust_use::top_parts(a) == seq![a],
        rust_use::top_parts(a + ","@ + b) == seq![a, b],
{
    reveal_strlit(",");
    lemma_plain(a);
    lemma_plain(b);
    lemma_scan_plain(a);
    let x = rust_use::top_scan(a);
    assert(x.parts =~= Seq::<Seq<char>>::empty());
    assert(rust_use::top_parts(a) =~= seq![a]);
    let c = a.push(',');
    assert(c.drop_last() =~= a);
    assert(rust_use::top_scan(c).parts =~= seq![a]);
    lemma_scan_behind(c, b);
    assert(a + ","@ + b =~= c + b);
    assert(rust_use::top_parts(a + ","@ + b) =~= seq![a, b]);
}

/// Law: a group brings in each of its parts below what stands before it.
pub proof fn groups_bring_in_parts(p: Seq<char>, a: Seq<char>, b: Seq<char>, out: Seq<Seq<char>>)
    requires
        plain_path(p),
        !text::has_suffix(p, "::"@),
        plain_path(a),
        plain_path(b),
        out.len() < 100,
    ensures
        rust_use::tree_paths(p + "::{"@ + a + ","@ + b + "}"@, Seq::empty(), out) == out.push(p + "::"@ + a).push(
            p + "::"@ + b,
        ),
{
    reveal_strlit("::{");
    reveal_strlit("::");
    reveal_strlit(",");
    reveal_strlit("}");
    let s = p + "::{"@ + a + ","@ + b + "}"@;
    let k = p.len() as int + 2;
    assert(!text::is_white(p[0]) && !text::is_white('}'));
    text::laws::trimming_takes_white_space(Seq::empty(), s, Seq::empty());
    text::lemma_first_index(s, '{');
    assert(s[k] == '{');
    let i = text::first_index(s, '{')->0;
    if i < k {
        if i < p.len() {
            assert(s[i] == p[i]);
            assert(p[i] != '{');
        }
    }
    assert(i == k);
    let head = p + "::"@;
    assert(s.take(k) =~= head);
    assert(!text::is_white(':'));
    text::laws::trimming_takes_white_space(Seq::empty(), head, Seq::empty());
    text::laws::repetitions_are_taken_off(p, "::"@);
    let inner = s.subrange(k + 1, s.len() - 1);
    assert(inner =~= a + ","@ + b);
    parts_stand_between_commas(a, b);
    let parts = seq![a, b];
    plain_paths_are_brought_in(a, a, p, out);
    plain_paths_are_brought_in(b, b, p, out.push(p + "::"@ + a));
    assert(parts.drop_last() =~= seq![a]);
    assert(seq![a].drop_last() =~= Seq::<Seq<char>>::empty());
    let n = inner.len();
    assert(rust_use::part_paths(Seq::empty(), n, p, out) == out);
    assert(rust_use::part_paths(seq![a], n, p, out) == out.push(p + "::"@ + a));
    assert(rust_use::part_paths(parts, n, p, out) == out.push(p + "::"@ + a).push(p + "::"@ + b));
    assert(rust_use::path_under(Seq::empty(), p) == p);
}

} // verus!
