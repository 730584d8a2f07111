//! What trimming, cutting and comparing texts comes to, over all texts.

use crate::text;
use vstd::prelude::*;

verus! {

/// Every character is white space.
pub open spec fn all_white(s: Seq<char>) -> bool {
    forall|i: int| 0 <= i < s.len() ==> text::is_white(#[trigger] s[i])
}

/// A text that is empty or has no white space at its ends.
pub open spec fn firm(s: Seq<char>) -> bool {
    s.len() > 0 ==> !text::is_white(s[0]) && !text::is_white(s.last())
}

proof fn lemma_front(front: Seq<char>, s: Seq<char>)
    requires
        all_white(front),
    ensures
        text::trim_front(front + s, true, Seq::empty()) == text::trim_front(s, true, Seq::empty()),
    decreases front.len(),
{
    if front.len() == 0 {
        assert(front + s =~= s);
    } else {
        let f = front.drop_first();
        assert(text::is_white(front[0]));
        assert forall|i: int| 0 <= i < f.len() implies text::is_white(#[trigger] f[i]) by {
            assert(f[i] == front[i + 1]);
        }
        lemma_front(f, s);
        assert((front + s)[0] == front[0]);
        assert((front + s).drop_first() =~= f + s);
    }
}

proof fn lemma_back(s: Seq<char>, back: Seq<char>)
    requires
        all_white(back),
    ensures
        text::trim_back(s + back, true, Seq::empty()) == text::trim_back(s, true, Seq::empty()),
    decreases back.len(),
{
    if back.len() == 0 {
        assert(s + back =~= s);
    } else {
        let f = back.drop_last();
        assert(text::is_white(back[back.len() - 1]));
        assert forall|i: int| 0 <= i < f.len() implies text::is_white(#[trigger] f[i]) by {
            assert(f[i] == back[i]);
        }
        lemma_back(s, f);
        assert((s + back).last() == back.last());
        assert((s + back).drop_last() =~= s + f);
    }
}

/// Law: trimming takes the white space at both ends and nothing else.
pub proof fn trimming_takes_white_space(front: Seq<char>, s: Seq<char>, back: Seq<char>)
    requires
        all_white(front),
        all_white(back),
        firm(s),
    ensures
        text::trimmed(front + s + back) == s,
        text::trimmed(s) == s,
{
    assert(front + s + back =~= front + (s + back));
    lemma_front(front, s + back);
    if s.len() > 0 {
        assert((s + back)[0] == s[0]);
        assert(text::trim_front(s + back, true, Seq::empty()) == s + back);
        lemma_back(s, back);
        assert(text::trim_front(s, true, Seq::empty()) == s);
        assert(text::trim_back(s, true, Seq::empty()) == s);
    } else {
        assert(s + back =~= back);
        assert(back + Seq::<char>::empty() =~= back);
        lemma_front(back, Seq::empty());
        assert(s =~= Seq::<char>::empty());
    }
}

/// Law: spaces, tabs and line ends are white space; letters, digits and marks
/// are not.
pub proof fn white_space_is_told_apart(c: char)
    ensures
        text::is_white(' '),
        text::is_white('\t'),
        text::is_white('\n'),
        text::is_white('\r'),
        ' ' < c && c <= '~' ==> !text::is_white(c),
{
}

proof fn lemma_split_front(a: Seq<char>, sep: char, b: Seq<char>)
    requires
        !a.contains(sep),
    ensures
        text::split(a.push(sep) + b, sep) == seq![a] + text::split(b, sep),
    decreases b.len(),
{
    let t = a.push(sep) + b;
    if b.len() == 0 {
        text::lemma_split_plain(a, sep);
        assert(t =~= a.push(sep));
        assert(t.drop_last() =~= a);
        assert(text::split(t, sep) =~= seq![a] + text::split(b, sep));
    } else {
        let d = b.drop_last();
        lemma_split_front(a, sep, d);
        assert(t.drop_last() =~= a.push(sep) + d);
        assert(t.last() == b.last());
        let p = text::split(d, sep);
        text::lemma_split_len(d, sep);
        assert(p.len() > 0);
        if b.last() == sep {
            assert(text::split(t, sep) =~= seq![a] + text::split(b, sep));
        } else {
            assert((seq![a] + p).drop_last() =~= seq![a] + p.drop_last());
            assert((seq![a] + p).last() == p.last());
            assert(text::split(t, sep) =~= seq![a] + text::split(b, sep));
        }
    }
}

/// Law: a text is cut at every separator, and nothing is lost between them.
pub proof fn texts_are_cut(a: Seq<char>, sep: char, b: Seq<char>)
    requires
        !a.contains(sep),
    ensures
        text::split(a, sep) == seq![a],
        text::split(a.push(sep) + b, sep) == seq![a] + text::split(b, sep),
{
    text::lemma_split_plain(a, sep);
    lemma_split_front(a, sep, b);
}

/// Law: a line ends at a line feed, and a carriage return before it belongs to
/// the ending. What stands behind the last line feed is a line unless it is
/// empty.
pub proof fn lines_end_at_feeds(a: Seq<char>, b: Seq<char>)
    requires
        !a.contains('\n'),
    ensures
        text::lines(Seq::empty()).len() == 0,
        a.len() > 0 ==> text::lines(a) == seq![a],
        text::lines(a.push('\n') + b) == seq![text::without_cr(a)] + text::lines(b),
        text::without_cr(a.push('\r')) == a,
        a.len() > 0 && a.last() != '\r' ==> text::without_cr(a) == a,
{
    lemma_split_front(a, '\n', b);
    text::lemma_split_plain(a, '\n');
    text::lemma_split_len(b, '\n');
    let p = text::split(b, '\n');
    let t = a.push('\n') + b;
    let q = text::split(t, '\n');
    let f = |l: Seq<char>| text::without_cr(l);
    assert(q == seq![a] + p);
    assert(q.drop_last() =~= seq![a] + p.drop_last());
    assert(q.drop_last().map_values(f) =~= seq![text::without_cr(a)] + p.drop_last().map_values(f));
    assert(q.last() == p.last());
    assert(text::lines(t) =~= seq![text::without_cr(a)] + text::lines(b));
    assert(seq![a].drop_last() =~= Seq::<Seq<char>>::empty());
    if a.len() > 0 {
        assert(text::lines(a) =~= seq![a]);
    }
    assert(a.push('\r').drop_last() =~= a);
    let e = text::split(Seq::<char>::empty(), '\n');
    assert(e =~= seq![Seq::<char>::empty()]);
    assert(e.drop_last() =~= Seq::<Seq<char>>::empty());
}

/// Law: capital letters become small ones, and everything else stays.
pub proof fn letters_become_small(s: Seq<char>, i: int)
    requires
        0 <= i < s.len(),
    ensures
        text::lower(s).len() == s.len(),
        'A' <= s[i] && s[i] <= 'Z' ==> text::lower(s)[i] as u32 == s[i] as u32 + 32,
        s[i] < 'A' || s[i] > 'Z' ==> text::lower(s)[i] == s[i],
{
}

/// Law: texts are ordered by the first character in which they differ, and a
/// text comes before those that go on behind it.
pub proof fn texts_are_ordered(p: Seq<char>, x: char, y: char, a: Seq<char>, b: Seq<char>)
    ensures
        x < y ==> text::text_le(p.push(x) + a, p.push(y) + b),
        x > y ==> !text::text_le(p.push(x) + a, p.push(y) + b),
        text::text_le(p, p + a),
        a.len() > 0 ==> !text::text_le(p + a, p),
    decreases p.len(),
{
    let s = p.push(x) + a;
    let t = p.push(y) + b;
    if p.len() == 0 {
        assert(s[0] == x && t[0] == y);
        assert(p + a =~= a);
    } else {
        let q = p.drop_first();
        texts_are_ordered(q, x, y, a, b);
        assert(s[0] == p[0] && t[0] == p[0]);
        assert(s.drop_first() =~= q.push(x) + a);
        assert(t.drop_first() =~= q.push(y) + b);
        assert((p + a)[0] == p[0]);
        assert((p + a).drop_first() =~= q + a);
    }
}

/// Law: what stands at an end again and again is taken off as often as it
/// stands there.
pub proof fn repetitions_are_taken_off(s: Seq<char>, p: Seq<char>)
    requires
        p.len() > 0,
    ensures
        text::strip_front_all(p + s, p) == text::strip_front_all(s, p),
        text::strip_back_all(s + p, p) == text::strip_back_all(s, p),
        !text::has_prefix(s, p) ==> text::strip_front_all(s, p) == s,
        !text::has_suffix(s, p) ==> text::strip_back_all(s, p) == s,
{
    assert((p + s).take(p.len() as int) =~= p);
    assert((p + s).skip(p.len() as int) =~= s);
    assert((s + p).skip((s + p).len() - p.len()) =~= p);
    assert((s + p).take((s + p).len() - p.len()) =~= s);
}

} // verus!
