//! What is said and served, in terms of the characters that are asked with.

use crate::cli;
use crate::cli::Page;
use crate::query;
use crate::text;
use vstd::prelude::*;
use vstd::string::*;

verus! {

/// A text without white space.
pub open spec fn solid(s: Seq<char>) -> bool {
    forall|i: int| 0 <= i < s.len() ==> !text::is_white(#[trigger] s[i])
}

proof fn lemma_word(a: Seq<char>, b: Seq<char>)
    requires
        solid(a),
        b.len() > 0 ==> text::is_white(b[0]),
    ensures
        cli::word(a + b) == a,
    decreases a.len(),
{
    if a.len() == 0 {
        assert(a + b =~= b);
        assert(cli::word(b) =~= a);
    } else {
        let t = a.skip(1);
        assert forall|i: int| 0 <= i < t.len() implies !text::is_white(#[trigger] t[i]) by {
            assert(t[i] == a[i + 1]);
        }
        lemma_word(t, b);
        assert((a + b)[0] == a[0]);
        assert((a + b).skip(1) =~= t + b);
        assert(seq![a[0]] + t =~= a);
    }
}

/// Law: a request asks for the word behind its first, whatever follows that
/// word, and for nothing where it has only one word.
pub proof fn requests_name_targets(method: Seq<char>, target: Seq<char>, rest: Seq<char>)
    requires
        method.len() > 0,
        target.len() > 0,
        solid(method),
        solid(target),
    ensures
        cli::second_word(method + seq![' '] + target) == target,
        cli::second_word(method + seq![' '] + target + (seq![' '] + rest)) == target,
        cli::second_word(method) == Seq::<char>::empty(),
{
    let none = Seq::<char>::empty();
    let space = seq![' '];
    assert(!text::is_white(method[0]) && !text::is_white(target[0]));
    assert forall|tail: Seq<char>| (tail.len() > 0 ==> tail[0] == ' ') implies #[trigger] cli::second_word(
        method + space + target + tail,
    ) == target by {
        let s = method + space + target + tail;
        let b = space + target + tail;
        assert(s =~= method + b);
        assert(s[0] == method[0]);
        assert(text::trim_front(s, true, none) == s);
        lemma_word(method, b);
        assert(s.skip(method.len() as int) =~= b);
        assert(b.drop_first() =~= target + tail);
        assert((target + tail)[0] == target[0]);
        assert(text::trim_front(target + tail, true, none) == target + tail);
        assert(text::trim_front(b, true, none) == target + tail);
        lemma_word(target, tail);
    }
    assert(method + space + target + none =~= method + space + target);
    assert(cli::second_word(method + space + target + none) == target);
    assert(cli::second_word(method + space + target + (space + rest)) == target);
    assert(method + none =~= method);
    lemma_word(method, none);
    assert(text::trim_front(method, true, none) == method);
    assert(method.skip(method.len() as int) =~= none);
    assert(text::trim_front(none, true, none) == none);
    assert(cli::word(none) == none);
}

/// Law: the picture is served at the root, by its name, and where nothing is
/// named; the data by its name; nothing is served anywhere else.
pub proof fn pages_have_places(target: Seq<char>)
    ensures
        cli::page_at(target) == Page::Picture <==> target.len() == 0 || target == seq!['/'] || target
            == seq!['/', 'i', 'n', 'd', 'e', 'x', '.', 'h', 't', 'm', 'l'],
        cli::page_at(target) == Page::Data <==> target == seq!['/', 'd', 'a', 't', 'a', '.', 'j', 's', 'o', 'n'],
{
    reveal_strlit("/");
    reveal_strlit("/index.html");
    reveal_strlit("/data.json");
    assert("/"@ =~= seq!['/']);
    assert("/index.html"@ =~= seq!['/', 'i', 'n', 'd', 'e', 'x', '.', 'h', 't', 'm', 'l']);
    assert("/data.json"@ =~= seq!['/', 'd', 'a', 't', 'a', '.', 'j', 's', 'o', 'n']);
    assert("/data.json"@.len() == 10 && "/index.html"@.len() == 11 && "/"@.len() == 1);
}

/// Law: a version that is not written as a number is none, and a written one is
/// the number it writes.
pub proof fn versions_are_numbers(n: int, s: Seq<char>)
    requires
        i64::MIN <= n <= i64::MAX,
        s.len() > 0,
        !('0' <= s.last() && s.last() <= '9'),
    ensures
        cli::version_of(Some(text::decimal_int(n))) == n,
        cli::version_of(Some(s)) == 0,
        cli::version_of(None) == 0,
{
    text::numbers_read_back(n, 0);
}

/// Law: an index that lacks commits is said to be as many behind as it lacks.
pub proof fn missed_commits_are_counted(indexed: Seq<char>, head: Seq<char>, n: u64)
    requires
        indexed != head,
    ensures
        exists|a: Seq<char>, b: Seq<char>|
            cli::caveat(indexed, head, Some(n)) == Some(#[trigger] (a + text::decimal(n as nat) + b)) && a.len() > 0
                && a.last() == ' ' && b.len() > 0 && b[0] == ' ',
{
    reveal_strlit("index is ");
    reveal_strlit(" commits behind HEAD; run `pal index --incremental`");
    let a = "index is "@;
    let b = " commits behind HEAD; run `pal index --incremental`"@;
    assert(cli::caveat(indexed, head, Some(n)) == Some(a + text::decimal(n as nat) + b));
}

/// Law: the threshold of an index is the one it was made with, and the default
/// where it does not say.
pub proof fn limits_are_recorded(n: usize, default: usize)
    ensures
        cli::recorded_limit(Some(text::decimal_int(n as int)), default) == n,
        cli::recorded_limit(None, default) == default,
{
    text::numbers_read_back(n as int, 0);
}

/// Law: `./` in front of a path does not change what it names.
pub proof fn dots_name_nothing(path: Seq<char>)
    ensures
        query::clean_path(seq!['.', '/'] + path) == query::clean_path(path),
        !text::has_prefix(path, seq!['.', '/']) ==> query::clean_path(path) == path,
{
    reveal_strlit("./");
    assert("./"@ =~= seq!['.', '/']);
    text::laws::repetitions_are_taken_off(path, seq!['.', '/']);
}

} // verus!
