//! Where imports lead, over all specifiers and all sets of live files.

use crate::lang::Lang;
use crate::model::{FileId, Resolution};
use crate::resolve;
use crate::resolve::CtxView;
use crate::text;
use crate::vcs;
use vstd::prelude::*;

verus! {

// ---- paths ----

proof fn lemma_last_slash(dir: Seq<char>, name: Seq<char>)
    requires
        !name.contains('/'),
    ensures
        text::last_index(dir + "/"@ + name, '/') == Some(dir.len() as int),
        text::last_index(name, '/') is None,
{
    reveal_strlit("/");
    let p = dir + "/"@ + name;
    text::lemma_last_index(p, '/');
    text::lemma_last_index(name, '/');
    assert(p[dir.len() as int] == '/');
    assert forall|k: int| dir.len() < k < p.len() implies p[k] != '/' by {
        assert(p[k] == name[k - dir.len() - 1]);
        assert(name.contains(name[k - dir.len() - 1]));
    }
    if text::last_index(name, '/') is Some {
        let i = text::last_index(name, '/')->0;
        assert(name.contains(name[i]));
    }
}

/// Law: the directory of a path is what stands before its last slash, and a
/// path without a slash stands in no directory. What is put below a directory
/// stands in it.
pub proof fn names_stand_in_directories(dir: Seq<char>, name: Seq<char>)
    requires
        !name.contains('/'),
    ensures
        vcs::dir_part(dir + "/"@ + name) == dir,
        vcs::dir_part(name).len() == 0,
        vcs::base_part(dir + "/"@ + name) == name,
        vcs::base_part(name) == name,
        vcs::dir_part(resolve::below(dir, name)) == dir,
        dir.len() > 0 ==> resolve::below(dir, name) == dir + "/"@ + name,
        resolve::below(Seq::empty(), name) == name,
{
    reveal_strlit("/");
    lemma_last_slash(dir, name);
    let p = dir + "/"@ + name;
    assert(p.take(dir.len() as int) =~= dir);
    assert(p.skip(dir.len() as int + 1) =~= name);
}

/// Law: whatever is put below a directory has a slash between the two, and
/// nothing is put in front of what is put below no directory.
pub proof fn paths_are_joined(dir: Seq<char>, rest: Seq<char>)
    ensures
        dir.len() > 0 ==> resolve::below(dir, rest) == dir + "/"@ + rest,
        dir.len() == 0 ==> resolve::below(dir, rest) == rest,
{
}

proof fn lemma_join_last(b: Seq<Seq<char>>, s: Seq<char>)
    ensures
        text::join(b.push(s), "/"@) == (if b.len() == 0 {
            s
        } else {
            text::join(b, "/"@) + "/"@ + s
        }),
{
    assert(b.push(s).drop_last() =~= b);
}

proof fn lemma_settled_push(segs: Seq<Seq<char>>, s: Seq<char>)
    ensures
        resolve::settled(segs.push(s)) == (if s.len() == 0 || s == "."@ {
            resolve::settled(segs)
        } else if s == ".."@ {
            if resolve::settled(segs).len() > 0 {
                resolve::settled(segs).drop_last()
            } else {
                resolve::settled(segs)
            }
        } else {
            resolve::settled(segs).push(s)
        }),
{
    assert(segs.push(s).drop_last() =~= segs);
    assert(segs.push(s).last() == s);
}

proof fn lemma_settled_segments(path: Seq<char>)
    ensures
        forall|i: int|
            0 <= i < resolve::settled(text::split(path, '/')).len() ==> resolve::plain_segment(
                #[trigger] resolve::settled(text::split(path, '/'))[i],
            ),
{
    let segs = text::split(path, '/');
    assert forall|i: int| 0 <= i < segs.len() implies !(#[trigger] segs[i]).contains('/') by {
        text::lemma_split_piece(path, '/', i);
    }
    resolve::lemma_settled_plain(segs);
}

proof fn lemma_join_empty(b: Seq<Seq<char>>)
    requires
        forall|i: int| 0 <= i < b.len() ==> resolve::plain_segment(#[trigger] b[i]),
    ensures
        text::join(b, "/"@).len() == 0 <==> b.len() == 0,
{
    if b.len() > 0 {
        assert(b.drop_last().push(b.last()) =~= b);
        lemma_join_last(b.drop_last(), b.last());
        assert(resolve::plain_segment(b[b.len() - 1]));
    }
}

proof fn lemma_dir_of_join(b: Seq<Seq<char>>)
    requires
        forall|i: int| 0 <= i < b.len() ==> resolve::plain_segment(#[trigger] b[i]),
        b.len() > 0,
    ensures
        vcs::dir_part(text::join(b, "/"@)) == text::join(b.drop_last(), "/"@),
{
    let f = b.drop_last();
    assert(f.push(b.last()) =~= b);
    lemma_join_last(f, b.last());
    assert(resolve::plain_segment(b[b.len() - 1]));
    names_stand_in_directories(text::join(f, "/"@), b.last());
    assert(text::join(f, "/"@).len() == 0 ==> text::join(f, "/"@) =~= Seq::<char>::empty());
}

/// Law: normalizing a path goes from segment to segment: an empty one or "."
/// stays where it is, ".." goes to the directory above, and any other one goes
/// below.
pub proof fn segments_are_followed(path: Seq<char>, s: Seq<char>)
    requires
        !s.contains('/'),
    ensures
        s.len() == 0 || s == "."@ ==> resolve::normalized(path + "/"@ + s) == resolve::normalized(path),
        s == ".."@ ==> resolve::normalized(path + "/"@ + s) == vcs::dir_part(resolve::normalized(path)),
        s.len() > 0 && s != "."@ && s != ".."@ ==> resolve::normalized(path + "/"@ + s) == resolve::below(
            resolve::normalized(path),
            s,
        ),
        s.len() == 0 || s == "."@ || s == ".."@ ==> resolve::normalized(s).len() == 0,
        s.len() > 0 && s != "."@ && s != ".."@ ==> resolve::normalized(s) == s,
{
    reveal_strlit("/");
    reveal_strlit(".");
    reveal_strlit("..");
    assert(path + "/"@ + s =~= path.push('/') + s);
    text::lemma_split_append(path, '/', s);
    let segs = text::split(path, '/');
    lemma_settled_push(segs, s);
    lemma_settled_segments(path);
    let b = resolve::settled(segs);
    lemma_join_last(b, s);
    lemma_join_empty(b);
    if b.len() > 0 {
        lemma_dir_of_join(b);
    }
    assert("."@.len() != ".."@.len());
    text::lemma_split_plain(s, '/');
    assert(seq![s] =~= Seq::<Seq<char>>::empty().push(s));
    lemma_settled_push(Seq::empty(), s);
    lemma_join_last(Seq::empty(), s);
    assert(text::join(b, "/"@).len() == 0 ==> text::join(b, "/"@) =~= Seq::<char>::empty());
}

// ---- candidates ----

proof fn lemma_first_of_two(live: Map<Seq<char>, FileId>, a: Seq<Seq<char>>, b: Seq<Seq<char>>)
    ensures
        resolve::first_live(live, a) is Some ==> resolve::first_live(live, a + b) == resolve::first_live(live, a),
        resolve::first_live(live, a) is None ==> resolve::first_live(live, a + b) == resolve::first_live(live, b),
    decreases a.len(),
{
    if a.len() == 0 {
        assert(a + b =~= b);
    } else {
        assert((a + b)[0] == a[0]);
        assert((a + b).drop_first() =~= a.drop_first() + b);
        lemma_first_of_two(live, a.drop_first(), b);
    }
}

pub proof fn lemma_first_of(live: Map<Seq<char>, FileId>, a: Seq<char>, rest: Seq<Seq<char>>)
    ensures
        live.contains_key(a) ==> resolve::first_live(live, seq![a] + rest) == Some(live[a]),
        !live.contains_key(a) ==> resolve::first_live(live, seq![a] + rest) == resolve::first_live(live, rest),
{
    assert((seq![a] + rest)[0] == a);
    assert((seq![a] + rest).drop_first() =~= rest);
}

pub proof fn lemma_first_at(live: Map<Seq<char>, FileId>, cands: Seq<Seq<char>>, k: int)
    requires
        0 <= k <= cands.len(),
        k < cands.len() ==> live.contains_key(cands[k]),
        forall|j: int| 0 <= j < k ==> !live.contains_key(#[trigger] cands[j]),
    ensures
        resolve::first_live(live, cands) == (if k < cands.len() {
            Some(live[cands[k]])
        } else {
            None
        }),
    decreases k,
{
    if k > 0 {
        let r = cands.drop_first();
        assert(!live.contains_key(cands[0]));
        assert forall|j: int| 0 <= j < k - 1 implies !live.contains_key(#[trigger] r[j]) by {
            assert(r[j] == cands[j + 1]);
        }
        lemma_first_at(live, r, k - 1);
    }
}

// ---- JavaScript ----

/// No file is live at the source that an emitted path stands for.
pub open spec fn no_source(live: Map<Seq<char>, FileId>, p: Seq<char>) -> bool {
    &&& forall|stem: Seq<char>| p == #[trigger] (stem + ".js"@) ==> !live.contains_key(stem + ".ts"@)
    &&& forall|stem: Seq<char>| p == #[trigger] (stem + ".jsx"@) ==> !live.contains_key(stem + ".tsx"@)
    &&& forall|stem: Seq<char>| p == #[trigger] (stem + ".mjs"@) ==> !live.contains_key(stem + ".mts"@)
    &&& forall|stem: Seq<char>| p == #[trigger] (stem + ".cjs"@) ==> !live.contains_key(stem + ".cts"@)
}

proof fn lemma_suffix(stem: Seq<char>, end: Seq<char>)
    ensures
        text::has_suffix(stem + end, end),
        (stem + end).take((stem + end).len() - end.len()) == stem,
{
    assert((stem + end).skip((stem + end).len() - end.len()) =~= end);
    assert((stem + end).take((stem + end).len() - end.len()) =~= stem);
}

proof fn lemma_source(live: Map<Seq<char>, FileId>, p: Seq<char>, from: Seq<char>, to: Seq<char>)
    requires
        forall|stem: Seq<char>| p == #[trigger] (stem + from) ==> !live.contains_key(stem + to),
    ensures
        resolve::first_live(live, resolve::source_for(p, from, to)) is None,
{
    if text::has_suffix(p, from) {
        let stem = p.take(p.len() - from.len());
        assert(p =~= stem + p.skip(p.len() - from.len()));
        assert(p == stem + from);
        lemma_first_of(live, stem + to, Seq::empty());
        assert(seq![stem + to] + Seq::<Seq<char>>::empty() =~= seq![stem + to]);
    }
}

proof fn lemma_js_rest(live: Map<Seq<char>, FileId>, p: Seq<char>)
    requires
        !live.contains_key(p),
        no_source(live, p),
    ensures
        resolve::first_live(live, resolve::js_candidates(p)) == resolve::first_live(live, resolve::js_endings(p)),
{
    let a = resolve::source_for(p, ".js"@, ".ts"@);
    let b = resolve::source_for(p, ".jsx"@, ".tsx"@);
    let c = resolve::source_for(p, ".mjs"@, ".mts"@);
    let d = resolve::source_for(p, ".cjs"@, ".cts"@);
    let e = resolve::js_endings(p);
    lemma_source(live, p, ".js"@, ".ts"@);
    lemma_source(live, p, ".jsx"@, ".tsx"@);
    lemma_source(live, p, ".mjs"@, ".mts"@);
    lemma_source(live, p, ".cjs"@, ".cts"@);
    assert(resolve::js_candidates(p) =~= seq![p] + (a + (b + (c + (d + e)))));
    lemma_first_of(live, p, a + (b + (c + (d + e))));
    lemma_first_of_two(live, a, b + (c + (d + e)));
    lemma_first_of_two(live, b, c + (d + e));
    lemma_first_of_two(live, c, d + e);
    lemma_first_of_two(live, d, e);
}

/// Law: a module path that a live file has leads to that file. Where none has
/// it, the path that an emitted file would have leads to the source it is
/// emitted from.
pub proof fn exact_paths_come_first(live: Map<Seq<char>, FileId>, path: Seq<char>, stem: Seq<char>)
    ensures
        live.contains_key(resolve::normalized(path)) ==> resolve::module_at(live, path, false) == Some(
            live[resolve::normalized(path)],
        ),
        live.contains_key(resolve::normalized(path)) ==> resolve::module_at(live, path, true) == Some(
            live[resolve::normalized(path)],
        ),
        resolve::normalized(path) == stem + ".js"@ && !live.contains_key(stem + ".js"@) && live.contains_key(
            stem + ".ts"@,
        ) ==> resolve::module_at(live, path, false) == Some(live[stem + ".ts"@]),
        resolve::normalized(path) == stem + ".jsx"@ && !live.contains_key(stem + ".jsx"@) && live.contains_key(
            stem + ".tsx"@,
        ) ==> resolve::module_at(live, path, false) == Some(live[stem + ".tsx"@]),
        resolve::normalized(path) == stem + ".mjs"@ && !live.contains_key(stem + ".mjs"@) && live.contains_key(
            stem + ".mts"@,
        ) ==> resolve::module_at(live, path, false) == Some(live[stem + ".mts"@]),
        resolve::normalized(path) == stem + ".cjs"@ && !live.contains_key(stem + ".cjs"@) && live.contains_key(
            stem + ".cts"@,
        ) ==> resolve::module_at(live, path, false) == Some(live[stem + ".cts"@]),
{
    let p = resolve::normalized(path);
    let a = resolve::source_for(p, ".js"@, ".ts"@);
    let b = resolve::source_for(p, ".jsx"@, ".tsx"@);
    let c = resolve::source_for(p, ".mjs"@, ".mts"@);
    let d = resolve::source_for(p, ".cjs"@, ".cts"@);
    let e = resolve::js_endings(p);
    assert(resolve::js_candidates(p) =~= seq![p] + (a + (b + (c + (d + e)))));
    lemma_first_of(live, p, a + (b + (c + (d + e))));
    assert(resolve::coffee_candidates(p) =~= seq![p] + resolve::coffee_candidates(p).skip(1));
    lemma_first_of(live, p, resolve::coffee_candidates(p).skip(1));
    lemma_suffix(stem, ".js"@);
    lemma_suffix(stem, ".jsx"@);
    lemma_suffix(stem, ".mjs"@);
    lemma_suffix(stem, ".cjs"@);
    reveal_strlit(".js");
    reveal_strlit(".jsx");
    reveal_strlit(".mjs");
    reveal_strlit(".cjs");
    lemma_endings_apart(p);
    lemma_first_of(live, stem + ".ts"@, b + (c + (d + e)));
    lemma_first_of(live, stem + ".tsx"@, c + (d + e));
    lemma_first_of(live, stem + ".mts"@, d + e);
    lemma_first_of(live, stem + ".cts"@, e);
    assert(Seq::<Seq<char>>::empty() + (b + (c + (d + e))) =~= b + (c + (d + e)));
    assert(Seq::<Seq<char>>::empty() + (c + (d + e)) =~= c + (d + e));
    assert(Seq::<Seq<char>>::empty() + (d + e) =~= d + e);
}

proof fn lemma_endings_apart(p: Seq<char>)
    ensures
        text::has_suffix(p, ".jsx"@) ==> !text::has_suffix(p, ".js"@),
        text::has_suffix(p, ".mjs"@) ==> !text::has_suffix(p, ".js"@) && !text::has_suffix(p, ".jsx"@),
        text::has_suffix(p, ".cjs"@) ==> !text::has_suffix(p, ".js"@) && !text::has_suffix(p, ".jsx"@)
            && !text::has_suffix(p, ".mjs"@),
{
    reveal_strlit(".js");
    reveal_strlit(".jsx");
    reveal_strlit(".mjs");
    reveal_strlit(".cjs");
    let n = p.len();
    if text::has_suffix(p, ".js"@) {
        assert(p.skip(n - 3)[0] == p[n - 3] && p.skip(n - 3)[2] == p[n - 1]);
    }
    if text::has_suffix(p, ".jsx"@) {
        assert(p.skip(n - 4)[3] == p[n - 1]);
    }
    if text::has_suffix(p, ".mjs"@) {
        assert(p.skip(n - 4)[1] == p[n - 3] && p.skip(n - 4)[3] == p[n - 1]);
    }
    if text::has_suffix(p, ".cjs"@) {
        assert(p.skip(n - 4)[1] == p[n - 3] && p.skip(n - 4)[3] == p[n - 1]);
    }
}

/// Law: a module path without a file of its own leads to the live file that it
/// names without the ending, and without one to the index of the directory
/// that it names: of those that are live, to the first in this order. Where
/// none is live it leads nowhere.
pub proof fn endings_are_tried_in_order(live: Map<Seq<char>, FileId>, path: Seq<char>, p: Seq<char>)
    requires
        p == resolve::normalized(path),
        !live.contains_key(p),
        no_source(live, p),
    ensures
        live.contains_key(p + ".ts"@) ==> resolve::module_at(
            live,
            path,
            false,
        ) == Some(live[p + ".ts"@]),
        !live.contains_key(p + ".ts"@) && live.contains_key(p + ".tsx"@) ==> resolve::module_at(
            live,
            path,
            false,
        ) == Some(live[p + ".tsx"@]),
        !live.contains_key(p + ".ts"@) && !live.contains_key(p + ".tsx"@) && live.contains_key(p + ".d.ts"@) ==> resolve::module_at(
            live,
            path,
            false,
        ) == Some(live[p + ".d.ts"@]),
        !live.contains_key(p + ".ts"@) && !live.contains_key(p + ".tsx"@) && !live.contains_key(p + ".d.ts"@) && live.contains_key(p + ".js"@) ==> resolve::module_at(
            live,
            path,
            false,
        ) == Some(live[p + ".js"@]),
        !live.contains_key(p + ".ts"@) && !live.contains_key(p + ".tsx"@) && !live.contains_key(p + ".d.ts"@) && !live.contains_key(p + ".js"@) && live.contains_key(p + ".jsx"@) ==> resolve::module_at(
            live,
            path,
            false,
        ) == Some(live[p + ".jsx"@]),
        !live.contains_key(p + ".ts"@) && !live.contains_key(p + ".tsx"@) && !live.contains_key(p + ".d.ts"@) && !live.contains_key(p + ".js"@) && !live.contains_key(p + ".jsx"@) && live.contains_key(p + ".mjs"@) ==> resolve::module_at(
            live,
            path,
            false,
        ) == Some(live[p + ".mjs"@]),
        !live.contains_key(p + ".ts"@) && !live.contains_key(p + ".tsx"@) && !live.contains_key(p + ".d.ts"@) && !live.contains_key(p + ".js"@) && !live.contains_key(p + ".jsx"@) && !live.contains_key(p + ".mjs"@) && live.contains_key(p + ".cjs"@) ==> resolve::module_at(
            live,
            path,
            false,
        ) == Some(live[p + ".cjs"@]),
        !live.contains_key(p + ".ts"@) && !live.contains_key(p + ".tsx"@) && !live.contains_key(p + ".d.ts"@) && !live.contains_key(p + ".js"@) && !live.contains_key(p + ".jsx"@) && !live.contains_key(p + ".mjs"@) && !live.contains_key(p + ".cjs"@) && live.contains_key(resolve::below(p, "index.ts"@)) ==> resolve::module_at(
            live,
            path,
            false,
        ) == Some(live[resolve::below(p, "index.ts"@)]),
        !live.contains_key(p + ".ts"@) && !live.contains_key(p + ".tsx"@) && !live.contains_key(p + ".d.ts"@) && !live.contains_key(p + ".js"@) && !live.contains_key(p + ".jsx"@) && !live.contains_key(p + ".mjs"@) && !live.contains_key(p + ".cjs"@) && !live.contains_key(resolve::below(p, "index.ts"@)) && live.contains_key(resolve::below(p, "index.tsx"@)) ==> resolve::module_at(
            live,
            path,
            false,
        ) == Some(live[resolve::below(p, "index.tsx"@)]),
        !live.contains_key(p + ".ts"@) && !live.contains_key(p + ".tsx"@) && !live.contains_key(p + ".d.ts"@) && !live.contains_key(p + ".js"@) && !live.contains_key(p + ".jsx"@) && !live.contains_key(p + ".mjs"@) && !live.contains_key(p + ".cjs"@) && !live.contains_key(resolve::below(p, "index.ts"@)) && !live.contains_key(resolve::below(p, "index.tsx"@)) && live.contains_key(resolve::below(p, "index.js"@)) ==> resolve::module_at(
            live,
            path,
            false,
        ) == Some(live[resolve::below(p, "index.js"@)]),
        !live.contains_key(p + ".ts"@) && !live.contains_key(p + ".tsx"@) && !live.contains_key(p + ".d.ts"@) && !live.contains_key(p + ".js"@) && !live.contains_key(p + ".jsx"@) && !live.contains_key(p + ".mjs"@) && !live.contains_key(p + ".cjs"@) && !live.contains_key(resolve::below(p, "index.ts"@)) && !live.contains_key(resolve::below(p, "index.tsx"@)) && !live.contains_key(resolve::below(p, "index.js"@)) && live.contains_key(resolve::below(p, "index.jsx"@)) ==> resolve::module_at(
            live,
            path,
            false,
        ) == Some(live[resolve::below(p, "index.jsx"@)]),
        !live.contains_key(p + ".ts"@) && !live.contains_key(p + ".tsx"@) && !live.contains_key(p + ".d.ts"@) && !live.contains_key(p + ".js"@) && !live.contains_key(p + ".jsx"@) && !live.contains_key(p + ".mjs"@) && !live.contains_key(p + ".cjs"@) && !live.contains_key(resolve::below(p, "index.ts"@)) && !live.contains_key(resolve::below(p, "index.tsx"@)) && !live.contains_key(resolve::below(p, "index.js"@)) && !live.contains_key(resolve::below(p, "index.jsx"@)) ==> resolve::module_at(
            live,
            path,
            false,
        ) is None,
{
    lemma_js_rest(live, p);
    let e = resolve::js_endings(p);
    if live.contains_key(e[0]) {
        lemma_first_at(live, e, 0);
    }
    if !live.contains_key(e[0]) && live.contains_key(e[1]) {
        lemma_first_at(live, e, 1);
    }
    if !live.contains_key(e[0]) && !live.contains_key(e[1]) && live.contains_key(e[2]) {
        lemma_first_at(live, e, 2);
    }
    if !live.contains_key(e[0]) && !live.contains_key(e[1]) && !live.contains_key(e[2]) && live.contains_key(e[3]) {
        lemma_first_at(live, e, 3);
    }
    if !live.contains_key(e[0]) && !live.contains_key(e[1]) && !live.contains_key(e[2]) && !live.contains_key(e[3]) && live.contains_key(e[4]) {
        lemma_first_at(live, e, 4);
    }
    if !live.contains_key(e[0]) && !live.contains_key(e[1]) && !live.contains_key(e[2]) && !live.contains_key(e[3]) && !live.contains_key(e[4]) && live.contains_key(e[5]) {
        lemma_first_at(live, e, 5);
    }
    if !live.contains_key(e[0]) && !live.contains_key(e[1]) && !live.contains_key(e[2]) && !live.contains_key(e[3]) && !live.contains_key(e[4]) && !live.contains_key(e[5]) && live.contains_key(e[6]) {
        lemma_first_at(live, e, 6);
    }
    if !live.contains_key(e[0]) && !live.contains_key(e[1]) && !live.contains_key(e[2]) && !live.contains_key(e[3]) && !live.contains_key(e[4]) && !live.contains_key(e[5]) && !live.contains_key(e[6]) && live.contains_key(e[7]) {
        lemma_first_at(live, e, 7);
    }
    if !live.contains_key(e[0]) && !live.contains_key(e[1]) && !live.contains_key(e[2]) && !live.contains_key(e[3]) && !live.contains_key(e[4]) && !live.contains_key(e[5]) && !live.contains_key(e[6]) && !live.contains_key(e[7]) && live.contains_key(e[8]) {
        lemma_first_at(live, e, 8);
    }
    if !live.contains_key(e[0]) && !live.contains_key(e[1]) && !live.contains_key(e[2]) && !live.contains_key(e[3]) && !live.contains_key(e[4]) && !live.contains_key(e[5]) && !live.contains_key(e[6]) && !live.contains_key(e[7]) && !live.contains_key(e[8]) && live.contains_key(e[9]) {
        lemma_first_at(live, e, 9);
    }
    if !live.contains_key(e[0]) && !live.contains_key(e[1]) && !live.contains_key(e[2]) && !live.contains_key(e[3]) && !live.contains_key(e[4]) && !live.contains_key(e[5]) && !live.contains_key(e[6]) && !live.contains_key(e[7]) && !live.contains_key(e[8]) && !live.contains_key(e[9]) && live.contains_key(e[10]) {
        lemma_first_at(live, e, 10);
    }
    if !live.contains_key(e[0]) && !live.contains_key(e[1]) && !live.contains_key(e[2]) && !live.contains_key(e[3]) && !live.contains_key(e[4]) && !live.contains_key(e[5]) && !live.contains_key(e[6]) && !live.contains_key(e[7]) && !live.contains_key(e[8]) && !live.contains_key(e[9]) && !live.contains_key(e[10]) {
        lemma_first_at(live, e, 11);
    }
}

/// Law: a relative specifier leads to the module at the path it names below the
/// directory of the importing file, and a bare one to the module at that path
/// below the root of the repository or, without one, below src/.
pub proof fn specifiers_name_modules(live: Map<Seq<char>, FileId>, src_path: Seq<char>, spec: Seq<char>, rest: Seq<char>, coffee: bool)
    ensures
        spec == "./"@ + rest || spec == "../"@ + rest || spec == "."@ || spec == ".."@ ==> resolve::module_target(
            live,
            src_path,
            spec,
            coffee,
        ) == (match resolve::module_at(live, resolve::below(vcs::dir_part(src_path), spec), coffee) {
            Some(t) => Some((t, Resolution::PathExact)),
            None => None,
        }),
        spec.len() > 0 && spec[0] != '.' && resolve::module_at(live, spec, coffee) is Some ==> resolve::module_target(
            live,
            src_path,
            spec,
            coffee,
        ) == Some((resolve::module_at(live, spec, coffee)->0, Resolution::Heuristic)),
        spec.len() > 0 && spec[0] != '.' && resolve::module_at(live, spec, coffee) is None ==> resolve::module_target(
            live,
            src_path,
            spec,
            coffee,
        ) == (match resolve::module_at(live, "src/"@ + spec, coffee) {
            Some(t) => Some((t, Resolution::Heuristic)),
            None => None,
        }),
{
    reveal_strlit("./");
    reveal_strlit("../");
    reveal_strlit(".");
    reveal_strlit("..");
    assert(("./"@ + rest).take(2) =~= "./"@);
    assert(("../"@ + rest).take(3) =~= "../"@);
    if spec.len() > 0 && spec[0] != '.' {
        if text::has_prefix(spec, "./"@) {
            assert(spec.take(2)[0] == spec[0]);
        }
        if text::has_prefix(spec, "../"@) {
            assert(spec.take(3)[0] == spec[0]);
        }
    }
}

/// Law: CoffeeScript tries its own endings and index before those of
/// JavaScript, and behind them tries what JavaScript tries.
pub proof fn coffee_comes_before_script(live: Map<Seq<char>, FileId>, path: Seq<char>, p: Seq<char>)
    requires
        p == resolve::normalized(path),
        !live.contains_key(p),
    ensures
        live.contains_key(p + ".coffee"@) ==> resolve::module_at(live, path, true) == Some(live[p + ".coffee"@]),
        !live.contains_key(p + ".coffee"@) && live.contains_key(p + ".cjsx"@) ==> resolve::module_at(live, path, true)
            == Some(live[p + ".cjsx"@]),
        !live.contains_key(p + ".coffee"@) && !live.contains_key(p + ".cjsx"@) && live.contains_key(
            resolve::below(p, "index.coffee"@),
        ) ==> resolve::module_at(live, path, true) == Some(live[resolve::below(p, "index.coffee"@)]),
        !live.contains_key(p + ".coffee"@) && !live.contains_key(p + ".cjsx"@) && !live.contains_key(
            resolve::below(p, "index.coffee"@),
        ) ==> resolve::module_at(live, path, true) == resolve::module_at(live, path, false),
{
    let own = seq![p, p + ".coffee"@, p + ".cjsx"@, resolve::below(p, "index.coffee"@)];
    lemma_first_of_two(live, own, resolve::js_candidates(p));
    if live.contains_key(own[1]) {
        lemma_first_at(live, own, 1);
    } else if live.contains_key(own[2]) {
        lemma_first_at(live, own, 2);
    } else if live.contains_key(own[3]) {
        lemma_first_at(live, own, 3);
    } else {
        lemma_first_at(live, own, 4);
    }
}

/// Law: each language looks its specifiers up in its own way, and a document
/// imports nothing.
pub proof fn languages_look_up_their_own(ctx: CtxView, src_path: Seq<char>, spec: Seq<char>)
    ensures
        resolve::import_target(ctx, Lang::Js, src_path, spec) == resolve::module_target(ctx.live, src_path, spec, false),
        resolve::import_target(ctx, Lang::Ts, src_path, spec) == resolve::module_target(ctx.live, src_path, spec, false),
        resolve::import_target(ctx, Lang::Tsx, src_path, spec) == resolve::module_target(ctx.live, src_path, spec, false),
        resolve::import_target(ctx, Lang::Coffee, src_path, spec) == resolve::module_target(
            ctx.live,
            src_path,
            spec,
            true,
        ),
        resolve::import_target(ctx, Lang::Py, src_path, spec) == resolve::py_target(ctx.live, src_path, spec),
        resolve::import_target(ctx, Lang::Rust, src_path, spec) == resolve::rust_target(
            ctx.live,
            ctx.rust_crates,
            src_path,
            spec,
        ),
        resolve::import_target(ctx, Lang::Rb, src_path, spec) == resolve::ruby_target(ctx.live, src_path, spec),
        resolve::import_target(ctx, Lang::Md, src_path, spec) is None,
{
}

} // verus!
