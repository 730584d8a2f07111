//! What the pairs of an index say, in terms of its rows.

use crate::cochange;
use crate::cochange::{GroupView, PairView};
use crate::model::FileId;
use crate::plain;
use crate::query;
use crate::rows::{CommitRow, TouchRow};
use vstd::prelude::*;

verus! {

// ---- groups ----

/// The groups are the commits that have a weight, in ascending order, each
/// with the files that it touched.
pub open spec fn groups_say(groups: Seq<GroupView>, commits: Seq<CommitRow>, touches: Seq<TouchRow>) -> bool {
    &&& forall|i: int, j: int|
        0 <= i < j < groups.len() ==> (#[trigger] groups[i]).commit.0 < (#[trigger] groups[j]).commit.0
    &&& forall|g: int| 0 <= g < groups.len() ==> plain::weighs(commits, (#[trigger] groups[g]).commit.0)
    &&& forall|g: int, f: FileId|
        0 <= g < groups.len() ==> (#[trigger] groups[g].files.contains(f) <==> plain::touched(
            touches,
            groups[g].commit.0,
            f,
        ))
    &&& forall|c: i64, f: FileId|
        plain::weighs(commits, c) && #[trigger] plain::touched(touches, c, f) ==> has_group(groups, c)
}

/// A commit has a group.
pub open spec fn has_group(groups: Seq<GroupView>, c: i64) -> bool {
    exists|g: int| 0 <= g < groups.len() && (#[trigger] groups[g]).commit.0 == c
}

/// No group lists a file twice.
pub open spec fn groups_list_once(groups: Seq<GroupView>) -> bool {
    forall|g: int| 0 <= g < groups.len() ==> (#[trigger] groups[g]).files.no_duplicates()
}

proof fn lemma_touched_push(touches: Seq<TouchRow>, c: i64, f: FileId)
    requires
        touches.len() > 0,
    ensures
        plain::touched(touches, c, f) <==> plain::touched(touches.drop_last(), c, f) || (touches.last().commit.0 == c
            && touches.last().file == f),
{
    let d = touches.drop_last();
    if plain::touched(d, c, f) {
        let i = choose|i: int| 0 <= i < d.len() && (#[trigger] d[i]).commit.0 == c && d[i].file == f;
        assert(touches[i].commit.0 == c && touches[i].file == f);
    }
    if touches.last().commit.0 == c && touches.last().file == f {
        assert(touches[touches.len() - 1].commit.0 == c);
    }
    if plain::touched(touches, c, f) {
        let i = choose|i: int| 0 <= i < touches.len() && (#[trigger] touches[i]).commit.0 == c && touches[i].file == f;
        if i < d.len() {
            assert(d[i].commit.0 == c && d[i].file == f);
        }
    }
}

/// Law: the touches of an index, in the order of commits, are grouped by
/// commit: one group for each commit that has a weight and touched anything,
/// with exactly the files that it touched.
pub proof fn groups_are_commits(commits: Seq<CommitRow>, touches: Seq<TouchRow>)
    requires
        plain::commits_once(commits),
        plain::touches_in_order(touches),
    ensures
        groups_say(cochange::grouped(commits, touches), commits, touches),
        plain::touches_once(touches) ==> groups_list_once(cochange::grouped(commits, touches)),
    decreases touches.len(),
{
    if touches.len() > 0 {
        let d = touches.drop_last();
        let t = touches.last();
        let n = touches.len() - 1;
        assert forall|i: int, j: int| 0 <= i < j < d.len() implies (#[trigger] d[i]).commit.0 <= (
        #[trigger] d[j]).commit.0 by {
            assert(touches[i].commit.0 <= touches[j].commit.0);
        }
        groups_are_commits(commits, d);
        plain::weight_counts(commits, t.commit.0);
        let b = cochange::grouped(commits, d);
        let r = cochange::grouped(commits, touches);
        assert forall|g: int| 0 <= g < b.len() implies (#[trigger] b[g]).commit.0 <= t.commit.0 by {
            lemma_group_touched(b, commits, d, g);
            let f = choose|f: FileId| plain::touched(d, b[g].commit.0, f);
            let i = choose|i: int| 0 <= i < d.len() && (#[trigger] d[i]).commit.0 == b[g].commit.0 && d[i].file == f;
            assert(touches[i].commit.0 <= touches[n].commit.0);
        }
        if plain::touches_once(touches) {
            assert forall|i: int, j: int| 0 <= i < j < d.len() implies (#[trigger] d[i]).commit != (
            #[trigger] d[j]).commit || d[i].file != d[j].file by {
                assert(touches[i].commit != touches[j].commit || touches[i].file != touches[j].file);
            }
        }
        if query::counts(commits, t.commit.0) {
            lemma_touch_grouped(b, commits, touches);
        } else {
            assert forall|g: int, f: FileId| 0 <= g < r.len() implies (#[trigger] r[g].files.contains(f)
                <==> plain::touched(touches, r[g].commit.0, f)) by {
                lemma_touched_push(touches, r[g].commit.0, f);
                assert(b[g].files.contains(f) <==> plain::touched(d, b[g].commit.0, f));
            }
            assert forall|c: i64, f: FileId|
                plain::weighs(commits, c) && #[trigger] plain::touched(touches, c, f) implies has_group(r, c) by {
                lemma_touched_push(touches, c, f);
                assert(plain::touched(d, c, f));
            }
        }
    }
}

proof fn lemma_group_touched(b: Seq<GroupView>, commits: Seq<CommitRow>, touches: Seq<TouchRow>, g: int)
    requires
        0 <= g < b.len(),
        groups_say(b, commits, touches),
        b == cochange::grouped(commits, touches),
    ensures
        exists|f: FileId| plain::touched(touches, b[g].commit.0, f),
{
    lemma_groups_full(commits, touches);
    let f = b[g].files[0];
    assert(b[g].files.contains(f));
    assert(plain::touched(touches, b[g].commit.0, f));
}

proof fn lemma_groups_full(commits: Seq<CommitRow>, touches: Seq<TouchRow>)
    ensures
        forall|g: int|
            0 <= g < cochange::grouped(commits, touches).len() ==> (#[trigger] cochange::grouped(
                commits,
                touches,
            )[g]).files.len() > 0,
    decreases touches.len(),
{
    if touches.len() > 0 {
        lemma_groups_full(commits, touches.drop_last());
        let b = cochange::grouped(commits, touches.drop_last());
        let r = cochange::grouped(commits, touches);
        assert forall|g: int| 0 <= g < r.len() implies (#[trigger] r[g]).files.len() > 0 by {
            if g < b.len() {
                assert(b[g].files.len() > 0);
            }
        }
    }
}

proof fn lemma_touch_grouped(b: Seq<GroupView>, commits: Seq<CommitRow>, touches: Seq<TouchRow>)
    requires
        touches.len() > 0,
        groups_say(b, commits, touches.drop_last()),
        plain::weighs(commits, touches.last().commit.0),
        forall|g: int| 0 <= g < b.len() ==> (#[trigger] b[g]).commit.0 <= touches.last().commit.0,
        plain::touches_once(touches) ==> groups_list_once(b),
    ensures
        groups_say(cochange::with_touch(b, touches.last().commit, touches.last().file), commits, touches),
        plain::touches_once(touches) ==> groups_list_once(
            cochange::with_touch(b, touches.last().commit, touches.last().file),
        ),
{
    let d = touches.drop_last();
    let t = touches.last();
    let r = cochange::with_touch(b, t.commit, t.file);
    let joins = b.len() > 0 && b.last().commit == t.commit;
    let m = if joins { b.len() - 1 } else { b.len() as int };
    assert(r.len() == m + 1);
    assert(r[m].commit == t.commit);
    assert forall|i: int| 0 <= i < m implies (#[trigger] r[i]) == b[i] && r[i].commit.0 < t.commit.0 by {
        assert(b[i].commit.0 <= t.commit.0);
        if i < b.len() - 1 {
            assert(b[i].commit.0 < b[b.len() - 1].commit.0);
        }
        if !joins {
            assert(b[b.len() - 1].commit.0 <= t.commit.0);
            assert(b.last().commit.0 != t.commit.0);
        }
    }
    assert forall|g: int, f: FileId| 0 <= g < r.len() implies (#[trigger] r[g].files.contains(f) <==> plain::touched(
        touches,
        r[g].commit.0,
        f,
    )) by {
        lemma_touched_push(touches, r[g].commit.0, f);
        if g < m {
            assert(b[g].files.contains(f) <==> plain::touched(d, b[g].commit.0, f));
        } else if joins {
            let fs = b[m].files;
            assert(b[m].files.contains(f) <==> plain::touched(d, b[m].commit.0, f));
            lemma_push_contains(fs, t.file, f);
        } else {
            if plain::touched(d, t.commit.0, f) {
                assert(has_group(b, t.commit.0));
                let k = choose|k: int| 0 <= k < b.len() && (#[trigger] b[k]).commit.0 == t.commit.0;
                assert(r[k].commit.0 < t.commit.0);
            }
            assert(r[m].files == seq![t.file]);
            assert(seq![t.file][0] == t.file);
        }
    }
    assert forall|c: i64, f: FileId|
        plain::weighs(commits, c) && #[trigger] plain::touched(touches, c, f) implies has_group(r, c) by {
        lemma_touched_push(touches, c, f);
        if c == t.commit.0 {
            assert(r[m].commit.0 == c);
        } else {
            assert(plain::touched(d, c, f));
            let k = choose|k: int| 0 <= k < b.len() && (#[trigger] b[k]).commit.0 == c;
            assert(r[k].commit.0 == c);
        }
    }
    if plain::touches_once(touches) {
        assert forall|g: int| 0 <= g < r.len() implies (#[trigger] r[g]).files.no_duplicates() by {
            if g < m {
                assert(b[g].files.no_duplicates());
            } else if joins {
                let fs = b[m].files;
                assert(fs.no_duplicates());
                if fs.contains(t.file) {
                    assert(b[m].files.contains(t.file));
                    let i = choose|i: int|
                        0 <= i < d.len() && (#[trigger] d[i]).commit.0 == t.commit.0 && d[i].file == t.file;
                    assert(touches[i].commit != touches[touches.len() - 1].commit || touches[i].file
                        != touches[touches.len() - 1].file);
                }
            }
        }
    }
}

proof fn lemma_push_contains<A>(s: Seq<A>, x: A, y: A)
    ensures
        s.push(x).contains(y) <==> s.contains(y) || y == x,
{
    let r = s.push(x);
    if s.contains(y) {
        assert(r[s.index_of(y)] == y);
    }
    if y == x {
        assert(r[s.len() as int] == y);
    }
    if r.contains(y) {
        let k = r.index_of(y);
        if k < s.len() {
            assert(s[k] == y);
        }
    }
}

// ---- pairs ----

/// Two different files of a list, the one with the smaller id first.
pub open spec fn both_in(files: Seq<FileId>, a: FileId, b: FileId) -> bool {
    a.0 < b.0 && files.contains(a) && files.contains(b)
}

proof fn lemma_pairs_at(files: Seq<FileId>, i: int, j: int, p: (FileId, FileId))
    requires
        0 <= i,
        j <= files.len(),
    ensures
        cochange::pairs_at(files, i, j).contains(p) <==> exists|k: int|
            i < k < j && #[trigger] files[k] != files[i] && p == cochange::in_order(files[i], files[k]),
    decreases j - i,
{
    if j > i + 1 {
        lemma_pairs_at(files, i, j - 1, p);
        let b = cochange::pairs_at(files, i, j - 1);
        if files[i] != files[j - 1] {
            lemma_push_contains(b, cochange::in_order(files[i], files[j - 1]), p);
        }
    }
}

proof fn lemma_pairs_in(files: Seq<FileId>, n: int, p: (FileId, FileId))
    requires
        0 <= n <= files.len(),
    ensures
        cochange::pairs_in(files, n).contains(p) <==> exists|i: int, k: int|
            0 <= i < n && i < k < files.len() && #[trigger] files[i] != #[trigger] files[k] && p == cochange::in_order(
                files[i],
                files[k],
            ),
    decreases n,
{
    if n > 0 {
        lemma_pairs_in(files, n - 1, p);
        let a = cochange::pairs_in(files, n - 1);
        let b = cochange::pairs_at(files, n - 1, files.len() as int);
        lemma_pairs_at(files, n - 1, files.len() as int, p);
        let r = cochange::pairs_in(files, n);
        if a.contains(p) {
            assert(r[a.index_of(p)] == p);
        }
        if b.contains(p) {
            assert(r[a.len() + b.index_of(p)] == p);
            let k = choose|k: int|
                n - 1 < k < files.len() && #[trigger] files[k] != files[n - 1] && p == cochange::in_order(
                    files[n - 1],
                    files[k],
                );
            assert(files[n - 1] != files[k]);
        }
        if r.contains(p) {
            let m = r.index_of(p);
            if m < a.len() {
                assert(a[m] == p);
            } else {
                assert(b[m - a.len()] == p);
            }
        }
        if exists|i: int, k: int|
            0 <= i < n && i < k < files.len() && #[trigger] files[i] != #[trigger] files[k] && p == cochange::in_order(
                files[i],
                files[k],
            ) {
            let (i, k) = choose|i: int, k: int|
                0 <= i < n && i < k < files.len() && #[trigger] files[i] != #[trigger] files[k] && p
                    == cochange::in_order(files[i], files[k]);
            if i == n - 1 {
                assert(files[k] != files[n - 1]);
            }
        }
    }
}

/// Law: the pairs of a commit are any two different files that it touched,
/// wherever they stand in its list.
pub proof fn pairs_are_of_any_two(files: Seq<FileId>, a: FileId, b: FileId)
    ensures
        cochange::pairs_in(files, files.len() as int).contains((a, b)) <==> both_in(files, a, b),
{
    let n = files.len() as int;
    lemma_pairs_in(files, n, (a, b));
    if both_in(files, a, b) {
        let i = files.index_of(a);
        let k = files.index_of(b);
        if i < k {
            assert(files[i] != files[k] && (a, b) == cochange::in_order(files[i], files[k]));
        } else {
            assert(files[k] != files[i] && (a, b) == cochange::in_order(files[k], files[i]));
        }
    }
}

proof fn lemma_times(ps: Seq<(FileId, FileId)>, p: (FileId, FileId), g: int)
    ensures
        forall|i: int| 0 <= i < cochange::times_in(ps, p, g).len() ==> #[trigger] cochange::times_in(ps, p, g)[i] == g,
        cochange::times_in(ps, p, g).len() > 0 <==> ps.contains(p),
        ps.no_duplicates() ==> cochange::times_in(ps, p, g).len() <= 1,
    decreases ps.len(),
{
    if ps.len() > 0 {
        let d = ps.drop_last();
        lemma_times(d, p, g);
        assert(d.push(ps.last()) =~= ps);
        lemma_push_contains(d, ps.last(), p);
        if ps.no_duplicates() {
            assert(d.no_duplicates());
            if ps.last() == p && d.contains(p) {
                assert(ps[d.index_of(p)] != ps[ps.len() - 1]);
            }
        }
    }
}

proof fn lemma_pairs_distinct(files: Seq<FileId>, n: int)
    requires
        files.no_duplicates(),
        0 <= n <= files.len(),
    ensures
        cochange::pairs_in(files, n).no_duplicates(),
    decreases n,
{
    if n > 0 {
        lemma_pairs_distinct(files, n - 1);
        lemma_pairs_at_distinct(files, n - 1, files.len() as int);
        let a = cochange::pairs_in(files, n - 1);
        let b = cochange::pairs_at(files, n - 1, files.len() as int);
        assert forall|x: int, y: int| 0 <= x < a.len() && 0 <= y < b.len() implies a[x] != b[y] by {
            let p = a[x];
            if p == b[y] {
                assert(a.contains(p) && b.contains(p));
                lemma_pairs_in(files, n - 1, p);
                lemma_pairs_at(files, n - 1, files.len() as int, p);
                let (i, k) = choose|i: int, k: int|
                    0 <= i < n - 1 && i < k < files.len() && #[trigger] files[i] != #[trigger] files[k] && p
                        == cochange::in_order(files[i], files[k]);
                let m = choose|m: int|
                    n - 1 < m < files.len() && #[trigger] files[m] != files[n - 1] && p == cochange::in_order(
                        files[n - 1],
                        files[m],
                    );
                assert(files[i] == files[n - 1] || files[i] == files[m]);
            }
        }
    }
}

proof fn lemma_pairs_at_distinct(files: Seq<FileId>, i: int, j: int)
    requires
        files.no_duplicates(),
        0 <= i < files.len(),
        j <= files.len(),
    ensures
        cochange::pairs_at(files, i, j).no_duplicates(),
    decreases j - i,
{
    if j > i + 1 {
        lemma_pairs_at_distinct(files, i, j - 1);
        let b = cochange::pairs_at(files, i, j - 1);
        let p = cochange::in_order(files[i], files[j - 1]);
        if b.contains(p) {
            lemma_pairs_at(files, i, j - 1, p);
            let k = choose|k: int|
                i < k < j - 1 && #[trigger] files[k] != files[i] && p == cochange::in_order(files[i], files[k]);
            assert(files[k] == files[j - 1] || files[k] == files[i]);
        }
    }
}

/// Strictly ascending.
pub open spec fn ascending(s: Seq<int>) -> bool {
    forall|i: int, j: int| 0 <= i < j < s.len() ==> #[trigger] s[i] < #[trigger] s[j]
}

proof fn lemma_together(groups: Seq<GroupView>, n: int, a: FileId, b: FileId)
    requires
        0 <= n <= groups.len(),
    ensures
        forall|g: int| #[trigger]
            cochange::together(groups, n, (a, b)).contains(g) <==> 0 <= g < n && both_in(groups[g].files, a, b),
        groups_list_once(groups) ==> ascending(cochange::together(groups, n, (a, b))),
    decreases n,
{
    if n > 0 {
        let p = (a, b);
        lemma_together(groups, n - 1, a, b);
        let f = groups[n - 1].files;
        let ps = cochange::pairs_in(f, f.len() as int);
        let s = cochange::together(groups, n - 1, p);
        let t = cochange::times_in(ps, p, n - 1);
        let r = cochange::together(groups, n, p);
        pairs_are_of_any_two(f, a, b);
        lemma_times(ps, p, n - 1);
        assert forall|g: int| #[trigger] r.contains(g) <==> 0 <= g < n && both_in(groups[g].files, a, b) by {
            assert(s.contains(g) <==> 0 <= g < n - 1 && both_in(groups[g].files, a, b));
            if s.contains(g) {
                assert(r[s.index_of(g)] == g);
            }
            if g == n - 1 && both_in(f, a, b) {
                assert(r[s.len() as int] == t[0]);
            }
            if r.contains(g) {
                let k = r.index_of(g);
                if k < s.len() {
                    assert(s[k] == g);
                    assert(s.contains(g));
                } else {
                    assert(t[k - s.len()] == g);
                }
            }
        }
        if groups_list_once(groups) {
            assert(groups[n - 1].files.no_duplicates());
            lemma_pairs_distinct(f, f.len() as int);
            assert forall|i: int, j: int| 0 <= i < j < r.len() implies #[trigger] r[i] < #[trigger] r[j] by {
                assert(r[i] == s[i]);
                assert(s.contains(s[i]));
                if j < s.len() {
                    assert(r[j] == s[j]);
                } else {
                    assert(r[j] == t[j - s.len()]);
                }
            }
        }
    }
}

/// A pair is listed.
pub open spec fn is_listed(s: Seq<PairView>, a: FileId, b: FileId) -> bool {
    exists|i: int| 0 <= i < s.len() && (#[trigger] s[i]).a == a && s[i].b == b
}

/// Law: the pairs that are persisted are exactly the pairs of different files
/// that stand together in two groups or more. Each is listed once, the file
/// with the smaller id first, with exactly the groups that hold both.
pub proof fn pairs_are_found(groups: Seq<GroupView>)
    requires
        groups_list_once(groups),
    ensures
        ({
            let s = cochange::persisted(cochange::paired(groups, groups.len() as int));
            &&& forall|i: int|
                0 <= i < s.len() ==> (#[trigger] s[i]).a.0 < s[i].b.0 && s[i].groups.len() >= 2 && ascending(s[i].groups)
            &&& forall|i: int, g: int|
                0 <= i < s.len() ==> (#[trigger] s[i].groups.contains(g) <==> 0 <= g < groups.len() && both_in(
                    groups[g].files,
                    s[i].a,
                    s[i].b,
                ))
            &&& forall|i: int, j: int|
                0 <= i < j < s.len() ==> (#[trigger] s[i]).a != (#[trigger] s[j]).a || s[i].b != s[j].b
            &&& forall|a: FileId, b: FileId, g: int, h: int|
                0 <= g < h < groups.len() && both_in(#[trigger] groups[g].files, a, b) && both_in(
                    #[trigger] groups[h].files,
                    a,
                    b,
                ) ==> #[trigger] is_listed(s, a, b)
        }),
{
    let n = groups.len() as int;
    let all = cochange::paired(groups, n);
    let f = |p: PairView| p.groups.len() >= 2;
    let s = cochange::persisted(all);
    assert(s == all.filter(f));
    cochange::pairs_hold_their_commits(groups, n);
    let m = |p: (FileId, FileId)| cochange::together(groups, n, p);
    assert(cochange::pairs_say(all, m));
    assert forall|x: PairView| #[trigger] s.contains(x) implies all.contains(x) && f(x) by {
        all.lemma_filter_contains_rev(f, x);
        let k = s.index_of(x);
        all.lemma_filter_pred(f, k);
    }
    assert forall|k: int| 0 <= k < s.len() implies s.contains(#[trigger] s[k]) by {}
    assert forall|k: int| 0 <= k < all.len() && f(#[trigger] all[k]) implies s.contains(all[k]) by {
        all.lemma_filter_contains(f, k);
    }
    lemma_filter_apart(all, f);
    assert forall|i: int| 0 <= i < s.len() implies (#[trigger] s[i]).a.0 < s[i].b.0 && s[i].groups.len() >= 2
        && ascending(s[i].groups) && s[i].groups == cochange::together(groups, n, (s[i].a, s[i].b)) by {
        assert(f(s[i]));
        assert(all.contains(s[i]));
        let k = all.index_of(s[i]);
        assert(all[k].groups == m((all[k].a, all[k].b)));
        lemma_together(groups, n, s[i].a, s[i].b);
        let g = s[i].groups[0];
        assert(s[i].groups.contains(g));
        assert(both_in(groups[g].files, s[i].a, s[i].b));
    }
    assert forall|i: int, g: int| 0 <= i < s.len() implies (#[trigger] s[i].groups.contains(g) <==> 0 <= g
        < groups.len() && both_in(groups[g].files, s[i].a, s[i].b)) by {
        assert(s[i].groups == cochange::together(groups, n, (s[i].a, s[i].b)));
        lemma_together(groups, n, s[i].a, s[i].b);
    }
    assert forall|a: FileId, b: FileId, g: int, h: int|
        0 <= g < h < groups.len() && both_in(#[trigger] groups[g].files, a, b) && both_in(
            #[trigger] groups[h].files,
            a,
            b,
        ) implies #[trigger] is_listed(s, a, b) by {
        lemma_together(groups, n, a, b);
        let t = cochange::together(groups, n, (a, b));
        assert(t.contains(g) && t.contains(h));
        let (x, y) = (t.index_of(g), t.index_of(h));
        assert(x != y);
        assert(m((a, b)).len() > 0);
        cochange::lemma_pair_at(all, (a, b));
        let k = cochange::pair_at(all, (a, b))->0;
        assert(all[k].groups == m((all[k].a, all[k].b)));
        assert(f(all[k]));
        all.lemma_filter_contains(f, k);
        let z = s.index_of(all[k]);
        assert(s[z].a == a && s[z].b == b);
    }
}

proof fn lemma_filter_apart(all: Seq<PairView>, f: spec_fn(PairView) -> bool)
    requires
        forall|i: int, j: int|
            0 <= i < j < all.len() ==> (#[trigger] all[i]).a != (#[trigger] all[j]).a || all[i].b != all[j].b,
    ensures
        forall|i: int, j: int|
            0 <= i < j < all.filter(f).len() ==> (#[trigger] all.filter(f)[i]).a != (#[trigger] all.filter(f)[j]).a
                || all.filter(f)[i].b != all.filter(f)[j].b,
        forall|i: int| 0 <= i < all.filter(f).len() ==> all.contains(#[trigger] all.filter(f)[i]),
    decreases all.len(),
{
    reveal(Seq::filter);
    if all.len() > 0 {
        let d = all.drop_last();
        assert forall|i: int, j: int| 0 <= i < j < d.len() implies (#[trigger] d[i]).a != (#[trigger] d[j]).a || d[i].b
            != d[j].b by {
            assert(all[i].a != all[j].a || all[i].b != all[j].b);
        }
        lemma_filter_apart(d, f);
        let b = d.filter(f);
        let r = all.filter(f);
        assert forall|i: int| 0 <= i < r.len() implies all.contains(#[trigger] r[i]) by {
            if i < b.len() {
                assert(r[i] == b[i]);
                assert(d.contains(b[i]));
                assert(all[d.index_of(b[i])] == r[i]);
            } else {
                assert(all[all.len() - 1] == r[i]);
            }
        }
        assert forall|i: int, j: int| 0 <= i < j < r.len() implies (#[trigger] r[i]).a != (#[trigger] r[j]).a || r[i].b
            != r[j].b by {
            assert(r[i] == b[i]);
            if j < b.len() {
                assert(r[j] == b[j]);
            } else {
                assert(d.contains(b[i]));
                let k = d.index_of(b[i]);
                assert(all[k] == b[i]);
                assert(all[k].a != all[all.len() - 1].a || all[k].b != all[all.len() - 1].b);
            }
        }
    }
}

/// Law: two different files that two commits with a weight both touched are a
/// pair, and its groups are exactly the commits that have a weight and touched
/// both.
pub proof fn cochanges_are_found(
    commits: Seq<CommitRow>,
    touches: Seq<TouchRow>,
    a: FileId,
    b: FileId,
    c: i64,
    d: i64,
) -> (i: int)
    requires
        plain::commits_once(commits),
        plain::touches_in_order(touches),
        plain::touches_once(touches),
        a.0 < b.0,
        c < d,
        plain::weighs(commits, c) && plain::touched(touches, c, a) && plain::touched(touches, c, b),
        plain::weighs(commits, d) && plain::touched(touches, d, a) && plain::touched(touches, d, b),
    ensures
        ({
            let groups = cochange::grouped(commits, touches);
            let s = cochange::persisted(cochange::paired(groups, groups.len() as int));
            &&& 0 <= i < s.len() && s[i].a == a && s[i].b == b
            &&& forall|g: int|
                0 <= g < groups.len() ==> (#[trigger] s[i].groups.contains(g) <==> plain::touched(
                    touches,
                    groups[g].commit.0,
                    a,
                ) && plain::touched(touches, groups[g].commit.0, b))
        }),
{
    let groups = cochange::grouped(commits, touches);
    let s = cochange::persisted(cochange::paired(groups, groups.len() as int));
    groups_are_commits(commits, touches);
    pairs_are_found(groups);
    assert(has_group(groups, c) && has_group(groups, d));
    let g = choose|g: int| 0 <= g < groups.len() && (#[trigger] groups[g]).commit.0 == c;
    let h = choose|h: int| 0 <= h < groups.len() && (#[trigger] groups[h]).commit.0 == d;
    assert(groups[g].files.contains(a) && groups[g].files.contains(b));
    assert(groups[h].files.contains(a) && groups[h].files.contains(b));
    if h < g {
        assert(groups[h].commit.0 < groups[g].commit.0);
    }
    assert(both_in(groups[g].files, a, b) && both_in(groups[h].files, a, b));
    assert(is_listed(s, a, b));
    let i = choose|i: int| 0 <= i < s.len() && (#[trigger] s[i]).a == a && s[i].b == b;
    assert forall|x: int| 0 <= x < groups.len() implies (#[trigger] s[i].groups.contains(x) <==> plain::touched(
        touches,
        groups[x].commit.0,
        a,
    ) && plain::touched(touches, groups[x].commit.0, b)) by {
        assert(groups[x].files.contains(a) <==> plain::touched(touches, groups[x].commit.0, a));
        assert(groups[x].files.contains(b) <==> plain::touched(touches, groups[x].commit.0, b));
    }
    i
}

/// Law: the commits that are used are those that have a weight.
pub proof fn used_have_weight(commits: Seq<CommitRow>)
    ensures
        cochange::used(commits) <= commits.len(),
        (forall|i: int| 0 <= i < commits.len() ==> (#[trigger] commits[i]).weighted) ==> cochange::used(commits)
            == commits.len(),
        (forall|i: int| 0 <= i < commits.len() ==> !(#[trigger] commits[i]).weighted) ==> cochange::used(commits) == 0,
    decreases commits.len(),
{
    reveal(Seq::filter);
    if commits.len() > 0 {
        let d = commits.drop_last();
        used_have_weight(d);
        assert(commits[commits.len() - 1] == commits.last());
        assert forall|i: int| 0 <= i < d.len() implies d[i] == #[trigger] commits[i] by {}
    }
}

} // verus!
