//! The live files follow the tree: behind a commit they stand at the paths
//! that its tree holds, vendored ones left out.

use crate::changes;
use crate::classify;
use crate::model::CommitId;
use crate::vcs::{ChangeView, FileChangeView};
use crate::walk::laws;
use crate::walk::paths;
use crate::walk::resume;
use crate::walk::{FactsView, WalkView};
use crate::walk;
use vstd::prelude::*;

verus! {

/// The paths of a tree that are followed.
pub open spec fn followed(tree: Set<Seq<char>>) -> Set<Seq<char>> {
    Set::new(|p: Seq<char>| tree.contains(p) && !classify::excluded_path(p))
}

/// A change tells two trees apart: what it leaves is in the first alone, what
/// it makes in the second alone, what it modifies in both.
pub open spec fn tells(old: Set<Seq<char>>, new: Set<Seq<char>>, c: ChangeView) -> bool {
    match c {
        ChangeView::Added { path } => !old.contains(path) && new.contains(path),
        ChangeView::Modified { path } => old.contains(path) && new.contains(path),
        ChangeView::Deleted { path } => old.contains(path) && !new.contains(path),
        ChangeView::Renamed { from, to } => old.contains(from) && !new.contains(from) && !old.contains(to)
            && new.contains(to),
    }
}

/// Two changes leave different paths and make different paths.
pub open spec fn separate(a: ChangeView, b: ChangeView) -> bool {
    &&& walk::left_path(a) is Some ==> walk::left_path(a) != walk::left_path(b)
    &&& resume::new_path(a) is Some ==> resume::new_path(a) != resume::new_path(b)
}

/// A change makes a path.
pub open spec fn is_made(s: Seq<FileChangeView>, p: Seq<char>) -> bool {
    exists|k: int| 0 <= k < s.len() && resume::new_path((#[trigger] s[k]).change) == Some(p)
}

/// The changes are those between two trees: each tells them apart, no path is
/// left or made twice, and every path of one tree alone is left or made.
pub open spec fn is_diff(old: Set<Seq<char>>, new: Set<Seq<char>>, s: Seq<FileChangeView>) -> bool {
    &&& forall|k: int| 0 <= k < s.len() ==> tells(old, new, (#[trigger] s[k]).change)
    &&& forall|j: int, k: int|
        0 <= j < s.len() && 0 <= k < s.len() && j != k ==> separate((#[trigger] s[j]).change, (#[trigger] s[k]).change)
    &&& forall|p: Seq<char>| old.contains(p) && !new.contains(p) ==> #[trigger] paths::is_left(s, p)
    &&& forall|p: Seq<char>| new.contains(p) && !old.contains(p) ==> #[trigger] is_made(s, p)
}

// ---- normalizing ----

/// Where the changes that have a turn came from.
spec fn sources(s: Seq<FileChangeView>, t: int) -> Seq<int>
    decreases s.len(),
{
    if s.len() == 0 {
        Seq::empty()
    } else {
        let b = sources(s.drop_last(), t);
        match changes::inside(s.last()) {
            Some(c) => if changes::turn(c.change) == t {
                b.push(s.len() - 1)
            } else {
                b
            },
            None => b,
        }
    }
}

proof fn lemma_sources(s: Seq<FileChangeView>, t: int)
    ensures
        sources(s, t).len() == changes::in_turn(s, t).len(),
        forall|i: int|
            0 <= i < sources(s, t).len() ==> 0 <= #[trigger] sources(s, t)[i] < s.len() && changes::inside(
                s[sources(s, t)[i]],
            ) == Some(changes::in_turn(s, t)[i]) && changes::turn(changes::in_turn(s, t)[i].change) == t,
        forall|i: int, j: int|
            0 <= i < j < sources(s, t).len() ==> #[trigger] sources(s, t)[i] < #[trigger] sources(s, t)[j],
        forall|k: int|
            0 <= k < s.len() && (changes::inside(s[k]) matches Some(c) && changes::turn(c.change) == t) ==> sources(
                s,
                t,
            ).contains(k),
    decreases s.len(),
{
    if s.len() > 0 {
        let d = s.drop_last();
        lemma_sources(d, t);
        let b = sources(d, t);
        let r = sources(s, t);
        assert forall|i: int| 0 <= i < r.len() implies 0 <= #[trigger] r[i] < s.len() && changes::inside(s[r[i]]) == Some(
            changes::in_turn(s, t)[i],
        ) && changes::turn(changes::in_turn(s, t)[i].change) == t by {
            if i < b.len() {
                assert(r[i] == b[i]);
                assert(d[b[i]] == s[b[i]]);
                assert(changes::in_turn(s, t)[i] == changes::in_turn(d, t)[i]);
            }
        }
        assert forall|i: int, j: int| 0 <= i < j < r.len() implies #[trigger] r[i] < #[trigger] r[j] by {
            assert(r[i] == b[i]);
            if j < b.len() {
                assert(r[j] == b[j]);
            }
        }
        assert forall|k: int|
            0 <= k < s.len() && (changes::inside(s[k]) matches Some(c) && changes::turn(c.change)
                == t) implies r.contains(k) by {
            if k == s.len() - 1 {
                assert(r[r.len() - 1] == k);
            } else {
                assert(d[k] == s[k]);
                assert(b.contains(k));
                assert(r[b.index_of(k)] == k);
            }
        }
    }
}

/// Where each of the changes made ready came from.
spec fn source(s: Seq<FileChangeView>, i: int) -> int {
    let a = changes::in_turn(s, 0).len();
    let b = a + changes::in_turn(s, 1).len();
    let c = b + changes::in_turn(s, 2).len();
    if i < a {
        sources(s, 0)[i]
    } else if i < b {
        sources(s, 1)[i - a]
    } else if i < c {
        sources(s, 2)[i - b]
    } else {
        sources(s, 3)[i - c]
    }
}

proof fn lemma_source(s: Seq<FileChangeView>, i: int)
    requires
        0 <= i < changes::normalized(s).len(),
    ensures
        0 <= source(s, i) < s.len(),
        changes::inside(s[source(s, i)]) == Some(changes::normalized(s)[i]),
{
    lemma_sources(s, 0);
    lemma_sources(s, 1);
    lemma_sources(s, 2);
    lemma_sources(s, 3);
}

proof fn lemma_source_once(s: Seq<FileChangeView>, i: int, j: int)
    requires
        0 <= i < j < changes::normalized(s).len(),
    ensures
        source(s, i) != source(s, j),
{
    lemma_sources(s, 0);
    lemma_sources(s, 1);
    lemma_sources(s, 2);
    lemma_sources(s, 3);
    lemma_source(s, i);
    lemma_source(s, j);
}

proof fn lemma_kept(s: Seq<FileChangeView>, k: int) -> (i: int)
    requires
        0 <= k < s.len(),
        changes::inside(s[k]) is Some,
    ensures
        0 <= i < changes::normalized(s).len(),
        changes::inside(s[k]) == Some(changes::normalized(s)[i]),
{
    let c = changes::inside(s[k])->0;
    let t = changes::turn(c.change);
    lemma_sources(s, t);
    let m = sources(s, t).index_of(k);
    assert(sources(s, t).contains(k));
    assert(sources(s, t)[m] == k);
    let a = changes::in_turn(s, 0).len();
    let b = a + changes::in_turn(s, 1).len();
    let d = b + changes::in_turn(s, 2).len();
    let i = if t == 0 {
        m
    } else if t == 1 {
        a + m
    } else if t == 2 {
        b + m
    } else {
        d + m
    };
    assert(changes::normalized(s)[i] == changes::in_turn(s, t)[m]);
    i
}

/// Law: the changes between two trees, made ready, are those between what is
/// followed of the trees.
pub proof fn normalizing_keeps_diffs(old: Set<Seq<char>>, new: Set<Seq<char>>, s: Seq<FileChangeView>)
    requires
        is_diff(old, new, s),
    ensures
        is_diff(followed(old), followed(new), changes::normalized(s)),
{
    let n = changes::normalized(s);
    let (o, w) = (followed(old), followed(new));
    assert forall|k: int| 0 <= k < n.len() implies tells(o, w, (#[trigger] n[k]).change) by {
        lemma_source(s, k);
        assert(tells(old, new, s[source(s, k)].change));
    }
    assert forall|j: int, k: int| 0 <= j < n.len() && 0 <= k < n.len() && j != k implies separate(
        (#[trigger] n[j]).change,
        (#[trigger] n[k]).change,
    ) by {
        lemma_source(s, j);
        lemma_source(s, k);
        if j < k {
            lemma_source_once(s, j, k);
        } else {
            lemma_source_once(s, k, j);
        }
        assert(separate(s[source(s, j)].change, s[source(s, k)].change));
    }
    assert forall|p: Seq<char>| o.contains(p) && !w.contains(p) implies #[trigger] paths::is_left(n, p) by {
        assert(paths::is_left(s, p));
        let k = choose|k: int| 0 <= k < s.len() && walk::left_path((#[trigger] s[k]).change) == Some(p);
        let i = lemma_kept(s, k);
        assert(walk::left_path(n[i].change) == Some(p));
    }
    assert forall|p: Seq<char>| w.contains(p) && !o.contains(p) implies #[trigger] is_made(n, p) by {
        assert(is_made(s, p));
        let k = choose|k: int| 0 <= k < s.len() && resume::new_path((#[trigger] s[k]).change) == Some(p);
        let i = lemma_kept(s, k);
        assert(resume::new_path(n[i].change) == Some(p));
    }
}

// ---- following ----

/// One of the first `n` changes leaves a path.
spec fn left_before(s: Seq<FileChangeView>, n: int, p: Seq<char>) -> bool {
    exists|k: int| 0 <= k < n && walk::left_path((#[trigger] s[k]).change) == Some(p)
}

/// One of the first `n` changes makes a path.
spec fn made_before(s: Seq<FileChangeView>, n: int, p: Seq<char>) -> bool {
    exists|k: int| 0 <= k < n && resume::new_path((#[trigger] s[k]).change) == Some(p)
}

proof fn lemma_before_next(s: Seq<FileChangeView>, n: int, p: Seq<char>)
    requires
        0 < n <= s.len(),
    ensures
        left_before(s, n, p) == (left_before(s, n - 1, p) || walk::left_path(s[n - 1].change) == Some(p)),
        made_before(s, n, p) == (made_before(s, n - 1, p) || resume::new_path(s[n - 1].change) == Some(p)),
{
    if left_before(s, n - 1, p) {
        let k = choose|k: int| 0 <= k < n - 1 && walk::left_path((#[trigger] s[k]).change) == Some(p);
        assert(0 <= k < n && walk::left_path(s[k].change) == Some(p));
    }
    if made_before(s, n - 1, p) {
        let k = choose|k: int| 0 <= k < n - 1 && resume::new_path((#[trigger] s[k]).change) == Some(p);
        assert(0 <= k < n && resume::new_path(s[k].change) == Some(p));
    }
}

proof fn lemma_changes_follow(
    old: Set<Seq<char>>,
    new: Set<Seq<char>>,
    w: WalkView,
    s: Seq<FileChangeView>,
    import_only: Seq<bool>,
    n: int,
    at: CommitId,
    time: i64,
)
    requires
        is_diff(old, new, s),
        w.live.dom() == old,
        0 <= n <= s.len(),
    ensures
        forall|p: Seq<char>| #[trigger]
            walk::changes_applied(w, s, import_only, n, at, time).live.contains_key(p) <==> (made_before(s, n, p) || (
            old.contains(p) && !left_before(s, n, p))),
    decreases n,
{
    let a = walk::changes_applied(w, s, import_only, n, at, time);
    if n == 0 {
        assert forall|p: Seq<char>| #[trigger] a.live.contains_key(p) <==> (made_before(s, n, p) || (old.contains(p)
            && !left_before(s, n, p))) by {
            assert(w.live.dom().contains(p) == old.contains(p));
        }
    } else {
        lemma_changes_follow(old, new, w, s, import_only, n - 1, at, time);
        let b = walk::changes_applied(w, s, import_only, n - 1, at, time);
        let c = s[n - 1].change;
        assert(tells(old, new, c));
        assert forall|p: Seq<char>| #[trigger] a.live.contains_key(p) <==> (made_before(s, n, p) || (old.contains(p)
            && !left_before(s, n, p))) by {
            lemma_before_next(s, n, p);
            assert(b.live.contains_key(p) <==> (made_before(s, n - 1, p) || (old.contains(p) && !left_before(
                s,
                n - 1,
                p,
            ))));
            if made_before(s, n - 1, p) {
                let k = choose|k: int| 0 <= k < n - 1 && resume::new_path((#[trigger] s[k]).change) == Some(p);
                assert(tells(old, new, s[k].change));
            }
            if left_before(s, n - 1, p) {
                let k = choose|k: int| 0 <= k < n - 1 && walk::left_path((#[trigger] s[k]).change) == Some(p);
                assert(tells(old, new, s[k].change));
            }
        }
    }
}

/// Law: where the live files stand at the followed paths of a tree, they stand
/// at those of the next tree once the commit that leads to it is applied.
pub proof fn live_files_follow_tree(
    old: Set<Seq<char>>,
    new: Set<Seq<char>>,
    w: WalkView,
    at: CommitId,
    time: i64,
    diff: Seq<FileChangeView>,
    import_only: Seq<bool>,
    facts: Seq<FactsView>,
)
    requires
        is_diff(old, new, diff),
        w.live.dom() == followed(old),
        changes::normalized(diff).len() <= import_only.len(),
    ensures
        walk::commit_applied(w, at, time, changes::normalized(diff), import_only, facts).live.dom() == followed(new),
{
    let s = changes::normalized(diff);
    let (o, n) = (followed(old), followed(new));
    let a = walk::detached(w, s);
    let b = walk::changes_applied(a, s, import_only, s.len() as int, at, time);
    normalizing_keeps_diffs(old, new, diff);
    laws::lemma_detached_files(w, s);
    laws::lemma_commit_files(w, at, time, s, import_only, facts);
    lemma_changes_follow(o, n, a, s, import_only, s.len() as int, at, time);
    assert forall|p: Seq<char>| b.live.dom().contains(p) <==> n.contains(p) by {
        assert(b.live.contains_key(p) <==> (made_before(s, s.len() as int, p) || (o.contains(p) && !left_before(
            s,
            s.len() as int,
            p,
        ))));
        if made_before(s, s.len() as int, p) {
            let k = choose|k: int| 0 <= k < s.len() && resume::new_path((#[trigger] s[k]).change) == Some(p);
            assert(tells(o, n, s[k].change));
        }
        if left_before(s, s.len() as int, p) {
            let k = choose|k: int| 0 <= k < s.len() && walk::left_path((#[trigger] s[k]).change) == Some(p);
            assert(tells(o, n, s[k].change));
        }
        if o.contains(p) && !n.contains(p) {
            assert(paths::is_left(s, p));
        }
        if n.contains(p) && !o.contains(p) {
            assert(is_made(s, p));
        }
    }
    assert(b.live.dom() =~= n);
}

/// Law: the live files of a walk that has seen nothing stand at the paths of
/// the empty tree.
pub proof fn nothing_follows_empty_tree()
    ensures
        walk::nothing_walked().live.dom() == followed(Set::empty()),
{
    assert(walk::nothing_walked().live.dom() =~= followed(Set::empty()));
}

/// Law: the changes between two trees, made ready, leave each other room: they
/// keep to what the store needs to show the live files and to be taken up
/// again.
pub proof fn diffs_leave_room(old: Set<Seq<char>>, new: Set<Seq<char>>, w: WalkView, diff: Seq<FileChangeView>)
    requires
        is_diff(old, new, diff),
        w.live.dom() == followed(old),
    ensures
        paths::room_to_move(w.live, changes::normalized(diff)),
        resume::new_targets(w.live, changes::normalized(diff)),
{
    let s = changes::normalized(diff);
    let (o, n) = (followed(old), followed(new));
    normalizing_keeps_diffs(old, new, diff);
    assert forall|p: Seq<char>| #[trigger] w.live.contains_key(p) <==> o.contains(p) by {
        assert(w.live.dom().contains(p) == o.contains(p));
    }
    assert forall|k: int| 0 <= k < s.len() implies paths::given_path(w.live, s, (#[trigger] s[k]).change)
        == resume::new_path(s[k].change) by {
        assert(tells(o, n, s[k].change));
        match s[k].change {
            ChangeView::Modified { path } => {
                if paths::is_left(s, path) {
                    let j = choose|j: int| 0 <= j < s.len() && walk::left_path((#[trigger] s[j]).change) == Some(path);
                    assert(tells(o, n, s[j].change));
                }
            },
            _ => {},
        }
    }
    assert forall|k: int| 0 <= k < s.len() implies (resume::new_path((#[trigger] s[k]).change) matches Some(p)
        ==> !w.live.contains_key(p)) by {
        assert(tells(o, n, s[k].change));
    }
    assert forall|k: int, j: int|
        0 <= j < s.len() && 0 <= k < s.len() && j != k && resume::new_path(
            (#[trigger] s[k]).change,
        ) is Some implies resume::new_path(s[k].change) != Some((#[trigger] s[j]).change.path()) by {
        assert(tells(o, n, s[k].change));
        assert(tells(o, n, s[j].change));
        assert(separate(s[k].change, s[j].change));
    }
    assert forall|j: int, k: int|
        0 <= j < k < s.len() && paths::given_path(w.live, s, (#[trigger] s[j]).change) is Some implies paths::given_path(
        w.live,
        s,
        s[j].change,
    ) != paths::given_path(w.live, s, (#[trigger] s[k]).change) by {
        assert(separate(s[j].change, s[k].change));
    }
}

/// Law: where the store shows the live files and these stand at the followed
/// paths of a tree, so it is behind the commit that leads to the next tree,
/// and no path is claimed twice while what the commit logs is written.
pub proof fn store_shows_tree(
    old: Set<Seq<char>>,
    new: Set<Seq<char>>,
    w: WalkView,
    at: CommitId,
    time: i64,
    diff: Seq<FileChangeView>,
    import_only: Seq<bool>,
    facts: Seq<FactsView>,
    m: Map<i64, Seq<char>>,
)
    requires
        is_diff(old, new, diff),
        w.live.dom() == followed(old),
        laws::apart(w),
        i64::MIN <= w.next_file,
        w.next_file + changes::normalized(diff).len() <= i64::MAX,
        changes::normalized(diff).len() <= import_only.len(),
        paths::shows(m, w.live, Set::empty()),
    ensures
        ({
            let n = walk::commit_applied(w, at, time, changes::normalized(diff), import_only, facts);
            let ops = n.log.skip(w.log.len() as int);
            &&& n.log == w.log + ops
            &&& paths::never_twice(m, ops)
            &&& paths::shows(paths::held(m, ops), n.live, Set::empty())
            &&& n.live.dom() == followed(new)
        }),
{
    diffs_leave_room(old, new, w, diff);
    live_files_follow_tree(old, new, w, at, time, diff, import_only, facts);
    paths::store_shows_live_files(w, at, time, changes::normalized(diff), import_only, facts, m);
}

} // verus!
