//! What becomes of the changes of a commit, over all lists of them.

use crate::changes;
use crate::classify;
use crate::vcs;
use crate::vcs::{ChangeView, FileChangeView};
use vstd::prelude::*;

verus! {

proof fn lemma_turn(s: Seq<FileChangeView>, t: int, c: FileChangeView)
    ensures
        changes::in_turn(s, t).contains(c) <==> exists|i: int|
            0 <= i < s.len() && #[trigger] changes::inside(s[i]) == Some(c) && changes::turn(c.change) == t,
    decreases s.len(),
{
    if s.len() > 0 {
        let d = s.drop_last();
        let b = changes::in_turn(d, t);
        let r = changes::in_turn(s, t);
        lemma_turn(d, t, c);
        assert(s[s.len() - 1] == s.last());
        if b.contains(c) {
            assert(r[b.index_of(c)] == c);
            let i = choose|i: int|
                0 <= i < d.len() && #[trigger] changes::inside(d[i]) == Some(c) && changes::turn(c.change) == t;
            assert(changes::inside(s[i]) == Some(c));
        }
        if changes::inside(s.last()) == Some(c) && changes::turn(c.change) == t {
            assert(r[b.len() as int] == c);
            assert(changes::inside(s[s.len() - 1]) == Some(c));
        }
        if r.contains(c) && !b.contains(c) {
            let k = r.index_of(c);
            if k < b.len() {
                assert(b[k] == c);
            }
        }
        if exists|i: int|
            0 <= i < s.len() && #[trigger] changes::inside(s[i]) == Some(c) && changes::turn(c.change) == t {
            let i = choose|i: int|
                0 <= i < s.len() && #[trigger] changes::inside(s[i]) == Some(c) && changes::turn(c.change) == t;
            if i < d.len() {
                assert(changes::inside(d[i]) == Some(c));
            }
        }
    }
}

/// Law: the changes made ready are those of the commit, each as far as it names
/// paths that are followed: none is lost and none is made up.
pub proof fn changes_are_kept(s: Seq<FileChangeView>, c: FileChangeView)
    ensures
        changes::normalized(s).contains(c) <==> exists|i: int|
            0 <= i < s.len() && #[trigger] changes::inside(s[i]) == Some(c),
{
    let a = changes::in_turn(s, 0);
    let b = changes::in_turn(s, 1);
    let d = changes::in_turn(s, 2);
    let e = changes::in_turn(s, 3);
    let n = changes::normalized(s);
    lemma_turn(s, 0, c);
    lemma_turn(s, 1, c);
    lemma_turn(s, 2, c);
    lemma_turn(s, 3, c);
    assert(n =~= a + b + d + e);
    if n.contains(c) {
        let k = n.index_of(c);
        if k < a.len() {
            assert(a[k] == c);
        } else if k < a.len() + b.len() {
            assert(b[k - a.len()] == c);
        } else if k < a.len() + b.len() + d.len() {
            assert(d[k - a.len() - b.len()] == c);
        } else {
            assert(e[k - a.len() - b.len() - d.len()] == c);
        }
        assert(a.contains(c) || b.contains(c) || d.contains(c) || e.contains(c));
    }
    if a.contains(c) {
        assert(n[a.index_of(c)] == c);
    }
    if b.contains(c) {
        assert(n[a.len() + b.index_of(c)] == c);
    }
    if d.contains(c) {
        assert(n[a.len() + b.len() + d.index_of(c)] == c);
    }
    if e.contains(c) {
        assert(n[a.len() + b.len() + d.len() + e.index_of(c)] == c);
    }
}

/// Law: a change between followed paths stays what it is, one within excluded
/// paths is nothing, a rename out of an excluded path adds the file and one
/// into an excluded path deletes it.
pub proof fn excluded_paths_are_a_boundary(c: FileChangeView, path: Seq<char>, from: Seq<char>, to: Seq<char>)
    ensures
        c.change == (ChangeView::Added { path }) || c.change == (ChangeView::Modified { path }) || c.change == (
        ChangeView::Deleted { path }) ==> changes::inside(c) == (if classify::excluded_path(path) {
            None
        } else {
            Some(c)
        }),
        c.change == (ChangeView::Renamed { from, to }) ==> match changes::inside(c) {
            None => classify::excluded_path(from) && classify::excluded_path(to),
            Some(x) => {
                &&& !classify::excluded_path(from) && !classify::excluded_path(to) ==> x == c
                &&& classify::excluded_path(from) && !classify::excluded_path(to) ==> x.change == (ChangeView::Added {
                    path: to,
                }) && x.confidence == 100 && x.new_blob == c.new_blob
                &&& !classify::excluded_path(from) && classify::excluded_path(to) ==> x.change == (ChangeView::Deleted {
                    path: from,
                }) && x.confidence == 100 && x.new_blob is None
                &&& x.old_blob == c.old_blob && x.lines_added == c.lines_added && x.lines_removed == c.lines_removed
                &&& !(classify::excluded_path(from) && classify::excluded_path(to))
            },
        },
{
}

/// Law: deletions come before renames, renames before modifications, and
/// modifications before additions.
pub proof fn room_is_made_first(s: Seq<FileChangeView>, i: int, j: int)
    requires
        0 <= i < j < changes::normalized(s).len(),
    ensures
        ({
            let a = changes::normalized(s)[i].change;
            let b = changes::normalized(s)[j].change;
            &&& b is Deleted ==> a is Deleted
            &&& b is Renamed ==> a is Deleted || a is Renamed
            &&& b is Modified ==> a is Deleted || a is Renamed || a is Modified
        }),
{
    changes::normalized_is_ready(s);
    let n = changes::normalized(s);
    assert(changes::turn(n[i].change) <= changes::turn(n[j].change));
}

/// Law: a change without kept lines is never import-only.
pub proof fn empty_changes_import_nothing(c: FileChangeView, percent: int)
    requires
        c.changed_lines.len() == 0,
    ensures
        !changes::import_only_change(c, percent),
{
}

} // verus!
