//! The changes of a commit made ready for the walk: vendored paths dropped,
//! and deletes and renames put before adds.

use crate::classify::{is_excluded_path, is_import_only};
use crate::classify;
use crate::lang::Lang;
use crate::lang;
use crate::vcs::{Change, FileChange, FileChangeView, CERTAIN};
use crate::vcs;
use vstd::prelude::*;

pub mod laws;

verus! {

/// A change without what happens in vendored paths. A rename that crosses
/// the boundary is an add or a delete, and as certain as any.
pub open spec fn inside(c: FileChangeView) -> Option<FileChangeView> {
    match c.change {
        vcs::ChangeView::Renamed { from, to } => {
            if classify::excluded_path(from) && classify::excluded_path(to) {
                None
            } else if classify::excluded_path(from) {
                Some(FileChangeView { change: vcs::ChangeView::Added { path: to }, confidence: vcs::CERTAIN, ..c })
            } else if classify::excluded_path(to) {
                Some(
                    FileChangeView {
                        change: vcs::ChangeView::Deleted { path: from },
                        new_blob: None,
                        confidence: vcs::CERTAIN,
                        ..c
                    },
                )
            } else {
                Some(c)
            }
        },
        _ => if classify::excluded_path(c.change.path()) {
            None
        } else {
            Some(c)
        },
    }
}

/// Deletes come first, renames next, modifications, adds last.
pub open spec fn turn(c: vcs::ChangeView) -> int {
    match c {
        vcs::ChangeView::Deleted { path } => 0,
        vcs::ChangeView::Renamed { from, to } => 1,
        vcs::ChangeView::Modified { path } => 2,
        vcs::ChangeView::Added { path } => 3,
    }
}

/// The changes that have a turn, in the order in which they came.
pub open spec fn in_turn(s: Seq<FileChangeView>, t: int) -> Seq<FileChangeView>
    decreases s.len(),
{
    if s.len() == 0 {
        Seq::empty()
    } else {
        let b = in_turn(s.drop_last(), t);
        match inside(s.last()) {
            Some(c) => if turn(c.change) == t {
                b.push(c)
            } else {
                b
            },
            None => b,
        }
    }
}

/// The changes of a commit made ready.
pub open spec fn normalized(s: Seq<FileChangeView>) -> Seq<FileChangeView> {
    in_turn(s, 0) + in_turn(s, 1) + in_turn(s, 2) + in_turn(s, 3)
}

/// A change names no vendored path.
pub open spec fn unvendored(c: vcs::ChangeView) -> bool {
    match c {
        vcs::ChangeView::Renamed { from, to } => !classify::excluded_path(from) && !classify::excluded_path(to),
        _ => !classify::excluded_path(c.path()),
    }
}

proof fn lemma_in_turn(s: Seq<FileChangeView>, t: int)
    ensures
        forall|i: int|
            0 <= i < in_turn(s, t).len() ==> turn((#[trigger] in_turn(s, t)[i]).change) == t && unvendored(
                in_turn(s, t)[i].change,
            ),
    decreases s.len(),
{
    if s.len() > 0 {
        lemma_in_turn(s.drop_last(), t);
    }
}

/// Law: no vendored path survives, and no change stands before one whose turn
/// comes earlier.
pub proof fn normalized_is_ready(s: Seq<FileChangeView>)
    ensures
        forall|i: int| 0 <= i < normalized(s).len() ==> unvendored((#[trigger] normalized(s)[i]).change),
        forall|i: int, j: int|
            0 <= i < j < normalized(s).len() ==> turn((#[trigger] normalized(s)[i]).change) <= turn(
                (#[trigger] normalized(s)[j]).change,
            ),
{
    lemma_in_turn(s, 0);
    lemma_in_turn(s, 1);
    lemma_in_turn(s, 2);
    lemma_in_turn(s, 3);
    let n = normalized(s);
    let a = in_turn(s, 0).len();
    let b = a + in_turn(s, 1).len();
    let c = b + in_turn(s, 2).len();
    assert forall|i: int| 0 <= i < n.len() implies unvendored((#[trigger] n[i]).change) && turn(n[i].change) == (if i
        < a {
        0int
    } else if i < b {
        1int
    } else if i < c {
        2int
    } else {
        3int
    }) by {
        if i < a {
            assert(n[i] == in_turn(s, 0)[i]);
        } else if i < b {
            assert(n[i] == in_turn(s, 1)[i - a]);
        } else if i < c {
            assert(n[i] == in_turn(s, 2)[i - b]);
        } else {
            assert(n[i] == in_turn(s, 3)[i - c]);
        }
    }
}

/// Changes that are no renames are certain.
pub open spec fn non_renames_certain(s: Seq<FileChangeView>) -> bool {
    forall|i: int|
        0 <= i < s.len() && !((#[trigger] s[i]).change is Renamed) ==> s[i].confidence == vcs::CERTAIN
}

proof fn lemma_certain_in_turn(s: Seq<FileChangeView>, t: int)
    requires
        non_renames_certain(s),
    ensures
        non_renames_certain(in_turn(s, t)),
    decreases s.len(),
{
    if s.len() > 0 {
        let d = s.drop_last();
        assert forall|i: int| 0 <= i < d.len() && !((#[trigger] d[i]).change is Renamed) implies d[i].confidence
            == vcs::CERTAIN by {
            assert(d[i] == s[i]);
        }
        lemma_certain_in_turn(d, t);
        assert(s[s.len() - 1] == s.last());
    }
}

/// Law: of what version control reports, only renames can be in doubt.
pub proof fn diffs_are_certain(deltas: Seq<vcs::RawDelta>)
    ensures
        non_renames_certain(deltas.filter_map(|d: vcs::RawDelta| vcs::file_change_of(d))),
    decreases deltas.len(),
{
    reveal(Seq::filter_map);
    let f = |d: vcs::RawDelta| vcs::file_change_of(d);
    if deltas.len() > 0 {
        let n = deltas.len() - 1;
        diffs_are_certain(deltas.drop_last());
        deltas.lemma_filter_map_take_succ(f, n);
        assert(deltas.take(n) =~= deltas.drop_last());
        assert(deltas.take(n + 1) =~= deltas);
    }
}

/// Law: only renames can be in doubt, also once the changes are made ready.
pub proof fn normalizing_keeps_certainty(s: Seq<FileChangeView>)
    requires
        non_renames_certain(s),
    ensures
        non_renames_certain(normalized(s)),
{
    lemma_certain_in_turn(s, 0);
    lemma_certain_in_turn(s, 1);
    lemma_certain_in_turn(s, 2);
    lemma_certain_in_turn(s, 3);
}

fn keep_inside(mut fc: FileChange) -> (r: Option<FileChange>)
    ensures
        match r {
            Some(c) => inside(fc@) == Some(c@),
            None => inside(fc@) is None,
        },
{
    let change = match &fc.change {
        Change::Added { path } => {
            if is_excluded_path(path.as_str()) {
                return None;
            }
            None
        },
        Change::Modified { path } => {
            if is_excluded_path(path.as_str()) {
                return None;
            }
            None
        },
        Change::Deleted { path } => {
            if is_excluded_path(path.as_str()) {
                return None;
            }
            None
        },
        Change::Renamed { from, to } => {
            let from_ex = is_excluded_path(from.as_str());
            let to_ex = is_excluded_path(to.as_str());
            if from_ex && to_ex {
                return None;
            }
            if from_ex {
                Some(Change::Added { path: to.clone() })
            } else if to_ex {
                Some(Change::Deleted { path: from.clone() })
            } else {
                None
            }
        },
    };
    match change {
        Some(change) => {
            let gone = matches!(change, Change::Deleted { .. });
            fc.change = change;
            fc.confidence = CERTAIN;
            if gone {
                fc.new_blob = None;
            }
        },
        None => {},
    }
    Some(fc)
}

/// Drop vendored paths; downgrade renames that cross the exclusion boundary.
/// Identity updates must see deletes and renames before adds.
pub fn normalize_changes(changes: Vec<FileChange>) -> (r: Vec<FileChange>)
    ensures
        vcs::change_views(r@) == normalized(vcs::change_views(changes@)),
{
    let ghost all = vcs::change_views(changes@);
    let mut deleted: Vec<FileChange> = Vec::new();
    let mut renamed: Vec<FileChange> = Vec::new();
    let mut modified: Vec<FileChange> = Vec::new();
    let mut added: Vec<FileChange> = Vec::new();
    assert(all.take(0) =~= Seq::<FileChangeView>::empty());
    assert(vcs::change_views(deleted@) =~= Seq::<FileChangeView>::empty());
    for fc in it: changes
        invariant
            it.seq() == changes@,
            all == vcs::change_views(changes@),
            vcs::change_views(deleted@) == in_turn(all.take(it.index() as int), 0),
            vcs::change_views(renamed@) == in_turn(all.take(it.index() as int), 1),
            vcs::change_views(modified@) == in_turn(all.take(it.index() as int), 2),
            vcs::change_views(added@) == in_turn(all.take(it.index() as int), 3),
    {
        let ghost n = it.index() as int;
        proof {
            assert(all.take(n + 1).drop_last() =~= all.take(n));
            assert(all.take(n + 1).last() == fc@);
        }
        let ghost d = deleted@;
        let ghost e = renamed@;
        let ghost m = modified@;
        let ghost a = added@;
        match keep_inside(fc) {
            Some(c) => {
                let ghost cv = c@;
                match &c.change {
                    Change::Deleted { path: _ } => {
                        deleted.push(c);
                        assert(vcs::change_views(deleted@) =~= vcs::change_views(d).push(cv));
                    },
                    Change::Renamed { from: _, to: _ } => {
                        renamed.push(c);
                        assert(vcs::change_views(renamed@) =~= vcs::change_views(e).push(cv));
                    },
                    Change::Modified { path: _ } => {
                        modified.push(c);
                        assert(vcs::change_views(modified@) =~= vcs::change_views(m).push(cv));
                    },
                    Change::Added { path: _ } => {
                        added.push(c);
                        assert(vcs::change_views(added@) =~= vcs::change_views(a).push(cv));
                    },
                }
            },
            None => {},
        }
    }
    assert(all.take(all.len() as int) =~= all);
    let ghost n = normalized(all);
    deleted.append(&mut renamed);
    deleted.append(&mut modified);
    deleted.append(&mut added);
    assert(vcs::change_views(deleted@) =~= n);
    deleted
}

/// A change touches little but import lines.
pub open spec fn import_only_change(c: FileChangeView, percent: int) -> bool {
    c.changed_lines.len() > 0 && classify::mostly_imports(lang::lang_at(c.change.path()), c.changed_lines, percent)
}

/// For each change whether it touches little but import lines.
pub fn import_only_flags(changes: &Vec<FileChange>, percent: u8) -> (r: Vec<bool>)
    ensures
        r@ == vcs::change_views(changes@).map_values(|c: FileChangeView| import_only_change(c, percent as int)),
{
    let mut out: Vec<bool> = Vec::new();
    let mut i: usize = 0;
    while i < changes.len()
        invariant
            i <= changes@.len(),
            out@.len() == i,
            forall|k: int| 0 <= k < i ==> #[trigger] out@[k] == import_only_change(changes@[k]@, percent as int),
        decreases changes@.len() - i,
    {
        let fc = &changes[i];
        let lang = Lang::from_path(fc.change.path());
        let flag = is_import_only(lang, &fc.changed_lines, percent);
        out.push(flag);
        i += 1;
    }
    assert(out@ =~= vcs::change_views(changes@).map_values(
        |c: FileChangeView| import_only_change(c, percent as int),
    ));
    out
}

} // verus!
