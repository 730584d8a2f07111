//! What version control's reports come to, over all reports.

use crate::text;
use crate::vcs;
use crate::vcs::{ChangeView, DeltaStatus, RawCommit, RawDelta};
use vstd::prelude::*;

verus! {

/// Law: an added or copied file is an addition at its new path, a deleted one a
/// deletion at its old path, one whose content or type changed a modification,
/// and a renamed one leads from the old path to the new. A submodule is
/// nothing, and neither is any other report or one without the path it needs.
pub proof fn reports_are_changes(d: RawDelta, from: Seq<char>, to: Seq<char>)
    ensures
        d.submodule ==> vcs::change_of(d) is None,
        d.status == DeltaStatus::Other ==> vcs::change_of(d) is None,
        !d.submodule && (d.status == DeltaStatus::Added || d.status == DeltaStatus::Copied) && vcs::slashed(d.new_path)
            == Some(to) ==> vcs::change_of(d) == Some((ChangeView::Added { path: to }, 100u8)),
        !d.submodule && (d.status == DeltaStatus::Modified || d.status == DeltaStatus::Typechange) && vcs::slashed(
            d.new_path,
        ) == Some(to) ==> vcs::change_of(d) == Some((ChangeView::Modified { path: to }, 100u8)),
        !d.submodule && d.status == DeltaStatus::Deleted && vcs::slashed(d.old_path) == Some(from) ==> vcs::change_of(d)
            == Some((ChangeView::Deleted { path: from }, 100u8)),
        !d.submodule && d.status == DeltaStatus::Renamed && vcs::slashed(d.old_path) == Some(from) && vcs::slashed(
            d.new_path,
        ) == Some(to) ==> (vcs::change_of(d) matches Some(x) && x.0 == (ChangeView::Renamed { from, to })),
        d.status == DeltaStatus::Deleted && d.old_path is None ==> vcs::change_of(d) is None,
        d.status != DeltaStatus::Deleted && d.new_path is None ==> vcs::change_of(d) is None,
        d.status == DeltaStatus::Renamed && d.old_path is None ==> vcs::change_of(d) is None,
{
}

/// Law: a rename is certain where the content is the same, strong where the
/// directory or the stem of the name is, and doubtful else.
pub proof fn renames_are_graded(from: Seq<char>, to: Seq<char>)
    ensures
        vcs::rename_confidence(true, from, to) == 100,
        vcs::dir_part(from) == vcs::dir_part(to) ==> vcs::rename_confidence(false, from, to) == 85,
        vcs::stem_part(from) == vcs::stem_part(to) ==> vcs::rename_confidence(false, from, to) == 85,
        vcs::dir_part(from) != vcs::dir_part(to) && vcs::stem_part(from) != vcs::stem_part(to)
            ==> vcs::rename_confidence(false, from, to) == 60,
{
}

/// Law: a path is kept with forward slashes.
pub proof fn paths_have_forward_slashes(path: String, i: int)
    requires
        0 <= i < path@.len(),
    ensures
        vcs::slashed(Some(path)) matches Some(p) && p.len() == path@.len() && p[i] == (if path@[i] == '\\' {
            '/'
        } else {
            path@[i]
        }),
        vcs::slashed(None) is None,
{
}

/// Law: a change keeps the new blob unless it deletes the file and the old blob
/// unless it adds it, the counts of its lines unless it is binary, and its
/// lines where there are at most four thousand of them.
pub proof fn changes_keep_their_measure(d: RawDelta)
    requires
        vcs::file_change_of(d) is Some,
    ensures
        ({
            let c = vcs::file_change_of(d)->0;
            &&& Some((c.change, c.confidence)) == vcs::change_of(d)
            &&& c.change is Deleted ==> c.new_blob is None
            &&& !(c.change is Deleted) ==> c.new_blob == Some(d.new_id@)
            &&& d.status == DeltaStatus::Added ==> c.old_blob is None
            &&& d.status != DeltaStatus::Added ==> c.old_blob == Some(d.old_id@)
            &&& d.binary ==> c.lines_added == 0 && c.lines_removed == 0 && c.changed_lines.len() == 0
            &&& !d.binary ==> (d.patch matches Some(p) ==> c.lines_added == p.added as i64 && c.lines_removed
                == p.removed as i64 && (p.added + p.removed > 4_000 ==> c.changed_lines.len() == 0) && (p.added
                + p.removed <= 4_000 ==> c.changed_lines == vcs::marked_lines(p.lines@)))
        }),
{
}

/// Law: the lines of a change are those marked as added or removed, and no line
/// of its surroundings.
pub proof fn marked_lines_are_kept(lines: Seq<(char, Vec<u8>)>, l: (char, Vec<u8>))
    ensures
        l.0 == '+' || l.0 == '-' ==> vcs::marked_lines(lines.push(l)) == vcs::marked_lines(lines).push(
            text::trim_back(text::lossy(l.1@), true, Seq::empty()),
        ),
        l.0 != '+' && l.0 != '-' ==> vcs::marked_lines(lines.push(l)) == vcs::marked_lines(lines),
        vcs::marked_lines(Seq::empty()).len() == 0,
{
    let f = |l: (char, Vec<u8>)| l.0 == '+' || l.0 == '-';
    lines.lemma_filter_push(l, f);
    Seq::<(char, Vec<u8>)>::empty().lemma_filter_len(f);
    let g = |l: (char, Vec<u8>)| text::trim_back(text::lossy(l.1@), true, Seq::empty());
    let s = lines.filter(f);
    assert(s.push(l).map_values(g) =~= s.map_values(g).push(g(l)));
}

/// Law: a commit is told by its id, its first parent, when and by whom it was
/// made, its summary, and what its message says behind that. It is a merge
/// where it has more than one parent.
pub proof fn commits_are_told(c: RawCommit, subject: Seq<char>, rest: Seq<char>)
    ensures
        vcs::info_of(c).oid == c.oid@,
        vcs::info_of(c).author_time == c.author_time,
        c.parents@.len() == 0 ==> vcs::info_of(c).parent_oid is None,
        c.parents@.len() > 0 ==> vcs::info_of(c).parent_oid == Some(c.parents@[0]@),
        vcs::info_of(c).is_merge <==> c.parents@.len() >= 2,
        c.summary matches Some(x) ==> vcs::info_of(c).subject == x@,
        c.author matches Some(x) ==> vcs::info_of(c).author == x@,
        vcs::body_behind(subject + rest, subject) == text::trimmed(rest),
        (c.summary matches Some(s) && c.message matches Some(m) && s@ == subject && m@ == subject + rest) ==> vcs::info_of(
            c,
        ).body == text::trimmed(rest),
{
    let m = subject + rest;
    assert(m.take(subject.len() as int) =~= subject);
    assert(m.skip(subject.len() as int) =~= rest);
}

/// Law: a walk that starts at a time leaves out what was made before it, and
/// nothing else; a walk without a start leaves out nothing.
pub proof fn walks_start_at_their_time(raw: Seq<RawCommit>, c: RawCommit, since: i64)
    ensures
        vcs::before_cutoff(c.author_time, Some(since)) <==> c.author_time < since,
        !vcs::before_cutoff(c.author_time, None),
{
}

} // verus!
