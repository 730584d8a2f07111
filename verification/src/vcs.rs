//! What version control reports of a commit, and what the library makes of it:
//! the commit's message, and the files it changed with the confidence that a
//! rename kept a file's identity.

use crate::text;
use vstd::prelude::*;
use vstd::string::*;

pub mod laws;

verus! {

#[derive(Debug, Clone)]
pub struct CommitInfo {
    pub oid: Vec<u8>,
    pub parent_oid: Option<Vec<u8>>,
    pub author_time: i64,
    pub author: String,
    pub subject: String,
    pub body: String,
    pub is_merge: bool,
}

#[derive(Debug, Clone, PartialEq)]
pub enum Change {
    Added { path: String },
    Modified { path: String },
    Deleted { path: String },
    Renamed { from: String, to: String },
}

/// The confidence of what is certain, in hundredths.
pub const CERTAIN: u8 = 100;

#[derive(Debug, Clone)]
pub struct FileChange {
    pub change: Change,
    /// Blob oid of the new content; None for deletions.
    pub new_blob: Option<Vec<u8>>,
    pub old_blob: Option<Vec<u8>>,
    pub lines_added: i64,
    pub lines_removed: i64,
    /// Contents of added and removed lines, for import-only detection.
    /// Empty when the file is binary or the change is enormous.
    pub changed_lines: Vec<String>,
    /// Rename identity confidence in hundredths; 100 for non-renames.
    pub confidence: u8,
}

/// A change, by the paths it names.
#[verifier::ext_equal]
pub enum ChangeView {
    Added { path: Seq<char> },
    Modified { path: Seq<char> },
    Deleted { path: Seq<char> },
    Renamed { from: Seq<char>, to: Seq<char> },
}

impl ChangeView {
    /// The path the file has after this change (the deleted path for deletes).
    pub open spec fn path(self) -> Seq<char> {
        match self {
            ChangeView::Added { path } => path,
            ChangeView::Modified { path } => path,
            ChangeView::Deleted { path } => path,
            ChangeView::Renamed { from, to } => to,
        }
    }
}

#[verifier::ext_equal]
pub struct FileChangeView {
    pub change: ChangeView,
    pub new_blob: Option<Seq<u8>>,
    pub old_blob: Option<Seq<u8>>,
    pub lines_added: i64,
    pub lines_removed: i64,
    pub changed_lines: Seq<Seq<char>>,
    pub confidence: u8,
}

#[verifier::ext_equal]
pub struct CommitInfoView {
    pub oid: Seq<u8>,
    pub parent_oid: Option<Seq<u8>>,
    pub author_time: i64,
    pub author: Seq<char>,
    pub subject: Seq<char>,
    pub body: Seq<char>,
    pub is_merge: bool,
}

impl View for Change {
    type V = ChangeView;

    open spec fn view(&self) -> ChangeView {
        match *self {
            Change::Added { path } => ChangeView::Added { path: path@ },
            Change::Modified { path } => ChangeView::Modified { path: path@ },
            Change::Deleted { path } => ChangeView::Deleted { path: path@ },
            Change::Renamed { from, to } => ChangeView::Renamed { from: from@, to: to@ },
        }
    }
}

/// The bytes of an optional blob oid.
pub open spec fn blob_view(b: Option<Vec<u8>>) -> Option<Seq<u8>> {
    match b {
        Some(v) => Some(v@),
        None => None,
    }
}

impl View for FileChange {
    type V = FileChangeView;

    open spec fn view(&self) -> FileChangeView {
        FileChangeView {
            change: self.change@,
            new_blob: blob_view(self.new_blob),
            old_blob: blob_view(self.old_blob),
            lines_added: self.lines_added,
            lines_removed: self.lines_removed,
            changed_lines: text::views(self.changed_lines@),
            confidence: self.confidence,
        }
    }
}

impl View for CommitInfo {
    type V = CommitInfoView;

    open spec fn view(&self) -> CommitInfoView {
        CommitInfoView {
            oid: self.oid@,
            parent_oid: blob_view(self.parent_oid),
            author_time: self.author_time,
            author: self.author@,
            subject: self.subject@,
            body: self.body@,
            is_merge: self.is_merge,
        }
    }
}

pub open spec fn change_views(s: Seq<FileChange>) -> Seq<FileChangeView> {
    s.map_values(|c: FileChange| c@)
}

impl Change {
    /// The path the file has after this change (the deleted path for deletes).
    pub fn path(&self) -> (r: &str)
        ensures
            r@ == self@.path(),
    {
        match self {
            Change::Added { path } => path.as_str(),
            Change::Modified { path } => path.as_str(),
            Change::Deleted { path } => path.as_str(),
            Change::Renamed { from: _, to } => to.as_str(),
        }
    }
}

// ---- paths ----

/// What stands before the last slash; empty where there is none.
pub open spec fn dir_part(path: Seq<char>) -> Seq<char> {
    match text::last_index(path, '/') {
        Some(i) => path.take(i),
        None => Seq::empty(),
    }
}

/// What stands behind the last slash.
pub open spec fn base_part(path: Seq<char>) -> Seq<char> {
    match text::last_index(path, '/') {
        Some(i) => path.skip(i + 1),
        None => path,
    }
}

/// The name of a file up to its first dot.
pub open spec fn stem_part(path: Seq<char>) -> Seq<char> {
    let base = base_part(path);
    match text::first_index(base, '.') {
        Some(i) => base.take(i),
        None => base,
    }
}

pub fn parent_dir(path: &str) -> (r: &str)
    ensures
        r@ == dir_part(path@),
{
    match text::last_index_of(path, '/') {
        Some(i) => {
            let d = path.substring_char(0, i);
            assert(d@ =~= path@.take(i as int));
            d
        },
        None => {
            proof {
                reveal_strlit("");
                assert(""@ =~= Seq::<char>::empty());
            }
            ""
        },
    }
}

pub fn file_stem(path: &str) -> (r: &str)
    ensures
        r@ == stem_part(path@),
{
    let n = path.unicode_len();
    let base = match text::last_index_of(path, '/') {
        Some(i) => {
            let b = path.substring_char(i + 1, n);
            assert(b@ =~= path@.skip(i + 1));
            b
        },
        None => path,
    };
    match text::index_of(base, '.') {
        Some(i) => {
            let s = base.substring_char(0, i);
            assert(s@ =~= base@.take(i as int));
            s
        },
        None => base,
    }
}

/// Law: a path is its directory, a slash and its base, or its base alone.
pub proof fn path_parts(path: Seq<char>)
    ensures
        text::last_index(path, '/') is Some ==> path == dir_part(path) + "/"@ + base_part(path),
        text::last_index(path, '/') is None ==> path == base_part(path) && dir_part(path).len() == 0,
        !base_part(path).contains('/'),
{
    text::lemma_last_index(path, '/');
    reveal_strlit("/");
    match text::last_index(path, '/') {
        Some(i) => {
            assert(path =~= path.take(i) + "/"@ + path.skip(i + 1));
            assert forall|k: int| 0 <= k < base_part(path).len() implies base_part(path)[k] != '/' by {
                assert(path[i + 1 + k] != '/');
            }
        },
        None => {},
    }
}

// ---- commits ----

/// What version control reports of a commit.
pub struct RawCommit {
    pub oid: Vec<u8>,
    pub parents: Vec<Vec<u8>>,
    pub author_time: i64,
    pub author: Option<String>,
    pub summary: Option<String>,
    pub message: Option<String>,
}

/// The text, or nothing where it is missing.
pub open spec fn or_empty(s: Option<String>) -> Seq<char> {
    match s {
        Some(x) => x@,
        None => Seq::empty(),
    }
}

/// What a message says behind its subject.
pub open spec fn body_behind(message: Seq<char>, subject: Seq<char>) -> Seq<char> {
    if text::has_prefix(message, subject) {
        text::trimmed(message.skip(subject.len() as int))
    } else {
        Seq::empty()
    }
}

/// What the walk keeps of a commit.
pub open spec fn info_of(c: RawCommit) -> CommitInfoView {
    CommitInfoView {
        oid: c.oid@,
        parent_oid: if c.parents@.len() > 0 { Some(c.parents@[0]@) } else { None },
        author_time: c.author_time,
        author: or_empty(c.author),
        subject: or_empty(c.summary),
        body: body_behind(or_empty(c.message), or_empty(c.summary)),
        is_merge: c.parents@.len() > 1,
    }
}

/// A commit is old enough to be left out of a walk that starts at a time.
pub open spec fn before_cutoff(time: i64, since: Option<i64>) -> bool {
    match since {
        Some(cutoff) => time < cutoff,
        None => false,
    }
}

fn text_or_empty(s: &Option<String>) -> (r: String)
    ensures
        r@ == or_empty(*s),
{
    proof {
        reveal_strlit("");
        assert(""@ =~= Seq::<char>::empty());
    }
    match s {
        Some(x) => x.clone(),
        None => "".to_owned(),
    }
}

/// A copy of some bytes.
pub fn copy_bytes(v: &Vec<u8>) -> (r: Vec<u8>)
    ensures
        r@ == v@,
{
    let r = v.clone();
    assert(r@ =~= v@);
    r
}

/// What a message says behind its subject; nothing where it does not start
/// with it.
pub fn message_body(message: &str, subject: &str) -> (r: String)
    ensures
        r@ == body_behind(message@, subject@),
{
    if text::starts_with(message, subject) {
        let rest = text::tail_text(message, subject.unicode_len());
        text::trim(rest.as_str())
    } else {
        proof {
            reveal_strlit("");
            assert(""@ =~= Seq::<char>::empty());
        }
        "".to_owned()
    }
}

/// What the walk keeps of a commit.
pub fn commit_info(c: &RawCommit) -> (r: CommitInfo)
    ensures
        r@ == info_of(*c),
{
    let subject = text_or_empty(&c.summary);
    let message = text_or_empty(&c.message);
    let body = message_body(message.as_str(), subject.as_str());
    CommitInfo {
        oid: copy_bytes(&c.oid),
        parent_oid: if c.parents.len() > 0 {
            Some(copy_bytes(&c.parents[0]))
        } else {
            None
        },
        author_time: c.author_time,
        author: text_or_empty(&c.author),
        subject,
        body,
        is_merge: c.parents.len() > 1,
    }
}

/// The commits of a walk, in order, without those from before its start.
pub fn commits(raw: &Vec<RawCommit>, since_time: Option<i64>) -> (r: Vec<CommitInfo>)
    ensures
        r@.map_values(|c: CommitInfo| c@) == raw@.filter(
            |c: RawCommit| !before_cutoff(c.author_time, since_time),
        ).map_values(|c: RawCommit| info_of(c)),
{
    let ghost keep = |c: RawCommit| !before_cutoff(c.author_time, since_time);
    let ghost info = |c: RawCommit| info_of(c);
    let ghost seen = |c: CommitInfo| c@;
    let mut out: Vec<CommitInfo> = Vec::new();
    let mut i: usize = 0;
    proof {
        reveal(Seq::filter);
        assert(raw@.take(0) =~= Seq::<RawCommit>::empty());
        assert(out@.map_values(seen) =~= raw@.take(0).filter(keep).map_values(info));
    }
    while i < raw.len()
        invariant
            i <= raw@.len(),
            keep == (|c: RawCommit| !before_cutoff(c.author_time, since_time)),
            info == (|c: RawCommit| info_of(c)),
            seen == (|c: CommitInfo| c@),
            out@.map_values(seen) == raw@.take(i as int).filter(keep).map_values(info),
        decreases raw@.len() - i,
    {
        proof {
            reveal(Seq::filter);
            assert(raw@.take(i + 1).drop_last() =~= raw@.take(i as int));
        }
        let old_enough = match since_time {
            Some(cutoff) => raw[i].author_time < cutoff,
            None => false,
        };
        if !old_enough {
            let c = commit_info(&raw[i]);
            let ghost before = out@;
            out.push(c);
            proof {
                assert(out@.map_values(seen) =~= before.map_values(seen).push(c@));
                let f = raw@.take(i as int).filter(keep);
                assert(f.push(raw@[i as int]).map_values(info) =~= f.map_values(info).push(info_of(raw@[i as int])));
            }
        }
        i += 1;
    }
    assert(raw@.take(i as int) =~= raw@);
    out
}

// ---- diffs ----

/// Changes over more lines than this keep no lines.
pub const MAX_CHANGED_LINES_KEPT: usize = 4_000;

/// How version control describes a change to one file.
#[derive(Debug, Clone, Copy, PartialEq, Eq, Structural)]
pub enum DeltaStatus {
    Added,
    Copied,
    Deleted,
    Modified,
    Typechange,
    Renamed,
    Other,
}

/// The lines of a change: how many were added and removed, and each line of
/// its hunks with the mark it carries.
pub struct RawPatch {
    pub added: usize,
    pub removed: usize,
    pub lines: Vec<(char, Vec<u8>)>,
}

/// What version control reports of a change to one file.
pub struct RawDelta {
    pub status: DeltaStatus,
    /// A commit in a tree, not a file.
    pub submodule: bool,
    pub old_path: Option<String>,
    pub new_path: Option<String>,
    pub old_id: Vec<u8>,
    pub new_id: Vec<u8>,
    pub binary: bool,
    pub patch: Option<RawPatch>,
}

/// A path with forward slashes.
pub open spec fn slashed(path: Option<String>) -> Option<Seq<char>> {
    match path {
        Some(p) => Some(text::swap_char(p@, '\\', '/')),
        None => None,
    }
}

/// How sure it is that a rename kept a file's identity. The similarity score
/// is not exposed, so this is coarse: content-identical renames are certain,
/// same-directory or same-stem renames are strong, cross-directory renames
/// with a new name are the coin flips downstream metrics may discount.
pub open spec fn rename_confidence(identical: bool, from: Seq<char>, to: Seq<char>) -> u8 {
    if identical {
        CERTAIN
    } else if dir_part(from) == dir_part(to) || stem_part(from) == stem_part(to) {
        85
    } else {
        60
    }
}

/// The change and the confidence that a delta stands for; nothing where it is
/// no file, lacks a path it needs, or has another status.
pub open spec fn change_of(d: RawDelta) -> Option<(ChangeView, u8)> {
    let old_path = slashed(d.old_path);
    let new_path = slashed(d.new_path);
    if d.submodule {
        None
    } else {
        match d.status {
            DeltaStatus::Added | DeltaStatus::Copied => match new_path {
                Some(path) => Some((ChangeView::Added { path }, CERTAIN)),
                None => None,
            },
            DeltaStatus::Deleted => match old_path {
                Some(path) => Some((ChangeView::Deleted { path }, CERTAIN)),
                None => None,
            },
            DeltaStatus::Modified | DeltaStatus::Typechange => match new_path {
                Some(path) => Some((ChangeView::Modified { path }, CERTAIN)),
                None => None,
            },
            DeltaStatus::Renamed => match (old_path, new_path) {
                (Some(from), Some(to)) => Some(
                    (ChangeView::Renamed { from, to }, rename_confidence(d.old_id@ == d.new_id@, from, to)),
                ),
                _ => None,
            },
            DeltaStatus::Other => None,
        }
    }
}

/// The added and removed lines, without white space at their ends.
pub open spec fn marked_lines(lines: Seq<(char, Vec<u8>)>) -> Seq<Seq<char>> {
    lines.filter(|l: (char, Vec<u8>)| l.0 == '+' || l.0 == '-').map_values(
        |l: (char, Vec<u8>)| text::trim_back(text::lossy(l.1@), true, Seq::empty()),
    )
}

/// The lines that a patch keeps: none where there are too many.
pub open spec fn kept_lines(p: RawPatch) -> Seq<Seq<char>> {
    if p.added + p.removed <= MAX_CHANGED_LINES_KEPT {
        marked_lines(p.lines@)
    } else {
        Seq::empty()
    }
}

/// The file change that a delta stands for.
pub open spec fn file_change_of(d: RawDelta) -> Option<FileChangeView> {
    match change_of(d) {
        Some((change, confidence)) => {
            let patch = if d.binary { None } else { d.patch };
            Some(
                FileChangeView {
                    change,
                    new_blob: if change is Deleted { None } else { Some(d.new_id@) },
                    old_blob: if d.status == DeltaStatus::Added { None } else { Some(d.old_id@) },
                    lines_added: match patch {
                        Some(p) => p.added as i64,
                        None => 0,
                    },
                    lines_removed: match patch {
                        Some(p) => p.removed as i64,
                        None => 0,
                    },
                    changed_lines: match patch {
                        Some(p) => kept_lines(p),
                        None => Seq::empty(),
                    },
                    confidence,
                },
            )
        },
        None => None,
    }
}

fn slashed_path(path: &Option<String>) -> (r: Option<String>)
    ensures
        text::opt_view(r) == slashed(*path),
{
    match path {
        Some(p) => Some(text::replace_char(p.as_str(), '\\', '/')),
        None => None,
    }
}

fn same_bytes(a: &Vec<u8>, b: &Vec<u8>) -> (r: bool)
    ensures
        r == (a@ == b@),
{
    if a.len() != b.len() {
        return false;
    }
    let mut i: usize = 0;
    while i < a.len()
        invariant
            i <= a@.len(),
            a@.len() == b@.len(),
            forall|k: int| 0 <= k < i ==> a@[k] == b@[k],
        decreases a@.len() - i,
    {
        if a[i] != b[i] {
            return false;
        }
        i += 1;
    }
    assert(a@ =~= b@);
    true
}

/// The change and the confidence that a delta stands for.
pub fn delta_change(d: &RawDelta) -> (r: Option<(Change, u8)>)
    ensures
        match r {
            Some((c, confidence)) => change_of(*d) == Some((c@, confidence)),
            None => change_of(*d) is None,
        },
{
    if d.submodule {
        return None;
    }
    let old_path = slashed_path(&d.old_path);
    let new_path = slashed_path(&d.new_path);
    match d.status {
        DeltaStatus::Added | DeltaStatus::Copied => match new_path {
            Some(path) => Some((Change::Added { path }, CERTAIN)),
            None => None,
        },
        DeltaStatus::Deleted => match old_path {
            Some(path) => Some((Change::Deleted { path }, CERTAIN)),
            None => None,
        },
        DeltaStatus::Modified | DeltaStatus::Typechange => match new_path {
            Some(path) => Some((Change::Modified { path }, CERTAIN)),
            None => None,
        },
        DeltaStatus::Renamed => match (old_path, new_path) {
            (Some(from), Some(to)) => {
                let same_dir = text::eq_str(parent_dir(from.as_str()), parent_dir(to.as_str()));
                let same_stem = text::eq_str(file_stem(from.as_str()), file_stem(to.as_str()));
                let confidence: u8 = if same_bytes(&d.old_id, &d.new_id) {
                    CERTAIN
                } else if same_dir || same_stem {
                    85
                } else {
                    60
                };
                Some((Change::Renamed { from, to }, confidence))
            },
            _ => None,
        },
        DeltaStatus::Other => None,
    }
}

fn patch_lines(p: &RawPatch) -> (r: Vec<String>)
    ensures
        text::views(r@) == kept_lines(*p),
{
    let mut out: Vec<String> = Vec::new();
    if p.added > MAX_CHANGED_LINES_KEPT || p.removed > MAX_CHANGED_LINES_KEPT - p.added {
        assert(text::views(out@) =~= Seq::<Seq<char>>::empty());
        return out;
    }
    let ghost keep = |l: (char, Vec<u8>)| l.0 == '+' || l.0 == '-';
    let ghost read = |l: (char, Vec<u8>)| text::trim_back(text::lossy(l.1@), true, Seq::empty());
    let mut i: usize = 0;
    proof {
        reveal(Seq::filter);
        assert(p.lines@.take(0) =~= Seq::<(char, Vec<u8>)>::empty());
        assert(text::views(out@) =~= p.lines@.take(0).filter(keep).map_values(read));
    }
    while i < p.lines.len()
        invariant
            i <= p.lines@.len(),
            keep == (|l: (char, Vec<u8>)| l.0 == '+' || l.0 == '-'),
            read == (|l: (char, Vec<u8>)| text::trim_back(text::lossy(l.1@), true, Seq::empty())),
            text::views(out@) == p.lines@.take(i as int).filter(keep).map_values(read),
        decreases p.lines@.len() - i,
    {
        proof {
            reveal(Seq::filter);
            assert(p.lines@.take(i + 1).drop_last() =~= p.lines@.take(i as int));
        }
        let origin = p.lines[i].0;
        if origin == '+' || origin == '-' {
            let whole = text::utf8_lossy(&p.lines[i].1);
            let line = text::trim_end(whole.as_str());
            proof {
                text::lemma_views_push(out@, line);
                let f = p.lines@.take(i as int).filter(keep);
                let l = p.lines@[i as int];
                assert(f.push(l).map_values(read) =~= f.map_values(read).push(line@));
            }
            out.push(line);
        }
        i += 1;
    }
    assert(p.lines@.take(i as int) =~= p.lines@);
    out
}

/// The file change that a delta stands for.
pub fn file_change(d: &RawDelta) -> (r: Option<FileChange>)
    ensures
        match r {
            Some(c) => file_change_of(*d) == Some(c@),
            None => file_change_of(*d) is None,
        },
{
    let (change, confidence) = match delta_change(d) {
        Some(x) => x,
        None => {
            return None;
        },
    };
    let new_blob = match &change {
        Change::Deleted { path: _ } => None,
        _ => Some(copy_bytes(&d.new_id)),
    };
    let old_blob = match d.status {
        DeltaStatus::Added => None,
        _ => Some(copy_bytes(&d.old_id)),
    };
    let (lines_added, lines_removed, changed_lines) = if d.binary {
        (0i64, 0i64, Vec::new())
    } else {
        match &d.patch {
            Some(p) => (p.added as i64, p.removed as i64, patch_lines(p)),
            None => (0i64, 0i64, Vec::new()),
        }
    };
    let c = FileChange { change, new_blob, old_blob, lines_added, lines_removed, changed_lines, confidence };
    assert(Some(c@) =~~= file_change_of(*d));
    Some(c)
}

/// The file changes of a commit, in the order of its deltas.
pub fn diff_commit(deltas: &Vec<RawDelta>) -> (r: Vec<FileChange>)
    ensures
        change_views(r@) == deltas@.filter_map(|d: RawDelta| file_change_of(d)),
{
    let ghost f = |d: RawDelta| file_change_of(d);
    let mut out: Vec<FileChange> = Vec::new();
    let mut i: usize = 0;
    proof {
        reveal(Seq::filter_map);
        assert(deltas@.take(0) =~= Seq::<RawDelta>::empty());
        assert(change_views(out@) =~= deltas@.take(0).filter_map(f));
    }
    while i < deltas.len()
        invariant
            i <= deltas@.len(),
            f == (|d: RawDelta| file_change_of(d)),
            change_views(out@) == deltas@.take(i as int).filter_map(f),
        decreases deltas@.len() - i,
    {
        proof {
            deltas@.lemma_filter_map_take_succ(f, i as int);
        }
        match file_change(&deltas[i]) {
            Some(c) => {
                let ghost before = out@;
                out.push(c);
                assert(change_views(out@) =~= change_views(before).push(c@));
            },
            None => {},
        }
        i += 1;
    }
    assert(deltas@.take(i as int) =~= deltas@);
    out
}

} // verus!
