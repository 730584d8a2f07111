//! The rows that an index holds, and the lookups that every query makes:
//! which file a path names, and which path a file is shown under.

use crate::model::{ChangeKind, CommitId, EdgeKind, FileId, Resolution};
use crate::postings::Postings;
use crate::postings;
use crate::text;
use vstd::prelude::*;

verus! {

#[derive(Debug, Clone)]
pub struct CommitRow {
    pub id: CommitId,
    pub oid: Vec<u8>,
    pub author_time: i64,
    pub author: Option<String>,
    pub subject: Option<String>,
    pub body: Option<String>,
    /// The commit has a weight above zero: it counts for co-change.
    pub weighted: bool,
    pub excluded: i64,
    pub is_merge: bool,
}

#[derive(Debug, Clone)]
pub struct FileRow {
    pub id: FileId,
    pub current_path: Option<String>,
    pub lang: Option<String>,
    pub born_commit: CommitId,
    pub died_commit: Option<CommitId>,
    pub is_doc: bool,
}

#[derive(Debug, Clone, Copy, PartialEq, Eq, Structural)]
pub struct EdgeRow {
    pub id: i64,
    pub src: FileId,
    pub dst: FileId,
    pub kind: EdgeKind,
    pub resolution: Resolution,
}

#[derive(Debug, Clone, Copy, PartialEq, Eq, Structural)]
pub struct IntervalRow {
    pub edge_id: i64,
    pub born: CommitId,
    pub died: Option<CommitId>,
}

#[derive(Debug, Clone, Copy, PartialEq, Eq, Structural)]
pub struct TouchRow {
    pub commit: CommitId,
    pub file: FileId,
    pub change: ChangeKind,
    /// Lines added and removed.
    pub lines: i64,
    pub import_only: bool,
}

/// A pair of files that changed together. Its weights, confidences and lift
/// are measured elsewhere; here are what the queries decide by and show.
#[derive(Debug, Clone, Copy, PartialEq, Eq, Structural)]
pub struct CochangeRow {
    /// Where the measurements of this pair are kept.
    pub slot: usize,
    pub a: FileId,
    pub b: FileId,
    pub n: i64,
    /// The lift reaches the reporting threshold.
    pub lift_reportable: bool,
    /// The lift reaches the threshold of the picture.
    pub lift_drawn: bool,
    /// The lift reaches the threshold of hidden coupling.
    pub lift_hidden: bool,
    /// conf(b|a) and conf(a|b) in rounded hundredths, lift in rounded tenths.
    pub conf_ab_pct: i64,
    pub conf_ba_pct: i64,
    pub lift_tenths: i64,
    pub first_commit: CommitId,
    pub last_commit: CommitId,
}

/// A severed edge whose ends still change together.
#[derive(Debug, Clone, Copy, PartialEq, Eq, Structural)]
pub struct GhostRow {
    /// Where the measurements of this ghost are kept.
    pub slot: usize,
    pub edge_id: i64,
    pub severed_commit: CommitId,
    pub lifetime_days: i64,
    pub cochanges_since: i64,
    /// Confidence since the severance and score, in rounded hundredths.
    pub conf_pct: i64,
    pub score_pct: i64,
}

#[derive(Debug, Clone)]
pub struct PathIntervalRow {
    pub file_id: FileId,
    pub path: String,
    pub from_commit: CommitId,
    pub to_commit: Option<CommitId>,
    /// Identity confidence in hundredths.
    pub confidence: u8,
}

// ---- object ids ----

/// A hexadecimal digit.
pub open spec fn hex_digit(d: int) -> char {
    if d < 10 {
        (('0' as u32 + d) as u32) as char
    } else {
        (('a' as u32 + (d - 10)) as u32) as char
    }
}

/// Two hexadecimal digits per byte.
pub open spec fn hex(bytes: Seq<u8>) -> Seq<char>
    decreases bytes.len(),
{
    if bytes.len() == 0 {
        Seq::empty()
    } else {
        let b = bytes.last() as int;
        hex(bytes.drop_last()).push(hex_digit(b / 16)).push(hex_digit(b % 16))
    }
}

/// At most the first `n` elements.
pub open spec fn at_most<A>(s: Seq<A>, n: int) -> Seq<A> {
    if s.len() > n {
        s.take(n)
    } else {
        s
    }
}

fn digit_char(d: u8) -> (r: char)
    requires
        d < 16,
    ensures
        r == hex_digit(d as int),
{
    match d {
        0 => '0',
        1 => '1',
        2 => '2',
        3 => '3',
        4 => '4',
        5 => '5',
        6 => '6',
        7 => '7',
        8 => '8',
        9 => '9',
        10 => 'a',
        11 => 'b',
        12 => 'c',
        13 => 'd',
        14 => 'e',
        _ => 'f',
    }
}

fn hex_of(bytes: &Vec<u8>, n: usize) -> (r: String)
    requires
        n <= bytes@.len(),
    ensures
        r@ == hex(bytes@.take(n as int)),
{
    let mut out: String = String::new();
    let mut i: usize = 0;
    assert(bytes@.take(0) =~= Seq::<u8>::empty());
    while i < n
        invariant
            i <= n <= bytes@.len(),
            out@ == hex(bytes@.take(i as int)),
        decreases n - i,
    {
        assert(bytes@.take(i + 1).drop_last() =~= bytes@.take(i as int));
        let b = bytes[i];
        out.push(digit_char(b / 16));
        out.push(digit_char(b % 16));
        i += 1;
    }
    out
}

pub fn short_oid(oid: &Vec<u8>) -> (r: String)
    ensures
        r@ == hex(at_most(oid@, 6)),
{
    let n: usize = if oid.len() > 6 {
        6
    } else {
        oid.len()
    };
    assert(oid@.take(oid@.len() as int) =~= oid@);
    hex_of(oid, n)
}

pub fn full_oid(oid: &Vec<u8>) -> (r: String)
    ensures
        r@ == hex(oid@),
{
    assert(oid@.take(oid@.len() as int) =~= oid@);
    hex_of(oid, oid.len())
}

/// Law: the short form of an object id starts its full form.
pub proof fn short_starts_full(oid: Seq<u8>)
    ensures
        text::has_prefix(hex(oid), hex(at_most(oid, 6))),
    decreases oid.len(),
{
    if oid.len() > 6 {
        let f = oid.drop_last();
        short_starts_full(f);
        assert(at_most(f, 6) =~= oid.take(6));
        let p = hex(oid.take(6));
        assert(hex(oid).take(p.len() as int) =~= hex(f).take(p.len() as int));
    } else {
        assert(hex(oid).take(hex(oid).len() as int) =~= hex(oid));
    }
}

// ---- files ----

pub open spec fn file_ids(files: Seq<FileRow>) -> Seq<i64> {
    files.map_values(|f: FileRow| f.id.0)
}

pub open spec fn path_files(paths: Seq<PathIntervalRow>) -> Seq<i64> {
    paths.map_values(|p: PathIntervalRow| p.file_id.0)
}

/// Where the row of a file stands.
pub open spec fn file_at(files: Seq<FileRow>, id: FileId) -> Option<int> {
    postings::last_position(file_ids(files), id.0)
}

/// A file has a path at HEAD.
pub open spec fn is_alive(files: Seq<FileRow>, id: FileId) -> bool {
    match file_at(files, id) {
        Some(i) => files[i].current_path is Some,
        None => false,
    }
}

/// Among some of the paths, the one taken up last.
pub open spec fn latest_of(paths: Seq<PathIntervalRow>, at: Seq<int>) -> Option<int>
    decreases at.len(),
{
    if at.len() == 0 {
        None
    } else {
        match latest_of(paths, at.drop_last()) {
            None => Some(at.last()),
            Some(b) => if paths[b].from_commit.0 < paths[at.last()].from_commit.0 {
                Some(at.last())
            } else {
                Some(b)
            },
        }
    }
}

/// What a file without any known path is called.
pub open spec fn nameless(id: FileId) -> Seq<char> {
    "<file "@ + text::decimal_int(id.0 as int) + ">"@
}

/// Best display path for a file: the current path, or its last known path.
pub open spec fn shown_path(files: Seq<FileRow>, paths: Seq<PathIntervalRow>, id: FileId) -> Seq<char> {
    let current = match file_at(files, id) {
        Some(i) => text::opt_view(files[i].current_path),
        None => None,
    };
    match current {
        Some(p) => p,
        None => match latest_of(paths, postings::positions(path_files(paths), id.0)) {
            Some(i) => paths[i].path@,
            None => nameless(id),
        },
    }
}

/// The indices of the paths that read `path`, ascending.
pub open spec fn path_rows(paths: Seq<PathIntervalRow>, path: Seq<char>) -> Seq<int>
    decreases paths.len(),
{
    if paths.len() == 0 {
        Seq::empty()
    } else {
        let b = path_rows(paths.drop_last(), path);
        if paths.last().path@ == path {
            b.push(paths.len() - 1)
        } else {
            b
        }
    }
}

/// Where the file that has a path at HEAD stands.
pub open spec fn current_at(files: Seq<FileRow>, path: Seq<char>) -> Option<int>
    decreases files.len(),
{
    if files.len() == 0 {
        None
    } else if text::opt_view(files.last().current_path) == Some(path) {
        Some(files.len() - 1)
    } else {
        current_at(files.drop_last(), path)
    }
}

/// The file that a repo-relative path names: the one that has it at HEAD, or
/// the one that took it up most recently.
pub open spec fn named_file(files: Seq<FileRow>, paths: Seq<PathIntervalRow>, path: Seq<char>) -> Option<int> {
    match current_at(files, path) {
        Some(i) => Some(i),
        None => match latest_of(paths, path_rows(paths, path)) {
            Some(i) => file_at(files, paths[i].file_id),
            None => None,
        },
    }
}

/// Law: what a path names is a file of the table.
pub proof fn named_file_exists(files: Seq<FileRow>, paths: Seq<PathIntervalRow>, path: Seq<char>)
    ensures
        named_file(files, paths, path) matches Some(i) ==> 0 <= i < files.len(),
{
    lemma_current(files, path);
    match latest_of(paths, path_rows(paths, path)) {
        Some(i) => {
            lemma_file_at(files, paths[i].file_id);
        },
        None => {},
    }
}

/// Law: a path that no file has at HEAD still names a file if one has ever
/// had it: none that had the path took it up later.
pub proof fn past_paths_name_files(files: Seq<FileRow>, paths: Seq<PathIntervalRow>, path: Seq<char>, had: int)
    requires
        forall|i: int| 0 <= i < files.len() ==> text::opt_view(#[trigger] files[i].current_path) != Some(path),
        0 <= had < paths.len(),
        paths[had].path@ == path,
    ensures
        exists|i: int|
            {
                &&& 0 <= i < paths.len()
                &&& #[trigger] paths[i].path@ == path
                &&& named_file(files, paths, path) == file_at(files, paths[i].file_id)
                &&& forall|j: int|
                    0 <= j < paths.len() && #[trigger] paths[j].path@ == path ==> paths[j].from_commit.0
                        <= paths[i].from_commit.0
            },
{
    lemma_current(files, path);
    match current_at(files, path) {
        Some(i) => {
            assert(text::opt_view(files[i].current_path) != Some(path));
        },
        None => {},
    }
    let at = path_rows(paths, path);
    lemma_path_rows(paths, path);
    assert(at.contains(had));
    lemma_latest(paths, at);
    let i = latest_of(paths, at)->0;
    let k = at.index_of(i);
    assert(at[k] == i);
    assert forall|j: int| 0 <= j < paths.len() && #[trigger] paths[j].path@ == path implies paths[j].from_commit.0
        <= paths[i].from_commit.0 by {
        assert(at.contains(j));
        let m = at.index_of(j);
        assert(at[m] == j);
    }
    assert(paths[i].path@ == path);
}

/// Law: the path that a file has at HEAD and a path it had before name one
/// file, unless another file has the old path now or took it up later.
pub proof fn past_and_present_agree(
    files: Seq<FileRow>,
    paths: Seq<PathIntervalRow>,
    now: Seq<char>,
    old: Seq<char>,
    at: int,
    had: int,
)
    requires
        0 <= at < files.len(),
        text::opt_view(files[at].current_path) == Some(now),
        forall|i: int|
            0 <= i < files.len() && i != at ==> text::opt_view((#[trigger] files[i]).current_path) != Some(now)
                && files[i].id != files[at].id,
        forall|i: int| 0 <= i < files.len() ==> text::opt_view((#[trigger] files[i]).current_path) != Some(old),
        0 <= had < paths.len(),
        paths[had].path@ == old,
        paths[had].file_id == files[at].id,
        forall|j: int|
            0 <= j < paths.len() && (#[trigger] paths[j]).path@ == old && paths[j].file_id != files[at].id
                ==> paths[j].from_commit.0 < paths[had].from_commit.0,
    ensures
        named_file(files, paths, now) == Some(at),
        named_file(files, paths, old) == Some(at),
{
    lemma_current(files, now);
    past_paths_name_files(files, paths, old, had);
    let i = choose|i: int|
        {
            &&& 0 <= i < paths.len()
            &&& #[trigger] paths[i].path@ == old
            &&& named_file(files, paths, old) == file_at(files, paths[i].file_id)
            &&& forall|j: int|
                0 <= j < paths.len() && #[trigger] paths[j].path@ == old ==> paths[j].from_commit.0
                    <= paths[i].from_commit.0
        };
    assert(paths[had].path@ == old);
    assert(paths[i].file_id == files[at].id);
    lemma_file_at(files, files[at].id);
    postings::positions_are_indices(file_ids(files), files[at].id.0);
    assert(file_ids(files)[at] == files[at].id.0);
    assert(postings::positions(file_ids(files), files[at].id.0).contains(at));
}

proof fn lemma_path_rows(paths: Seq<PathIntervalRow>, path: Seq<char>)
    ensures
        forall|j: int|
            0 <= j < path_rows(paths, path).len() ==> 0 <= #[trigger] path_rows(paths, path)[j] < paths.len()
                && paths[path_rows(paths, path)[j]].path@ == path,
        forall|i: int|
            0 <= i < paths.len() && paths[i].path@ == path ==> #[trigger] path_rows(paths, path).contains(i),
    decreases paths.len(),
{
    if paths.len() > 0 {
        let f = paths.drop_last();
        lemma_path_rows(f, path);
        let b = path_rows(f, path);
        let p = path_rows(paths, path);
        assert forall|i: int| 0 <= i < paths.len() && paths[i].path@ == path implies #[trigger] p.contains(i) by {
            if i == paths.len() - 1 {
                assert(p[p.len() - 1] == i);
            } else {
                assert(f[i] == paths[i]);
                assert(b.contains(i));
                assert(p[b.index_of(i)] == i);
            }
        }
        assert forall|j: int| 0 <= j < p.len() implies 0 <= #[trigger] p[j] < paths.len() && paths[p[j]].path@
            == path by {
            if j < b.len() {
                assert(p[j] == b[j]);
                assert(f[b[j]] == paths[b[j]]);
            }
        }
    }
}

proof fn lemma_latest(paths: Seq<PathIntervalRow>, at: Seq<int>)
    requires
        at.len() > 0,
    ensures
        latest_of(paths, at) is Some,
        at.contains(latest_of(paths, at)->0),
        forall|j: int|
            0 <= j < at.len() ==> paths[#[trigger] at[j]].from_commit.0 <= paths[latest_of(
                paths,
                at,
            )->0].from_commit.0,
    decreases at.len(),
{
    let f = at.drop_last();
    let n = at.len() - 1;
    assert(at[n] == at.last());
    if f.len() > 0 {
        lemma_latest(paths, f);
        let b = latest_of(paths, f)->0;
        assert(at[f.index_of(b)] == b);
        assert forall|j: int| 0 <= j < at.len() implies paths[#[trigger] at[j]].from_commit.0 <= paths[latest_of(
            paths,
            at,
        )->0].from_commit.0 by {
            if j < n {
                assert(f[j] == at[j]);
            }
        }
    }
}

proof fn lemma_current(files: Seq<FileRow>, path: Seq<char>)
    ensures
        current_at(files, path) matches Some(i) ==> 0 <= i < files.len() && text::opt_view(files[i].current_path)
            == Some(path),
        current_at(files, path) is None ==> forall|i: int|
            0 <= i < files.len() ==> text::opt_view((#[trigger] files[i]).current_path) != Some(path),
    decreases files.len(),
{
    if files.len() > 0 {
        let d = files.drop_last();
        lemma_current(d, path);
        if current_at(files, path) is None {
            assert forall|i: int| 0 <= i < files.len() implies text::opt_view((#[trigger] files[i]).current_path)
                != Some(path) by {
                if i < d.len() {
                    assert(d[i] == files[i]);
                }
            }
        }
    }
}

pub proof fn lemma_file_at(files: Seq<FileRow>, id: FileId)
    ensures
        file_at(files, id) matches Some(i) ==> 0 <= i < files.len() && files[i].id == id,
{
    postings::positions_are_indices(file_ids(files), id.0);
    match file_at(files, id) {
        Some(i) => {
            let p = postings::positions(file_ids(files), id.0);
            assert(p[p.len() - 1] == i);
            assert(file_ids(files)[i] == files[i].id.0);
        },
        None => {},
    }
}

/// The files of an index and the paths they have had.
pub struct FileTable {
    files: Vec<FileRow>,
    paths: Vec<PathIntervalRow>,
    by_id: Postings,
    paths_by_file: Postings,
}

impl FileTable {
    pub closed spec fn files(&self) -> Seq<FileRow> {
        self.files@
    }

    pub closed spec fn paths(&self) -> Seq<PathIntervalRow> {
        self.paths@
    }

    pub closed spec fn wf(&self) -> bool {
        &&& self.by_id.wf()
        &&& self.by_id@ == file_ids(self.files@)
        &&& self.paths_by_file.wf()
        &&& self.paths_by_file@ == path_files(self.paths@)
    }

    pub fn new(files: Vec<FileRow>, paths: Vec<PathIntervalRow>) -> (r: Self)
        ensures
            r.wf(),
            r.files() == files@,
            r.paths() == paths@,
    {
        let mut ids: Vec<i64> = Vec::new();
        let mut i: usize = 0;
        while i < files.len()
            invariant
                i <= files@.len(),
                ids@.len() == i,
                forall|k: int| 0 <= k < i ==> #[trigger] ids@[k] == files@[k].id.0,
            decreases files@.len() - i,
        {
            ids.push(files[i].id.0);
            i += 1;
        }
        assert(ids@ =~= file_ids(files@));
        let mut owners: Vec<i64> = Vec::new();
        let mut j: usize = 0;
        while j < paths.len()
            invariant
                j <= paths@.len(),
                owners@.len() == j,
                forall|k: int| 0 <= k < j ==> #[trigger] owners@[k] == paths@[k].file_id.0,
            decreases paths@.len() - j,
        {
            owners.push(paths[j].file_id.0);
            j += 1;
        }
        assert(owners@ =~= path_files(paths@));
        let by_id = Postings::build(&ids);
        let paths_by_file = Postings::build(&owners);
        FileTable { files, paths, by_id, paths_by_file }
    }

    pub fn rows(&self) -> (r: &Vec<FileRow>)
        ensures
            r@ == self.files(),
    {
        &self.files
    }

    pub fn path_rows(&self) -> (r: &Vec<PathIntervalRow>)
        ensures
            r@ == self.paths(),
    {
        &self.paths
    }

    /// Where the row of a file stands.
    pub fn file_by_id(&self, id: FileId) -> (r: Option<usize>)
        requires
            self.wf(),
        ensures
            match r {
                Some(i) => file_at(self.files(), id) == Some(i as int) && i < self.files().len(),
                None => file_at(self.files(), id) is None,
            },
    {
        self.by_id.last(id.0)
    }

    pub fn alive(&self, id: FileId) -> (r: bool)
        requires
            self.wf(),
        ensures
            r == is_alive(self.files(), id),
    {
        match self.file_by_id(id) {
            Some(i) => self.files[i].current_path.is_some(),
            None => false,
        }
    }

    fn latest(&self, at: &Vec<usize>) -> (r: Option<usize>)
        requires
            forall|j: int| 0 <= j < at@.len() ==> #[trigger] at@[j] < self.paths().len(),
        ensures
            match r {
                Some(i) => latest_of(self.paths(), postings::as_ints(at@)) == Some(i as int) && i < self.paths().len(),
                None => latest_of(self.paths(), postings::as_ints(at@)) is None,
            },
    {
        let ghost s = postings::as_ints(at@);
        let mut best: Option<usize> = None;
        let mut i: usize = 0;
        assert(s.take(0) =~= Seq::<int>::empty());
        while i < at.len()
            invariant
                i <= at@.len(),
                s == postings::as_ints(at@),
                forall|j: int| 0 <= j < at@.len() ==> #[trigger] at@[j] < self.paths().len(),
                match best {
                    Some(b) => latest_of(self.paths(), s.take(i as int)) == Some(b as int) && b < self.paths().len(),
                    None => latest_of(self.paths(), s.take(i as int)) is None,
                },
            decreases at@.len() - i,
        {
            assert(s.take(i + 1).drop_last() =~= s.take(i as int));
            assert(s.take(i + 1).last() == at@[i as int]);
            let p = at[i];
            match best {
                None => {
                    best = Some(p);
                },
                Some(b) => {
                    if self.paths[b].from_commit.0 < self.paths[p].from_commit.0 {
                        best = Some(p);
                    }
                },
            }
            i += 1;
        }
        assert(s.take(i as int) =~= s);
        best
    }

    /// Best display path for a file: current path, or its last known path
    /// with a "(deleted)" marker left to the caller.
    pub fn display_path(&self, id: FileId) -> (r: String)
        requires
            self.wf(),
        ensures
            r@ == shown_path(self.files(), self.paths(), id),
    {
        match self.file_by_id(id) {
            Some(i) => match &self.files[i].current_path {
                Some(p) => {
                    return p.clone();
                },
                None => {},
            },
            None => {},
        }
        let at = self.paths_by_file.get(id.0);
        match self.latest(at) {
            Some(i) => self.paths[i].path.clone(),
            None => {
                let n = text::int_text(id.0);
                text::cat3("<file ", n.as_str(), ">")
            },
        }
    }

    /// The file that a repo-relative path names, trying current paths first
    /// and then the historical rename chain (most recent occupant wins).
    pub fn file_by_path(&self, path: &str) -> (r: Option<usize>)
        requires
            self.wf(),
        ensures
            match r {
                Some(i) => named_file(self.files(), self.paths(), path@) == Some(i as int) && i < self.files().len(),
                None => named_file(self.files(), self.paths(), path@) is None,
            },
    {
        let ghost fs = self.files();
        let ghost ps = self.paths();
        let mut i: usize = self.files.len();
        assert(fs.take(i as int) =~= fs);
        while i > 0
            invariant
                i <= self.files@.len(),
                fs == self.files@,
                current_at(fs, path@) == current_at(fs.take(i as int), path@),
                fs == self.files(),
                ps == self.paths(),
            decreases i,
        {
            assert(fs.take(i as int).drop_last() =~= fs.take(i - 1));
            assert(fs.take(i as int).last() == self.files@[i - 1]);
            match &self.files[i - 1].current_path {
                Some(p) => {
                    if text::eq_str(p.as_str(), path) {
                        return Some(i - 1);
                    }
                },
                None => {},
            }
            i -= 1;
        }
        let mut at: Vec<usize> = Vec::new();
        let mut j: usize = 0;
        assert(ps.take(0) =~= Seq::<PathIntervalRow>::empty());
        assert(postings::as_ints(at@) =~= path_rows(ps.take(0), path@));
        while j < self.paths.len()
            invariant
                j <= self.paths@.len(),
                ps == self.paths@,
                postings::as_ints(at@) == path_rows(ps.take(j as int), path@),
                forall|k: int| 0 <= k < at@.len() ==> #[trigger] at@[k] < self.paths@.len(),
            decreases self.paths@.len() - j,
        {
            assert(ps.take(j + 1).drop_last() =~= ps.take(j as int));
            assert(ps.take(j + 1).last() == self.paths@[j as int]);
            let ghost before = at@;
            if text::eq_str(self.paths[j].path.as_str(), path) {
                at.push(j);
                assert(postings::as_ints(at@) =~= postings::as_ints(before).push(j as int));
            }
            j += 1;
        }
        assert(ps.take(j as int) =~= ps);
        match self.latest(&at) {
            Some(k) => self.file_by_id(self.paths[k].file_id),
            None => None,
        }
    }
}

/// Law: two digits stand for each byte, the higher one first, and they are
/// `0` to `9` and `a` to `f`.
pub proof fn bytes_are_two_digits(bytes: Seq<u8>, b: u8)
    ensures
        hex(bytes).len() == 2 * bytes.len(),
        hex(bytes.push(b)).len() == hex(bytes).len() + 2,
        hex(bytes.push(b)).take(hex(bytes).len() as int) == hex(bytes),
        ({
            let high = hex(bytes.push(b))[2 * bytes.len() as int] as int;
            let low = hex(bytes.push(b))[2 * bytes.len() as int + 1] as int;
            let high_value = if high <= '9' as int { high - '0' as int } else { high - 'a' as int + 10 };
            let low_value = if low <= '9' as int { low - '0' as int } else { low - 'a' as int + 10 };
            &&& '0' as int <= high <= '9' as int || 'a' as int <= high <= 'f' as int
            &&& '0' as int <= low <= '9' as int || 'a' as int <= low <= 'f' as int
            &&& b == 16 * high_value + low_value
        }),
    decreases bytes.len(),
{
    if bytes.len() > 0 {
        bytes_are_two_digits(bytes.drop_last(), bytes.last());
        assert(bytes.drop_last().push(bytes.last()) =~= bytes);
    }
    assert(bytes.push(b).drop_last() =~= bytes);
    let h = hex(bytes.push(b));
    assert(h == hex(bytes).push(hex_digit(b as int / 16)).push(hex_digit(b as int % 16)));
    assert(h.take(hex(bytes).len() as int) =~= hex(bytes));
}

/// Law: a path that a file has at HEAD names a file that has it, and a path
/// that no file has ever had names none.
pub proof fn present_paths_name_files(files: Seq<FileRow>, paths: Seq<PathIntervalRow>, path: Seq<char>)
    ensures
        (exists|i: int| 0 <= i < files.len() && text::opt_view((#[trigger] files[i]).current_path) == Some(path))
            ==> named_file(files, paths, path) is Some && text::opt_view(
            files[named_file(files, paths, path)->0].current_path,
        ) == Some(path),
        (forall|i: int| 0 <= i < files.len() ==> text::opt_view((#[trigger] files[i]).current_path) != Some(path)) && (
        forall|j: int| 0 <= j < paths.len() ==> (#[trigger] paths[j]).path@ != path) ==> named_file(
            files,
            paths,
            path,
        ) is None,
{
    lemma_current(files, path);
    lemma_path_rows(paths, path);
    let at = path_rows(paths, path);
    if forall|j: int| 0 <= j < paths.len() ==> (#[trigger] paths[j]).path@ != path {
        if at.len() > 0 {
            assert(paths[at[0]].path@ != path);
        }
    }
}

} // verus!
