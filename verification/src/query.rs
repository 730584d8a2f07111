//! What every read-side query shares: the loaded index, the commits it refers
//! to, and the file a path names. Every result row carries provenance, never a
//! bare score.

use crate::graph::Times;
use crate::graph;
use crate::model::FileId;
use crate::params::Params;
use crate::postings::Postings;
use crate::postings;
use crate::rows::{
    short_oid, CochangeRow, CommitRow, EdgeRow, FileTable, GhostRow, IntervalRow, TouchRow,
};
use crate::rows;
use crate::text;
use crate::time;
use crate::time::date_str;
use vstd::prelude::*;
use vstd::string::*;

verus! {

pub const SCHEMA_VERSION: i64 = 1;

/// Why a query has no result.
#[derive(Debug, Clone, PartialEq)]
pub enum QueryError {
    FileNotFound(String),
    Other(String),
}

impl QueryError {
    pub open spec fn text(self) -> Seq<char> {
        match self {
            QueryError::FileNotFound(p) => "file not found in history: "@ + p@,
            QueryError::Other(m) => m@,
        }
    }

    /// What the error says.
    pub fn message(&self) -> (r: String)
        ensures
            r@ == self.text(),
    {
        match self {
            QueryError::FileNotFound(p) => text::cat2("file not found in history: ", p.as_str()),
            QueryError::Other(m) => m.clone(),
        }
    }
}

// ---- commits ----

#[derive(Debug, Clone, PartialEq)]
pub struct CommitRef {
    pub oid: String,
    pub date: String,
    pub subject: String,
}

#[verifier::ext_equal]
pub struct CommitRefView {
    pub oid: Seq<char>,
    pub date: Seq<char>,
    pub subject: Seq<char>,
}

impl View for CommitRef {
    type V = CommitRefView;

    open spec fn view(&self) -> CommitRefView {
        CommitRefView { oid: self.oid@, date: self.date@, subject: self.subject@ }
    }
}

/// What an optional commit says.
pub open spec fn opt_ref(c: Option<CommitRef>) -> Option<CommitRefView> {
    match c {
        Some(c) => Some(c@),
        None => None,
    }
}

/// The text, or nothing where it is missing.
pub open spec fn or_empty(s: Option<String>) -> Seq<char> {
    match s {
        Some(x) => x@,
        None => Seq::empty(),
    }
}

pub fn text_or_empty(s: &Option<String>) -> (r: String)
    ensures
        r@ == or_empty(*s),
{
    match s {
        Some(x) => x.clone(),
        None => empty(),
    }
}

/// The empty text.
pub fn empty() -> (r: String)
    ensures
        r@ == Seq::<char>::empty(),
{
    proof {
        reveal_strlit("");
        assert(""@ =~= Seq::<char>::empty());
    }
    "".to_owned()
}

pub open spec fn commit_ids(commits: Seq<CommitRow>) -> Seq<i64> {
    commits.map_values(|c: CommitRow| c.id.0)
}

pub open spec fn commit_times(commits: Seq<CommitRow>) -> Seq<i64> {
    commits.map_values(|c: CommitRow| c.author_time)
}

/// Where the row of a commit stands.
pub open spec fn commit_at(commits: Seq<CommitRow>, id: i64) -> Option<int> {
    postings::last_position(commit_ids(commits), id)
}

/// A commit that counts for co-change.
pub open spec fn counts(commits: Seq<CommitRow>, id: i64) -> bool {
    match commit_at(commits, id) {
        Some(i) => commits[i].weighted,
        None => false,
    }
}

/// How a commit is referred to. Commit 0 stands for what was there before the
/// index starts.
pub open spec fn ref_to(commits: Seq<CommitRow>, id: i64) -> CommitRefView {
    if id == 0 {
        CommitRefView {
            oid: "(index-start)"@,
            date: time::date_of(graph::earliest_time(commit_times(commits))),
            subject: "before indexed history"@,
        }
    } else {
        match commit_at(commits, id) {
            Some(i) => CommitRefView {
                oid: rows::hex(rows::at_most(commits[i].oid@, 6)),
                date: time::date_of(commits[i].author_time as int),
                subject: or_empty(commits[i].subject),
            },
            None => CommitRefView {
                oid: "#"@ + text::decimal_int(id as int),
                date: Seq::empty(),
                subject: Seq::empty(),
            },
        }
    }
}

/// The time of a commit.
pub open spec fn when(commits: Seq<CommitRow>, id: i64) -> int {
    graph::time_at(commit_ids(commits), commit_times(commits), id)
}

/// The commits of an index and the thresholds of a query.
pub struct Ctx {
    pub params: Params,
    pub commits: Vec<CommitRow>,
    pub times: Times,
}

impl Ctx {
    pub open spec fn wf(&self) -> bool {
        &&& self.times.wf()
        &&& self.times.ids() == commit_ids(self.commits@)
        &&& self.times.times() == commit_times(self.commits@)
    }

    pub fn load(commits: Vec<CommitRow>, params: Params) -> (r: Self)
        ensures
            r.wf(),
            r.commits == commits,
            r.params == params,
    {
        let mut ids: Vec<i64> = Vec::new();
        let mut times: Vec<i64> = Vec::new();
        let mut i: usize = 0;
        while i < commits.len()
            invariant
                i <= commits@.len(),
                ids@.len() == i,
                times@.len() == i,
                forall|k: int| 0 <= k < i ==> #[trigger] ids@[k] == commits@[k].id.0,
                forall|k: int| 0 <= k < i ==> #[trigger] times@[k] == commits@[k].author_time,
            decreases commits@.len() - i,
        {
            ids.push(commits[i].id.0);
            times.push(commits[i].author_time);
            i += 1;
        }
        assert(ids@ =~= commit_ids(commits@));
        assert(times@ =~= commit_times(commits@));
        let times = Times::new(ids, times);
        Ctx { params, commits, times }
    }

    /// Where the row of a commit stands.
    pub fn commit_by_id(&self, id: i64) -> (r: Option<usize>)
        requires
            self.wf(),
        ensures
            match r {
                Some(i) => commit_at(self.commits@, id) == Some(i as int) && i < self.commits@.len(),
                None => commit_at(self.commits@, id) is None,
            },
    {
        self.times.place(id)
    }

    pub fn commit_ref(&self, id: i64) -> (r: CommitRef)
        requires
            self.wf(),
        ensures
            r@ == ref_to(self.commits@, id),
    {
        if id == 0 {
            return CommitRef {
                oid: "(index-start)".to_owned(),
                date: date_str(self.times.earliest()),
                subject: "before indexed history".to_owned(),
            };
        }
        match self.commit_by_id(id) {
            Some(i) => {
                let c = &self.commits[i];
                CommitRef {
                    oid: short_oid(&c.oid),
                    date: date_str(c.author_time),
                    subject: text_or_empty(&c.subject),
                }
            },
            None => {
                let n = text::int_text(id);
                CommitRef { oid: text::cat2("#", n.as_str()), date: empty(), subject: empty() }
            },
        }
    }

    pub fn opt_commit_ref(&self, id: Option<i64>) -> (r: Option<CommitRef>)
        requires
            self.wf(),
        ensures
            opt_ref(r) == (match id {
                Some(d) => Some(ref_to(self.commits@, d)),
                None => None,
            }),
    {
        match id {
            Some(d) => Some(self.commit_ref(d)),
            None => None,
        }
    }

    pub fn time_of(&self, id: i64) -> (r: i64)
        requires
            self.wf(),
        ensures
            r == when(self.commits@, id),
    {
        self.times.time_of(id)
    }

    /// Does a commit count for co-change?
    pub fn counts(&self, id: i64) -> (r: bool)
        requires
            self.wf(),
        ensures
            r == counts(self.commits@, id),
    {
        match self.commit_by_id(id) {
            Some(i) => self.commits[i].weighted,
            None => false,
        }
    }
}

// ---- touches ----

pub open spec fn touch_files(touches: Seq<TouchRow>) -> Seq<i64> {
    touches.map_values(|t: TouchRow| t.file.0)
}

/// The touches of a file, in the order of the table.
pub open spec fn touches_of(touches: Seq<TouchRow>, f: FileId) -> Seq<TouchRow> {
    postings::positions(touch_files(touches), f.0).map_values(|i: int| touches[i])
}

/// The commit that touched a file last, 0 where none did.
pub open spec fn last_touch(touches: Seq<TouchRow>, f: FileId) -> i64 {
    let t = touches_of(touches, f);
    if t.len() == 0 {
        0
    } else {
        t.last().commit.0
    }
}

/// Which commits touched which files.
pub struct TouchTable {
    rows: Vec<TouchRow>,
    by_file: Postings,
}

impl View for TouchTable {
    type V = Seq<TouchRow>;

    closed spec fn view(&self) -> Seq<TouchRow> {
        self.rows@
    }
}

impl TouchTable {
    pub closed spec fn wf(&self) -> bool {
        self.by_file.wf() && self.by_file@ == touch_files(self.rows@)
    }

    pub fn new(rows: Vec<TouchRow>) -> (r: Self)
        ensures
            r.wf(),
            r@ == rows@,
    {
        let mut keys: Vec<i64> = Vec::new();
        let mut i: usize = 0;
        while i < rows.len()
            invariant
                i <= rows@.len(),
                keys@.len() == i,
                forall|k: int| 0 <= k < i ==> #[trigger] keys@[k] == rows@[k].file.0,
            decreases rows@.len() - i,
        {
            keys.push(rows[i].file.0);
            i += 1;
        }
        assert(keys@ =~= touch_files(rows@));
        let by_file = Postings::build(&keys);
        TouchTable { rows, by_file }
    }

    pub fn all(&self) -> (r: &Vec<TouchRow>)
        ensures
            r@ == self@,
    {
        &self.rows
    }

    /// The touches of a file, in the order of the table.
    pub fn touches_for_file(&self, f: FileId) -> (r: Vec<TouchRow>)
        requires
            self.wf(),
        ensures
            r@ == touches_of(self@, f),
    {
        let at = self.by_file.get(f.0);
        let mut out: Vec<TouchRow> = Vec::new();
        let mut i: usize = 0;
        while i < at.len()
            invariant
                i <= at@.len(),
                forall|j: int| 0 <= j < at@.len() ==> #[trigger] at@[j] < self.rows@.len(),
                out@.len() == i,
                forall|j: int| 0 <= j < i ==> #[trigger] out@[j] == self.rows@[at@[j] as int],
            decreases at@.len() - i,
        {
            out.push(self.rows[at[i]]);
            i += 1;
        }
        assert(out@ =~= touches_of(self@, f)) by {
            assert forall|j: int| 0 <= j < out@.len() implies out@[j] == touches_of(self@, f)[j] by {
                assert(postings::as_ints(at@)[j] == at@[j]);
            }
            assert(postings::as_ints(at@).len() == at@.len());
        }
        out
    }

    /// The commit that touched a file last, 0 where none did.
    pub fn last_commit(&self, f: FileId) -> (r: i64)
        requires
            self.wf(),
        ensures
            r == last_touch(self@, f),
    {
        let t = self.touches_for_file(f);
        if t.len() == 0 {
            0
        } else {
            t[t.len() - 1].commit.0
        }
    }
}

// ---- the index ----

/// An index as it was loaded.
pub struct Snapshot {
    pub files: FileTable,
    pub edges: Vec<EdgeRow>,
    /// By edge and birth.
    pub intervals: Vec<IntervalRow>,
    /// By commit.
    pub touches: TouchTable,
    /// By descending decayed weight.
    pub cochange: Vec<CochangeRow>,
    /// By descending score.
    pub ghosts: Vec<GhostRow>,
    /// The commit that was HEAD when the index was made.
    pub head: Option<String>,
}

impl Snapshot {
    pub open spec fn wf(&self) -> bool {
        self.files.wf() && self.touches.wf()
    }

    /// The path that a file is shown under.
    pub open spec fn shown(&self, id: FileId) -> Seq<char> {
        rows::shown_path(self.files.files(), self.files.paths(), id)
    }

    /// A file has a path at HEAD.
    pub open spec fn alive(&self, id: FileId) -> bool {
        rows::is_alive(self.files.files(), id)
    }

    /// The edges of the graph.
    pub open spec fn graph(&self, ctx: &Ctx) -> Seq<graph::EdgeInfoView> {
        graph::graph_edges(self.edges@, self.intervals@, commit_ids(ctx.commits@), commit_times(ctx.commits@))
    }
}

/// A path as the index writes it.
pub open spec fn clean_path(path: Seq<char>) -> Seq<char> {
    text::strip_front_all(path, "./"@)
}

/// Where the file that a path names stands.
pub open spec fn asked_file(snap: &Snapshot, path: Seq<char>) -> Option<int> {
    rows::named_file(snap.files.files(), snap.files.paths(), clean_path(path))
}

/// The file that a path names, or that there is none.
pub fn resolve_file(snap: &Snapshot, path: &str) -> (r: Result<usize, QueryError>)
    requires
        snap.wf(),
    ensures
        match r {
            Ok(i) => asked_file(snap, path@) == Some(i as int) && i < snap.files.files().len(),
            Err(QueryError::FileNotFound(p)) => asked_file(snap, path@) is None && p@ == path@,
            Err(QueryError::Other(_)) => false,
        },
{
    proof {
        reveal_strlit("./");
    }
    let clean = text::strip_front(path, "./");
    match snap.files.file_by_path(clean.as_str()) {
        Some(i) => Ok(i),
        None => Err(QueryError::FileNotFound(path.to_owned())),
    }
}

/// What a query was about.
#[derive(Debug, Clone, PartialEq)]
pub struct QueryInfo {
    pub file: String,
    pub file_id: i64,
    pub head: String,
}

#[verifier::ext_equal]
pub struct QueryInfoView {
    pub file: Seq<char>,
    pub file_id: i64,
    pub head: Seq<char>,
}

impl View for QueryInfo {
    type V = QueryInfoView;

    open spec fn view(&self) -> QueryInfoView {
        QueryInfoView { file: self.file@, file_id: self.file_id, head: self.head@ }
    }
}

/// What a query about a file was about: its path, and the start of the commit
/// that the index was made at.
pub open spec fn about(snap: &Snapshot, id: FileId) -> QueryInfoView {
    QueryInfoView { file: snap.shown(id), file_id: id.0, head: rows::at_most(or_empty(snap.head), 12) }
}

/// At most the first `n` characters.
pub fn first_chars(s: &str, n: usize) -> (r: String)
    ensures
        r@ == rows::at_most(s@, n as int),
{
    let len = s.unicode_len();
    if len > n {
        text::head_text(s, n)
    } else {
        s.to_owned()
    }
}

pub fn query_info(snap: &Snapshot, id: FileId) -> (r: QueryInfo)
    requires
        snap.wf(),
    ensures
        r@ == about(snap, id),
{
    let head = text_or_empty(&snap.head);
    QueryInfo { file: snap.files.display_path(id), file_id: id.0, head: first_chars(head.as_str(), 12) }
}

/// Non-excluded commits touching `code` since the last commit touching `doc`.
pub open spec fn behind(commits: Seq<CommitRow>, touches: Seq<TouchRow>, doc: FileId, code: FileId) -> nat {
    let last = last_touch(touches, doc);
    touches_of(touches, code).filter(|t: TouchRow| t.commit.0 > last && counts(commits, t.commit.0)).len()
}

/// As many commits as there can be touches: the count fits.
pub proof fn lemma_behind_fits(snap: &Snapshot, commits: Seq<CommitRow>, doc: FileId, code: FileId)
    ensures
        behind(commits, snap.touches@, doc, code) <= usize::MAX,
{
    let touches = snap.touches@;
    let last = last_touch(touches, doc);
    let f = |t: TouchRow| t.commit.0 > last && counts(commits, t.commit.0);
    postings::positions_are_indices(touch_files(touches), code.0);
    touches_of(touches, code).lemma_filter_len(f);
    assert(snap.touches.rows.len() == touches.len());
}

/// Non-excluded commits touching `code` since the last commit touching `doc`.
pub fn commits_behind(snap: &Snapshot, ctx: &Ctx, doc: FileId, code: FileId) -> (r: usize)
    requires
        snap.wf(),
        ctx.wf(),
    ensures
        r == behind(ctx.commits@, snap.touches@, doc, code),
{
    let last = snap.touches.last_commit(doc);
    let t = snap.touches.touches_for_file(code);
    let ghost f = |t: TouchRow| t.commit.0 > last && counts(ctx.commits@, t.commit.0);
    let mut n: usize = 0;
    let mut i: usize = 0;
    let len = t.len();
    proof {
        reveal(Seq::filter);
        assert(t@.take(0) =~= Seq::<TouchRow>::empty());
    }
    while i < len
        invariant
            i <= len,
            len == t@.len(),
            ctx.wf(),
            f == (|t: TouchRow| t.commit.0 > last && counts(ctx.commits@, t.commit.0)),
            n == t@.take(i as int).filter(f).len(),
            n <= i,
        decreases len - i,
    {
        proof {
            reveal(Seq::filter);
            assert(t@.take(i + 1).drop_last() =~= t@.take(i as int));
        }
        let c = t[i].commit.0;
        if c > last && ctx.counts(c) {
            n += 1;
        }
        i += 1;
    }
    assert(t@.take(i as int) =~= t@);
    n
}

// ---- kinds ----

/// Which kinds of evidence are asked for.
#[derive(Debug, Clone, Copy, PartialEq, Eq, Structural)]
pub struct KindFilter {
    pub live: bool,
    pub ghosts: bool,
    pub cochange: bool,
    pub doc: bool,
    pub transitive: bool,
}

impl Default for KindFilter {
    fn default() -> (r: Self)
        ensures
            r == (KindFilter { live: true, ghosts: true, cochange: true, doc: true, transitive: true }),
    {
        KindFilter { live: true, ghosts: true, cochange: true, doc: true, transitive: true }
    }
}

/// A word stands in a comma-separated list.
pub open spec fn listed(s: Seq<char>, word: Seq<char>) -> bool {
    exists|i: int| 0 <= i < text::split(s, ',').len() && text::trimmed(#[trigger] text::split(s, ',')[i]) == word
}

impl KindFilter {
    pub fn parse(s: &str) -> (r: Self)
        ensures
            r == (KindFilter {
                live: listed(s@, "live"@),
                ghosts: listed(s@, "ghost"@),
                cochange: listed(s@, "cochange"@),
                doc: listed(s@, "doc"@),
                transitive: listed(s@, "transitive"@),
            }),
    {
        let parts = text::split_on(s, ',');
        let mut words: Vec<String> = Vec::new();
        let mut i: usize = 0;
        while i < parts.len()
            invariant
                i <= parts@.len(),
                text::views(parts@) == text::split(s@, ','),
                words@.len() == i,
                forall|k: int| 0 <= k < i ==> (#[trigger] words@[k])@ == text::trimmed(text::split(s@, ',')[k]),
            decreases parts@.len() - i,
        {
            assert(text::views(parts@)[i as int] == parts@[i as int]@);
            words.push(text::trim(parts[i].as_str()));
            i += 1;
        }
        KindFilter {
            live: has_word(&words, "live", s),
            ghosts: has_word(&words, "ghost", s),
            cochange: has_word(&words, "cochange", s),
            doc: has_word(&words, "doc", s),
            transitive: has_word(&words, "transitive", s),
        }
    }
}

fn has_word(words: &Vec<String>, word: &str, s: &str) -> (r: bool)
    requires
        words@.len() == text::split(s@, ',').len(),
        forall|k: int| 0 <= k < words@.len() ==> (#[trigger] words@[k])@ == text::trimmed(text::split(s@, ',')[k]),
    ensures
        r == listed(s@, word@),
{
    let mut i: usize = 0;
    while i < words.len()
        invariant
            i <= words@.len(),
            words@.len() == text::split(s@, ',').len(),
            forall|k: int|
                0 <= k < words@.len() ==> (#[trigger] words@[k])@ == text::trimmed(text::split(s@, ',')[k]),
            forall|k: int| 0 <= k < i ==> text::trimmed(#[trigger] text::split(s@, ',')[k]) != word@,
        decreases words@.len() - i,
    {
        assert(words@[i as int]@ == text::trimmed(text::split(s@, ',')[i as int]));
        if text::eq_str(words[i].as_str(), word) {
            return true;
        }
        i += 1;
    }
    false
}

} // verus!
