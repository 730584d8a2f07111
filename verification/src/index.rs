//! The decisions of an indexing run: where it starts, what it walks, and how
//! each commit is made ready for the walk.

use crate::changes::{import_only_flags, normalize_changes};
use crate::changes;
use crate::classify::{classify_commit, CommitClass, MECHANICAL_SUBJECT};
use crate::classify;
use crate::params::Params;
use crate::pattern;
use crate::rows;
use crate::text;
use crate::time::{is_date, parse_date};
use crate::time;
use crate::vcs::{CommitInfo, FileChange, FileChangeView};
use crate::vcs;
use vstd::prelude::*;

verus! {

/// After so many commits the store's transaction is committed.
pub const TX_CHUNK: usize = 500;

pub enum IndexError {
    /// The index to extend has no recorded head.
    NoRecordedHead,
    /// There is an index at this place already.
    AlreadyExists(String),
    /// A date that cannot be read.
    BadDate(String),
    NoCommits,
}

impl IndexError {
    pub open spec fn text(self) -> Seq<char> {
        match self {
            IndexError::NoRecordedHead => "--incremental needs an existing index with a recorded head"@,
            IndexError::AlreadyExists(db) => "index already exists at "@ + db@
                + "; use --incremental to extend it or delete it to rebuild"@,
            IndexError::BadDate(s) => "bad date: "@ + s@ + " (expected YYYY-MM-DD)"@,
            IndexError::NoCommits => "no commits to index"@,
        }
    }

    pub fn message(&self) -> (r: String)
        ensures
            r@ == self.text(),
    {
        match self {
            IndexError::NoRecordedHead => "--incremental needs an existing index with a recorded head".to_owned(),
            IndexError::AlreadyExists(db) => text::cat3(
                "index already exists at ",
                db.as_str(),
                "; use --incremental to extend it or delete it to rebuild",
            ),
            IndexError::BadDate(s) => text::cat3("bad date: ", s.as_str(), " (expected YYYY-MM-DD)"),
            IndexError::NoCommits => "no commits to index".to_owned(),
        }
    }
}

/// Where an indexing run starts.
pub enum IndexStart {
    /// The index has reached the head.
    UpToDate,
    /// Extend the index behind a commit.
    Extend { behind: String },
    /// Index from the start of history, or from what an option says.
    Afresh { since: Option<String> },
}

/// Decide where an indexing run starts. `db` is what the index is called.
pub fn index_start(
    incremental: bool,
    fresh: bool,
    prior_head: &Option<String>,
    head: &Vec<u8>,
    since: &Option<String>,
    db: &str,
) -> (r: Result<IndexStart, IndexError>)
    ensures
        match r {
            Ok(IndexStart::UpToDate) => incremental && !fresh && text::opt_view(*prior_head) == Some(rows::hex(head@)),
            Ok(IndexStart::Extend { behind }) => incremental && !fresh && text::opt_view(*prior_head) == Some(behind@)
                && behind@ != rows::hex(head@),
            Ok(IndexStart::Afresh { since: s }) => fresh && text::opt_view(s) == text::opt_view(*since),
            Err(IndexError::NoRecordedHead) => incremental && !fresh && prior_head is None,
            Err(IndexError::AlreadyExists(p)) => !incremental && !fresh && p@ == db@,
            Err(_) => false,
        },
{
    if incremental && !fresh {
        match prior_head {
            Some(h) => {
                let now = rows::full_oid(head);
                if text::eq_str(h.as_str(), now.as_str()) {
                    Ok(IndexStart::UpToDate)
                } else {
                    Ok(IndexStart::Extend { behind: h.clone() })
                }
            },
            None => Err(IndexError::NoRecordedHead),
        }
    } else {
        if !fresh {
            return Err(IndexError::AlreadyExists(db.to_owned()));
        }
        let since = match since {
            Some(s) => Some(s.clone()),
            None => None,
        };
        Ok(IndexStart::Afresh { since })
    }
}

/// What bounds a walk.
pub struct WalkBounds {
    /// The ancestors of this revision are left out.
    pub hide_rev: Option<String>,
    /// Commits before this time are left out.
    pub since_time: Option<i64>,
}

/// What bounds a walk that starts behind a revision or a date. A date-shaped
/// start filters by time instead of by rev ancestry.
pub fn walk_bounds(hide: &Option<String>) -> (r: Result<WalkBounds, IndexError>)
    ensures
        match text::opt_view(*hide) {
            None => r matches Ok(b) && b.hide_rev is None && b.since_time is None,
            Some(s) => if !time::date_shaped(s) {
                r matches Ok(b) && text::opt_view(b.hide_rev) == Some(s) && b.since_time is None
            } else if time::date_parts(s).len() != 3 {
                r matches Err(IndexError::BadDate(d)) && d@ == s
            } else {
                let p = time::date_parts(s);
                r matches Ok(b) && b.hide_rev is None && b.since_time is Some && b.since_time.unwrap()
                    == time::day_number_of_parts(p[0], p[1], p[2]) * 86_400
            },
        },
{
    match hide {
        None => Ok(WalkBounds { hide_rev: None, since_time: None }),
        Some(s) => {
            if is_date(s.as_str()) {
                proof {
                    time::date_shape_suffices(s@);
                }
                match parse_date(s.as_str()) {
                    Some(t) => Ok(WalkBounds { hide_rev: None, since_time: Some(t) }),
                    None => Err(IndexError::BadDate(s.clone())),
                }
            } else {
                Ok(WalkBounds { hide_rev: Some(s.clone()), since_time: None })
            }
        },
    }
}

/// The tree before the first commit has to be seeded: the index is a new one
/// and does not start at the root of history.
pub fn needs_seed(incremental: bool, commits: &Vec<CommitInfo>) -> (r: Result<bool, IndexError>)
    ensures
        match r {
            Ok(b) => commits@.len() > 0 && b == (!incremental && commits@[0].parent_oid is Some),
            Err(IndexError::NoCommits) => commits@.len() == 0,
            Err(_) => false,
        },
{
    if commits.len() == 0 {
        return Err(IndexError::NoCommits);
    }
    Ok(!incremental && commits[0].parent_oid.is_some())
}

/// A commit made ready for the walk.
pub struct ReadyCommit {
    pub changes: Vec<FileChange>,
    pub import_only: Vec<bool>,
    pub class: CommitClass,
}

/// For each change whether it touches little but import lines.
pub open spec fn flags_of(changes: Seq<FileChangeView>, percent: int) -> Seq<bool> {
    changes.map_values(|c: FileChangeView| changes::import_only_change(c, percent))
}

/// Make a commit ready: drop what is vendored, flag import-only changes and
/// classify the commit by what is left.
pub fn ready_commit(params: &Params, info: &CommitInfo, changes: Vec<FileChange>, all_parents: bool) -> (r: ReadyCommit)
    ensures
        vcs::change_views(r.changes@) == changes::normalized(vcs::change_views(changes@)),
        r.import_only@ == flags_of(
            changes::normalized(vcs::change_views(changes@)),
            params.import_only_percent as int,
        ),
        r.class == classify::class_of(
            *params,
            pattern::regex_matches(MECHANICAL_SUBJECT@, info.subject@),
            r.changes@.len() as usize,
            r.import_only@,
            info.is_merge,
            all_parents && info.is_merge,
        ),
{
    let changes = normalize_changes(changes);
    let import_only = import_only_flags(&changes, params.import_only_percent);
    assert(import_only@ =~= flags_of(vcs::change_views(changes@), params.import_only_percent as int));
    let class = classify_commit(
        params,
        info.subject.as_str(),
        changes.len(),
        &import_only,
        info.is_merge,
        all_parents && info.is_merge,
    );
    ReadyCommit { changes, import_only, class }
}

} // verus!
