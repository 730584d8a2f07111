//! What the program says to its caller: exit codes, caveats, and the pages it
//! serves.

use crate::params::Params;
use crate::query::{QueryError, SCHEMA_VERSION};
use crate::text;
use vstd::prelude::*;
use vstd::string::*;

pub mod laws;

verus! {

/// Why a command failed.
pub enum Failure {
    Query(QueryError),
    /// There is no index at this place.
    Missing(String),
    /// There is an index that cannot be read: what was said of it.
    Unreadable(String),
    /// The index was made by another version.
    SchemaMismatch { found: i64, expected: i64 },
    /// Anything else, in words.
    Other(String),
}

impl Failure {
    /// The exit code: 2 db missing or unreadable, 3 file not found in history,
    /// 4 schema version mismatch, 1 for the rest.
    pub open spec fn code(self) -> i32 {
        match self {
            Failure::Query(QueryError::FileNotFound(_)) => 3,
            Failure::Query(QueryError::Other(_)) => 1,
            Failure::Missing(_) => 2,
            Failure::Unreadable(_) => 2,
            Failure::SchemaMismatch { found, expected } => 4,
            Failure::Other(_) => 1,
        }
    }

    /// What is said.
    pub open spec fn text(self) -> Seq<char> {
        match self {
            Failure::Query(q) => q.text(),
            Failure::Missing(place) => "database not found at "@ + place@ + "; run `pal index` first"@,
            Failure::SchemaMismatch { found, expected } => "schema version mismatch: db has "@ + text::decimal_int(
                found as int,
            ) + ", this build expects "@ + text::decimal_int(expected as int) + "; re-run `pal index`"@,
            Failure::Unreadable(words) => words@,
            Failure::Other(words) => words@,
        }
    }
}

/// The exit code of a failure, and what is said of it.
pub fn classify_error(e: &Failure) -> (r: (i32, String))
    ensures
        r.0 == e.code(),
        r.1@ == e.text(),
{
    match e {
        Failure::Query(q) => match q {
            QueryError::FileNotFound(_) => (3, q.message()),
            QueryError::Other(_) => (1, q.message()),
        },
        Failure::Missing(place) => (
            2,
            text::cat3("database not found at ", place.as_str(), "; run `pal index` first"),
        ),
        Failure::SchemaMismatch { found, expected } => {
            let f = text::int_text(*found);
            let x = text::int_text(*expected);
            let a = text::cat3("schema version mismatch: db has ", f.as_str(), ", this build expects ");
            (4, text::cat3(a.as_str(), x.as_str(), "; re-run `pal index`"))
        },
        Failure::Unreadable(words) => (2, words.clone()),
        Failure::Other(words) => (1, words.clone()),
    }
}

/// Law: the failures that a caller can act on have exit codes of their own.
pub proof fn codes_tell_failures_apart(e: Failure)
    ensures
        e.code() != 0,
        e.code() == 2 <==> e is Missing || e is Unreadable,
        e.code() == 3 <==> (e matches Failure::Query(q) && q is FileNotFound),
        e.code() == 4 <==> e is SchemaMismatch,
{
}

/// The version that an index says it has; 0 where it says none.
pub open spec fn version_of(value: Option<Seq<char>>) -> int {
    match value {
        Some(v) => match text::signed_value(v) {
            Some(n) => n,
            None => 0,
        },
        None => 0,
    }
}

/// Refuse an index that another version made.
pub fn check_version(value: &Option<String>) -> (r: Result<(), Failure>)
    ensures
        match r {
            Ok(_) => version_of(text::opt_view(*value)) == SCHEMA_VERSION,
            Err(Failure::SchemaMismatch { found, expected }) => found == version_of(text::opt_view(*value)) && found
                != SCHEMA_VERSION && expected == SCHEMA_VERSION,
            Err(_) => false,
        },
{
    let found: i64 = match value {
        Some(v) => match text::parse_i64(v.as_str()) {
            Some(n) => n,
            None => 0,
        },
        None => 0,
    };
    if found != SCHEMA_VERSION {
        return Err(Failure::SchemaMismatch { found, expected: SCHEMA_VERSION });
    }
    Ok(())
}

/// Law: an index that says the version of this build, in decimal, is accepted.
pub proof fn own_version_is_accepted()
    ensures
        version_of(Some(text::decimal_int(SCHEMA_VERSION as int))) == SCHEMA_VERSION,
{
    text::numbers_read_back(SCHEMA_VERSION as int, 0);
}

/// What is said of an index that is not at HEAD. `missed` is how many commits
/// it lacks, where that could be found out.
pub open spec fn caveat(indexed: Seq<char>, head: Seq<char>, missed: Option<u64>) -> Option<Seq<char>> {
    if indexed == head {
        None
    } else {
        match missed {
            Some(n) => Some(
                "index is "@ + text::decimal(n as nat) + " commits behind HEAD; run `pal index --incremental`"@,
            ),
            None => Some("index head does not match repository HEAD; run `pal index --incremental`"@),
        }
    }
}

/// Compare the indexed head with the repository's current HEAD.
pub fn staleness_caveat(indexed: &str, head: &str, missed: Option<u64>) -> (r: Option<String>)
    ensures
        text::opt_view(r) == caveat(indexed@, head@, missed),
{
    if text::eq_str(indexed, head) {
        return None;
    }
    match missed {
        Some(n) => {
            let count = text::nat_text(n);
            Some(text::cat3("index is ", count.as_str(), " commits behind HEAD; run `pal index --incremental`"))
        },
        None => Some("index head does not match repository HEAD; run `pal index --incremental`".to_owned()),
    }
}

/// The caveats of a response: its own, followed by that of a stale index.
pub open spec fn all_caveats(own: Seq<Seq<char>>, stale: Option<Seq<char>>) -> Seq<Seq<char>> {
    match stale {
        Some(c) => own.push(c),
        None => own,
    }
}

/// The caveats of a response: its own, followed by that of a stale index.
pub fn response_caveats(own: &Vec<String>, stale: &Option<String>) -> (r: Vec<String>)
    ensures
        text::views(r@) == all_caveats(text::views(own@), text::opt_view(*stale)),
{
    let mut out = text::copy_texts(own);
    match stale {
        Some(c) => {
            let c = c.clone();
            proof {
                text::lemma_views_push(out@, c);
            }
            out.push(c);
        },
        None => {},
    }
    out
}

/// Law: a stale index is never passed over in silence, and nothing that a
/// response says of itself is lost.
pub proof fn caveats_are_kept(own: Seq<Seq<char>>, indexed: Seq<char>, head: Seq<char>, missed: Option<u64>)
    ensures
        indexed != head ==> caveat(indexed, head, missed) is Some && all_caveats(
            own,
            caveat(indexed, head, missed),
        ).last() == caveat(indexed, head, missed)->0,
        own.is_prefix_of(all_caveats(own, caveat(indexed, head, missed))),
        indexed == head ==> all_caveats(own, caveat(indexed, head, missed)) == own,
{
}

/// The threshold that an index was made with, or the default.
pub open spec fn recorded_limit(value: Option<Seq<char>>, default: usize) -> int {
    match value {
        Some(v) => match text::unsigned_value(v) {
            Some(n) => if n <= usize::MAX {
                n
            } else {
                default as int
            },
            None => default as int,
        },
        None => default as int,
    }
}

/// The defaults with the threshold that an index was made with.
pub fn load_params(max_commit_files: &Option<String>) -> (r: Params)
    ensures
        r.max_commit_files == recorded_limit(text::opt_view(*max_commit_files), 50),
        r.min_cochange_n == 3,
        r.ghost_min_lifetime_days == 90,
        r.ghost_min_cochanges_since == 2,
        r.rename_percent == 50,
        r.import_only_percent == 90,
{
    let mut p = Params::default();
    match max_commit_files {
        Some(v) => match text::parse_u64(v.as_str()) {
            Some(n) => {
                if n <= usize::MAX as u64 {
                    p.max_commit_files = n as usize;
                }
            },
            None => {},
        },
        None => {},
    }
    p
}

// ---- pages ----

/// The first run of characters that are not white.
pub open spec fn word(s: Seq<char>) -> Seq<char>
    decreases s.len(),
{
    if s.len() == 0 || text::is_white(s[0]) {
        Seq::empty()
    } else {
        seq![s[0]] + word(s.skip(1))
    }
}

/// What stands behind the first word and white space.
pub open spec fn behind_word(s: Seq<char>) -> Seq<char> {
    text::trim_front(s.skip(word(s).len() as int), true, Seq::empty())
}

/// The second word of a request.
pub open spec fn second_word(s: Seq<char>) -> Seq<char> {
    word(behind_word(text::trim_front(s, true, Seq::empty())))
}

#[derive(Debug, Clone, Copy, PartialEq, Eq, Structural)]
pub enum Page {
    /// The picture.
    Picture,
    /// The data it is drawn from.
    Data,
    NotFound,
}

/// The page that a target names; a request without one asks for the picture.
pub open spec fn page_at(target: Seq<char>) -> Page {
    if target.len() == 0 || target == "/"@ || target == "/index.html"@ {
        Page::Picture
    } else if target == "/data.json"@ {
        Page::Data
    } else {
        Page::NotFound
    }
}

fn word_of(v: &Vec<char>, from: usize) -> (to: usize)
    requires
        from <= v@.len(),
    ensures
        from <= to <= v@.len(),
        to - from == word(v@.skip(from as int)).len(),
        v@.subrange(from as int, to as int) == word(v@.skip(from as int)),
{
    let ghost s = v@.skip(from as int);
    let mut to: usize = from;
    assert(v@.subrange(from as int, to as int) + word(v@.skip(to as int)) =~= word(s));
    while to < v.len() && !text::white(v[to])
        invariant
            from <= to <= v@.len(),
            s == v@.skip(from as int),
            v@.subrange(from as int, to as int) + word(v@.skip(to as int)) == word(s),
        decreases v@.len() - to,
    {
        proof {
            let t = v@.skip(to as int);
            assert(t.skip(1) =~= v@.skip(to + 1));
            assert(v@.subrange(from as int, to + 1) =~= v@.subrange(from as int, to as int) + seq![t[0]]);
            assert(v@.subrange(from as int, to + 1) + word(t.skip(1)) =~= v@.subrange(from as int, to as int) + (seq![
                t[0],
            ] + word(t.skip(1))));
        }
        to += 1;
    }
    assert(word(v@.skip(to as int)) =~= Seq::<char>::empty());
    assert(v@.subrange(from as int, to as int) + Seq::<char>::empty() =~= v@.subrange(from as int, to as int));
    to
}

/// The page that an HTTP request asks for.
pub fn requested_page(request: &str) -> (r: Page)
    ensures
        r == page_at(second_word(request@)),
{
    let a = text::trim_start(request);
    let v = text::to_chars(a.as_str());
    assert(v@.skip(0) =~= v@);
    let end = word_of(&v, 0);
    let rest = text::tail_text(a.as_str(), end);
    assert(rest@ =~= a@.skip(end as int));
    let b = text::trim_start(rest.as_str());
    let w = text::to_chars(b.as_str());
    assert(w@.skip(0) =~= w@);
    let stop = word_of(&w, 0);
    let target = text::head_text(b.as_str(), stop);
    assert(target@ =~= w@.subrange(0, stop as int));
    let t = target.as_str();
    if t.unicode_len() == 0 || text::eq_str(t, "/") || text::eq_str(t, "/index.html") {
        Page::Picture
    } else if text::eq_str(t, "/data.json") {
        Page::Data
    } else {
        Page::NotFound
    }
}

} // verus!
