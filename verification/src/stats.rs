//! Index health: how much there is of everything, and how much was left out.

use crate::excluded::{MECHANICAL, TOO_LARGE};
use crate::query::{Ctx, Snapshot, SCHEMA_VERSION};
use crate::query;
use crate::rows::{CommitRow, FileRow, IntervalRow, PathIntervalRow};
use crate::text;
use std::collections::HashSet;
use vstd::prelude::*;

pub mod laws;

verus! {

broadcast use vstd::std_specs::hash::group_hash_axioms;

/// Path spans below this confidence, in hundredths, are counted as doubtful.
pub const LOW_CONFIDENCE: u8 = 80;

pub struct StatsCommits {
    pub total: usize,
    pub excluded_too_large: usize,
    pub excluded_mechanical: usize,
    pub merges: usize,
    /// Commits that do not count for co-change.
    pub weightless: usize,
}

pub struct StatsFiles {
    pub total: usize,
    pub alive: usize,
    pub dead: usize,
    pub docs: usize,
}

pub struct StatsEdges {
    pub total: usize,
    pub live: usize,
    pub ghosts: usize,
}

pub struct StatsImports {
    pub total: i64,
    pub resolved: i64,
}

pub struct StatsRenames {
    pub total: usize,
    pub low_confidence: usize,
}

pub struct StatsOutput {
    pub schema: i64,
    pub head: String,
    pub indexed_at: Option<String>,
    pub commits: StatsCommits,
    pub files: StatsFiles,
    pub edges: StatsEdges,
    pub cochange_pairs: usize,
    pub imports: StatsImports,
    pub renames: StatsRenames,
}

/// How many commits have a flag.
pub open spec fn flagged(commits: Seq<CommitRow>, flag: i64) -> nat {
    commits.filter(|c: CommitRow| c.excluded & flag != 0).len()
}

pub open spec fn merges(commits: Seq<CommitRow>) -> nat {
    commits.filter(|c: CommitRow| c.is_merge).len()
}

pub open spec fn weightless(commits: Seq<CommitRow>) -> nat {
    commits.filter(|c: CommitRow| !c.weighted).len()
}

pub open spec fn alive(files: Seq<FileRow>) -> nat {
    files.filter(|f: FileRow| f.current_path is Some).len()
}

pub open spec fn docs(files: Seq<FileRow>) -> nat {
    files.filter(|f: FileRow| f.is_doc).len()
}

/// The edges with an open interval, by id.
pub open spec fn live_edges(intervals: Seq<IntervalRow>) -> Set<i64>
    decreases intervals.len(),
{
    if intervals.len() == 0 {
        Set::empty()
    } else {
        let b = live_edges(intervals.drop_last());
        if intervals.last().died is None {
            b.insert(intervals.last().edge_id)
        } else {
            b
        }
    }
}

/// The path spans that began within the index.
pub open spec fn begun(paths: Seq<PathIntervalRow>) -> nat {
    paths.filter(|p: PathIntervalRow| p.from_commit.0 != 0).len()
}

pub open spec fn doubtful(paths: Seq<PathIntervalRow>) -> nat {
    paths.filter(|p: PathIntervalRow| p.confidence < LOW_CONFIDENCE).len()
}

/// Of the path spans that began within the index, those that are no birth.
pub open spec fn renames(paths: Seq<PathIntervalRow>, files: nat) -> int {
    if begun(paths) >= files {
        begun(paths) - files
    } else {
        0
    }
}

/// A number kept as text; 0 where there is none.
pub open spec fn meta_signed(value: Option<Seq<char>>) -> int {
    match value {
        Some(v) => match text::signed_value(v) {
            Some(n) => n,
            None => 0,
        },
        None => 0,
    }
}

fn meta_i64(value: &Option<String>) -> (r: i64)
    ensures
        r == meta_signed(text::opt_view(*value)),
{
    match value {
        Some(v) => match text::parse_i64(v.as_str()) {
            Some(n) => n,
            None => 0,
        },
        None => 0,
    }
}

fn count_commits(commits: &Vec<CommitRow>) -> (r: StatsCommits)
    ensures
        r.total == commits@.len(),
        r.excluded_too_large == flagged(commits@, TOO_LARGE),
        r.excluded_mechanical == flagged(commits@, MECHANICAL),
        r.merges == merges(commits@),
        r.weightless == weightless(commits@),
{
    let mut r = StatsCommits {
        total: commits.len(),
        excluded_too_large: 0,
        excluded_mechanical: 0,
        merges: 0,
        weightless: 0,
    };
    let mut i: usize = 0;
    proof {
        reveal(Seq::filter);
        assert(commits@.take(0) =~= Seq::<CommitRow>::empty());
    }
    while i < commits.len()
        invariant
            i <= commits@.len(),
            r.total == commits@.len(),
            r.excluded_too_large == flagged(commits@.take(i as int), TOO_LARGE),
            r.excluded_mechanical == flagged(commits@.take(i as int), MECHANICAL),
            r.merges == merges(commits@.take(i as int)),
            r.weightless == weightless(commits@.take(i as int)),
            r.excluded_too_large <= i,
            r.excluded_mechanical <= i,
            r.merges <= i,
            r.weightless <= i,
        decreases commits@.len() - i,
    {
        proof {
            reveal(Seq::filter);
            assert(commits@.take(i + 1).drop_last() =~= commits@.take(i as int));
        }
        let c = &commits[i];
        if c.excluded & TOO_LARGE != 0 {
            r.excluded_too_large = r.excluded_too_large + 1;
        }
        if c.excluded & MECHANICAL != 0 {
            r.excluded_mechanical = r.excluded_mechanical + 1;
        }
        if c.is_merge {
            r.merges = r.merges + 1;
        }
        if !c.weighted {
            r.weightless = r.weightless + 1;
        }
        i += 1;
    }
    assert(commits@.take(i as int) =~= commits@);
    r
}

/// Count files.
pub fn count_files(files: &Vec<FileRow>) -> (r: StatsFiles)
    ensures
        r.total == files@.len(),
        r.alive == alive(files@),
        r.dead == files@.len() - alive(files@),
        r.docs == docs(files@),
{
    let mut living: usize = 0;
    let mut doc: usize = 0;
    let mut i: usize = 0;
    proof {
        reveal(Seq::filter);
        assert(files@.take(0) =~= Seq::<FileRow>::empty());
    }
    while i < files.len()
        invariant
            i <= files@.len(),
            living == alive(files@.take(i as int)),
            doc == docs(files@.take(i as int)),
            living <= i,
            doc <= i,
        decreases files@.len() - i,
    {
        proof {
            reveal(Seq::filter);
            assert(files@.take(i + 1).drop_last() =~= files@.take(i as int));
        }
        if files[i].current_path.is_some() {
            living += 1;
        }
        if files[i].is_doc {
            doc += 1;
        }
        i += 1;
    }
    assert(files@.take(i as int) =~= files@);
    StatsFiles { total: files.len(), alive: living, dead: files.len() - living, docs: doc }
}

fn count_live(intervals: &Vec<IntervalRow>) -> (r: usize)
    ensures
        r == live_edges(intervals@).len(),
{
    let mut open: HashSet<i64> = HashSet::new();
    let mut i: usize = 0;
    assert(intervals@.take(0) =~= Seq::<IntervalRow>::empty());
    assert(open@ =~= live_edges(intervals@.take(0)));
    while i < intervals.len()
        invariant
            i <= intervals@.len(),
            open@ == live_edges(intervals@.take(i as int)),
        decreases intervals@.len() - i,
    {
        assert(intervals@.take(i + 1).drop_last() =~= intervals@.take(i as int));
        if intervals[i].died.is_none() {
            open.insert(intervals[i].edge_id);
        }
        i += 1;
    }
    assert(intervals@.take(i as int) =~= intervals@);
    open.len()
}

fn count_renames(paths: &Vec<PathIntervalRow>, files: usize) -> (r: StatsRenames)
    ensures
        r.total == renames(paths@, files as nat),
        r.low_confidence == doubtful(paths@),
{
    let mut first: usize = 0;
    let mut low: usize = 0;
    let mut i: usize = 0;
    proof {
        reveal(Seq::filter);
        assert(paths@.take(0) =~= Seq::<PathIntervalRow>::empty());
    }
    while i < paths.len()
        invariant
            i <= paths@.len(),
            first == begun(paths@.take(i as int)),
            low == doubtful(paths@.take(i as int)),
            first <= i,
            low <= i,
        decreases paths@.len() - i,
    {
        proof {
            reveal(Seq::filter);
            assert(paths@.take(i + 1).drop_last() =~= paths@.take(i as int));
        }
        if paths[i].from_commit.0 != 0 {
            first += 1;
        }
        if paths[i].confidence < LOW_CONFIDENCE {
            low += 1;
        }
        i += 1;
    }
    assert(paths@.take(i as int) =~= paths@);
    StatsRenames {
        total: if first >= files {
            first - files
        } else {
            0
        },
        low_confidence: low,
    }
}

/// What is recorded beside the tables of an index.
pub struct StatsMeta {
    pub indexed_at: Option<String>,
    pub imports_total: Option<String>,
    pub imports_resolved: Option<String>,
}

/// Count an index.
pub fn stats(snap: &Snapshot, ctx: &Ctx, meta: &StatsMeta) -> (r: StatsOutput)
    ensures
        r.schema == SCHEMA_VERSION,
        r.head@ == query::or_empty(snap.head),
        text::opt_view(r.indexed_at) == text::opt_view(meta.indexed_at),
        r.commits.total == ctx.commits@.len(),
        r.commits.excluded_too_large == flagged(ctx.commits@, TOO_LARGE),
        r.commits.excluded_mechanical == flagged(ctx.commits@, MECHANICAL),
        r.commits.merges == merges(ctx.commits@),
        r.commits.weightless == weightless(ctx.commits@),
        r.files.total == snap.files.files().len(),
        r.files.alive == alive(snap.files.files()),
        r.files.dead == snap.files.files().len() - alive(snap.files.files()),
        r.files.docs == docs(snap.files.files()),
        r.edges.total == snap.edges@.len(),
        r.edges.live == live_edges(snap.intervals@).len(),
        r.edges.ghosts == snap.ghosts@.len(),
        r.cochange_pairs == snap.cochange@.len(),
        r.imports.total == meta_signed(text::opt_view(meta.imports_total)),
        r.imports.resolved == meta_signed(text::opt_view(meta.imports_resolved)),
        r.renames.total == renames(snap.files.paths(), snap.files.files().len()),
        r.renames.low_confidence == doubtful(snap.files.paths()),
{
    let files = snap.files.rows();
    let indexed_at = match &meta.indexed_at {
        Some(t) => Some(t.clone()),
        None => None,
    };
    StatsOutput {
        schema: SCHEMA_VERSION,
        head: query::text_or_empty(&snap.head),
        indexed_at,
        commits: count_commits(&ctx.commits),
        files: count_files(files),
        edges: StatsEdges {
            total: snap.edges.len(),
            live: count_live(&snap.intervals),
            ghosts: snap.ghosts.len(),
        },
        cochange_pairs: snap.cochange.len(),
        imports: StatsImports { total: meta_i64(&meta.imports_total), resolved: meta_i64(&meta.imports_resolved) },
        renames: count_renames(snap.files.path_rows(), files.len()),
    }
}

} // verus!
