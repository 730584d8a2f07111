//! Commit classification: size, mechanical churn, and vendored paths. This
//! determines signal quality. Every decision is recorded as flags so a
//! consumer can re-derive with different thresholds.

use crate::excluded::{MECHANICAL, MERGE, TOO_LARGE};
use crate::lang::{is_import_line, Lang};
use crate::lang;
use crate::params::Params;
use crate::pattern;
use crate::text;
use vstd::prelude::*;

pub mod laws;

verus! {

/// Directories whose contents are not indexed.
pub open spec fn excluded_dirs() -> Seq<Seq<char>> {
    seq![
        ".pal/"@,
        "node_modules/"@,
        "vendor/"@,
        "target/"@,
        "dist/"@,
        "build/"@,
        ".yarn/"@,
        "third_party/"@,
        "__pycache__/"@,
        ".venv/"@,
        "venv/"@,
    ]
}

/// File names that are not indexed.
pub open spec fn excluded_names() -> Seq<Seq<char>> {
    seq![
        "package-lock.json"@,
        "yarn.lock"@,
        "pnpm-lock.yaml"@,
        "Cargo.lock"@,
        "poetry.lock"@,
        "uv.lock"@,
        "go.sum"@,
        "composer.lock"@,
        "Gemfile.lock"@,
    ]
}

/// Endings of paths that are not indexed.
pub open spec fn excluded_endings() -> Seq<Seq<char>> {
    seq![".min.js"@, ".min.css"@, ".map"@, ".snap"@, ".lock"@]
}

/// A path that lies in a directory of the given name, at the top or deeper.
pub open spec fn lies_in(path: Seq<char>, dir: Seq<char>) -> bool {
    text::has_prefix(path, dir) || text::has_infix(path, "/"@ + dir)
}

/// A path excluded from indexing.
pub open spec fn excluded_path(path: Seq<char>) -> bool {
    ||| exists|i: int| 0 <= i < excluded_dirs().len() && lies_in(path, #[trigger] excluded_dirs()[i])
    ||| excluded_names().contains(text::split(path, '/').last())
    ||| exists|i: int|
        0 <= i < excluded_endings().len() && text::has_suffix(path, #[trigger] excluded_endings()[i])
}

fn strings(a: &[&str]) -> (r: Vec<String>)
    ensures
        text::views(r@) == a@.map_values(|x: &str| x@),
{
    let mut out: Vec<String> = Vec::new();
    let mut i: usize = 0;
    while i < a.len()
        invariant
            i <= a@.len(),
            out@.len() == i,
            forall|k: int| 0 <= k < i ==> (#[trigger] out@[k])@ == a@[k]@,
        decreases a@.len() - i,
    {
        out.push(a[i].to_owned());
        i += 1;
    }
    assert(text::views(out@) =~= a@.map_values(|x: &str| x@));
    out
}

/// Default path prefixes and file names excluded from indexing entirely.
pub fn is_excluded_path(path: &str) -> (r: bool)
    ensures
        r == excluded_path(path@),
{
    let dirs = strings(
        &[
            ".pal/",
            "node_modules/",
            "vendor/",
            "target/",
            "dist/",
            "build/",
            ".yarn/",
            "third_party/",
            "__pycache__/",
            ".venv/",
            "venv/",
        ],
    );
    assert(text::views(dirs@) =~= excluded_dirs());
    let mut i: usize = 0;
    while i < dirs.len()
        invariant
            i <= dirs@.len(),
            text::views(dirs@) == excluded_dirs(),
            forall|k: int| 0 <= k < i ==> !lies_in(path@, #[trigger] excluded_dirs()[k]),
        decreases dirs@.len() - i,
    {
        assert(text::views(dirs@)[i as int] == dirs@[i as int]@);
        let below = text::cat2("/", dirs[i].as_str());
        if text::starts_with(path, dirs[i].as_str()) || text::contains_text(path, below.as_str()) {
            assert(lies_in(path@, excluded_dirs()[i as int]));
            return true;
        }
        i += 1;
    }
    let parts = text::split_on(path, '/');
    let base = parts[parts.len() - 1].as_str();
    assert(text::views(parts@).last() == base@);
    let names = strings(
        &[
            "package-lock.json",
            "yarn.lock",
            "pnpm-lock.yaml",
            "Cargo.lock",
            "poetry.lock",
            "uv.lock",
            "go.sum",
            "composer.lock",
            "Gemfile.lock",
        ],
    );
    assert(text::views(names@) =~= excluded_names());
    let mut j: usize = 0;
    while j < names.len()
        invariant
            j <= names@.len(),
            text::views(names@) == excluded_names(),
            base@ == text::split(path@, '/').last(),
            forall|k: int| 0 <= k < j ==> #[trigger] excluded_names()[k] != base@,
        decreases names@.len() - j,
    {
        assert(text::views(names@)[j as int] == names@[j as int]@);
        if text::eq_str(names[j].as_str(), base) {
            assert(excluded_names()[j as int] == base@);
            return true;
        }
        j += 1;
    }
    let endings = strings(&[".min.js", ".min.css", ".map", ".snap", ".lock"]);
    assert(text::views(endings@) =~= excluded_endings());
    let mut m: usize = 0;
    while m < endings.len()
        invariant
            m <= endings@.len(),
            text::views(endings@) == excluded_endings(),
            forall|k: int| 0 <= k < m ==> !text::has_suffix(path@, #[trigger] excluded_endings()[k]),
        decreases endings@.len() - m,
    {
        assert(text::views(endings@)[m as int] == endings@[m as int]@);
        if text::ends_with(path, endings[m].as_str()) {
            assert(text::has_suffix(path@, excluded_endings()[m as int]));
            return true;
        }
        m += 1;
    }
    false
}

/// Lines that say nothing about what a change is: blank and brace-only ones.
pub open spec fn neutral_line(line: Seq<char>) -> bool {
    let t = text::trimmed(line);
    t.len() == 0 || t == "}"@ || t == "};"@ || t == ")"@ || t == ");"@ || t == "{"@
}

/// How many of the lines say something.
pub open spec fn telling_lines(lines: Seq<Seq<char>>) -> nat {
    lines.filter(|l: Seq<char>| !neutral_line(l)).len()
}

/// How many of them are import lines.
pub open spec fn import_lines(lang: Option<Lang>, lines: Seq<Seq<char>>) -> nat {
    lines.filter(|l: Seq<char>| !neutral_line(l) && lang::import_line(lang, l)).len()
}

/// The share of import lines among those that say something reaches
/// `percent` hundredths; a change without such lines has share 0.
pub open spec fn mostly_imports(lang: Option<Lang>, lines: Seq<Seq<char>>, percent: int) -> bool {
    let n = telling_lines(lines);
    if n == 0 {
        percent <= 0
    } else {
        100 * import_lines(lang, lines) >= percent * n
    }
}

fn is_neutral(line: &str) -> (r: bool)
    ensures
        r == neutral_line(line@),
{
    let t = text::trim(line);
    let s = t.as_str();
    s.unicode_len() == 0 || text::eq_str(s, "}") || text::eq_str(s, "};") || text::eq_str(s, ")") || text::eq_str(
        s,
        ");",
    ) || text::eq_str(s, "{")
}

/// The import lines of a change, and the lines that they are counted among.
/// Blank and brace-only lines are ignored so a moved import block does not
/// get diluted by its surrounding whitespace.
pub fn import_only_fraction(lang: Option<Lang>, changed_lines: &Vec<String>) -> (r: (usize, usize))
    ensures
        r.0 == import_lines(lang, text::views(changed_lines@)),
        r.1 == telling_lines(text::views(changed_lines@)),
        r.0 <= r.1 <= changed_lines@.len(),
{
    let ghost ls = text::views(changed_lines@);
    let ghost f = |l: Seq<char>| !neutral_line(l);
    let ghost g = |l: Seq<char>| !neutral_line(l) && lang::import_line(lang, l);
    let mut considered: usize = 0;
    let mut import: usize = 0;
    let mut i: usize = 0;
    let n = changed_lines.len();
    proof {
        reveal(Seq::filter);
        assert(ls.take(0) =~= Seq::<Seq<char>>::empty());
    }
    while i < n
        invariant
            i <= n,
            n == changed_lines@.len(),
            ls == text::views(changed_lines@),
            f == (|l: Seq<char>| !neutral_line(l)),
            g == (|l: Seq<char>| !neutral_line(l) && lang::import_line(lang, l)),
            considered == ls.take(i as int).filter(f).len(),
            import == ls.take(i as int).filter(g).len(),
            import <= considered <= i,
        decreases n - i,
    {
        proof {
            reveal(Seq::filter);
            assert(ls.take(i + 1).drop_last() =~= ls.take(i as int));
            assert(ls.take(i + 1).last() == changed_lines@[i as int]@);
        }
        let line = changed_lines[i].as_str();
        if !is_neutral(line) {
            considered += 1;
            if is_import_line(lang, line) {
                import += 1;
            }
        }
        i += 1;
    }
    assert(ls.take(n as int) =~= ls);
    (import, considered)
}

/// Is a touch import-only? It has changed lines, and at least `percent`
/// hundredths of those that say something are import lines.
pub fn is_import_only(lang: Option<Lang>, changed_lines: &Vec<String>, percent: u8) -> (r: bool)
    ensures
        r == (changed_lines@.len() > 0 && mostly_imports(lang, text::views(changed_lines@), percent as int)),
{
    if changed_lines.len() == 0 {
        return false;
    }
    let (import, considered) = import_only_fraction(lang, changed_lines);
    if considered == 0 {
        percent == 0
    } else {
        let (a, b, p) = (import as u128, considered as u128, percent as u128);
        assert(b * p <= b * 255) by (nonlinear_arith)
            requires
                p <= 255,
                0 <= b,
        ;
        assert(p * b == b * p) by (nonlinear_arith);
        100 * a >= p * b
    }
}

/// What classification says of a commit.
#[derive(Debug, Clone, Copy, PartialEq, Eq, Structural)]
pub struct CommitClass {
    pub excluded_flags: i64,
    /// The commit weighs one part in this many, and nothing where it is 0.
    pub weight_den: usize,
}

/// How many of the flags are set.
pub open spec fn count_set(flags: Seq<bool>) -> nat {
    flags.filter(|b: bool| b).len()
}

/// Mechanical churn: nearly every file import-only, or a subject that says
/// so, over more than five files.
pub open spec fn is_mechanical(mechanical_subject: bool, n_files: int, import_only: Seq<bool>) -> bool {
    n_files > 5 && (10 * count_set(import_only) > 9 * n_files || mechanical_subject)
}

/// The flags of a commit.
pub open spec fn commit_flags(too_large: bool, mechanical: bool, merge: bool) -> int {
    (if too_large { TOO_LARGE as int } else { 0 }) + (if mechanical { MECHANICAL as int } else { 0 }) + (if merge {
        MERGE as int
    } else {
        0
    })
}

/// What classification says of a commit, given whether its subject reads as
/// mechanical.
pub open spec fn class_of(
    params: Params,
    mechanical_subject: bool,
    n_files: usize,
    import_only: Seq<bool>,
    is_merge: bool,
    exclude_merges: bool,
) -> CommitClass {
    let too_large = n_files > params.max_commit_files;
    let mechanical = is_mechanical(mechanical_subject, n_files as int, import_only);
    CommitClass {
        excluded_flags: commit_flags(too_large, mechanical, is_merge) as i64,
        weight_den: if too_large || mechanical || (exclude_merges && is_merge) { 0 } else { n_files },
    }
}

/// Law: a commit that touches too many files weighs nothing, and so does a
/// mechanical one, whatever else holds of it.
pub proof fn excluded_commits_weigh_nothing(
    params: Params,
    mechanical_subject: bool,
    n_files: usize,
    import_only: Seq<bool>,
    is_merge: bool,
    exclude_merges: bool,
)
    ensures
        ({
            let c = class_of(params, mechanical_subject, n_files, import_only, is_merge, exclude_merges);
            &&& c.excluded_flags & TOO_LARGE != 0 ==> c.weight_den == 0
            &&& c.excluded_flags & MECHANICAL != 0 ==> c.weight_den == 0
        }),
{
    let too_large = n_files > params.max_commit_files;
    let mechanical = is_mechanical(mechanical_subject, n_files as int, import_only);
    flags_read_back(too_large, mechanical, is_merge);
}

/// Law: each flag is read back out of the number that a commit's flags make.
pub proof fn flags_read_back(too_large: bool, mechanical: bool, merge: bool)
    ensures
        ({
            let f = commit_flags(too_large, mechanical, merge) as i64;
            &&& (f & TOO_LARGE != 0) == too_large
            &&& (f & MECHANICAL != 0) == mechanical
            &&& (f & MERGE != 0) == merge
        }),
{
    assert(0i64 & 1i64 == 0 && 0i64 & 2i64 == 0 && 0i64 & 8i64 == 0) by (bit_vector);
    assert(1i64 & 1i64 != 0 && 1i64 & 2i64 == 0 && 1i64 & 8i64 == 0) by (bit_vector);
    assert(2i64 & 1i64 == 0 && 2i64 & 2i64 != 0 && 2i64 & 8i64 == 0) by (bit_vector);
    assert(3i64 & 1i64 != 0 && 3i64 & 2i64 != 0 && 3i64 & 8i64 == 0) by (bit_vector);
    assert(8i64 & 1i64 == 0 && 8i64 & 2i64 == 0 && 8i64 & 8i64 != 0) by (bit_vector);
    assert(9i64 & 1i64 != 0 && 9i64 & 2i64 == 0 && 9i64 & 8i64 != 0) by (bit_vector);
    assert(10i64 & 1i64 == 0 && 10i64 & 2i64 != 0 && 10i64 & 8i64 != 0) by (bit_vector);
    assert(11i64 & 1i64 != 0 && 11i64 & 2i64 != 0 && 11i64 & 8i64 != 0) by (bit_vector);
}

/// Subjects that announce mechanical churn.
pub const MECHANICAL_SUBJECT: &'static str =
    "(?i)^(chore|style|fmt|lint)\\b|prettier|rustfmt|gofmt|reformat|^bump\\b|rename.*import|import.*reorder|alias migration";

/// Classify a commit whose subject has been judged already.
pub fn classify_judged(
    params: &Params,
    mechanical_subject: bool,
    n_files: usize,
    import_only: &Vec<bool>,
    is_merge: bool,
    exclude_merges: bool,
) -> (r: CommitClass)
    ensures
        r == class_of(*params, mechanical_subject, n_files, import_only@, is_merge, exclude_merges),
{
    let mut count: usize = 0;
    let mut i: usize = 0;
    let n = import_only.len();
    let ghost f = |b: bool| b;
    proof {
        reveal(Seq::filter);
        assert(import_only@.take(0) =~= Seq::<bool>::empty());
    }
    while i < n
        invariant
            i <= n,
            n == import_only@.len(),
            f == (|b: bool| b),
            count == import_only@.take(i as int).filter(f).len(),
            count <= i,
        decreases n - i,
    {
        proof {
            reveal(Seq::filter);
            assert(import_only@.take(i + 1).drop_last() =~= import_only@.take(i as int));
        }
        if import_only[i] {
            count += 1;
        }
        i += 1;
    }
    assert(import_only@.take(n as int) =~= import_only@);
    let too_large = n_files > params.max_commit_files;
    let mechanical = n_files > 5 && (10 * (count as u128) > 9 * (n_files as u128) || mechanical_subject);
    let mut flags: i64 = 0;
    if too_large {
        flags = flags + TOO_LARGE;
    }
    if mechanical {
        flags = flags + MECHANICAL;
    }
    // In a first-parent walk the merge commit carries the squashed content
    // of the branch, so MERGE alone does not zero the weight; the flag is
    // recorded either way.
    if is_merge {
        flags = flags + MERGE;
    }
    let hard_excluded = too_large || mechanical || (exclude_merges && is_merge);
    CommitClass {
        excluded_flags: flags,
        weight_den: if hard_excluded {
            0
        } else {
            n_files
        },
    }
}

/// Classify a commit given its per-file import_only flags and metadata.
/// `import_only` holds one bool per surviving (non-vendored) file change.
pub fn classify_commit(
    params: &Params,
    subject: &str,
    n_files: usize,
    import_only: &Vec<bool>,
    is_merge: bool,
    exclude_merges: bool,
) -> (r: CommitClass)
    ensures
        r == class_of(
            *params,
            pattern::regex_matches(MECHANICAL_SUBJECT@, subject@),
            n_files,
            import_only@,
            is_merge,
            exclude_merges,
        ),
{
    let mechanical_subject = pattern::is_match(MECHANICAL_SUBJECT, subject);
    classify_judged(params, mechanical_subject, n_files, import_only, is_merge, exclude_merges)
}

} // verus!
