//! What classification is for: which commits say something about coupling, and
//! which paths are nobody's own work.

use crate::classify;
use crate::lang::Lang;
use crate::lang;
use crate::params::Params;
use crate::text;
use vstd::prelude::*;

verus! {

/// The positions of the flags that are set.
pub open spec fn set_at(flags: Seq<bool>) -> Set<int> {
    Set::new(|i: int| 0 <= i < flags.len() && flags[i])
}

proof fn lemma_count(flags: Seq<bool>)
    ensures
        set_at(flags).finite(),
        set_at(flags).len() == classify::count_set(flags),
    decreases flags.len(),
{
    reveal(Seq::filter);
    if flags.len() == 0 {
        assert(set_at(flags) =~= Set::empty());
    } else {
        let d = flags.drop_last();
        let n = flags.len() - 1;
        lemma_count(d);
        if flags.last() {
            assert(set_at(flags) =~= set_at(d).insert(n));
        } else {
            assert(set_at(flags) =~= set_at(d));
        }
    }
}

/// Law: over more than five files, a subject that reads as mechanical makes a
/// commit mechanical by itself, and so does a share of import-only files above
/// nine tenths. Nothing else does. A commit of more files than the limit is too
/// large, a merge is a merge, and no other flag is ever set.
pub proof fn flags_have_their_reasons(
    params: Params,
    mechanical_subject: bool,
    n_files: usize,
    import_only: Seq<bool>,
    is_merge: bool,
    exclude_merges: bool,
)
    ensures
        ({
            let c = classify::class_of(params, mechanical_subject, n_files, import_only, is_merge, exclude_merges);
            let f = c.excluded_flags;
            &&& n_files > 5 && mechanical_subject ==> f & 2 != 0
            &&& n_files > 5 && 10 * set_at(import_only).len() > 9 * n_files ==> f & 2 != 0
            &&& n_files <= 5 ==> f & 2 == 0
            &&& !mechanical_subject && 10 * set_at(import_only).len() <= 9 * n_files ==> f & 2 == 0
            &&& f & 1 != 0 <==> n_files > params.max_commit_files
            &&& f & 8 != 0 <==> is_merge
            &&& 0 <= f <= 11 && f & 4 == 0
        }),
{
    lemma_count(import_only);
    let too_large = n_files > params.max_commit_files;
    let mechanical = classify::is_mechanical(mechanical_subject, n_files as int, import_only);
    classify::flags_read_back(too_large, mechanical, is_merge);
    assert(0i64 & 4i64 == 0 && 1i64 & 4i64 == 0 && 2i64 & 4i64 == 0 && 3i64 & 4i64 == 0 && 8i64 & 4i64 == 0 && 9i64 & 4i64
        == 0 && 10i64 & 4i64 == 0 && 11i64 & 4i64 == 0) by (bit_vector);
}

/// Law: a commit weighs one part in as many as it has files, unless it is too
/// large, mechanical, or a merge where merges are left out: then it weighs
/// nothing. A merge by itself weighs as any other.
pub proof fn weights_have_their_reasons(
    params: Params,
    mechanical_subject: bool,
    n_files: usize,
    import_only: Seq<bool>,
    is_merge: bool,
    exclude_merges: bool,
)
    ensures
        ({
            let c = classify::class_of(params, mechanical_subject, n_files, import_only, is_merge, exclude_merges);
            let f = c.excluded_flags;
            &&& f & 1 != 0 || f & 2 != 0 || (is_merge && exclude_merges) ==> c.weight_den == 0
            &&& f & 1 == 0 && f & 2 == 0 && !(is_merge && exclude_merges) ==> c.weight_den == n_files
        }),
{
    let too_large = n_files > params.max_commit_files;
    let mechanical = classify::is_mechanical(mechanical_subject, n_files as int, import_only);
    classify::flags_read_back(too_large, mechanical, is_merge);
}

/// A path lies below a directory of this name, at the top or deeper.
pub open spec fn below(path: Seq<char>, dir: Seq<char>) -> bool {
    text::has_prefix(path, dir) || text::has_infix(path, "/"@ + dir)
}

/// What stands behind the last slash of a path.
pub open spec fn is_named(path: Seq<char>, name: Seq<char>) -> bool {
    path == name || exists|dir: Seq<char>| path == #[trigger] (dir + "/"@) + name
}

proof fn lemma_named(path: Seq<char>, name: Seq<char>)
    requires
        !name.contains('/'),
    ensures
        is_named(path, name) ==> text::split(path, '/').last() == name,
{
    reveal_strlit("/");
    if path == name {
        text::lemma_split_plain(name, '/');
    } else if is_named(path, name) {
        let dir = choose|dir: Seq<char>| path == #[trigger] (dir + "/"@) + name;
        assert(dir + "/"@ =~= dir.push('/'));
        text::lemma_split_append(dir, '/', name);
    }
}

/// Law: what lies in a directory of dependencies or build results is nobody's
/// own work, wherever that directory stands.
pub proof fn vendored_directories_are_excluded(path: Seq<char>)
    ensures
        below(path, ".pal/"@) ==> classify::excluded_path(path),
        below(path, "node_modules/"@) ==> classify::excluded_path(path),
        below(path, "vendor/"@) ==> classify::excluded_path(path),
        below(path, "target/"@) ==> classify::excluded_path(path),
        below(path, "dist/"@) ==> classify::excluded_path(path),
        below(path, "build/"@) ==> classify::excluded_path(path),
        below(path, ".yarn/"@) ==> classify::excluded_path(path),
        below(path, "third_party/"@) ==> classify::excluded_path(path),
        below(path, "__pycache__/"@) ==> classify::excluded_path(path),
        below(path, ".venv/"@) ==> classify::excluded_path(path),
        below(path, "venv/"@) ==> classify::excluded_path(path),
{
    let ds = classify::excluded_dirs();
    if below(path, ".pal/"@) {
        assert(exists|i: int| 0 <= i < ds.len() && classify::lies_in(path, #[trigger] ds[i])) by {
            assert(classify::lies_in(path, ds[0]));
        }
    }
    if below(path, "node_modules/"@) {
        assert(exists|i: int| 0 <= i < ds.len() && classify::lies_in(path, #[trigger] ds[i])) by {
            assert(classify::lies_in(path, ds[1]));
        }
    }
    if below(path, "vendor/"@) {
        assert(exists|i: int| 0 <= i < ds.len() && classify::lies_in(path, #[trigger] ds[i])) by {
            assert(classify::lies_in(path, ds[2]));
        }
    }
    if below(path, "target/"@) {
        assert(exists|i: int| 0 <= i < ds.len() && classify::lies_in(path, #[trigger] ds[i])) by {
            assert(classify::lies_in(path, ds[3]));
        }
    }
    if below(path, "dist/"@) {
        assert(exists|i: int| 0 <= i < ds.len() && classify::lies_in(path, #[trigger] ds[i])) by {
            assert(classify::lies_in(path, ds[4]));
        }
    }
    if below(path, "build/"@) {
        assert(exists|i: int| 0 <= i < ds.len() && classify::lies_in(path, #[trigger] ds[i])) by {
            assert(classify::lies_in(path, ds[5]));
        }
    }
    if below(path, ".yarn/"@) {
        assert(exists|i: int| 0 <= i < ds.len() && classify::lies_in(path, #[trigger] ds[i])) by {
            assert(classify::lies_in(path, ds[6]));
        }
    }
    if below(path, "third_party/"@) {
        assert(exists|i: int| 0 <= i < ds.len() && classify::lies_in(path, #[trigger] ds[i])) by {
            assert(classify::lies_in(path, ds[7]));
        }
    }
    if below(path, "__pycache__/"@) {
        assert(exists|i: int| 0 <= i < ds.len() && classify::lies_in(path, #[trigger] ds[i])) by {
            assert(classify::lies_in(path, ds[8]));
        }
    }
    if below(path, ".venv/"@) {
        assert(exists|i: int| 0 <= i < ds.len() && classify::lies_in(path, #[trigger] ds[i])) by {
            assert(classify::lies_in(path, ds[9]));
        }
    }
    if below(path, "venv/"@) {
        assert(exists|i: int| 0 <= i < ds.len() && classify::lies_in(path, #[trigger] ds[i])) by {
            assert(classify::lies_in(path, ds[10]));
        }
    }
}

/// Law: a lock file is nobody's own work, in any directory.
pub proof fn lock_files_are_excluded(path: Seq<char>)
    ensures
        is_named(path, "package-lock.json"@) ==> classify::excluded_path(path),
        is_named(path, "yarn.lock"@) ==> classify::excluded_path(path),
        is_named(path, "pnpm-lock.yaml"@) ==> classify::excluded_path(path),
        is_named(path, "Cargo.lock"@) ==> classify::excluded_path(path),
        is_named(path, "poetry.lock"@) ==> classify::excluded_path(path),
        is_named(path, "uv.lock"@) ==> classify::excluded_path(path),
        is_named(path, "go.sum"@) ==> classify::excluded_path(path),
        is_named(path, "composer.lock"@) ==> classify::excluded_path(path),
        is_named(path, "Gemfile.lock"@) ==> classify::excluded_path(path),
{
    let ns = classify::excluded_names();
    reveal_strlit("package-lock.json");
    reveal_strlit("yarn.lock");
    reveal_strlit("pnpm-lock.yaml");
    reveal_strlit("Cargo.lock");
    reveal_strlit("poetry.lock");
    reveal_strlit("uv.lock");
    reveal_strlit("go.sum");
    reveal_strlit("composer.lock");
    reveal_strlit("Gemfile.lock");
    if is_named(path, "package-lock.json"@) {
        lemma_named(path, "package-lock.json"@);
        assert(ns[0] == "package-lock.json"@);
    }
    if is_named(path, "yarn.lock"@) {
        lemma_named(path, "yarn.lock"@);
        assert(ns[1] == "yarn.lock"@);
    }
    if is_named(path, "pnpm-lock.yaml"@) {
        lemma_named(path, "pnpm-lock.yaml"@);
        assert(ns[2] == "pnpm-lock.yaml"@);
    }
    if is_named(path, "Cargo.lock"@) {
        lemma_named(path, "Cargo.lock"@);
        assert(ns[3] == "Cargo.lock"@);
    }
    if is_named(path, "poetry.lock"@) {
        lemma_named(path, "poetry.lock"@);
        assert(ns[4] == "poetry.lock"@);
    }
    if is_named(path, "uv.lock"@) {
        lemma_named(path, "uv.lock"@);
        assert(ns[5] == "uv.lock"@);
    }
    if is_named(path, "go.sum"@) {
        lemma_named(path, "go.sum"@);
        assert(ns[6] == "go.sum"@);
    }
    if is_named(path, "composer.lock"@) {
        lemma_named(path, "composer.lock"@);
        assert(ns[7] == "composer.lock"@);
    }
    if is_named(path, "Gemfile.lock"@) {
        lemma_named(path, "Gemfile.lock"@);
        assert(ns[8] == "Gemfile.lock"@);
    }
}

/// Law: minified files, source maps, snapshots and locks are nobody's own work.
pub proof fn generated_files_are_excluded(path: Seq<char>)
    ensures
        text::has_suffix(path, ".min.js"@) ==> classify::excluded_path(path),
        text::has_suffix(path, ".min.css"@) ==> classify::excluded_path(path),
        text::has_suffix(path, ".map"@) ==> classify::excluded_path(path),
        text::has_suffix(path, ".snap"@) ==> classify::excluded_path(path),
        text::has_suffix(path, ".lock"@) ==> classify::excluded_path(path),
{
    let es = classify::excluded_endings();
    if text::has_suffix(path, ".min.js"@) {
        assert(text::has_suffix(path, es[0]));
    }
    if text::has_suffix(path, ".min.css"@) {
        assert(text::has_suffix(path, es[1]));
    }
    if text::has_suffix(path, ".map"@) {
        assert(text::has_suffix(path, es[2]));
    }
    if text::has_suffix(path, ".snap"@) {
        assert(text::has_suffix(path, es[3]));
    }
    if text::has_suffix(path, ".lock"@) {
        assert(text::has_suffix(path, es[4]));
    }
}

/// Law: nothing else is excluded. A path that lies in no such directory, has no
/// such name and no such ending is indexed.
pub proof fn own_work_is_indexed(path: Seq<char>)
    requires
        !below(path, ".pal/"@),
        !below(path, "node_modules/"@),
        !below(path, "vendor/"@),
        !below(path, "target/"@),
        !below(path, "dist/"@),
        !below(path, "build/"@),
        !below(path, ".yarn/"@),
        !below(path, "third_party/"@),
        !below(path, "__pycache__/"@),
        !below(path, ".venv/"@),
        !below(path, "venv/"@),
        text::split(path, '/').last() != "package-lock.json"@,
        text::split(path, '/').last() != "yarn.lock"@,
        text::split(path, '/').last() != "pnpm-lock.yaml"@,
        text::split(path, '/').last() != "Cargo.lock"@,
        text::split(path, '/').last() != "poetry.lock"@,
        text::split(path, '/').last() != "uv.lock"@,
        text::split(path, '/').last() != "go.sum"@,
        text::split(path, '/').last() != "composer.lock"@,
        text::split(path, '/').last() != "Gemfile.lock"@,
        !text::has_suffix(path, ".min.js"@),
        !text::has_suffix(path, ".min.css"@),
        !text::has_suffix(path, ".map"@),
        !text::has_suffix(path, ".snap"@),
        !text::has_suffix(path, ".lock"@),
    ensures
        !classify::excluded_path(path),
{
    let ds = classify::excluded_dirs();
    let ns = classify::excluded_names();
    let es = classify::excluded_endings();
    assert forall|i: int| 0 <= i < ds.len() implies !classify::lies_in(path, #[trigger] ds[i]) by {
        assert(i == 0 || i == 1 || i == 2 || i == 3 || i == 4 || i == 5 || i == 6 || i == 7 || i == 8 || i == 9 || i == 10);
    }
    assert forall|i: int| 0 <= i < ns.len() implies #[trigger] ns[i] != text::split(path, '/').last() by {
        assert(i == 0 || i == 1 || i == 2 || i == 3 || i == 4 || i == 5 || i == 6 || i == 7 || i == 8);
    }
    assert forall|i: int| 0 <= i < es.len() implies !text::has_suffix(path, #[trigger] es[i]) by {
        assert(i == 0 || i == 1 || i == 2 || i == 3 || i == 4);
    }
}

// ---- lines ----

/// Law: a change of import lines alone is import-only at any share, one
/// without an import line at no share above zero, and neutral lines change
/// nothing.
pub proof fn shares_are_of_telling_lines(lang: Option<Lang>, lines: Seq<Seq<char>>, line: Seq<char>, percent: int)
    requires
        0 <= percent <= 100,
    ensures
        classify::neutral_line(line) ==> classify::mostly_imports(lang, lines.push(line), percent)
            == classify::mostly_imports(lang, lines, percent),
        classify::telling_lines(lines) > 0 && (forall|i: int|
            0 <= i < lines.len() ==> classify::neutral_line(#[trigger] lines[i]) || lang::import_line(lang, lines[i]))
            ==> classify::mostly_imports(lang, lines, percent),
        percent > 0 && (forall|i: int|
            0 <= i < lines.len() ==> classify::neutral_line(#[trigger] lines[i]) || !lang::import_line(lang, lines[i]))
            ==> !classify::mostly_imports(lang, lines, percent),
{
    reveal(Seq::filter);
    let all = lines.push(line);
    assert(all.drop_last() =~= lines);
    lemma_all_imports(lang, lines);
    lemma_no_imports(lang, lines);
    let n = classify::telling_lines(lines);
    let m = classify::import_lines(lang, lines);
    if m == n {
        assert(100 * n >= percent * n) by (nonlinear_arith)
            requires
                percent <= 100,
                n >= 0,
        ;
    }
    if n > 0 && percent > 0 {
        assert(percent * n > 0) by (nonlinear_arith)
            requires
                percent > 0,
                n > 0,
        ;
    }
}

proof fn lemma_all_imports(lang: Option<Lang>, lines: Seq<Seq<char>>)
    ensures
        (forall|i: int|
            0 <= i < lines.len() ==> classify::neutral_line(#[trigger] lines[i]) || lang::import_line(lang, lines[i]))
            ==> classify::import_lines(lang, lines) == classify::telling_lines(lines),
    decreases lines.len(),
{
    reveal(Seq::filter);
    if lines.len() > 0 {
        let d = lines.drop_last();
        lemma_all_imports(lang, d);
        assert(lines[lines.len() - 1] == lines.last());
        assert forall|i: int| 0 <= i < d.len() implies d[i] == #[trigger] lines[i] by {}
    }
}

proof fn lemma_no_imports(lang: Option<Lang>, lines: Seq<Seq<char>>)
    ensures
        (forall|i: int|
            0 <= i < lines.len() ==> classify::neutral_line(#[trigger] lines[i]) || !lang::import_line(lang, lines[i]))
            ==> classify::import_lines(lang, lines) == 0,
    decreases lines.len(),
{
    reveal(Seq::filter);
    if lines.len() > 0 {
        let d = lines.drop_last();
        lemma_no_imports(lang, d);
        assert(lines[lines.len() - 1] == lines.last());
        assert forall|i: int| 0 <= i < d.len() implies d[i] == #[trigger] lines[i] by {}
    }
}

} // verus!
