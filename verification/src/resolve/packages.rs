//! Where the modules and packages of Python, Rust, Go and Ruby are looked for,
//! over all specifiers and all sets of live files.

use crate::model::{FileId, Resolution};
use crate::resolve;
use crate::resolve::laws;
use crate::text;
use crate::vcs;
use vstd::prelude::*;

verus! {

// ---- Python ----

/// Law: a module is a file with the ending .py or, without one, a package with
/// an __init__.py.
pub proof fn modules_are_files_or_packages(live: Map<Seq<char>, FileId>, path: Seq<char>, p: Seq<char>)
    requires
        p == resolve::normalized(path),
    ensures
        p.len() > 0 && live.contains_key(p + ".py"@) ==> resolve::py_at(live, path) == Some(live[p + ".py"@]),
        p.len() > 0 && !live.contains_key(p + ".py"@) && live.contains_key(p + "/"@ + "__init__.py"@)
            ==> resolve::py_at(live, path) == Some(live[p + "/"@ + "__init__.py"@]),
        p.len() == 0 || (!live.contains_key(p + ".py"@) && !live.contains_key(p + "/"@ + "__init__.py"@))
            ==> resolve::py_at(live, path) is None,
{
    let c = seq![p + ".py"@, resolve::below(p, "__init__.py"@)];
    if live.contains_key(c[0]) {
        laws::lemma_first_at(live, c, 0);
    } else if live.contains_key(c[1]) {
        laws::lemma_first_at(live, c, 1);
    } else {
        laws::lemma_first_at(live, c, 2);
    }
}

/// Law: one dot stands for the directory of the importing file, and each
/// further dot for the directory above.
pub proof fn dots_go_up(live: Map<Seq<char>, FileId>, src_path: Seq<char>, above: Seq<char>, rest: Seq<char>)
    requires
        vcs::dir_part(above) == vcs::dir_part(vcs::dir_part(src_path)),
    ensures
        live.contains_key(resolve::below(vcs::dir_part(src_path), "__init__.py"@)) ==> resolve::py_target(
            live,
            src_path,
            "."@,
        ) == Some((live[resolve::below(vcs::dir_part(src_path), "__init__.py"@)], Resolution::PathExact)),
        !live.contains_key(resolve::below(vcs::dir_part(src_path), "__init__.py"@)) ==> resolve::py_target(
            live,
            src_path,
            "."@,
        ) is None,
        rest.len() > 0 && rest[0] != '.' ==> resolve::py_target(live, src_path, "."@ + rest) == (
        match resolve::py_at(live, resolve::below(vcs::dir_part(src_path), text::swap_char(rest, '.', '/'))) {
            Some(t) => Some((t, Resolution::PathExact)),
            None => None,
        }),
        rest.len() > 0 && rest[0] == '.' ==> resolve::py_target(live, src_path, "."@ + rest) == resolve::py_target(
            live,
            above,
            rest,
        ),
{
    reveal_strlit(".");
    let dir = vcs::dir_part(src_path);
    let c = seq![resolve::below(dir, "__init__.py"@)];
    assert("."@.skip(1) =~= Seq::<char>::empty());
    assert(Seq::<char>::empty().skip(0) =~= Seq::<char>::empty());
    if live.contains_key(c[0]) {
        laws::lemma_first_at(live, c, 0);
    } else {
        laws::lemma_first_at(live, c, 1);
    }
    assert(("."@ + rest).skip(1) =~= rest);
    assert(rest.skip(0) =~= rest);
    if rest.len() > 0 && rest[0] == '.' {
        let s = rest.skip(1);
        assert(rest.drop_first() =~= s);
        let d = resolve::run_of(s, '.');
        assert(resolve::run_of(rest, '.') == d + 1);
        lemma_run_fits(s);
        assert(rest.skip(d as int + 1) =~= s.skip(d as int));
        assert(resolve::up(dir, d + 1) == resolve::up(vcs::dir_part(dir), d));
    }
}

proof fn lemma_run_fits(s: Seq<char>)
    ensures
        resolve::run_of(s, '.') <= s.len(),
    decreases s.len(),
{
    if s.len() > 0 && s[0] == '.' {
        lemma_run_fits(s.drop_first());
    }
}

/// Law: the dots of a module name stand for slashes.
pub proof fn dots_are_slashes(s: Seq<char>, i: int)
    requires
        0 <= i < s.len(),
    ensures
        text::swap_char(s, '.', '/').len() == s.len(),
        s[i] == '.' ==> text::swap_char(s, '.', '/')[i] == '/',
        s[i] != '.' ==> text::swap_char(s, '.', '/')[i] == s[i],
{
}

/// Law: an absolute name is looked for from the root of the repository, from
/// src/, and from above the topmost package of the importing file, in this
/// order.
pub proof fn names_are_looked_for_in_order(live: Map<Seq<char>, FileId>, src_path: Seq<char>, spec: Seq<char>, path: Seq<char>)
    requires
        spec.len() > 0,
        spec[0] != '.',
        path == text::swap_char(spec, '.', '/'),
    ensures
        resolve::py_at(live, path) matches Some(t) ==> resolve::py_target(live, src_path, spec) == Some(
            (t, Resolution::PathExact),
        ),
        resolve::py_at(live, path) is None ==> (resolve::py_at(live, "src/"@ + path) matches Some(t)
            ==> resolve::py_target(live, src_path, spec) == Some((t, Resolution::PathExact))),
        resolve::py_at(live, path) is None && resolve::py_at(live, "src/"@ + path) is None ==> (resolve::package_root(
            live,
            vcs::dir_part(src_path),
            None,
        ) matches Some(root) ==> resolve::py_target(live, src_path, spec) == (match resolve::py_at(
            live,
            resolve::below(root, path),
        ) {
            Some(t) => Some((t, Resolution::Heuristic)),
            None => None,
        })),
        resolve::py_at(live, path) is None && resolve::py_at(live, "src/"@ + path) is None && resolve::package_root(
            live,
            vcs::dir_part(src_path),
            None,
        ) is None ==> resolve::py_target(live, src_path, spec) is None,
{
}

/// Law: a directory with an __init__.py is a package. Its root is that of the
/// package around it, or the directory above where there is none.
pub proof fn roots_stand_above_packages(live: Map<Seq<char>, FileId>, dir: Seq<char>, above: Seq<char>)
    requires
        above == vcs::dir_part(dir),
    ensures
        dir.len() == 0 || !live.contains_key(dir + "/"@ + "__init__.py"@) ==> resolve::package_root(live, dir, None)
            is None,
        dir.len() > 0 && live.contains_key(dir + "/"@ + "__init__.py"@) && above.len() > 0 && live.contains_key(
            above + "/"@ + "__init__.py"@,
        ) ==> resolve::package_root(live, dir, None) == resolve::package_root(live, above, None),
        dir.len() > 0 && live.contains_key(dir + "/"@ + "__init__.py"@) && (above.len() == 0 || !live.contains_key(
            above + "/"@ + "__init__.py"@,
        )) ==> resolve::package_root(live, dir, None) == Some(above),
{
    reveal_with_fuel(resolve::package_root, 3);
}

// ---- Rust ----

/// Law: a declared module is a file beside the declaring one, or a directory
/// with a mod.rs there, or a file in the directory named like the declaring
/// one.
pub proof fn declared_modules_are_found(
    live: Map<Seq<char>, FileId>,
    crates: Map<Seq<char>, Seq<char>>,
    src_path: Seq<char>,
    name: Seq<char>,
    dir: Seq<char>,
    a: Seq<char>,
    b: Seq<char>,
    c: Seq<char>,
)
    requires
        dir == vcs::dir_part(src_path),
        a == resolve::normalized(resolve::below(dir, name + ".rs"@)),
        b == resolve::normalized(resolve::below(dir, name + "/mod.rs"@)),
        c == resolve::normalized(resolve::below(dir, vcs::stem_part(src_path) + "/"@ + name + ".rs"@)),
    ensures
        live.contains_key(a) ==> resolve::rust_target(live, crates, src_path, "mod:"@ + name) == Some(
            (live[a], Resolution::PathExact),
        ),
        !live.contains_key(a) && live.contains_key(b) ==> resolve::rust_target(live, crates, src_path, "mod:"@ + name)
            == Some((live[b], Resolution::PathExact)),
        !live.contains_key(a) && !live.contains_key(b) && live.contains_key(c) ==> resolve::rust_target(
            live,
            crates,
            src_path,
            "mod:"@ + name,
        ) == Some((live[c], Resolution::PathExact)),
        !live.contains_key(a) && !live.contains_key(b) && !live.contains_key(c) ==> resolve::rust_target(
            live,
            crates,
            src_path,
            "mod:"@ + name,
        ) is None,
{
    reveal_strlit("mod:");
    let spec = "mod:"@ + name;
    assert(spec.take(4) =~= "mod:"@);
    assert(spec.skip(4) =~= name);
    let cands = resolve::mod_candidates(src_path, name);
    if live.contains_key(cands[0]) {
        laws::lemma_first_at(live, cands, 0);
    } else if live.contains_key(cands[1]) {
        laws::lemma_first_at(live, cands, 1);
    } else if live.contains_key(cands[2]) {
        laws::lemma_first_at(live, cands, 2);
    } else {
        laws::lemma_first_at(live, cands, 3);
    }
}

/// Law: the stem of a file is its name up to the first dot.
pub proof fn stems_end_at_dots(dir: Seq<char>, stem: Seq<char>, ext: Seq<char>)
    requires
        !stem.contains('/'),
        !stem.contains('.'),
        !ext.contains('/'),
    ensures
        vcs::stem_part(dir + "/"@ + (stem + "."@ + ext)) == stem,
        vcs::stem_part(stem + "."@ + ext) == stem,
        vcs::stem_part(stem) == stem,
{
    reveal_strlit(".");
    let name = stem + "."@ + ext;
    assert(!name.contains('/')) by {
        if name.contains('/') {
            let i = name.index_of('/');
            assert(name[i] == '/');
            if i < stem.len() {
                assert(stem[i] == '/');
            } else {
                assert(ext[i - stem.len() - 1] == '/');
            }
        }
    }
    laws::names_stand_in_directories(dir, name);
    laws::names_stand_in_directories(dir, stem);
    text::lemma_first_index(name, '.');
    text::lemma_first_index(stem, '.');
    assert(name[stem.len() as int] == '.');
    match text::first_index(name, '.') {
        Some(i) => {
            if i < stem.len() {
                assert(stem[i] == '.');
                assert(stem.contains('.'));
            }
            assert(name.take(stem.len() as int) =~= stem);
        },
        None => {},
    }
    if text::first_index(stem, '.') is Some {
        let i = text::first_index(stem, '.')->0;
        assert(stem.contains(stem[i]));
    }
}

/// Law: a path is cut at each "::", and empty segments are passed over.
pub proof fn paths_are_cut_at_colons(name: Seq<char>, rest: Seq<char>)
    requires
        !name.contains(':'),
    ensures
        name.len() > 0 ==> resolve::rust_segments(name) == seq![name],
        name.len() == 0 ==> resolve::rust_segments(name) == Seq::<Seq<char>>::empty(),
        name.len() > 0 ==> resolve::rust_segments(name + "::"@ + rest) == seq![name] + resolve::rust_segments(rest),
        name.len() == 0 ==> resolve::rust_segments(name + "::"@ + rest) == resolve::rust_segments(rest),
{
    reveal_strlit("::");
    let s = name + "::"@ + rest;
    let f = |x: Seq<char>| x.len() > 0;
    text::lemma_find_from(s, "::"@, 0);
    assert(s.subrange(name.len() as int, name.len() as int + 2) =~= "::"@);
    assert(text::occurs_at(s, "::"@, name.len() as int));
    let i = text::find_from(s, "::"@, 0)->0;
    if i < name.len() {
        assert(s.subrange(i, i + 2)[0] == s[i]);
        assert(name[i] == ':');
        assert(name.contains(':'));
    }
    assert(s.take(i) =~= name);
    assert(s.skip(i + 2) =~= rest);
    assert(text::split_text(s, "::"@) == seq![name] + text::split_text(rest, "::"@));
    text::lemma_find_from(name, "::"@, 0);
    if text::find_from(name, "::"@, 0) is Some {
        let k = text::find_from(name, "::"@, 0)->0;
        assert(name.subrange(k, k + 2)[0] == name[k]);
        assert(name.contains(name[k]));
    }
    assert(text::split_text(name, "::"@) == seq![name]);
    Seq::filter_distributes_over_add(seq![name], text::split_text(rest, "::"@), f);
    assert(seq![name].filter(f) =~= (if name.len() > 0 { seq![name] } else { Seq::empty() })) by {
        reveal_with_fuel(Seq::filter, 2);
        assert(seq![name].drop_last() =~= Seq::<Seq<char>>::empty());
    }
}

/// Law: the root of a crate is the nearest directory, from the importing file
/// up, with a lib.rs or a main.rs.
pub proof fn crate_roots_are_nearest(live: Map<Seq<char>, FileId>, dir: Seq<char>)
    ensures
        live.contains_key(resolve::below(dir, "lib.rs"@)) || live.contains_key(resolve::below(dir, "main.rs"@))
            ==> resolve::crate_dir(live, dir) == Some(dir),
        !live.contains_key(resolve::below(dir, "lib.rs"@)) && !live.contains_key(resolve::below(dir, "main.rs"@))
            && dir.len() > 0 ==> resolve::crate_dir(live, dir) == resolve::crate_dir(live, vcs::dir_part(dir)),
        !live.contains_key(resolve::below(dir, "lib.rs"@)) && !live.contains_key(resolve::below(dir, "main.rs"@))
            && dir.len() == 0 ==> resolve::crate_dir(live, dir) is None,
{
}

/// Law: a path starts at the root of its crate, in the directory of its file,
/// one directory further up for each `super`, or at the root of the crate of
/// the workspace that it names. The standard library is nowhere.
pub proof fn paths_start_somewhere(
    live: Map<Seq<char>, FileId>,
    crates: Map<Seq<char>, Seq<char>>,
    src_path: Seq<char>,
    above: Seq<char>,
    first: Seq<char>,
    rest: Seq<Seq<char>>,
)
    requires
        vcs::dir_part(above) == vcs::dir_part(vcs::dir_part(src_path)),
    ensures
        resolve::rust_start(live, crates, src_path, seq!["crate"@] + rest) == (match resolve::crate_dir(
            live,
            vcs::dir_part(src_path),
        ) {
            Some(root) => Some((root, rest, true)),
            None => None,
        }),
        resolve::rust_start(live, crates, src_path, seq!["self"@] + rest) == Some(
            (vcs::dir_part(src_path), rest, false),
        ),
        rest.len() == 0 || rest[0] != "super"@ ==> resolve::rust_start(live, crates, src_path, seq!["super"@] + rest)
            == Some((vcs::dir_part(vcs::dir_part(src_path)), rest, false)),
        rest.len() > 0 && rest[0] == "super"@ ==> resolve::rust_start(live, crates, src_path, seq!["super"@] + rest)
            == resolve::rust_start(live, crates, above, rest),
        resolve::rust_start(live, crates, src_path, seq!["std"@] + rest) is None,
        resolve::rust_start(live, crates, src_path, seq!["core"@] + rest) is None,
        resolve::rust_start(live, crates, src_path, seq!["alloc"@] + rest) is None,
        first != "crate"@ && first != "self"@ && first != "super"@ && first != "std"@ && first != "core"@ && first
            != "alloc"@ ==> resolve::rust_start(live, crates, src_path, seq![first] + rest) == (
        if crates.contains_key(text::swap_char(first, '-', '_')) {
            Some((crates[text::swap_char(first, '-', '_')], rest, true))
        } else {
            None
        }),
{
    reveal_strlit("crate");
    reveal_strlit("self");
    reveal_strlit("super");
    reveal_strlit("std");
    reveal_strlit("core");
    reveal_strlit("alloc");
    assert("crate"@[0] == 'c' && "self"@[1] == 'e' && "super"@[1] == 'u' && "std"@[1] == 't' && "core"@[0] == 'c'
        && "alloc"@[0] == 'a');
    assert("crate"@.len() == 5 && "core"@.len() == 4);
    assert("crate"@ != "self"@ && "crate"@ != "super"@ && "self"@ != "super"@);
    assert("std"@ != "crate"@ && "std"@ != "self"@ && "std"@ != "super"@);
    assert("core"@ != "crate"@ && "core"@ != "self"@ && "core"@ != "super"@);
    assert("alloc"@ != "crate"@ && "alloc"@ != "self"@ && "alloc"@ != "super"@);
    assert((seq!["crate"@] + rest).skip(1) =~= rest);
    assert((seq!["self"@] + rest).skip(1) =~= rest);
    assert((seq![first] + rest).skip(1) =~= rest);
    let s = seq!["super"@] + rest;
    assert(s.drop_first() =~= rest);
    lemma_supers_fit(rest);
    let n = resolve::supers(rest);
    assert(resolve::supers(s) == n + 1);
    assert(s.skip(n as int + 1) =~= rest.skip(n as int));
    assert(rest.skip(0) =~= rest);
    let dir = vcs::dir_part(src_path);
    assert(resolve::up(dir, n + 1) == resolve::up(vcs::dir_part(dir), n));
}

proof fn lemma_supers_fit(segs: Seq<Seq<char>>)
    ensures
        resolve::supers(segs) <= segs.len(),
    decreases segs.len(),
{
    if segs.len() > 0 && segs[0] == "super"@ {
        lemma_supers_fit(segs.drop_first());
    }
}

/// The file that a whole module path below a directory names: not the
/// importing file itself.
pub open spec fn module_named(
    live: Map<Seq<char>, FileId>,
    src_path: Seq<char>,
    root: Seq<char>,
    path: Seq<Seq<char>>,
) -> Option<FileId> {
    let a = resolve::normalized(resolve::below(root, text::join(path, "/"@) + ".rs"@));
    let b = resolve::normalized(resolve::below(root, text::join(path, "/"@) + "/mod.rs"@));
    if a != src_path && live.contains_key(a) {
        Some(live[a])
    } else if b != src_path && live.contains_key(b) {
        Some(live[b])
    } else {
        None
    }
}

proof fn lemma_others(live: Map<Seq<char>, FileId>, src_path: Seq<char>, a: Seq<char>, b: Seq<char>)
    ensures
        resolve::first_live(live, resolve::others(seq![a, b], src_path)) == (if a != src_path && live.contains_key(a) {
            Some(live[a])
        } else if b != src_path && live.contains_key(b) {
            Some(live[b])
        } else {
            None
        }),
{
    let f = |c: Seq<char>| c != src_path;
    let s = seq![a, b];
    assert(s =~= Seq::empty().push(a).push(b));
    assert(Seq::<Seq<char>>::empty().push(a).push(b).drop_last() =~= Seq::empty().push(a));
    assert(Seq::<Seq<char>>::empty().push(a).drop_last() =~= Seq::<Seq<char>>::empty());
    let o = resolve::others(s, src_path);
    assert(o =~= (if a != src_path && b != src_path {
        seq![a, b]
    } else if a != src_path {
        seq![a]
    } else if b != src_path {
        seq![b]
    } else {
        Seq::empty()
    })) by {
        reveal_with_fuel(Seq::filter, 3);
    }
    if o.len() == 0 {
        laws::lemma_first_at(live, o, 0);
    } else if live.contains_key(o[0]) {
        laws::lemma_first_at(live, o, 0);
    } else if o.len() == 1 || live.contains_key(o[1]) {
        laws::lemma_first_at(live, o, 1);
    } else {
        laws::lemma_first_at(live, o, 2);
    }
}

proof fn lemma_longest(
    live: Map<Seq<char>, FileId>,
    src_path: Seq<char>,
    root: Seq<char>,
    body: Seq<Seq<char>>,
    n: nat,
    k: nat,
)
    requires
        k <= n <= body.len(),
        forall|m: int| k < m <= n ==> module_named(live, src_path, root, #[trigger] body.take(m)) is None,
        k > 0 ==> module_named(live, src_path, root, body.take(k as int)) is Some,
    ensures
        resolve::longest_module(live, src_path, root, body, n) == (if k > 0 {
            module_named(live, src_path, root, body.take(k as int))
        } else {
            None
        }),
    decreases n,
{
    if n > 0 {
        let f = resolve::module_files(root, body.take(n as int));
        lemma_others(live, src_path, f[0], f[1]);
        assert(f =~= seq![f[0], f[1]]);
        if k < n {
            assert(module_named(live, src_path, root, body.take(n as int)) is None);
            lemma_longest(live, src_path, root, body, (n - 1) as nat, k);
        }
    }
}

/// Law: a path leads to the file of the longest of its prefixes that names a
/// module. Where none does, and at most one segment stands behind the root of
/// a crate, it leads to the lib.rs or the main.rs there. A file does not lead
/// to itself.
pub proof fn longest_prefixes_win(
    live: Map<Seq<char>, FileId>,
    crates: Map<Seq<char>, Seq<char>>,
    src_path: Seq<char>,
    spec: Seq<char>,
    root: Seq<char>,
    body: Seq<Seq<char>>,
    crate_rooted: bool,
    k: nat,
)
    requires
        !text::has_prefix(spec, "mod:"@),
        resolve::rust_segments(spec).len() > 0,
        resolve::rust_start(live, crates, src_path, resolve::rust_segments(spec)) == Some((root, body, crate_rooted)),
        k <= body.len(),
        forall|m: int| k < m <= body.len() ==> module_named(live, src_path, root, #[trigger] body.take(m)) is None,
        k > 0 ==> module_named(live, src_path, root, body.take(k as int)) is Some,
    ensures
        k > 0 ==> resolve::rust_target(live, crates, src_path, spec) == Some(
            (module_named(live, src_path, root, body.take(k as int))->0, Resolution::PathExact),
        ),
        k == 0 && crate_rooted && body.len() <= 1 && resolve::below(root, "lib.rs"@) != src_path && live.contains_key(
            resolve::below(root, "lib.rs"@),
        ) ==> resolve::rust_target(live, crates, src_path, spec) == Some(
            (live[resolve::below(root, "lib.rs"@)], Resolution::PathExact),
        ),
        k == 0 && crate_rooted && body.len() <= 1 && (resolve::below(root, "lib.rs"@) == src_path
            || !live.contains_key(resolve::below(root, "lib.rs"@))) && resolve::below(root, "main.rs"@) != src_path
            && live.contains_key(resolve::below(root, "main.rs"@)) ==> resolve::rust_target(
            live,
            crates,
            src_path,
            spec,
        ) == Some((live[resolve::below(root, "main.rs"@)], Resolution::PathExact)),
        k == 0 && (!crate_rooted || body.len() > 1 || ((resolve::below(root, "lib.rs"@) == src_path
            || !live.contains_key(resolve::below(root, "lib.rs"@))) && (resolve::below(root, "main.rs"@) == src_path
            || !live.contains_key(resolve::below(root, "main.rs"@))))) ==> resolve::rust_target(
            live,
            crates,
            src_path,
            spec,
        ) is None,
{
    lemma_longest(live, src_path, root, body, body.len(), k);
    lemma_others(live, src_path, resolve::below(root, "lib.rs"@), resolve::below(root, "main.rs"@));
}

// ---- Go ----

/// Law: the import path of the module names the root of the repository, what
/// stands below it the directories, and a relative path a directory from the
/// importing file. Other paths are not in the repository.
pub proof fn import_paths_name_directories(module: Seq<char>, src_path: Seq<char>, dir: Seq<char>, spec: Seq<char>)
    ensures
        resolve::go_dir(Some(module), src_path, module) == Some(Seq::<char>::empty()),
        resolve::go_dir(Some(module), src_path, module + "/"@ + dir) == Some(dir),
        resolve::go_dir(None, src_path, "./"@ + dir) == Some(
            resolve::normalized(resolve::below(vcs::dir_part(src_path), "./"@ + dir)),
        ),
        (spec.len() == 0 || spec[0] != '.') ==> resolve::go_dir(None, src_path, spec) is None,
        (spec.len() == 0 || spec[0] != '.') && spec != module && !text::has_prefix(spec, module + "/"@)
            ==> resolve::go_dir(Some(module), src_path, spec) is None,
{
    reveal_strlit("/");
    reveal_strlit("./");
    let s = module + "/"@ + dir;
    assert(s.take((module + "/"@).len() as int) =~= module + "/"@);
    assert(s.skip(module.len() as int + 1) =~= dir);
    assert(s.len() != module.len());
    let r = "./"@ + dir;
    assert(r.take(2) =~= "./"@);
    if text::has_prefix(spec, "./"@) {
        assert(spec.take(2)[0] == spec[0]);
    }
}

/// Law: a package is made of the Go files that stand directly in its
/// directory, tests left out.
pub proof fn packages_are_of_one_directory(dir: Seq<char>, name: Seq<char>, sub: Seq<char>)
    requires
        dir.len() > 0,
        !name.contains('/'),
    ensures
        resolve::go_source(dir, dir + "/"@ + (name + ".go"@)) <==> !text::has_suffix(name, "_test"@),
        resolve::go_source(Seq::empty(), name + ".go"@) <==> !text::has_suffix(name, "_test"@),
        !resolve::go_source(dir, dir + "/"@ + (sub + "/"@ + name)),
        !resolve::go_source(Seq::empty(), sub + "/"@ + name),
        !text::has_suffix(sub, ".go"@) ==> !resolve::go_source(dir, sub),
{
    reveal_strlit("/");
    reveal_strlit(".go");
    reveal_strlit("_test.go");
    reveal_strlit("_test");
    lemma_go_name(dir + "/"@, name);
    lemma_go_name(Seq::empty(), name);
    assert(Seq::<char>::empty() + (name + ".go"@) =~= name + ".go"@);
    let p = dir + "/"@ + (sub + "/"@ + name);
    let n = (dir + "/"@).len() as int;
    assert(p.skip(n) =~= sub + "/"@ + name);
    let q = sub + "/"@ + name;
    assert(q[sub.len() as int] == '/');
    assert(q.contains('/'));
    assert(q.skip(0) =~= q);
}

proof fn lemma_go_name(front: Seq<char>, name: Seq<char>)
    requires
        !name.contains('/'),
        front.len() == 0 || front.last() == '/',
    ensures
        text::has_suffix(front + (name + ".go"@), ".go"@),
        text::has_suffix(front + (name + ".go"@), "_test.go"@) <==> text::has_suffix(name, "_test"@),
        text::has_prefix(front + (name + ".go"@), front),
        !(front + (name + ".go"@)).skip(front.len() as int).contains('/'),
{
    reveal_strlit(".go");
    reveal_strlit("_test.go");
    reveal_strlit("_test");
    let t = name + ".go"@;
    let p = front + t;
    assert(p.skip(p.len() - 3) =~= ".go"@);
    assert(p.take(front.len() as int) =~= front);
    assert(p.skip(front.len() as int) =~= t);
    assert(!t.contains('/')) by {
        if t.contains('/') {
            let i = t.index_of('/');
            assert(t[i] == '/');
            if i < name.len() {
                assert(name[i] == '/');
                assert(name.contains('/'));
            }
        }
    }
    if text::has_suffix(name, "_test"@) {
        let m = name.len() - 5;
        assert(name.skip(m) == "_test"@);
        assert forall|i: int| 0 <= i < 5 implies name[m + i] == "_test"@[i] by {
            assert(name.skip(m)[i] == name[m + i]);
        }
        let w = p.len() - 8;
        assert("_test.go"@ =~= "_test"@ + ".go"@);
        assert forall|i: int| 0 <= i < 8 implies p.skip(w)[i] == "_test.go"@[i] by {
            assert(p.skip(w)[i] == t[m + i]);
            if i < 5 {
                assert(t[m + i] == name[m + i]);
            } else {
                assert(t[m + i] == ".go"@[i - 5]);
            }
        }
        assert(p.skip(w) =~= "_test.go"@);
    }
    if text::has_suffix(p, "_test.go"@) {
        let m = p.len() - 8;
        assert forall|i: int| 0 <= i < 5 implies p[m + i] == "_test"@[i] by {
            assert(p.skip(m)[i] == p[m + i]);
        }
        if name.len() < 5 {
            let j = front.len() - 1 - m;
            if front.len() > 0 {
                assert(p[front.len() - 1] == '/');
                assert(p[m + j] == "_test"@[j]);
            }
            assert(false);
        }
        assert(name.skip(name.len() - 5) =~= "_test"@) by {
            assert forall|i: int| 0 <= i < 5 implies name.skip(name.len() - 5)[i] == "_test"@[i] by {
                assert(name[name.len() - 5 + i] == p[m + i]);
            }
        }
    }
}

/// Law: a package of at most twenty files leads to each of them, and to no
/// other; a larger one to twenty of them. They come by ascending id.
pub proof fn packages_lead_to_their_files(
    module: Option<Seq<char>>,
    order: Seq<(Seq<char>, FileId)>,
    src_path: Seq<char>,
    spec: Seq<char>,
    dir: Seq<char>,
    t: FileId,
)
    requires
        resolve::go_dir(module, src_path, spec) == Some(dir),
    ensures
        resolve::go_targets(module, order, src_path, spec).contains(t) ==> exists|i: int|
            0 <= i < order.len() && (#[trigger] order[i]).1 == t && resolve::go_source(dir, order[i].0),
        resolve::go_sources(order, dir).len() <= 20 && (exists|i: int|
            0 <= i < order.len() && (#[trigger] order[i]).1 == t && resolve::go_source(dir, order[i].0))
            ==> resolve::go_targets(module, order, src_path, spec).contains(t),
        resolve::go_sources(order, dir).len() > 20 ==> resolve::go_targets(module, order, src_path, spec).len() == 20,
{
    broadcast use vstd::seq_lib::group_filter_ensures;

    let f = |e: (Seq<char>, FileId)| resolve::go_source(dir, e.0);
    let g = |e: (Seq<char>, FileId)| e.1;
    let fl = order.filter(f);
    let all = resolve::go_sources(order, dir);
    assert(all == fl.map_values(g));
    let kept = if all.len() > 20 { all.take(20) } else { all };
    resolve::sorting_ids(kept);
    let got = resolve::go_targets(module, order, src_path, spec);
    assert(got == resolve::ids_sorted(kept));
    lemma_same_ids(kept, t);
    if got.contains(t) {
        let j = kept.index_of(t);
        assert(kept[j] == t);
        assert(all[j] == t);
        assert(fl[j].1 == t);
        assert(fl.contains(fl[j]));
        order.lemma_filter_contains_rev(f, fl[j]);
        let i = order.index_of(fl[j]);
        assert(order[i] == fl[j]);
        assert(f(fl[j]));
    }
    if all.len() <= 20 && exists|i: int|
        0 <= i < order.len() && (#[trigger] order[i]).1 == t && resolve::go_source(dir, order[i].0) {
        let i = choose|i: int|
            0 <= i < order.len() && (#[trigger] order[i]).1 == t && resolve::go_source(dir, order[i].0);
        assert(f(order[i]));
        assert(fl.contains(order[i]));
        let j = fl.index_of(order[i]);
        assert(all[j] == t);
        assert(kept.contains(t));
    }
}

proof fn lemma_same_ids(s: Seq<FileId>, t: FileId)
    ensures
        resolve::ids_sorted(s).contains(t) <==> s.contains(t),
        resolve::ids_sorted(s).len() == s.len(),
{
    resolve::sorting_ids(s);
    let r = resolve::ids_sorted(s);
    vstd::seq_lib::to_multiset_len(s);
    vstd::seq_lib::to_multiset_len(r);
    broadcast use vstd::seq_lib::to_multiset_contains;

    assert(s.contains(t) <==> s.to_multiset().contains(t));
    assert(r.contains(t) <==> r.to_multiset().contains(t));
}

// ---- Ruby ----

/// Law: a relative require leads to the file at its path below the importing
/// file's directory or, without one, to that with the ending .rb; any other
/// require leads to no path.
pub proof fn requires_name_files(live: Map<Seq<char>, FileId>, src_path: Seq<char>, rest: Seq<char>, spec: Seq<char>, p: Seq<char>)
    requires
        p == resolve::normalized(resolve::below(vcs::dir_part(src_path), rest)),
    ensures
        live.contains_key(p) ==> resolve::ruby_target(live, src_path, "rel:"@ + rest) == Some(
            (live[p], Resolution::PathExact),
        ),
        !live.contains_key(p) && live.contains_key(p + ".rb"@) ==> resolve::ruby_target(live, src_path, "rel:"@ + rest)
            == Some((live[p + ".rb"@], Resolution::PathExact)),
        !live.contains_key(p) && !live.contains_key(p + ".rb"@) ==> resolve::ruby_target(
            live,
            src_path,
            "rel:"@ + rest,
        ) is None,
        !text::has_prefix(spec, "rel:"@) ==> resolve::ruby_target(live, src_path, spec) is None,
{
    reveal_strlit("rel:");
    let s = "rel:"@ + rest;
    assert(s.take(4) =~= "rel:"@);
    assert(s.skip(4) =~= rest);
    let c = seq![p, p + ".rb"@];
    if live.contains_key(c[0]) {
        laws::lemma_first_at(live, c, 0);
    } else if live.contains_key(c[1]) {
        laws::lemma_first_at(live, c, 1);
    } else {
        laws::lemma_first_at(live, c, 2);
    }
}

} // verus!
