//! What each capture gives and what is kept of it, over all captures.

use crate::extract;
use crate::extract::Found;
use crate::names;
use crate::parsed;
use crate::parsed::{DefView, ImportView};
use crate::rust_use;
use crate::text;
use vstd::prelude::*;

verus! {

/// The capture names differ from each other.
proof fn lemma_captures_differ()
    ensures
        "spec"@ != "spec.relative"@ && "spec"@ != "import.name"@ && "spec"@ != "use_decl"@ && "spec"@ != "mod"@
            && "spec"@ != "call"@ && "spec"@ != "typeref"@,
        "spec.from"@ != "spec.reexport"@ && "spec"@ != "spec.reexport"@,
        "spec.relative"@ != "spec.from"@ && "spec.relative"@ != "spec.reexport"@,
        "import.name"@ != "spec.from"@ && "import.name"@ != "spec.reexport"@ && "import.name"@ != "spec.relative"@,
        "use_decl"@ != "spec.from"@ && "use_decl"@ != "spec.reexport"@ && "use_decl"@ != "spec.relative"@ && "use_decl"@
            != "import.name"@,
        "mod"@ != "spec.from"@ && "mod"@ != "spec.reexport"@ && "mod"@ != "spec.relative"@ && "mod"@ != "import.name"@
            && "mod"@ != "use_decl"@,
        "call"@ != "spec.from"@ && "call"@ != "spec.reexport"@ && "call"@ != "spec.relative"@ && "call"@
            != "import.name"@ && "call"@ != "use_decl"@ && "call"@ != "mod"@,
        "typeref"@ != "spec.from"@ && "typeref"@ != "spec.reexport"@ && "typeref"@ != "spec.relative"@ && "typeref"@
            != "import.name"@ && "typeref"@ != "use_decl"@ && "typeref"@ != "mod"@ && "typeref"@ != "call"@,
{
    reveal_strlit("spec");
    reveal_strlit("spec.from");
    reveal_strlit("spec.reexport");
    reveal_strlit("spec.relative");
    reveal_strlit("import.name");
    reveal_strlit("use_decl");
    reveal_strlit("mod");
    reveal_strlit("call");
    reveal_strlit("typeref");
    assert("spec"@.len() == 4 && "spec.from"@.len() == 9 && "spec.reexport"@.len() == 13 && "spec.relative"@.len() == 13
        && "import.name"@.len() == 11 && "use_decl"@.len() == 8 && "mod"@.len() == 3 && "call"@.len() == 4
        && "typeref"@.len() == 7);
    assert("spec"@[0] == 's' && "call"@[0] == 'c');
    assert("spec.reexport"@[7] == 'e' && "spec.relative"@[7] == 'l');
}

/// Law: a captured specifier is an import of what stands between its quotes;
/// one of a re-export is marked so, one of a relative require is marked
/// relative, and a declared module is marked as such.
pub proof fn specifiers_are_taken(f: Found, raw: Seq<char>, outer: Seq<Seq<char>>, t: Seq<char>)
    requires
        t == text::trimmed(raw),
        t.len() > 0,
        extract::unquoted(t).len() > 0,
    ensures
        extract::capture_step(f, "spec"@, raw, outer) == extract::with_import(f, extract::unquoted(t), false),
        extract::capture_step(f, "spec.from"@, raw, outer) == extract::with_import(f, extract::unquoted(t), false),
        extract::capture_step(f, "spec.reexport"@, raw, outer) == extract::with_import(f, extract::unquoted(t), true),
        extract::capture_step(f, "spec.relative"@, raw, outer) == extract::with_import(
            f,
            "rel:"@ + extract::unquoted(t),
            false,
        ),
        extract::capture_step(f, "mod"@, raw, outer) == extract::with_import(f, "mod:"@ + t, false),
{
    lemma_captures_differ();
}

/// Law: an import is put behind those found before, without names.
pub proof fn imports_are_put_last(f: Found, spec: Seq<char>, reexport: bool)
    ensures
        extract::with_import(f, spec, reexport).imports == f.imports.push(
            (ImportView { spec, reexport, names: Seq::empty() }),
        ),
        extract::with_import(f, spec, reexport).names == f.names,
        extract::with_import(f, spec, reexport).defs == f.defs,
        extract::with_import(f, spec, reexport).calls == f.calls,
        extract::with_import(f, spec, reexport).type_refs == f.type_refs,
{
}

/// Law: an imported name is kept, a use declaration imports each of its paths,
/// and what is called or referred to as a type is kept where its name has three
/// bytes or more, up to four hundred of each.
pub proof fn names_are_taken(f: Found, raw: Seq<char>, outer: Seq<Seq<char>>, t: Seq<char>)
    requires
        t == text::trimmed(raw),
        t.len() > 0,
        names::increasing(f.calls),
        names::increasing(f.type_refs),
    ensures
        extract::capture_step(f, "import.name"@, raw, outer).names == f.names.push(t),
        extract::capture_step(f, "use_decl"@, raw, outer).imports == f.imports + rust_use::use_paths(t).map_values(
            |p: Seq<char>| ImportView { spec: p, reexport: rust_use::is_reexport(t), names: Seq::empty() },
        ),
        text::byte_len(t) >= 3 && f.calls.len() < 400 ==> forall|x: Seq<char>| #[trigger]
            extract::capture_step(f, "call"@, raw, outer).calls.contains(x) <==> f.calls.contains(x) || x == t,
        text::byte_len(t) < 3 || f.calls.len() >= 400 ==> extract::capture_step(f, "call"@, raw, outer) == f,
        text::byte_len(t) >= 3 && f.type_refs.len() < 400 ==> forall|x: Seq<char>| #[trigger]
            extract::capture_step(f, "typeref"@, raw, outer).type_refs.contains(x) <==> f.type_refs.contains(x) || x == t,
        text::byte_len(t) < 3 || f.type_refs.len() >= 400 ==> extract::capture_step(f, "typeref"@, raw, outer) == f,
{
    lemma_captures_differ();
    names::insert_keeps_order(f.calls, t);
    names::insert_keeps_order(f.type_refs, t);
    assert(extract::use_imports(t) =~= rust_use::use_paths(t).map_values(
        |p: Seq<char>| ImportView { spec: p, reexport: rust_use::is_reexport(t), names: Seq::empty() },
    ));
}

/// Law: a definition is kept under its kind where the name has none yet, up to
/// four hundred. A constant inside a function is no definition.
pub proof fn definitions_are_taken(f: Found, kind: Seq<char>, raw: Seq<char>, outer: Seq<Seq<char>>, t: Seq<char>)
    requires
        t == text::trimmed(raw),
        t.len() > 0,
    ensures
        kind != "const"@ && f.defs.len() < 400 && !f.def_names.contains(t) ==> extract::capture_step(
            f,
            "def."@ + kind,
            raw,
            outer,
        ).defs == f.defs.push((DefView { name: t, kind })),
        f.def_names.contains(t) || f.defs.len() >= 400 ==> extract::capture_step(f, "def."@ + kind, raw, outer) == f,
        !extract::top_level(outer) ==> extract::capture_step(f, "def.const"@, raw, outer) == f,
        extract::top_level(outer) && f.defs.len() < 400 && !f.def_names.contains(t) ==> extract::capture_step(
            f,
            "def.const"@,
            raw,
            outer,
        ).defs == f.defs.push((DefView { name: t, kind: "const"@ })),
{
    reveal_strlit("def.");
    reveal_strlit("const");
    reveal_strlit("def.const");
    reveal_strlit("spec");
    reveal_strlit("spec.from");
    reveal_strlit("spec.reexport");
    reveal_strlit("spec.relative");
    reveal_strlit("import.name");
    reveal_strlit("use_decl");
    reveal_strlit("mod");
    reveal_strlit("call");
    reveal_strlit("typeref");
    let n = "def."@ + kind;
    assert(n[0] == 'd');
    assert(n.take(4) =~= "def."@);
    assert(n.skip(4) =~= kind);
    assert("def.const"@ =~= "def."@ + "const"@);
    let c = "def.const"@;
    assert(c[0] == 'd');
    assert(c.take(4) =~= "def."@);
    assert(c.skip(4) =~= "const"@);
    assert("spec"@[0] == 's' && "spec.from"@[0] == 's' && "spec.reexport"@[0] == 's' && "spec.relative"@[0] == 's'
        && "import.name"@[0] == 'i' && "use_decl"@[0] == 'u' && "mod"@[0] == 'm' && "call"@[0] == 'c' && "typeref"@[0]
        == 't');
    if n == c {
        assert(kind =~= n.skip(4));
    }
}

/// Law: a constant stands at the top where its statement does, or the export
/// statement around it.
pub proof fn tops_are_told_apart(outer: Seq<Seq<char>>)
    ensures
        outer.len() < 2 ==> !extract::top_level(outer),
        outer.len() >= 2 && (outer[1] == "program"@ || outer[1] == "export_statement"@) ==> extract::top_level(outer),
        outer.len() >= 3 && (outer[2] == "program"@ || outer[2] == "export_statement"@) ==> extract::top_level(outer),
        outer.len() >= 3 && outer[1] != "program"@ && outer[1] != "export_statement"@ && outer[2] != "program"@ && outer[2]
            != "export_statement"@ ==> !extract::top_level(outer),
{
}

/// Law: each specifier is imported once in each form, in the order in which
/// they come, and of up to two hundred none is lost.
pub proof fn imports_are_kept_once(s: Seq<ImportView>)
    ensures
        forall|i: int, j: int|
            0 <= i < j < extract::deduped(s).len() ==> (#[trigger] extract::deduped(s)[i]).spec != (
            #[trigger] extract::deduped(s)[j]).spec || extract::deduped(s)[i].reexport != extract::deduped(s)[j].reexport,
        forall|k: int| 0 <= k < extract::deduped(s).len() ==> s.contains(#[trigger] extract::deduped(s)[k]),
        s.len() <= 200 ==> forall|i: int|
            0 <= i < s.len() ==> extract::import_listed(extract::deduped(s), #[trigger] s[i]),
        extract::deduped(s).len() <= s.len(),
        extract::deduped(s).len() <= 200,
        s.len() > 0 ==> extract::deduped(s).len() > 0 && extract::deduped(s)[0] == s[0],
    decreases s.len(),
{
    if s.len() > 0 {
        let d = s.drop_last();
        let b = extract::deduped(d);
        let r = extract::deduped(s);
        imports_are_kept_once(d);
        assert forall|i: int, j: int| 0 <= i < j < r.len() implies (#[trigger] r[i]).spec != (#[trigger] r[j]).spec
            || r[i].reexport != r[j].reexport by {
            if j < b.len() {
                assert(b[i].spec != b[j].spec || b[i].reexport != b[j].reexport);
            } else {
                assert(b[i] == r[i]);
            }
        }
        assert forall|k: int| 0 <= k < r.len() implies s.contains(#[trigger] r[k]) by {
            if k < b.len() {
                assert(b[k] == r[k]);
                assert(s[d.index_of(r[k])] == r[k]);
            } else {
                assert(s[s.len() - 1] == r[k]);
            }
        }
        if s.len() <= 200 {
            assert forall|i: int| 0 <= i < s.len() implies extract::import_listed(r, #[trigger] s[i]) by {
                if i < d.len() {
                    assert(d[i] == s[i]);
                    let k = choose|k: int|
                        0 <= k < b.len() && (#[trigger] b[k]).spec == d[i].spec && b[k].reexport == d[i].reexport;
                    assert(r[k] == b[k]);
                } else if extract::import_listed(b, s[i]) {
                    let k = choose|k: int|
                        0 <= k < b.len() && (#[trigger] b[k]).spec == s[i].spec && b[k].reexport == s[i].reexport;
                    assert(r[k] == b[k]);
                } else {
                    assert(r[b.len() as int] == s[i]);
                }
            }
        }
        if d.len() > 0 {
            assert(r[0] == b[0]);
            assert(d[0] == s[0]);
        } else {
            assert(b.len() == 0);
            assert(!extract::import_listed(b, s.last()));
        }
    }
}

/// Law: imported names are held by the first import; a file with names and no
/// import holds them in one without a specifier, where that is wanted.
pub proof fn names_are_held(imports: Seq<ImportView>, names: Seq<Seq<char>>, keep: bool)
    requires
        names.len() > 0,
    ensures
        imports.len() > 0 ==> extract::named_imports(imports, names, keep).len() == imports.len()
            && extract::named_imports(imports, names, keep)[0] == (ImportView {
            spec: imports[0].spec,
            reexport: imports[0].reexport,
            names,
        }),
        imports.len() == 0 && keep ==> extract::named_imports(imports, names, keep) == seq![
            ImportView { spec: Seq::empty(), reexport: false, names },
        ],
        imports.len() == 0 && !keep ==> extract::named_imports(imports, names, keep).len() == 0,
        extract::named_imports(imports, Seq::empty(), keep) == imports,
{
}

/// Law: a file does not call or refer to what it defines itself, and everything
/// else that was found stays.
pub proof fn own_names_are_left_out(f: Found, keep: bool, n: Seq<char>)
    ensures
        extract::finished(f, keep).calls.contains(n) <==> f.calls.contains(n) && !f.def_names.contains(n),
        extract::finished(f, keep).type_refs.contains(n) <==> f.type_refs.contains(n) && !f.def_names.contains(n),
        extract::finished(f, keep).defs == f.defs,
        extract::finished(f, keep).imports == extract::deduped(extract::named_imports(f.imports, f.names, keep)),
{
    let g = |n: Seq<char>| !f.def_names.contains(n);
    crate::plain::lemma_filtered(f.calls, g);
    crate::plain::lemma_filtered(f.type_refs, g);
}

/// Law: a file of more than a mebibyte is not parsed.
pub proof fn large_files_are_skipped(lang: crate::lang::Lang, content: Seq<u8>)
    requires
        content.len() > 1_048_576,
    ensures
        extract::extracted(lang, content) == parsed::nothing_parsed(),
{
}

} // verus!
