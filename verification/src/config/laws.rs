//! What configuration files say, over all their contents.

use crate::config;
use crate::text;
use crate::vcs;
use crate::walk;
use crate::walk::WalkView;
use vstd::prelude::*;

verus! {

/// Law: the module path is what stands behind "module " on the first line that
/// starts with it, wherever in the file that is. Without such a line there is
/// none.
pub proof fn module_lines_name_modules(front: Seq<Seq<char>>, line: Seq<char>, rest: Seq<Seq<char>>, name: Seq<char>)
    requires
        forall|i: int| 0 <= i < front.len() ==> !text::has_prefix(text::trimmed(#[trigger] front[i]), "module "@),
    ensures
        text::trimmed(line) == "module "@ + name ==> config::module_in(front + seq![line] + rest) == Some(
            text::trimmed(name),
        ),
        config::module_in(front) is None,
    decreases front.len(),
{
    let s = front + seq![line] + rest;
    if front.len() == 0 {
        reveal_strlit("module ");
        let t = "module "@ + name;
        assert(s[0] == line);
        assert(t.take(7) =~= "module "@);
        assert(t.skip(7) =~= name);
    } else {
        let r = front.skip(1);
        assert(!text::has_prefix(text::trimmed(front[0]), "module "@));
        assert forall|i: int| 0 <= i < r.len() implies !text::has_prefix(text::trimmed(#[trigger] r[i]), "module "@) by {
            assert(r[i] == front[i + 1]);
        }
        module_lines_name_modules(r, line, rest, name);
        assert(s[0] == front[0]);
        assert(s.skip(1) =~= r + seq![line] + rest);
    }
}

/// Law: a crate is named by the first name line of the section "[package]": a
/// heading starts a section, and a name line of any other section names
/// nothing.
pub proof fn sections_name_crates(line: Seq<char>, rest: Seq<Seq<char>>, inside: bool, name: Seq<char>)
    ensures
        text::trimmed(line) == "[package]"@ ==> config::package_in(seq![line] + rest, inside) == config::package_in(
            rest,
            true,
        ),
        text::has_prefix(text::trimmed(line), "["@) && text::trimmed(line) != "[package]"@ ==> config::package_in(
            seq![line] + rest,
            inside,
        ) == config::package_in(rest, false),
        text::trimmed(line) == "name"@ + name ==> config::package_in(seq![line] + rest, true) == Some(
            config::crate_name(name),
        ),
        text::trimmed(line) == "name"@ + name ==> config::package_in(seq![line] + rest, false) == config::package_in(
            rest,
            false,
        ),
        !text::has_prefix(text::trimmed(line), "["@) && !text::has_prefix(text::trimmed(line), "name"@)
            ==> config::package_in(seq![line] + rest, inside) == config::package_in(rest, inside),
        config::package_in(Seq::empty(), inside) is None,
{
    reveal_strlit("[package]");
    reveal_strlit("[");
    reveal_strlit("name");
    let s = seq![line] + rest;
    assert(s[0] == line);
    assert(s.skip(1) =~= rest);
    assert("[package]"@.take(1) =~= "["@);
    let t = text::trimmed(line);
    let n = "name"@ + name;
    assert(n.take(4) =~= "name"@);
    assert(n.skip(4) =~= name);
    assert(n[0] == 'n');
    if text::has_prefix(n, "["@) {
        assert(n.take(1)[0] == n[0]);
    }
    if text::has_prefix(t, "name"@) && text::has_prefix(t, "["@) {
        assert(t.take(4)[0] == t[0]);
        assert(t.take(1)[0] == t[0]);
    }
}

/// Law: a crate's name is what stands between the quotes, with underscores for
/// hyphens.
pub proof fn names_stand_in_quotes(name: Seq<char>)
    requires
        name.len() > 0,
        name[0] != '"',
        name.last() != '"',
    ensures
        config::crate_name(" = \""@ + name + "\""@) == text::swap_char(name, '-', '_'),
        config::crate_name("=\""@ + name + "\""@) == text::swap_char(name, '-', '_'),
{
    reveal_strlit(" = \"");
    reveal_strlit("=\"");
    reveal_strlit("\"");
    reveal_strlit("=");
    let q = "\""@ + name + "\""@;
    let a = " = \""@ + name + "\""@;
    let b = "=\""@ + name + "\""@;
    assert("="@.contains('=')) by {
        assert("="@[0] == '=');
    }
    assert(!"="@.contains('"')) by {
        if "="@.contains('"') {
            let k = "="@.index_of('"');
            assert("="@[k] == '"');
        }
    }
    assert(text::is_white(' ') && !text::is_white('"'));
    assert(q[0] == '"');
    assert(text::trim_front(q, true, "="@) == q);
    assert(a.drop_first() =~= "= \""@ + name + "\""@) by {
        reveal_strlit("= \"");
    }
    let a1 = a.drop_first();
    assert(a[0] == ' ' && a1[0] == '=' && a1.drop_first()[0] == ' ');
    let a2 = a1.drop_first();
    let a3 = a2.drop_first();
    assert(a3 =~= q);
    assert(text::trim_front(a, true, "="@) == text::trim_front(a1, true, "="@));
    assert(text::trim_front(a1, true, "="@) == text::trim_front(a2, true, "="@));
    assert(text::trim_front(a2, true, "="@) == text::trim_front(a3, true, "="@));
    assert(b[0] == '=' && b.drop_first() =~= q);
    assert(text::trim_front(b, true, "="@) == text::trim_front(b.drop_first(), true, "="@));
    assert("\""@.contains('"')) by {
        assert("\""@[0] == '"');
    }
    let t = name + "\""@;
    assert(q.drop_first() =~= t);
    assert(t[0] == name[0]);
    assert(!"\""@.contains(name[0])) by {
        if "\""@.contains(name[0]) {
            let k = "\""@.index_of(name[0]);
            assert("\""@[k] == name[0]);
        }
    }
    assert(text::trim_front(q, false, "\""@) == text::trim_front(t, false, "\""@));
    assert(text::trim_front(t, false, "\""@) == t);
    assert(t.last() == '"' && t.drop_last() =~= name);
    assert(!"\""@.contains(name.last())) by {
        if "\""@.contains(name.last()) {
            let k = "\""@.index_of(name.last());
            assert("\""@[k] == name.last());
        }
    }
    assert(text::trim_back(t, false, "\""@) == text::trim_back(name, false, "\""@));
    assert(text::trim_back(name, false, "\""@) == name);
}

/// Law: the sources of a crate lie in src/ beside its manifest.
pub proof fn sources_lie_beside_manifests(dir: Seq<char>)
    requires
        dir.len() > 0,
    ensures
        config::source_dir("Cargo.toml"@) == "src"@,
        config::source_dir(dir + "/"@ + "Cargo.toml"@) == dir + "/src"@,
{
    reveal_strlit("Cargo.toml");
    assert(!"Cargo.toml"@.contains('/')) by {
        if "Cargo.toml"@.contains('/') {
            let k = "Cargo.toml"@.index_of('/');
            assert("Cargo.toml"@[k] == '/');
        }
    }
    crate::resolve::laws::names_stand_in_directories(dir, "Cargo.toml"@);
}

/// Law: the walk takes the module path from go.mod at the root and a crate's
/// name from a Cargo.toml in any directory, and nothing from other files.
pub proof fn configs_are_taken(w: WalkView, path: Seq<char>, content: Seq<char>)
    ensures
        config::module_in(text::lines(content)) matches Some(m) ==> walk::config_read(w, "go.mod"@, content).go_module
            == Some(m),
        config::module_in(text::lines(content)) is None ==> walk::config_read(w, "go.mod"@, content) == w,
        text::has_suffix(path, "Cargo.toml"@) ==> (config::package_in(text::lines(content), false) matches Some(n)
            ==> n.len() > 0 ==> walk::config_read(w, path, content).rust_crates == w.rust_crates.insert(
            n,
            config::source_dir(path),
        )),
        path != "go.mod"@ && !text::has_suffix(path, "Cargo.toml"@) ==> walk::config_read(w, path, content) == w,
{
    reveal_strlit("go.mod");
    reveal_strlit("Cargo.toml");
}

/// Law: the manifest of a Go module is read at the root alone, that of a crate
/// in every directory, and nothing else is.
pub proof fn manifests_are_told_apart(path: Seq<char>, dir: Seq<char>)
    ensures
        config::config_path("go.mod"@),
        dir.len() > 0 ==> !config::config_path(dir + seq!['/'] + "go.mod"@),
        config::config_path(dir + "Cargo.toml"@),
        config::config_path(path) ==> path == "go.mod"@ || (path.len() >= 10 && path.skip(path.len() - 10)
            == "Cargo.toml"@),
{
    reveal_strlit("go.mod");
    reveal_strlit("Cargo.toml");
    let c = dir + "Cargo.toml"@;
    assert(c.skip(c.len() - 10) =~= "Cargo.toml"@);
    let g = dir + seq!['/'] + "go.mod"@;
    assert(g.last() == 'd');
    assert(g.len() > 6);
    if text::has_suffix(g, "Cargo.toml"@) {
        assert(g.skip(g.len() - 10)[9] == g.last());
        assert("Cargo.toml"@[9] == 'l');
    }
}

} // verus!
