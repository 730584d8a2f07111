//! What the resolver takes from go.mod and Cargo.toml files.

use crate::text;
use crate::vcs;
use vstd::prelude::*;
use vstd::string::*;

pub mod laws;

verus! {

/// The module path that the first `module` line among some gives.
pub open spec fn module_in(lines: Seq<Seq<char>>) -> Option<Seq<char>>
    decreases lines.len(),
{
    if lines.len() == 0 {
        None
    } else {
        let t = text::trimmed(lines[0]);
        if text::has_prefix(t, "module "@) {
            Some(text::trimmed(t.skip("module "@.len() as int)))
        } else {
            module_in(lines.skip(1))
        }
    }
}

/// The name that a `name` line gives: without what stands before it, without
/// quotes, with underscores for hyphens.
pub open spec fn crate_name(rest: Seq<char>) -> Seq<char> {
    let v = text::trim_front(rest, true, "="@);
    text::swap_char(text::trim_back(text::trim_front(v, false, "\""@), false, "\""@), '-', '_')
}

/// The name that the first `name` line of a package section among some lines
/// gives, which may be empty.
pub open spec fn package_in(lines: Seq<Seq<char>>, in_package: bool) -> Option<Seq<char>>
    decreases lines.len(),
{
    if lines.len() == 0 {
        None
    } else {
        let t = text::trimmed(lines[0]);
        let here = if text::has_prefix(t, "["@) {
            t == "[package]"@
        } else {
            in_package
        };
        if here && text::has_prefix(t, "name"@) {
            Some(crate_name(t.skip("name"@.len() as int)))
        } else {
            package_in(lines.skip(1), here)
        }
    }
}

/// The directory of a crate's sources.
pub open spec fn source_dir(manifest: Seq<char>) -> Seq<char> {
    let dir = vcs::dir_part(manifest);
    if dir.len() == 0 {
        "src"@
    } else {
        dir + "/src"@
    }
}

/// The module path in a go.mod file.
pub fn go_module(content: &str) -> (r: Option<String>)
    ensures
        text::opt_view(r) == module_in(text::lines(content@)),
{
    let lines = text::lines_of(content);
    let ghost s = text::views(lines@);
    let mut i: usize = 0;
    assert(s.skip(0) =~= s);
    while i < lines.len()
        invariant
            i <= lines@.len(),
            s == text::views(lines@),
            s == text::lines(content@),
            module_in(s) == module_in(s.skip(i as int)),
        decreases lines@.len() - i,
    {
        proof {
            assert(s.skip(i as int)[0] == lines@[i as int]@);
            assert(s.skip(i as int).skip(1) =~= s.skip(i + 1));
            reveal_strlit("module ");
        }
        let t = text::trim(lines[i].as_str());
        if text::starts_with(t.as_str(), "module ") {
            let rest = text::tail_text(t.as_str(), 7);
            assert(rest@ =~= t@.skip(7));
            return Some(text::trim(rest.as_str()));
        }
        i += 1;
    }
    None
}

/// The crate name in a Cargo.toml file, which may be empty.
pub fn package_name(content: &str) -> (r: Option<String>)
    ensures
        text::opt_view(r) == package_in(text::lines(content@), false),
{
    let lines = text::lines_of(content);
    let ghost s = text::views(lines@);
    let mut in_package = false;
    let mut i: usize = 0;
    assert(s.skip(0) =~= s);
    while i < lines.len()
        invariant
            i <= lines@.len(),
            s == text::views(lines@),
            s == text::lines(content@),
            package_in(s, false) == package_in(s.skip(i as int), in_package),
        decreases lines@.len() - i,
    {
        proof {
            assert(s.skip(i as int)[0] == lines@[i as int]@);
            assert(s.skip(i as int).skip(1) =~= s.skip(i + 1));
            reveal_strlit("name");
        }
        let t = text::trim(lines[i].as_str());
        if text::starts_with(t.as_str(), "[") {
            in_package = text::eq_str(t.as_str(), "[package]");
        }
        if in_package && text::starts_with(t.as_str(), "name") {
            let rest = text::tail_text(t.as_str(), 4);
            assert(rest@ =~= t@.skip(4));
            let v = text::trim_front_of(rest.as_str(), true, "=");
            let front = text::trim_front_of(v.as_str(), false, "\"");
            let bare = text::trim_back_of(front.as_str(), false, "\"");
            return Some(text::replace_char(bare.as_str(), '-', '_'));
        }
        i += 1;
    }
    None
}

/// The directory of the sources of the crate whose manifest has a path.
pub fn crate_source_dir(manifest: &str) -> (r: String)
    ensures
        r@ == source_dir(manifest@),
{
    let dir = vcs::parent_dir(manifest);
    if dir.unicode_len() == 0 {
        "src".to_owned()
    } else {
        text::cat2(dir, "/src")
    }
}

/// A file that the resolver takes something from.
pub open spec fn config_path(path: Seq<char>) -> bool {
    path == "go.mod"@ || text::has_suffix(path, "Cargo.toml"@)
}

pub fn is_config_path(path: &str) -> (r: bool)
    ensures
        r == config_path(path@),
{
    text::eq_str(path, "go.mod") || text::ends_with(path, "Cargo.toml")
}

} // verus!
