//! Language detection, and what an import line looks like in each language.

use crate::text;
use vstd::prelude::*;

pub mod laws;

verus! {

#[derive(Debug, Clone, Copy, PartialEq, Eq, Structural, Hash)]
pub enum Lang {
    Ts,
    Tsx,
    Js,
    Py,
    Rust,
    Go,
    Rb,
    Coffee,
    Md,
}

/// What stands behind the last dot of a path, in lower case.
pub open spec fn extension(path: Seq<char>) -> Seq<char> {
    text::lower(text::split(path, '.').last())
}

/// The language of files with an extension.
pub open spec fn lang_of_extension(ext: Seq<char>) -> Option<Lang> {
    if ext == "ts"@ || ext == "mts"@ || ext == "cts"@ {
        Some(Lang::Ts)
    } else if ext == "tsx"@ {
        Some(Lang::Tsx)
    } else if ext == "js"@ || ext == "mjs"@ || ext == "cjs"@ || ext == "jsx"@ {
        Some(Lang::Js)
    } else if ext == "py"@ || ext == "pyi"@ {
        Some(Lang::Py)
    } else if ext == "rs"@ {
        Some(Lang::Rust)
    } else if ext == "go"@ {
        Some(Lang::Go)
    } else if ext == "rb"@ || ext == "rake"@ || ext == "gemspec"@ {
        Some(Lang::Rb)
    } else if ext == "coffee"@ || ext == "cjsx"@ {
        Some(Lang::Coffee)
    } else if ext == "md"@ || ext == "markdown"@ || ext == "mdx"@ {
        Some(Lang::Md)
    } else {
        None
    }
}

/// The language of the file at a path.
pub open spec fn lang_at(path: Seq<char>) -> Option<Lang> {
    lang_of_extension(extension(path))
}

impl Lang {
    /// The word a language is stored under.
    pub open spec fn name(self) -> Seq<char> {
        match self {
            Lang::Ts => "ts"@,
            Lang::Tsx => "tsx"@,
            Lang::Js => "js"@,
            Lang::Py => "py"@,
            Lang::Rust => "rust"@,
            Lang::Go => "go"@,
            Lang::Rb => "rb"@,
            Lang::Coffee => "coffee"@,
            Lang::Md => "md"@,
        }
    }

    pub fn from_path(path: &str) -> (r: Option<Lang>)
        ensures
            r == lang_at(path@),
    {
        let parts = text::split_on(path, '.');
        let ext = text::to_lower(parts[parts.len() - 1].as_str());
        assert(text::views(parts@).last() == parts@.last()@);
        let e = ext.as_str();
        if text::eq_str(e, "ts") || text::eq_str(e, "mts") || text::eq_str(e, "cts") {
            Some(Lang::Ts)
        } else if text::eq_str(e, "tsx") {
            Some(Lang::Tsx)
        } else if text::eq_str(e, "js") || text::eq_str(e, "mjs") || text::eq_str(e, "cjs") || text::eq_str(
            e,
            "jsx",
        ) {
            Some(Lang::Js)
        } else if text::eq_str(e, "py") || text::eq_str(e, "pyi") {
            Some(Lang::Py)
        } else if text::eq_str(e, "rs") {
            Some(Lang::Rust)
        } else if text::eq_str(e, "go") {
            Some(Lang::Go)
        } else if text::eq_str(e, "rb") || text::eq_str(e, "rake") || text::eq_str(e, "gemspec") {
            Some(Lang::Rb)
        } else if text::eq_str(e, "coffee") || text::eq_str(e, "cjsx") {
            Some(Lang::Coffee)
        } else if text::eq_str(e, "md") || text::eq_str(e, "markdown") || text::eq_str(e, "mdx") {
            Some(Lang::Md)
        } else {
            None
        }
    }

    pub fn as_str(self) -> (r: &'static str)
        ensures
            r@ == self.name(),
    {
        match self {
            Lang::Ts => "ts",
            Lang::Tsx => "tsx",
            Lang::Js => "js",
            Lang::Py => "py",
            Lang::Rust => "rust",
            Lang::Go => "go",
            Lang::Rb => "rb",
            Lang::Coffee => "coffee",
            Lang::Md => "md",
        }
    }

    pub fn parse_str(s: &str) -> (r: Option<Lang>)
        ensures
            match r {
                Some(l) => l.name() == s@,
                None => forall|l: Lang| #[trigger] l.name() != s@,
            },
    {
        if text::eq_str(s, "ts") {
            Some(Lang::Ts)
        } else if text::eq_str(s, "tsx") {
            Some(Lang::Tsx)
        } else if text::eq_str(s, "js") {
            Some(Lang::Js)
        } else if text::eq_str(s, "py") {
            Some(Lang::Py)
        } else if text::eq_str(s, "rust") {
            Some(Lang::Rust)
        } else if text::eq_str(s, "go") {
            Some(Lang::Go)
        } else if text::eq_str(s, "rb") {
            Some(Lang::Rb)
        } else if text::eq_str(s, "coffee") {
            Some(Lang::Coffee)
        } else if text::eq_str(s, "md") {
            Some(Lang::Md)
        } else {
            None
        }
    }

    pub fn is_doc(self) -> (r: bool)
        ensures
            r == (self == Lang::Md),
    {
        match self {
            Lang::Md => true,
            _ => false,
        }
    }
}

/// Law: the stored word of a language names it alone, so a stored language is
/// read back as it was.
pub proof fn lang_names_identify(a: Lang, b: Lang)
    ensures
        a.name() == b.name() ==> a == b,
{
    reveal_strlit("ts");
    reveal_strlit("tsx");
    reveal_strlit("js");
    reveal_strlit("py");
    reveal_strlit("rust");
    reveal_strlit("go");
    reveal_strlit("rb");
    reveal_strlit("coffee");
    reveal_strlit("md");
    assert("ts"@.len() == 2 && "tsx"@.len() == 3 && "js"@.len() == 2 && "py"@.len() == 2 && "rust"@.len() == 4
        && "go"@.len() == 2 && "rb"@.len() == 2 && "coffee"@.len() == 6 && "md"@.len() == 2);
    assert("ts"@[0] == 't' && "js"@[0] == 'j' && "py"@[0] == 'p' && "go"@[0] == 'g' && "rb"@[0] == 'r' && "md"@[0]
        == 'm');
}

/// `s` ends with one of two characters.
pub open spec fn ends_in(s: Seq<char>, a: char, b: char) -> bool {
    s.len() > 0 && (s.last() == a || s.last() == b)
}

/// A line, without the white space at its front, that reads as an import.
pub open spec fn import_shaped(lang: Option<Lang>, l: Seq<char>) -> bool {
    let back = text::trim_back(l, true, Seq::empty());
    match lang {
        Some(Lang::Ts) | Some(Lang::Tsx) | Some(Lang::Js) => {
            ||| text::has_prefix(l, "import "@)
            ||| text::has_prefix(l, "import{"@)
            ||| text::has_prefix(l, "} from "@)
            ||| (text::has_prefix(l, "export "@) && text::has_infix(l, " from "@))
            ||| text::has_infix(l, "require("@)
            ||| (ends_in(back, ',', ';') && text::has_infix(l, " from "@))
        },
        Some(Lang::Py) => text::has_prefix(l, "import "@) || text::has_prefix(l, "from "@),
        Some(Lang::Rust) => {
            ||| text::has_prefix(l, "use "@)
            ||| text::has_prefix(l, "pub use "@)
            ||| text::has_prefix(l, "pub(crate) use "@)
            ||| text::has_prefix(l, "extern crate "@)
            ||| (text::has_prefix(l, "mod "@) && ends_in(back, ';', ';'))
        },
        Some(Lang::Go) => {
            ||| text::has_prefix(l, "import "@)
            ||| (text::has_prefix(l, "\""@) && ends_in(back, '"', '"'))
        },
        Some(Lang::Rb) => {
            ||| text::has_prefix(l, "require "@)
            ||| text::has_prefix(l, "require("@)
            ||| text::has_prefix(l, "require_relative "@)
            ||| text::has_prefix(l, "require_relative("@)
            ||| text::has_prefix(l, "load "@)
            ||| text::has_prefix(l, "autoload "@)
        },
        Some(Lang::Coffee) => {
            ||| text::has_prefix(l, "import "@)
            ||| (text::has_prefix(l, "export "@) && text::has_infix(l, " from "@))
            ||| text::has_infix(l, "require("@)
            ||| text::has_infix(l, "require '"@)
            ||| text::has_infix(l, "require \""@)
        },
        Some(Lang::Md) => false,
        None => false,
    }
}

/// A changed line that looks like an import line for its language.
pub open spec fn import_line(lang: Option<Lang>, line: Seq<char>) -> bool {
    let l = text::trim_front(line, true, Seq::empty());
    l.len() > 0 && import_shaped(lang, l)
}

fn last_is(s: &str, a: char, b: char) -> (r: bool)
    ensures
        r == ends_in(s@, a, b),
{
    let v = text::to_chars(s);
    v.len() > 0 && (v[v.len() - 1] == a || v[v.len() - 1] == b)
}

/// Does a changed line look like an import line for this language?
/// Used for the mechanical-churn classifier.
pub fn is_import_line(lang: Option<Lang>, line: &str) -> (r: bool)
    ensures
        r == import_line(lang, line@),
{
    let trimmed = text::trim_start(line);
    let l = trimmed.as_str();
    if l.unicode_len() == 0 {
        return false;
    }
    let back = text::trim_end(l);
    match lang {
        Some(Lang::Ts) | Some(Lang::Tsx) | Some(Lang::Js) => {
            text::starts_with(l, "import ") || text::starts_with(l, "import{") || text::starts_with(l, "} from ") || (
            text::starts_with(l, "export ") && text::contains_text(l, " from ")) || text::contains_text(l, "require(")
                || (last_is(back.as_str(), ',', ';') && text::contains_text(l, " from "))
        },
        Some(Lang::Py) => text::starts_with(l, "import ") || text::starts_with(l, "from "),
        Some(Lang::Rust) => {
            text::starts_with(l, "use ") || text::starts_with(l, "pub use ") || text::starts_with(
                l,
                "pub(crate) use ",
            ) || text::starts_with(l, "extern crate ") || (text::starts_with(l, "mod ") && last_is(
                back.as_str(),
                ';',
                ';',
            ))
        },
        Some(Lang::Go) => {
            text::starts_with(l, "import ") || (text::starts_with(l, "\"") && last_is(back.as_str(), '"', '"'))
        },
        Some(Lang::Rb) => {
            text::starts_with(l, "require ") || text::starts_with(l, "require(") || text::starts_with(
                l,
                "require_relative ",
            ) || text::starts_with(l, "require_relative(") || text::starts_with(l, "load ") || text::starts_with(
                l,
                "autoload ",
            )
        },
        Some(Lang::Coffee) => {
            text::starts_with(l, "import ") || (text::starts_with(l, "export ") && text::contains_text(l, " from "))
                || text::contains_text(l, "require(") || text::contains_text(l, "require '") || text::contains_text(
                l,
                "require \"",
            )
        },
        Some(Lang::Md) => false,
        None => false,
    }
}

} // verus!
