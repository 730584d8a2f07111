//! What languages and import lines look like, over all paths and lines.

use crate::lang;
use crate::lang::Lang;
use crate::text;
use vstd::prelude::*;

verus! {

/// The path of a file with an ending.
pub open spec fn ending(stem: Seq<char>, ext: Seq<char>) -> Seq<char> {
    stem + "."@ + ext
}

proof fn lemma_ending(stem: Seq<char>, ext: Seq<char>)
    requires
        !ext.contains('.'),
        forall|i: int| 0 <= i < ext.len() ==> !('A' <= #[trigger] ext[i] && ext[i] <= 'Z'),
    ensures
        lang::extension(ending(stem, ext)) == ext,
{
    reveal_strlit(".");
    assert(stem + "."@ =~= stem.push('.'));
    text::lemma_split_append(stem, '.', ext);
    assert(text::lower(ext) =~= ext);
}

/// Law: the ending of a path tells its language, whatever stands before it.
pub proof fn endings_tell_languages(stem: Seq<char>)
    ensures
        lang::lang_at(ending(stem, "ts"@)) == Some(Lang::Ts),
        lang::lang_at(ending(stem, "mts"@)) == Some(Lang::Ts),
        lang::lang_at(ending(stem, "cts"@)) == Some(Lang::Ts),
        lang::lang_at(ending(stem, "tsx"@)) == Some(Lang::Tsx),
        lang::lang_at(ending(stem, "js"@)) == Some(Lang::Js),
        lang::lang_at(ending(stem, "mjs"@)) == Some(Lang::Js),
        lang::lang_at(ending(stem, "cjs"@)) == Some(Lang::Js),
        lang::lang_at(ending(stem, "jsx"@)) == Some(Lang::Js),
        lang::lang_at(ending(stem, "py"@)) == Some(Lang::Py),
        lang::lang_at(ending(stem, "pyi"@)) == Some(Lang::Py),
        lang::lang_at(ending(stem, "rs"@)) == Some(Lang::Rust),
        lang::lang_at(ending(stem, "go"@)) == Some(Lang::Go),
        lang::lang_at(ending(stem, "rb"@)) == Some(Lang::Rb),
        lang::lang_at(ending(stem, "rake"@)) == Some(Lang::Rb),
        lang::lang_at(ending(stem, "gemspec"@)) == Some(Lang::Rb),
        lang::lang_at(ending(stem, "coffee"@)) == Some(Lang::Coffee),
        lang::lang_at(ending(stem, "cjsx"@)) == Some(Lang::Coffee),
        lang::lang_at(ending(stem, "md"@)) == Some(Lang::Md),
        lang::lang_at(ending(stem, "markdown"@)) == Some(Lang::Md),
        lang::lang_at(ending(stem, "mdx"@)) == Some(Lang::Md),
{
    lemma_endings_differ();
    reveal_strlit("ts");
    lemma_ending(stem, "ts"@);
    reveal_strlit("mts");
    lemma_ending(stem, "mts"@);
    reveal_strlit("cts");
    lemma_ending(stem, "cts"@);
    reveal_strlit("tsx");
    lemma_ending(stem, "tsx"@);
    reveal_strlit("js");
    lemma_ending(stem, "js"@);
    reveal_strlit("mjs");
    lemma_ending(stem, "mjs"@);
    reveal_strlit("cjs");
    lemma_ending(stem, "cjs"@);
    reveal_strlit("jsx");
    lemma_ending(stem, "jsx"@);
    reveal_strlit("py");
    lemma_ending(stem, "py"@);
    reveal_strlit("pyi");
    lemma_ending(stem, "pyi"@);
    reveal_strlit("rs");
    lemma_ending(stem, "rs"@);
    reveal_strlit("go");
    lemma_ending(stem, "go"@);
    reveal_strlit("rb");
    lemma_ending(stem, "rb"@);
    reveal_strlit("rake");
    lemma_ending(stem, "rake"@);
    reveal_strlit("gemspec");
    lemma_ending(stem, "gemspec"@);
    reveal_strlit("coffee");
    lemma_ending(stem, "coffee"@);
    reveal_strlit("cjsx");
    lemma_ending(stem, "cjsx"@);
    reveal_strlit("md");
    lemma_ending(stem, "md"@);
    reveal_strlit("markdown");
    lemma_ending(stem, "markdown"@);
    reveal_strlit("mdx");
    lemma_ending(stem, "mdx"@);
}

/// No two of the endings are one text.
proof fn lemma_endings_differ()
    ensures
        "tsx"@ != "ts"@,
        "tsx"@ != "mts"@,
        "tsx"@ != "cts"@,
        "js"@ != "ts"@,
        "js"@ != "mts"@,
        "js"@ != "cts"@,
        "js"@ != "tsx"@,
        "mjs"@ != "ts"@,
        "mjs"@ != "mts"@,
        "mjs"@ != "cts"@,
        "mjs"@ != "tsx"@,
        "cjs"@ != "ts"@,
        "cjs"@ != "mts"@,
        "cjs"@ != "cts"@,
        "cjs"@ != "tsx"@,
        "jsx"@ != "ts"@,
        "jsx"@ != "mts"@,
        "jsx"@ != "cts"@,
        "jsx"@ != "tsx"@,
        "py"@ != "ts"@,
        "py"@ != "mts"@,
        "py"@ != "cts"@,
        "py"@ != "tsx"@,
        "py"@ != "js"@,
        "py"@ != "mjs"@,
        "py"@ != "cjs"@,
        "py"@ != "jsx"@,
        "pyi"@ != "ts"@,
        "pyi"@ != "mts"@,
        "pyi"@ != "cts"@,
        "pyi"@ != "tsx"@,
        "pyi"@ != "js"@,
        "pyi"@ != "mjs"@,
        "pyi"@ != "cjs"@,
        "pyi"@ != "jsx"@,
        "rs"@ != "ts"@,
        "rs"@ != "mts"@,
        "rs"@ != "cts"@,
        "rs"@ != "tsx"@,
        "rs"@ != "js"@,
        "rs"@ != "mjs"@,
        "rs"@ != "cjs"@,
        "rs"@ != "jsx"@,
        "rs"@ != "py"@,
        "rs"@ != "pyi"@,
        "go"@ != "ts"@,
        "go"@ != "mts"@,
        "go"@ != "cts"@,
        "go"@ != "tsx"@,
        "go"@ != "js"@,
        "go"@ != "mjs"@,
        "go"@ != "cjs"@,
        "go"@ != "jsx"@,
        "go"@ != "py"@,
        "go"@ != "pyi"@,
        "go"@ != "rs"@,
        "rb"@ != "ts"@,
        "rb"@ != "mts"@,
        "rb"@ != "cts"@,
        "rb"@ != "tsx"@,
        "rb"@ != "js"@,
        "rb"@ != "mjs"@,
        "rb"@ != "cjs"@,
        "rb"@ != "jsx"@,
        "rb"@ != "py"@,
        "rb"@ != "pyi"@,
        "rb"@ != "rs"@,
        "rb"@ != "go"@,
        "rake"@ != "ts"@,
        "rake"@ != "mts"@,
        "rake"@ != "cts"@,
        "rake"@ != "tsx"@,
        "rake"@ != "js"@,
        "rake"@ != "mjs"@,
        "rake"@ != "cjs"@,
        "rake"@ != "jsx"@,
        "rake"@ != "py"@,
        "rake"@ != "pyi"@,
        "rake"@ != "rs"@,
        "rake"@ != "go"@,
        "gemspec"@ != "ts"@,
        "gemspec"@ != "mts"@,
        "gemspec"@ != "cts"@,
        "gemspec"@ != "tsx"@,
        "gemspec"@ != "js"@,
        "gemspec"@ != "mjs"@,
        "gemspec"@ != "cjs"@,
        "gemspec"@ != "jsx"@,
        "gemspec"@ != "py"@,
        "gemspec"@ != "pyi"@,
        "gemspec"@ != "rs"@,
        "gemspec"@ != "go"@,
        "coffee"@ != "ts"@,
        "coffee"@ != "mts"@,
        "coffee"@ != "cts"@,
        "coffee"@ != "tsx"@,
        "coffee"@ != "js"@,
        "coffee"@ != "mjs"@,
        "coffee"@ != "cjs"@,
        "coffee"@ != "jsx"@,
        "coffee"@ != "py"@,
        "coffee"@ != "pyi"@,
        "coffee"@ != "rs"@,
        "coffee"@ != "go"@,
        "coffee"@ != "rb"@,
        "coffee"@ != "rake"@,
        "coffee"@ != "gemspec"@,
        "cjsx"@ != "ts"@,
        "cjsx"@ != "mts"@,
        "cjsx"@ != "cts"@,
        "cjsx"@ != "tsx"@,
        "cjsx"@ != "js"@,
        "cjsx"@ != "mjs"@,
        "cjsx"@ != "cjs"@,
        "cjsx"@ != "jsx"@,
        "cjsx"@ != "py"@,
        "cjsx"@ != "pyi"@,
        "cjsx"@ != "rs"@,
        "cjsx"@ != "go"@,
        "cjsx"@ != "rb"@,
        "cjsx"@ != "rake"@,
        "cjsx"@ != "gemspec"@,
        "md"@ != "ts"@,
        "md"@ != "mts"@,
        "md"@ != "cts"@,
        "md"@ != "tsx"@,
        "md"@ != "js"@,
        "md"@ != "mjs"@,
        "md"@ != "cjs"@,
        "md"@ != "jsx"@,
        "md"@ != "py"@,
        "md"@ != "pyi"@,
        "md"@ != "rs"@,
        "md"@ != "go"@,
        "md"@ != "rb"@,
        "md"@ != "rake"@,
        "md"@ != "gemspec"@,
        "md"@ != "coffee"@,
        "md"@ != "cjsx"@,
        "markdown"@ != "ts"@,
        "markdown"@ != "mts"@,
        "markdown"@ != "cts"@,
        "markdown"@ != "tsx"@,
        "markdown"@ != "js"@,
        "markdown"@ != "mjs"@,
        "markdown"@ != "cjs"@,
        "markdown"@ != "jsx"@,
        "markdown"@ != "py"@,
        "markdown"@ != "pyi"@,
        "markdown"@ != "rs"@,
        "markdown"@ != "go"@,
        "markdown"@ != "rb"@,
        "markdown"@ != "rake"@,
        "markdown"@ != "gemspec"@,
        "markdown"@ != "coffee"@,
        "markdown"@ != "cjsx"@,
        "mdx"@ != "ts"@,
        "mdx"@ != "mts"@,
        "mdx"@ != "cts"@,
        "mdx"@ != "tsx"@,
        "mdx"@ != "js"@,
        "mdx"@ != "mjs"@,
        "mdx"@ != "cjs"@,
        "mdx"@ != "jsx"@,
        "mdx"@ != "py"@,
        "mdx"@ != "pyi"@,
        "mdx"@ != "rs"@,
        "mdx"@ != "go"@,
        "mdx"@ != "rb"@,
        "mdx"@ != "rake"@,
        "mdx"@ != "gemspec"@,
        "mdx"@ != "coffee"@,
        "mdx"@ != "cjsx"@,
{
    reveal_strlit("ts");
    reveal_strlit("mts");
    reveal_strlit("cts");
    reveal_strlit("tsx");
    reveal_strlit("js");
    reveal_strlit("mjs");
    reveal_strlit("cjs");
    reveal_strlit("jsx");
    reveal_strlit("py");
    reveal_strlit("pyi");
    reveal_strlit("rs");
    reveal_strlit("go");
    reveal_strlit("rb");
    reveal_strlit("rake");
    reveal_strlit("gemspec");
    reveal_strlit("coffee");
    reveal_strlit("cjsx");
    reveal_strlit("md");
    reveal_strlit("markdown");
    reveal_strlit("mdx");
    assert("tsx"@.len() != "ts"@.len());
    assert("tsx"@[0] != "mts"@[0]);
    assert("tsx"@[0] != "cts"@[0]);
    assert("js"@[0] != "ts"@[0]);
    assert("js"@.len() != "mts"@.len());
    assert("js"@.len() != "cts"@.len());
    assert("js"@.len() != "tsx"@.len());
    assert("mjs"@.len() != "ts"@.len());
    assert("mjs"@[1] != "mts"@[1]);
    assert("mjs"@[0] != "cts"@[0]);
    assert("mjs"@[0] != "tsx"@[0]);
    assert("cjs"@.len() != "ts"@.len());
    assert("cjs"@[0] != "mts"@[0]);
    assert("cjs"@[1] != "cts"@[1]);
    assert("cjs"@[0] != "tsx"@[0]);
    assert("jsx"@.len() != "ts"@.len());
    assert("jsx"@[0] != "mts"@[0]);
    assert("jsx"@[0] != "cts"@[0]);
    assert("jsx"@[0] != "tsx"@[0]);
    assert("py"@[0] != "ts"@[0]);
    assert("py"@.len() != "mts"@.len());
    assert("py"@.len() != "cts"@.len());
    assert("py"@.len() != "tsx"@.len());
    assert("py"@[0] != "js"@[0]);
    assert("py"@.len() != "mjs"@.len());
    assert("py"@.len() != "cjs"@.len());
    assert("py"@.len() != "jsx"@.len());
    assert("pyi"@.len() != "ts"@.len());
    assert("pyi"@[0] != "mts"@[0]);
    assert("pyi"@[0] != "cts"@[0]);
    assert("pyi"@[0] != "tsx"@[0]);
    assert("pyi"@.len() != "js"@.len());
    assert("pyi"@[0] != "mjs"@[0]);
    assert("pyi"@[0] != "cjs"@[0]);
    assert("pyi"@[0] != "jsx"@[0]);
    assert("rs"@[0] != "ts"@[0]);
    assert("rs"@.len() != "mts"@.len());
    assert("rs"@.len() != "cts"@.len());
    assert("rs"@.len() != "tsx"@.len());
    assert("rs"@[0] != "js"@[0]);
    assert("rs"@.len() != "mjs"@.len());
    assert("rs"@.len() != "cjs"@.len());
    assert("rs"@.len() != "jsx"@.len());
    assert("rs"@[0] != "py"@[0]);
    assert("rs"@.len() != "pyi"@.len());
    assert("go"@[0] != "ts"@[0]);
    assert("go"@.len() != "mts"@.len());
    assert("go"@.len() != "cts"@.len());
    assert("go"@.len() != "tsx"@.len());
    assert("go"@[0] != "js"@[0]);
    assert("go"@.len() != "mjs"@.len());
    assert("go"@.len() != "cjs"@.len());
    assert("go"@.len() != "jsx"@.len());
    assert("go"@[0] != "py"@[0]);
    assert("go"@.len() != "pyi"@.len());
    assert("go"@[0] != "rs"@[0]);
    assert("rb"@[0] != "ts"@[0]);
    assert("rb"@.len() != "mts"@.len());
    assert("rb"@.len() != "cts"@.len());
    assert("rb"@.len() != "tsx"@.len());
    assert("rb"@[0] != "js"@[0]);
    assert("rb"@.len() != "mjs"@.len());
    assert("rb"@.len() != "cjs"@.len());
    assert("rb"@.len() != "jsx"@.len());
    assert("rb"@[0] != "py"@[0]);
    assert("rb"@.len() != "pyi"@.len());
    assert("rb"@[1] != "rs"@[1]);
    assert("rb"@[0] != "go"@[0]);
    assert("rake"@.len() != "ts"@.len());
    assert("rake"@.len() != "mts"@.len());
    assert("rake"@.len() != "cts"@.len());
    assert("rake"@.len() != "tsx"@.len());
    assert("rake"@.len() != "js"@.len());
    assert("rake"@.len() != "mjs"@.len());
    assert("rake"@.len() != "cjs"@.len());
    assert("rake"@.len() != "jsx"@.len());
    assert("rake"@.len() != "py"@.len());
    assert("rake"@.len() != "pyi"@.len());
    assert("rake"@.len() != "rs"@.len());
    assert("rake"@.len() != "go"@.len());
    assert("gemspec"@.len() != "ts"@.len());
    assert("gemspec"@.len() != "mts"@.len());
    assert("gemspec"@.len() != "cts"@.len());
    assert("gemspec"@.len() != "tsx"@.len());
    assert("gemspec"@.len() != "js"@.len());
    assert("gemspec"@.len() != "mjs"@.len());
    assert("gemspec"@.len() != "cjs"@.len());
    assert("gemspec"@.len() != "jsx"@.len());
    assert("gemspec"@.len() != "py"@.len());
    assert("gemspec"@.len() != "pyi"@.len());
    assert("gemspec"@.len() != "rs"@.len());
    assert("gemspec"@.len() != "go"@.len());
    assert("coffee"@.len() != "ts"@.len());
    assert("coffee"@.len() != "mts"@.len());
    assert("coffee"@.len() != "cts"@.len());
    assert("coffee"@.len() != "tsx"@.len());
    assert("coffee"@.len() != "js"@.len());
    assert("coffee"@.len() != "mjs"@.len());
    assert("coffee"@.len() != "cjs"@.len());
    assert("coffee"@.len() != "jsx"@.len());
    assert("coffee"@.len() != "py"@.len());
    assert("coffee"@.len() != "pyi"@.len());
    assert("coffee"@.len() != "rs"@.len());
    assert("coffee"@.len() != "go"@.len());
    assert("coffee"@.len() != "rb"@.len());
    assert("coffee"@.len() != "rake"@.len());
    assert("coffee"@.len() != "gemspec"@.len());
    assert("cjsx"@.len() != "ts"@.len());
    assert("cjsx"@.len() != "mts"@.len());
    assert("cjsx"@.len() != "cts"@.len());
    assert("cjsx"@.len() != "tsx"@.len());
    assert("cjsx"@.len() != "js"@.len());
    assert("cjsx"@.len() != "mjs"@.len());
    assert("cjsx"@.len() != "cjs"@.len());
    assert("cjsx"@.len() != "jsx"@.len());
    assert("cjsx"@.len() != "py"@.len());
    assert("cjsx"@.len() != "pyi"@.len());
    assert("cjsx"@.len() != "rs"@.len());
    assert("cjsx"@.len() != "go"@.len());
    assert("cjsx"@.len() != "rb"@.len());
    assert("cjsx"@[0] != "rake"@[0]);
    assert("cjsx"@.len() != "gemspec"@.len());
    assert("md"@[0] != "ts"@[0]);
    assert("md"@.len() != "mts"@.len());
    assert("md"@.len() != "cts"@.len());
    assert("md"@.len() != "tsx"@.len());
    assert("md"@[0] != "js"@[0]);
    assert("md"@.len() != "mjs"@.len());
    assert("md"@.len() != "cjs"@.len());
    assert("md"@.len() != "jsx"@.len());
    assert("md"@[0] != "py"@[0]);
    assert("md"@.len() != "pyi"@.len());
    assert("md"@[0] != "rs"@[0]);
    assert("md"@[0] != "go"@[0]);
    assert("md"@[0] != "rb"@[0]);
    assert("md"@.len() != "rake"@.len());
    assert("md"@.len() != "gemspec"@.len());
    assert("md"@.len() != "coffee"@.len());
    assert("md"@.len() != "cjsx"@.len());
    assert("markdown"@.len() != "ts"@.len());
    assert("markdown"@.len() != "mts"@.len());
    assert("markdown"@.len() != "cts"@.len());
    assert("markdown"@.len() != "tsx"@.len());
    assert("markdown"@.len() != "js"@.len());
    assert("markdown"@.len() != "mjs"@.len());
    assert("markdown"@.len() != "cjs"@.len());
    assert("markdown"@.len() != "jsx"@.len());
    assert("markdown"@.len() != "py"@.len());
    assert("markdown"@.len() != "pyi"@.len());
    assert("markdown"@.len() != "rs"@.len());
    assert("markdown"@.len() != "go"@.len());
    assert("markdown"@.len() != "rb"@.len());
    assert("markdown"@.len() != "rake"@.len());
    assert("markdown"@.len() != "gemspec"@.len());
    assert("markdown"@.len() != "coffee"@.len());
    assert("markdown"@.len() != "cjsx"@.len());
    assert("mdx"@.len() != "ts"@.len());
    assert("mdx"@[1] != "mts"@[1]);
    assert("mdx"@[0] != "cts"@[0]);
    assert("mdx"@[0] != "tsx"@[0]);
    assert("mdx"@.len() != "js"@.len());
    assert("mdx"@[1] != "mjs"@[1]);
    assert("mdx"@[0] != "cjs"@[0]);
    assert("mdx"@[0] != "jsx"@[0]);
    assert("mdx"@.len() != "py"@.len());
    assert("mdx"@[0] != "pyi"@[0]);
    assert("mdx"@.len() != "rs"@.len());
    assert("mdx"@.len() != "go"@.len());
    assert("mdx"@.len() != "rb"@.len());
    assert("mdx"@.len() != "rake"@.len());
    assert("mdx"@.len() != "gemspec"@.len());
    assert("mdx"@.len() != "coffee"@.len());
    assert("mdx"@.len() != "cjsx"@.len());
}

/// Law: a path with another ending has no language, and neither has one whose
/// dots have no such ending behind them.
pub proof fn other_endings_have_none(path: Seq<char>)
    requires
        text::lower(text::split(path, '.').last()) != "ts"@,
        text::lower(text::split(path, '.').last()) != "mts"@,
        text::lower(text::split(path, '.').last()) != "cts"@,
        text::lower(text::split(path, '.').last()) != "tsx"@,
        text::lower(text::split(path, '.').last()) != "js"@,
        text::lower(text::split(path, '.').last()) != "mjs"@,
        text::lower(text::split(path, '.').last()) != "cjs"@,
        text::lower(text::split(path, '.').last()) != "jsx"@,
        text::lower(text::split(path, '.').last()) != "py"@,
        text::lower(text::split(path, '.').last()) != "pyi"@,
        text::lower(text::split(path, '.').last()) != "rs"@,
        text::lower(text::split(path, '.').last()) != "go"@,
        text::lower(text::split(path, '.').last()) != "rb"@,
        text::lower(text::split(path, '.').last()) != "rake"@,
        text::lower(text::split(path, '.').last()) != "gemspec"@,
        text::lower(text::split(path, '.').last()) != "coffee"@,
        text::lower(text::split(path, '.').last()) != "cjsx"@,
        text::lower(text::split(path, '.').last()) != "md"@,
        text::lower(text::split(path, '.').last()) != "markdown"@,
        text::lower(text::split(path, '.').last()) != "mdx"@,
    ensures
        lang::lang_at(path) is None,
{
}

/// Law: white space in front of a line does not change what it is.
pub proof fn indenting_changes_nothing(lang: Option<Lang>, line: Seq<char>, c: char)
    requires
        text::is_white(c),
    ensures
        lang::import_line(lang, seq![c] + line) == lang::import_line(lang, line),
{
    let l = seq![c] + line;
    assert(l.drop_first() =~= line);
}

proof fn lemma_starts(kw: Seq<char>, rest: Seq<char>)
    requires
        kw.len() > 0,
        !text::is_white(kw[0]),
    ensures
        text::has_prefix(kw + rest, kw),
        text::trim_front(kw + rest, true, Seq::empty()) == kw + rest,
        (kw + rest).len() > 0,
{
    assert((kw + rest).take(kw.len() as int) =~= kw);
    assert((kw + rest)[0] == kw[0]);
}

proof fn lemma_holds(front: Seq<char>, kw: Seq<char>, back: Seq<char>)
    ensures
        text::has_infix(front + kw + back, kw),
{
    let s = front + kw + back;
    assert(s.subrange(front.len() as int, (front.len() + kw.len()) as int) =~= kw);
    assert(text::occurs_at(s, kw, front.len() as int));
}

/// Law: a line that starts as imports do in its language is an import line,
/// whatever follows.
pub proof fn imports_are_recognized(rest: Seq<char>)
    ensures
        lang::import_line(Some(Lang::Ts), "import "@ + rest),
        lang::import_line(Some(Lang::Ts), "import{"@ + rest),
        lang::import_line(Some(Lang::Ts), "} from "@ + rest),
        lang::import_line(Some(Lang::Tsx), "import "@ + rest),
        lang::import_line(Some(Lang::Tsx), "import{"@ + rest),
        lang::import_line(Some(Lang::Tsx), "} from "@ + rest),
        lang::import_line(Some(Lang::Js), "import "@ + rest),
        lang::import_line(Some(Lang::Js), "import{"@ + rest),
        lang::import_line(Some(Lang::Js), "} from "@ + rest),
        lang::import_line(Some(Lang::Py), "import "@ + rest),
        lang::import_line(Some(Lang::Py), "from "@ + rest),
        lang::import_line(Some(Lang::Rust), "use "@ + rest),
        lang::import_line(Some(Lang::Rust), "pub use "@ + rest),
        lang::import_line(Some(Lang::Rust), "pub(crate) use "@ + rest),
        lang::import_line(Some(Lang::Rust), "extern crate "@ + rest),
        lang::import_line(Some(Lang::Go), "import "@ + rest),
        lang::import_line(Some(Lang::Rb), "require "@ + rest),
        lang::import_line(Some(Lang::Rb), "require("@ + rest),
        lang::import_line(Some(Lang::Rb), "require_relative "@ + rest),
        lang::import_line(Some(Lang::Rb), "require_relative("@ + rest),
        lang::import_line(Some(Lang::Rb), "load "@ + rest),
        lang::import_line(Some(Lang::Rb), "autoload "@ + rest),
        lang::import_line(Some(Lang::Coffee), "import "@ + rest),
{
    reveal_strlit("import ");
    lemma_starts("import "@, rest);
    reveal_strlit("import{");
    lemma_starts("import{"@, rest);
    reveal_strlit("} from ");
    lemma_starts("} from "@, rest);
    reveal_strlit("from ");
    lemma_starts("from "@, rest);
    reveal_strlit("use ");
    lemma_starts("use "@, rest);
    reveal_strlit("pub use ");
    lemma_starts("pub use "@, rest);
    reveal_strlit("pub(crate) use ");
    lemma_starts("pub(crate) use "@, rest);
    reveal_strlit("extern crate ");
    lemma_starts("extern crate "@, rest);
    reveal_strlit("require ");
    lemma_starts("require "@, rest);
    reveal_strlit("require(");
    lemma_starts("require("@, rest);
    reveal_strlit("require_relative ");
    lemma_starts("require_relative "@, rest);
    reveal_strlit("require_relative(");
    lemma_starts("require_relative("@, rest);
    reveal_strlit("load ");
    lemma_starts("load "@, rest);
    reveal_strlit("autoload ");
    lemma_starts("autoload "@, rest);
}

/// Law: a module declared in another file is an import line, and so are a
/// re-export from another module and the path of a Go import.
pub proof fn declarations_are_recognized(name: Seq<char>, from: Seq<char>)
    ensures
        lang::import_line(Some(Lang::Rust), "mod "@ + name + ";"@),
        lang::import_line(Some(Lang::Js), "export "@ + name + " from "@ + from),
        lang::import_line(Some(Lang::Ts), "export "@ + name + " from "@ + from),
        lang::import_line(Some(Lang::Tsx), "export "@ + name + " from "@ + from),
        lang::import_line(Some(Lang::Coffee), "export "@ + name + " from "@ + from),
        lang::import_line(Some(Lang::Go), "\""@ + name + "\""@),
{
    reveal_strlit("mod ");
    reveal_strlit(";");
    reveal_strlit("export ");
    reveal_strlit("\"");
    let m = "mod "@ + name + ";"@;
    assert(m =~= "mod "@ + (name + ";"@));
    lemma_starts("mod "@, name + ";"@);
    assert(m.last() == ';');
    assert(!text::is_white(';'));
    assert(text::trim_back(m, true, Seq::empty()) == m);
    let e = "export "@ + name + " from "@ + from;
    assert(e =~= "export "@ + (name + " from "@ + from));
    lemma_starts("export "@, name + " from "@ + from);
    lemma_holds("export "@ + name, " from "@, from);
    let g = "\""@ + name + "\""@;
    assert(g =~= "\""@ + (name + "\""@));
    lemma_starts("\""@, name + "\""@);
    assert(g.last() == '"');
    assert(!text::is_white('"'));
    assert(text::trim_back(g, true, Seq::empty()) == g);
}

/// Law: a require anywhere in a line makes it an import line of JavaScript and
/// CoffeeScript.
pub proof fn requires_are_recognized(front: Seq<char>, back: Seq<char>)
    requires
        front.len() > 0,
        !text::is_white(front[0]),
    ensures
        lang::import_line(Some(Lang::Js), front + "require("@ + back),
        lang::import_line(Some(Lang::Ts), front + "require("@ + back),
        lang::import_line(Some(Lang::Tsx), front + "require("@ + back),
        lang::import_line(Some(Lang::Coffee), front + "require("@ + back),
        lang::import_line(Some(Lang::Coffee), front + "require '"@ + back),
        lang::import_line(Some(Lang::Coffee), front + "require \""@ + back),
{
    lemma_holds(front, "require("@, back);
    lemma_holds(front, "require '"@, back);
    lemma_holds(front, "require \""@, back);
    let a = front + "require("@ + back;
    let b = front + "require '"@ + back;
    let c = front + "require \""@ + back;
    assert(a[0] == front[0] && b[0] == front[0] && c[0] == front[0]);
}

/// Law: a line of code that starts and reads otherwise is no import line, and
/// what has no language or is a document has none.
pub proof fn code_is_no_import(line: Seq<char>)
    requires
        line.len() > 0,
        !text::is_white(line[0]),
    ensures
        !(line[0] == 'u' || line[0] == 'p' || line[0] == 'e' || line[0] == 'm') ==> !lang::import_line(
            Some(Lang::Rust),
            line,
        ),
        !(line[0] == 'i' || line[0] == 'f') ==> !lang::import_line(Some(Lang::Py), line),
        !(line[0] == 'i' || line[0] == '"') ==> !lang::import_line(Some(Lang::Go), line),
        !(line[0] == 'r' || line[0] == 'l' || line[0] == 'a') ==> !lang::import_line(Some(Lang::Rb), line),
        line[0] != 'i' && line[0] != '}' && !text::has_infix(line, " from "@) && !text::has_infix(line, "require("@)
            ==> !lang::import_line(Some(Lang::Js), line) && !lang::import_line(Some(Lang::Ts), line)
            && !lang::import_line(Some(Lang::Tsx), line),
        line[0] != 'i' && !text::has_infix(line, " from "@) && !text::has_infix(line, "require("@) && !text::has_infix(
            line,
            "require '"@,
        ) && !text::has_infix(line, "require \""@) ==> !lang::import_line(Some(Lang::Coffee), line),
        !lang::import_line(Some(Lang::Md), line),
        !lang::import_line(None, line),
{
    reveal_strlit("import ");
    lemma_first(line, "import "@);
    reveal_strlit("import{");
    lemma_first(line, "import{"@);
    reveal_strlit("} from ");
    lemma_first(line, "} from "@);
    reveal_strlit("from ");
    lemma_first(line, "from "@);
    reveal_strlit("use ");
    lemma_first(line, "use "@);
    reveal_strlit("pub use ");
    lemma_first(line, "pub use "@);
    reveal_strlit("pub(crate) use ");
    lemma_first(line, "pub(crate) use "@);
    reveal_strlit("extern crate ");
    lemma_first(line, "extern crate "@);
    reveal_strlit("require ");
    lemma_first(line, "require "@);
    reveal_strlit("require(");
    lemma_first(line, "require("@);
    reveal_strlit("require_relative ");
    lemma_first(line, "require_relative "@);
    reveal_strlit("require_relative(");
    lemma_first(line, "require_relative("@);
    reveal_strlit("load ");
    lemma_first(line, "load "@);
    reveal_strlit("autoload ");
    lemma_first(line, "autoload "@);
    reveal_strlit("mod ");
    lemma_first(line, "mod "@);
    reveal_strlit("\"");
    lemma_first(line, "\""@);
    assert(text::trim_front(line, true, Seq::empty()) == line);
}

proof fn lemma_first(line: Seq<char>, kw: Seq<char>)
    requires
        kw.len() > 0,
    ensures
        text::has_prefix(line, kw) ==> line[0] == kw[0],
{
    if text::has_prefix(line, kw) {
        assert(line.take(kw.len() as int)[0] == line[0]);
    }
}

} // verus!
