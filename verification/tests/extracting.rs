use palimpsest::coffee::comment_line;
use palimpsest::extract::{extract, is_top_level_declarator, trim_quotes};
use palimpsest::lang::Lang;
use palimpsest::rust_use::{expand_rust_use, split_top_level};

#[test]
fn queries_compile() {
    for lang in [Lang::Ts, Lang::Tsx, Lang::Js, Lang::Py, Lang::Rust, Lang::Go, Lang::Rb] {
        assert!(lang.query().is_some(), "query failed for {}", lang.as_str());
    }
}

#[test]
fn languages_without_a_grammar_have_no_query() {
    assert!(Lang::Coffee.query().is_none());
    assert!(Lang::Md.query().is_none());
}

#[test]
fn ts_imports_and_defs() {
    let src = br#"
import { Frame } from "./frame";
import Codec from "../codec";
export * from "./reexported";
const helper = require("./helper");

export interface Encoder { frame(): Frame }
export function encode(f: Frame): Codec { return transform(f); }
const TOP = 1;
function inner() { const local = 2; }
"#;
    let p = extract(Lang::Ts, &src.to_vec());
    let specs: Vec<&str> = p.imports.iter().map(|i| i.spec.as_str()).collect();
    assert!(specs.contains(&"./frame"));
    assert!(specs.contains(&"../codec"));
    assert!(specs.contains(&"./reexported"));
    assert!(specs.contains(&"./helper"));
    assert!(p.imports.iter().any(|i| i.reexport && i.spec == "./reexported"));
    let defs: Vec<&str> = p.defs.iter().map(|d| d.name.as_str()).collect();
    assert!(defs.contains(&"Encoder"));
    assert!(defs.contains(&"encode"));
    assert!(defs.contains(&"TOP"));
    assert!(!defs.contains(&"local"));
    assert!(p.calls.contains(&"transform".to_string()));
    assert!(p.type_refs.contains(&"Frame".to_string()));
}

#[test]
fn rust_use_expansion() {
    let out = expand_rust_use("pub use crate::a::{b, c::d};");
    let paths: Vec<&str> = out.iter().map(|(p, _)| p.as_str()).collect();
    assert_eq!(paths, vec!["crate::a::b", "crate::a::c::d"]);
    assert!(out.iter().all(|(_, re)| *re));
    let plain = expand_rust_use("use super::codec::Codec as C;");
    assert_eq!(plain[0].0, "super::codec::Codec");
    assert!(!plain[0].1);
}

#[test]
fn any_visibility_is_stripped() {
    for decl in [
        "pub use x::y;",
        "pub(crate) use x::y;",
        "pub(super) use x::y;",
        "pub(self) use x::y;",
        "pub(in crate::a) use x::y;",
        "pub (crate) use x::y;",
    ] {
        assert_eq!(expand_rust_use(decl), vec![("x::y".to_string(), true)], "{}", decl);
    }
    assert_eq!(expand_rust_use("use publish::y;"), vec![("publish::y".to_string(), false)]);
}

#[test]
fn nested_use_trees() {
    let out = expand_rust_use("use a::{b::{c, d}, e};");
    let paths: Vec<&str> = out.iter().map(|(p, _)| p.as_str()).collect();
    assert_eq!(paths, vec!["a::b::c", "a::b::d", "a::e"]);
    assert_eq!(split_top_level("b::{c, d}, e"), vec!["b::{c, d}", "e"]);
}

#[test]
fn rust_extraction() {
    let src = br#"
use crate::frame::Frame;
mod codec;

pub struct Encoder { frame: Frame }
pub fn encode(f: &Frame) -> Vec<u8> { helper(f) }
"#;
    let p = extract(Lang::Rust, &src.to_vec());
    let specs: Vec<&str> = p.imports.iter().map(|i| i.spec.as_str()).collect();
    assert!(specs.contains(&"crate::frame::Frame"));
    assert!(specs.contains(&"mod:codec"));
    let defs: Vec<&str> = p.defs.iter().map(|d| d.name.as_str()).collect();
    assert!(defs.contains(&"Encoder"));
    assert!(defs.contains(&"encode"));
    assert!(p.calls.contains(&"helper".to_string()));
    assert!(p.type_refs.contains(&"Frame".to_string()));
}

#[test]
fn python_extraction() {
    let src = br#"
import os
from .frame import Frame
from ..codec import encode_all

class Encoder:
    def encode(self, f):
        return transform(f)
"#;
    let p = extract(Lang::Py, &src.to_vec());
    let specs: Vec<&str> = p.imports.iter().map(|i| i.spec.as_str()).collect();
    assert!(specs.contains(&"os"));
    assert!(specs.contains(&".frame"));
    assert!(specs.contains(&"..codec"));
    let defs: Vec<&str> = p.defs.iter().map(|d| d.name.as_str()).collect();
    assert!(defs.contains(&"Encoder"));
    assert!(defs.contains(&"encode"));
    assert!(p.calls.contains(&"transform".to_string()));
}

#[test]
fn go_extraction() {
    let src = br#"
package main

import (
    "fmt"
    "example.com/mod/internal/frame"
)

type Encoder struct{}

func Encode(f frame.Frame) { fmt.Println(process(f)) }
"#;
    let p = extract(Lang::Go, &src.to_vec());
    let specs: Vec<&str> = p.imports.iter().map(|i| i.spec.as_str()).collect();
    assert!(specs.contains(&"fmt"));
    assert!(specs.contains(&"example.com/mod/internal/frame"));
    let defs: Vec<&str> = p.defs.iter().map(|d| d.name.as_str()).collect();
    assert!(defs.contains(&"Encoder"));
    assert!(defs.contains(&"Encode"));
}

#[test]
fn ruby_extraction() {
    let src = br#"
require "json"
require_relative "frame"
require_relative "../codec/base"

CODEC_VERSION = 2

module Codec
  class Encoder < Base
    def encode(f)
      transform(f)
    end

    def self.build
      new
    end
  end
end
"#;
    let p = extract(Lang::Rb, &src.to_vec());
    let specs: Vec<&str> = p.imports.iter().map(|i| i.spec.as_str()).collect();
    assert!(specs.contains(&"json"));
    assert!(specs.contains(&"rel:frame"));
    assert!(specs.contains(&"rel:../codec/base"));
    let defs: Vec<&str> = p.defs.iter().map(|d| d.name.as_str()).collect();
    assert!(defs.contains(&"Codec"));
    assert!(defs.contains(&"Encoder"));
    assert!(defs.contains(&"encode"));
    assert!(defs.contains(&"build"));
    assert!(defs.contains(&"CODEC_VERSION"));
    assert!(p.calls.contains(&"transform".to_string()));
    assert!(p.type_refs.contains(&"Base".to_string()));
}

#[test]
fn coffee_extraction() {
    let src = br#"
import { Frame, mkFrame } from './frame'
import Codec from '../codec'
export { helper } from './helper'
{parse} = require './parser'
util = require("./util")

### block comment
encoder = -> ignored()
###
# line comment: fake = require './fake'

class Encoder extends BaseCodec
  encode: (f) ->
    transform(f)

toWire = (f) => serialize f

new Registry()
"#;
    let p = extract(Lang::Coffee, &src.to_vec());
    let specs: Vec<&str> = p.imports.iter().map(|i| i.spec.as_str()).collect();
    assert!(specs.contains(&"./frame"));
    assert!(specs.contains(&"../codec"));
    assert!(specs.contains(&"./helper"));
    assert!(specs.contains(&"./parser"));
    assert!(specs.contains(&"./util"));
    assert!(!specs.contains(&"./fake"));
    assert!(p.imports.iter().any(|i| i.reexport && i.spec == "./helper"));
    let names: Vec<&str> = p.imports.iter().flat_map(|i| i.names.iter().map(|n| n.as_str())).collect();
    assert!(names.contains(&"Frame"));
    assert!(names.contains(&"mkFrame"));
    assert!(names.contains(&"Codec"));
    assert!(names.contains(&"parse"));
    let defs: Vec<&str> = p.defs.iter().map(|d| d.name.as_str()).collect();
    assert!(defs.contains(&"Encoder"));
    assert!(defs.contains(&"encode"));
    assert!(defs.contains(&"toWire"));
    assert!(!defs.contains(&"encoder"), "block comment not skipped");
    assert!(p.calls.contains(&"transform".to_string()));
    assert!(p.type_refs.contains(&"BaseCodec".to_string()));
    assert!(p.type_refs.contains(&"Registry".to_string()));
}

#[test]
fn coffee_comment_state() {
    assert_eq!(comment_line(false, "x = 1"), (false, false));
    assert_eq!(comment_line(false, "# note"), (true, false));
    assert_eq!(comment_line(false, "### open"), (true, true));
    assert_eq!(comment_line(false, "### one line ###"), (true, false));
    assert_eq!(comment_line(true, "anything"), (true, true));
    assert_eq!(comment_line(true, "###"), (true, false));
}

#[test]
fn markdown_extraction() {
    let src = br#"
# Auth

See [the auth module](../src/auth.ts) and [docs](https://example.com/x).
Call `verify_token()` before `src/session.ts` logic.
"#;
    let p = extract(Lang::Md, &src.to_vec());
    assert!(p.doc_links.contains(&"../src/auth.ts".to_string()));
    assert!(p.doc_links.contains(&"src/session.ts".to_string()));
    assert!(p.doc_tokens.contains(&"verify_token".to_string()));
    assert!(!p.doc_links.iter().any(|l| l.contains("example.com")));
}

#[test]
fn quotes_are_trimmed() {
    assert_eq!(trim_quotes("\"./a\""), "./a");
    assert_eq!(trim_quotes("'./a'"), "./a");
    assert_eq!(trim_quotes("./a"), "./a");
}

#[test]
fn only_top_level_declarations_count() {
    let outer = |s: &[&str]| s.iter().map(|x| x.to_string()).collect::<Vec<String>>();
    assert!(is_top_level_declarator(&outer(&["lexical_declaration", "program"])));
    assert!(is_top_level_declarator(&outer(&["lexical_declaration", "export_statement", "program"])));
    assert!(!is_top_level_declarator(&outer(&[
        "lexical_declaration",
        "statement_block",
        "function_declaration",
        "program"
    ])));
}

#[test]
fn bytes_that_are_no_text_are_read_as_far_as_they_are() {
    let mut src = b"import a from './a';\n".to_vec();
    src.push(0xff);
    src.push(0xfe);
    let p = extract(Lang::Ts, &src);
    assert!(p.imports.iter().any(|i| i.spec == "./a"));
    let mut md = b"see `src/session.ts` ".to_vec();
    md.push(0xff);
    let p = extract(Lang::Md, &md);
    assert!(p.doc_links.contains(&"src/session.ts".to_string()));
}

#[test]
fn parse_results_are_tidy() {
    let src = "import a from './a';\nimport a2 from './a';\nexport function foo() {}\nfunction foo() {}\nzeta();\nalpha();\nzeta();\nfoo();\n";
    let p = extract(Lang::Js, &src.as_bytes().to_vec());
    assert_eq!(p.calls, vec!["alpha", "zeta"]);
    assert_eq!(p.defs.iter().filter(|d| d.name == "foo").count(), 1);
    assert_eq!(p.imports.len(), 1);
    let many: String = (0..500).map(|i| format!("export function f{i:04}() {{}}\n")).collect();
    assert_eq!(extract(Lang::Js, &many.into_bytes()).defs.len(), 400);
}

#[test]
fn a_definition_in_the_file_is_no_foreign_call() {
    let src = b"function helper() {}\nfunction main() { helper(); other(); }\n".to_vec();
    let p = extract(Lang::Js, &src);
    assert!(!p.calls.contains(&"helper".to_string()));
    assert!(p.calls.contains(&"other".to_string()));
}
