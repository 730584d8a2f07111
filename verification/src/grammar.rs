//! tree-sitter: the grammars, the capture queries for each language, and what
//! a query captures in a file. It parses a single file with no build
//! environment, which is the only thing that works on historical checkouts.

use crate::lang::Lang;
use crate::text;
use std::iter::successors;
use tree_sitter::{Parser, QueryCursor, StreamingIterator};
use vstd::prelude::*;

verus! {

#[verifier::external_type_specification]
#[verifier::external_body]
pub struct ExLanguage(tree_sitter::Language);

#[verifier::external_type_specification]
#[verifier::external_body]
pub struct ExQuery(tree_sitter::Query);

/// One capture: the name it has in the query, the text of the node, and the
/// kinds of the node's nearest ancestors, from the parent outward.
#[derive(Debug, Clone, PartialEq)]
pub struct Capture {
    pub name: String,
    pub text: String,
    pub outer: Vec<String>,
}

/// The name, the text and the ancestors' kinds.
impl View for Capture {
    type V = (Seq<char>, Seq<char>, Seq<Seq<char>>);

    open spec fn view(&self) -> (Seq<char>, Seq<char>, Seq<Seq<char>>) {
        (self.name@, self.text@, text::views(self.outer@))
    }
}

pub open spec fn capture_views(s: Seq<Capture>) -> Seq<(Seq<char>, Seq<char>, Seq<Seq<char>>)> {
    s.map_values(|c: Capture| c@)
}

/// Whether the grammar of a language accepts a query.
pub uninterp spec fn query_compiles(lang: Lang, source: Seq<char>) -> bool;

/// What a query captures in a file, match by match: the name, the text and
/// the kinds of the `up` nearest ancestors of each captured node.
pub uninterp spec fn tree_captures(lang: Lang, source: Seq<char>, content: Seq<u8>, up: usize) -> Option<
    Seq<(Seq<char>, Seq<char>, Seq<Seq<char>>)>,
>;

/// Languages that have a grammar.
pub open spec fn has_grammar(lang: Lang) -> bool {
    !(lang is Coffee) && !(lang is Md)
}

/// The grammars of the tree-sitter language crates, as
/// `tree_sitter::Language`. No maintained grammar exists for CoffeeScript;
/// it gets a line-based extractor like Markdown.
#[verifier::external_body]
pub(crate) fn language(lang: Lang) -> (r: Option<tree_sitter::Language>)
    ensures
        r is Some == has_grammar(lang),
{
    match lang {
        Lang::Ts => Some(tree_sitter_typescript::LANGUAGE_TYPESCRIPT.into()),
        Lang::Tsx => Some(tree_sitter_typescript::LANGUAGE_TSX.into()),
        Lang::Js => Some(tree_sitter_javascript::LANGUAGE.into()),
        Lang::Py => Some(tree_sitter_python::LANGUAGE.into()),
        Lang::Rust => Some(tree_sitter_rust::LANGUAGE.into()),
        Lang::Go => Some(tree_sitter_go::LANGUAGE.into()),
        Lang::Rb => Some(tree_sitter_ruby::LANGUAGE.into()),
        Lang::Coffee => None,
        Lang::Md => None,
    }
}

/// `tree_sitter::Query::new` with the grammar of a language: whether it gives
/// a query depends on the language and the source alone. It reads a source by
/// recursion, as deep as its brackets nest, so it is called on the capture
/// queries of this module alone.
#[verifier::external_body]
pub(crate) fn compile_query(lang: Lang, source: &str) -> (r: Option<tree_sitter::Query>)
    requires
        lang.query_text() == Some(source@),
    ensures
        r is Some == (has_grammar(lang) && query_compiles(lang, source@)),
{
    tree_sitter::Query::new(&language(lang)?, source).ok()
}

/// `tree_sitter::QueryCursor::matches` over the tree that
/// `tree_sitter::Parser::parse` makes of a file, and of each captured node its
/// text and its `up` nearest ancestors: a function of the language, the query,
/// the content and `up`. A node whose text is not UTF-8 counts as empty. There is
/// no result where the language has no grammar, the query does not compile or
/// the parser gives no tree. The query is the language's own, as for
/// `compile_query`.
#[verifier::external_body]
pub(crate) fn query_captures(lang: Lang, source: &str, content: &[u8], up: usize) -> (r: Option<Vec<Capture>>)
    requires
        lang.query_text() == Some(source@),
    ensures
        match r {
            Some(c) => tree_captures(lang, source@, content@, up) == Some(capture_views(c@)),
            None => tree_captures(lang, source@, content@, up) is None,
        },
{
    let query = compile_query(lang, source)?;
    let mut parser = Parser::new();
    parser.set_language(&language(lang)?).ok()?;
    let tree = parser.parse(content, None)?;
    let mut out = Vec::new();
    QueryCursor::new().matches(&query, tree.root_node(), content).for_each(|m| out.extend(m.captures.iter().map(|c| Capture {
        name: query.capture_names()[c.index as usize].to_string(),
        text: c.node.utf8_text(content).unwrap_or("").to_string(),
        outer: successors(c.node.parent(), |n| n.parent()).take(up).map(|n| n.kind().to_string()).collect(),
    })));
    Some(out)
}

impl Lang {
    /// The capture query of a language.
    pub open spec fn query_text(self) -> Option<Seq<char>> {
        match self {
            Lang::Ts => Some(TYPESCRIPT_QUERY@),
            Lang::Tsx => Some(TYPESCRIPT_QUERY@),
            Lang::Js => Some(JAVASCRIPT_QUERY@),
            Lang::Py => Some(PYTHON_QUERY@),
            Lang::Rust => Some(RUST_QUERY@),
            Lang::Go => Some(GO_QUERY@),
            Lang::Rb => Some(RUBY_QUERY@),
            Lang::Coffee => None,
            Lang::Md => None,
        }
    }

    pub fn query_source(self) -> (r: Option<&'static str>)
        ensures
            match r {
                Some(s) => self.query_text() == Some(s@),
                None => self.query_text() is None,
            },
    {
        match self {
            Lang::Ts => Some(TYPESCRIPT_QUERY),
            Lang::Tsx => Some(TYPESCRIPT_QUERY),
            Lang::Js => Some(JAVASCRIPT_QUERY),
            Lang::Py => Some(PYTHON_QUERY),
            Lang::Rust => Some(RUST_QUERY),
            Lang::Go => Some(GO_QUERY),
            Lang::Rb => Some(RUBY_QUERY),
            Lang::Coffee => None,
            Lang::Md => None,
        }
    }

    /// The compiled capture query of a language.
    pub fn query(self) -> (r: Option<tree_sitter::Query>)
        ensures
            r is Some == (match self.query_text() {
                Some(s) => query_compiles(self, s),
                None => false,
            }),
    {
        if language(self).is_none() {
            return None;
        }
        match self.query_source() {
            Some(source) => compile_query(self, source),
            None => None,
        }
    }
}

pub const TYPESCRIPT_QUERY: &'static str = "
(import_statement source: (string) @spec.from)
(export_statement source: (string) @spec.reexport)
(call_expression function: (import) arguments: (arguments . (string) @spec))
((call_expression function: (identifier) @callee arguments: (arguments . (string) @spec))
 (#eq? @callee \"require\"))

(import_clause (identifier) @import.name)
(import_specifier name: (identifier) @import.name)

(function_declaration name: (identifier) @def.fn)
(generator_function_declaration name: (identifier) @def.fn)
(class_declaration name: (type_identifier) @def.class)
(abstract_class_declaration name: (type_identifier) @def.class)
(interface_declaration name: (type_identifier) @def.interface)
(type_alias_declaration name: (type_identifier) @def.type)
(enum_declaration name: (identifier) @def.enum)
(variable_declarator name: (identifier) @def.const)

(call_expression function: (identifier) @call)
(call_expression function: (member_expression property: (property_identifier) @call))
(new_expression constructor: (identifier) @call)

(type_identifier) @typeref
";

pub const JAVASCRIPT_QUERY: &'static str = "
(import_statement source: (string) @spec.from)
(export_statement source: (string) @spec.reexport)
(call_expression function: (import) arguments: (arguments . (string) @spec))
((call_expression function: (identifier) @callee arguments: (arguments . (string) @spec))
 (#eq? @callee \"require\"))

(import_clause (identifier) @import.name)
(import_specifier name: (identifier) @import.name)

(function_declaration name: (identifier) @def.fn)
(generator_function_declaration name: (identifier) @def.fn)
(class_declaration name: (identifier) @def.class)
(variable_declarator name: (identifier) @def.const)

(call_expression function: (identifier) @call)
(call_expression function: (member_expression property: (property_identifier) @call))
(new_expression constructor: (identifier) @call)

(class_heritage (identifier) @typeref)
";

pub const PYTHON_QUERY: &'static str = "
(import_statement name: (dotted_name) @spec)
(import_statement name: (aliased_import name: (dotted_name) @spec))
(import_from_statement module_name: (dotted_name) @spec.from)
(import_from_statement module_name: (relative_import) @spec.from)

(import_from_statement name: (dotted_name) @import.name)
(import_from_statement name: (aliased_import name: (dotted_name) @import.name))

(function_definition name: (identifier) @def.fn)
(class_definition name: (identifier) @def.class)

(call function: (identifier) @call)
(call function: (attribute attribute: (identifier) @call))

(class_definition superclasses: (argument_list (identifier) @typeref))
(type (identifier) @typeref)
";

pub const RUST_QUERY: &'static str = "
(use_declaration) @use_decl
(mod_item name: (identifier) @mod !body)

(function_item name: (identifier) @def.fn)
(struct_item name: (type_identifier) @def.struct)
(enum_item name: (type_identifier) @def.enum)
(union_item name: (type_identifier) @def.union)
(trait_item name: (type_identifier) @def.trait)
(type_item name: (type_identifier) @def.type)
(static_item name: (identifier) @def.static)
(macro_definition name: (identifier) @def.macro)

(call_expression function: (identifier) @call)
(call_expression function: (scoped_identifier name: (identifier) @call))
(call_expression function: (field_expression field: (field_identifier) @call))

(type_identifier) @typeref
";

pub const GO_QUERY: &'static str = "
(import_spec path: (interpreted_string_literal) @spec)
(import_spec path: (raw_string_literal) @spec)

(function_declaration name: (identifier) @def.fn)
(method_declaration name: (field_identifier) @def.method)
(type_spec name: (type_identifier) @def.type)

(call_expression function: (identifier) @call)
(call_expression function: (selector_expression field: (field_identifier) @call))

(type_identifier) @typeref
";

pub const RUBY_QUERY: &'static str = "
((call method: (identifier) @callee arguments: (argument_list . (string (string_content) @spec)))
 (#any-of? @callee \"require\" \"load\"))
((call method: (identifier) @callee arguments: (argument_list . (string (string_content) @spec.relative)))
 (#eq? @callee \"require_relative\"))

(method name: (_) @def.fn)
(singleton_method name: (_) @def.fn)
(class name: (constant) @def.class)
(class name: (scope_resolution name: (constant) @def.class))
(module name: (constant) @def.module)
(module name: (scope_resolution name: (constant) @def.module))
(assignment left: (constant) @def.const)

(call method: (identifier) @call)

(superclass (constant) @typeref)
(superclass (scope_resolution name: (constant) @typeref))
";

} // verus!
