//! The tree-sitter queries that find symbols, imports and exports.
use vstd::prelude::*;

use crate::treesitter::{compile_query, load_grammar, query_compiles, CompiledQuery, Grammar, LoadedGrammar};

verus! {

/// Symbol query for TypeScript and TSX: function declarations, functions
/// and arrow functions bound to variables, classes, methods, interfaces,
/// type aliases, enums, imports (static and dynamic) and exports.
pub const TYPESCRIPT_QUERY_SOURCE: &'static str = r#"
; --- Function declarations ---
(function_declaration
  name: (identifier) @func_name) @function_decl

; Async/generator function declarations
(generator_function_declaration
  name: (identifier) @gen_func_name) @generator_function_decl

; --- Arrow functions / function expressions assigned to variables ---
(lexical_declaration
  (variable_declarator
    name: (identifier) @arrow_name
    value: (arrow_function) @arrow_value)) @arrow_decl

(lexical_declaration
  (variable_declarator
    name: (identifier) @func_expr_name
    value: (function_expression) @func_expr_value)) @func_expr_decl

(variable_declaration
  (variable_declarator
    name: (identifier) @var_arrow_name
    value: (arrow_function) @var_arrow_value)) @var_arrow_decl

(variable_declaration
  (variable_declarator
    name: (identifier) @var_func_expr_name
    value: (function_expression) @var_func_expr_value)) @var_func_expr_decl

; --- Class declarations ---
(class_declaration
  name: (type_identifier) @class_name) @class_decl

(abstract_class_declaration
  name: (type_identifier) @abstract_class_name) @abstract_class_decl

; --- Method definitions ---
(method_definition
  name: (property_identifier) @method_name) @method_def

; --- Interface declarations ---
(interface_declaration
  name: (type_identifier) @interface_name) @interface_decl

; --- Type aliases ---
(type_alias_declaration
  name: (type_identifier) @type_alias_name) @type_alias_decl

; --- Enum declarations ---
(enum_declaration
  name: (identifier) @enum_name) @enum_decl

; --- Import statements ---
(import_statement
  source: (string) @import_source) @import_stmt

; --- Dynamic imports ---
(call_expression
  function: (import)
  arguments: (arguments (string) @dynamic_import_source)) @dynamic_import

; --- Export statements ---
(export_statement) @export_stmt
"#;

/// Symbol query for JavaScript: the TypeScript query without interfaces,
/// abstract classes and type aliases. JavaScript is parsed with the TSX
/// grammar, so node kinds agree.
pub const JAVASCRIPT_QUERY_SOURCE: &'static str = r#"
; --- Function declarations ---
(function_declaration
  name: (identifier) @func_name) @function_decl

(generator_function_declaration
  name: (identifier) @gen_func_name) @generator_function_decl

; --- Arrow functions / function expressions assigned to variables ---
(lexical_declaration
  (variable_declarator
    name: (identifier) @arrow_name
    value: (arrow_function) @arrow_value)) @arrow_decl

(lexical_declaration
  (variable_declarator
    name: (identifier) @func_expr_name
    value: (function_expression) @func_expr_value)) @func_expr_decl

(variable_declaration
  (variable_declarator
    name: (identifier) @var_arrow_name
    value: (arrow_function) @var_arrow_value)) @var_arrow_decl

(variable_declaration
  (variable_declarator
    name: (identifier) @var_func_expr_name
    value: (function_expression) @var_func_expr_value)) @var_func_expr_decl

; --- Class declarations ---
(class_declaration
  name: (type_identifier) @class_name) @class_decl

; --- Method definitions ---
(method_definition
  name: (property_identifier) @method_name) @method_def

; --- Enum declarations (yes, JS has them in some transpiled code patterns) ---
(enum_declaration
  name: (identifier) @enum_name) @enum_decl

; --- Import statements ---
(import_statement
  source: (string) @import_source) @import_stmt

; --- Dynamic imports ---
(call_expression
  function: (import)
  arguments: (arguments (string) @dynamic_import_source)) @dynamic_import

; --- Export statements ---
(export_statement) @export_stmt
"#;

/// Svelte 5 runes (`$state()`, `$derived()`, `$effect()`, `$props()`,
/// `$bindable()`): calls of those names in a script block.
pub const RUNE_QUERY_SOURCE: &'static str = r#"
(call_expression
  function: (identifier) @rune_name
  (#match? @rune_name "^\\$(state|derived|effect|props|bindable)$")) @rune_call
"#;

/// Svelte 4 props: `export let name` in a script block.
pub const LEGACY_PROP_QUERY_SOURCE: &'static str = r#"
(export_statement
  (lexical_declaration
    (variable_declarator
      name: (identifier) @legacy_prop_name))) @legacy_prop
"#;

/// One of the library's own query texts. Each is ASCII and begins with a
/// line break, so no name in it stands at offset 0.
pub open spec fn library_query(s: Seq<char>) -> bool {
    ||| s == TYPESCRIPT_QUERY_SOURCE@
    ||| s == JAVASCRIPT_QUERY_SOURCE@
    ||| s == RUNE_QUERY_SOURCE@
    ||| s == LEGACY_PROP_QUERY_SOURCE@
}

/// The TypeScript symbol query, compiled for the TypeScript grammar.
pub fn typescript_query() -> (r: Option<CompiledQuery>)
    ensures
        r is Some <==> query_compiles(Grammar::TypeScript, TYPESCRIPT_QUERY_SOURCE@),
        r matches Some(q) ==> q.grammar() == Grammar::TypeScript && q.source() == TYPESCRIPT_QUERY_SOURCE@,
{
    compile_query(&load_grammar(Grammar::TypeScript), TYPESCRIPT_QUERY_SOURCE)
}

/// The TypeScript symbol query, compiled for the TSX grammar.
pub fn tsx_query() -> (r: Option<CompiledQuery>)
    ensures
        r is Some <==> query_compiles(Grammar::Tsx, TYPESCRIPT_QUERY_SOURCE@),
        r matches Some(q) ==> q.grammar() == Grammar::Tsx && q.source() == TYPESCRIPT_QUERY_SOURCE@,
{
    compile_query(&load_grammar(Grammar::Tsx), TYPESCRIPT_QUERY_SOURCE)
}

/// The JavaScript symbol query, compiled for the TSX grammar.
pub fn javascript_query() -> (r: Option<CompiledQuery>)
    ensures
        r is Some <==> query_compiles(Grammar::Tsx, JAVASCRIPT_QUERY_SOURCE@),
        r matches Some(q) ==> q.grammar() == Grammar::Tsx && q.source() == JAVASCRIPT_QUERY_SOURCE@,
{
    compile_query(&load_grammar(Grammar::Tsx), JAVASCRIPT_QUERY_SOURCE)
}

/// The rune query, compiled for grammar `language`.
pub fn rune_query(language: &LoadedGrammar) -> (r: Option<CompiledQuery>)
    ensures
        r is Some <==> query_compiles(language.grammar(), RUNE_QUERY_SOURCE@),
        r matches Some(q) ==> q.grammar() == language.grammar() && q.source() == RUNE_QUERY_SOURCE@,
{
    compile_query(language, RUNE_QUERY_SOURCE)
}

/// The legacy prop query, compiled for grammar `language`.
pub fn legacy_prop_query(language: &LoadedGrammar) -> (r: Option<CompiledQuery>)
    ensures
        r is Some <==> query_compiles(language.grammar(), LEGACY_PROP_QUERY_SOURCE@),
        r matches Some(q) ==> q.grammar() == language.grammar() && q.source() == LEGACY_PROP_QUERY_SOURCE@,
{
    compile_query(language, LEGACY_PROP_QUERY_SOURCE)
}

} // verus!
