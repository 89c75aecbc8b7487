use corvalis_recon::language::{detect_language, is_declaration_file};
use corvalis_recon::output::{ExportKind, ImportKind, SourceFile, SymbolKind};
use corvalis_recon::parse::parse_files_sequential;
use corvalis_recon::symbols::{extract_symbols, strip_quotes, FileSymbols};

/// Parse `source` as the file `filename` and extract its symbols.
fn extract_from_source(filename: &str, source: &str) -> FileSymbols {
    let sf = SourceFile {
        path: filename.to_string(),
        language: detect_language(filename).unwrap(),
        declaration_only: is_declaration_file(filename),
    };
    let text = source.to_string();
    let read = move |_: &String| -> Result<String, String> { Ok(text.clone()) };
    let result = parse_files_sequential(&vec![sf], &read);
    assert!(result.warnings.is_empty(), "parse warnings: {}", result.warnings.len());
    assert_eq!(result.files.len(), 1);

    extract_symbols(&result.files[0])
}

// --- Function declarations ---

#[test]
fn extracts_named_function_declaration() {
    let syms = extract_from_source(
        "main.ts",
        "function greet(name: string): string {\n  return `Hello ${name}`;\n}\n",
    );

    assert_eq!(syms.symbols.len(), 1);
    let func = &syms.symbols[0];
    assert_eq!(func.name, "greet");
    assert_eq!(func.kind, SymbolKind::Function);
    assert_eq!(func.line, 1);
    assert!(!func.exported);
}

#[test]
fn extracts_exported_function() {
    let syms = extract_from_source(
        "utils.ts",
        "export function add(a: number, b: number): number {\n  return a + b;\n}\n",
    );

    let funcs: Vec<_> = syms
        .symbols
        .iter()
        .filter(|s| s.kind == SymbolKind::Function)
        .collect();
    assert_eq!(funcs.len(), 1);
    assert!(funcs[0].exported);
    assert_eq!(funcs[0].name, "add");

    assert_eq!(syms.exports.len(), 1);
    assert_eq!(syms.exports[0].name, "add");
    assert_eq!(syms.exports[0].kind, ExportKind::Named);
}

#[test]
fn extracts_arrow_function() {
    let syms =
        extract_from_source("arrow.ts", "const double = (n: number): number => n * 2;\n");

    assert_eq!(syms.symbols.len(), 1);
    assert_eq!(syms.symbols[0].name, "double");
    assert_eq!(syms.symbols[0].kind, SymbolKind::ArrowFunction);
}

#[test]
fn extracts_async_function() {
    let syms = extract_from_source(
        "async.ts",
        "async function fetchData(): Promise<void> {\n  await fetch('/api');\n}\n",
    );

    assert_eq!(syms.symbols.len(), 1);
    assert_eq!(syms.symbols[0].name, "fetchData");
    assert_eq!(syms.symbols[0].kind, SymbolKind::Function);
}

// --- Classes ---

#[test]
fn extracts_class_with_methods() {
    let syms = extract_from_source(
        "class.ts",
        "class Greeter {\n  greet(name: string): string {\n    return `Hello ${name}`;\n  }\n}\n",
    );

    let classes: Vec<_> = syms
        .symbols
        .iter()
        .filter(|s| s.kind == SymbolKind::Class)
        .collect();
    assert_eq!(classes.len(), 1);
    assert_eq!(classes[0].name, "Greeter");

    let methods: Vec<_> = syms
        .symbols
        .iter()
        .filter(|s| s.kind == SymbolKind::Method)
        .collect();
    assert_eq!(methods.len(), 1);
    assert_eq!(methods[0].name, "greet");
}

#[test]
fn extracts_abstract_class() {
    let syms = extract_from_source(
        "abstract.ts",
        "abstract class Shape {\n  abstract area(): number;\n}\n",
    );

    let classes: Vec<_> = syms
        .symbols
        .iter()
        .filter(|s| s.kind == SymbolKind::Class)
        .collect();
    assert_eq!(classes.len(), 1);
    assert_eq!(classes[0].name, "Shape");
}

// --- Interfaces and types ---

#[test]
fn extracts_interface() {
    let syms = extract_from_source(
        "types.ts",
        "interface User {\n  name: string;\n  age: number;\n}\n",
    );

    assert_eq!(syms.symbols.len(), 1);
    assert_eq!(syms.symbols[0].name, "User");
    assert_eq!(syms.symbols[0].kind, SymbolKind::Interface);
}

#[test]
fn extracts_type_alias() {
    let syms = extract_from_source("types.ts", "type ID = string | number;\n");

    assert_eq!(syms.symbols.len(), 1);
    assert_eq!(syms.symbols[0].name, "ID");
    assert_eq!(syms.symbols[0].kind, SymbolKind::TypeAlias);
}

#[test]
fn extracts_enum() {
    let syms = extract_from_source("status.ts", "enum Status {\n  Active,\n  Inactive,\n}\n");

    assert_eq!(syms.symbols.len(), 1);
    assert_eq!(syms.symbols[0].name, "Status");
    assert_eq!(syms.symbols[0].kind, SymbolKind::Enum);
}

// --- Imports ---

#[test]
fn extracts_named_import() {
    let syms = extract_from_source(
        "imports.ts",
        "import { useState, useEffect } from 'react';\n",
    );

    assert_eq!(syms.imports.len(), 1);
    assert_eq!(syms.imports[0].source, "react");
    assert_eq!(syms.imports[0].kind, ImportKind::Named);
    assert!(syms.imports[0].specifiers.contains(&"useState".to_string()));
    assert!(
        syms.imports[0]
            .specifiers
            .contains(&"useEffect".to_string())
    );
}

#[test]
fn extracts_default_import() {
    let syms = extract_from_source("imports.ts", "import React from 'react';\n");

    assert_eq!(syms.imports.len(), 1);
    assert_eq!(syms.imports[0].source, "react");
    assert_eq!(syms.imports[0].kind, ImportKind::Default);
    assert_eq!(syms.imports[0].specifiers, vec!["React"]);
}

#[test]
fn extracts_namespace_import() {
    let syms = extract_from_source("imports.ts", "import * as path from 'path';\n");

    assert_eq!(syms.imports.len(), 1);
    assert_eq!(syms.imports[0].source, "path");
    assert_eq!(syms.imports[0].kind, ImportKind::Namespace);
    assert_eq!(syms.imports[0].specifiers, vec!["path"]);
}

#[test]
fn extracts_side_effect_import() {
    let syms = extract_from_source("imports.ts", "import './styles.css';\n");

    assert_eq!(syms.imports.len(), 1);
    assert_eq!(syms.imports[0].source, "./styles.css");
    assert_eq!(syms.imports[0].kind, ImportKind::SideEffect);
    assert!(syms.imports[0].specifiers.is_empty());
}

#[test]
fn extracts_type_only_import() {
    let syms = extract_from_source("imports.ts", "import type { User } from './types';\n");

    assert_eq!(syms.imports.len(), 1);
    assert_eq!(syms.imports[0].source, "./types");
    assert_eq!(syms.imports[0].kind, ImportKind::TypeOnly);
}

#[test]
fn extracts_dynamic_import() {
    let syms =
        extract_from_source("dynamic.ts", "const mod = await import('./lazy-module');\n");

    assert_eq!(syms.imports.len(), 1);
    assert_eq!(syms.imports[0].source, "./lazy-module");
    assert_eq!(syms.imports[0].kind, ImportKind::Dynamic);
}

// --- Exports ---

#[test]
fn extracts_default_export() {
    let syms = extract_from_source("default.ts", "const value = 42;\nexport default value;\n");

    let default_exports: Vec<_> = syms
        .exports
        .iter()
        .filter(|e| e.kind == ExportKind::Default)
        .collect();
    assert_eq!(default_exports.len(), 1);
    assert_eq!(default_exports[0].name, "default");
}

#[test]
fn extracts_default_exported_function_declaration() {
    let syms = extract_from_source("default.ts", "export default function App() {}\n");

    let default_exports: Vec<_> = syms
        .exports
        .iter()
        .filter(|e| e.kind == ExportKind::Default)
        .collect();
    assert_eq!(default_exports.len(), 1);
    assert_eq!(default_exports[0].name, "App");
}

#[test]
fn extracts_named_export_clause() {
    let syms =
        extract_from_source("named.ts", "const a = 1;\nconst b = 2;\nexport { a, b };\n");

    assert_eq!(syms.exports.len(), 2);
    let names: Vec<_> = syms.exports.iter().map(|e| e.name.as_str()).collect();
    assert!(names.contains(&"a"));
    assert!(names.contains(&"b"));
}

#[test]
fn extracts_re_export() {
    let syms = extract_from_source("barrel.ts", "export { foo, bar } from './utils';\n");

    assert_eq!(syms.exports.len(), 2);
    assert!(syms.exports.iter().all(|e| e.kind == ExportKind::ReExport));
}

#[test]
fn extracts_star_re_export() {
    let syms = extract_from_source("barrel.ts", "export * from './utils';\n");

    assert_eq!(syms.exports.len(), 1);
    assert_eq!(syms.exports[0].kind, ExportKind::StarReExport);
    assert_eq!(syms.exports[0].name, "*");
}

#[test]
fn extracts_type_only_export() {
    let syms = extract_from_source("types.ts", "export type { User, Admin } from './types';\n");

    assert!(syms.exports.iter().all(|e| e.kind == ExportKind::TypeOnly));
}

// --- JavaScript subset ---

#[test]
fn javascript_extracts_functions_but_not_interfaces() {
    let syms = extract_from_source(
        "utils.js",
        "function greet(name) {\n  return `Hello ${name}`;\n}\n",
    );

    assert_eq!(syms.symbols.len(), 1);
    assert_eq!(syms.symbols[0].name, "greet");
    assert_eq!(syms.symbols[0].kind, SymbolKind::Function);
}

#[test]
fn javascript_extracts_class() {
    let syms = extract_from_source("app.js", "class App {\n  render() { return null; }\n}\n");

    let classes: Vec<_> = syms
        .symbols
        .iter()
        .filter(|s| s.kind == SymbolKind::Class)
        .collect();
    assert_eq!(classes.len(), 1);
    assert_eq!(classes[0].name, "App");
}

// --- Svelte ---

#[test]
fn svelte_extracts_component_symbol() {
    let syms = extract_from_source(
        "Button.svelte",
        "<script>\n  let label = 'Click me';\n</script>\n<button>{label}</button>\n",
    );

    let components: Vec<_> = syms
        .symbols
        .iter()
        .filter(|s| s.kind == SymbolKind::Component)
        .collect();
    assert_eq!(components.len(), 1);
    assert_eq!(components[0].name, "Button");
    assert!(components[0].exported);
}

#[test]
fn svelte_extracts_functions_from_script() {
    let syms = extract_from_source(
        "Counter.svelte",
        "<script>\n  function increment() { count += 1; }\n</script>\n",
    );

    let funcs: Vec<_> = syms
        .symbols
        .iter()
        .filter(|s| s.kind == SymbolKind::Function)
        .collect();
    assert_eq!(funcs.len(), 1);
    assert_eq!(funcs[0].name, "increment");
}

#[test]
fn svelte_extracts_imports() {
    let syms = extract_from_source(
        "Page.svelte",
        "<script>\n  import { onMount } from 'svelte';\n</script>\n",
    );

    assert_eq!(syms.imports.len(), 1);
    assert_eq!(syms.imports[0].source, "svelte");
}

#[test]
fn svelte_extracts_runes() {
    let syms = extract_from_source(
        "Counter.svelte",
        "<script>\n  let count = $state(0);\n  let doubled = $derived(count * 2);\n</script>\n",
    );

    let runes: Vec<_> = syms
        .symbols
        .iter()
        .filter(|s| s.kind == SymbolKind::Rune)
        .collect();
    assert_eq!(runes.len(), 2, "runes found: {:?}", runes.iter().map(|r| r.name.as_str()).collect::<Vec<_>>());
    assert!(runes.iter().any(|r| r.name.contains("$state")));
    assert!(runes.iter().any(|r| r.name.contains("$derived")));
}

#[test]
fn svelte_extracts_legacy_props() {
    let syms = extract_from_source(
        "Card.svelte",
        "<script>\n  export let title;\n  export let description;\n</script>\n",
    );

    let props: Vec<_> = syms
        .symbols
        .iter()
        .filter(|s| s.kind == SymbolKind::Variable && s.exported)
        .collect();
    assert_eq!(props.len(), 2);
    let names: Vec<_> = props.iter().map(|p| p.name.as_str()).collect();
    assert!(names.contains(&"title"));
    assert!(names.contains(&"description"));
}

// --- Edge cases ---

#[test]
fn empty_file_produces_no_symbols() {
    let syms = extract_from_source("empty.ts", "");
    assert!(syms.symbols.is_empty());
    assert!(syms.imports.is_empty());
    assert!(syms.exports.is_empty());
}

#[test]
fn file_with_only_comments() {
    let syms =
        extract_from_source("comments.ts", "// This is a comment\n/* Block comment */\n");
    assert!(syms.symbols.is_empty());
}

#[test]
fn mixed_typescript_and_tsx_files_both_extract_symbols() {
    let source_files = vec![
        SourceFile {
            path: "App.tsx".to_string(),
            language: detect_language("App.tsx").unwrap(),
            declaration_only: false,
        },
        SourceFile {
            path: "alpha.ts".to_string(),
            language: detect_language("alpha.ts").unwrap(),
            declaration_only: false,
        },
    ];
    let read = |p: &String| -> Result<String, String> {
        match p.as_str() {
            "alpha.ts" => Ok("export function alpha() {}\n".to_string()),
            "App.tsx" => Ok("export default function App() { return <div />; }\n".to_string()),
            _ => Err("not found".to_string()),
        }
    };

    let parsed = parse_files_sequential(&source_files, &read);
    assert!(parsed.warnings.is_empty(), "parse warnings: {}", parsed.warnings.len());

    let extracted: Vec<_> = parsed.files.iter().map(extract_symbols).collect();
    let all_names: Vec<_> = extracted
        .iter()
        .flat_map(|file| file.symbols.iter().map(|symbol| symbol.name.as_str()))
        .collect();

    assert!(all_names.contains(&"App"), "missing TSX symbols: {all_names:?}");
    assert!(all_names.contains(&"alpha"), "missing TypeScript symbols: {all_names:?}");
}

#[test]
fn malformed_file_extracts_partial_symbols() {
    let syms = extract_from_source(
        "bad.ts",
        "function valid() { return 1; }\nfunction { broken }\n",
    );

    assert!(
        !syms.symbols.is_empty(),
        "should extract symbols from malformed file"
    );
}

#[test]
fn function_signature_includes_params_and_return_type() {
    let syms = extract_from_source(
        "sig.ts",
        "function add(a: number, b: number): number {\n  return a + b;\n}\n",
    );

    assert_eq!(syms.symbols.len(), 1);
    let sig = syms.symbols[0].signature.as_deref().unwrap();
    assert!(sig.contains("a: number"), "signature: {sig}");
    assert!(sig.contains("number"), "signature: {sig}");
}

#[test]
fn svelte_without_script_has_only_component() {
    let syms = extract_from_source("Static.svelte", "<h1>Hello world</h1>\n");

    assert_eq!(syms.symbols.len(), 1);
    assert_eq!(syms.symbols[0].kind, SymbolKind::Component);
    assert_eq!(syms.symbols[0].name, "Static");
}

#[test]
fn multiple_symbols_in_one_file() {
    let syms = extract_from_source(
        "multi.ts",
        r#"
interface Config { key: string; }
type ID = string;
enum Status { Active, Inactive }
class App {}
function run(): void {}
const helper = () => {};
"#,
    );

    let kinds: Vec<_> = syms.symbols.iter().map(|s| s.kind.clone()).collect();
    assert!(kinds.contains(&SymbolKind::Interface));
    assert!(kinds.contains(&SymbolKind::TypeAlias));
    assert!(kinds.contains(&SymbolKind::Enum));
    assert!(kinds.contains(&SymbolKind::Class));
    assert!(kinds.contains(&SymbolKind::Function));
    assert!(kinds.contains(&SymbolKind::ArrowFunction));
}

#[test]
fn strip_quotes_removes_matching_quotes_only() {
    assert_eq!(strip_quotes("'react'"), "react");
    assert_eq!(strip_quotes(" \"./a\" "), "./a");
    assert_eq!(strip_quotes("'mixed\""), "'mixed\"");
    assert_eq!(strip_quotes("plain"), "plain");
}

#[test]
fn symbol_lines_are_one_based() {
    let syms = extract_from_source("lines.ts", "\n\nfunction third() {\n}\n");
    assert_eq!(syms.symbols.len(), 1);
    assert_eq!(syms.symbols[0].line, 3);
    assert_eq!(syms.symbols[0].end_line, 4);
}
