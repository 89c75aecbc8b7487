use corvalis_recon::queries::{javascript_query, legacy_prop_query, rune_query, tsx_query, typescript_query};
use corvalis_recon::output::{DetectedLanguage, SourceFile};
use corvalis_recon::parse::parse_source;
use corvalis_recon::symbols::extract_from_tree;
use corvalis_recon::treesitter::{
    capture_names, language_javascript, language_svelte, language_tsx, language_typescript, load_grammar, name_captures, Grammar,
};

#[test]
fn grammars_load_successfully() {
    let js = language_javascript();
    assert!(js.version() > 0);

    let ts = language_typescript();
    assert!(ts.version() > 0);

    let tsx = language_tsx();
    assert!(tsx.version() > 0);

    let svelte = language_svelte();
    assert!(svelte.version() > 0);
}

#[test]
fn typescript_query_compiles() {
    let query = typescript_query().unwrap();
    assert!(!capture_names(&query).is_empty());
}

#[test]
fn typescript_query_has_expected_captures() {
    let query = typescript_query().unwrap();
    let owned = capture_names(&query);
    let names: Vec<&str> = owned.iter().map(|n| n.as_str()).collect();
    assert!(names.contains(&"func_name"), "missing func_name capture");
    assert!(names.contains(&"class_name"), "missing class_name capture");
    assert!(names.contains(&"interface_name"), "missing interface_name capture");
    assert!(names.contains(&"type_alias_name"), "missing type_alias_name capture");
    assert!(names.contains(&"enum_name"), "missing enum_name capture");
    assert!(names.contains(&"import_source"), "missing import_source capture");
    assert!(names.contains(&"export_stmt"), "missing export_stmt capture");
}

#[test]
fn tsx_query_compiles_with_tsx_grammar() {
    let query = tsx_query().unwrap();
    assert!(!capture_names(&query).is_empty());
}

#[test]
fn javascript_query_compiles() {
    let query = javascript_query().unwrap();
    assert!(!capture_names(&query).is_empty());
}

#[test]
fn javascript_query_lacks_interface_and_type_alias() {
    let query = javascript_query().unwrap();
    let owned = capture_names(&query);
    let names: Vec<&str> = owned.iter().map(|n| n.as_str()).collect();
    assert!(!names.contains(&"interface_name"), "JS query should not capture interfaces");
    assert!(!names.contains(&"type_alias_name"), "JS query should not capture type aliases");
}

#[test]
fn rune_query_compiles() {
    let lang = load_grammar(Grammar::TypeScript);
    let query = rune_query(&lang).unwrap();
    let owned = capture_names(&query);
    let names: Vec<&str> = owned.iter().map(|n| n.as_str()).collect();
    assert!(names.contains(&"rune_name"));
    assert!(names.contains(&"rune_call"));
}

#[test]
fn legacy_prop_query_compiles() {
    let lang = load_grammar(Grammar::TypeScript);
    let query = legacy_prop_query(&lang).unwrap();
    let owned = capture_names(&query);
    let names: Vec<&str> = owned.iter().map(|n| n.as_str()).collect();
    assert!(names.contains(&"legacy_prop_name"));
}

#[test]
fn name_captures_names_and_places_each_capture() {
    let sf = SourceFile {
        path: "main.ts".to_string(),
        language: DetectedLanguage::TypeScript,
        declaration_only: false,
    };
    let pf = parse_source(&sf, "let x = 1;\n".to_string()).ok().unwrap();
    let tree = pf.tree;
    assert!(tree.nodes.len() > 1);
    let root_id = tree.nodes[0].id;
    let second_id = tree.nodes[1].id;
    let missing_id = tree.nodes.iter().map(|n| n.id).max().unwrap() + 1;

    let names = vec!["first".to_string(), "second".to_string()];
    let matches = vec![
        vec![(1, second_id), (7, root_id), (0, missing_id), (0, root_id)],
        vec![],
    ];
    let named = name_captures(&names, &matches, &tree);
    assert_eq!(named.len(), 2);
    assert_eq!(named[0].len(), 2);
    assert_eq!(named[0][0].name, "second");
    assert_eq!(named[0][0].node, 1);
    assert_eq!(named[0][1].name, "first");
    assert_eq!(named[0][1].node, 0);
    assert!(named[1].is_empty());
}

#[test]
fn line_offset_moves_every_line_down() {
    let sf = SourceFile { path: "m.ts".to_string(), language: DetectedLanguage::TypeScript, declaration_only: false };
    let pf = parse_source(&sf, "import { a } from './a';\nfunction f() {\n  return 1;\n}\n".to_string())
        .ok()
        .unwrap();
    let q = typescript_query().unwrap();
    let base = extract_from_tree(&pf.ts_tree, &pf.tree, pf.source.as_bytes(), &q, 0);
    let moved = extract_from_tree(&pf.ts_tree, &pf.tree, pf.source.as_bytes(), &q, 10);
    assert_eq!(base.symbols.len(), 1);
    assert_eq!(moved.symbols.len(), 1);
    assert_eq!(base.symbols[0].line, 2);
    assert_eq!(base.symbols[0].end_line, 4);
    assert_eq!(moved.symbols[0].line, 12);
    assert_eq!(moved.symbols[0].end_line, 14);
    assert_eq!(base.imports.len(), 1);
    assert_eq!(moved.imports[0].line, base.imports[0].line + 10);
}

#[test]
fn script_files_always_parse() {
    let sf = SourceFile { path: "x.js".to_string(), language: DetectedLanguage::JavaScript, declaration_only: false };
    assert!(parse_source(&sf, "this is ( not valid".to_string()).is_ok());
}
