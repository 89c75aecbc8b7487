use corvalis_recon::complexity::{
    compute_cyclomatic_complexity, compute_max_nesting_depth, count_lines,
    extract_function_metrics, LocCounts,
};
use corvalis_recon::metrics::analyze_file;
use corvalis_recon::output::{DetectedLanguage, SourceFile};
use corvalis_recon::parse::{parse_source, ParsedFile};
use corvalis_recon::syntax::SyntaxTree;

fn parse_as(name: &str, language: DetectedLanguage, source: &str) -> ParsedFile {
    let sf = SourceFile {
        path: name.to_string(),
        language,
        declaration_only: name.ends_with(".d.ts"),
    };
    match parse_source(&sf, source.to_string()) {
        Ok(pf) => pf,
        Err(w) => panic!("parse failed: {}", w.message),
    }
}

fn parse_ts(source: &str) -> SyntaxTree {
    parse_as("main.ts", DetectedLanguage::TypeScript, source).tree
}

fn parse_tsx(source: &str) -> SyntaxTree {
    parse_as("main.tsx", DetectedLanguage::Tsx, source).tree
}

/// The `n`th child of node `i`.
fn child(tree: &SyntaxTree, i: usize, n: usize) -> usize {
    tree.child_list(i)[n]
}

/// The `n`th named child of node `i`.
fn named_child(tree: &SyntaxTree, i: usize, n: usize) -> usize {
    tree.child_list(i)
        .into_iter()
        .filter(|&c| tree.nodes[c].named)
        .nth(n)
        .unwrap()
}

#[test]
fn function_with_branches_has_correct_complexity() {
    let source = r#"
function classify(x: number): string {
if (x > 0) {
    if (x > 100) {
        return "big";
    }
    return "positive";
} else if (x < 0) {
    return "negative";
}
for (let i = 0; i < x; i++) {
    console.log(i);
}
return x === 0 ? "zero" : "other";
}
"#;
    let tree = parse_ts(source);
    let func = named_child(&tree, 0, 0);
    assert_eq!(tree.nodes[func].kind, "function_declaration");
    // 1 base + 2 if + 1 else_if(if_statement) + 1 for + 1 ternary = 6
    let complexity = compute_cyclomatic_complexity(&tree, func, source.as_bytes());
    assert_eq!(complexity, 6);
}

#[test]
fn logical_operators_add_branches() {
    let source = "function check(a: boolean, b: boolean) { return a && b || !a; }";
    let tree = parse_ts(source);
    let func = named_child(&tree, 0, 0);
    // 1 base + 1 (&&) + 1 (||) = 3
    let complexity = compute_cyclomatic_complexity(&tree, func, source.as_bytes());
    assert_eq!(complexity, 3);
}

#[test]
fn nullish_coalescing_adds_branch() {
    let source = "function safe(x?: string) { return x ?? 'default'; }";
    let tree = parse_ts(source);
    let func = named_child(&tree, 0, 0);
    // 1 base + 1 (??) = 2
    let complexity = compute_cyclomatic_complexity(&tree, func, source.as_bytes());
    assert_eq!(complexity, 2);
}

#[test]
fn switch_case_adds_per_case() {
    let source = r#"
function classify(status: number): string {
switch (status) {
    case 200: return "ok";
    case 404: return "not found";
    case 500: return "error";
    default: return "unknown";
}
}
"#;
    let tree = parse_ts(source);
    let func = named_child(&tree, 0, 0);
    // 1 base + 3 switch_case (not default) = 4
    let complexity = compute_cyclomatic_complexity(&tree, func, source.as_bytes());
    assert_eq!(complexity, 4);
}

#[test]
fn catch_clause_adds_branch() {
    let source = r#"
function risky() {
try {
    doSomething();
} catch (e) {
    handleError(e);
}
}
"#;
    let tree = parse_ts(source);
    let func = named_child(&tree, 0, 0);
    // 1 base + 1 catch = 2
    let complexity = compute_cyclomatic_complexity(&tree, func, source.as_bytes());
    assert_eq!(complexity, 2);
}

#[test]
fn empty_function_has_complexity_one() {
    let source = "function empty() {}";
    let tree = parse_ts(source);
    let func = named_child(&tree, 0, 0);
    assert_eq!(compute_cyclomatic_complexity(&tree, func, source.as_bytes()), 1);
}

#[test]
fn simple_function_has_complexity_one() {
    let source = "function greet(name: string) { return `Hello ${name}`; }";
    let tree = parse_ts(source);
    let func = child(&tree, 0, 0);
    assert_eq!(tree.nodes[func].kind, "function_declaration");
    let complexity = compute_cyclomatic_complexity(&tree, func, source.as_bytes());
    assert_eq!(complexity, 1);
}

// --- Nesting depth tests ---

#[test]
fn flat_function_has_nesting_zero() {
    let source = "function flat() { return 42; }";
    let tree = parse_ts(source);
    let func = named_child(&tree, 0, 0);
    assert_eq!(compute_max_nesting_depth(&tree, func), 0);
}

#[test]
fn single_if_has_nesting_one() {
    let source = r#"
function check(x: number) {
if (x > 0) {
    return x;
}
}
"#;
    let tree = parse_ts(source);
    let func = named_child(&tree, 0, 0);
    assert_eq!(compute_max_nesting_depth(&tree, func), 1);
}

#[test]
fn nested_control_flow_tracks_max_depth() {
    let source = r#"
function deep(items: number[]) {
for (let item of items) {
    if (item > 0) {
        while (item > 10) {
            item -= 1;
        }
    }
}
}
"#;
    let tree = parse_ts(source);
    let func = named_child(&tree, 0, 0);
    // for_in > if > while = 3
    assert_eq!(compute_max_nesting_depth(&tree, func), 3);
}

// --- LOC counting tests ---

#[test]
fn count_lines_mixed_content() {
    let source =
        "// comment\nconst x = 1;\n\nconst y = 2; // inline comment\n/* block\n   comment */\n";
    let tree = parse_ts(source);
    let counts = count_lines(source, &tree);
    // Lines: "// comment", "const x = 1;", "", "const y = 2; // inline comment", "/* block", "   comment */"
    assert_eq!(counts.total_lines, 6);
    assert_eq!(counts.blank_lines, 1);
    assert_eq!(counts.comment_lines, 3); // line 1 (// comment), line 5 (/* block), line 6 (comment */)
    assert_eq!(counts.code_lines, 2); // line 2, line 4 (has code + comment -> counted as code)
}

#[test]
fn count_lines_empty_source() {
    let source = "";
    let tree = parse_ts(source);
    let counts = count_lines(source, &tree);
    assert_eq!(counts, LocCounts::default());
}

#[test]
fn count_lines_only_comments() {
    let source = "// line 1\n// line 2\n";
    let tree = parse_ts(source);
    let counts = count_lines(source, &tree);
    assert_eq!(counts.total_lines, 2);
    assert_eq!(counts.code_lines, 0);
    assert_eq!(counts.comment_lines, 2);
    assert_eq!(counts.blank_lines, 0);
}

#[test]
fn try_catch_contributes_to_nesting() {
    let source = r#"
function handle() {
try {
    if (true) {
        doSomething();
    }
} catch (e) {
    log(e);
}
}
"#;
    let tree = parse_ts(source);
    let func = named_child(&tree, 0, 0);
    // try > if = 2
    assert_eq!(compute_max_nesting_depth(&tree, func), 2);
}

// --- Per-function metrics extraction tests ---

#[test]
fn extract_metrics_for_multiple_functions() {
    let source = r#"
function simple() {
return 1;
}

function complex(x: number, y: number) {
if (x > 0) {
    for (let i = 0; i < y; i++) {
        console.log(i);
    }
}
return x + y;
}
"#;
    let tree = parse_ts(source);
    let funcs = extract_function_metrics(&tree, source);
    assert_eq!(funcs.len(), 2);

    assert_eq!(funcs[0].name, "simple");
    assert_eq!(funcs[0].cyclomatic_complexity, 1);
    assert_eq!(funcs[0].parameter_count, 0);

    assert_eq!(funcs[1].name, "complex");
    assert_eq!(funcs[1].parameter_count, 2);
    // 1 base + 1 if + 1 for = 3
    assert_eq!(funcs[1].cyclomatic_complexity, 3);
    // if > for = 2
    assert_eq!(funcs[1].max_nesting_depth, 2);
}

#[test]
fn extract_metrics_for_arrow_function() {
    let source = "const add = (a: number, b: number) => a + b;\n";
    let tree = parse_ts(source);
    let funcs = extract_function_metrics(&tree, source);
    assert_eq!(funcs.len(), 1);
    assert_eq!(funcs[0].name, "add");
    assert_eq!(funcs[0].parameter_count, 2);
    assert_eq!(funcs[0].cyclomatic_complexity, 1);
}

#[test]
fn extract_metrics_for_class_methods() {
    let source = r#"
class Calculator {
add(a: number, b: number): number {
    return a + b;
}

divide(a: number, b: number): number {
    if (b === 0) {
        throw new Error("division by zero");
    }
    return a / b;
}
}
"#;
    let tree = parse_ts(source);
    let funcs = extract_function_metrics(&tree, source);
    assert_eq!(funcs.len(), 2);

    assert_eq!(funcs[0].name, "add");
    assert_eq!(funcs[0].cyclomatic_complexity, 1);

    assert_eq!(funcs[1].name, "divide");
    assert_eq!(funcs[1].cyclomatic_complexity, 2); // 1 base + 1 if
}

#[test]
fn nested_function_complexity_is_independent() {
    let source = r#"
function outer(x: number) {
const inner = (y: number) => {
    if (y > 0) { return y; }
    return -y;
};
return inner(x);
}
"#;
    let tree = parse_ts(source);
    let funcs = extract_function_metrics(&tree, source);
    assert_eq!(funcs.len(), 2);
    assert_eq!(funcs[0].name, "outer");
    assert_eq!(funcs[0].cyclomatic_complexity, 1); // no branches of its own
    assert_eq!(funcs[1].name, "inner");
    assert_eq!(funcs[1].cyclomatic_complexity, 2); // 1 base + 1 if
}

#[test]
fn extract_metrics_empty_source() {
    let source = "";
    let tree = parse_ts(source);
    let funcs = extract_function_metrics(&tree, source);
    assert!(funcs.is_empty());
}

// --- Edge case tests ---

#[test]
fn for_in_statement_adds_complexity() {
    let source = r#"
function process(items: string[]) {
for (const item of items) {
    console.log(item);
}
}
"#;
    let tree = parse_ts(source);
    let func = named_child(&tree, 0, 0);
    // 1 base + 1 for_in = 2
    assert_eq!(compute_cyclomatic_complexity(&tree, func, source.as_bytes()), 2);
}

#[test]
fn do_while_adds_complexity_and_nesting() {
    let source = r#"
function countdown(n: number) {
do {
    n--;
} while (n > 0);
}
"#;
    let tree = parse_ts(source);
    let func = named_child(&tree, 0, 0);
    assert_eq!(compute_cyclomatic_complexity(&tree, func, source.as_bytes()), 2); // 1 base + 1 do
    assert_eq!(compute_max_nesting_depth(&tree, func), 1);
}

#[test]
fn deeply_nested_code_reports_correct_depth() {
    let source = r#"
function deep() {
if (true) {
    for (let i = 0; i < 10; i++) {
        while (true) {
            try {
                if (i > 5) {
                    break;
                }
            } catch (e) {
                // nothing
            }
        }
    }
}
}
"#;
    let tree = parse_ts(source);
    let func = named_child(&tree, 0, 0);
    // if > for > while > try > if = 5
    assert_eq!(compute_max_nesting_depth(&tree, func), 5);
}

#[test]
fn javascript_function_metrics_via_tsx_grammar() {
    // JS files are parsed with the TSX grammar — verify it works.
    let source = "function add(a, b) { return a + b; }\n";
    let tree = parse_tsx(source);
    let funcs = extract_function_metrics(&tree, source);
    assert_eq!(funcs.len(), 1);
    assert_eq!(funcs[0].name, "add");
    assert_eq!(funcs[0].parameter_count, 2);
    assert_eq!(funcs[0].cyclomatic_complexity, 1);
}

#[test]
fn function_expression_in_variable() {
    let source = "const handler = function processEvent(event: Event) { if (event) { handle(event); } };\n";
    let tree = parse_ts(source);
    let funcs = extract_function_metrics(&tree, source);
    assert_eq!(funcs.len(), 1);
    assert_eq!(funcs[0].name, "processEvent");
    assert_eq!(funcs[0].cyclomatic_complexity, 2); // 1 base + 1 if
}

#[test]
fn loc_counts_crlf_line_endings() {
    let source = "const x = 1;\r\nconst y = 2;\r\n// comment\r\n";
    let tree = parse_ts(source);
    let counts = count_lines(source, &tree);
    assert_eq!(counts.total_lines, 3);
    assert_eq!(counts.code_lines, 2);
    assert_eq!(counts.comment_lines, 1);
}

#[test]
fn loc_counts_only_blank_lines() {
    let source = "\n\n\n";
    let tree = parse_ts(source);
    let counts = count_lines(source, &tree);
    assert_eq!(counts.total_lines, 3);
    assert_eq!(counts.blank_lines, 3);
    assert_eq!(counts.code_lines, 0);
    assert_eq!(counts.comment_lines, 0);
}

#[test]
fn async_generator_function_metrics() {
    let source = r#"
async function* streamData(url: string, maxPages: number) {
for (let page = 0; page < maxPages; page++) {
    yield await fetch(url);
}
}
"#;
    let tree = parse_ts(source);
    let funcs = extract_function_metrics(&tree, source);
    assert_eq!(funcs.len(), 1);
    assert_eq!(funcs[0].name, "streamData");
    assert_eq!(funcs[0].parameter_count, 2);
    // 1 base + 1 for = 2
    assert_eq!(funcs[0].cyclomatic_complexity, 2);
}

#[test]
fn malformed_code_produces_metrics_without_panic() {
    let source = "function broken( { if if if }";
    let tree = parse_ts(source);
    // Should not panic — just produce whatever metrics are extractable.
    let funcs = extract_function_metrics(&tree, source);
    // Malformed code may or may not produce function nodes; just don't crash.
    let _ = funcs;
}

#[test]
fn optional_chaining_member_access_adds_complexity() {
    let source = "function get(obj: any) { return obj?.value; }";
    let tree = parse_ts(source);
    let func = named_child(&tree, 0, 0);
    // 1 base + 1 optional chain
    assert_eq!(compute_cyclomatic_complexity(&tree, func, source.as_bytes()), 2);
}

#[test]
fn optional_chaining_call_is_not_surfaced_in_ast() {
    // tree-sitter's TypeScript grammar parses `fn?.()` as a plain
    // call_expression without an optional_chain field. We cannot
    // detect this form, so we don't count it.
    let source = "function invoke(fn: any) { return fn?.(); }";
    let tree = parse_ts(source);
    let func = named_child(&tree, 0, 0);
    // base only — optional call chaining not surfaced in AST
    assert_eq!(compute_cyclomatic_complexity(&tree, func, source.as_bytes()), 1);
}

#[test]
fn loc_counts_code_only_file() {
    let source = "const a = 1;\nconst b = 2;\nconst c = 3;\n";
    let tree = parse_ts(source);
    let counts = count_lines(source, &tree);
    assert_eq!(counts.total_lines, 3);
    assert_eq!(counts.code_lines, 3);
    assert_eq!(counts.comment_lines, 0);
    assert_eq!(counts.blank_lines, 0);
}

#[test]
fn loc_counts_inline_comment_as_code() {
    let source = "const x = 1; // inline note\n";
    let tree = parse_ts(source);
    let counts = count_lines(source, &tree);
    assert_eq!(counts.total_lines, 1);
    assert_eq!(counts.code_lines, 1);
    assert_eq!(counts.comment_lines, 0);
}

#[test]
fn loc_counts_multiline_block_comment() {
    let source = "/*\n * Multi\n * line\n */\nconst x = 1;\n";
    let tree = parse_ts(source);
    let counts = count_lines(source, &tree);
    assert_eq!(counts.total_lines, 5);
    assert_eq!(counts.code_lines, 1);
    assert_eq!(counts.comment_lines, 4);
}

#[test]
fn zero_param_function_reports_zero() {
    let source = "function noArgs() { return 42; }";
    let tree = parse_ts(source);
    let funcs = extract_function_metrics(&tree, source);
    assert_eq!(funcs.len(), 1);
    assert_eq!(funcs[0].parameter_count, 0);
}

#[test]
fn switch_default_does_not_add_complexity() {
    let source = r#"
function route(method: string) {
switch (method) {
    case "GET":
        return handleGet();
    default:
        return handleOther();
}
}
"#;
    let tree = parse_ts(source);
    let func = named_child(&tree, 0, 0);
    // 1 base + 1 switch_case (GET only, default excluded) = 2
    let complexity = compute_cyclomatic_complexity(&tree, func, source.as_bytes());
    assert_eq!(complexity, 2);
}

// ---------------------------------------------------------------------------
// File metrics
// ---------------------------------------------------------------------------

#[test]
fn analyze_file_produces_correct_metrics() {
    let parsed = parse_as(
        "example.ts",
        DetectedLanguage::TypeScript,
        r#"// A module
function greet(name: string) {
    return `Hello ${name}`;
}

function check(x: number) {
    if (x > 0) {
        return "positive";
    }
    return "non-positive";
}
"#,
    );
    let metrics = analyze_file(&parsed);

    assert_eq!(metrics.total_lines, 11);
    assert!(metrics.code_lines > 0);
    assert!(metrics.comment_lines > 0);
    assert_eq!(metrics.functions.len(), 2);
    assert_eq!(metrics.functions[0].name, "greet");
    assert_eq!(metrics.functions[1].name, "check");
    assert_eq!(metrics.functions[1].cyclomatic_complexity, 2);
}

#[test]
fn analyze_declaration_file_skips_complexity() {
    let parsed = parse_as(
        "types.d.ts",
        DetectedLanguage::TypeScript,
        "declare function foo(x: number): string;\ndeclare function bar(): void;\n",
    );
    let metrics = analyze_file(&parsed);

    assert_eq!(metrics.cyclomatic_complexity, 0);
    assert!(metrics.functions.is_empty());
    assert!(metrics.total_lines > 0);
}

#[test]
fn analyze_svelte_file_extracts_script_metrics() {
    let parsed = parse_as(
        "Counter.svelte",
        DetectedLanguage::Svelte,
        r#"<script>
  let count = 0;

  function increment() {
    if (count < 100) {
      count += 1;
    }
  }

  function reset() {
    count = 0;
  }
</script>

<button on:click={increment}>{count}</button>
<button on:click={reset}>Reset</button>
"#,
    );
    let metrics = analyze_file(&parsed);

    assert!(
        metrics.functions.len() >= 2,
        "expected at least 2 functions, got {}",
        metrics.functions.len()
    );
    assert!(metrics.code_lines > 0);
}

#[test]
fn analyze_empty_file() {
    let parsed = parse_as("empty.ts", DetectedLanguage::TypeScript, "");
    let metrics = analyze_file(&parsed);

    assert_eq!(metrics.total_lines, 0);
    assert!(metrics.functions.is_empty());
}

#[test]
fn file_lines_partition_into_code_comment_and_blank() {
    for source in [
        "",
        "a;\n\n// c\n",
        "/* x\n y */ z;\n\n\n",
        "const s = `\n\n`;\n",
    ] {
        let parsed = parse_as("p.ts", DetectedLanguage::TypeScript, source);
        let m = analyze_file(&parsed);
        assert_eq!(m.total_lines, m.code_lines + m.comment_lines + m.blank_lines);
    }
}

#[test]
fn file_complexity_is_the_sum_over_functions() {
    let parsed = parse_as(
        "sum.ts",
        DetectedLanguage::TypeScript,
        "function a(x: number) { if (x) { return 1; } return 2; }\nfunction b(y: boolean) { return y && !y; }\n",
    );
    let m = analyze_file(&parsed);
    let total: u32 = m.functions.iter().map(|f| f.cyclomatic_complexity).sum();
    assert_eq!(m.cyclomatic_complexity, total);
    assert_eq!(m.cyclomatic_complexity, 4);
    let deepest = m.functions.iter().map(|f| f.max_nesting_depth).max().unwrap();
    assert_eq!(m.max_nesting_depth, deepest);
}
