use corvalis_recon::language::{detect_language, is_declaration_file};
use corvalis_recon::output::{DetectedLanguage, SourceFile, Warning};
use corvalis_recon::parse::{
    extract_svelte_scripts, parse_files_sequential, parse_read_file, parse_source, partition_parsed,
};

/// File contents in memory, by path relative to the root.
#[derive(Default)]
struct Fs {
    files: Vec<(String, String)>,
}

impl Fs {
    fn fixture(&mut self, name: &str, content: &str) -> SourceFile {
        self.files.push((name.to_string(), content.to_string()));
        SourceFile {
            path: name.to_string(),
            language: detect_language(name).unwrap(),
            declaration_only: is_declaration_file(name),
        }
    }

    fn reader(&self) -> impl Fn(&String) -> Result<String, String> + '_ {
        move |p: &String| {
            self.files
                .iter()
                .find(|(q, _)| q == p)
                .map(|(_, c)| c.clone())
                .ok_or_else(|| "No such file or directory (os error 2)".to_string())
        }
    }
}

#[test]
fn parse_typescript_file() {
    let mut fs = Fs::default();
    let sf = fs.fixture("main.ts", "const x: number = 42;\n");

    let result = parse_files_sequential(&vec![sf], &fs.reader());
    assert!(result.warnings.is_empty());
    assert_eq!(result.files.len(), 1);
    assert!(!result.files[0].ts_tree.tree().root_node().has_error());
}

#[test]
fn parse_tsx_file() {
    let mut fs = Fs::default();
    let sf = fs.fixture("App.tsx",
        "export default function App() { return <div/>; }\n",
    );

    let result = parse_files_sequential(&vec![sf], &fs.reader());
    assert!(result.warnings.is_empty());
    assert_eq!(result.files.len(), 1);
    assert!(!result.files[0].ts_tree.tree().root_node().has_error());
}

#[test]
fn parse_javascript_file() {
    let mut fs = Fs::default();
    let sf = fs.fixture("utils.js",
        "function add(a, b) { return a + b; }\n",
    );

    let result = parse_files_sequential(&vec![sf], &fs.reader());
    assert!(result.warnings.is_empty());
    assert_eq!(result.files.len(), 1);
}

#[test]
fn parse_svelte_file_extracts_script() {
    let mut fs = Fs::default();
    let sf = fs.fixture("Counter.svelte",
        "<script>\n  let count = 0;\n  function increment() { count += 1; }\n</script>\n\n<button on:click={increment}>{count}</button>\n",
    );

    let result = parse_files_sequential(&vec![sf], &fs.reader());
    assert!(result.warnings.is_empty(), "warnings: {}", result.warnings.len());
    assert_eq!(result.files.len(), 1);

    let pf = &result.files[0];
    assert!(
        !pf.script_blocks.is_empty(),
        "Svelte file should have script blocks"
    );

    let script = &pf.script_blocks[0];
    assert!(script.source.contains("let count = 0;"));
    assert!(!script.ts_tree.tree().root_node().has_error());
}

#[test]
fn parse_svelte_with_module_and_instance_scripts() {
    let mut fs = Fs::default();
    let sf = fs.fixture("Dual.svelte",
        "<script context=\"module\">\n  export const prerender = true;\n</script>\n<script>\n  let count = 0;\n</script>\n",
    );

    let result = parse_files_sequential(&vec![sf], &fs.reader());
    assert!(result.warnings.is_empty(), "warnings: {}", result.warnings.len());
    assert_eq!(result.files.len(), 1);
    assert_eq!(result.files[0].script_blocks.len(), 2);
    assert!(
        result.files[0].script_blocks[0]
            .source
            .contains("prerender")
    );
    assert!(result.files[0].script_blocks[1].source.contains("count"));
}

#[test]
fn parse_svelte_without_script_block() {
    let mut fs = Fs::default();
    let sf = fs.fixture("Static.svelte", "<h1>Hello world</h1>\n");

    let result = parse_files_sequential(&vec![sf], &fs.reader());
    assert!(result.warnings.is_empty());
    assert_eq!(result.files.len(), 1);
    assert!(result.files[0].script_blocks.is_empty());
}

#[test]
fn parse_malformed_file_produces_tree_with_error() {
    let mut fs = Fs::default();
    let sf = fs.fixture("bad.ts", "function { broken syntax here (\n");

    let result = parse_files_sequential(&vec![sf], &fs.reader());
    // tree-sitter is error-tolerant — it should still produce a tree
    assert!(result.warnings.is_empty());
    assert_eq!(result.files.len(), 1);
    assert!(result.files[0].ts_tree.tree().root_node().has_error());
}

#[test]
fn parse_empty_file() {
    let mut fs = Fs::default();
    let sf = fs.fixture("empty.ts", "");

    let result = parse_files_sequential(&vec![sf], &fs.reader());
    assert!(result.warnings.is_empty());
    assert_eq!(result.files.len(), 1);
}

#[test]
fn parse_file_with_bom() {
    let mut fs = Fs::default();
    let content = "\u{FEFF}const x = 1;\n";
    let sf = fs.fixture("bom.ts", content);

    let result = parse_files_sequential(&vec![sf], &fs.reader());
    assert!(result.warnings.is_empty());
    assert_eq!(result.files.len(), 1);
}

#[test]
fn parse_file_with_crlf_line_endings() {
    let mut fs = Fs::default();
    let sf = fs.fixture("crlf.ts", "const x = 1;\r\nconst y = 2;\r\n");

    let result = parse_files_sequential(&vec![sf], &fs.reader());
    assert!(result.warnings.is_empty());
    assert_eq!(result.files.len(), 1);
}

#[test]
fn missing_file_produces_warning() {
    let mut fs = Fs::default();
    let sf = SourceFile {
        path: "nonexistent.ts".to_string(),
        language: DetectedLanguage::TypeScript,
        declaration_only: false,
    };

    let result = parse_files_sequential(&vec![sf], &fs.reader());
    assert!(result.files.is_empty());
    assert_eq!(result.warnings.len(), 1);
    assert!(result.warnings[0].message.contains("unable to read"));
}

#[test]
fn parallel_and_sequential_produce_same_file_count() {
    let mut fs = Fs::default();
    let files: Vec<SourceFile> = (0..10)
        .map(|i| fs.fixture(&format!("file{i}.ts"), &format!("const x{i} = {i};\n")))
        .collect();

    let seq = parse_files_sequential(&files, &fs.reader());
    // Each file parsed on its own, then gathered as the parallel run does.
    let reader = fs.reader();
    let outcomes: Vec<_> = files.iter().map(|sf| parse_read_file(sf, reader(&sf.path))).collect();
    let par = partition_parsed(outcomes);

    assert_eq!(seq.files.len(), par.files.len());
    assert_eq!(seq.warnings.len(), par.warnings.len());
}

#[test]
fn two_runs_over_the_same_reads_give_the_same_paths() {
    let mut fs = Fs::default();
    let mut files = vec![fs.fixture("a.ts", "const a = 1;\n")];
    files.push(SourceFile {
        path: "gone.ts".to_string(),
        language: DetectedLanguage::TypeScript,
        declaration_only: false,
    });
    files.push(fs.fixture("b.svelte", "<script>\nlet b = 2;\n</script>\n"));

    let seq = parse_files_sequential(&files, &fs.reader());
    let reader = fs.reader();
    let outcomes: Vec<_> = files.iter().rev().map(|sf| parse_read_file(sf, reader(&sf.path))).collect();
    let mut outcomes = outcomes;
    outcomes.reverse();
    let par = partition_parsed(outcomes);

    let seq_paths: Vec<&str> = seq.files.iter().map(|f| f.source_file.path.as_str()).collect();
    let par_paths: Vec<&str> = par.files.iter().map(|f| f.source_file.path.as_str()).collect();
    assert_eq!(seq_paths, vec!["a.ts", "b.svelte"]);
    assert_eq!(seq_paths, par_paths);
    let seq_warned: Vec<&str> = seq.warnings.iter().map(|w| w.path.as_str()).collect();
    let par_warned: Vec<&str> = par.warnings.iter().map(|w| w.path.as_str()).collect();
    assert_eq!(seq_warned, vec!["gone.ts"]);
    assert_eq!(seq_warned, par_warned);
}

#[test]
fn parse_declaration_file() {
    let mut fs = Fs::default();
    let sf = fs.fixture("types.d.ts",
        "declare module 'foo' {\n  export function bar(): void;\n}\n",
    );

    let result = parse_files_sequential(&vec![sf], &fs.reader());
    assert!(result.warnings.is_empty());
    assert_eq!(result.files.len(), 1);
    assert!(result.files[0].source_file.declaration_only);
}

#[test]
fn parse_deeply_nested_code() {
    let mut fs = Fs::default();
    let mut code = String::new();
    for i in 0..25 {
        code.push_str(&format!("{}if (true) {{\n", "  ".repeat(i)));
    }
    for i in (0..25).rev() {
        code.push_str(&format!("{}}}\n", "  ".repeat(i)));
    }
    let sf = fs.fixture("deep.ts", &code);

    let result = parse_files_sequential(&vec![sf], &fs.reader());
    assert!(result.warnings.is_empty());
    assert_eq!(result.files.len(), 1);
}

#[test]
fn parse_file_with_only_comments() {
    let mut fs = Fs::default();
    let sf = fs.fixture("comments.ts",
        "// just a comment\n/* block comment */\n",
    );

    let result = parse_files_sequential(&vec![sf], &fs.reader());
    assert!(result.warnings.is_empty());
    assert_eq!(result.files.len(), 1);
}

#[test]
fn read_failure_warning_names_the_file_and_reason() {
    let sf = SourceFile {
        path: "gone.ts".to_string(),
        language: DetectedLanguage::TypeScript,
        declaration_only: false,
    };
    match parse_read_file(&sf, Err("denied".to_string())) {
        Err(w) => {
            assert_eq!(w.path, "gone.ts");
            assert_eq!(w.message, "unable to read file: denied");
        }
        Ok(_) => panic!("expected a warning"),
    }
}

#[test]
fn partition_keeps_order_of_files_and_warnings() {
    let mut fs = Fs::default();
    let a = fs.fixture("a.ts", "let a = 1;");
    let b = fs.fixture("b.ts", "let b = 2;");
    let outcomes = vec![
        parse_read_file(&a, Ok("let a = 1;".to_string())),
        Err(Warning { path: "x.ts".to_string(), message: "m1".to_string() }),
        parse_read_file(&b, Ok("let b = 2;".to_string())),
        Err(Warning { path: "y.ts".to_string(), message: "m2".to_string() }),
    ];
    let r = partition_parsed(outcomes);
    let paths: Vec<&str> = r.files.iter().map(|f| f.source_file.path.as_str()).collect();
    assert_eq!(paths, vec!["a.ts", "b.ts"]);
    let warned: Vec<&str> = r.warnings.iter().map(|w| w.path.as_str()).collect();
    assert_eq!(warned, vec!["x.ts", "y.ts"]);
}

#[test]
fn svelte_script_blocks_record_their_first_line() {
    let sf = SourceFile {
        path: "C.svelte".to_string(),
        language: DetectedLanguage::Svelte,
        declaration_only: false,
    };
    let text = "<h1>x</h1>\n<script>\nlet a = 1;\n</script>\n";
    let pf = parse_source(&sf, text.to_string()).ok().unwrap();
    assert_eq!(pf.script_blocks.len(), 1);
    assert_eq!(pf.script_blocks[0].start_line, 1);
    assert!(pf.script_blocks[0].source.contains("let a = 1;"));
    let again = extract_svelte_scripts(&pf.source, &pf.tree, &pf.source_file.path).ok().unwrap();
    assert_eq!(again.len(), 1);
}
