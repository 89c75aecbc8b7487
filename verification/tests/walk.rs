use corvalis_recon::config::MAX_FILE_SIZE_BYTES;
use corvalis_recon::output::{DetectedLanguage, SourceFile, Warning};
use corvalis_recon::walk::{
    checked_override_globs, classify_entry, finish_walk, has_nul_byte, override_globs, normalize_path,
    EntryOutcome,
    WalkOptions, WalkResult,
};

const ROOT: &str = "/tmp/project";

/// A walked entry: its path under the root, whether it is a directory, its
/// content.
struct Entry {
    path: String,
    is_dir: bool,
    content: Vec<u8>,
}

fn file(rel: &str, content: &[u8]) -> Entry {
    Entry {
        path: format!("{ROOT}/{rel}"),
        is_dir: false,
        content: content.to_vec(),
    }
}

fn dir(rel: &str) -> Entry {
    Entry {
        path: format!("{ROOT}/{rel}"),
        is_dir: true,
        content: Vec::new(),
    }
}

/// Runs the decisions of discovery over the entries a walk produced.
fn discover(entries: &[Entry]) -> WalkResult {
    let mut files: Vec<SourceFile> = Vec::new();
    let mut warnings: Vec<Warning> = Vec::new();
    for e in entries {
        let head = &e.content[..e.content.len().min(512)];
        let outcome = classify_entry(
            &e.path,
            ROOT,
            e.is_dir,
            true,
            has_nul_byte(head),
            Some(e.content.len() as u64),
        );
        match outcome {
            EntryOutcome::Ignored => {}
            EntryOutcome::Skipped(w) => warnings.push(w),
            EntryOutcome::Found(sf) => files.push(sf),
        }
    }
    finish_walk(files, warnings)
}

fn fixture_entries() -> Vec<Entry> {
    vec![
        file("main.ts", b"const x = 1;"),
        file("app.tsx", b"export default function App() {}"),
        file("utils.js", b"module.exports = {};"),
        file("helper.mjs", b"export const h = 1;"),
        file("legacy.cjs", b"module.exports = {};"),
        file("Component.jsx", b"function Comp() {}"),
        file("Button.svelte", b"<script>let x = 1;</script>"),
        file("types.d.ts", b"declare module 'foo';"),
        file("readme.md", b"# Hello"),
        file("style.css", b"body {}"),
    ]
}

#[test]
fn discovers_all_supported_extensions() {
    let result = discover(&fixture_entries());
    let paths: Vec<&str> = result.files.iter().map(|f| f.path.as_str()).collect();
    for expected in [
        "main.ts",
        "app.tsx",
        "utils.js",
        "helper.mjs",
        "legacy.cjs",
        "Component.jsx",
        "Button.svelte",
        "types.d.ts",
    ] {
        assert!(paths.contains(&expected), "missing {expected}: {paths:?}");
    }
}

#[test]
fn excludes_unsupported_extensions() {
    let result = discover(&fixture_entries());
    let paths: Vec<&str> = result.files.iter().map(|f| f.path.as_str()).collect();
    assert!(!paths.contains(&"readme.md"));
    assert!(!paths.contains(&"style.css"));
}

#[test]
fn tags_declaration_files() {
    let result = discover(&fixture_entries());
    let dts = result.files.iter().find(|f| f.path == "types.d.ts").unwrap();
    assert!(dts.declaration_only);
    assert_eq!(dts.language, DetectedLanguage::TypeScript);
    let ts = result.files.iter().find(|f| f.path == "main.ts").unwrap();
    assert!(!ts.declaration_only);
}

#[test]
fn skips_oversized_files_with_warning() {
    let content = vec![b'x'; (MAX_FILE_SIZE_BYTES + 1) as usize];
    let result = discover(&[file("huge.ts", &content)]);

    assert!(result.files.is_empty());
    assert_eq!(result.warnings.len(), 1);
    assert!(result.warnings[0].message.contains("exceeds"));
    assert_eq!(
        result.warnings[0].message,
        "skipped: file exceeds 1048576 byte limit (1048577 bytes)"
    );
    assert_eq!(result.warnings[0].path, "huge.ts");
}

#[test]
fn skips_binary_files_with_warning() {
    let mut content = b"var x = 1;\0\0\0binary garbage".to_vec();
    content.extend_from_slice(b"\0\0");
    let result = discover(&[file("bundle.js", &content)]);

    assert!(result.files.is_empty());
    assert_eq!(result.warnings.len(), 1);
    assert!(result.warnings[0].message.contains("binary"));
}

#[test]
fn empty_directory_returns_empty() {
    let result = discover(&[]);
    assert!(result.files.is_empty());
    assert!(result.warnings.is_empty());
}

#[test]
fn output_paths_use_forward_slashes() {
    let result = discover(&[dir("src"), file("src/index.ts", b"export {};")]);
    assert_eq!(result.files.len(), 1);
    assert_eq!(result.files[0].path, "src/index.ts");
    assert!(!result.files[0].path.contains('\\'));
    assert_eq!(normalize_path("C:\\proj\\src\\a.ts", "C:\\proj"), "C:/proj/src/a.ts");
    assert_eq!(normalize_path("/r/x\\y.ts", "/r"), "x/y.ts");
}

#[test]
fn files_are_sorted_by_path() {
    let result = discover(&[file("z.ts", b""), file("a.ts", b""), file("m.ts", b"")]);
    let paths: Vec<&str> = result.files.iter().map(|f| f.path.as_str()).collect();
    assert_eq!(paths, vec!["a.ts", "m.ts", "z.ts"]);
}

#[test]
fn empty_files_are_included() {
    let result = discover(&[file("empty.ts", b"")]);
    assert_eq!(result.files.len(), 1);
    assert_eq!(result.files[0].path, "empty.ts");
}

#[test]
fn subdirectory_traversal() {
    let result = discover(&[
        dir("src"),
        dir("src/components"),
        dir("src/components/ui"),
        file("src/components/ui/Button.tsx", b"export {};"),
    ]);
    assert_eq!(result.files.len(), 1);
    assert_eq!(result.files[0].path, "src/components/ui/Button.tsx");
}

#[test]
fn relative_path_strips_the_root_only_at_a_separator() {
    assert_eq!(normalize_path("/tmp/project/a.ts", "/tmp/project"), "a.ts");
    assert_eq!(normalize_path("/tmp/project/a.ts", "/tmp/project/"), "a.ts");
    assert_eq!(normalize_path("/tmp/projectx/a.ts", "/tmp/project"), "/tmp/projectx/a.ts");
    assert_eq!(normalize_path("/tmp/project", "/tmp/project"), "");
}

#[test]
fn nul_byte_marks_binary_content() {
    assert!(!has_nul_byte(b"plain text"));
    assert!(has_nul_byte(b"a\0b"));
    assert!(!has_nul_byte(b""));
}

#[test]
fn non_utf8_names_and_directories_are_ignored() {
    assert!(matches!(
        classify_entry("/r/a.ts", "/r", false, false, false, Some(1)),
        EntryOutcome::Ignored
    ));
    assert!(matches!(
        classify_entry("/r/dir.ts", "/r", true, true, false, None),
        EntryOutcome::Ignored
    ));
    // An unknown size is no reason to skip.
    assert!(matches!(
        classify_entry("/r/a.ts", "/r", false, true, false, None),
        EntryOutcome::Found(_)
    ));
}

#[test]
fn override_globs_skip_default_dirs_then_apply_user_globs() {
    let globs = override_globs(&WalkOptions {
        included: Some("src/**".to_string()),
        exclude: Some("*.test.ts".to_string()),
    });
    assert_eq!(
        globs,
        vec![
            "!node_modules/",
            "!dist/",
            "!.git/",
            "!target/",
            "!__pycache__/",
            "!.next/",
            "!build/",
            "src/**",
            "!*.test.ts",
        ]
    );
    let plain = override_globs(&WalkOptions {
        included: None,
        exclude: None,
    });
    assert_eq!(plain.len(), 7);
}

#[test]
fn equal_paths_keep_their_order() {
    let mk = |p: &str, d: bool| SourceFile {
        path: p.to_string(),
        language: DetectedLanguage::TypeScript,
        declaration_only: d,
    };
    let r = finish_walk(vec![mk("b.ts", false), mk("a.ts", true), mk("a.ts", false)], Vec::new());
    let got: Vec<(&str, bool)> = r.files.iter().map(|f| (f.path.as_str(), f.declaration_only)).collect();
    assert_eq!(got, vec![("a.ts", true), ("a.ts", false), ("b.ts", false)]);
}

#[test]
fn invalid_include_glob_returns_error() {
    let error = checked_override_globs(&WalkOptions { included: Some("[".into()), exclude: None }).unwrap_err();
    assert!(error.contains("invalid include glob"));
}

#[test]
fn invalid_exclude_glob_names_the_glob() {
    let error = checked_override_globs(&WalkOptions { included: None, exclude: Some("a[".into()) }).unwrap_err();
    assert_eq!(error, "invalid exclude glob: a[");
}

#[test]
fn valid_globs_are_all_returned() {
    let globs = checked_override_globs(&WalkOptions { included: Some("src/**".into()), exclude: Some("*.d.ts".into()) })
        .unwrap();
    assert_eq!(globs.len(), 9);
    assert_eq!(globs[7], "src/**");
    assert_eq!(globs[8], "!*.d.ts");
}
