use corvalis_recon::analyze::{analyze_project, finish_analysis};
use corvalis_recon::cli::{command_or_default, Command};
use corvalis_recon::metrics::HotspotThresholds;
use corvalis_recon::output::{DetectedLanguage, SourceFile};
use corvalis_recon::overview::build_overview;
use corvalis_recon::parse::{parse_files_sequential, ParsedFile};
use corvalis_recon::report::{complexity_report, source_files_from_args, thresholds_with};
use corvalis_recon::resolve::PathAliases;
use corvalis_recon::walk::{finish_walk, WalkResult};

const ROOT: &str = "/tmp/fixture-project";

fn source(path: &str, language: DetectedLanguage) -> SourceFile {
    SourceFile {
        path: path.to_string(),
        language,
        declaration_only: false,
    }
}

fn parse_all(files: &[(&str, &str)], sources: &[SourceFile]) -> corvalis_recon::parse::ParseResult {
    let contents: Vec<(String, String)> = files
        .iter()
        .map(|(p, c)| (p.to_string(), c.to_string()))
        .collect();
    let read = |p: &String| -> Result<String, String> {
        contents
            .iter()
            .find(|(q, _)| q == p)
            .map(|(_, c)| c.clone())
            .ok_or_else(|| "missing".to_string())
    };
    parse_files_sequential(&sources.to_vec(), &read)
}

fn package(name: &str) -> String {
    format!(r#"{{"name": "{}"}}"#, name)
}

#[test]
fn analyze_end_to_end_builds_project_result() {
    let files = [
        (
            "src/main.ts",
            "import { helper } from './lib';\nexport function main() { return helper(); }\n",
        ),
        ("src/lib.ts", "export function helper() { return 1; }\n"),
    ];
    let walk = finish_walk(
        vec![
            source("src/main.ts", DetectedLanguage::TypeScript),
            source("src/lib.ts", DetectedLanguage::TypeScript),
        ],
        Vec::new(),
    );
    let parsed = parse_all(&files, &walk.files);
    let names: Vec<String> = files.iter().map(|(p, _)| p.to_string()).collect();
    let is_file = |p: &String| names.contains(p);
    let read_config = |_: &String| -> Option<PathAliases> { None };
    let in_root = |n: &String| n == "package.json";
    let pkg = package("fixture-project");

    let result = analyze_project(ROOT, walk, parsed, Some(pkg.as_str()), &is_file, &read_config, &in_root);
    let output = finish_analysis(result, None);

    assert_eq!(output.result.project.name, "fixture-project");
    assert_eq!(output.result.summary.total_files, 2);
    assert_eq!(output.result.graph.stats.total_files, 2);
    assert_eq!(output.result.files[0].path, "src/main.ts");
    assert!(output.pretty.contains("src/main.ts"));
    assert_eq!(output.result.project.config_files, vec!["package.json".to_string()]);
    assert_eq!(output.result.project.entry_points, vec!["src/main.ts".to_string()]);
}

#[test]
fn build_overview_assembles_all_fields() {
    let source_files = vec![source("src/main.ts", DetectedLanguage::TypeScript)];
    let files = [("src/main.ts", "export const x = 1;\n")];
    let parsed = parse_all(&files, &source_files);
    let analyses: Vec<_> = parsed
        .files
        .iter()
        .map(|pf: &ParsedFile| corvalis_recon::output::FileAnalysis {
            path: pf.source_file.path.clone(),
            language: "typescript".to_string(),
            symbols: Vec::new(),
            imports: Vec::new(),
            exports: Vec::new(),
            metrics: corvalis_recon::output::FileMetrics {
                code_lines: 42,
                ..Default::default()
            },
        })
        .collect();
    let entry_points = vec!["src/main.ts".to_string()];
    let pkg = package("test-project");
    let in_root = |n: &String| n == "package.json" || n == "tsconfig.json";

    let overview = build_overview(ROOT, &source_files, &analyses, &entry_points, Some(pkg.as_str()), &in_root);

    assert_eq!(overview.name, "test-project");
    assert!(!overview.root.is_empty());
    let ts = &overview.languages.iter().find(|(l, _)| l == "typescript").unwrap().1;
    assert_eq!(ts.file_count, 1);
    assert_eq!(ts.lines_of_code, 42);
    assert_eq!(overview.entry_points, vec!["src/main.ts"]);
    assert!(overview.config_files.contains(&"package.json".to_string()));
    assert!(overview.config_files.contains(&"tsconfig.json".to_string()));
    assert!(!overview.directory_tree.is_empty());
}

#[test]
fn analysis_warnings_keep_discovery_then_parse_order() {
    let walk = WalkResult {
        files: vec![source("gone.ts", DetectedLanguage::TypeScript)],
        warnings: vec![corvalis_recon::output::Warning {
            path: "big.ts".to_string(),
            message: "skipped".to_string(),
        }],
    };
    let parsed = parse_all(&[], &walk.files);
    let result = analyze_project(
        "proj",
        walk,
        parsed,
        None,
        &|_: &String| false,
        &|_: &String| None,
        &|_: &String| false,
    );
    let paths: Vec<&str> = result.warnings.iter().map(|w| w.path.as_str()).collect();
    assert_eq!(paths, vec!["big.ts", "gone.ts"]);
    assert_eq!(result.project.name, "proj");
    assert!(result.files.is_empty());
}

#[test]
fn budget_output_is_rendered_after_trimming() {
    let files = [("a.ts", "export function a() { return 1; }\n")];
    let walk = finish_walk(vec![source("a.ts", DetectedLanguage::TypeScript)], Vec::new());
    let parsed = parse_all(&files, &walk.files);
    let result = analyze_project(
        "proj",
        walk,
        parsed,
        None,
        &|_: &String| false,
        &|_: &String| None,
        &|_: &String| false,
    );
    let output = finish_analysis(result, Some((1, 10_000, vec![(500, 200)])));
    assert!(output.result.files.is_empty());
    assert_eq!(output.pretty, "(no analyzed files)");
}

#[test]
fn a_budget_trims_only_the_files() {
    let files = [
        ("a.ts", "export function a() { return 1; }\n"),
        ("b.ts", "import { a } from './a';\nexport function b() { return a(); }\n"),
    ];
    let walk = finish_walk(
        vec![source("a.ts", DetectedLanguage::TypeScript), source("b.ts", DetectedLanguage::TypeScript)],
        Vec::new(),
    );
    let parsed = parse_all(&files, &walk.files);
    let result = analyze_project(
        "proj",
        walk,
        parsed,
        None,
        &|p: &String| p == "a.ts" || p == "b.ts",
        &|_: &String| None,
        &|_: &String| false,
    );
    let whole = finish_analysis(result.clone(), None);
    let trimmed = finish_analysis(result, Some((1, 10_000, vec![(500, 200), (500, 200)])));
    assert_eq!(trimmed.result.version, whole.result.version);
    assert_eq!(trimmed.result.project.name, whole.result.project.name);
    assert_eq!(trimmed.result.summary.total_files, whole.result.summary.total_files);
    assert_eq!(trimmed.result.summary.total_files, 2);
    assert_eq!(trimmed.result.graph.adjacency.len(), whole.result.graph.adjacency.len());
    assert_eq!(trimmed.result.warnings.len(), whole.result.warnings.len());
    assert_eq!(whole.result.files.len(), 2);
    assert!(trimmed.result.files.is_empty());
}

#[test]
fn missing_command_means_full_analysis() {
    assert!(matches!(command_or_default(None), Command::Analyze { budget: None }));
    assert!(matches!(command_or_default(Some(Command::Deps)), Command::Deps));
}

#[test]
fn named_files_keep_supported_ones_with_forward_slashes() {
    let args = vec![
        "src\\main.ts".to_string(),
        "README.md".to_string(),
        "types/env.d.ts".to_string(),
    ];
    let files = source_files_from_args(&args);
    assert_eq!(files.len(), 2);
    assert_eq!(files[0].path, "src/main.ts");
    assert_eq!(files[0].language, DetectedLanguage::TypeScript);
    assert_eq!(files[1].path, "types/env.d.ts");
    assert!(files[1].declaration_only);
}

#[test]
fn thresholds_default_where_not_given() {
    let t = thresholds_with(Some(15), None, None, Some(2));
    let d = HotspotThresholds::default();
    assert_eq!(t.complexity, 15);
    assert_eq!(t.nesting, d.nesting);
    assert_eq!(t.loc, d.loc);
    assert_eq!(t.params, 2);
}

#[test]
fn complexity_report_filters_by_threshold_and_attaches_hotspots() {
    let sources = vec![
        source("simple.ts", DetectedLanguage::TypeScript),
        source("branchy.ts", DetectedLanguage::TypeScript),
    ];
    let files = [
        ("simple.ts", "function s() { return 1; }\n"),
        (
            "branchy.ts",
            "function b(x: number) { if (x) { if (x > 1) { return 1; } } return 2; }\n",
        ),
    ];
    let parsed = parse_all(&files, &sources);
    let thresholds = thresholds_with(Some(1), Some(1), None, None);
    let report = complexity_report(&parsed.files, Some(2), &thresholds);
    assert_eq!(report.files.len(), 1);
    assert_eq!(report.files[0].path, "branchy.ts");
    assert_eq!(report.files[0].metrics.cyclomatic_complexity, 3);
    let metrics: Vec<&str> = report.files[0].hotspots.iter().map(|h| h.metric.as_str()).collect();
    assert_eq!(metrics, vec!["cyclomatic_complexity", "max_nesting_depth"]);
    assert_eq!(report.hotspots.len(), 2);

    let all = complexity_report(&parsed.files, None, &thresholds);
    assert_eq!(all.files.len(), 2);
    assert!(all.files[0].hotspots.is_empty());
}
