use corvalis_recon::analyze::{
    apply_budget, build_summary, format_pretty, plan_budget, summarize_file, summarize_symbol,
    target_chars, FileBudget,
};
use corvalis_recon::config::{
    BUDGET_HEADROOM_PERCENT, DEFAULT_COMPLEXITY_THRESHOLD, DEFAULT_LOC_THRESHOLD,
    DEFAULT_NESTING_THRESHOLD, DEFAULT_PARAMS_THRESHOLD, DEFAULT_SKIP_DIRS, MAX_FILE_SIZE_BYTES,
    SUPPORTED_EXTENSIONS,
};
use corvalis_recon::language::{detect_language, is_declaration_file};
use corvalis_recon::metrics::{detect_hotspots, HotspotThresholds};
use corvalis_recon::output::{
    AnalysisResult, Dependency, DependencyGraph, DetectedLanguage, Export, ExportKind,
    FileAnalysis, FileMetrics, FunctionMetrics, GraphStats, Hotspot, Import, ImportKind,
    ProjectOverview, SourceFile, Summary, Symbol, SymbolKind, Warning,
};
use corvalis_recon::overview::{
    build_directory_tree, compute_language_stats, detect_config_files, detect_project_name,
    top_level_directory,
};
use corvalis_recon::ranking::score_files;
use corvalis_recon::resolve::normalize_path;

// ---------------------------------------------------------------------------
// config
// ---------------------------------------------------------------------------

#[test]
fn skip_dirs_includes_node_modules() {
    assert!(DEFAULT_SKIP_DIRS.contains(&"node_modules"));
}

#[test]
fn supported_extensions_cover_all_target_languages() {
    for ext in ["ts", "tsx", "js", "jsx", "mjs", "cjs", "svelte"] {
        assert!(
            SUPPORTED_EXTENSIONS.contains(&ext),
            "missing extension: {ext}"
        );
    }
}

#[test]
fn max_file_size_is_one_megabyte() {
    assert_eq!(MAX_FILE_SIZE_BYTES, 1024 * 1024);
}

#[test]
fn budget_headroom_leaves_room() {
    let headroom = BUDGET_HEADROOM_PERCENT as f64 / 100.0;
    assert!(headroom > 0.0 && headroom < 1.0);
}

// ---------------------------------------------------------------------------
// language
// ---------------------------------------------------------------------------

#[test]
fn detect_typescript() {
    assert_eq!(detect_language("src/main.ts"), Some(DetectedLanguage::TypeScript));
}

#[test]
fn detect_tsx() {
    assert_eq!(detect_language("App.tsx"), Some(DetectedLanguage::Tsx));
}

#[test]
fn detect_javascript_variants() {
    for ext in ["js", "mjs", "cjs"] {
        let path = format!("file.{ext}");
        assert_eq!(
            detect_language(&path),
            Some(DetectedLanguage::JavaScript),
            "failed for .{ext}"
        );
    }
}

#[test]
fn detect_jsx() {
    assert_eq!(detect_language("Component.jsx"), Some(DetectedLanguage::Jsx));
}

#[test]
fn detect_svelte() {
    assert_eq!(detect_language("Button.svelte"), Some(DetectedLanguage::Svelte));
}

#[test]
fn detect_declaration_file_as_typescript() {
    assert_eq!(
        detect_language("types/globals.d.ts"),
        Some(DetectedLanguage::TypeScript)
    );
}

#[test]
fn is_declaration_true_for_d_ts() {
    assert!(is_declaration_file("globals.d.ts"));
    assert!(is_declaration_file("src/types/env.d.ts"));
}

#[test]
fn is_declaration_false_for_regular_ts() {
    assert!(!is_declaration_file("main.ts"));
    assert!(!is_declaration_file("App.tsx"));
}

#[test]
fn unsupported_extension_returns_none() {
    assert_eq!(detect_language("readme.md"), None);
    assert_eq!(detect_language("style.css"), None);
    assert_eq!(detect_language("Cargo.toml"), None);
}

#[test]
fn no_extension_returns_none() {
    assert_eq!(detect_language("Makefile"), None);
}

#[test]
fn hidden_file_with_supported_extension() {
    assert_eq!(detect_language(".eslintrc.js"), Some(DetectedLanguage::JavaScript));
}

#[test]
fn extension_is_matched_exactly() {
    assert_eq!(detect_language("main.TS"), None);
    assert_eq!(detect_language("dir.ts/readme"), None);
    assert_eq!(detect_language("a.b.tsx"), Some(DetectedLanguage::Tsx));
    assert!(!is_declaration_file("d.ts.js"));
}

// ---------------------------------------------------------------------------
// output
// ---------------------------------------------------------------------------

#[test]
fn detected_language_as_str() {
    assert_eq!(DetectedLanguage::TypeScript.as_str(), "typescript");
    assert_eq!(DetectedLanguage::Tsx.as_str(), "tsx");
    assert_eq!(DetectedLanguage::Svelte.as_str(), "svelte");
}

#[test]
fn empty_analysis_result_has_nothing() {
    let r = AnalysisResult::empty();
    assert_eq!(r.version, "0.1.0");
    assert!(r.files.is_empty());
    assert!(r.warnings.is_empty());
    assert!(r.graph.adjacency.is_empty());
    assert_eq!(r.summary.total_files, 0);
}

// ---------------------------------------------------------------------------
// metrics: hotspots
// ---------------------------------------------------------------------------

fn make_function(name: &str, complexity: u32, nesting: u32, loc: usize, params: u32) -> FunctionMetrics {
    FunctionMetrics {
        name: name.to_string(),
        line: 1,
        end_line: loc,
        lines_of_code: loc,
        cyclomatic_complexity: complexity,
        max_nesting_depth: nesting,
        parameter_count: params,
    }
}

fn metrics_with(functions: Vec<FunctionMetrics>) -> FileMetrics {
    FileMetrics {
        functions,
        ..Default::default()
    }
}

#[test]
fn detect_hotspots_flags_exceeding_complexity() {
    let thresholds = HotspotThresholds {
        complexity: 10,
        nesting: 3,
        loc: 30,
        params: 4,
    };
    let metrics = metrics_with(vec![
        make_function("simple", 2, 1, 10, 1),
        make_function("complex", 15, 2, 20, 3),
    ]);

    let hotspots = detect_hotspots("src/main.ts", &metrics, &thresholds);
    assert_eq!(hotspots.len(), 1);
    assert_eq!(hotspots[0].function, "complex");
    assert_eq!(hotspots[0].metric, "cyclomatic_complexity");
    assert_eq!(hotspots[0].value, 15);
    assert_eq!(hotspots[0].threshold, 10);
}

#[test]
fn detect_hotspots_flags_multiple_metrics_for_same_function() {
    let thresholds = HotspotThresholds {
        complexity: 10,
        nesting: 3,
        loc: 30,
        params: 4,
    };
    let metrics = metrics_with(vec![make_function("monster", 20, 5, 50, 8)]);

    let hotspots = detect_hotspots("src/monster.ts", &metrics, &thresholds);
    assert_eq!(hotspots.len(), 4);
    let metric_names: Vec<&str> = hotspots.iter().map(|h| h.metric.as_str()).collect();
    assert!(metric_names.contains(&"cyclomatic_complexity"));
    assert!(metric_names.contains(&"max_nesting_depth"));
    assert!(metric_names.contains(&"lines_of_code"));
    assert!(metric_names.contains(&"parameter_count"));
}

#[test]
fn detect_hotspots_returns_empty_for_clean_code() {
    let thresholds = HotspotThresholds::default();
    let metrics = metrics_with(vec![make_function("clean", 5, 2, 15, 2)]);

    let hotspots = detect_hotspots("src/clean.ts", &metrics, &thresholds);
    assert!(hotspots.is_empty());
}

#[test]
fn detect_hotspots_at_exact_threshold_not_flagged() {
    let thresholds = HotspotThresholds {
        complexity: 10,
        nesting: 3,
        loc: 30,
        params: 4,
    };
    let metrics = metrics_with(vec![make_function("borderline", 10, 3, 30, 4)]);

    let hotspots = detect_hotspots("src/edge.ts", &metrics, &thresholds);
    assert!(hotspots.is_empty());
}

#[test]
fn default_thresholds_match_config() {
    let t = HotspotThresholds::default();
    assert_eq!(t.complexity, DEFAULT_COMPLEXITY_THRESHOLD);
    assert_eq!(t.nesting, DEFAULT_NESTING_THRESHOLD);
    assert_eq!(t.loc, DEFAULT_LOC_THRESHOLD);
    assert_eq!(t.params, DEFAULT_PARAMS_THRESHOLD);
}

#[test]
fn hotspots_come_in_metric_order_and_exceed_their_thresholds() {
    let thresholds = HotspotThresholds {
        complexity: 1,
        nesting: 1,
        loc: 1,
        params: 1,
    };
    let metrics = metrics_with(vec![
        make_function("a", 2, 0, 2, 0),
        make_function("b", 0, 2, 0, 2),
    ]);
    let hotspots = detect_hotspots("x.ts", &metrics, &thresholds);
    let order: Vec<(&str, &str)> = hotspots
        .iter()
        .map(|h| (h.function.as_str(), h.metric.as_str()))
        .collect();
    assert_eq!(
        order,
        vec![
            ("a", "cyclomatic_complexity"),
            ("a", "lines_of_code"),
            ("b", "max_nesting_depth"),
            ("b", "parameter_count"),
        ]
    );
    for h in &hotspots {
        assert!(h.value > h.threshold);
        assert_eq!(h.path, "x.ts");
    }
}

// ---------------------------------------------------------------------------
// overview
// ---------------------------------------------------------------------------

fn make_source_file(path: &str, lang: DetectedLanguage) -> SourceFile {
    SourceFile {
        path: path.to_string(),
        language: lang,
        declaration_only: false,
    }
}

fn make_file_analysis(path: &str, language: &str, code_lines: usize) -> FileAnalysis {
    FileAnalysis {
        path: path.to_string(),
        language: language.to_string(),
        symbols: Vec::new(),
        imports: Vec::new(),
        exports: Vec::new(),
        metrics: FileMetrics {
            code_lines,
            ..Default::default()
        },
    }
}

fn stat<'a>(stats: &'a [(String, corvalis_recon::output::LanguageStats)], lang: &str) -> &'a corvalis_recon::output::LanguageStats {
    &stats.iter().find(|(l, _)| l == lang).unwrap().1
}

#[test]
fn compute_language_stats_groups_by_language() {
    let source_files = vec![
        make_source_file("src/a.ts", DetectedLanguage::TypeScript),
        make_source_file("src/b.ts", DetectedLanguage::TypeScript),
        make_source_file("src/c.js", DetectedLanguage::JavaScript),
    ];
    let analyses = vec![
        make_file_analysis("src/a.ts", "typescript", 100),
        make_file_analysis("src/b.ts", "typescript", 50),
        make_file_analysis("src/c.js", "javascript", 30),
    ];

    let stats = compute_language_stats(&source_files, &analyses);

    assert_eq!(stat(&stats, "typescript").file_count, 2);
    assert_eq!(stat(&stats, "typescript").lines_of_code, 150);
    assert_eq!(stat(&stats, "javascript").file_count, 1);
    assert_eq!(stat(&stats, "javascript").lines_of_code, 30);
}

#[test]
fn compute_language_stats_empty_input() {
    let stats = compute_language_stats(&Vec::new(), &Vec::new());
    assert!(stats.is_empty());
}

#[test]
fn language_stats_are_sorted_and_count_files_without_analysis_as_zero() {
    let source_files = vec![
        make_source_file("b.svelte", DetectedLanguage::Svelte),
        make_source_file("a.tsx", DetectedLanguage::Tsx),
        make_source_file("c.jsx", DetectedLanguage::Jsx),
    ];
    let analyses = vec![make_file_analysis("a.tsx", "tsx", 7)];
    let stats = compute_language_stats(&source_files, &analyses);
    let names: Vec<&str> = stats.iter().map(|(l, _)| l.as_str()).collect();
    assert_eq!(names, vec!["jsx", "svelte", "tsx"]);
    assert_eq!(stat(&stats, "tsx").lines_of_code, 7);
    assert_eq!(stat(&stats, "svelte").lines_of_code, 0);
}

#[test]
fn build_directory_tree_groups_by_top_level() {
    let source_files = vec![
        make_source_file("src/a.ts", DetectedLanguage::TypeScript),
        make_source_file("src/b.ts", DetectedLanguage::TypeScript),
        make_source_file("src/sub/c.ts", DetectedLanguage::TypeScript),
        make_source_file("lib/d.ts", DetectedLanguage::TypeScript),
        make_source_file("root.ts", DetectedLanguage::TypeScript),
    ];

    let tree = build_directory_tree(&source_files);

    let src = tree.iter().find(|d| d.path == "src").unwrap();
    assert_eq!(src.file_count, 3);
    let lib = tree.iter().find(|d| d.path == "lib").unwrap();
    assert_eq!(lib.file_count, 1);
    let root = tree.iter().find(|d| d.path == ".").unwrap();
    assert_eq!(root.file_count, 1);
}

#[test]
fn build_directory_tree_sorted_by_count_descending() {
    let source_files = vec![
        make_source_file("big/a.ts", DetectedLanguage::TypeScript),
        make_source_file("big/b.ts", DetectedLanguage::TypeScript),
        make_source_file("big/c.ts", DetectedLanguage::TypeScript),
        make_source_file("small/a.ts", DetectedLanguage::TypeScript),
    ];

    let tree = build_directory_tree(&source_files);
    assert_eq!(tree[0].path, "big");
    assert_eq!(tree[1].path, "small");
}

#[test]
fn directory_tree_ties_are_ordered_by_name() {
    let source_files = vec![
        make_source_file("zeta/a.ts", DetectedLanguage::TypeScript),
        make_source_file("alpha/a.ts", DetectedLanguage::TypeScript),
        make_source_file("mid/a.ts", DetectedLanguage::TypeScript),
        make_source_file("mid/b.ts", DetectedLanguage::TypeScript),
    ];
    let tree = build_directory_tree(&source_files);
    let names: Vec<&str> = tree.iter().map(|d| d.path.as_str()).collect();
    assert_eq!(names, vec!["mid", "alpha", "zeta"]);
}

#[test]
fn top_level_directory_extracts_first_segment() {
    assert_eq!(top_level_directory("src/foo/bar.ts"), "src");
    assert_eq!(top_level_directory("lib/utils.ts"), "lib");
    assert_eq!(top_level_directory("root.ts"), ".");
}

#[test]
fn detect_project_name_from_package_json() {
    let name = detect_project_name("/tmp/some-dir", Some(r#"{"name": "my-cool-project"}"#));
    assert_eq!(name, "my-cool-project");
}

#[test]
fn detect_project_name_falls_back_to_dir_name() {
    let name = detect_project_name("/tmp/some-dir", None);
    assert!(!name.is_empty());
    assert_ne!(name, "unknown");
    assert_eq!(name, "some-dir");
}

#[test]
fn detect_project_name_with_empty_package_name() {
    let name = detect_project_name("/tmp/some-dir", Some(r#"{"name": ""}"#));
    assert!(!name.is_empty());
    assert_eq!(name, "some-dir");
}

#[test]
fn detect_project_name_with_invalid_json() {
    let name = detect_project_name("/tmp/some-dir", Some("not valid json"));
    assert!(!name.is_empty());
}

#[test]
fn detect_project_name_without_any_name_is_unknown() {
    assert_eq!(detect_project_name("/", None), "unknown");
    assert_eq!(detect_project_name("proj", Some(r#"{"name": 7}"#)), "proj");
}

#[test]
fn detect_config_files_finds_existing() {
    let present = |name: &String| name == "tsconfig.json" || name == "package.json";
    let configs = detect_config_files(&present);
    assert!(configs.contains(&"tsconfig.json".to_string()));
    assert!(configs.contains(&"package.json".to_string()));
    assert_eq!(configs, vec!["package.json".to_string(), "tsconfig.json".to_string()]);
}

#[test]
fn detect_config_files_empty_dir() {
    let configs = detect_config_files(&|_: &String| false);
    assert!(configs.is_empty());
}

#[test]
fn detect_config_files_only_reports_known_names() {
    let configs = detect_config_files(&|_: &String| true);
    assert_eq!(configs.len(), 26);
    let mut sorted = configs.clone();
    sorted.sort();
    assert_eq!(configs, sorted);
}

// ---------------------------------------------------------------------------
// resolve
// ---------------------------------------------------------------------------

#[test]
fn normalize_path_resolves_dot_and_dotdot() {
    let result = normalize_path("src/./components/../utils");
    assert_eq!(result, "src/utils");
}

#[test]
fn normalize_path_drops_leading_parents_and_keeps_root() {
    assert_eq!(normalize_path("../a/./b"), "a/b");
    assert_eq!(normalize_path("/x/../y"), "/y");
    assert_eq!(normalize_path("a//b/"), "a/b");
}

// ---------------------------------------------------------------------------
// ranking
// ---------------------------------------------------------------------------

fn make_scored_file(path: &str, export_count: usize) -> FileAnalysis {
    FileAnalysis {
        path: path.to_string(),
        language: "typescript".to_string(),
        symbols: Vec::new(),
        imports: Vec::new(),
        exports: (0..export_count)
            .map(|i| Export {
                name: format!("export_{i}"),
                kind: ExportKind::Named,
                line: i + 1,
                source: None,
            })
            .collect(),
        metrics: FileMetrics::default(),
    }
}

fn make_graph(adjacency: Vec<(String, Vec<Dependency>)>, entry_points: Vec<String>) -> DependencyGraph {
    DependencyGraph {
        adjacency,
        entry_points,
        leaf_nodes: Vec::new(),
        cycles: Vec::new(),
        stats: GraphStats::default(),
    }
}

fn internal(target: &str) -> Dependency {
    Dependency {
        target: target.to_string(),
        specifiers: vec![],
        resolved: true,
        external: false,
    }
}

#[test]
fn entry_points_rank_higher_than_non_entry_points() {
    let files = vec![make_scored_file("lib.ts", 2), make_scored_file("main.ts", 0)];
    let graph = make_graph(Vec::new(), vec!["main.ts".to_string()]);

    let scores = score_files(&files, &graph, &Vec::new());

    let main_score = scores.iter().find(|s| s.path == "main.ts").unwrap();
    let lib_score = scores.iter().find(|s| s.path == "lib.ts").unwrap();
    assert!(main_score.score > lib_score.score);
    assert!(main_score.is_entry_point);
    assert!(!lib_score.is_entry_point);
}

#[test]
fn files_with_more_incoming_edges_rank_higher() {
    let files = vec![make_scored_file("utils.ts", 1), make_scored_file("helper.ts", 1)];
    let adjacency = vec![
        ("a.ts".to_string(), vec![internal("utils.ts")]),
        ("b.ts".to_string(), vec![internal("utils.ts"), internal("helper.ts")]),
    ];
    let graph = make_graph(adjacency, Vec::new());

    let scores = score_files(&files, &graph, &Vec::new());
    let utils_score = scores.iter().find(|s| s.path == "utils.ts").unwrap();
    let helper_score = scores.iter().find(|s| s.path == "helper.ts").unwrap();
    assert!(utils_score.score > helper_score.score);
}

#[test]
fn hotspot_files_rank_higher() {
    let files = vec![make_scored_file("clean.ts", 1), make_scored_file("complex.ts", 1)];
    let graph = make_graph(Vec::new(), Vec::new());
    let hotspots = vec![Hotspot {
        path: "complex.ts".to_string(),
        function: "doStuff".to_string(),
        metric: "cyclomatic_complexity".to_string(),
        value: 15,
        threshold: 10,
    }];

    let scores = score_files(&files, &graph, &hotspots);
    let complex_score = scores.iter().find(|s| s.path == "complex.ts").unwrap();
    let clean_score = scores.iter().find(|s| s.path == "clean.ts").unwrap();
    assert!(complex_score.score > clean_score.score);
}

#[test]
fn scores_sorted_descending() {
    let files = vec![
        make_scored_file("low.ts", 0),
        make_scored_file("mid.ts", 3),
        make_scored_file("high.ts", 10),
    ];
    let graph = make_graph(Vec::new(), Vec::new());

    let scores = score_files(&files, &graph, &Vec::new());
    assert_eq!(scores[0].path, "high.ts");
    assert_eq!(scores[1].path, "mid.ts");
    assert_eq!(scores[2].path, "low.ts");
}

#[test]
fn empty_files_produces_empty_scores() {
    let graph = make_graph(Vec::new(), Vec::new());
    let scores = score_files(&Vec::new(), &graph, &Vec::new());
    assert!(scores.is_empty());
}

#[test]
fn deterministic_ordering_for_equal_scores() {
    let files = vec![
        make_scored_file("b.ts", 1),
        make_scored_file("a.ts", 1),
        make_scored_file("c.ts", 1),
    ];
    let graph = make_graph(Vec::new(), Vec::new());

    let scores = score_files(&files, &graph, &Vec::new());
    assert_eq!(scores[0].path, "a.ts");
    assert_eq!(scores[1].path, "b.ts");
    assert_eq!(scores[2].path, "c.ts");
}

#[test]
fn score_formula_weights_each_factor() {
    // 3 exports, 2 internal dependents, 1 hotspot, entry point:
    // 3 * 1 + 2 * 2 + 1 * 3 + 5 = 15.
    let files = vec![make_scored_file("core.ts", 3)];
    let mut external = internal("core.ts");
    external.external = true;
    let mut unresolved = internal("core.ts");
    unresolved.resolved = false;
    let adjacency = vec![
        ("a.ts".to_string(), vec![internal("core.ts"), external]),
        ("b.ts".to_string(), vec![internal("core.ts"), unresolved]),
    ];
    let graph = make_graph(adjacency, vec!["core.ts".to_string()]);
    let hotspots = vec![Hotspot {
        path: "core.ts".to_string(),
        function: "f".to_string(),
        metric: "lines_of_code".to_string(),
        value: 40,
        threshold: 30,
    }];
    let scores = score_files(&files, &graph, &hotspots);
    assert_eq!(scores.len(), 1);
    assert_eq!(scores[0].score, 15);
    assert!(scores[0].is_entry_point);
}

// ---------------------------------------------------------------------------
// analyze
// ---------------------------------------------------------------------------

fn make_file(path: &str, symbol_count: usize, export_count: usize, complexity: u32) -> FileAnalysis {
    FileAnalysis {
        path: path.to_string(),
        language: "typescript".to_string(),
        symbols: (0..symbol_count)
            .map(|idx| Symbol {
                name: format!("sym_{idx}"),
                kind: SymbolKind::Function,
                line: idx + 1,
                end_line: idx + 2,
                exported: idx < export_count,
                signature: Some("(x: number)".to_string()),
            })
            .collect(),
        imports: vec![Import {
            source: "./dep".to_string(),
            specifiers: vec!["dep".to_string()],
            kind: ImportKind::Named,
            line: 1,
        }],
        exports: (0..export_count)
            .map(|idx| Export {
                name: format!("exp_{idx}"),
                kind: ExportKind::Named,
                line: idx + 1,
                source: None,
            })
            .collect(),
        metrics: FileMetrics {
            total_lines: 50,
            code_lines: 40,
            comment_lines: 5,
            blank_lines: 5,
            cyclomatic_complexity: complexity,
            max_nesting_depth: 4,
            functions: vec![FunctionMetrics {
                name: "sym_0".to_string(),
                line: 1,
                end_line: 10,
                lines_of_code: 10,
                cyclomatic_complexity: complexity,
                max_nesting_depth: 4,
                parameter_count: 2,
            }],
        },
    }
}

fn make_result(files: Vec<FileAnalysis>) -> AnalysisResult {
    AnalysisResult {
        version: "0.1.0".to_string(),
        project: ProjectOverview {
            name: "fixture".to_string(),
            root: ".".to_string(),
            languages: Vec::new(),
            entry_points: vec!["src/main.ts".to_string()],
            config_files: vec!["package.json".to_string()],
            directory_tree: Vec::new(),
        },
        files,
        graph: DependencyGraph {
            adjacency: vec![(
                "src/main.ts".to_string(),
                vec![Dependency {
                    target: "src/lib.ts".to_string(),
                    specifiers: vec!["lib".to_string()],
                    resolved: true,
                    external: false,
                }],
            )],
            entry_points: vec!["src/main.ts".to_string()],
            leaf_nodes: vec!["src/lib.ts".to_string()],
            cycles: Vec::new(),
            stats: GraphStats::default(),
        },
        hotspots: vec![Hotspot {
            path: "src/main.ts".to_string(),
            function: "sym_0".to_string(),
            metric: "cyclomatic_complexity".to_string(),
            value: 12,
            threshold: 10,
        }],
        warnings: vec![Warning {
            path: "src/generated.ts".to_string(),
            message: "skipped".to_string(),
        }],
        summary: Summary {
            total_files: 2,
            total_symbols: 8,
            total_lines_of_code: 80,
            avg_complexity_hundredths: 600,
        },
    }
}

#[test]
fn summary_counts_files_symbols_and_loc() {
    let files = vec![make_file("a.ts", 3, 2, 5), make_file("b.ts", 1, 0, 7)];
    let summary = build_summary(&files);

    assert_eq!(summary.total_files, 2);
    assert_eq!(summary.total_symbols, 4);
    assert_eq!(summary.total_lines_of_code, 80);
    assert_eq!(summary.avg_complexity_hundredths as f64 / 100.0, 6.0);
}

#[test]
fn summary_average_rounds_to_hundredths() {
    let files = vec![
        make_file("a.ts", 0, 0, 1),
        make_file("b.ts", 0, 0, 1),
        make_file("c.ts", 0, 0, 2),
    ];
    // 4 / 3 = 1.333... -> 1.33
    assert_eq!(build_summary(&files).avg_complexity_hundredths, 133);
    let files = vec![make_file("a.ts", 0, 0, 1), make_file("b.ts", 0, 0, 2), make_file("c.ts", 0, 0, 2)];
    // 5 / 3 = 1.666... -> 1.67
    assert_eq!(build_summary(&files).avg_complexity_hundredths, 167);
    assert_eq!(build_summary(&Vec::new()).avg_complexity_hundredths, 0);
}

#[test]
fn budget_keeps_fixed_sections_even_when_no_files_fit() {
    let mut result = make_result(vec![make_file("src/main.ts", 12, 6, 12)]);
    // One token allows 3 characters, less than the fixed sections take.
    apply_budget(&mut result, 1, 500, &vec![(2000, 800)]);

    assert!(result.files.is_empty());
    assert_eq!(result.project.name, "fixture");
    assert_eq!(result.hotspots.len(), 1);
    assert_eq!(result.graph.entry_points, vec!["src/main.ts".to_string()]);
}

#[test]
fn budget_prefers_higher_ranked_files() {
    let high = make_file("src/main.ts", 12, 6, 12);
    let low = make_file("src/leaf.ts", 1, 0, 1);
    let mut result = make_result(vec![high, low]);

    // 4000 tokens allow 13600 characters.
    apply_budget(&mut result, 4000, 1200, &vec![(2500, 900), (700, 400)]);

    assert!(!result.files.is_empty());
    assert_eq!(result.files[0].path, "src/main.ts");
}

#[test]
fn budget_target_is_four_chars_per_token_less_headroom() {
    assert_eq!(target_chars(0), 0);
    assert_eq!(target_chars(1), 3);
    assert_eq!(target_chars(4000), 13600);
    assert_eq!(target_chars(5), 17);
}

#[test]
fn budget_plan_falls_back_to_summaries_then_stops() {
    // target 100, fixed 40: first fits in full (40 + 30 = 70), second only
    // summarized (70 + 20 = 90), third neither (90 + 15 > 100).
    let plan = plan_budget(100, 40, &vec![(30, 10), (50, 20), (40, 15), (1, 1)]);
    assert_eq!(plan, vec![FileBudget::Full, FileBudget::Summary]);
    // The fixed sections alone take the whole target.
    assert!(plan_budget(100, 100, &vec![(0, 0)]).is_empty());
    assert!(plan_budget(0, 0, &vec![(0, 0)]).is_empty());
}

#[test]
fn summarized_files_drop_heavy_details() {
    let file = make_file("src/main.ts", 4, 2, 12);
    let summarized = summarize_file(&file);

    assert!(summarized.imports.is_empty());
    assert!(summarized.metrics.functions.is_empty());
    assert!(summarized.symbols.iter().all(|symbol| symbol.signature.is_none()));
    assert_eq!(summarized.exports.len(), 2);
    assert_eq!(summarized.metrics.code_lines, 40);
}

#[test]
fn summarized_symbol_ends_where_it_starts() {
    let s = Symbol {
        name: "f".to_string(),
        kind: SymbolKind::Method,
        line: 3,
        end_line: 9,
        exported: true,
        signature: Some("()".to_string()),
    };
    let r = summarize_symbol(&s);
    assert_eq!(r.line, 3);
    assert_eq!(r.end_line, 3);
    assert_eq!(r.kind, SymbolKind::Method);
    assert!(r.exported);
    assert!(r.signature.is_none());
}

#[test]
fn pretty_format_includes_symbol_lines() {
    let result = make_result(vec![make_file("src/main.ts", 2, 1, 12)]);
    let pretty = format_pretty(&result);

    assert!(pretty.contains("src/main.ts (complexity: 12, 2 symbols"));
    assert!(pretty.contains("sym_0"));
}

#[test]
fn pretty_format_exact_text() {
    let mut result = make_result(vec![make_file("src/main.ts", 1, 1, 12), make_file("src/b.ts", 0, 0, 3)]);
    result.files[0].symbols[0].signature = None;
    let pretty = format_pretty(&result);
    assert_eq!(
        pretty,
        "src/main.ts (complexity: 12, 1 symbols, 1 hotspots):\n  1: Function sym_0\nsrc/b.ts (complexity: 3, 0 symbols):\n  (no symbols)"
    );
    assert_eq!(format_pretty(&make_result(Vec::new())), "(no analyzed files)");
}
