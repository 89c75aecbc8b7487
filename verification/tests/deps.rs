use corvalis_recon::deps::{build_dependency_graph, detect_cycles, file_deps};
use corvalis_recon::language::{detect_language, is_declaration_file};
use corvalis_recon::output::{Dependency, DependencyGraph, DetectedLanguage, GraphStats, SourceFile};
use corvalis_recon::parse::parse_files_sequential;
use corvalis_recon::resolve::{load_tsconfig_aliases, parse_tsconfig_aliases, PathAliases, ResolvedImport};

const ROOT: &str = "proj";

/// Builds the graph of the files `(path, content)` under the root, with a
/// `tsconfig.json` at the root when one is given.
fn build_graph(files: &[(&str, &str)], tsconfig: Option<&str>) -> DependencyGraph {
    let source_files: Vec<SourceFile> = files
        .iter()
        .map(|(path, _)| SourceFile {
            path: path.to_string(),
            language: detect_language(path).unwrap_or(DetectedLanguage::TypeScript),
            declaration_only: is_declaration_file(path),
        })
        .collect();
    let contents: Vec<(String, String)> = files
        .iter()
        .map(|(p, c)| (p.to_string(), c.to_string()))
        .collect();
    let read = |p: &String| -> Result<String, String> {
        contents
            .iter()
            .find(|(q, _)| q == p)
            .map(|(_, c)| c.clone())
            .ok_or_else(|| "not found".to_string())
    };
    let parsed = parse_files_sequential(&source_files, &read);
    let names: Vec<String> = files.iter().map(|(p, _)| p.to_string()).collect();
    let is_file = |p: &String| names.contains(p);
    let read_config = |dir: &String| -> Option<PathAliases> {
        match &tsconfig {
            Some(text) if dir == ROOT => Some(parse_tsconfig_aliases(text).unwrap_or_default()),
            _ => None,
        }
    };
    let aliases = load_tsconfig_aliases(ROOT, &read_config);
    build_dependency_graph(&parsed.files, ROOT, &aliases, &is_file, &read_config)
}

fn deps_of<'a>(graph: &'a DependencyGraph, path: &str) -> &'a Vec<Dependency> {
    &graph.adjacency.iter().find(|(p, _)| p == path).unwrap().1
}

// --- Basic graph building ---

#[test]
fn empty_project_produces_empty_graph() {
    let graph = DependencyGraph {
        adjacency: Vec::new(),
        entry_points: Vec::new(),
        leaf_nodes: Vec::new(),
        cycles: Vec::new(),
        stats: GraphStats::default(),
    };
    assert_eq!(graph.stats.total_files, 0);
}

#[test]
fn single_file_no_imports_is_entry_and_leaf() {
        let files = vec![("main.ts", "const x = 1;")];

    let graph = build_graph(&files, None);

    assert_eq!(graph.adjacency.len(), 1);
    assert!(graph.entry_points.contains(&"main.ts".to_string()));
    assert!(graph.leaf_nodes.contains(&"main.ts".to_string()));
    assert!(graph.cycles.is_empty());
}

#[test]
fn simple_import_creates_edge() {
        let files = vec![
        ("src/main.ts",
            "import { helper } from './utils';",
        ),
        ("src/utils.ts", "export function helper() {}"),
    ];

    let graph = build_graph(&files, None);

    let main_deps = deps_of(&graph, "src/main.ts");
    assert!(
        main_deps
            .iter()
            .any(|d| d.target == "src/utils.ts" && d.resolved && !d.external),
        "main.ts should depend on utils.ts: {main_deps:?}"
    );

    assert!(graph.entry_points.contains(&"src/main.ts".to_string()));
    assert!(!graph.entry_points.contains(&"src/utils.ts".to_string()));
    assert!(graph.leaf_nodes.contains(&"src/utils.ts".to_string()));
    assert!(!graph.leaf_nodes.contains(&"src/main.ts".to_string()));
}

#[test]
fn external_import_not_in_adjacency_keys() {
        let files = vec![("main.ts",
        "import React from 'react';",
    )];

    let graph = build_graph(&files, None);

    let deps = deps_of(&graph, "main.ts");
    let react_dep = deps.iter().find(|d| d.target == "react").unwrap();
    assert!(react_dep.external);
    assert!(!react_dep.resolved);
}

// --- Entry points and leaf nodes ---

#[test]
fn entry_points_have_no_incoming_project_edges() {
        let files = vec![
        ("app.ts", "import { a } from './lib';"),
        ("lib.ts", "export const a = 1;"),
        ("cli.ts", "import { a } from './lib';"),
    ];

    let graph = build_graph(&files, None);

    // app.ts and cli.ts are entry points (nothing imports them).
    assert!(graph.entry_points.contains(&"app.ts".to_string()));
    assert!(graph.entry_points.contains(&"cli.ts".to_string()));
    // lib.ts is imported by both — not an entry point.
    assert!(!graph.entry_points.contains(&"lib.ts".to_string()));
}

#[test]
fn leaf_nodes_have_no_outgoing_project_edges() {
        let files = vec![
        ("app.ts", "import { a } from './lib';"),
        ("lib.ts",
            "import React from 'react';\nexport const a = 1;",
        ),
    ];

    let graph = build_graph(&files, None);

    // lib.ts only imports external `react` — it's a leaf.
    assert!(graph.leaf_nodes.contains(&"lib.ts".to_string()));
    assert!(!graph.leaf_nodes.contains(&"app.ts".to_string()));
}

// --- Cycle detection ---

#[test]
fn detects_simple_cycle() {
        let files = vec![
        ("a.ts", "import { b } from './b';"),
        ("b.ts", "import { a } from './a';"),
    ];

    let graph = build_graph(&files, None);

    assert!(
        !graph.cycles.is_empty(),
        "should detect cycle between a.ts and b.ts"
    );
    let cycle = &graph.cycles[0];
    assert!(cycle.contains(&"a.ts".to_string()));
    assert!(cycle.contains(&"b.ts".to_string()));
}

#[test]
fn detects_three_node_cycle() {
        let files = vec![
        ("a.ts", "import { b } from './b';"),
        ("b.ts", "import { c } from './c';"),
        ("c.ts", "import { a } from './a';"),
    ];

    let graph = build_graph(&files, None);

    assert!(!graph.cycles.is_empty(), "should detect 3-node cycle");
}

#[test]
fn no_cycles_in_dag() {
        let files = vec![
        ("a.ts", "import { b } from './b';"),
        ("b.ts", "import { c } from './c';"),
        ("c.ts", "export const c = 1;"),
    ];

    let graph = build_graph(&files, None);
    assert!(graph.cycles.is_empty());
}

// --- Stats ---

#[test]
fn stats_count_internal_edges_only() {
        let files = vec![
        ("main.ts",
            "import { a } from './a';\nimport { b } from './b';\nimport React from 'react';",
        ),
        ("a.ts", "export const a = 1;"),
        ("b.ts", "export const b = 2;"),
    ];

    let graph = build_graph(&files, None);

    assert_eq!(graph.stats.total_files, 3);
    // main -> a, main -> b = 2 internal edges. react is external.
    assert_eq!(graph.stats.total_edges, 2);
    assert_eq!(graph.stats.max_dependencies, 2);
}

#[test]
fn most_imported_tracks_popular_files() {
        let files = vec![
        ("app.ts", "import { u } from './utils';"),
        ("cli.ts", "import { u } from './utils';"),
        ("test.ts", "import { u } from './utils';"),
        ("utils.ts", "export const u = 1;"),
    ];

    let graph = build_graph(&files, None);

    assert!(
        graph.stats.most_imported.contains(&"utils.ts".to_string()),
        "utils.ts should be most imported: {:?}",
        graph.stats.most_imported
    );
}

// --- Index file resolution ---

#[test]
fn resolves_directory_index_imports() {
        let files = vec![
        ("main.ts",
            "import { Button } from './components';",
        ),
        ("components/index.ts",
            "export { Button } from './Button';",
        ),
        ("components/Button.ts",
            "export function Button() {}",
        ),
    ];

    let graph = build_graph(&files, None);

    let main_deps = deps_of(&graph, "main.ts");
    assert!(
        main_deps
            .iter()
            .any(|d| d.target == "components/index.ts" && d.resolved),
        "main.ts should resolve to components/index.ts: {main_deps:?}"
    );
}

// --- Path alias resolution ---

#[test]
fn resolves_tsconfig_path_aliases() {
        let tsconfig = r#"{ "compilerOptions": { "baseUrl": ".", "paths": { "@/*": ["src/*"] } } }"#;

    let files = vec![
        ("src/main.ts",
            "import { helper } from '@/lib/utils';",
        ),
        ("src/lib/utils.ts",
            "export function helper() {}",
        ),
    ];

    let graph = build_graph(&files, Some(tsconfig));

    let main_deps = deps_of(&graph, "src/main.ts");
    assert!(
        main_deps
            .iter()
            .any(|d| d.target == "src/lib/utils.ts" && d.resolved),
        "path alias should resolve: {main_deps:?}"
    );
}

#[test]
fn re_exports_create_dependency_edges() {
        let files = vec![
        ("components/index.ts",
            "export { Button } from './Button';\nexport * from './Card';",
        ),
        ("components/Button.ts",
            "export function Button() {}",
        ),
        ("components/Card.ts",
            "export function Card() {}",
        ),
    ];

    let graph = build_graph(&files, None);
    let deps = deps_of(&graph, "components/index.ts");

    assert!(deps.iter().any(|d| d.target == "components/Button.ts"));
    assert!(deps.iter().any(|d| d.target == "components/Card.ts"));
}

// --- Graph serialization ---

#[test]
fn graph_serializes_to_valid_json() {
    let files = vec![
        ("a.ts", "import { b } from './b';"),
        ("b.ts", "export const b = 1;"),
    ];

    let graph = build_graph(&files, None);
    // Every section of the graph is present; the JSON framing itself is
    // written by the application around the library.
    assert_eq!(graph.adjacency.len(), 2);
    assert_eq!(graph.entry_points, vec!["a.ts".to_string()]);
    assert_eq!(graph.leaf_nodes, vec!["b.ts".to_string()]);
    assert!(graph.cycles.is_empty());
    assert_eq!(graph.stats.total_files, 2);
}

// --- Edge cases ---

#[test]
fn file_importing_itself_creates_self_cycle() {
        let files = vec![("self.ts",
        "import { x } from './self';",
    )];

    let graph = build_graph(&files, None);
    assert!(
        !graph.cycles.is_empty(),
        "self-import should be detected as cycle"
    );
}

#[test]
fn multiple_imports_from_same_source_deduplicated() {
        let files = vec![
        ("main.ts",
            "import { a } from './lib';\nimport { b } from './lib';",
        ),
        ("lib.ts",
            "export const a = 1;\nexport const b = 2;",
        ),
    ];

    let graph = build_graph(&files, None);

    let main_deps = deps_of(&graph, "main.ts");
    let lib_deps: Vec<_> = main_deps.iter().filter(|d| d.target == "lib.ts").collect();
    assert_eq!(
        lib_deps.len(),
        1,
        "duplicate imports should be deduplicated: {lib_deps:?}"
    );
}

#[test]
fn unresolved_import_recorded_as_unresolved() {
        let files = vec![("main.ts",
        "import { x } from './missing';",
    )];

    let graph = build_graph(&files, None);

    let deps = deps_of(&graph, "main.ts");
    let unresolved = deps.iter().find(|d| d.target == "./missing").unwrap();
    assert!(!unresolved.resolved);
    assert!(!unresolved.external);
}

#[test]
fn every_reported_cycle_follows_internal_edges() {
    let files = vec![
        ("a.ts", "import { b } from './b';"),
        ("b.ts", "import { c } from './c';\nimport { a } from './a';"),
        ("c.ts", "import { a } from './a';"),
    ];
    let graph = build_graph(&files, None);
    assert!(!graph.cycles.is_empty());
    for cycle in &graph.cycles {
        assert!(!cycle.is_empty());
        for (k, from) in cycle.iter().enumerate() {
            let to = &cycle[(k + 1) % cycle.len()];
            assert!(
                deps_of(&graph, from).iter().any(|d| &d.target == to && d.resolved && !d.external),
                "no edge {from} -> {to}"
            );
        }
    }
}

#[test]
fn adjacency_is_sorted_and_edges_are_deduplicated_by_target() {
    let files = vec![
        ("z.ts", "import { a } from './a';\nimport './a';\nexport { x } from './a';"),
        ("a.ts", "export const a = 1;"),
    ];
    let graph = build_graph(&files, None);
    let keys: Vec<&str> = graph.adjacency.iter().map(|(k, _)| k.as_str()).collect();
    assert_eq!(keys, vec!["a.ts", "z.ts"]);
    let z = deps_of(&graph, "z.ts");
    assert_eq!(z.len(), 1);
    assert_eq!(z[0].target, "a.ts");
}

#[test]
fn stats_average_in_hundredths() {
    let files = vec![
        ("main.ts", "import { a } from './a';\nimport { b } from './b';"),
        ("a.ts", "export const a = 1;"),
        ("b.ts", "export const b = 2;"),
    ];
    let graph = build_graph(&files, None);
    // 2 edges over 3 files: 0.67 each way.
    assert_eq!(graph.stats.avg_dependencies_hundredths, 67);
    assert_eq!(graph.stats.avg_dependents_hundredths, 67);
    assert_eq!(graph.stats.max_dependents, 1);
}

#[test]
fn detect_cycles_on_adjacency_alone() {
    let edge = |t: &str| Dependency {
        target: t.to_string(),
        specifiers: vec![],
        resolved: true,
        external: false,
    };
    let adj = vec![
        ("a.ts".to_string(), vec![edge("b.ts")]),
        ("b.ts".to_string(), vec![edge("a.ts")]),
        ("c.ts".to_string(), vec![]),
    ];
    let cycles = detect_cycles(&adj);
    assert_eq!(cycles, vec![vec!["a.ts".to_string(), "b.ts".to_string()]]);
    let _ = GraphStats::default();
}

#[test]
fn a_cycle_behind_an_acyclic_start_is_found_and_an_acyclic_graph_gives_none() {
    let edge = |t: &str| Dependency {
        target: t.to_string(),
        specifiers: vec![],
        resolved: true,
        external: false,
    };
    let with_cycle = vec![
        ("a.ts".to_string(), vec![edge("b.ts")]),
        ("b.ts".to_string(), vec![edge("c.ts")]),
        ("c.ts".to_string(), vec![edge("d.ts")]),
        ("d.ts".to_string(), vec![edge("c.ts")]),
    ];
    assert_eq!(detect_cycles(&with_cycle), vec![vec!["c.ts".to_string(), "d.ts".to_string()]]);
    let acyclic = vec![
        ("a.ts".to_string(), vec![edge("b.ts"), edge("c.ts")]),
        ("b.ts".to_string(), vec![edge("c.ts")]),
        ("c.ts".to_string(), vec![]),
    ];
    assert!(detect_cycles(&acyclic).is_empty());
}

#[test]
fn dependency_keys_read_back_by_their_prefix() {
    let deps = file_deps(&vec![
        (ResolvedImport::ProjectFile("external:lib".to_string()), vec!["a".to_string()]),
        (ResolvedImport::External("lib".to_string()), vec!["b".to_string()]),
        (ResolvedImport::ProjectFile("src/x.ts".to_string()), vec![]),
        (ResolvedImport::Unresolved("./gone".to_string()), vec![]),
    ]);
    assert_eq!(deps.len(), 3);
    assert_eq!(deps[0].target, "./gone");
    assert!(!deps[0].resolved && !deps[0].external);
    assert_eq!(deps[1].target, "lib");
    assert!(!deps[1].resolved && deps[1].external);
    assert_eq!(deps[1].specifiers, vec!["a".to_string(), "b".to_string()]);
    assert_eq!(deps[2].target, "src/x.ts");
    assert!(deps[2].resolved && !deps[2].external);
}
