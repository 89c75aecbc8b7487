use corvalis_recon::resolve::{
    load_tsconfig_aliases, load_tsconfig_aliases_for_file, parse_tsconfig_aliases, resolve_import,
    PathAliases, ResolvedImport,
};

const ROOT: &str = "proj";


/// A project in memory: files by path relative to the root, and the
/// `tsconfig.json` texts by directory.
#[derive(Default)]
struct Fs {
    files: Vec<String>,
    configs: Vec<(String, String)>,
}

impl Fs {
    fn file(&mut self, path: &str) {
        self.files.push(path.to_string());
    }

    fn config(&mut self, dir: &str, text: &str) {
        self.configs.push((dir.to_string(), text.to_string()));
    }

    fn probe(&self) -> impl Fn(&String) -> bool + '_ {
        move |p: &String| self.files.contains(p)
    }

    fn reader(&self) -> impl Fn(&String) -> Option<PathAliases> + '_ {
        move |dir: &String| {
            let (_, text) = self.configs.iter().find(|(d, _)| d == dir)?;
            Some(parse_tsconfig_aliases(text).unwrap_or_default())
        }
    }
}

// --- Relative import resolution ---

#[test]
fn resolve_relative_with_extension_already_present() {
    let mut fs = Fs::default();
    fs.file("src/utils.ts");

    let result = resolve_import("./utils.ts", "src/main.ts", ROOT, &PathAliases::default(), &fs.probe());
    assert_eq!(result, ResolvedImport::ProjectFile("src/utils.ts".to_string()));
}

#[test]
fn resolve_relative_adds_ts_extension() {
    let mut fs = Fs::default();
    fs.file("src/utils.ts");

    let result = resolve_import("./utils", "src/main.ts", ROOT, &PathAliases::default(), &fs.probe());
    assert_eq!(result, ResolvedImport::ProjectFile("src/utils.ts".to_string()));
}

#[test]
fn resolve_relative_adds_tsx_extension() {
    let mut fs = Fs::default();
    fs.file("src/Button.tsx");

    let result = resolve_import("./Button", "src/App.tsx", ROOT, &PathAliases::default(), &fs.probe());
    assert_eq!(result, ResolvedImport::ProjectFile("src/Button.tsx".to_string()));
}

#[test]
fn resolve_relative_index_file() {
    let mut fs = Fs::default();
    fs.file("src/components/index.ts");

    let result = resolve_import("./components", "src/main.ts", ROOT, &PathAliases::default(), &fs.probe());
    assert_eq!(
        result,
        ResolvedImport::ProjectFile("src/components/index.ts".to_string())
    );
}

#[test]
fn resolve_parent_directory_import() {
    let mut fs = Fs::default();
    fs.file("src/utils.ts");

    let result = resolve_import("../utils", "src/components/Button.tsx", ROOT, &PathAliases::default(), &fs.probe());
    assert_eq!(result, ResolvedImport::ProjectFile("src/utils.ts".to_string()));
}

#[test]
fn resolve_unresolved_relative() {
    let mut fs = Fs::default();

    let result = resolve_import("./nonexistent", "src/main.ts", ROOT, &PathAliases::default(), &fs.probe());
    assert_eq!(result, ResolvedImport::Unresolved("./nonexistent".to_string()));
}

// --- Bare specifiers (external packages) ---

#[test]
fn bare_specifier_marked_as_external() {
    let mut fs = Fs::default();

    let result = resolve_import("react", "src/main.ts", ROOT, &PathAliases::default(), &fs.probe());
    assert_eq!(result, ResolvedImport::External("react".to_string()));
}

#[test]
fn scoped_package_marked_as_external() {
    let mut fs = Fs::default();

    let result = resolve_import("@tanstack/react-query", "src/main.ts", ROOT, &PathAliases::default(), &fs.probe());
    assert_eq!(
        result,
        ResolvedImport::External("@tanstack/react-query".to_string())
    );
}

#[test]
fn deep_package_path_marked_as_external() {
    let mut fs = Fs::default();

    let result = resolve_import("lodash/get", "src/main.ts", ROOT, &PathAliases::default(), &fs.probe());
    assert_eq!(result, ResolvedImport::External("lodash/get".to_string()));
}

// --- tsconfig path aliases ---

#[test]
fn resolve_path_alias_with_wildcard() {
    let mut fs = Fs::default();
    fs.file("src/utils/helpers.ts");
    fs.config(ROOT, r#"{ "compilerOptions": { "baseUrl": ".", "paths": { "@/*": ["src/*"] } } }"#);

    let aliases = load_tsconfig_aliases(ROOT, &fs.reader());
    let result = resolve_import("@/utils/helpers", "src/main.ts", ROOT, &aliases, &fs.probe());
    assert_eq!(
        result,
        ResolvedImport::ProjectFile("src/utils/helpers.ts".to_string())
    );
}

#[test]
fn resolve_path_alias_without_wildcard() {
    let mut fs = Fs::default();
    fs.file("src/config/index.ts");
    fs.config(ROOT, r#"{ "compilerOptions": { "baseUrl": ".", "paths": { "config": ["src/config/index.ts"] } } }"#);

    let aliases = load_tsconfig_aliases(ROOT, &fs.reader());
    let result = resolve_import("config", "src/main.ts", ROOT, &aliases, &fs.probe());
    assert_eq!(
        result,
        ResolvedImport::ProjectFile("src/config/index.ts".to_string())
    );
}

#[test]
fn resolve_path_alias_with_base_url() {
    let mut fs = Fs::default();
    fs.file("src/lib/utils.ts");
    fs.config(ROOT, r#"{ "compilerOptions": { "baseUrl": "src", "paths": { "lib/*": ["lib/*"] } } }"#);

    let aliases = load_tsconfig_aliases(ROOT, &fs.reader());
    let result = resolve_import("lib/utils", "src/main.ts", ROOT, &aliases, &fs.probe());
    assert_eq!(
        result,
        ResolvedImport::ProjectFile("src/lib/utils.ts".to_string())
    );
}

#[test]
fn missing_tsconfig_returns_default_aliases() {
    let mut fs = Fs::default();
    let aliases = load_tsconfig_aliases(ROOT, &fs.reader());
    assert!(aliases.mappings.is_empty());
    assert!(aliases.base_url.is_none());
}

#[test]
fn tsconfig_with_comments_parses_via_json5() {
    let mut fs = Fs::default();
    fs.file("src/utils.ts");
    fs.config(ROOT, r#"{
            // This is a comment
            "compilerOptions": {
                "baseUrl": ".",
                "paths": {
                    "@/*": ["src/*"], // trailing comma
                },
            },
        }"#);

    let aliases = load_tsconfig_aliases(ROOT, &fs.reader());
    assert_eq!(aliases.mappings.len(), 1);
    let result = resolve_import("@/utils", "main.ts", ROOT, &aliases, &fs.probe());
    assert_eq!(result, ResolvedImport::ProjectFile("src/utils.ts".to_string()));
}

// --- Edge cases ---

#[test]
fn resolve_extension_priority_ts_before_tsx() {
    let mut fs = Fs::default();
    fs.file("src/Component.ts");
    fs.file("src/Component.tsx");

    let result = resolve_import("./Component", "src/main.ts", ROOT, &PathAliases::default(), &fs.probe());
    // .ts should be tried before .tsx
    assert_eq!(
        result,
        ResolvedImport::ProjectFile("src/Component.ts".to_string())
    );
}

#[test]
fn resolve_index_file_only_when_no_direct_file() {
    let mut fs = Fs::default();
    fs.file("src/lib.ts");
    fs.file("src/lib/index.ts");

    let result = resolve_import("./lib", "src/main.ts", ROOT, &PathAliases::default(), &fs.probe());
    // Direct file match takes priority over directory/index
    assert_eq!(result, ResolvedImport::ProjectFile("src/lib.ts".to_string()));
}

#[test]
fn resolve_from_root_level_file() {
    let mut fs = Fs::default();
    fs.file("utils.ts");

    let result = resolve_import("./utils", "main.ts", ROOT, &PathAliases::default(), &fs.probe());
    assert_eq!(result, ResolvedImport::ProjectFile("utils.ts".to_string()));
}

#[test]
fn resolve_js_extension() {
    let mut fs = Fs::default();
    fs.file("src/helpers.js");

    let result = resolve_import("./helpers", "src/main.ts", ROOT, &PathAliases::default(), &fs.probe());
    assert_eq!(result, ResolvedImport::ProjectFile("src/helpers.js".to_string()));
}

#[test]
fn resolve_mjs_extension() {
    let mut fs = Fs::default();
    fs.file("src/config.mjs");

    let result = resolve_import("./config", "src/main.ts", ROOT, &PathAliases::default(), &fs.probe());
    assert_eq!(result, ResolvedImport::ProjectFile("src/config.mjs".to_string()));
}

#[test]
fn resolve_cjs_extension() {
    let mut fs = Fs::default();
    fs.file("src/config.cjs");

    let result = resolve_import("./config", "src/main.ts", ROOT, &PathAliases::default(), &fs.probe());
    assert_eq!(result, ResolvedImport::ProjectFile("src/config.cjs".to_string()));
}

#[test]
fn nearest_tsconfig_wins_for_nested_package() {
    let mut fs = Fs::default();
    fs.file("packages/app/src/shared/util.ts");
    fs.file("src/root-only.ts");

    fs.config(ROOT, r#"{ "compilerOptions": { "baseUrl": ".", "paths": { "@shared/*": ["src/*"] } } }"#);
        fs.config("proj/packages/app", r#"{ "compilerOptions": { "baseUrl": ".", "paths": { "@shared/*": ["src/shared/*"] } } }"#);

    let mut cache = Vec::new();
    let aliases =
        load_tsconfig_aliases_for_file(ROOT, "packages/app/src/feature.ts", &mut cache, &fs.reader());
    let result = resolve_import("@shared/util", "packages/app/src/feature.ts", ROOT, &aliases, &fs.probe());

    assert_eq!(
        result,
        ResolvedImport::ProjectFile("packages/app/src/shared/util.ts".to_string())
    );
}

#[test]
fn alias_without_match_is_external_and_relative_wins_over_alias() {
    let mut fs = Fs::default();
    fs.file("src/x.ts");
    fs.config(ROOT, r#"{ "compilerOptions": { "paths": { "./x": ["src/x.ts"], "@/*": ["src/*"] } } }"#);
    let aliases = load_tsconfig_aliases(ROOT, &fs.reader());
    assert_eq!(
        resolve_import("@other/x", "main.ts", ROOT, &aliases, &fs.probe()),
        ResolvedImport::External("@other/x".to_string())
    );
    assert_eq!(
        resolve_import("./x", "main.ts", ROOT, &aliases, &fs.probe()),
        ResolvedImport::Unresolved("./x".to_string())
    );
    assert_eq!(aliases.config_dir, ROOT);
}

#[test]
fn unparsable_tsconfig_gives_default_aliases() {
    let mut fs = Fs::default();
    fs.config(ROOT, "{ not json");
    let aliases = load_tsconfig_aliases(ROOT, &fs.reader());
    assert!(aliases.mappings.is_empty());
    assert!(aliases.base_url.is_none());
}

#[test]
fn cached_aliases_are_reused_for_the_same_directory() {
    let mut fs = Fs::default();
    fs.config(ROOT, r#"{ "compilerOptions": { "baseUrl": "src", "paths": {} } }"#);
    let mut cache = Vec::new();
    let first = load_tsconfig_aliases_for_file(ROOT, "a/b.ts", &mut cache, &fs.reader());
    let n = cache.len();
    let second = load_tsconfig_aliases_for_file(ROOT, "a/c.ts", &mut cache, &fs.reader());
    assert_eq!(cache.len(), n);
    assert_eq!(first.base_url, second.base_url);
    assert_eq!(first.base_url.as_deref(), Some("src"));
}

#[test]
fn tsconfig_without_paths_gives_no_aliases() {
    assert!(parse_tsconfig_aliases(r#"{ "compilerOptions": { "baseUrl": "src" } }"#).is_none());
    let mut fs = Fs::default();
    fs.config(ROOT, r#"{ "compilerOptions": { "baseUrl": "src" } }"#);
    let aliases = load_tsconfig_aliases(ROOT, &fs.reader());
    assert!(aliases.base_url.is_none());
}

#[test]
fn missing_tsconfig_leaves_config_dir_empty() {
    let fs = Fs::default();
    let aliases = load_tsconfig_aliases(ROOT, &fs.reader());
    assert!(aliases.config_dir.is_empty());
}

#[test]
fn tsconfig_text_that_is_not_json5_gives_no_aliases() {
    assert!(parse_tsconfig_aliases("{ compilerOptions: ").is_none());
    let a = parse_tsconfig_aliases("{ compilerOptions: { paths: { '@/*': ['src/*'], }, }, }").unwrap();
    assert_eq!(a.mappings.len(), 1);
    assert_eq!(a.mappings[0].0, "@/*");
}
