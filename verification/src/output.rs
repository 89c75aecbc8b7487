//! The data produced by the analysis passes.
//!
//! Maps keyed by strings are kept as vectors of `(key, value)` pairs sorted
//! by key with no key repeated; averages are kept in hundredths.
use vstd::prelude::*;

verus! {

/// Top-level output for the `analyze` command.
#[derive(Clone, Debug)]
pub struct AnalysisResult {
    pub version: String,
    pub project: ProjectOverview,
    pub files: Vec<FileAnalysis>,
    pub graph: DependencyGraph,
    pub hotspots: Vec<Hotspot>,
    pub warnings: Vec<Warning>,
    pub summary: Summary,
}

#[derive(Clone, Debug)]
pub struct ProjectOverview {
    pub name: String,
    pub root: String,
    /// Per-language statistics, sorted by language name.
    pub languages: Vec<(String, LanguageStats)>,
    pub entry_points: Vec<String>,
    pub config_files: Vec<String>,
    pub directory_tree: Vec<DirectoryEntry>,
}

#[derive(Clone, Debug)]
pub struct LanguageStats {
    pub file_count: usize,
    pub lines_of_code: usize,
}

#[derive(Clone, Debug)]
pub struct DirectoryEntry {
    pub path: String,
    pub file_count: usize,
}

#[derive(Clone, Debug)]
pub struct FileAnalysis {
    pub path: String,
    pub language: String,
    pub symbols: Vec<Symbol>,
    pub imports: Vec<Import>,
    pub exports: Vec<Export>,
    pub metrics: FileMetrics,
}

#[derive(Clone, Debug)]
pub struct Symbol {
    pub name: String,
    pub kind: SymbolKind,
    pub line: usize,
    pub end_line: usize,
    pub exported: bool,
    pub signature: Option<String>,
}

#[derive(PartialEq, Eq, Structural, Clone, Copy, Debug)]
pub enum SymbolKind {
    Function,
    ArrowFunction,
    Method,
    Class,
    Interface,
    TypeAlias,
    Enum,
    Variable,
    Component,
    Rune,
}

#[derive(Clone, Debug)]
pub struct Import {
    pub source: String,
    pub specifiers: Vec<String>,
    pub kind: ImportKind,
    pub line: usize,
}

#[derive(PartialEq, Eq, Structural, Clone, Copy, Debug)]
pub enum ImportKind {
    Named,
    Default,
    Namespace,
    SideEffect,
    TypeOnly,
    Dynamic,
}

#[derive(Clone, Debug)]
pub struct Export {
    pub name: String,
    pub kind: ExportKind,
    pub line: usize,
    pub source: Option<String>,
}

#[derive(PartialEq, Eq, Structural, Clone, Copy, Debug)]
pub enum ExportKind {
    Named,
    Default,
    ReExport,
    StarReExport,
    TypeOnly,
}

#[derive(Clone, Debug)]
pub struct FileMetrics {
    pub total_lines: usize,
    pub code_lines: usize,
    pub comment_lines: usize,
    pub blank_lines: usize,
    pub cyclomatic_complexity: u32,
    pub max_nesting_depth: u32,
    pub functions: Vec<FunctionMetrics>,
}

impl Default for FileMetrics {
    fn default() -> (m: FileMetrics)
        ensures
            m.total_lines == 0,
            m.code_lines == 0,
            m.comment_lines == 0,
            m.blank_lines == 0,
            m.cyclomatic_complexity == 0,
            m.max_nesting_depth == 0,
            m.functions@.len() == 0,
    {
        FileMetrics {
            total_lines: 0,
            code_lines: 0,
            comment_lines: 0,
            blank_lines: 0,
            cyclomatic_complexity: 0,
            max_nesting_depth: 0,
            functions: Vec::new(),
        }
    }
}

#[derive(Clone, Debug)]
pub struct FunctionMetrics {
    pub name: String,
    pub line: usize,
    pub end_line: usize,
    pub lines_of_code: usize,
    pub cyclomatic_complexity: u32,
    pub max_nesting_depth: u32,
    pub parameter_count: u32,
}

#[derive(Clone, Debug)]
pub struct DependencyGraph {
    /// Outgoing dependencies of each project file, sorted by file path.
    pub adjacency: Vec<(String, Vec<Dependency>)>,
    pub entry_points: Vec<String>,
    pub leaf_nodes: Vec<String>,
    pub cycles: Vec<Vec<String>>,
    pub stats: GraphStats,
}

#[derive(Clone, Debug)]
pub struct Dependency {
    pub target: String,
    pub specifiers: Vec<String>,
    pub resolved: bool,
    pub external: bool,
}

#[derive(Clone, Debug)]
pub struct GraphStats {
    pub total_files: usize,
    pub total_edges: usize,
    /// Average number of internal dependencies per file, in hundredths.
    pub avg_dependencies_hundredths: usize,
    pub max_dependencies: usize,
    /// Average number of dependents per file, in hundredths.
    pub avg_dependents_hundredths: usize,
    pub max_dependents: usize,
    pub most_imported: Vec<String>,
}

impl Default for GraphStats {
    fn default() -> (s: GraphStats)
        ensures
            s.total_files == 0,
            s.total_edges == 0,
            s.avg_dependencies_hundredths == 0,
            s.max_dependencies == 0,
            s.avg_dependents_hundredths == 0,
            s.max_dependents == 0,
            s.most_imported@.len() == 0,
    {
        GraphStats {
            total_files: 0,
            total_edges: 0,
            avg_dependencies_hundredths: 0,
            max_dependencies: 0,
            avg_dependents_hundredths: 0,
            max_dependents: 0,
            most_imported: Vec::new(),
        }
    }
}

#[derive(Clone, Debug)]
pub struct Hotspot {
    pub path: String,
    pub function: String,
    pub metric: String,
    pub value: u32,
    pub threshold: u32,
}

#[derive(Clone, Debug)]
pub struct Summary {
    pub total_files: usize,
    pub total_symbols: usize,
    pub total_lines_of_code: usize,
    /// Average file complexity, in hundredths.
    pub avg_complexity_hundredths: usize,
}

impl Default for Summary {
    fn default() -> (s: Summary)
        ensures
            s.total_files == 0,
            s.total_symbols == 0,
            s.total_lines_of_code == 0,
            s.avg_complexity_hundredths == 0,
    {
        Summary { total_files: 0, total_symbols: 0, total_lines_of_code: 0, avg_complexity_hundredths: 0 }
    }
}

/// Warning emitted during analysis (non-fatal).
#[derive(Clone, Debug)]
pub struct Warning {
    pub path: String,
    pub message: String,
}

/// A discovered source file.
#[derive(Clone, Debug)]
pub struct SourceFile {
    pub path: String,
    pub language: DetectedLanguage,
    pub declaration_only: bool,
}

#[derive(PartialEq, Eq, Structural, Clone, Copy, Debug, Hash)]
pub enum DetectedLanguage {
    TypeScript,
    Tsx,
    JavaScript,
    Jsx,
    Svelte,
}

/// The lower-case name of a language.
pub open spec fn language_name(l: DetectedLanguage) -> Seq<char> {
    match l {
        DetectedLanguage::TypeScript => "typescript"@,
        DetectedLanguage::Tsx => "tsx"@,
        DetectedLanguage::JavaScript => "javascript"@,
        DetectedLanguage::Jsx => "jsx"@,
        DetectedLanguage::Svelte => "svelte"@,
    }
}

impl DetectedLanguage {
    pub fn as_str(self) -> (r: &'static str)
        ensures
            r@ == language_name(self),
    {
        match self {
            DetectedLanguage::TypeScript => "typescript",
            DetectedLanguage::Tsx => "tsx",
            DetectedLanguage::JavaScript => "javascript",
            DetectedLanguage::Jsx => "jsx",
            DetectedLanguage::Svelte => "svelte",
        }
    }
}

impl AnalysisResult {
    /// An analysis of nothing: every collection empty, every count zero.
    pub fn empty() -> (r: AnalysisResult)
        ensures
            r.version@ == crate::config::VERSION@,
            r.files@.len() == 0,
            r.hotspots@.len() == 0,
            r.warnings@.len() == 0,
            r.project.languages@.len() == 0,
            r.project.entry_points@.len() == 0,
            r.graph.adjacency@.len() == 0,
            r.graph.cycles@.len() == 0,
            r.summary.total_files == 0,
    {
        AnalysisResult {
            version: String::from_str(crate::config::VERSION),
            project: ProjectOverview {
                name: String::new(),
                root: String::new(),
                languages: Vec::new(),
                entry_points: Vec::new(),
                config_files: Vec::new(),
                directory_tree: Vec::new(),
            },
            files: Vec::new(),
            graph: DependencyGraph {
                adjacency: Vec::new(),
                entry_points: Vec::new(),
                leaf_nodes: Vec::new(),
                cycles: Vec::new(),
                stats: GraphStats::default(),
            },
            hotspots: Vec::new(),
            warnings: Vec::new(),
            summary: Summary::default(),
        }
    }
}

} // verus!
