//! The command line of the tool, as plain values.
use vstd::prelude::*;

verus! {

/// The parsed command line.
pub struct Cli {
    /// Project root directory.
    pub root: String,
    /// Output format.
    pub format: OutputFormat,
    /// Analyze only files matching this glob.
    pub included: Option<String>,
    /// Leave out files matching this glob.
    pub exclude: Option<String>,
    pub command: Option<Command>,
}

/// The subcommands.
pub enum Command {
    /// Full project analysis (symbols, dependencies, complexity, overview).
    Analyze {
        /// Approximate output token budget (chars / 4).
        budget: Option<usize>,
    },
    /// Extract symbols from specific files or the whole project.
    Symbols {
        /// Specific files to inspect relative to the project root.
        files: Vec<String>,
    },
    /// Build file-level dependency graph.
    Deps,
    /// Calculate complexity metrics.
    Complexity {
        /// Minimum cyclomatic complexity to include in output.
        threshold: Option<u32>,
        /// Cyclomatic complexity threshold for hotspot detection.
        complexity_threshold: Option<u32>,
        /// Max nesting depth threshold for hotspot detection.
        nesting_threshold: Option<u32>,
        /// Lines of code threshold for hotspot detection.
        loc_threshold: Option<u32>,
        /// Parameter count threshold for hotspot detection.
        params_threshold: Option<u32>,
    },
}

#[derive(PartialEq, Eq, Structural, Clone, Copy, Debug)]
pub enum OutputFormat {
    Json,
    Pretty,
}

/// The command to run: the one given, else a full analysis without budget.
pub fn command_or_default(command: Option<Command>) -> (r: Command)
    ensures
        command is None ==> r == (Command::Analyze { budget: None }),
        command matches Some(c) ==> r == c,
{
    match command {
        Some(c) => c,
        None => Command::Analyze { budget: None },
    }
}

} // verus!
