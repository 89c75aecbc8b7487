//! Fixed settings of the analysis.
use vstd::prelude::*;

verus! {

/// Version reported in analysis results.
pub const VERSION: &'static str = "0.1.0";

/// Directories always skipped during file discovery (in addition to .gitignore).
pub const DEFAULT_SKIP_DIRS: [&'static str; 7] = [
    "node_modules",
    "dist",
    ".git",
    "target",
    "__pycache__",
    ".next",
    "build",
];

/// Supported file extensions for analysis.
pub const SUPPORTED_EXTENSIONS: [&'static str; 7] = ["ts", "tsx", "js", "jsx", "mjs", "cjs", "svelte"];

/// Maximum file size in bytes before skipping (1 MB).
pub const MAX_FILE_SIZE_BYTES: u64 = 1048576;

/// Cyclomatic complexity above this value is a hotspot.
pub const DEFAULT_COMPLEXITY_THRESHOLD: u32 = 10;

/// Max nesting depth above this value is a hotspot.
pub const DEFAULT_NESTING_THRESHOLD: u32 = 3;

/// Lines of code above this value is a hotspot.
pub const DEFAULT_LOC_THRESHOLD: u32 = 30;

/// Parameter count above this value is a hotspot.
pub const DEFAULT_PARAMS_THRESHOLD: u32 = 4;

/// Token estimation: approximate chars per token.
pub const CHARS_PER_TOKEN: usize = 4;

/// Share of the token budget actually used, in percent (15% headroom).
pub const BUDGET_HEADROOM_PERCENT: usize = 85;

/// Declaration-only file extension.
pub const DECLARATION_EXTENSION: &'static str = "d.ts";

} // verus!
