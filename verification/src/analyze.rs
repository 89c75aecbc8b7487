//! The full analysis: per-file results, summary, the budget that limits
//! what is kept, and the plain-text rendering.
use vstd::prelude::*;

use crate::complexity::sat_usize;
use crate::config::{BUDGET_HEADROOM_PERCENT, CHARS_PER_TOKEN};
use crate::deps::hundredths;
use crate::output::{AnalysisResult, Export, FileAnalysis, FileMetrics, Hotspot, Summary, Symbol, SymbolKind};
use crate::ranking::hotspot_count;
use crate::symbols::{export_models, symbol_models, ExportModel, SymbolModel};
use crate::text::{chars_of, decimal, decimal_string, str_eq, string_from_chars};
use crate::config::VERSION;
use crate::deps::{build_dependency_graph, clone_strings};
use crate::metrics::{analyze_file, detect_hotspots, HotspotThresholds};
use crate::output::{FunctionMetrics, Import, Warning, language_name};
use crate::overview::{build_overview, project_name};
use crate::parse::{ParseResult, ParsedFile};
use crate::ranking::{score_files, scores_ordered, FileScore};
use crate::resolve::{load_tsconfig_aliases, JsonValue, PathAliases};
use crate::symbols::{extract_symbols, import_models, views, FileSymbols, ImportModel};
use crate::walk::WalkResult;

verus! {

/// Full analysis result plus its plain-text rendering.
pub struct AnalyzeOutput {
    pub result: AnalysisResult,
    pub pretty: String,
}

// ---------------------------------------------------------------------------
// Summary
// ---------------------------------------------------------------------------

/// Symbols over all files.
pub open spec fn total_symbols(fs: Seq<FileAnalysis>) -> int
    decreases fs.len(),
{
    if fs.len() == 0 {
        0
    } else {
        total_symbols(fs.drop_last()) + fs.last().symbols@.len()
    }
}

/// Code lines over all files.
pub open spec fn total_code_lines(fs: Seq<FileAnalysis>) -> int
    decreases fs.len(),
{
    if fs.len() == 0 {
        0
    } else {
        total_code_lines(fs.drop_last()) + fs.last().metrics.code_lines
    }
}

/// Cyclomatic complexity over all files.
pub open spec fn total_complexity(fs: Seq<FileAnalysis>) -> int
    decreases fs.len(),
{
    if fs.len() == 0 {
        0
    } else {
        total_complexity(fs.drop_last()) + fs.last().metrics.cyclomatic_complexity
    }
}

proof fn lemma_sat_step(a: int, b: int)
    requires
        a >= 0,
        b >= 0,
    ensures
        sat_usize(sat_usize(a) + b) == sat_usize(a + b),
{
}

/// The summary of `files`: how many files, symbols (saturated), code lines
/// (saturated) and the average complexity per file in hundredths, rounded
/// half up.
pub fn build_summary(files: &Vec<FileAnalysis>) -> (s: Summary)
    ensures
        s.total_files == files@.len(),
        s.total_symbols == sat_usize(total_symbols(files@)),
        s.total_lines_of_code == sat_usize(total_code_lines(files@)),
        s.avg_complexity_hundredths == hundredths(total_complexity(files@), files@.len() as int),
{
    let n = files.len();
    let mut symbols: usize = 0;
    let mut loc: usize = 0;
    let mut complexity: u128 = 0;
    let mut k: usize = 0;
    while k < n
        invariant
            n == files@.len(),
            k <= n,
            symbols == sat_usize(total_symbols(files@.take(k as int))),
            loc == sat_usize(total_code_lines(files@.take(k as int))),
            complexity == total_complexity(files@.take(k as int)),
            total_symbols(files@.take(k as int)) >= 0,
            total_code_lines(files@.take(k as int)) >= 0,
            complexity <= k * 4294967295,
        decreases n - k,
    {
        proof {
            assert(files@.take(k + 1).drop_last() =~= files@.take(k as int));
            lemma_sat_step(total_symbols(files@.take(k as int)), files@[k as int].symbols@.len() as int);
            lemma_sat_step(total_code_lines(files@.take(k as int)), files@[k as int].metrics.code_lines as int);
        }
        symbols = symbols.saturating_add(files[k].symbols.len());
        loc = loc.saturating_add(files[k].metrics.code_lines);
        complexity = complexity + files[k].metrics.cyclomatic_complexity as u128;
        k = k + 1;
    }
    assert(files@.take(n as int) =~= files@);
    let avg = if n == 0 {
        0
    } else {
        let num: u128 = 200 * complexity + n as u128;
        let den: u128 = 2 * n as u128;
        let q = num / den;
        if q > usize::MAX as u128 {
            usize::MAX
        } else {
            q as usize
        }
    };
    Summary { total_files: n, total_symbols: symbols, total_lines_of_code: loc, avg_complexity_hundredths: avg }
}

// ---------------------------------------------------------------------------
// Summarized files
// ---------------------------------------------------------------------------

/// A symbol reduced to its name, kind, line and export flag: its last line
/// is its first, and it has no signature.
pub open spec fn symbol_summary(m: SymbolModel) -> SymbolModel {
    (m.0, m.1, m.2, m.2, m.4, None)
}

/// `s` is the summary of `f`: the same path, language, exports and line
/// counts, the symbols summarized, and no imports or per-function metrics.
pub open spec fn is_summary_of(s: FileAnalysis, f: FileAnalysis) -> bool {
    &&& s.path@ == f.path@
    &&& s.language@ == f.language@
    &&& symbol_models(s.symbols@) == symbol_models(f.symbols@).map_values(|m: SymbolModel| symbol_summary(m))
    &&& s.imports@.len() == 0
    &&& export_models(s.exports@) == export_models(f.exports@)
    &&& s.metrics.total_lines == f.metrics.total_lines
    &&& s.metrics.code_lines == f.metrics.code_lines
    &&& s.metrics.comment_lines == f.metrics.comment_lines
    &&& s.metrics.blank_lines == f.metrics.blank_lines
    &&& s.metrics.cyclomatic_complexity == f.metrics.cyclomatic_complexity
    &&& s.metrics.max_nesting_depth == f.metrics.max_nesting_depth
    &&& s.metrics.functions@.len() == 0
}

/// A symbol without its signature and with its last line set to its first.
pub fn summarize_symbol(symbol: &Symbol) -> (r: Symbol)
    ensures
        r.model() == symbol_summary(symbol.model()),
{
    Symbol {
        name: symbol.name.clone(),
        kind: symbol.kind,
        line: symbol.line,
        end_line: symbol.line,
        exported: symbol.exported,
        signature: None,
    }
}

fn clone_export(e: &Export) -> (r: Export)
    ensures
        r.model() == e.model(),
{
    Export {
        name: e.name.clone(),
        kind: e.kind,
        line: e.line,
        source: match &e.source {
            Some(s) => Some(s.clone()),
            None => None,
        },
    }
}

/// The file with its heavy details dropped: no imports, no per-function
/// metrics, symbols without signatures.
pub fn summarize_file(file: &FileAnalysis) -> (r: FileAnalysis)
    ensures
        is_summary_of(r, *file),
{
    let mut symbols: Vec<Symbol> = Vec::new();
    let mut k: usize = 0;
    while k < file.symbols.len()
        invariant
            k <= file.symbols@.len(),
            symbol_models(symbols@) == symbol_models(file.symbols@.take(k as int)).map_values(
                |m: SymbolModel| symbol_summary(m),
            ),
        decreases file.symbols@.len() - k,
    {
        let s = summarize_symbol(&file.symbols[k]);
        let ghost before = symbols@;
        symbols.push(s);
        proof {
            assert(symbol_models(symbols@) =~= symbol_models(before).push(s.model()));
            assert(symbol_models(file.symbols@.take(k + 1)) =~= symbol_models(file.symbols@.take(k as int)).push(
                file.symbols@[k as int].model(),
            ));
            assert(symbol_models(symbols@) =~= symbol_models(file.symbols@.take(k + 1)).map_values(
                |m: SymbolModel| symbol_summary(m),
            ));
        }
        k = k + 1;
    }
    assert(file.symbols@.take(file.symbols@.len() as int) =~= file.symbols@);
    let mut exports: Vec<Export> = Vec::new();
    let mut j: usize = 0;
    while j < file.exports.len()
        invariant
            j <= file.exports@.len(),
            export_models(exports@) == export_models(file.exports@.take(j as int)),
        decreases file.exports@.len() - j,
    {
        let e = clone_export(&file.exports[j]);
        let ghost before = exports@;
        exports.push(e);
        proof {
            assert(export_models(exports@) =~= export_models(before).push(e.model()));
            assert(export_models(file.exports@.take(j + 1)) =~= export_models(file.exports@.take(j as int)).push(
                file.exports@[j as int].model(),
            ));
        }
        j = j + 1;
    }
    assert(file.exports@.take(file.exports@.len() as int) =~= file.exports@);
    FileAnalysis {
        path: file.path.clone(),
        language: file.language.clone(),
        symbols,
        imports: Vec::new(),
        exports,
        metrics: FileMetrics {
            total_lines: file.metrics.total_lines,
            code_lines: file.metrics.code_lines,
            comment_lines: file.metrics.comment_lines,
            blank_lines: file.metrics.blank_lines,
            cyclomatic_complexity: file.metrics.cyclomatic_complexity,
            max_nesting_depth: file.metrics.max_nesting_depth,
            functions: Vec::new(),
        },
    }
}

// ---------------------------------------------------------------------------
// Budget
// ---------------------------------------------------------------------------

/// How a file is kept under a budget.
#[derive(PartialEq, Eq, Structural, Clone, Copy, Debug)]
pub enum FileBudget {
    Full,
    Summary,
}

/// The characters a budget of `tokens` allows: four per token, less the
/// headroom (saturated to `usize`).
pub open spec fn budget_chars(tokens: int) -> int {
    sat_usize(tokens * CHARS_PER_TOKEN * BUDGET_HEADROOM_PERCENT / 100)
}

/// The characters that a budget of `budget_tokens` tokens allows.
pub fn target_chars(budget_tokens: usize) -> (r: usize)
    ensures
        r == budget_chars(budget_tokens as int),
{
    let b: u128 = budget_tokens as u128;
    assert(b <= 0xffff_ffff_ffff_ffff);
    assert(CHARS_PER_TOKEN == 4 && BUDGET_HEADROOM_PERCENT == 85);
    let per_token: u128 = b * 4;
    let wide: u128 = per_token * 85 / 100;
    if wide > usize::MAX as u128 {
        usize::MAX
    } else {
        wide as usize
    }
}

/// The cost of keeping file `i` as `b` says: `costs[i].0` in full,
/// `costs[i].1` summarized.
pub open spec fn cost_of(c: (usize, usize), b: FileBudget) -> int {
    match b {
        FileBudget::Full => c.0 as int,
        FileBudget::Summary => c.1 as int,
    }
}

/// The characters used by the fixed sections and the first `k` planned
/// files.
pub open spec fn used_chars(fixed: int, costs: Seq<(usize, usize)>, plan: Seq<FileBudget>, k: int) -> int
    decreases k,
{
    if k <= 0 {
        fixed
    } else {
        used_chars(fixed, costs, plan, k - 1) + cost_of(costs[k - 1], plan[k - 1])
    }
}

/// `plan` is what the budget keeps of files with costs `costs`, most
/// important first: nothing when the fixed sections take the whole target;
/// otherwise each file in turn in full when that fits, else summarized when
/// that fits, and the first file for which neither fits ends the plan.
pub open spec fn budget_plan_ok(target: int, fixed: int, costs: Seq<(usize, usize)>, plan: Seq<FileBudget>) -> bool {
    &&& plan.len() <= costs.len()
    &&& fixed >= target ==> plan.len() == 0
    &&& fixed < target ==> {
        &&& forall|i: int|
            0 <= i < plan.len() ==> ((#[trigger] plan[i] == FileBudget::Full) <==> used_chars(
                fixed,
                costs,
                plan,
                i,
            ) + costs[i].0 <= target)
        &&& forall|i: int|
            0 <= i < plan.len() ==> (#[trigger] plan[i] == FileBudget::Summary ==> used_chars(
                fixed,
                costs,
                plan,
                i,
            ) + costs[i].1 <= target)
        &&& plan.len() < costs.len() ==> used_chars(fixed, costs, plan, plan.len() as int) + costs[plan.len()
            as int].0 > target && used_chars(fixed, costs, plan, plan.len() as int) + costs[plan.len() as int].1
            > target
    }
}

proof fn lemma_used_prefix(fixed: int, costs: Seq<(usize, usize)>, plan: Seq<FileBudget>, b: FileBudget, k: int)
    requires
        0 <= k <= plan.len(),
    ensures
        used_chars(fixed, costs, plan.push(b), k) == used_chars(fixed, costs, plan, k),
    decreases k,
{
    if k > 0 {
        lemma_used_prefix(fixed, costs, plan, b, k - 1);
    }
}

/// Decides, file by file in order of importance, what a budget of `target`
/// characters keeps, given the cost of the fixed sections and of each file
/// in full and summarized. What is kept never costs more than the target.
pub fn plan_budget(target: usize, fixed_cost: usize, costs: &Vec<(usize, usize)>) -> (plan: Vec<FileBudget>)
    ensures
        budget_plan_ok(target as int, fixed_cost as int, costs@, plan@),
        plan@.len() == 0 || used_chars(fixed_cost as int, costs@, plan@, plan@.len() as int) <= target,
{
    let mut plan: Vec<FileBudget> = Vec::new();
    if target == 0 || fixed_cost >= target {
        return plan;
    }
    let mut used: usize = fixed_cost;
    let mut i: usize = 0;
    while i < costs.len()
        invariant_except_break
            fixed_cost < target,
            i <= costs@.len(),
            plan@.len() == i,
            used == used_chars(fixed_cost as int, costs@, plan@, i as int),
            used <= target,
            forall|j: int|
                0 <= j < i ==> ((#[trigger] plan@[j] == FileBudget::Full) <==> used_chars(
                    fixed_cost as int,
                    costs@,
                    plan@,
                    j,
                ) + costs@[j].0 <= target),
            forall|j: int|
                0 <= j < i ==> (#[trigger] plan@[j] == FileBudget::Summary ==> used_chars(
                    fixed_cost as int,
                    costs@,
                    plan@,
                    j,
                ) + costs@[j].1 <= target),
        ensures
            budget_plan_ok(target as int, fixed_cost as int, costs@, plan@),
            used_chars(fixed_cost as int, costs@, plan@, plan@.len() as int) <= target,
        decreases costs@.len() - i,
    {
        let (full, summary) = costs[i];
        let ghost before = plan@;
        if full <= target - used {
            plan.push(FileBudget::Full);
            proof {
                assert forall|j: int| 0 <= j <= i implies used_chars(fixed_cost as int, costs@, plan@, j)
                    == used_chars(fixed_cost as int, costs@, before, j) by {
                    lemma_used_prefix(fixed_cost as int, costs@, before, FileBudget::Full, j);
                }
                assert(plan@[i as int] == FileBudget::Full);
            }
            used = used + full;
        } else if summary <= target - used {
            plan.push(FileBudget::Summary);
            proof {
                assert forall|j: int| 0 <= j <= i implies used_chars(fixed_cost as int, costs@, plan@, j)
                    == used_chars(fixed_cost as int, costs@, before, j) by {
                    lemma_used_prefix(fixed_cost as int, costs@, before, FileBudget::Summary, j);
                }
                assert(plan@[i as int] == FileBudget::Summary);
            }
            used = used + summary;
        } else {
            break;
        }
        i = i + 1;
    }
    plan
}

/// `kept` holds, in order, the first files of `files` as `plan` says: a
/// file in full as it was, else its summary.
pub open spec fn kept_as_planned(kept: Seq<FileAnalysis>, files: Seq<FileAnalysis>, plan: Seq<FileBudget>) -> bool {
    &&& kept.len() == plan.len()
    &&& forall|i: int|
        0 <= i < plan.len() ==> (plan[i] == FileBudget::Full ==> #[trigger] kept[i] == files[i]) && (plan[i]
            == FileBudget::Summary ==> is_summary_of(kept[i], files[i]))
}

/// Keeps the files as `plan` says, in full or summarized.
pub fn apply_plan(files: Vec<FileAnalysis>, plan: &Vec<FileBudget>) -> (kept: Vec<FileAnalysis>)
    requires
        plan@.len() <= files@.len(),
    ensures
        kept_as_planned(kept@, files@, plan@),
{
    let ghost orig = files@;
    let mut rest = files;
    let mut kept: Vec<FileAnalysis> = Vec::new();
    let mut i: usize = 0;
    while i < plan.len()
        invariant
            plan@.len() <= orig.len(),
            i <= plan@.len(),
            rest@ == orig.skip(i as int),
            kept@.len() == i,
            forall|j: int|
                0 <= j < i ==> (plan@[j] == FileBudget::Full ==> #[trigger] kept@[j] == orig[j]) && (plan@[j]
                    == FileBudget::Summary ==> is_summary_of(kept@[j], orig[j])),
        decreases plan@.len() - i,
    {
        let f = rest.remove(0);
        proof {
            assert(rest@ =~= orig.skip(i + 1));
        }
        match plan[i] {
            FileBudget::Full => kept.push(f),
            FileBudget::Summary => kept.push(summarize_file(&f)),
        }
        i = i + 1;
    }
    kept
}

/// `kept` is what a budget of `tokens` tokens keeps of `files`, given the
/// cost of the fixed sections and of each file.
pub open spec fn budget_applied(
    kept: Seq<FileAnalysis>,
    files: Seq<FileAnalysis>,
    tokens: int,
    fixed: int,
    costs: Seq<(usize, usize)>,
) -> bool {
    exists|plan: Seq<FileBudget>|
        budget_plan_ok(budget_chars(tokens), fixed, costs, plan) && kept_as_planned(kept, files, plan)
}

/// Limits `result` to what a budget of `budget_tokens` tokens allows.
/// `fixed_cost` is the size of the result without files and `costs` the
/// size of each file in full and summarized, as serialized.
pub fn apply_budget(result: &mut AnalysisResult, budget_tokens: usize, fixed_cost: usize, costs: &Vec<(usize, usize)>)
    requires
        costs@.len() == old(result).files@.len(),
    ensures
        budget_applied(final(result).files@, old(result).files@, budget_tokens as int, fixed_cost as int, costs@),
        final(result).version == old(result).version,
        final(result).project == old(result).project,
        final(result).graph == old(result).graph,
        final(result).hotspots == old(result).hotspots,
        final(result).warnings == old(result).warnings,
        final(result).summary == old(result).summary,
{
    let target = target_chars(budget_tokens);
    let plan = plan_budget(target, fixed_cost, costs);
    let mut files: Vec<FileAnalysis> = Vec::new();
    std::mem::swap(&mut files, &mut result.files);
    let kept = apply_plan(files, &plan);
    result.files = kept;
}

// ---------------------------------------------------------------------------
// Plain-text rendering
// ---------------------------------------------------------------------------

/// The name a symbol kind is printed with.
pub open spec fn kind_name(k: SymbolKind) -> Seq<char> {
    match k {
        SymbolKind::Function => "Function"@,
        SymbolKind::ArrowFunction => "ArrowFunction"@,
        SymbolKind::Method => "Method"@,
        SymbolKind::Class => "Class"@,
        SymbolKind::Interface => "Interface"@,
        SymbolKind::TypeAlias => "TypeAlias"@,
        SymbolKind::Enum => "Enum"@,
        SymbolKind::Variable => "Variable"@,
        SymbolKind::Component => "Component"@,
        SymbolKind::Rune => "Rune"@,
    }
}

fn kind_name_exec(k: SymbolKind) -> (r: &'static str)
    ensures
        r@ == kind_name(k),
{
    match k {
        SymbolKind::Function => "Function",
        SymbolKind::ArrowFunction => "ArrowFunction",
        SymbolKind::Method => "Method",
        SymbolKind::Class => "Class",
        SymbolKind::Interface => "Interface",
        SymbolKind::TypeAlias => "TypeAlias",
        SymbolKind::Enum => "Enum",
        SymbolKind::Variable => "Variable",
        SymbolKind::Component => "Component",
        SymbolKind::Rune => "Rune",
    }
}

/// The header line of a file with `hot` hotspots.
pub open spec fn header_line(f: FileAnalysis, hot: nat) -> Seq<char> {
    f.path@ + " (complexity: "@ + decimal(f.metrics.cyclomatic_complexity as nat) + ", "@ + decimal(
        f.symbols@.len(),
    ) + " symbols"@ + (if hot > 0 {
        ", "@ + decimal(hot) + " hotspots"@
    } else {
        Seq::<char>::empty()
    }) + "):"@
}

/// The line of a symbol: its line, kind, name and signature.
pub open spec fn symbol_line(s: Symbol) -> Seq<char> {
    "  "@ + decimal(s.line as nat) + ": "@ + kind_name(s.kind) + " "@ + match s.signature {
        Some(g) => s.name@ + " "@ + g@,
        None => s.name@,
    }
}

/// The lines of the symbols.
pub open spec fn symbol_lines(ss: Seq<Symbol>) -> Seq<Seq<char>> {
    ss.map_values(|s: Symbol| symbol_line(s))
}

/// The lines of one file.
pub open spec fn file_lines(f: FileAnalysis, hs: Seq<Hotspot>) -> Seq<Seq<char>> {
    seq![header_line(f, hotspot_count(hs, f.path@))] + symbol_lines(f.symbols@) + if f.symbols@.len() == 0 {
        seq!["  (no symbols)"@]
    } else {
        Seq::<Seq<char>>::empty()
    }
}

/// The lines of the first `n` files.
pub open spec fn files_lines(fs: Seq<FileAnalysis>, hs: Seq<Hotspot>, n: int) -> Seq<Seq<char>>
    decreases n,
{
    if n <= 0 {
        seq![]
    } else {
        files_lines(fs, hs, n - 1) + file_lines(fs[n - 1], hs)
    }
}

/// Lines joined by newlines.
pub open spec fn join_lines(ls: Seq<Seq<char>>) -> Seq<char>
    decreases ls.len(),
{
    if ls.len() == 0 {
        seq![]
    } else if ls.len() == 1 {
        ls[0]
    } else {
        join_lines(ls.drop_last()) + "\n"@ + ls.last()
    }
}

/// The rendering of a result: each file's lines, or a single line saying
/// that there are none.
pub open spec fn pretty_text(r: AnalysisResult) -> Seq<char> {
    if r.files@.len() == 0 {
        "(no analyzed files)"@
    } else {
        join_lines(files_lines(r.files@, r.hotspots@, r.files@.len() as int))
    }
}

fn push_str(out: &mut Vec<char>, s: &str)
    ensures
        final(out)@ == old(out)@ + s@,
{
    let mut c = chars_of(s);
    out.append(&mut c);
}

fn push_decimal(out: &mut Vec<char>, n: usize)
    ensures
        final(out)@ == old(out)@ + decimal(n as nat),
{
    let d = decimal_string(n as u64);
    push_str(out, d.as_str());
}

/// Appends a line, after a newline when lines came before (`first` says
/// that none did).
fn push_line(out: &mut Vec<char>, Ghost(lines): Ghost<Seq<Seq<char>>>, first: bool, line: Vec<char>)
    requires
        old(out)@ == join_lines(lines),
        first == (lines.len() == 0),
    ensures
        final(out)@ == join_lines(lines.push(line@)),
{
    if !first {
        out.push('\n');
    }
    let mut c = line;
    let ghost added = c@;
    out.append(&mut c);
    proof {
        reveal_strlit("\n");
        assert(lines.push(added).drop_last() =~= lines);
        if lines.len() > 0 {
            assert(final(out)@ =~= join_lines(lines) + "\n"@ + added);
        } else {
            assert(final(out)@ =~= added);
        }
    }
}

fn header_chars(f: &FileAnalysis, hot: usize) -> (r: Vec<char>)
    ensures
        r@ == header_line(*f, hot as nat),
{
    let mut out = chars_of(f.path.as_str());
    push_str(&mut out, " (complexity: ");
    push_decimal(&mut out, f.metrics.cyclomatic_complexity as usize);
    push_str(&mut out, ", ");
    push_decimal(&mut out, f.symbols.len());
    push_str(&mut out, " symbols");
    let ghost mid = out@;
    if hot > 0 {
        push_str(&mut out, ", ");
        push_decimal(&mut out, hot);
        push_str(&mut out, " hotspots");
    }
    push_str(&mut out, "):");
    assert(out@ =~= header_line(*f, hot as nat));
    out
}

fn symbol_chars(s: &Symbol) -> (r: Vec<char>)
    ensures
        r@ == symbol_line(*s),
{
    let mut out: Vec<char> = Vec::new();
    push_str(&mut out, "  ");
    push_decimal(&mut out, s.line);
    push_str(&mut out, ": ");
    push_str(&mut out, kind_name_exec(s.kind));
    push_str(&mut out, " ");
    push_str(&mut out, s.name.as_str());
    match &s.signature {
        Some(g) => {
            push_str(&mut out, " ");
            push_str(&mut out, g.as_str());
        },
        None => {},
    }
    assert(out@ =~= symbol_line(*s));
    out
}

/// Counts the hotspots of each path: each path once, with its count.
pub fn hotspot_counts(hotspots: &Vec<Hotspot>) -> (r: Vec<(String, usize)>)
    ensures
        forall|a: int, b: int| 0 <= a < b < r@.len() ==> (#[trigger] r@[a]).0@ != (#[trigger] r@[b]).0@,
        forall|a: int| 0 <= a < r@.len() ==> (#[trigger] r@[a]).1 == hotspot_count(hotspots@, r@[a].0@) && r@[a].1 > 0,
        forall|p: Seq<char>| #[trigger] hotspot_count(hotspots@, p) > 0 ==> exists|a: int| 0 <= a < r@.len() && r@[a].0@ == p,
{
    let mut r: Vec<(String, usize)> = Vec::new();
    let mut k: usize = 0;
    while k < hotspots.len()
        invariant
            k <= hotspots@.len(),
            forall|a: int, b: int| 0 <= a < b < r@.len() ==> (#[trigger] r@[a]).0@ != (#[trigger] r@[b]).0@,
            forall|a: int|
                0 <= a < r@.len() ==> (#[trigger] r@[a]).1 == hotspot_count(hotspots@.take(k as int), r@[a].0@)
                    && r@[a].1 > 0,
            forall|p: Seq<char>|
                #[trigger] hotspot_count(hotspots@.take(k as int), p) > 0 ==> exists|a: int|
                    0 <= a < r@.len() && r@[a].0@ == p,
            forall|p: Seq<char>| hotspot_count(hotspots@.take(k as int), p) <= k,
        decreases hotspots@.len() - k,
    {
        let ghost prev = hotspots@.take(k as int);
        let ghost next = hotspots@.take(k + 1);
        proof {
            assert(next.drop_last() =~= prev);
        }
        let p = &hotspots[k].path;
        let ghost before = r@;
        let mut a: usize = 0;
        while a < r.len() && !crate::text::str_eq(r[a].0.as_str(), p.as_str())
            invariant
                a <= r@.len(),
                forall|b: int| 0 <= b < a ==> r@[b].0@ != p@,
            decreases r@.len() - a,
        {
            a = a + 1;
        }
        if a < r.len() {
            let c = r[a].1;
            let name = r[a].0.clone();
            r.set(a, (name, c + 1));
            proof {
                assert forall|x: int, y: int| 0 <= x < y < r@.len() implies (#[trigger] r@[x]).0@ != (#[trigger] r@[y]).0@ by {
                    assert(before[x].0@ != before[y].0@);
                }
                assert forall|e: Seq<char>| #[trigger] hotspot_count(next, e) > 0 implies exists|x: int|
                    0 <= x < r@.len() && r@[x].0@ == e by {
                    if e == p@ {
                        assert(r@[a as int].0@ == e);
                    } else {
                        assert(hotspot_count(next, e) == hotspot_count(prev, e));
                        let x = choose|x: int| 0 <= x < before.len() && before[x].0@ == e;
                        assert(r@[x].0@ == e);
                    }
                }
            }
        } else {
            r.push((p.clone(), 1));
            proof {
                assert(hotspot_count(prev, p@) == 0) by {
                    if hotspot_count(prev, p@) > 0 {
                        let x = choose|x: int| 0 <= x < before.len() && before[x].0@ == p@;
                    }
                }
                assert forall|e: Seq<char>| #[trigger] hotspot_count(next, e) > 0 implies exists|x: int|
                    0 <= x < r@.len() && r@[x].0@ == e by {
                    if e == p@ {
                        assert(r@[before.len() as int].0@ == e);
                    } else {
                        assert(hotspot_count(next, e) == hotspot_count(prev, e));
                        let x = choose|x: int| 0 <= x < before.len() && before[x].0@ == e;
                        assert(r@[x].0@ == e);
                    }
                }
            }
        }
        k = k + 1;
    }
    assert(hotspots@.take(hotspots@.len() as int) =~= hotspots@);
    r
}

fn count_for(counts: &Vec<(String, usize)>, p: &String) -> (r: usize)
    ensures
        (exists|a: int| 0 <= a < counts@.len() && counts@[a].0@ == p@) ==> exists|a: int|
            0 <= a < counts@.len() && counts@[a].0@ == p@ && counts@[a].1 == r,
        (forall|a: int| 0 <= a < counts@.len() ==> counts@[a].0@ != p@) ==> r == 0,
{
    let mut a: usize = 0;
    while a < counts.len()
        invariant
            a <= counts@.len(),
            forall|b: int| 0 <= b < a ==> counts@[b].0@ != p@,
        decreases counts@.len() - a,
    {
        if crate::text::str_eq(counts[a].0.as_str(), p.as_str()) {
            return counts[a].1;
        }
        a = a + 1;
    }
    0
}

/// Renders the result as plain text: per file a header with its complexity,
/// symbol count and hotspot count, then a line per symbol.
pub fn format_pretty(result: &AnalysisResult) -> (r: String)
    ensures
        r@ == pretty_text(*result),
{
    let counts = hotspot_counts(&result.hotspots);
    let ghost hs = result.hotspots@;
    let ghost fs = result.files@;
    let mut out: Vec<char> = Vec::new();
    let mut i: usize = 0;
    while i < result.files.len()
        invariant
            hs == result.hotspots@,
            fs == result.files@,
            i <= fs.len(),
            out@ == join_lines(files_lines(fs, hs, i as int)),
            (files_lines(fs, hs, i as int).len() == 0) == (i == 0),
            forall|a: int, b: int| 0 <= a < b < counts@.len() ==> (#[trigger] counts@[a]).0@ != (#[trigger] counts@[b]).0@,
            forall|a: int| 0 <= a < counts@.len() ==> (#[trigger] counts@[a]).1 == hotspot_count(hs, counts@[a].0@),
            forall|p: Seq<char>| #[trigger] hotspot_count(hs, p) > 0 ==> exists|a: int| 0 <= a < counts@.len() && counts@[a].0@ == p,
        decreases fs.len() - i,
    {
        let f = &result.files[i];
        let hot = count_for(&counts, &f.path);
        proof {
            if hotspot_count(hs, f.path@) > 0 {
                let a = choose|a: int| 0 <= a < counts@.len() && counts@[a].0@ == f.path@ && counts@[a].1 == hot;
            } else if exists|a: int| 0 <= a < counts@.len() && counts@[a].0@ == f.path@ {
                let a = choose|a: int| 0 <= a < counts@.len() && counts@[a].0@ == f.path@ && counts@[a].1 == hot;
            }
            assert(hot == hotspot_count(hs, f.path@));
        }
        let ghost lines = files_lines(fs, hs, i as int);
        let h = header_chars(f, hot);
        let ghost hv = h@;
        push_line(&mut out, Ghost(lines), i == 0, h);
        let ghost mut acc = lines.push(hv);
        let mut k: usize = 0;
        while k < f.symbols.len()
            invariant
                k <= f.symbols@.len(),
                acc == lines + seq![header_line(*f, hotspot_count(hs, f.path@))] + symbol_lines(f.symbols@.take(k as int)),
                out@ == join_lines(acc),
                acc.len() > 0,
            decreases f.symbols@.len() - k,
        {
            let s = symbol_chars(&f.symbols[k]);
            let ghost sv = s@;
            push_line(&mut out, Ghost(acc), false, s);
            proof {
                assert(symbol_lines(f.symbols@.take(k + 1)) =~= symbol_lines(f.symbols@.take(k as int)).push(sv));
                assert(acc.push(sv) =~= lines + seq![header_line(*f, hotspot_count(hs, f.path@))] + symbol_lines(
                    f.symbols@.take(k + 1),
                ));
                acc = acc.push(sv);
            }
            k = k + 1;
        }
        assert(f.symbols@.take(f.symbols@.len() as int) =~= f.symbols@);
        if f.symbols.len() == 0 {
            let none = chars_of("  (no symbols)");
            let ghost nv = none@;
            push_line(&mut out, Ghost(acc), false, none);
            proof {
                acc = acc.push(nv);
            }
        }
        proof {
            assert(acc =~= files_lines(fs, hs, i + 1));
        }
        i = i + 1;
    }
    if result.files.len() == 0 {
        return String::from_str("(no analyzed files)");
    }
    string_from_chars(&out)
}

// ---------------------------------------------------------------------------
// The whole analysis
// ---------------------------------------------------------------------------

/// Per-function metrics as plain values.
pub open spec fn function_model(f: FunctionMetrics) -> (Seq<char>, int, int, int, int, int, int) {
    (
        f.name@,
        f.line as int,
        f.end_line as int,
        f.lines_of_code as int,
        f.cyclomatic_complexity as int,
        f.max_nesting_depth as int,
        f.parameter_count as int,
    )
}

/// A file's metrics as plain values.
pub open spec fn metrics_model(m: FileMetrics) -> (int, int, int, int, int, int, Seq<(Seq<char>, int, int, int, int, int, int)>) {
    (
        m.total_lines as int,
        m.code_lines as int,
        m.comment_lines as int,
        m.blank_lines as int,
        m.cyclomatic_complexity as int,
        m.max_nesting_depth as int,
        m.functions@.map_values(|f: FunctionMetrics| function_model(f)),
    )
}

/// A file analysis as plain values.
pub open spec fn file_model(f: FileAnalysis) -> (
    Seq<char>,
    Seq<char>,
    Seq<SymbolModel>,
    Seq<ImportModel>,
    Seq<ExportModel>,
    (int, int, int, int, int, int, Seq<(Seq<char>, int, int, int, int, int, int)>),
) {
    (
        f.path@,
        f.language@,
        symbol_models(f.symbols@),
        import_models(f.imports@),
        export_models(f.exports@),
        metrics_model(f.metrics),
    )
}

fn clone_symbol(s: &Symbol) -> (r: Symbol)
    ensures
        r.model() == s.model(),
{
    Symbol {
        name: s.name.clone(),
        kind: s.kind,
        line: s.line,
        end_line: s.end_line,
        exported: s.exported,
        signature: match &s.signature {
            Some(g) => Some(g.clone()),
            None => None,
        },
    }
}

fn clone_import(i: &Import) -> (r: Import)
    ensures
        r.model() == i.model(),
{
    let specifiers = clone_strings(&i.specifiers);
    assert(views(specifiers@) =~= views(i.specifiers@)) by {
        assert(crate::resolve::strings_view(specifiers@) == crate::resolve::strings_view(i.specifiers@));
    }
    Import { source: i.source.clone(), specifiers, kind: i.kind, line: i.line }
}

fn clone_function(f: &FunctionMetrics) -> (r: FunctionMetrics)
    ensures
        function_model(r) == function_model(*f),
{
    FunctionMetrics {
        name: f.name.clone(),
        line: f.line,
        end_line: f.end_line,
        lines_of_code: f.lines_of_code,
        cyclomatic_complexity: f.cyclomatic_complexity,
        max_nesting_depth: f.max_nesting_depth,
        parameter_count: f.parameter_count,
    }
}

/// A copy of a file analysis.
pub fn clone_file_analysis(f: &FileAnalysis) -> (r: FileAnalysis)
    ensures
        file_model(r) == file_model(*f),
{
    let mut symbols: Vec<Symbol> = Vec::new();
    let mut k: usize = 0;
    while k < f.symbols.len()
        invariant
            k <= f.symbols@.len(),
            symbol_models(symbols@) == symbol_models(f.symbols@.take(k as int)),
        decreases f.symbols@.len() - k,
    {
        let x = clone_symbol(&f.symbols[k]);
        let ghost before = symbols@;
        symbols.push(x);
        assert(symbol_models(symbols@) =~= symbol_models(before).push(x.model()));
        assert(symbol_models(f.symbols@.take(k + 1)) =~= symbol_models(f.symbols@.take(k as int)).push(
            f.symbols@[k as int].model(),
        ));
        k = k + 1;
    }
    assert(f.symbols@.take(f.symbols@.len() as int) =~= f.symbols@);
    let mut imports: Vec<Import> = Vec::new();
    k = 0;
    while k < f.imports.len()
        invariant
            k <= f.imports@.len(),
            import_models(imports@) == import_models(f.imports@.take(k as int)),
        decreases f.imports@.len() - k,
    {
        let x = clone_import(&f.imports[k]);
        let ghost before = imports@;
        imports.push(x);
        assert(import_models(imports@) =~= import_models(before).push(x.model()));
        assert(import_models(f.imports@.take(k + 1)) =~= import_models(f.imports@.take(k as int)).push(
            f.imports@[k as int].model(),
        ));
        k = k + 1;
    }
    assert(f.imports@.take(f.imports@.len() as int) =~= f.imports@);
    let mut exports: Vec<Export> = Vec::new();
    k = 0;
    while k < f.exports.len()
        invariant
            k <= f.exports@.len(),
            export_models(exports@) == export_models(f.exports@.take(k as int)),
        decreases f.exports@.len() - k,
    {
        let x = clone_export(&f.exports[k]);
        let ghost before = exports@;
        exports.push(x);
        assert(export_models(exports@) =~= export_models(before).push(x.model()));
        assert(export_models(f.exports@.take(k + 1)) =~= export_models(f.exports@.take(k as int)).push(
            f.exports@[k as int].model(),
        ));
        k = k + 1;
    }
    assert(f.exports@.take(f.exports@.len() as int) =~= f.exports@);
    let mut functions: Vec<FunctionMetrics> = Vec::new();
    k = 0;
    while k < f.metrics.functions.len()
        invariant
            k <= f.metrics.functions@.len(),
            functions@.map_values(|g: FunctionMetrics| function_model(g)) == f.metrics.functions@.take(
                k as int,
            ).map_values(|g: FunctionMetrics| function_model(g)),
        decreases f.metrics.functions@.len() - k,
    {
        let x = clone_function(&f.metrics.functions[k]);
        let ghost before = functions@;
        functions.push(x);
        assert(functions@.map_values(|g: FunctionMetrics| function_model(g)) =~= before.map_values(
            |g: FunctionMetrics| function_model(g),
        ).push(function_model(x)));
        assert(f.metrics.functions@.take(k + 1).map_values(|g: FunctionMetrics| function_model(g))
            =~= f.metrics.functions@.take(k as int).map_values(|g: FunctionMetrics| function_model(g)).push(
            function_model(f.metrics.functions@[k as int]),
        ));
        assert(functions@.map_values(|g: FunctionMetrics| function_model(g)) =~= f.metrics.functions@.take(
            k + 1,
        ).map_values(|g: FunctionMetrics| function_model(g)));
        k = k + 1;
    }
    assert(f.metrics.functions@.take(f.metrics.functions@.len() as int) =~= f.metrics.functions@);
    FileAnalysis {
        path: f.path.clone(),
        language: f.language.clone(),
        symbols,
        imports,
        exports,
        metrics: FileMetrics {
            total_lines: f.metrics.total_lines,
            code_lines: f.metrics.code_lines,
            comment_lines: f.metrics.comment_lines,
            blank_lines: f.metrics.blank_lines,
            cyclomatic_complexity: f.metrics.cyclomatic_complexity,
            max_nesting_depth: f.metrics.max_nesting_depth,
            functions,
        },
    }
}

/// The first of `fs` with path `p`.
pub open spec fn first_with_path(fs: Seq<FileAnalysis>, p: Seq<char>) -> int {
    choose|i: int| 0 <= i < fs.len() && fs[i].path@ == p && forall|j: int| 0 <= j < i ==> fs[j].path@ != p
}

/// Some file of `fs` has path `p`.
pub open spec fn has_path(fs: Seq<FileAnalysis>, p: Seq<char>) -> bool {
    exists|i: int| 0 <= i < fs.len() && fs[i].path@ == p
}

/// The files, copied in the order of their scores: for each score, the
/// first file with its path.
pub fn order_by_scores(files: &Vec<FileAnalysis>, scores: &Vec<FileScore>) -> (r: Vec<FileAnalysis>)
    requires
        forall|q: int| 0 <= q < scores@.len() ==> has_path(files@, (#[trigger] scores@[q]).path@),
    ensures
        r@.len() == scores@.len(),
        forall|q: int|
            0 <= q < r@.len() ==> file_model(#[trigger] r@[q]) == file_model(
                files@[first_with_path(files@, scores@[q].path@)],
            ),
{
    let mut out: Vec<FileAnalysis> = Vec::new();
    let mut q: usize = 0;
    while q < scores.len()
        invariant
            q <= scores@.len(),
            out@.len() == q,
            forall|x: int| 0 <= x < scores@.len() ==> has_path(files@, (#[trigger] scores@[x]).path@),
            forall|x: int|
                0 <= x < q ==> file_model(#[trigger] out@[x]) == file_model(
                    files@[first_with_path(files@, scores@[x].path@)],
                ),
        decreases scores@.len() - q,
    {
        let p = &scores[q].path;
        let mut i: usize = 0;
        while i < files.len() && !str_eq(files[i].path.as_str(), p.as_str())
            invariant
                i <= files@.len(),
                forall|j: int| 0 <= j < i ==> files@[j].path@ != p@,
            decreases files@.len() - i,
        {
            i = i + 1;
        }
        proof {
            let w = choose|w: int| 0 <= w < files@.len() && files@[w].path@ == scores@[q as int].path@;
            assert(i < files@.len()) by {
                if i == files@.len() {
                    assert(files@[w].path@ != p@);
                }
            }
            let f = first_with_path(files@, p@);
            assert(0 <= f < files@.len() && files@[f].path@ == p@ && forall|j: int| 0 <= j < f ==> files@[j].path@ != p@) by {
                assert(0 <= i as int && (i as int) < files@.len() && files@[i as int].path@ == p@
                    && forall|j: int| 0 <= j < i ==> files@[j].path@ != p@);
            }
            if f < i {
                assert(files@[f].path@ != p@);
            } else if f > i {
                assert(files@[i as int].path@ != p@);
            }
        }
        let c = clone_file_analysis(&files[i]);
        out.push(c);
        q = q + 1;
    }
    out
}

/// Warnings as plain values.
pub open spec fn warnings_view(ws: Seq<Warning>) -> Seq<(Seq<char>, Seq<char>)> {
    ws.map_values(|w: Warning| (w.path@, w.message@))
}

/// What the analysis of one parsed file records about it: its path, its
/// language's name, the symbols, imports and exports extraction gives and
/// its metrics.
pub open spec fn describes(fa: FileAnalysis, pf: ParsedFile) -> bool {
    &&& fa.path@ == pf.source_file.path@
    &&& fa.language@ == language_name(pf.source_file.language)
    &&& crate::symbols::symbols_of(pf, FileSymbols { symbols: fa.symbols, imports: fa.imports, exports: fa.exports })
    &&& crate::metrics::file_metrics_ok(&pf, fa.metrics)
}

/// The hotspots of the first `n` files, file after file.
pub open spec fn all_hotspots(fas: Seq<FileAnalysis>, n: int) -> Seq<crate::metrics::HotspotModel>
    decreases n,
{
    if n <= 0 {
        seq![]
    } else {
        all_hotspots(fas, n - 1) + crate::metrics::hotspots_upto(
            fas[n - 1].path@,
            fas[n - 1].metrics.functions@,
            default_thresholds(),
            fas[n - 1].metrics.functions@.len() as int,
        )
    }
}

/// The default hotspot thresholds.
pub open spec fn default_thresholds() -> HotspotThresholds {
    HotspotThresholds {
        complexity: crate::config::DEFAULT_COMPLEXITY_THRESHOLD,
        nesting: crate::config::DEFAULT_NESTING_THRESHOLD,
        loc: crate::config::DEFAULT_LOC_THRESHOLD,
        params: crate::config::DEFAULT_PARAMS_THRESHOLD,
    }
}

/// `scores` are the scores (`file_score`) of the files `fas` under `graph`
/// and hotspots `hs`, in rank order: score `q` is that of file `perm[q]`,
/// `perm` a permutation; equal scores of equal paths keep the files' order.
pub open spec fn ranked_scores(
    scores: Seq<FileScore>,
    fas: Seq<FileAnalysis>,
    graph: crate::output::DependencyGraph,
    hs: Seq<Hotspot>,
    perm: Seq<int>,
) -> bool {
    &&& crate::order::is_permutation(perm, fas.len() as int)
    &&& scores.len() == fas.len()
    &&& forall|q: int| 0 <= q < scores.len() ==> (#[trigger] scores[q]).view() == crate::ranking::file_score(fas[perm[q]], graph, hs)
    &&& forall|q: int, w: int|
        0 <= q < w < scores.len() && (#[trigger] scores[q]).score == (#[trigger] scores[w]).score && scores[q].path@
            == scores[w].path@ ==> perm[q] < perm[w]
    &&& scores_ordered(scores)
}

/// No two files have the same path.
pub open spec fn paths_distinct(fas: Seq<FileAnalysis>) -> bool {
    forall|i: int, j: int| 0 <= i < j < fas.len() ==> (#[trigger] fas[i]).path@ != (#[trigger] fas[j]).path@
}

/// The full analysis of the parsed files of a project: symbols, metrics
/// and hotspots per file, the dependency graph, the files ordered by
/// importance, the overview, the warnings of discovery and parsing, and
/// the summary. `package` is the text of the root's package.json, when it
/// could be read; `is_file`, `read_config` and `in_root` answer for the
/// file system.
pub fn analyze_project<P: Fn(&String) -> bool, R: Fn(&String) -> Option<PathAliases>, E: Fn(&String) -> bool>(
    root: &str,
    walk: WalkResult,
    parsed: ParseResult,
    package: Option<&str>,
    is_file: &P,
    read_config: &R,
    in_root: &E,
) -> (r: AnalysisResult)
    requires
        forall|i: int| 0 <= i < parsed.files@.len() ==> (#[trigger] parsed.files@[i]).wf(),
        forall|s: String| is_file.requires((&s,)),
        forall|s: String| read_config.requires((&s,)),
        forall|s: String| in_root.requires((&s,)),
    ensures
        r.version@ == VERSION@,
        r.files@.len() == parsed.files@.len(),
        exists|fas: Seq<FileAnalysis>, scores: Seq<FileScore>, perm: Seq<int>|
            #[trigger] ranked_scores(scores, fas, r.graph, r.hotspots@, perm) && fas.len() == parsed.files@.len() && (forall|i: int|
                0 <= i < fas.len() ==> describes(#[trigger] fas[i], parsed.files@[i])) && (forall|q: int|
                0 <= q < r.files@.len() ==> file_model(#[trigger] r.files@[q]) == file_model(
                    fas[first_with_path(fas, scores[q].path@)],
                )) && (paths_distinct(fas) ==> forall|q: int|
                0 <= q < r.files@.len() ==> file_model(#[trigger] r.files@[q]) == file_model(fas[perm[q]]))
                && r.summary.total_files == fas.len() && r.summary.total_symbols == sat_usize(
                total_symbols(fas),
            ) && r.summary.total_lines_of_code == sat_usize(total_code_lines(fas))
                && r.summary.avg_complexity_hundredths == hundredths(total_complexity(fas), fas.len() as int)
                && r.hotspots@.map_values(|h: Hotspot| h.model()) == all_hotspots(fas, fas.len() as int)
                && crate::overview::stats_view(r.project.languages@) == crate::overview::language_stats(
                walk.files@,
                fas,
                5,
            ),
        crate::deps::graph_built(r.graph, parsed.files@, root@, *is_file, *read_config),
        warnings_view(r.warnings@) == warnings_view(walk.warnings@) + warnings_view(parsed.warnings@),
        r.project.name@ == project_name(
            root@,
            match package {
                Some(t) => crate::resolve::json_value(t@),
                None => None,
            },
        ),
        crate::resolve::strings_view(r.project.entry_points@) == crate::resolve::strings_view(r.graph.entry_points@),
        r.project.root@ == crate::resolve::to_slash(root@),
        crate::overview::config_files_of(r.project.config_files@, *in_root),
        crate::overview::directory_tree_of(r.project.directory_tree@, walk.files@),
{
    let aliases = load_tsconfig_aliases(root, read_config);
    let graph = build_dependency_graph(&parsed.files, root, &aliases, is_file, read_config);
    let thresholds = HotspotThresholds::default();
    assert(thresholds == default_thresholds());
    let mut files: Vec<FileAnalysis> = Vec::new();
    let mut hotspots: Vec<Hotspot> = Vec::new();
    let mut i: usize = 0;
    while i < parsed.files.len()
        invariant
            i <= parsed.files@.len(),
            forall|x: int| 0 <= x < parsed.files@.len() ==> (#[trigger] parsed.files@[x]).wf(),
            files@.len() == i,
            forall|x: int| 0 <= x < i ==> describes(#[trigger] files@[x], parsed.files@[x]),
            thresholds == default_thresholds(),
            hotspots@.map_values(|h: Hotspot| h.model()) == all_hotspots(files@, i as int),
        decreases parsed.files@.len() - i,
    {
        let pf = &parsed.files[i];
        let file_symbols = extract_symbols(pf);
        let file_metrics = analyze_file(pf);
        let mut found = detect_hotspots(pf.source_file.path.as_str(), &file_metrics, &thresholds);
        let ghost found_v = found@;
        let ghost hs_before = hotspots@;
        hotspots.append(&mut found);
        let language = String::from_str(pf.source_file.language.as_str());
        let fa = FileAnalysis {
            path: pf.source_file.path.clone(),
            language,
            symbols: file_symbols.symbols,
            imports: file_symbols.imports,
            exports: file_symbols.exports,
            metrics: file_metrics,
        };
        proof {
            assert(FileSymbols { symbols: fa.symbols, imports: fa.imports, exports: fa.exports } == file_symbols);
            assert(describes(fa, *pf));
        }
        let ghost files_before = files@;
        files.push(fa);
        proof {
            assert forall|x: int| 0 <= x < i + 1 implies describes(#[trigger] files@[x], parsed.files@[x]) by {
                if x < i {
                    assert(files@[x] == files_before[x]);
                }
            }
            assert(files@.take(i as int) =~= files_before);
            assert forall|n: int| 0 <= n <= i implies all_hotspots(files@, n) == all_hotspots(files_before, n) by {
                lemma_all_hotspots_prefix(files@, files_before, n);
            }
            assert(found_v.map_values(|h: Hotspot| h.model()) =~= crate::metrics::hotspots_upto(
                fa.path@,
                fa.metrics.functions@,
                default_thresholds(),
                fa.metrics.functions@.len() as int,
            ));
            assert(hotspots@.map_values(|h: Hotspot| h.model()) =~= hs_before.map_values(|h: Hotspot| h.model())
                + found_v.map_values(|h: Hotspot| h.model()));
        }
        i = i + 1;
    }
    let ranked = score_files(&files, &graph, &hotspots);
    let ghost perm = choose|perm: Seq<int>|
        crate::order::is_permutation(perm, files@.len() as int) && (forall|q: int|
            0 <= q < ranked@.len() ==> (#[trigger] ranked@[q]).view() == crate::ranking::file_score(
                files@[perm[q]],
                graph,
                hotspots@,
            )) && forall|q: int, w: int|
            0 <= q < w < ranked@.len() && (#[trigger] ranked@[q]).score == (#[trigger] ranked@[w]).score
                && ranked@[q].path@ == ranked@[w].path@ ==> perm[q] < perm[w];
    proof {
        assert(ranked_scores(ranked@, files@, graph, hotspots@, perm));
        assert forall|q: int| 0 <= q < ranked@.len() implies has_path(files@, (#[trigger] ranked@[q]).path@) by {
            assert(ranked@[q].view() == crate::ranking::file_score(files@[perm[q]], graph, hotspots@));
            assert(files@[perm[q]].path@ == ranked@[q].path@);
            assert(0 <= perm[q] < files@.len());
        }
    }
    let ranked_files = order_by_scores(&files, &ranked);
    proof {
        if paths_distinct(files@) {
            lemma_distinct_order(files@, ranked@, ranked_files@, graph, hotspots@, perm);
        }
    }
    let project = build_overview(root, &walk.files, &files, &graph.entry_points, package, in_root);
    let mut warnings = walk.warnings;
    let mut parse_warnings = parsed.warnings;
    let ghost w1 = warnings@;
    let ghost w2 = parse_warnings@;
    warnings.append(&mut parse_warnings);
    assert(warnings_view(warnings@) =~= warnings_view(w1) + warnings_view(w2));
    let summary = build_summary(&files);
    let r = AnalysisResult {
        version: String::from_str(VERSION),
        project,
        files: ranked_files,
        graph,
        hotspots,
        warnings,
        summary,
    };
    assert(ranked_scores(ranked@, files@, r.graph, r.hotspots@, perm));
    r
}

proof fn lemma_distinct_order(
    files: Seq<FileAnalysis>,
    ranked: Seq<FileScore>,
    ordered: Seq<FileAnalysis>,
    graph: crate::output::DependencyGraph,
    hs: Seq<Hotspot>,
    perm: Seq<int>,
)
    requires
        ranked_scores(ranked, files, graph, hs, perm),
        paths_distinct(files),
        ordered.len() == ranked.len(),
        forall|q: int| 0 <= q < ordered.len() ==> file_model(#[trigger] ordered[q]) == file_model(
            files[first_with_path(files, ranked[q].path@)],
        ),
    ensures
        forall|q: int| 0 <= q < ordered.len() ==> file_model(#[trigger] ordered[q]) == file_model(files[perm[q]]),
{
    assert forall|q: int| 0 <= q < ordered.len() implies file_model(#[trigger] ordered[q]) == file_model(
        files[perm[q]],
    ) by {
        let p = ranked[q].path@;
        assert(ranked[q].view() == crate::ranking::file_score(files[perm[q]], graph, hs));
        assert(files[perm[q]].path@ == p);
        let f = first_with_path(files, p);
        assert(0 <= f < files.len() && files[f].path@ == p && forall|j: int| 0 <= j < f ==> files[j].path@ != p) by {
            assert(0 <= perm[q] < files.len());
        }
        if f < perm[q] {
            assert(files[f].path@ != files[perm[q]].path@);
        } else if f > perm[q] {
            assert(files[perm[q]].path@ != files[f].path@);
        }
    }
}

proof fn lemma_all_hotspots_prefix(a: Seq<FileAnalysis>, b: Seq<FileAnalysis>, n: int)
    requires
        0 <= n <= b.len(),
        n <= a.len(),
        forall|x: int| 0 <= x < n ==> a[x] == b[x],
    ensures
        all_hotspots(a, n) == all_hotspots(b, n),
    decreases n,
{
    if n > 0 {
        lemma_all_hotspots_prefix(a, b, n - 1);
    }
}

/// `r` finishes `analysis` under `budget`: without a budget the result is
/// the analysis; with one, its files are those the budget keeps, and
/// everything else is the analysis's own. The text is the rendering of the
/// result.
pub open spec fn finished(r: AnalyzeOutput, analysis: AnalysisResult, budget: Option<(usize, usize, Vec<(usize, usize)>)>) -> bool {
    &&& budget is None ==> r.result == analysis
    &&& budget matches Some(b) ==> budget_applied(r.result.files@, analysis.files@, b.0 as int, b.1 as int, b.2@)
    &&& r.result.version == analysis.version
    &&& r.result.project == analysis.project
    &&& r.result.graph == analysis.graph
    &&& r.result.hotspots == analysis.hotspots
    &&& r.result.warnings == analysis.warnings
    &&& r.result.summary == analysis.summary
    &&& r.pretty@ == pretty_text(r.result)
}

/// Finishes an analysis: limits it to the budget, when there is one, and
/// renders it. A budget is given as its tokens, the size of the result
/// without files and the sizes of each file in full and summarized.
pub fn finish_analysis(analysis: AnalysisResult, budget: Option<(usize, usize, Vec<(usize, usize)>)>) -> (r: AnalyzeOutput)
    requires
        budget matches Some(b) ==> b.2@.len() == analysis.files@.len(),
    ensures
        finished(r, analysis, budget),
{
    let mut result = analysis;
    match budget {
        Some(b) => {
            apply_budget(&mut result, b.0, b.1, &b.2);
        },
        None => {},
    }
    let pretty = format_pretty(&result);
    AnalyzeOutput { result, pretty }
}

/// A run with a budget gives what the run without one gives with its files
/// trimmed by the budget: version, project, graph, hotspots, warnings and
/// summary (which still counts every analyzed file) are the same.
pub proof fn law_budget_only_trims(
    analysis: AnalysisResult,
    unbudgeted: AnalyzeOutput,
    budgeted: AnalyzeOutput,
    b: (usize, usize, Vec<(usize, usize)>),
)
    requires
        finished(unbudgeted, analysis, None),
        finished(budgeted, analysis, Some(b)),
    ensures
        budgeted.result.version == unbudgeted.result.version,
        budgeted.result.project == unbudgeted.result.project,
        budgeted.result.graph == unbudgeted.result.graph,
        budgeted.result.hotspots == unbudgeted.result.hotspots,
        budgeted.result.warnings == unbudgeted.result.warnings,
        budgeted.result.summary == unbudgeted.result.summary,
        budget_applied(budgeted.result.files@, unbudgeted.result.files@, b.0 as int, b.1 as int, b.2@),
        budgeted.pretty@ == pretty_text(budgeted.result),
{
}

} // verus!
