//! File-level metrics and hotspot detection.
use vstd::prelude::*;
use vstd::string::StringSliceAdditionalSpecFns;
use vstd::utf8::encode_utf8;

use crate::complexity::{
    count_lines, extract_function_metrics, loc_matches, metric_nodes, metrics_of, metrics_of_at, sat32,
    sat_usize,
};
use crate::syntax::SyntaxTree;
use crate::config;
use crate::output::{FileMetrics, FunctionMetrics, Hotspot};
use crate::parse::{ParsedFile, ScriptBlock};

verus! {

/// Configurable thresholds for hotspot detection.
pub struct HotspotThresholds {
    pub complexity: u32,
    pub nesting: u32,
    pub loc: u32,
    pub params: u32,
}

impl Clone for HotspotThresholds {
    fn clone(&self) -> (r: HotspotThresholds)
        ensures
            r == *self,
    {
        HotspotThresholds {
            complexity: self.complexity,
            nesting: self.nesting,
            loc: self.loc,
            params: self.params,
        }
    }
}

impl Default for HotspotThresholds {
    fn default() -> (t: HotspotThresholds)
        ensures
            t.complexity == config::DEFAULT_COMPLEXITY_THRESHOLD,
            t.nesting == config::DEFAULT_NESTING_THRESHOLD,
            t.loc == config::DEFAULT_LOC_THRESHOLD,
            t.params == config::DEFAULT_PARAMS_THRESHOLD,
    {
        HotspotThresholds {
            complexity: config::DEFAULT_COMPLEXITY_THRESHOLD,
            nesting: config::DEFAULT_NESTING_THRESHOLD,
            loc: config::DEFAULT_LOC_THRESHOLD,
            params: config::DEFAULT_PARAMS_THRESHOLD,
        }
    }
}

/// A hotspot as plain values: path, function, metric, value, threshold.
pub type HotspotModel = (Seq<char>, Seq<char>, Seq<char>, int, int);

impl Hotspot {
    pub open spec fn model(&self) -> HotspotModel {
        (self.path@, self.function@, self.metric@, self.value as int, self.threshold as int)
    }
}

/// The hotspots of one function, in the order complexity, nesting, lines
/// of code, parameters.
pub open spec fn function_hotspots(
    path: Seq<char>,
    f: FunctionMetrics,
    th: HotspotThresholds,
) -> Seq<HotspotModel> {
    let loc = f.lines_of_code as u32;
    (if f.cyclomatic_complexity > th.complexity {
        seq![
            (
                path,
                f.name@,
                "cyclomatic_complexity"@,
                f.cyclomatic_complexity as int,
                th.complexity as int,
            ),
        ]
    } else {
        seq![]
    }) + (if f.max_nesting_depth > th.nesting {
        seq![
            (path, f.name@, "max_nesting_depth"@, f.max_nesting_depth as int, th.nesting as int),
        ]
    } else {
        seq![]
    }) + (if loc > th.loc {
        seq![(path, f.name@, "lines_of_code"@, loc as int, th.loc as int)]
    } else {
        seq![]
    }) + (if f.parameter_count > th.params {
        seq![(path, f.name@, "parameter_count"@, f.parameter_count as int, th.params as int)]
    } else {
        seq![]
    })
}

/// The hotspots of the first `n` functions.
pub open spec fn hotspots_upto(
    path: Seq<char>,
    fns: Seq<FunctionMetrics>,
    th: HotspotThresholds,
    n: int,
) -> Seq<HotspotModel>
    decreases n,
{
    if n <= 0 {
        seq![]
    } else {
        hotspots_upto(path, fns, th, n - 1) + function_hotspots(path, fns[n - 1], th)
    }
}

/// Every reported hotspot exceeds its threshold.
pub proof fn lemma_hotspots_exceed(
    path: Seq<char>,
    fns: Seq<FunctionMetrics>,
    th: HotspotThresholds,
    n: int,
)
    ensures
        forall|k: int|
            0 <= k < hotspots_upto(path, fns, th, n).len() ==> (#[trigger] hotspots_upto(
                path,
                fns,
                th,
                n,
            )[k]).3 > hotspots_upto(path, fns, th, n)[k].4,
    decreases n,
{
    if n > 0 {
        lemma_hotspots_exceed(path, fns, th, n - 1);
        let a = hotspots_upto(path, fns, th, n - 1);
        let b = function_hotspots(path, fns[n - 1], th);
        assert forall|k: int| 0 <= k < (a + b).len() implies (#[trigger] (a + b)[k]).3 > (a
            + b)[k].4 by {
            if k >= a.len() {
                assert((a + b)[k] == b[k - a.len()]);
            }
        }
    }
}

fn push_hotspot(
    out: &mut Vec<Hotspot>,
    path: &str,
    name: &String,
    metric: &str,
    value: u32,
    threshold: u32,
)
    ensures
        final(out)@.len() == old(out)@.len() + 1,
        forall|k: int| 0 <= k < old(out)@.len() ==> final(out)@[k] == old(out)@[k],
        final(out)@[old(out)@.len() as int].model() == (
            path@,
            name@,
            metric@,
            value as int,
            threshold as int,
        ),
{
    out.push(
        Hotspot {
            path: String::from_str(path),
            function: name.clone(),
            metric: String::from_str(metric),
            value,
            threshold,
        },
    );
}

/// Identify functions that exceed hotspot thresholds (strictly above).
pub fn detect_hotspots(path: &str, metrics: &FileMetrics, thresholds: &HotspotThresholds) -> (r: Vec<
    Hotspot,
>)
    ensures
        r@.len() == hotspots_upto(
            path@,
            metrics.functions@,
            *thresholds,
            metrics.functions@.len() as int,
        ).len(),
        forall|k: int|
            0 <= k < r@.len() ==> (#[trigger] r@[k]).model() == hotspots_upto(
                path@,
                metrics.functions@,
                *thresholds,
                metrics.functions@.len() as int,
            )[k],
        forall|k: int| 0 <= k < r@.len() ==> (#[trigger] r@[k]).value > r@[k].threshold,
{
    let mut hotspots: Vec<Hotspot> = Vec::new();
    let ghost fns = metrics.functions@;
    let ghost th = *thresholds;
    let mut i: usize = 0;
    while i < metrics.functions.len()
        invariant
            fns == metrics.functions@,
            th == *thresholds,
            i <= fns.len(),
            hotspots@.len() == hotspots_upto(path@, fns, th, i as int).len(),
            forall|k: int|
                0 <= k < hotspots@.len() ==> (#[trigger] hotspots@[k]).model() == hotspots_upto(
                    path@,
                    fns,
                    th,
                    i as int,
                )[k],
        decreases fns.len() - i,
    {
        let func = &metrics.functions[i];
        let ghost before = hotspots@;
        let ghost expected = hotspots_upto(path@, fns, th, i as int);
        let ghost mut added: Seq<HotspotModel> = seq![];
        if func.cyclomatic_complexity > thresholds.complexity {
            push_hotspot(
                &mut hotspots,
                path,
                &func.name,
                "cyclomatic_complexity",
                func.cyclomatic_complexity,
                thresholds.complexity,
            );
            proof {
                added = added.push(
                    (
                        path@,
                        func.name@,
                        "cyclomatic_complexity"@,
                        func.cyclomatic_complexity as int,
                        thresholds.complexity as int,
                    ),
                );
            }
        }
        if func.max_nesting_depth > thresholds.nesting {
            push_hotspot(
                &mut hotspots,
                path,
                &func.name,
                "max_nesting_depth",
                func.max_nesting_depth,
                thresholds.nesting,
            );
            proof {
                added = added.push(
                    (
                        path@,
                        func.name@,
                        "max_nesting_depth"@,
                        func.max_nesting_depth as int,
                        thresholds.nesting as int,
                    ),
                );
            }
        }
        let loc = func.lines_of_code as u32;
        if loc > thresholds.loc {
            push_hotspot(&mut hotspots, path, &func.name, "lines_of_code", loc, thresholds.loc);
            proof {
                added = added.push(
                    (path@, func.name@, "lines_of_code"@, loc as int, thresholds.loc as int),
                );
            }
        }
        if func.parameter_count > thresholds.params {
            push_hotspot(
                &mut hotspots,
                path,
                &func.name,
                "parameter_count",
                func.parameter_count,
                thresholds.params,
            );
            proof {
                added = added.push(
                    (
                        path@,
                        func.name@,
                        "parameter_count"@,
                        func.parameter_count as int,
                        thresholds.params as int,
                    ),
                );
            }
        }
        proof {
            assert(added =~= function_hotspots(path@, fns[i as int], th));
            assert(hotspots_upto(path@, fns, th, i + 1) == expected + added);
            assert forall|k: int| 0 <= k < hotspots@.len() implies (#[trigger] hotspots@[k]).model()
                == (expected + added)[k] by {
                if k < before.len() {
                    assert(hotspots@[k] == before[k]);
                }
            }
        }
        i = i + 1;
    }
    proof {
        lemma_hotspots_exceed(path@, fns, th, fns.len() as int);
        assert forall|k: int| 0 <= k < hotspots@.len() implies (#[trigger] hotspots@[k]).value
            > hotspots@[k].threshold by {
            assert(hotspots@[k].model() == hotspots_upto(path@, fns, th, fns.len() as int)[k]);
        }
    }
    hotspots
}

/// `(block, node)` pairs of the named functions of script block `b`.
pub open spec fn block_seq(p: &ParsedFile, b: int) -> Seq<(int, int)> {
    let blk = p.script_blocks@[b];
    metric_nodes(&blk.tree, encode_utf8(blk.source@), 0).map_values(|n: int| (b, n))
}

/// `(block, node)` pairs of the named functions of the first `n` script
/// blocks, in order.
pub open spec fn block_nodes(p: &ParsedFile, n: int) -> Seq<(int, int)>
    decreases n,
{
    if n <= 0 {
        seq![]
    } else {
        block_nodes(p, n - 1) + block_seq(p, n - 1)
    }
}

/// `fns` are the function metrics of the file: from its own tree, or for a
/// file with script blocks, from the blocks with lines moved to their place
/// in the file.
pub open spec fn file_functions_ok(p: &ParsedFile, fns: Seq<FunctionMetrics>) -> bool {
    if p.script_blocks@.len() == 0 {
        let nodes = metric_nodes(&p.tree, encode_utf8(p.source@), 0);
        &&& fns.len() == nodes.len()
        &&& forall|k: int|
            0 <= k < fns.len() ==> metrics_of_at(
                &p.tree,
                encode_utf8(p.source@),
                nodes[k],
                #[trigger] fns[k],
                0,
            )
    } else {
        let nodes = block_nodes(p, p.script_blocks@.len() as int);
        &&& fns.len() == nodes.len()
        &&& forall|k: int|
            0 <= k < fns.len() ==> placed(p, nodes[k], #[trigger] fns[k])
    }
}

/// Sum of the complexities of the first `n` functions.
pub open spec fn complexity_sum(fns: Seq<FunctionMetrics>, n: int) -> int
    decreases n,
{
    if n <= 0 {
        0
    } else {
        complexity_sum(fns, n - 1) + fns[n - 1].cyclomatic_complexity
    }
}

/// Largest nesting depth among the first `n` functions (0 for none).
pub open spec fn nesting_max(fns: Seq<FunctionMetrics>, n: int) -> int
    decreases n,
{
    if n <= 0 {
        0
    } else {
        let m = nesting_max(fns, n - 1);
        if fns[n - 1].max_nesting_depth > m {
            fns[n - 1].max_nesting_depth as int
        } else {
            m
        }
    }
}

/// File complexity: the functions' complexities summed (saturating), and
/// at least 1 when there is a function.
pub open spec fn file_complexity(fns: Seq<FunctionMetrics>) -> int {
    if fns.len() == 0 {
        0
    } else {
        let s = sat32(complexity_sum(fns, fns.len() as int));
        if s < 1 {
            1
        } else {
            s
        }
    }
}

/// The metrics `m` belong to function node `j` of script block `blk`, with
/// lines counted from the top of the file.
#[verifier::opaque]
pub open spec fn block_fn(blk: ScriptBlock, j: int, m: FunctionMetrics) -> bool {
    metrics_of_at(&blk.tree, encode_utf8(blk.source@), j, m, blk.start_line as int)
}

/// The metrics `m` belong to function node `bn.1` of script block `bn.0`.
pub open spec fn placed(p: &ParsedFile, bn: (int, int), m: FunctionMetrics) -> bool {
    &&& 0 <= bn.0 < p.script_blocks@.len()
    &&& block_fn(p.script_blocks@[bn.0], bn.1, m)
}

/// `g` is `f` with its line numbers moved down by `offset` (saturating).
pub open spec fn shifted(f: FunctionMetrics, g: FunctionMetrics, offset: int) -> bool {
    &&& g.name@ == f.name@
    &&& g.line == sat_usize(f.line + offset)
    &&& g.end_line == sat_usize(f.end_line + offset)
    &&& g.lines_of_code == f.lines_of_code
    &&& g.cyclomatic_complexity == f.cyclomatic_complexity
    &&& g.max_nesting_depth == f.max_nesting_depth
    &&& g.parameter_count == f.parameter_count
}

proof fn lemma_shift_metrics(
    t: &SyntaxTree,
    src: Seq<u8>,
    j: int,
    f: FunctionMetrics,
    g: FunctionMetrics,
    offset: int,
)
    requires
        offset >= 0,
        metrics_of(t, src, j, f),
        shifted(f, g, offset),
    ensures
        metrics_of_at(t, src, j, g, offset),
{
}

/// Appends `fns` to `all`, each moved down by `offset` lines.
fn append_shifted(all: &mut Vec<FunctionMetrics>, fns: Vec<FunctionMetrics>, offset: usize)
    ensures
        final(all)@.len() == old(all)@.len() + fns@.len(),
        forall|x: int| 0 <= x < old(all)@.len() ==> final(all)@[x] == old(all)@[x],
        forall|x: int|
            0 <= x < fns@.len() ==> shifted(
                fns@[x],
                #[trigger] final(all)@[old(all)@.len() + x],
                offset as int,
            ),
{
    let ghost before = all@;
    let ghost src = fns@;
    let n = fns.len();
    let mut k: usize = 0;
    for f in it: fns.into_iter()
        invariant
            it.seq() == src,
            src.len() == n,
            k == it.index(),
            k <= n,
            all@.len() == before.len() + k,
            forall|x: int| 0 <= x < before.len() ==> all@[x] == before[x],
            forall|x: int|
                0 <= x < k ==> shifted(src[x], #[trigger] all@[before.len() + x], offset as int),
    {
        let mut g = f;
        g.line = g.line.saturating_add(offset);
        g.end_line = g.end_line.saturating_add(offset);
        all.push(g);
        k = k + 1;
    }
}

/// Function metrics of every script block, in block order, each placed at
/// its lines in the file.
fn script_block_metrics(parsed: &ParsedFile) -> (all: Vec<FunctionMetrics>)
    requires
        parsed.wf(),
    ensures
        all@.len() == block_nodes(parsed, parsed.script_blocks@.len() as int).len(),
        forall|k: int|
            0 <= k < all@.len() ==> placed(
                parsed,
                block_nodes(parsed, parsed.script_blocks@.len() as int)[k],
                #[trigger] all@[k],
            ),
{
    let mut all: Vec<FunctionMetrics> = Vec::new();
    let mut b: usize = 0;
    while b < parsed.script_blocks.len()
        invariant
            parsed.wf(),
            b <= parsed.script_blocks@.len(),
            all@.len() == block_nodes(parsed, b as int).len(),
            forall|k: int|
                0 <= k < all@.len() ==> placed(parsed, block_nodes(parsed, b as int)[k], #[trigger] all@[k]),
        decreases parsed.script_blocks@.len() - b,
    {
        let block = &parsed.script_blocks[b];
        let ghost done = block_nodes(parsed, b as int);
        let ghost before = all@;
        let ghost nodes = metric_nodes(&block.tree, encode_utf8(block.source@), 0);
        append_block_metrics(&mut all, block);
        proof {
            let nd = block_nodes(parsed, b + 1);
            assert(nd == done + block_seq(parsed, b as int));
            assert forall|x: int| 0 <= x < all@.len() implies placed(
                parsed,
                nd[x],
                #[trigger] all@[x],
            ) by {
                if x >= before.len() {
                    let y = x - before.len();
                    assert(nd[x] == (b as int, nodes[y]));
                    assert(block_fn(*block, nodes[y], all@[before.len() + y]));
                } else {
                    assert(all@[x] == before[x]);
                    assert(nd[x] == done[x]);
                }
            }
        }
        b = b + 1;
    }
    all
}

/// Appends the function metrics of `block`, placed at their lines in the file.
fn append_block_metrics(all: &mut Vec<FunctionMetrics>, block: &ScriptBlock)
    requires
        block.tree.wf(),
    ensures
        final(all)@.len() == old(all)@.len() + metric_nodes(
            &block.tree,
            encode_utf8(block.source@),
            0,
        ).len(),
        forall|x: int| 0 <= x < old(all)@.len() ==> final(all)@[x] == old(all)@[x],
        forall|y: int|
            0 <= y < metric_nodes(&block.tree, encode_utf8(block.source@), 0).len() ==> block_fn(
                *block,
                metric_nodes(&block.tree, encode_utf8(block.source@), 0)[y],
                #[trigger] final(all)@[old(all)@.len() + y],
            ),
{
    let block_fns = extract_function_metrics(&block.tree, block.source.as_str());
    let ghost nodes = metric_nodes(&block.tree, encode_utf8(block.source@), 0);
    let ghost before = all@;
    let ghost bf = block_fns@;
    append_shifted(all, block_fns, block.start_line);
    proof {
        reveal(block_fn);
        assert forall|y: int| 0 <= y < nodes.len() implies block_fn(
            *block,
            nodes[y],
            #[trigger] all@[before.len() + y],
        ) by {
            lemma_shift_metrics(
                &block.tree,
                encode_utf8(block.source@),
                nodes[y],
                bf[y],
                all@[before.len() + y],
                block.start_line as int,
            );
        }
    }
}

/// `m` are the metrics of the parsed file: its line counts, and, unless
/// it only declares, its functions with their metrics, the file's
/// complexity as the sum over them and its nesting as their maximum.
pub open spec fn file_metrics_ok(parsed: &ParsedFile, m: FileMetrics) -> bool {
    &&& loc_matches(
        parsed.source@,
        &parsed.tree,
        crate::complexity::LocCounts {
            total_lines: m.total_lines,
            code_lines: m.code_lines,
            comment_lines: m.comment_lines,
            blank_lines: m.blank_lines,
        },
    )
    &&& m.total_lines == m.code_lines + m.comment_lines + m.blank_lines
    &&& parsed.source_file.declaration_only ==> m.cyclomatic_complexity == 0 && m.max_nesting_depth == 0
        && m.functions@.len() == 0
    &&& !parsed.source_file.declaration_only ==> {
        &&& file_functions_ok(parsed, m.functions@)
        &&& m.cyclomatic_complexity == file_complexity(m.functions@)
        &&& m.max_nesting_depth == nesting_max(m.functions@, m.functions@.len() as int)
    }
}

/// Compute full file-level metrics from a parsed file.
///
/// Declaration-only files (`.d.ts`) skip complexity metrics.
pub fn analyze_file(parsed: &ParsedFile) -> (m: FileMetrics)
    requires
        parsed.wf(),
    ensures
        file_metrics_ok(parsed, m),
{
    let loc = count_lines(parsed.source.as_str(), &parsed.tree);
    if parsed.source_file.declaration_only {
        return FileMetrics {
            total_lines: loc.total_lines,
            code_lines: loc.code_lines,
            comment_lines: loc.comment_lines,
            blank_lines: loc.blank_lines,
            cyclomatic_complexity: 0,
            max_nesting_depth: 0,
            functions: Vec::new(),
        };
    }
    let functions = if parsed.script_blocks.len() == 0 {
        extract_function_metrics(&parsed.tree, parsed.source.as_str())
    } else {
        script_block_metrics(parsed)
    };
    let ghost fns = functions@;
    let mut total: u32 = 0;
    let mut deepest: u32 = 0;
    let mut i: usize = 0;
    while i < functions.len()
        invariant
            fns == functions@,
            i <= fns.len(),
            total == sat32(complexity_sum(fns, i as int)),
            deepest == nesting_max(fns, i as int),
        decreases fns.len() - i,
    {
        total = total.saturating_add(functions[i].cyclomatic_complexity);
        if functions[i].max_nesting_depth > deepest {
            deepest = functions[i].max_nesting_depth;
        }
        i = i + 1;
    }
    let complexity = if functions.len() == 0 {
        0
    } else if total < 1 {
        1
    } else {
        total
    };
    FileMetrics {
        total_lines: loc.total_lines,
        code_lines: loc.code_lines,
        comment_lines: loc.comment_lines,
        blank_lines: loc.blank_lines,
        cyclomatic_complexity: complexity,
        max_nesting_depth: deepest,
        functions,
    }
}

} // verus!
