//! Complexity metrics over syntax trees: cyclomatic complexity, nesting
//! depth, parameter counts and line counts.
use vstd::prelude::*;

use crate::output::FunctionMetrics;
use crate::syntax::SyntaxTree;
use vstd::string::StringSliceAdditionalSpecFns;
use crate::text::{all_ws, chars_of, is_ws, lemma_first_index, lines_of, str_eq, strip_cr};

verus! {

broadcast use vstd::string::group_string_axioms;

/// Line count breakdown for a source file or function.
#[derive(PartialEq, Eq, Structural, Debug)]
pub struct LocCounts {
    pub total_lines: usize,
    pub code_lines: usize,
    pub comment_lines: usize,
    pub blank_lines: usize,
}

impl Default for LocCounts {
    fn default() -> (c: LocCounts)
        ensures
            c.total_lines == 0,
            c.code_lines == 0,
            c.comment_lines == 0,
            c.blank_lines == 0,
    {
        LocCounts { total_lines: 0, code_lines: 0, comment_lines: 0, blank_lines: 0 }
    }
}

/// `x` saturated to the range of `u32`.
pub open spec fn sat32(x: int) -> int {
    if x > u32::MAX as int {
        u32::MAX as int
    } else {
        x
    }
}

/// `x` saturated to the range of `usize`.
pub open spec fn sat_usize(x: int) -> int {
    if x > usize::MAX as int {
        usize::MAX as int
    } else {
        x
    }
}

/// Node kinds that are decision points (`switch_default` is not one).
pub open spec fn is_branch_kind(k: Seq<char>) -> bool {
    k == "if_statement"@ || k == "for_statement"@ || k == "for_in_statement"@ || k
        == "while_statement"@ || k == "do_statement"@ || k == "catch_clause"@ || k
        == "ternary_expression"@ || k == "switch_case"@
}

/// Node kinds of function-like constructs.
pub open spec fn is_function_kind(k: Seq<char>) -> bool {
    k == "function_declaration"@ || k == "generator_function_declaration"@ || k
        == "method_definition"@ || k == "arrow_function"@ || k == "function_expression"@ || k
        == "generator_function"@
}

/// Node kinds that increase nesting depth.
pub open spec fn is_nesting_kind(k: Seq<char>) -> bool {
    k == "if_statement"@ || k == "for_statement"@ || k == "for_in_statement"@ || k
        == "while_statement"@ || k == "do_statement"@ || k == "switch_statement"@ || k
        == "try_statement"@ || k == "catch_clause"@
}

/// Logical operators that add a branch: `&&`, `||`, `??`.
pub open spec fn is_logical_operator(op: Seq<char>) -> bool {
    op == "&&"@ || op == "||"@ || op == "??"@
}

/// Text of node `i`, or the empty text when it is not valid UTF-8.
pub open spec fn text_or_empty(t: &SyntaxTree, src: Seq<u8>, i: int) -> Seq<char> {
    match t.text(src, i) {
        Some(s) => s,
        None => seq![],
    }
}

/// Decision points contributed by node `i` itself.
pub open spec fn own_branches(t: &SyntaxTree, src: Seq<u8>, i: int) -> nat {
    (if is_branch_kind(t.kind(i)) {
        1nat
    } else {
        0nat
    }) + (if t.kind(i) == "binary_expression"@ && match t.field_child(i, "operator"@) {
        Some(o) => is_logical_operator(text_or_empty(t, src, o)),
        None => false,
    } {
        1nat
    } else {
        0nat
    }) + (if (t.kind(i) == "member_expression"@ || t.kind(i) == "call_expression"@)
        && t.field_child(i, "optional_chain"@) is Some {
        1nat
    } else {
        0nat
    })
}

/// Decision points in the subtree of `i`, not entering nested functions.
pub open spec fn branches(t: &SyntaxTree, src: Seq<u8>, i: int) -> nat
    decreases t.fin(i) - i, 0int,
{
    if 0 <= i < t.fin(i) {
        own_branches(t, src, i) + branches_from(t, src, i, i + 1)
    } else {
        own_branches(t, src, i)
    }
}

/// Decision points in the children of `i` from position `c` on.
pub open spec fn branches_from(t: &SyntaxTree, src: Seq<u8>, i: int, c: int) -> nat
    decreases t.fin(i) - c, 1int,
{
    if 0 <= c < t.fin(i) && c < t.fin(c) <= t.fin(i) {
        (if is_function_kind(t.kind(c)) {
            0nat
        } else {
            branches(t, src, c)
        }) + branches_from(t, src, i, t.fin(c))
    } else {
        0nat
    }
}

/// Depth after entering child `c` at depth `d`.
pub open spec fn nest_step(t: &SyntaxTree, c: int, d: int) -> int {
    if is_nesting_kind(t.kind(c)) {
        sat32(d + 1)
    } else {
        d
    }
}

/// Deepest nesting reached in the subtree of `i` entered at depth `d`,
/// not entering nested functions.
pub open spec fn nest_walk(t: &SyntaxTree, i: int, d: int) -> int
    decreases t.fin(i) - i, 0int,
{
    if 0 <= i < t.fin(i) {
        let k = nest_from(t, i, i + 1, d);
        if k > d {
            k
        } else {
            d
        }
    } else {
        d
    }
}

/// Deepest nesting reached in the children of `i` from position `c` on.
pub open spec fn nest_from(t: &SyntaxTree, i: int, c: int, d: int) -> int
    decreases t.fin(i) - c, 1int,
{
    if 0 <= c < t.fin(i) && c < t.fin(c) <= t.fin(i) {
        let here = if is_function_kind(t.kind(c)) {
            0
        } else {
            nest_walk(t, c, nest_step(t, c, d))
        };
        let rest = nest_from(t, i, t.fin(c), d);
        if here > rest {
            here
        } else {
            rest
        }
    } else {
        0
    }
}

/// Nesting depths are never negative.
pub proof fn lemma_nest_nonneg(t: &SyntaxTree, i: int, c: int, d: int)
    requires
        d >= 0,
    ensures
        nest_from(t, i, c, d) >= 0,
    decreases t.fin(i) - c,
{
    if 0 <= c < t.fin(i) && c < t.fin(c) <= t.fin(i) {
        lemma_nest_nonneg(t, i, t.fin(c), d);
    }
}

/// Number of named children of `i` from position `c` on.
pub open spec fn named_from(t: &SyntaxTree, i: int, c: int) -> nat
    decreases t.fin(i) - c,
{
    if 0 <= c < t.fin(i) && c < t.fin(c) <= t.fin(i) {
        (if t.nodes@[c].named {
            1nat
        } else {
            0nat
        }) + named_from(t, i, t.fin(c))
    } else {
        0nat
    }
}

/// Formal parameter count of a function-like node.
pub open spec fn parameter_count(t: &SyntaxTree, i: int) -> int {
    match t.field_child(i, "parameters"@) {
        Some(p) => sat32(named_from(t, p, p + 1) as int),
        None => 0,
    }
}

/// The nearest node before `j`, scanning back from `k`, one level above `j`.
pub open spec fn parent_scan(t: &SyntaxTree, j: int, k: int) -> Option<int>
    decreases k + 1,
{
    if k < 0 {
        None
    } else if t.dep(k) == t.dep(j) - 1 {
        Some(k)
    } else {
        parent_scan(t, j, k - 1)
    }
}

/// `Node::parent`: the parent of node `j` (the root has none).
pub open spec fn parent(t: &SyntaxTree, j: int) -> Option<int> {
    if j <= 0 {
        None
    } else {
        parent_scan(t, j, j - 1)
    }
}

/// Name of a function-like node: its `name` field, or for an anonymous
/// function the variable or assignment target it is bound to.
pub open spec fn function_name(t: &SyntaxTree, src: Seq<u8>, j: int) -> Option<Seq<char>> {
    match t.field_child(j, "name"@) {
        Some(n) => t.text(src, n),
        None => if t.kind(j) == "arrow_function"@ || t.kind(j) == "function_expression"@ {
            match parent(t, j) {
                None => None,
                Some(p) => if t.kind(p) == "variable_declarator"@ && t.field_child(
                    p,
                    "name"@,
                ) is Some {
                    t.text(src, t.field_child(p, "name"@)->0)
                } else if t.kind(p) == "assignment_expression"@ && t.field_child(
                    p,
                    "left"@,
                ) is Some {
                    t.text(src, t.field_child(p, "left"@)->0)
                } else {
                    None
                },
            }
        } else {
            None
        },
    }
}

/// The metrics recorded for function node `j`, with its line numbers moved
/// down by `offset` lines.
pub open spec fn metrics_of_at(
    t: &SyntaxTree,
    src: Seq<u8>,
    j: int,
    m: FunctionMetrics,
    offset: int,
) -> bool {
    let line = sat_usize(t.nodes@[j].start_row + 1);
    let end_line = sat_usize(t.nodes@[j].end_row + 1);
    &&& function_name(t, src, j) == Some(m.name@)
    &&& m.line == sat_usize(line + offset)
    &&& m.end_line == sat_usize(end_line + offset)
    &&& m.lines_of_code == (if end_line > line {
        end_line - line
    } else {
        0
    }) + 1
    &&& m.cyclomatic_complexity == sat32(1 + branches(t, src, j) as int)
    &&& m.max_nesting_depth == nest_walk(t, j, 0)
    &&& m.parameter_count == parameter_count(t, j)
}

/// The metrics recorded for function node `j`.
pub open spec fn metrics_of(t: &SyntaxTree, src: Seq<u8>, j: int, m: FunctionMetrics) -> bool {
    metrics_of_at(t, src, j, m, 0)
}

/// Function-like nodes with a name, in preorder from position `j`.
pub open spec fn metric_nodes(t: &SyntaxTree, src: Seq<u8>, j: int) -> Seq<int>
    decreases t.size() - j,
{
    if 0 <= j < t.size() {
        (if is_function_kind(t.kind(j)) && function_name(t, src, j) is Some {
            seq![j]
        } else {
            seq![]
        }) + metric_nodes(t, src, j + 1)
    } else {
        seq![]
    }
}

pub fn is_branch_kind_exec(k: &str) -> (r: bool)
    ensures
        r == is_branch_kind(k@),
{
    str_eq(k, "if_statement") || str_eq(k, "for_statement") || str_eq(k, "for_in_statement")
        || str_eq(k, "while_statement") || str_eq(k, "do_statement") || str_eq(k, "catch_clause")
        || str_eq(k, "ternary_expression") || str_eq(k, "switch_case")
}

pub fn is_function_kind_exec(k: &str) -> (r: bool)
    ensures
        r == is_function_kind(k@),
{
    str_eq(k, "function_declaration") || str_eq(k, "generator_function_declaration") || str_eq(
        k,
        "method_definition",
    ) || str_eq(k, "arrow_function") || str_eq(k, "function_expression") || str_eq(
        k,
        "generator_function",
    )
}

pub fn is_nesting_kind_exec(k: &str) -> (r: bool)
    ensures
        r == is_nesting_kind(k@),
{
    str_eq(k, "if_statement") || str_eq(k, "for_statement") || str_eq(k, "for_in_statement")
        || str_eq(k, "while_statement") || str_eq(k, "do_statement") || str_eq(
        k,
        "switch_statement",
    ) || str_eq(k, "try_statement") || str_eq(k, "catch_clause")
}

fn own_branches_exec(t: &SyntaxTree, src: &[u8], i: usize) -> (r: u32)
    requires
        t.wf(),
        i < t.size(),
    ensures
        r == own_branches(t, src@, i as int),
{
    let k = t.nodes[i].kind.as_str();
    let mut r: u32 = 0;
    if is_branch_kind_exec(k) {
        r = r + 1;
    }
    if str_eq(k, "binary_expression") {
        match t.child_by_field(i, "operator") {
            Some(o) => {
                let txt = match t.node_text(o, src) {
                    Some(s) => s,
                    None => String::new(),
                };
                let op = txt.as_str();
                if str_eq(op, "&&") || str_eq(op, "||") || str_eq(op, "??") {
                    r = r + 1;
                }
            },
            None => {},
        }
    }
    if str_eq(k, "member_expression") || str_eq(k, "call_expression") {
        if t.child_by_field(i, "optional_chain").is_some() {
            r = r + 1;
        }
    }
    r
}

/// Decision points below node `i`, saturated to `u32`.
fn count_branches(t: &SyntaxTree, src: &[u8], i: usize) -> (r: u32)
    requires
        t.wf(),
        i < t.size(),
    ensures
        r == sat32(branches(t, src@, i as int) as int),
    decreases t.fin(i as int) - i,
{
    let mut acc: u32 = own_branches_exec(t, src, i);
    let stop = t.nodes[i].end;
    let mut c: usize = i + 1;
    proof {
        t.lemma_first_child(i as int);
    }
    while c < stop
        invariant
            t.wf(),
            i < t.size(),
            stop == t.fin(i as int),
            i < c <= stop,
            c < stop ==> t.dep(c as int) == t.dep(i as int) + 1,
            sat32(branches(t, src@, i as int) as int) == sat32(
                acc + branches_from(t, src@, i as int, c as int),
            ),
        decreases stop - c,
    {
        proof {
            t.lemma_next_sibling(i as int, c as int);
        }
        if !is_function_kind_exec(t.nodes[c].kind.as_str()) {
            let b = count_branches(t, src, c);
            acc = acc.saturating_add(b);
        }
        c = t.nodes[c].end;
    }
    acc
}

/// Cyclomatic complexity of the function-like node `node`: one plus its
/// decision points, not counting those of nested functions.
pub fn compute_cyclomatic_complexity(tree: &SyntaxTree, node: usize, source: &[u8]) -> (r: u32)
    requires
        tree.wf(),
        node < tree.size(),
    ensures
        r == sat32(1 + branches(tree, source@, node as int) as int),
{
    let b = count_branches(tree, source, node);
    1u32.saturating_add(b)
}

fn nest_walk_exec(t: &SyntaxTree, i: usize, d: u32) -> (r: u32)
    requires
        t.wf(),
        i < t.size(),
    ensures
        r == nest_walk(t, i as int, d as int),
    decreases t.fin(i as int) - i,
{
    let mut best: u32 = 0;
    let stop = t.nodes[i].end;
    let mut c: usize = i + 1;
    proof {
        t.lemma_first_child(i as int);
        lemma_nest_nonneg(t, i as int, i as int + 1, d as int);
    }
    while c < stop
        invariant
            t.wf(),
            i < t.size(),
            stop == t.fin(i as int),
            i < c <= stop,
            c < stop ==> t.dep(c as int) == t.dep(i as int) + 1,
            ({
                let rest = nest_from(t, i as int, c as int, d as int);
                let total = nest_from(t, i as int, i as int + 1, d as int);
                total == if best > rest {
                    best as int
                } else {
                    rest
                }
            }),
        decreases stop - c,
    {
        proof {
            t.lemma_next_sibling(i as int, c as int);
        }
        let k = t.nodes[c].kind.as_str();
        if !is_function_kind_exec(k) {
            let step = if is_nesting_kind_exec(k) {
                d.saturating_add(1)
            } else {
                d
            };
            let m = nest_walk_exec(t, c, step);
            if m > best {
                best = m;
            }
        }
        c = t.nodes[c].end;
    }
    if best > d {
        best
    } else {
        d
    }
}

/// Maximum nesting depth of control structures inside the function-like
/// node `node`, not entering nested functions.
pub fn compute_max_nesting_depth(tree: &SyntaxTree, node: usize) -> (r: u32)
    requires
        tree.wf(),
        node < tree.size(),
    ensures
        r == nest_walk(tree, node as int, 0),
{
    nest_walk_exec(tree, node, 0)
}

/// Node `i` spans row `r`, rows clipped to the `nlines` lines of the file.
pub open spec fn covers(t: &SyntaxTree, i: int, r: int, nlines: int) -> bool {
    let hi = if t.nodes@[i].end_row < nlines - 1 {
        t.nodes@[i].end_row as int
    } else {
        nlines - 1
    };
    t.nodes@[i].start_row <= r <= hi
}

/// Some comment node reached in preorder from `j` (without entering
/// comments) spans row `r`.
pub open spec fn comment_scan(t: &SyntaxTree, j: int, r: int, nlines: int) -> bool
    decreases t.size() - j,
{
    if 0 <= j < t.size() && j < t.fin(j) <= t.size() {
        if t.kind(j) == "comment"@ {
            covers(t, j, r, nlines) || comment_scan(t, t.fin(j), r, nlines)
        } else {
            comment_scan(t, j + 1, r, nlines)
        }
    } else {
        false
    }
}

/// Some leaf outside comments, with a non-empty kind, reached in preorder
/// from `j` spans row `r`.
pub open spec fn code_scan(t: &SyntaxTree, j: int, r: int, nlines: int) -> bool
    decreases t.size() - j,
{
    if 0 <= j < t.size() && j < t.fin(j) <= t.size() {
        if t.kind(j) == "comment"@ {
            code_scan(t, t.fin(j), r, nlines)
        } else {
            (t.is_leaf(j) && t.kind(j).len() > 0 && covers(t, j, r, nlines)) || code_scan(
                t,
                j + 1,
                r,
                nlines,
            )
        }
    } else {
        false
    }
}

/// Line `r` is blank: nothing but whitespace.
pub open spec fn line_blank(lines: Seq<Seq<char>>, r: int) -> bool {
    all_ws(lines[r])
}

/// Line `r` counts as code: not blank, and either holds code or no comment.
pub open spec fn line_code(t: &SyntaxTree, lines: Seq<Seq<char>>, r: int) -> bool {
    !line_blank(lines, r) && (code_scan(t, 0, r, lines.len() as int) || !comment_scan(
        t,
        0,
        r,
        lines.len() as int,
    ))
}

/// Line `r` counts as comment: not blank, no code, but a comment.
pub open spec fn line_comment(t: &SyntaxTree, lines: Seq<Seq<char>>, r: int) -> bool {
    !line_blank(lines, r) && !code_scan(t, 0, r, lines.len() as int) && comment_scan(
        t,
        0,
        r,
        lines.len() as int,
    )
}

/// Number of `r < n` satisfying `f`.
pub open spec fn count_rows(f: spec_fn(int) -> bool, n: int) -> nat
    decreases n,
{
    if n <= 0 {
        0
    } else {
        count_rows(f, n - 1) + if f(n - 1) {
            1nat
        } else {
            0nat
        }
    }
}

/// Every line is exactly one of blank, code or comment, so the three
/// counts add up to the number of lines.
pub proof fn lemma_line_classes_partition(t: &SyntaxTree, lines: Seq<Seq<char>>, n: int)
    requires
        0 <= n,
    ensures
        count_rows(|r: int| line_blank(lines, r), n) + count_rows(|r: int| line_code(t, lines, r), n)
            + count_rows(|r: int| line_comment(t, lines, r), n) == n,
    decreases n,
{
    if n > 0 {
        lemma_line_classes_partition(t, lines, n - 1);
    }
}

/// The line counts of `source` given its tree.
pub open spec fn loc_matches(source: Seq<char>, t: &SyntaxTree, c: LocCounts) -> bool {
    let lines = lines_of(source);
    let n = lines.len() as int;
    if source.len() == 0 {
        c.total_lines == 0 && c.code_lines == 0 && c.comment_lines == 0 && c.blank_lines == 0
    } else {
        &&& c.total_lines == n
        &&& c.blank_lines == count_rows(|r: int| line_blank(lines, r), n)
        &&& c.code_lines == count_rows(|r: int| line_code(t, lines, r), n)
        &&& c.comment_lines == count_rows(|r: int| line_comment(t, lines, r), n)
    }
}

/// Marks rows `lo ..= hi` (clipped to the vector) in `marks`.
fn mark_rows(marks: &mut Vec<bool>, lo: usize, hi: usize)
    ensures
        final(marks)@.len() == old(marks)@.len(),
        forall|r: int|
            0 <= r < old(marks)@.len() ==> #[trigger] final(marks)@[r] == (old(marks)@[r] || (lo
                <= r <= hi)),
{
    let n = marks.len();
    if lo >= n || lo > hi {
        return ;
    }
    let top = if hi < n {
        hi
    } else {
        n - 1
    };
    let mut r: usize = lo;
    while r <= top
        invariant
            n == marks@.len(),
            n == old(marks)@.len(),
            lo <= r,
            lo <= top < n,
            top <= hi,
            top == hi || top == n - 1,
            r <= top + 1,
            forall|x: int|
                0 <= x < n ==> #[trigger] marks@[x] == (old(marks)@[x] || (lo <= x < r)),
        decreases top + 1 - r,
    {
        marks.set(r, true);
        r = r + 1;
    }
}

/// Splits `chars` into lines and reports, for each, whether it is blank.
pub(crate) fn blank_line_flags(chars: &Vec<char>) -> (flags: Vec<bool>)
    ensures
        flags@.len() == lines_of(chars@).len(),
        forall|r: int|
            0 <= r < flags@.len() ==> #[trigger] flags@[r] == all_ws(lines_of(chars@)[r]),
{
    let n = chars.len();
    let ghost s = chars@;
    let mut flags: Vec<bool> = Vec::new();
    let ghost mut done: Seq<Seq<char>> = seq![];
    let mut p: usize = 0;
    assert(s.skip(0) =~= s);
    while p < n
        invariant
            n == s.len(),
            s == chars@,
            p <= n,
            lines_of(s) == done + lines_of(s.skip(p as int)),
            flags@.len() == done.len(),
            forall|r: int| 0 <= r < flags@.len() ==> #[trigger] flags@[r] == all_ws(done[r]),
        decreases n - p,
    {
        let mut q: usize = p;
        while q < n && chars[q] != '\n'
            invariant
                n == s.len(),
                s == chars@,
                p <= q <= n,
                forall|x: int| p <= x < q ==> s[x] != '\n',
            decreases n - q,
        {
            q = q + 1;
        }
        let ghost rest = s.skip(p as int);
        let mut e: usize = q;
        if q < n && e > p && chars[e - 1] == '\r' {
            e = e - 1;
        }
        let mut ws = true;
        let mut k: usize = p;
        while k < e
            invariant
                n == s.len(),
                s == chars@,
                p <= k <= e <= q <= n,
                ws == (forall|x: int| p <= x < k ==> is_ws(#[trigger] s[x])),
            decreases e - k,
        {
            if !crate::text::is_ws_exec(chars[k]) {
                ws = false;
            }
            k = k + 1;
        }
        proof {
            assert forall|x: int| 0 <= x < q - p implies rest[x] != '\n' by {
                assert(rest[x] == s[p + x]);
            }
            if q < n {
                assert(rest[q - p] == s[q as int]);
            }
            lemma_first_index(rest, '\n', q - p);
            let line = if q < n {
                strip_cr(rest.take(q - p))
            } else {
                rest
            };
            assert(line =~= s.subrange(p as int, e as int));
            assert(all_ws(line) == ws) by {
                if ws {
                    assert forall|x: int| 0 <= x < line.len() implies is_ws(#[trigger] line[x]) by {
                        assert(line[x] == s[p + x]);
                    }
                } else {
                    let x = choose|x: int| p <= x < e && !is_ws(#[trigger] s[x]);
                    assert(line[x - p] == s[x]);
                }
            }
            if q < n {
                assert(rest.skip(q - p + 1) =~= s.skip(q + 1));
                assert(lines_of(rest) == seq![line] + lines_of(s.skip(q + 1)));
            } else {
                assert(lines_of(rest) == seq![line]);
                assert(s.skip(n as int) =~= Seq::<char>::empty());
                assert(lines_of(s.skip(n as int)) == Seq::<Seq<char>>::empty());
            }
            assert(done + lines_of(rest) =~= done.push(line) + lines_of(
                s.skip(if q < n {
                    q + 1
                } else {
                    n as int
                }),
            ));
            done = done.push(line);
        }
        flags.push(ws);
        p = if q < n {
            q + 1
        } else {
            n
        };
    }
    assert(s.skip(n as int) =~= Seq::<char>::empty());
    assert(done =~= lines_of(s));
    flags
}

/// One step of the row scans at node `j`.
proof fn lemma_scan_step(t: &SyntaxTree, j: int, r: int, nl: int)
    requires
        t.wf(),
        0 <= j < t.size(),
    ensures
        t.kind(j) == "comment"@ ==> comment_scan(t, j, r, nl) == (covers(t, j, r, nl)
            || comment_scan(t, t.fin(j), r, nl)),
        t.kind(j) == "comment"@ ==> code_scan(t, j, r, nl) == code_scan(t, t.fin(j), r, nl),
        t.kind(j) != "comment"@ ==> comment_scan(t, j, r, nl) == comment_scan(t, j + 1, r, nl),
        t.kind(j) != "comment"@ ==> code_scan(t, j, r, nl) == ((t.is_leaf(j) && t.kind(j).len()
            > 0 && covers(t, j, r, nl)) || code_scan(t, j + 1, r, nl)),
{
    assert(j < t.fin(j) <= t.size());
}

/// `marks` records the comment rows found before position `j` of the scan.
pub open spec fn comment_marks_ok(t: &SyntaxTree, marks: Seq<bool>, j: int, nl: int) -> bool {
    &&& marks.len() == nl
    &&& forall|r: int|
        0 <= r < nl ==> comment_scan(t, 0, r, nl) == (#[trigger] marks[r] || comment_scan(
            t,
            j,
            r,
            nl,
        ))
}

/// `marks` records the code rows found before position `j` of the scan.
pub open spec fn code_marks_ok(t: &SyntaxTree, marks: Seq<bool>, j: int, nl: int) -> bool {
    &&& marks.len() == nl
    &&& forall|r: int|
        0 <= r < nl ==> code_scan(t, 0, r, nl) == (#[trigger] marks[r] || code_scan(t, j, r, nl))
}

proof fn lemma_comment_marks_step(
    t: &SyntaxTree,
    m0: Seq<bool>,
    m1: Seq<bool>,
    j: int,
    nl: int,
    lo: int,
    hi: int,
)
    requires
        t.wf(),
        0 <= j < t.size(),
        comment_marks_ok(t, m0, j, nl),
        m1.len() == nl,
        forall|r: int| 0 <= r < nl ==> covers(t, j, r, nl) == (lo <= r <= hi),
        t.kind(j) == "comment"@ ==> forall|r: int|
            0 <= r < nl ==> #[trigger] m1[r] == (m0[r] || (lo <= r <= hi)),
        t.kind(j) != "comment"@ ==> m1 == m0,
    ensures
        comment_marks_ok(
            t,
            m1,
            if t.kind(j) == "comment"@ {
                t.fin(j)
            } else {
                j + 1
            },
            nl,
        ),
{
    let j1 = if t.kind(j) == "comment"@ {
        t.fin(j)
    } else {
        j + 1
    };
    assert forall|r: int| 0 <= r < nl implies comment_scan(t, 0, r, nl) == (#[trigger] m1[r]
        || comment_scan(t, j1, r, nl)) by {
        assert(comment_scan(t, 0, r, nl) == (m0[r] || comment_scan(t, j, r, nl)));
        lemma_scan_step(t, j, r, nl);
    }
}

proof fn lemma_code_marks_step(
    t: &SyntaxTree,
    m0: Seq<bool>,
    m1: Seq<bool>,
    j: int,
    nl: int,
    lo: int,
    hi: int,
    marked: bool,
)
    requires
        t.wf(),
        0 <= j < t.size(),
        code_marks_ok(t, m0, j, nl),
        m1.len() == nl,
        forall|r: int| 0 <= r < nl ==> covers(t, j, r, nl) == (lo <= r <= hi),
        marked == (t.kind(j) != "comment"@ && t.is_leaf(j) && t.kind(j).len() > 0 && nl > 0),
        marked ==> forall|r: int| 0 <= r < nl ==> #[trigger] m1[r] == (m0[r] || (lo <= r <= hi)),
        !marked ==> m1 == m0,
    ensures
        code_marks_ok(
            t,
            m1,
            if t.kind(j) == "comment"@ {
                t.fin(j)
            } else {
                j + 1
            },
            nl,
        ),
{
    let j1 = if t.kind(j) == "comment"@ {
        t.fin(j)
    } else {
        j + 1
    };
    assert forall|r: int| 0 <= r < nl implies code_scan(t, 0, r, nl) == (#[trigger] m1[r]
        || code_scan(t, j1, r, nl)) by {
        assert(code_scan(t, 0, r, nl) == (m0[r] || code_scan(t, j, r, nl)));
        lemma_scan_step(t, j, r, nl);
    }
}

/// Rows spanned by comments and by code leaves, for a file of `nl` lines.
fn scan_rows(tree: &SyntaxTree, nl: usize) -> (res: (Vec<bool>, Vec<bool>))
    requires
        tree.wf(),
    ensures
        res.0@.len() == nl,
        res.1@.len() == nl,
        forall|r: int| 0 <= r < nl ==> #[trigger] res.0@[r] == comment_scan(tree, 0, r, nl as int),
        forall|r: int| 0 <= r < nl ==> #[trigger] res.1@[r] == code_scan(tree, 0, r, nl as int),
{
    let mut comment_marks: Vec<bool> = Vec::new();
    let mut code_marks: Vec<bool> = Vec::new();
    let mut k: usize = 0;
    while k < nl
        invariant
            k <= nl,
            comment_marks@.len() == k,
            code_marks@.len() == k,
            forall|x: int| 0 <= x < k ==> !(#[trigger] comment_marks@[x]),
            forall|x: int| 0 <= x < k ==> !(#[trigger] code_marks@[x]),
        decreases nl - k,
    {
        comment_marks.push(false);
        code_marks.push(false);
        k = k + 1;
    }
    let size = tree.nodes.len();
    let mut j: usize = 0;
    while j < size
        invariant
            tree.wf(),
            size == tree.size(),
            j <= size,
            comment_marks_ok(tree, comment_marks@, j as int, nl as int),
            code_marks_ok(tree, code_marks@, j as int, nl as int),
        decreases size - j,
    {
        assert(j < tree.fin(j as int) <= tree.size());
        let lo = tree.nodes[j].start_row;
        let end_row = tree.nodes[j].end_row;
        let hi = if nl == 0 {
            0
        } else if end_row < nl - 1 {
            end_row
        } else {
            nl - 1
        };
        let ghost j0 = j as int;
        let ghost cm0 = comment_marks@;
        let ghost km0 = code_marks@;
        let is_comment = tree.kind_is(j, "comment");
        let leaf = tree.nodes[j].end == j + 1;
        let marked = !is_comment && leaf && !tree.nodes[j].kind.as_str().is_empty() && nl > 0;
        if is_comment {
            if nl > 0 {
                mark_rows(&mut comment_marks, lo, hi);
            }
            j = tree.nodes[j].end;
        } else {
            if marked {
                mark_rows(&mut code_marks, lo, hi);
            }
            j = j + 1;
        }
        proof {
            lemma_comment_marks_step(
                tree,
                cm0,
                comment_marks@,
                j0,
                nl as int,
                lo as int,
                hi as int,
            );
            lemma_code_marks_step(
                tree,
                km0,
                code_marks@,
                j0,
                nl as int,
                lo as int,
                hi as int,
                marked,
            );
        }
    }
    assert forall|r: int| 0 <= r < nl implies #[trigger] comment_marks@[r] == comment_scan(
        tree,
        0,
        r,
        nl as int,
    ) by {
        assert(comment_scan(tree, 0, r, nl as int) == (comment_marks@[r] || comment_scan(
            tree,
            j as int,
            r,
            nl as int,
        )));
    }
    assert forall|r: int| 0 <= r < nl implies #[trigger] code_marks@[r] == code_scan(
        tree,
        0,
        r,
        nl as int,
    ) by {
        assert(code_scan(tree, 0, r, nl as int) == (code_marks@[r] || code_scan(
            tree,
            j as int,
            r,
            nl as int,
        )));
    }
    (comment_marks, code_marks)
}

/// Count lines of code, comments, and blanks in a source file.
///
/// A line with both code and a comment is counted as a code line; a
/// non-blank line with neither counts as code.
pub fn count_lines(source: &str, tree: &SyntaxTree) -> (c: LocCounts)
    requires
        tree.wf(),
    ensures
        loc_matches(source@, tree, c),
        c.total_lines == c.code_lines + c.comment_lines + c.blank_lines,
{
    if source.is_empty() {
        return LocCounts::default();
    }
    let chars = chars_of(source);
    let flags = blank_line_flags(&chars);
    let ghost lines = lines_of(source@);
    let nl = flags.len();
    let (comment_marks, code_marks) = scan_rows(tree, nl);
    let mut blank: usize = 0;
    let mut code: usize = 0;
    let mut comment: usize = 0;
    let mut r: usize = 0;
    while r < nl
        invariant
            r <= nl,
            nl == lines.len(),
            flags@.len() == nl,
            comment_marks@.len() == nl,
            code_marks@.len() == nl,
            forall|x: int| 0 <= x < nl ==> #[trigger] flags@[x] == all_ws(lines[x]),
            forall|x: int|
                0 <= x < nl ==> comment_scan(tree, 0, x, nl as int) == #[trigger] comment_marks@[x],
            forall|x: int| 0 <= x < nl ==> code_scan(tree, 0, x, nl as int) == #[trigger] code_marks@[x],
            blank == count_rows(|x: int| line_blank(lines, x), r as int),
            code == count_rows(|x: int| line_code(tree, lines, x), r as int),
            comment == count_rows(|x: int| line_comment(tree, lines, x), r as int),
            blank + code + comment == r,
        decreases nl - r,
    {
        proof {
            lemma_line_classes_partition(tree, lines, r as int);
        }
        if flags[r] {
            blank = blank + 1;
        } else if code_marks[r] {
            code = code + 1;
        } else if comment_marks[r] {
            comment = comment + 1;
        } else {
            code = code + 1;
        }
        r = r + 1;
    }
    LocCounts { total_lines: nl, code_lines: code, comment_lines: comment, blank_lines: blank }
}

/// `Node::parent`.
pub fn parent_of(t: &SyntaxTree, j: usize) -> (r: Option<usize>)
    requires
        t.wf(),
        j < t.size(),
    ensures
        match r {
            Some(p) => parent(t, j as int) == Some(p as int) && p < j,
            None => parent(t, j as int) is None,
        },
{
    if j == 0 {
        return None;
    }
    let target = t.nodes[j].depth - 1;
    let mut k: usize = j;
    while k > 0
        invariant
            t.wf(),
            0 < j < t.size(),
            k <= j,
            target == t.dep(j as int) - 1,
            parent(t, j as int) == parent_scan(t, j as int, k - 1),
        decreases k,
    {
        if t.nodes[k - 1].depth == target {
            return Some(k - 1);
        }
        k = k - 1;
    }
    None
}

/// Name of a function-like node; see [`function_name`].
fn extract_function_name(t: &SyntaxTree, src: &[u8], j: usize) -> (r: Option<String>)
    requires
        t.wf(),
        j < t.size(),
    ensures
        match r {
            Some(s) => function_name(t, src@, j as int) == Some(s@),
            None => function_name(t, src@, j as int) is None,
        },
{
    if let Some(n) = t.child_by_field(j, "name") {
        return t.node_text(n, src);
    }
    if t.kind_is(j, "arrow_function") || t.kind_is(j, "function_expression") {
        match parent_of(t, j) {
            None => None,
            Some(p) => {
                if t.kind_is(p, "variable_declarator") {
                    if let Some(n) = t.child_by_field(p, "name") {
                        return t.node_text(n, src);
                    }
                }
                if t.kind_is(p, "assignment_expression") {
                    if let Some(l) = t.child_by_field(p, "left") {
                        return t.node_text(l, src);
                    }
                }
                None
            },
        }
    } else {
        None
    }
}

/// Formal parameter count of node `j`; see [`parameter_count`].
fn count_parameters(t: &SyntaxTree, j: usize) -> (r: u32)
    requires
        t.wf(),
        j < t.size(),
    ensures
        r == parameter_count(t, j as int),
{
    let p = match t.child_by_field(j, "parameters") {
        Some(p) => p,
        None => {
            return 0;
        },
    };
    proof {
        t.lemma_nested(j as int, p as int);
    }
    let stop = t.nodes[p].end;
    let mut c: usize = p + 1;
    let mut count: u32 = 0;
    proof {
        t.lemma_first_child(p as int);
    }
    while c < stop
        invariant
            t.wf(),
            p < t.size(),
            stop == t.fin(p as int),
            p < c <= stop,
            c < stop ==> t.dep(c as int) == t.dep(p as int) + 1,
            sat32(named_from(t, p as int, p as int + 1) as int) == sat32(
                count + named_from(t, p as int, c as int),
            ),
        decreases stop - c,
    {
        proof {
            t.lemma_next_sibling(p as int, c as int);
        }
        if t.nodes[c].named {
            count = count.saturating_add(1);
        }
        c = t.nodes[c].end;
    }
    count
}

/// Metrics of function-like node `j`, when it has a name.
fn build_function_metrics(t: &SyntaxTree, src: &[u8], j: usize) -> (r: Option<FunctionMetrics>)
    requires
        t.wf(),
        j < t.size(),
    ensures
        r is Some <==> function_name(t, src@, j as int) is Some,
        r matches Some(m) ==> metrics_of(t, src@, j as int, m),
{
    let name = match extract_function_name(t, src, j) {
        Some(n) => n,
        None => {
            return None;
        },
    };
    let line = t.nodes[j].start_row.saturating_add(1);
    let end_line = t.nodes[j].end_row.saturating_add(1);
    let lines_of_code = end_line.saturating_sub(line) + 1;
    let complexity = compute_cyclomatic_complexity(t, j, src);
    let nesting = compute_max_nesting_depth(t, j);
    let params = count_parameters(t, j);
    Some(
        FunctionMetrics {
            name,
            line,
            end_line,
            lines_of_code,
            cyclomatic_complexity: complexity,
            max_nesting_depth: nesting,
            parameter_count: params,
        },
    )
}

/// Per-function metrics of every named function-like node, in preorder.
pub fn extract_function_metrics(tree: &SyntaxTree, source: &str) -> (v: Vec<FunctionMetrics>)
    requires
        tree.wf(),
    ensures
        v@.len() == metric_nodes(tree, source.spec_bytes(), 0).len(),
        forall|k: int|
            0 <= k < v@.len() ==> metrics_of(
                tree,
                source.spec_bytes(),
                metric_nodes(tree, source.spec_bytes(), 0)[k],
                #[trigger] v@[k],
            ),
{
    let src = source.as_bytes();
    let ghost s = source.spec_bytes();
    let mut v: Vec<FunctionMetrics> = Vec::new();
    let ghost mut done: Seq<int> = seq![];
    let size = tree.nodes.len();
    let mut j: usize = 0;
    while j < size
        invariant
            tree.wf(),
            size == tree.size(),
            src@ == s,
            j <= size,
            metric_nodes(tree, s, 0) == done + metric_nodes(tree, s, j as int),
            v@.len() == done.len(),
            forall|k: int| 0 <= k < v@.len() ==> metrics_of(tree, s, done[k], #[trigger] v@[k]),
        decreases size - j,
    {
        let ghost before = done;
        if is_function_kind_exec(tree.nodes[j].kind.as_str()) {
            match build_function_metrics(tree, src, j) {
                Some(m) => {
                    v.push(m);
                    proof {
                        done = done.push(j as int);
                    }
                },
                None => {},
            }
        }
        proof {
            assert(metric_nodes(tree, s, j as int) == (if is_function_kind(tree.kind(j as int))
                && function_name(tree, s, j as int) is Some {
                seq![j as int]
            } else {
                seq![]
            }) + metric_nodes(tree, s, j + 1));
            if is_function_kind(tree.kind(j as int)) && function_name(tree, s, j as int) is Some {
                assert(before + metric_nodes(tree, s, j as int) =~= done + metric_nodes(
                    tree,
                    s,
                    j + 1,
                ));
            } else {
                assert(before + metric_nodes(tree, s, j as int) =~= done + metric_nodes(
                    tree,
                    s,
                    j + 1,
                ));
            }
        }
        j = j + 1;
    }
    assert(metric_nodes(tree, s, size as int) == Seq::<int>::empty());
    assert(done =~= metric_nodes(tree, s, 0));
    v
}


/// The decision points of the nodes from `lo` up to `hi`, each counted on
/// its own.
pub open spec fn own_sum(t: &SyntaxTree, src: Seq<u8>, lo: int, hi: int) -> nat
    decreases hi - lo,
{
    if hi <= lo {
        0
    } else {
        own_sum(t, src, lo, hi - 1) + own_branches(t, src, hi - 1)
    }
}

proof fn lemma_own_sum_split(t: &SyntaxTree, src: Seq<u8>, a: int, b: int, c: int)
    requires
        a <= b <= c,
    ensures
        own_sum(t, src, a, c) == own_sum(t, src, a, b) + own_sum(t, src, b, c),
    decreases c - b,
{
    if b < c {
        lemma_own_sum_split(t, src, a, b, c - 1);
    }
}

/// Without nested functions, the decision points below `i` are those of
/// every node of its subtree.
proof fn lemma_branches_sum(t: &SyntaxTree, src: Seq<u8>, i: int)
    requires
        t.wf(),
        0 <= i < t.size(),
        forall|j: int| i < j < t.fin(i) ==> !is_function_kind(#[trigger] t.kind(j)),
    ensures
        branches(t, src, i) == own_sum(t, src, i, t.fin(i)),
    decreases t.fin(i) - i, 0int,
{
    t.lemma_first_child(i);
    lemma_from_sum(t, src, i, i + 1);
    lemma_own_sum_split(t, src, i, i + 1, t.fin(i));
    assert(own_sum(t, src, i, i) == 0);
}

proof fn lemma_from_sum(t: &SyntaxTree, src: Seq<u8>, i: int, c: int)
    requires
        t.wf(),
        0 <= i < t.size(),
        i < c <= t.fin(i),
        c < t.fin(i) ==> t.dep(c) == t.dep(i) + 1,
        forall|j: int| i < j < t.fin(i) ==> !is_function_kind(#[trigger] t.kind(j)),
    ensures
        branches_from(t, src, i, c) == own_sum(t, src, c, t.fin(i)),
    decreases t.fin(i) - c, 1int,
{
    if c < t.fin(i) {
        t.lemma_next_sibling(i, c);
        t.lemma_nested(i, c);
        assert(!is_function_kind(t.kind(c)));
        lemma_branches_sum(t, src, c);
        lemma_from_sum(t, src, i, t.fin(c));
        lemma_own_sum_split(t, src, c, t.fin(c), t.fin(i));
    }
}

/// The sum over a range where every node but `w` contributes nothing.
proof fn lemma_own_sum_single(t: &SyntaxTree, src: Seq<u8>, lo: int, hi: int, w: int)
    requires
        forall|j: int| lo <= j < hi && j != w ==> own_branches(t, src, j) == 0,
    ensures
        own_sum(t, src, lo, hi) == if lo <= w < hi {
            own_branches(t, src, w)
        } else {
            0
        },
    decreases hi - lo,
{
    if lo < hi {
        lemma_own_sum_single(t, src, lo, hi - 1, w);
    }
}

/// The cyclomatic complexity of a function counts one decision point for
/// each `if`, `for`, `for ... in`, `while`, `do`, `catch`, ternary and
/// `case` in its body: with exactly one of them, and no logical operator,
/// optional chain or nested function, it is 2.
pub proof fn law_one_decision_point(t: &SyntaxTree, src: Seq<u8>, f: int, w: int)
    requires
        t.wf(),
        0 <= f < t.size(),
        f < w < t.fin(f),
        t.kind(w) == "if_statement"@ || t.kind(w) == "for_statement"@ || t.kind(w) == "for_in_statement"@ || t.kind(w) == "while_statement"@ || t.kind(w) == "do_statement"@ || t.kind(w) == "catch_clause"@ || t.kind(w) == "ternary_expression"@ || t.kind(w) == "switch_case"@,
        forall|j: int|
            f <= j < t.fin(f) && j != w ==> #[trigger] t.kind(j) != "if_statement"@ && #[trigger] t.kind(j) != "for_statement"@ && #[trigger] t.kind(j) != "for_in_statement"@ && #[trigger] t.kind(j) != "while_statement"@ && #[trigger] t.kind(j) != "do_statement"@ && #[trigger] t.kind(j) != "catch_clause"@ && #[trigger] t.kind(j) != "ternary_expression"@ && #[trigger] t.kind(j) != "switch_case"@ && #[trigger] t.kind(j) != "binary_expression"@ && #[trigger] t.kind(j) != "member_expression"@ && #[trigger] t.kind(j) != "call_expression"@,
        forall|j: int| f < j < t.fin(f) ==> #[trigger] t.kind(j) != "function_declaration"@ && #[trigger] t.kind(j) != "generator_function_declaration"@ && #[trigger] t.kind(j) != "method_definition"@ && #[trigger] t.kind(j) != "arrow_function"@ && #[trigger] t.kind(j) != "function_expression"@ && #[trigger] t.kind(j) != "generator_function"@,
    ensures
        sat32(1 + branches(t, src, f) as int) == 2,
{
    assert forall|j: int| f < j < t.fin(f) implies !is_function_kind(#[trigger] t.kind(j)) by {}
    lemma_branches_sum(t, src, f);
    assert forall|j: int| f <= j < t.fin(f) && j != w implies own_branches(t, src, j) == 0 by {
        assert(t.kind(j) != "binary_expression"@);
    }
    reveal_strlit("if_statement");
    reveal_strlit("for_statement");
    reveal_strlit("for_in_statement");
    reveal_strlit("while_statement");
    reveal_strlit("do_statement");
    reveal_strlit("catch_clause");
    reveal_strlit("ternary_expression");
    reveal_strlit("switch_case");
    reveal_strlit("binary_expression");
    reveal_strlit("member_expression");
    reveal_strlit("call_expression");
    assert("if_statement"@.len() == 12);
    assert("for_statement"@.len() == 13);
    assert("for_in_statement"@.len() == 16);
    assert("while_statement"@.len() == 15);
    assert("do_statement"@.len() == 12);
    assert("catch_clause"@.len() == 12);
    assert("ternary_expression"@.len() == 18);
    assert("switch_case"@.len() == 11);
    assert("binary_expression"@.len() == 17);
    assert("member_expression"@.len() == 17);
    assert("call_expression"@.len() == 15);
    assert("while_statement"@[0] != "call_expression"@[0]);
    assert(is_branch_kind(t.kind(w)));
    assert(own_branches(t, src, w) == 1);
    lemma_own_sum_single(t, src, f, t.fin(f), w);
}

/// A function with none of those decision points, logical operators,
/// optional chains or nested functions has cyclomatic complexity 1.
pub proof fn law_no_decision_point(t: &SyntaxTree, src: Seq<u8>, f: int)
    requires
        t.wf(),
        0 <= f < t.size(),
        forall|j: int| f <= j < t.fin(f) ==> #[trigger] t.kind(j) != "if_statement"@ && #[trigger] t.kind(j) != "for_statement"@ && #[trigger] t.kind(j) != "for_in_statement"@ && #[trigger] t.kind(j) != "while_statement"@ && #[trigger] t.kind(j) != "do_statement"@ && #[trigger] t.kind(j) != "catch_clause"@ && #[trigger] t.kind(j) != "ternary_expression"@ && #[trigger] t.kind(j) != "switch_case"@ && #[trigger] t.kind(j) != "binary_expression"@ && #[trigger] t.kind(j) != "member_expression"@ && #[trigger] t.kind(j) != "call_expression"@,
        forall|j: int| f < j < t.fin(f) ==> #[trigger] t.kind(j) != "function_declaration"@ && #[trigger] t.kind(j) != "generator_function_declaration"@ && #[trigger] t.kind(j) != "method_definition"@ && #[trigger] t.kind(j) != "arrow_function"@ && #[trigger] t.kind(j) != "function_expression"@ && #[trigger] t.kind(j) != "generator_function"@,
    ensures
        sat32(1 + branches(t, src, f) as int) == 1,
{
    assert forall|j: int| f < j < t.fin(f) implies !is_function_kind(#[trigger] t.kind(j)) by {}
    lemma_branches_sum(t, src, f);
    assert forall|j: int| f <= j < t.fin(f) && j != t.fin(f) implies own_branches(t, src, j) == 0 by {
        assert(t.kind(j) != "binary_expression"@);
    }
    lemma_own_sum_single(t, src, f, t.fin(f), t.fin(f));
}


proof fn lemma_nest_flat(t: &SyntaxTree, i: int, d: int)
    requires
        t.wf(),
        0 <= i < t.size(),
        d >= 0,
        forall|j: int| i < j < t.fin(i) ==> !is_nesting_kind(#[trigger] t.kind(j)),
    ensures
        nest_walk(t, i, d) == d,
    decreases t.fin(i) - i, 0int,
{
    t.lemma_first_child(i);
    lemma_nest_from_flat(t, i, i + 1, d);
}

proof fn lemma_nest_from_flat(t: &SyntaxTree, i: int, c: int, d: int)
    requires
        t.wf(),
        0 <= i < t.size(),
        i < c <= t.fin(i),
        c < t.fin(i) ==> t.dep(c) == t.dep(i) + 1,
        d >= 0,
        forall|j: int| c <= j < t.fin(i) ==> !is_nesting_kind(#[trigger] t.kind(j)),
    ensures
        0 <= nest_from(t, i, c, d) <= d,
    decreases t.fin(i) - c, 1int,
{
    if c < t.fin(i) {
        t.lemma_next_sibling(i, c);
        t.lemma_nested(i, c);
        if !is_function_kind(t.kind(c)) {
            assert(!is_nesting_kind(t.kind(c)));
            lemma_nest_flat(t, c, d);
        }
        lemma_nest_from_flat(t, i, t.fin(c), d);
    }
}

proof fn lemma_nest_one(t: &SyntaxTree, i: int, d: int, w: int)
    requires
        t.wf(),
        0 <= i < t.size(),
        i < w < t.fin(i),
        is_nesting_kind(t.kind(w)),
        forall|j: int| i < j < t.fin(i) && j != w ==> !is_nesting_kind(#[trigger] t.kind(j)),
        forall|j: int| i < j < t.fin(i) ==> !is_function_kind(#[trigger] t.kind(j)),
        0 <= d < u32::MAX,
    ensures
        nest_walk(t, i, d) == d + 1,
    decreases t.fin(i) - i, 0int,
{
    t.lemma_first_child(i);
    lemma_nest_from_one(t, i, i + 1, d, w);
}

proof fn lemma_nest_from_one(t: &SyntaxTree, i: int, c: int, d: int, w: int)
    requires
        t.wf(),
        0 <= i < t.size(),
        i < c <= w < t.fin(i),
        t.dep(c) == t.dep(i) + 1,
        is_nesting_kind(t.kind(w)),
        forall|j: int| i < j < t.fin(i) && j != w ==> !is_nesting_kind(#[trigger] t.kind(j)),
        forall|j: int| i < j < t.fin(i) ==> !is_function_kind(#[trigger] t.kind(j)),
        0 <= d < u32::MAX,
    ensures
        nest_from(t, i, c, d) == d + 1,
    decreases t.fin(i) - c, 1int,
{
    t.lemma_next_sibling(i, c);
    t.lemma_nested(i, c);
    assert(!is_function_kind(t.kind(c)));
    if w < t.fin(c) {
        if c == w {
            assert(nest_step(t, c, d) == d + 1);
            lemma_nest_flat(t, c, d + 1);
        } else {
            lemma_nest_one(t, c, d, w);
        }
        lemma_nest_from_flat(t, i, t.fin(c), d);
    } else {
        lemma_nest_flat(t, c, d);
        lemma_nest_from_one(t, i, t.fin(c), d, w);
    }
}

/// The nesting depth of a function counts one level for each `if`, `for`,
/// `for ... in`, `while`, `do`, `switch`, `try` and `catch` it enters: with
/// exactly one of them in its body, and no nested function, it is 1.
pub proof fn law_one_nesting_level(t: &SyntaxTree, f: int, w: int)
    requires
        t.wf(),
        0 <= f < t.size(),
        f < w < t.fin(f),
        t.kind(w) == "if_statement"@ || t.kind(w) == "for_statement"@ || t.kind(w) == "for_in_statement"@ || t.kind(w) == "while_statement"@ || t.kind(w) == "do_statement"@ || t.kind(w) == "switch_statement"@ || t.kind(w) == "try_statement"@ || t.kind(w) == "catch_clause"@,
        forall|j: int| f < j < t.fin(f) && j != w ==> #[trigger] t.kind(j) != "if_statement"@ && #[trigger] t.kind(j) != "for_statement"@ && #[trigger] t.kind(j) != "for_in_statement"@ && #[trigger] t.kind(j) != "while_statement"@ && #[trigger] t.kind(j) != "do_statement"@ && #[trigger] t.kind(j) != "switch_statement"@ && #[trigger] t.kind(j) != "try_statement"@ && #[trigger] t.kind(j) != "catch_clause"@,
        forall|j: int| f < j < t.fin(f) ==> #[trigger] t.kind(j) != "function_declaration"@ && #[trigger] t.kind(j) != "generator_function_declaration"@ && #[trigger] t.kind(j) != "method_definition"@ && #[trigger] t.kind(j) != "arrow_function"@ && #[trigger] t.kind(j) != "function_expression"@ && #[trigger] t.kind(j) != "generator_function"@,
    ensures
        nest_walk(t, f, 0) == 1,
{
    assert forall|j: int| f < j < t.fin(f) && j != w implies !is_nesting_kind(#[trigger] t.kind(j)) by {}
    assert forall|j: int| f < j < t.fin(f) implies !is_function_kind(#[trigger] t.kind(j)) by {}
    lemma_nest_one(t, f, 0, w);
}

/// A function with none of those control structures in its body has
/// nesting depth 0.
pub proof fn law_no_nesting(t: &SyntaxTree, f: int)
    requires
        t.wf(),
        0 <= f < t.size(),
        forall|j: int| f < j < t.fin(f) ==> #[trigger] t.kind(j) != "if_statement"@ && #[trigger] t.kind(j) != "for_statement"@ && #[trigger] t.kind(j) != "for_in_statement"@ && #[trigger] t.kind(j) != "while_statement"@ && #[trigger] t.kind(j) != "do_statement"@ && #[trigger] t.kind(j) != "switch_statement"@ && #[trigger] t.kind(j) != "try_statement"@ && #[trigger] t.kind(j) != "catch_clause"@,
    ensures
        nest_walk(t, f, 0) == 0,
{
    assert forall|j: int| f < j < t.fin(f) implies !is_nesting_kind(#[trigger] t.kind(j)) by {}
    lemma_nest_flat(t, f, 0);
}


/// A logical operator (`&&`, `||`, `??`) and an optional chain (`?.`) are
/// decision points too: a function whose only one is such an expression,
/// with no nested function, has cyclomatic complexity 2.
pub proof fn law_one_short_circuit(t: &SyntaxTree, src: Seq<u8>, f: int, w: int)
    requires
        t.wf(),
        0 <= f < t.size(),
        f < w < t.fin(f),
        (t.kind(w) == "binary_expression"@ && (t.field_child(w, "operator"@) matches Some(o) && (text_or_empty(
            t,
            src,
            o,
        ) == "&&"@ || text_or_empty(t, src, o) == "||"@ || text_or_empty(t, src, o) == "??"@))) || ((t.kind(w)
            == "member_expression"@ || t.kind(w) == "call_expression"@) && t.field_child(w, "optional_chain"@) is Some),
        forall|j: int|
            f <= j < t.fin(f) && j != w ==> #[trigger] t.kind(j) != "if_statement"@ && #[trigger] t.kind(j) != "for_statement"@ && #[trigger] t.kind(j) != "for_in_statement"@ && #[trigger] t.kind(j) != "while_statement"@ && #[trigger] t.kind(j) != "do_statement"@ && #[trigger] t.kind(j) != "catch_clause"@ && #[trigger] t.kind(j) != "ternary_expression"@ && #[trigger] t.kind(j) != "switch_case"@ && #[trigger] t.kind(j) != "binary_expression"@ && #[trigger] t.kind(j) != "member_expression"@ && #[trigger] t.kind(j) != "call_expression"@,
        forall|j: int| f < j < t.fin(f) ==> #[trigger] t.kind(j) != "function_declaration"@ && #[trigger] t.kind(j) != "generator_function_declaration"@ && #[trigger] t.kind(j) != "method_definition"@ && #[trigger] t.kind(j) != "arrow_function"@ && #[trigger] t.kind(j) != "function_expression"@ && #[trigger] t.kind(j) != "generator_function"@,
    ensures
        sat32(1 + branches(t, src, f) as int) == 2,
{
    assert forall|j: int| f < j < t.fin(f) implies !is_function_kind(#[trigger] t.kind(j)) by {}
    lemma_branches_sum(t, src, f);
    assert forall|j: int| f <= j < t.fin(f) && j != w implies own_branches(t, src, j) == 0 by {
        assert(t.kind(j) != "binary_expression"@);
    }
    reveal_strlit("if_statement");
    reveal_strlit("for_statement");
    reveal_strlit("for_in_statement");
    reveal_strlit("while_statement");
    reveal_strlit("do_statement");
    reveal_strlit("catch_clause");
    reveal_strlit("ternary_expression");
    reveal_strlit("switch_case");
    reveal_strlit("binary_expression");
    reveal_strlit("member_expression");
    reveal_strlit("call_expression");
    assert("if_statement"@.len() == 12);
    assert("for_statement"@.len() == 13);
    assert("for_in_statement"@.len() == 16);
    assert("while_statement"@.len() == 15);
    assert("do_statement"@.len() == 12);
    assert("catch_clause"@.len() == 12);
    assert("ternary_expression"@.len() == 18);
    assert("switch_case"@.len() == 11);
    assert("binary_expression"@.len() == 17);
    assert("member_expression"@.len() == 17);
    assert("call_expression"@.len() == 15);
    assert("binary_expression"@[0] != "member_expression"@[0]);
    assert("member_expression"@[0] != "binary_expression"@[0]);
    assert("call_expression"@[0] != "while_statement"@[0]);
    assert(!is_branch_kind(t.kind(w)));
    assert(own_branches(t, src, w) == 1);
    lemma_own_sum_single(t, src, f, t.fin(f), w);
}

} // verus!
