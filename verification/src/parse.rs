//! Parsing source text with tree-sitter.
use vstd::prelude::*;
use vstd::string::StringSliceAdditionalSpecFns;
use vstd::utf8::encode_utf8;

use crate::output::{DetectedLanguage, SourceFile, Warning};
use crate::syntax::SyntaxTree;
use crate::treesitter::{
    grammar_accepted, load_grammar, parse_nodes, parse_source_tree, plain_of, rows_ordered, Grammar, LoadedGrammar,
    ParseFailure, SourceTree,
};

verus! {

/// Owned result of parsing a single source file.
pub struct ParsedFile {
    pub source_file: SourceFile,
    pub source: String,
    /// The plain form of `ts_tree`.
    pub tree: SyntaxTree,
    /// The tree-sitter tree of `source`.
    pub ts_tree: SourceTree,
    /// For Svelte files: every re-parsed script block and its source text.
    pub script_blocks: Vec<ScriptBlock>,
}

/// A `<script>` block extracted from a Svelte component.
pub struct ScriptBlock {
    pub source: String,
    /// The plain form of `ts_tree`.
    pub tree: SyntaxTree,
    /// The tree-sitter tree of `source`, parsed as TypeScript.
    pub ts_tree: SourceTree,
    /// Row of the script text within the original file.
    pub start_line: usize,
}

/// Result of parsing all files in the project.
pub struct ParseResult {
    pub files: Vec<ParsedFile>,
    pub warnings: Vec<Warning>,
}

impl ParsedFile {
    /// Every tree of the file is well formed and is the plain form of the
    /// tree-sitter tree of its text in its grammar.
    pub open spec fn wf(&self) -> bool {
        &&& self.tree.wf()
        &&& rows_ordered(self.tree)
        &&& self.ts_tree.plain() == self.tree
        &&& self.ts_tree.text() == self.source@
        &&& self.ts_tree.grammar() == grammar_for(self.source_file.language)
        &&& forall|b: int| 0 <= b < self.script_blocks@.len() ==> (#[trigger] self.script_blocks@[b]).wf()
    }
}

impl ScriptBlock {
    /// The block's tree is well formed and is the plain form of its text
    /// parsed as TypeScript.
    pub open spec fn wf(&self) -> bool {
        &&& self.tree.wf()
        &&& rows_ordered(self.tree)
        &&& self.ts_tree.plain() == self.tree
        &&& self.ts_tree.text() == self.source@
        &&& self.ts_tree.grammar() == Grammar::TypeScript
    }
}

/// The grammar of a language. JavaScript and JSX use the TSX grammar,
/// which parses plain JavaScript too.
pub open spec fn grammar_for(lang: DetectedLanguage) -> Grammar {
    match lang {
        DetectedLanguage::TypeScript => Grammar::TypeScript,
        DetectedLanguage::Tsx | DetectedLanguage::Jsx | DetectedLanguage::JavaScript => Grammar::Tsx,
        DetectedLanguage::Svelte => Grammar::Svelte,
    }
}

/// The tree-sitter grammar for a language, loaded.
fn ts_language(lang: DetectedLanguage) -> (r: LoadedGrammar)
    ensures
        r.grammar() == grammar_for(lang),
{
    match lang {
        DetectedLanguage::TypeScript => load_grammar(Grammar::TypeScript),
        DetectedLanguage::Tsx | DetectedLanguage::Jsx | DetectedLanguage::JavaScript => load_grammar(Grammar::Tsx),
        DetectedLanguage::Svelte => load_grammar(Grammar::Svelte),
    }
}

/// The script text node of node `c`: for a `script_element` with a
/// `raw_text` child, its first such child.
pub open spec fn script_raw_text(t: &SyntaxTree, c: int) -> Option<int> {
    if t.kind(c) == "script_element"@ {
        t.child_of_kind(c, "raw_text"@)
    } else {
        None
    }
}

/// The script text nodes of the nodes of `s` from position `j` on.
pub open spec fn script_raw_texts(t: &SyntaxTree, s: Seq<int>, j: int) -> Seq<int>
    decreases s.len() - j,
{
    if 0 <= j < s.len() {
        match script_raw_text(t, s[j]) {
            Some(r) => seq![r] + script_raw_texts(t, s, j + 1),
            None => script_raw_texts(t, s, j + 1),
        }
    } else {
        seq![]
    }
}

/// The script text of a Svelte component: the `raw_text` nodes of the
/// script elements at the top level.
pub open spec fn svelte_scripts(t: &SyntaxTree) -> Seq<int> {
    script_raw_texts(t, t.children(0), 0)
}

pub const NO_TREE_MESSAGE: &'static str = "tree-sitter returned no parse tree";

pub const GRAMMAR_MESSAGE: &'static str = "tree-sitter refused the grammar";

pub const SCRIPT_TEXT_MESSAGE: &'static str = "unable to extract script block text";

pub const SCRIPT_PARSE_MESSAGE: &'static str = "unable to parse Svelte script block as TypeScript";

/// The messages of a failed parse; the last two only for a Svelte file.
pub open spec fn parse_message(m: Seq<char>, svelte: bool) -> bool {
    ||| m == NO_TREE_MESSAGE@
    ||| m == GRAMMAR_MESSAGE@
    ||| svelte && m == SCRIPT_TEXT_MESSAGE@
    ||| svelte && m == SCRIPT_PARSE_MESSAGE@
}

fn warning(path: &String, message: &str) -> (w: Warning)
    ensures
        w.path@ == path@,
        w.message@ == message@,
{
    Warning { path: path.clone(), message: String::from_str(message) }
}

/// Parses `text` with the grammar `language` into its tree-sitter tree and
/// plain tree; it fails only when tree-sitter refuses the grammar.
fn parse_with(language: &LoadedGrammar, text: &str) -> (r: Result<(SourceTree, SyntaxTree), ParseFailure>)
    ensures
        r is Ok <==> grammar_accepted(language.grammar()),
        r matches Err(f) ==> f is Grammar,
        r matches Ok(p) ==> p.0.grammar() == language.grammar() && p.0.text() == text@ && p.0.plain() == p.1
            && p.1.wf() && rows_ordered(p.1) && plain_of(p.1, parse_nodes(language.grammar(), text@)),
{
    parse_source_tree(language, text)
}

/// Extracts every `<script>` block of a Svelte component and re-parses it
/// with the TypeScript grammar. A component without a script block has
/// none; that is no error.
pub fn extract_svelte_scripts(source: &str, tree: &SyntaxTree, path: &String) -> (r: Result<
    Vec<ScriptBlock>,
    Warning,
>)
    requires
        tree.wf(),
    ensures
        r matches Ok(blocks) ==> blocks_match(tree, source.spec_bytes(), blocks@),
        r matches Ok(blocks) ==> forall|b: int|
            0 <= b < blocks@.len() ==> (#[trigger] blocks@[b]).wf(),
        r matches Err(w) ==> w.path@ == path@,
        r matches Err(w) ==> parse_message(w.message@, true),
        r matches Err(w) ==> w.message@ == SCRIPT_TEXT_MESSAGE@ || (w.message@ == GRAMMAR_MESSAGE@
            && !grammar_accepted(Grammar::TypeScript)),
        (r matches Err(w) && w.message@ == SCRIPT_TEXT_MESSAGE@) <==> scripts_unreadable(tree, source.spec_bytes()),
        r is Ok <==> !scripts_unreadable(tree, source.spec_bytes()) && (svelte_scripts(tree).len() == 0
            || grammar_accepted(Grammar::TypeScript)),
{
    proof {
        reveal_strlit("tree-sitter refused the grammar");
        reveal_strlit("unable to extract script block text");
        reveal_strlit("unable to parse Svelte script block as TypeScript");
        assert(GRAMMAR_MESSAGE@[0] != SCRIPT_TEXT_MESSAGE@[0]);
        assert(SCRIPT_PARSE_MESSAGE@.len() != SCRIPT_TEXT_MESSAGE@.len());
    }
    let texts = match script_texts(source, tree) {
        Some(t) => t,
        None => {
            return Err(warning(path, SCRIPT_TEXT_MESSAGE));
        },
    };
    proof {
        assert forall|x: int| 0 <= x < svelte_scripts(tree).len() implies tree.text(
            source.spec_bytes(),
            #[trigger] svelte_scripts(tree)[x],
        ) is Some by {
            assert(text_matches(tree, source.spec_bytes(), svelte_scripts(tree), x, texts@[x]));
        }
    }
    let ghost all = svelte_scripts(tree);
    let mut blocks: Vec<ScriptBlock> = Vec::new();
    let mut b: usize = 0;
    while b < texts.len()
        invariant
            texts@.len() == all.len(),
            forall|x: int| 0 <= x < texts@.len() ==> #[trigger] text_matches(tree, source.spec_bytes(), all, x, texts@[x]),
            b <= texts@.len(),
            blocks@.len() == b,
            forall|x: int|
                0 <= x < b ==> block_from(#[trigger] blocks@[x], texts@[x]),
            all == svelte_scripts(tree),
            !scripts_unreadable(tree, source.spec_bytes()),
            b > 0 ==> grammar_accepted(Grammar::TypeScript),
            GRAMMAR_MESSAGE@ != SCRIPT_TEXT_MESSAGE@,
        decreases texts@.len() - b,
    {
        let (text, start_line) = (texts[b].0.clone(), texts[b].1);
        let ts = load_grammar(Grammar::TypeScript);
        match parse_with(&ts, text.as_str()) {
            Ok((ts_tree, plain)) => {
                let block = ScriptBlock { source: text, tree: plain, ts_tree, start_line };
                blocks.push(block);
            },
            Err(ParseFailure::Grammar) => {
                assert(all.len() > 0);
                return Err(warning(path, GRAMMAR_MESSAGE));
            },
            Err(ParseFailure::NoTree) => {
                return Err(warning(path, SCRIPT_PARSE_MESSAGE));
            },
        }
        b = b + 1;
    }
    proof {
        reveal(blocks_match);
        reveal(block_matches);
        assert forall|x: int| 0 <= x < blocks@.len() implies (#[trigger] blocks@[x]).wf() by {
            assert(block_from(blocks@[x], texts@[x]));
        }
        assert forall|x: int| 0 <= x < blocks@.len() implies block_matches(tree, source.spec_bytes(), all, x, #[trigger] blocks@[x]) by {
            assert(block_from(blocks@[x], texts@[x]));
            assert(text_matches(tree, source.spec_bytes(), all, x, texts@[x]));
        }
    }
    Ok(blocks)
}

/// Two plain trees agree on everything script extraction reads: kinds,
/// subtree extents, byte ranges and first rows.
pub open spec fn same_shape(a: SyntaxTree, b: SyntaxTree) -> bool {
    &&& a.size() == b.size()
    &&& forall|i: int|
        #![trigger a.nodes@[i]]
        0 <= i < a.size() ==> {
            &&& a.kind(i) == b.kind(i)
            &&& a.fin(i) == b.fin(i)
            &&& a.nodes@[i].start_byte == b.nodes@[i].start_byte
            &&& a.nodes@[i].end_byte == b.nodes@[i].end_byte
            &&& a.nodes@[i].start_row == b.nodes@[i].start_row
        }
}

proof fn lemma_same_depths(a: SyntaxTree, b: SyntaxTree, ns: Seq<crate::treesitter::NodeModel>, i: int)
    requires
        plain_of(a, ns),
        plain_of(b, ns),
        0 <= i < a.size(),
    ensures
        a.dep(i) == b.dep(i),
    decreases i,
{
    if i > 0 {
        lemma_same_depths(a, b, ns, i - 1);
    }
}

/// Well-formed plain trees of the same parse agree on their shape (they
/// may differ only in node identifiers).
pub proof fn lemma_plain_same_shape(a: SyntaxTree, b: SyntaxTree, ns: Seq<crate::treesitter::NodeModel>)
    requires
        a.wf(),
        b.wf(),
        plain_of(a, ns),
        plain_of(b, ns),
    ensures
        same_shape(a, b),
{
    assert forall|j: int| 0 <= j < a.size() implies a.dep(j) == b.dep(j) by {
        lemma_same_depths(a, b, ns, j);
    }
    assert forall|i: int| #![trigger a.nodes@[i]] 0 <= i < a.size() implies {
        &&& a.kind(i) == b.kind(i)
        &&& a.fin(i) == b.fin(i)
        &&& a.nodes@[i].start_byte == b.nodes@[i].start_byte
        &&& a.nodes@[i].end_byte == b.nodes@[i].end_byte
        &&& a.nodes@[i].start_row == b.nodes@[i].start_row
    } by {
        let fa = a.fin(i);
        let fb = b.fin(i);
        assert(i < fa <= a.size() && i < fb <= b.size());
        if fa < fb {
            assert(a.dep(fa) <= a.dep(i));
            assert(b.dep(fa) > b.dep(i));
        }
        if fb < fa {
            assert(b.dep(fb) <= b.dep(i));
            assert(a.dep(fb) > a.dep(i));
        }
        assert(a.nodes@[i].kind@ == ns[i].0 && b.nodes@[i].kind@ == ns[i].0);
    }
}

proof fn lemma_kids_same(a: SyntaxTree, b: SyntaxTree, i: int, c: int)
    requires
        a.wf(),
        b.wf(),
        same_shape(a, b),
        0 <= i < a.size(),
    ensures
        a.kids(i, c) == b.kids(i, c),
        forall|y: int| 0 <= y < a.kids(i, c).len() ==> 0 <= #[trigger] a.kids(i, c)[y] < a.size(),
    decreases a.fin(i) - c,
{
    assert(a.fin(i) == b.fin(i));
    if 0 <= c < a.fin(i) && c < a.fin(c) <= a.fin(i) {
        assert(c < a.size());
        assert(a.fin(c) == b.fin(c));
        lemma_kids_same(a, b, i, a.fin(c));
        assert(a.kids(i, c) == seq![c] + a.kids(i, a.fin(c)));
        assert forall|y: int| 0 <= y < a.kids(i, c).len() implies 0 <= #[trigger] a.kids(i, c)[y] < a.size() by {
            if y > 0 {
                assert(a.kids(i, c)[y] == a.kids(i, a.fin(c))[y - 1]);
            }
        }
    } else {
        if 0 <= c < a.fin(i) {
            assert(c < a.size());
            assert(a.fin(c) == b.fin(c));
        }
    }
}

proof fn lemma_first_kind_same(a: SyntaxTree, b: SyntaxTree, s: Seq<int>, k: Seq<char>, j: int)
    requires
        same_shape(a, b),
        forall|y: int| 0 <= y < s.len() ==> 0 <= #[trigger] s[y] < a.size(),
    ensures
        a.first_kind_from(s, k, j) == b.first_kind_from(s, k, j),
        a.first_kind_from(s, k, j) matches Some(x) ==> 0 <= x < a.size(),
    decreases s.len() - j,
{
    if 0 <= j < s.len() {
        assert(0 <= s[j] < a.size());
        assert(a.kind(s[j]) == b.kind(s[j]));
        lemma_first_kind_same(a, b, s, k, j + 1);
    }
}

proof fn lemma_raw_texts_same(a: SyntaxTree, b: SyntaxTree, s: Seq<int>, j: int)
    requires
        a.wf(),
        b.wf(),
        same_shape(a, b),
        forall|y: int| 0 <= y < s.len() ==> 0 <= #[trigger] s[y] < a.size(),
    ensures
        script_raw_texts(&a, s, j) == script_raw_texts(&b, s, j),
        forall|y: int|
            0 <= y < script_raw_texts(&a, s, j).len() ==> 0 <= #[trigger] script_raw_texts(&a, s, j)[y] < a.size(),
    decreases s.len() - j,
{
    if 0 <= j < s.len() {
        let c = s[j];
        assert(0 <= c < a.size());
        lemma_kids_same(a, b, c, c + 1);
        lemma_first_kind_same(a, b, a.children(c), "raw_text"@, 0);
        assert(a.kind(c) == b.kind(c));
        assert(script_raw_text(&a, c) == script_raw_text(&b, c));
        lemma_raw_texts_same(a, b, s, j + 1);
        let rest = script_raw_texts(&a, s, j + 1);
        match script_raw_text(&a, c) {
            Some(r) => {
                assert(script_raw_texts(&a, s, j) == seq![r] + rest);
                assert forall|y: int| 0 <= y < script_raw_texts(&a, s, j).len() implies 0
                    <= #[trigger] script_raw_texts(&a, s, j)[y] < a.size() by {
                    if y > 0 {
                        assert(script_raw_texts(&a, s, j)[y] == rest[y - 1]);
                    }
                }
            },
            None => {},
        }
    }
}

/// Plain trees of the same shape have the same script text nodes, with the
/// same texts.
pub proof fn lemma_scripts_same(a: SyntaxTree, b: SyntaxTree, src: Seq<u8>)
    requires
        a.wf(),
        b.wf(),
        same_shape(a, b),
    ensures
        svelte_scripts(&a) == svelte_scripts(&b),
        scripts_unreadable(&a, src) <==> scripts_unreadable(&b, src),
{
    lemma_kids_same(a, b, 0, 1);
    lemma_raw_texts_same(a, b, a.children(0), 0);
    let sa = svelte_scripts(&a);
    assert forall|x: int| 0 <= x < sa.len() implies #[trigger] a.text(src, sa[x]) == b.text(src, sa[x]) by {
        assert(0 <= sa[x] < a.size());
    }
    if scripts_unreadable(&a, src) {
        let x = choose|x: int| 0 <= x < sa.len() && #[trigger] a.text(src, sa[x]) is None;
        assert(b.text(src, svelte_scripts(&b)[x]) is None);
    }
    if scripts_unreadable(&b, src) {
        let x = choose|x: int| 0 <= x < svelte_scripts(&b).len() && #[trigger] b.text(src, svelte_scripts(&b)[x]) is None;
        assert(a.text(src, sa[x]) == b.text(src, sa[x]));
    }
}

/// A well-formed plain tree of the Svelte parse of `source`.
pub open spec fn svelte_plain(source: Seq<char>) -> SyntaxTree {
    choose|t: SyntaxTree| t.wf() && plain_of(t, parse_nodes(Grammar::Svelte, source))
}

/// Some script text of the Svelte parse of `source` is not valid UTF-8.
pub open spec fn svelte_unreadable(source: Seq<char>) -> bool {
    scripts_unreadable(&svelte_plain(source), encode_utf8(source))
}

/// The number of script blocks of the Svelte parse of `source`.
pub open spec fn svelte_script_count(source: Seq<char>) -> int {
    svelte_scripts(&svelte_plain(source)).len() as int
}

/// Some script text node of `tree` is not valid UTF-8 in `src`.
pub open spec fn scripts_unreadable(tree: &SyntaxTree, src: Seq<u8>) -> bool {
    exists|x: int| 0 <= x < svelte_scripts(tree).len() && #[trigger] tree.text(src, svelte_scripts(tree)[x]) is None
}

/// `blk` was parsed from the text and row `t`.
pub open spec fn block_from(blk: ScriptBlock, t: (String, usize)) -> bool {
    &&& blk.wf()
    &&& blk.source@ == t.0@
    &&& blk.start_line == t.1
}

/// `t` is the text and row of script text node `raws[x]`.
pub open spec fn text_matches(tree: &SyntaxTree, src: Seq<u8>, raws: Seq<int>, x: int, t: (String, usize)) -> bool {
    &&& 0 <= raws[x] < tree.size()
    &&& tree.text(src, raws[x]) == Some(t.0@)
    &&& t.1 == tree.nodes@[raws[x]].start_row
}

/// The text and row of every script text node, or `None` when one of them
/// is not valid UTF-8.
fn script_texts(source: &str, tree: &SyntaxTree) -> (r: Option<Vec<(String, usize)>>)
    requires
        tree.wf(),
    ensures
        r matches Some(v) ==> v@.len() == svelte_scripts(tree).len(),
        r matches Some(v) ==> forall|x: int| 0 <= x < v@.len() ==> #[trigger] text_matches(tree, source.spec_bytes(), svelte_scripts(tree), x, v@[x]),
        r is None ==> exists|x: int|
            0 <= x < svelte_scripts(tree).len() && #[trigger] tree.text(
                source.spec_bytes(),
                svelte_scripts(tree)[x],
            ) is None,
{
    let bytes = source.as_bytes();
    let raws = script_text_nodes(tree);
    let ghost all = svelte_scripts(tree);
    let mut out: Vec<(String, usize)> = Vec::new();
    let mut b: usize = 0;
    while b < raws.len()
        invariant
            all == svelte_scripts(tree),
            bytes@ == source.spec_bytes(),
            raws@.len() == all.len(),
            forall|x: int| 0 <= x < raws@.len() ==> #[trigger] raws@[x] as int == all[x],
            forall|x: int| 0 <= x < raws@.len() ==> #[trigger] raws@[x] < tree.size(),
            b <= raws@.len(),
            out@.len() == b,
            forall|x: int| 0 <= x < b ==> #[trigger] text_matches(tree, source.spec_bytes(), all, x, out@[x]),
        decreases raws@.len() - b,
    {
        let raw = raws[b];
        match tree.node_text(raw, bytes) {
            Some(t) => {
                out.push((t, tree.nodes[raw].start_row));
            },
            None => {
                assert(raws@[b as int] as int == all[b as int]);
                assert(tree.text(source.spec_bytes(), svelte_scripts(tree)[b as int]) is None);
                return None;
            },
        }
        b = b + 1;
    }
    Some(out)
}

/// The script text nodes of a Svelte component, in order.
fn script_text_nodes(tree: &SyntaxTree) -> (r: Vec<usize>)
    requires
        tree.wf(),
    ensures
        r@.len() == svelte_scripts(tree).len(),
        forall|x: int| 0 <= x < r@.len() ==> #[trigger] r@[x] as int == svelte_scripts(tree)[x],
        forall|x: int| 0 <= x < r@.len() ==> #[trigger] r@[x] < tree.size(),
{
    let kids = tree.child_list(0);
    let ghost s = tree.children(0);
    let mut out: Vec<usize> = Vec::new();
    let ghost mut done: Seq<int> = seq![];
    let mut j: usize = 0;
    while j < kids.len()
        invariant
            tree.wf(),
            kids@.len() == s.len(),
            s == tree.children(0),
            forall|x: int| 0 <= x < kids@.len() ==> #[trigger] kids@[x] == s[x],
            forall|x: int| 0 <= x < kids@.len() ==> 0 < #[trigger] kids@[x] < tree.size(),
            j <= kids@.len(),
            svelte_scripts(tree) == done + script_raw_texts(tree, s, j as int),
            out@.len() == done.len(),
            forall|x: int| 0 <= x < out@.len() ==> #[trigger] out@[x] as int == done[x],
            forall|x: int| 0 <= x < out@.len() ==> #[trigger] out@[x] < tree.size(),
        decreases kids@.len() - j,
    {
        let c = kids[j];
        let ghost before = done;
        if tree.kind_is(c, "script_element") {
            match tree.find_child_of_kind(c, "raw_text") {
                None => {},
                Some(raw) => {
                    out.push(raw);
                    proof {
                        done = done.push(raw as int);
                        assert(before + script_raw_texts(tree, s, j as int) =~= done
                            + script_raw_texts(tree, s, j + 1));
                    }
                },
            }
        }
        j = j + 1;
    }
    proof {
        assert(done + script_raw_texts(tree, s, j as int) =~= done);
    }
    out
}

/// The blocks are the script blocks of the component with tree `t` and
/// source bytes `src`: one for each of its script text nodes, in order.
#[verifier::opaque]
pub open spec fn blocks_match(t: &SyntaxTree, src: Seq<u8>, blocks: Seq<ScriptBlock>) -> bool {
    &&& blocks.len() == svelte_scripts(t).len()
    &&& forall|b: int|
        0 <= b < blocks.len() ==> block_matches(t, src, svelte_scripts(t), b, #[trigger] blocks[b])
}

/// Block `b` of the blocks holds the text and row of script text node
/// `raws[b]`.
#[verifier::opaque]
pub open spec fn block_matches(t: &SyntaxTree, src: Seq<u8>, raws: Seq<int>, b: int, blk: ScriptBlock) -> bool {
    &&& blk.tree.wf()
    &&& 0 <= raws[b] < t.size()
    &&& t.text(src, raws[b]) == Some(blk.source@)
    &&& blk.start_line == t.nodes@[raws[b]].start_row
}

/// Parses one file's text. The tree is what tree-sitter gives for the
/// file's grammar; a Svelte component also gets its script blocks, each
/// re-parsed as TypeScript.
pub fn parse_source(source_file: &SourceFile, source: String) -> (r: Result<ParsedFile, Warning>)
    ensures
        r matches Ok(pf) ==> pf.wf(),
        r matches Ok(pf) ==> source_file.language == DetectedLanguage::Svelte ==> blocks_match(
            &pf.tree,
            encode_utf8(source@),
            pf.script_blocks@,
        ),
        r matches Ok(pf) ==> pf.source_file.path@ == source_file.path@
            && pf.source_file.language == source_file.language
            && pf.source_file.declaration_only == source_file.declaration_only && pf.source@
            == source@,
        r matches Ok(pf) ==> source_file.language != DetectedLanguage::Svelte
            ==> pf.script_blocks@.len() == 0,
        r matches Err(w) ==> w.path@ == source_file.path@,
        r matches Err(w) ==> parse_message(
            w.message@,
            source_file.language == DetectedLanguage::Svelte,
        ),
        source_file.language != DetectedLanguage::Svelte ==> (r is Ok <==> grammar_accepted(
            grammar_for(source_file.language),
        )),
        source_file.language == DetectedLanguage::Svelte ==> (r is Ok <==> grammar_accepted(Grammar::Svelte)
            && !svelte_unreadable(source@) && (svelte_script_count(source@) == 0 || grammar_accepted(
            Grammar::TypeScript,
        ))),
        source_file.language == DetectedLanguage::Svelte ==> ((r matches Err(w) && w.message@
            == SCRIPT_TEXT_MESSAGE@) <==> grammar_accepted(Grammar::Svelte) && svelte_unreadable(source@)),
        !grammar_accepted(grammar_for(source_file.language)) ==> (r matches Err(w) && w.message@
            == GRAMMAR_MESSAGE@),
{
    proof {
        reveal_strlit("tree-sitter refused the grammar");
        reveal_strlit("unable to extract script block text");
        assert(GRAMMAR_MESSAGE@[0] != SCRIPT_TEXT_MESSAGE@[0]);
    }
    let language = ts_language(source_file.language);
    let (ts_tree, tree) = match parse_with(&language, source.as_str()) {
        Ok(p) => p,
        Err(ParseFailure::Grammar) => {
            return Err(warning(&source_file.path, GRAMMAR_MESSAGE));
        },
        Err(ParseFailure::NoTree) => {
            return Err(warning(&source_file.path, NO_TREE_MESSAGE));
        },
    };
    proof {
        if source_file.language == DetectedLanguage::Svelte {
            let t = svelte_plain(source@);
            assert(tree.wf() && plain_of(tree, parse_nodes(Grammar::Svelte, source@)));
            assert(t.wf() && plain_of(t, parse_nodes(Grammar::Svelte, source@)));
            lemma_plain_same_shape(tree, t, parse_nodes(Grammar::Svelte, source@));
            lemma_scripts_same(tree, t, encode_utf8(source@));
        }
    }
    let script_blocks = if source_file.language == DetectedLanguage::Svelte {
        match extract_svelte_scripts(source.as_str(), &tree, &source_file.path) {
            Ok(b) => b,
            Err(w) => {
                return Err(w);
            },
        }
    } else {
        Vec::new()
    };
    Ok(
        ParsedFile {
            source_file: SourceFile {
                path: source_file.path.clone(),
                language: source_file.language,
                declaration_only: source_file.declaration_only,
            },
            source,
            tree,
            ts_tree,
            script_blocks,
        },
    )
}

/// A read's outcome as plain values.
pub open spec fn read_view(r: Result<String, String>) -> Result<Seq<char>, Seq<char>> {
    match r {
        Ok(t) => Ok(t@),
        Err(e) => Err(e@),
    }
}

/// The prefix of the warning for a file that could not be read.
pub const READ_FAILURE_PREFIX: &'static str = "unable to read file: ";

/// What reading and parsing a file gave: the parsed file, or the warning
/// that replaces it (path and text).
pub open spec fn outcome_ok(o: Result<ParsedFile, Warning>, sf: SourceFile, read: Result<Seq<char>, Seq<char>>) -> bool {
    match read {
        Err(e) => o matches Err(w) && w.path@ == sf.path@ && w.message@ == READ_FAILURE_PREFIX@ + e,
        Ok(text) => {
            &&& match o {
                Ok(pf) => pf.wf() && pf.source_file.path@ == sf.path@ && pf.source_file.language == sf.language
                    && pf.source_file.declaration_only == sf.declaration_only && pf.source@ == text
                    && grammar_accepted(grammar_for(sf.language)),
                Err(w) => w.path@ == sf.path@ && parse_message(w.message@, sf.language == DetectedLanguage::Svelte)
                    && (sf.language != DetectedLanguage::Svelte ==> !grammar_accepted(grammar_for(sf.language))),
            }
            &&& sf.language == DetectedLanguage::Svelte ==> (o is Ok <==> grammar_accepted(Grammar::Svelte)
                && !svelte_unreadable(text) && (svelte_script_count(text) == 0 || grammar_accepted(
                Grammar::TypeScript,
            )))
            &&& sf.language == DetectedLanguage::Svelte ==> ((o matches Err(w) && w.message@
                == SCRIPT_TEXT_MESSAGE@) <==> grammar_accepted(Grammar::Svelte) && svelte_unreadable(text))
        },
    }
}

/// Parses a file from what reading it gave: its text, or the reason it
/// could not be read.
pub fn parse_read_file(source_file: &SourceFile, contents: Result<String, String>) -> (r: Result<ParsedFile, Warning>)
    ensures
        outcome_ok(r, *source_file, read_view(contents)),
{
    match contents {
        Ok(text) => parse_source(source_file, text),
        Err(e) => {
            let mut m = crate::text::chars_of(READ_FAILURE_PREFIX);
            let mut x = crate::text::chars_of(e.as_str());
            m.append(&mut x);
            Err(Warning { path: source_file.path.clone(), message: crate::text::string_from_chars(&m) })
        },
    }
}

/// The parsed files among `outcomes`, in order.
pub open spec fn oks(outcomes: Seq<Result<ParsedFile, Warning>>) -> Seq<ParsedFile>
    decreases outcomes.len(),
{
    if outcomes.len() == 0 {
        seq![]
    } else {
        oks(outcomes.drop_last()) + match outcomes.last() {
            Ok(pf) => seq![pf],
            Err(_) => Seq::<ParsedFile>::empty(),
        }
    }
}

/// The warnings among `outcomes`, in order.
pub open spec fn errs(outcomes: Seq<Result<ParsedFile, Warning>>) -> Seq<Warning>
    decreases outcomes.len(),
{
    if outcomes.len() == 0 {
        seq![]
    } else {
        errs(outcomes.drop_last()) + match outcomes.last() {
            Ok(_) => Seq::<Warning>::empty(),
            Err(w) => seq![w],
        }
    }
}

/// Every outcome is either a parsed file or a warning: together they are
/// as many as the outcomes.
pub proof fn law_outcomes_split(outcomes: Seq<Result<ParsedFile, Warning>>)
    ensures
        oks(outcomes).len() + errs(outcomes).len() == outcomes.len(),
    decreases outcomes.len(),
{
    if outcomes.len() > 0 {
        law_outcomes_split(outcomes.drop_last());
    }
}

/// The paths of parsed files, in order.
pub open spec fn file_paths(files: Seq<ParsedFile>) -> Seq<Seq<char>> {
    files.map_values(|pf: ParsedFile| pf.source_file.path@)
}

/// The paths of warnings, in order.
pub open spec fn warning_paths(warnings: Seq<Warning>) -> Seq<Seq<char>> {
    warnings.map_values(|w: Warning| w.path@)
}

proof fn lemma_outcome_decided(a: Result<ParsedFile, Warning>, b: Result<ParsedFile, Warning>, sf: SourceFile, c: Result<Seq<char>, Seq<char>>)
    requires
        outcome_ok(a, sf, c),
        outcome_ok(b, sf, c),
    ensures
        a is Ok <==> b is Ok,
        a matches Ok(pa) ==> pa.source_file.path@ == sf.path@,
        b matches Ok(pb) ==> pb.source_file.path@ == sf.path@,
        a matches Err(wa) ==> wa.path@ == sf.path@,
        b matches Err(wb) ==> wb.path@ == sf.path@,
{
}

/// Reading and parsing the same files twice, each file read the same both
/// times, gives the same files parsed and the same files warned about, in
/// the same order; together they are as many as the files. So parsing the
/// files in parallel and one after the other agree whenever the files do not
/// change in between.
pub proof fn law_same_reads_same_split(
    files: Seq<SourceFile>,
    reads: Seq<Result<Seq<char>, Seq<char>>>,
    a: Seq<Result<ParsedFile, Warning>>,
    b: Seq<Result<ParsedFile, Warning>>,
)
    requires
        reads.len() == files.len(),
        a.len() == files.len(),
        b.len() == files.len(),
        forall|i: int| 0 <= i < files.len() ==> outcome_ok(#[trigger] a[i], files[i], reads[i]),
        forall|i: int| 0 <= i < files.len() ==> outcome_ok(#[trigger] b[i], files[i], reads[i]),
    ensures
        file_paths(oks(a)) == file_paths(oks(b)),
        warning_paths(errs(a)) == warning_paths(errs(b)),
        oks(a).len() == oks(b).len(),
        errs(a).len() == errs(b).len(),
        oks(a).len() + errs(a).len() == files.len(),
    decreases files.len(),
{
    law_outcomes_split(a);
    if files.len() > 0 {
        let n = files.len() - 1;
        assert forall|i: int| 0 <= i < n implies outcome_ok(#[trigger] a.drop_last()[i], files.drop_last()[i], reads.drop_last()[i]) by {
            assert(outcome_ok(a[i], files[i], reads[i]));
        }
        assert forall|i: int| 0 <= i < n implies outcome_ok(#[trigger] b.drop_last()[i], files.drop_last()[i], reads.drop_last()[i]) by {
            assert(outcome_ok(b[i], files[i], reads[i]));
        }
        law_same_reads_same_split(files.drop_last(), reads.drop_last(), a.drop_last(), b.drop_last());
        assert(outcome_ok(a[n], files[n], reads[n]));
        assert(outcome_ok(b[n], files[n], reads[n]));
        lemma_outcome_decided(a[n], b[n], files[n], reads[n]);
        let ea = match a.last() {
            Ok(pf) => seq![pf],
            Err(_) => Seq::<ParsedFile>::empty(),
        };
        let eb = match b.last() {
            Ok(pf) => seq![pf],
            Err(_) => Seq::<ParsedFile>::empty(),
        };
        let wa = match a.last() {
            Ok(_) => Seq::<Warning>::empty(),
            Err(w) => seq![w],
        };
        let wb = match b.last() {
            Ok(_) => Seq::<Warning>::empty(),
            Err(w) => seq![w],
        };
        assert(oks(a) == oks(a.drop_last()) + ea);
        assert(oks(b) == oks(b.drop_last()) + eb);
        assert(errs(a) == errs(a.drop_last()) + wa);
        assert(errs(b) == errs(b.drop_last()) + wb);
        assert(file_paths(oks(a)) =~= file_paths(oks(a.drop_last())) + file_paths(ea));
        assert(file_paths(oks(b)) =~= file_paths(oks(b.drop_last())) + file_paths(eb));
        assert(file_paths(ea) =~= file_paths(eb));
        assert(warning_paths(errs(a)) =~= warning_paths(errs(a.drop_last())) + warning_paths(wa));
        assert(warning_paths(errs(b)) =~= warning_paths(errs(b.drop_last())) + warning_paths(wb));
        assert(warning_paths(wa) =~= warning_paths(wb));
    }
}

/// Splits outcomes into the parsed files and the warnings, each in order.
pub fn partition_parsed(outcomes: Vec<Result<ParsedFile, Warning>>) -> (r: ParseResult)
    ensures
        r.files@ == oks(outcomes@),
        r.warnings@ == errs(outcomes@),
{
    let ghost orig = outcomes@;
    let n = outcomes.len();
    let mut rest = outcomes;
    let mut files: Vec<ParsedFile> = Vec::new();
    let mut warnings: Vec<Warning> = Vec::new();
    let mut i: usize = 0;
    while rest.len() > 0
        invariant
            n == orig.len(),
            i <= n,
            rest@ == orig.skip(i as int),
            files@ == oks(orig.take(i as int)),
            warnings@ == errs(orig.take(i as int)),
        decreases rest@.len(),
    {
        let o = rest.remove(0);
        proof {
            assert(orig.take(i + 1).drop_last() =~= orig.take(i as int));
            assert(o == orig[i as int]);
            assert(rest@ =~= orig.skip(i + 1));
        }
        match o {
            Ok(pf) => {
                files.push(pf);
            },
            Err(w) => {
                warnings.push(w);
            },
        }
        proof {
            assert(files@ =~= oks(orig.take(i + 1)));
            assert(warnings@ =~= errs(orig.take(i + 1)));
        }
        i = i + 1;
    }
    assert(orig.take(n as int) =~= orig);
    ParseResult { files, warnings }
}

/// The closure said `c` when asked for the file at `path`.
pub open spec fn read_said<F: Fn(&String) -> Result<String, String>>(read: F, path: Seq<char>, c: Result<Seq<char>, Seq<char>>) -> bool {
    exists|s: String, out: Result<String, String>|
        s@ == path && #[trigger] read.ensures((&s,), out) && c == read_view(out)
}

/// `o` is what reading and parsing `sf` gave, reading as `read` answered.
pub open spec fn parsed_from<F: Fn(&String) -> Result<String, String>>(o: Result<ParsedFile, Warning>, read: F, sf: SourceFile) -> bool {
    exists|c: Result<Seq<char>, Seq<char>>| read_said(read, sf.path@, c) && outcome_ok(o, sf, c)
}

/// Parses the files one after the other; `read` gives the text of a file
/// by its path relative to the root, or why it could not be read.
pub fn parse_files_sequential<F: Fn(&String) -> Result<String, String>>(source_files: &Vec<SourceFile>, read: &F) -> (r: ParseResult)
    requires
        forall|s: String| read.requires((&s,)),
    ensures
        exists|outcomes: Seq<Result<ParsedFile, Warning>>|
            outcomes.len() == source_files@.len() && r.files@ == oks(outcomes) && r.warnings@ == errs(outcomes)
                && forall|i: int| 0 <= i < outcomes.len() ==> parsed_from(#[trigger] outcomes[i], *read, source_files@[i]),
{
    let mut outcomes: Vec<Result<ParsedFile, Warning>> = Vec::new();
    let mut i: usize = 0;
    while i < source_files.len()
        invariant
            i <= source_files@.len(),
            forall|s: String| read.requires((&s,)),
            outcomes@.len() == i,
            forall|x: int| 0 <= x < i ==> parsed_from(#[trigger] outcomes@[x], *read, source_files@[x]),
        decreases source_files@.len() - i,
    {
        let sf = &source_files[i];
        let contents = read(&sf.path);
        let ghost c = read_view(contents);
        assert(read_said(*read, sf.path@, c));
        let o = parse_read_file(sf, contents);
        assert(parsed_from(o, *read, *sf));
        let ghost before = outcomes@;
        outcomes.push(o);
        proof {
            assert forall|x: int| 0 <= x < i + 1 implies parsed_from(#[trigger] outcomes@[x], *read, source_files@[x]) by {
                if x < i {
                    assert(outcomes@[x] == before[x]);
                }
            }
        }
        i = i + 1;
    }
    let ghost all = outcomes@;
    let r = partition_parsed(outcomes);
    assert(forall|x: int| 0 <= x < all.len() ==> parsed_from(#[trigger] all[x], *read, source_files@[x]));
    r
}

} // verus!
