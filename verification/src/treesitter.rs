//! The tree-sitter parser and query engine, and the conversion of its trees
//! into plain [`SyntaxTree`]s.
use streaming_iterator::StreamingIterator;
use tree_sitter::{Language, Parser, Query, QueryCursor, Tree};
use vstd::prelude::*;

use crate::syntax::{clamp_depth, NodeEntry, SyntaxTree};

verus! {

#[verifier::external_type_specification]
#[verifier::external_body]
pub struct ExLanguage(Language);

#[verifier::external_type_specification]
#[verifier::external_body]
pub struct ExParser(Parser);

#[verifier::external_type_specification]
#[verifier::external_body]
pub struct ExTree(Tree);

#[verifier::external_type_specification]
#[verifier::external_body]
pub struct ExQuery(Query);

#[verifier::external_type_specification]
#[verifier::external_body]
pub struct ExQueryCursor(QueryCursor);

/// The JavaScript grammar of `tree_sitter_javascript` (`Language::new`).
#[verifier::external_body]
pub fn language_javascript() -> Language {
    Language::new(tree_sitter_javascript::LANGUAGE)
}

/// The TypeScript grammar of `tree_sitter_typescript` (`Language::new`).
#[verifier::external_body]
pub fn language_typescript() -> Language {
    Language::new(tree_sitter_typescript::LANGUAGE_TYPESCRIPT)
}

/// The TSX grammar of `tree_sitter_typescript` (`Language::new`).
#[verifier::external_body]
pub fn language_tsx() -> Language {
    Language::new(tree_sitter_typescript::LANGUAGE_TSX)
}

/// The Svelte grammar of `tree_sitter_svelte_ng` (`Language::new`).
#[verifier::external_body]
pub fn language_svelte() -> Language {
    Language::new(tree_sitter_svelte_ng::LANGUAGE)
}

/// The grammars the library loads. JavaScript sources are parsed with the
/// TSX grammar.
#[derive(Clone, Copy, PartialEq, Eq, Structural)]
pub enum Grammar {
    JavaScript,
    TypeScript,
    Tsx,
    Svelte,
}

/// Whether `Parser::set_language` accepts grammar `g` (it refuses a
/// grammar whose ABI version this tree-sitter cannot read).
pub uninterp spec fn grammar_accepted(g: Grammar) -> bool;

/// Whether `Query::new` compiles query text `source` for grammar `g`.
pub uninterp spec fn query_compiles(g: Grammar, source: Seq<char>) -> bool;

/// `Query::capture_names` of query `source` compiled for grammar `g`: the
/// capture names, by capture index.
pub uninterp spec fn capture_names_of(g: Grammar, source: Seq<char>) -> Seq<Seq<char>>;

/// `QueryCursor::matches` of query `query` over the whole tree that grammar
/// `g` gives for `text`: every match in the order tree-sitter finds it,
/// each as its captures, (capture index, preorder index of the node).
pub uninterp spec fn query_matches(g: Grammar, query: Seq<char>, text: Seq<char>) -> Seq<Seq<(u32, int)>>;

/// A grammar, loaded.
pub struct LoadedGrammar {
    language: Language,
    grammar: Grammar,
}

impl LoadedGrammar {
    /// Which grammar this is.
    pub closed spec fn grammar(&self) -> Grammar {
        self.grammar
    }
}

/// Loads grammar `g`.
pub fn load_grammar(g: Grammar) -> (r: LoadedGrammar)
    ensures
        r.grammar() == g,
{
    let language = match g {
        Grammar::JavaScript => language_javascript(),
        Grammar::TypeScript => language_typescript(),
        Grammar::Tsx => language_tsx(),
        Grammar::Svelte => language_svelte(),
    };
    LoadedGrammar { language, grammar: g }
}

/// A parser, with the grammar it was given (none at first). It has no
/// timeout and no cancellation flag.
pub struct GrammarParser {
    parser: Parser,
    grammar: Option<Grammar>,
}

impl GrammarParser {
    /// The grammar the parser was given, if any.
    pub closed spec fn grammar(&self) -> Option<Grammar> {
        self.grammar
    }
}

/// `Parser::new`: a parser with no grammar set.
#[verifier::external_body]
fn new_parser() -> (r: GrammarParser)
    ensures
        r.grammar() is None,
{
    GrammarParser { parser: Parser::new(), grammar: None }
}

/// `Parser::set_language` with a loaded grammar: whether it was accepted.
/// It leaves the parser as it was when it refuses.
#[verifier::external_body]
fn set_parser_language(parser: &mut GrammarParser, lg: &LoadedGrammar) -> (r: bool)
    ensures
        r == grammar_accepted(lg.grammar()),
        final(parser).grammar() == old(parser).grammar(),
{
    parser.parser.set_language(&lg.language).is_ok()
}

/// Gives the parser grammar `lg`; whether it was accepted.
pub fn set_grammar(parser: &mut GrammarParser, lg: &LoadedGrammar) -> (ok: bool)
    ensures
        ok == grammar_accepted(lg.grammar()),
        final(parser).grammar() == if ok {
            Some(lg.grammar())
        } else {
            old(parser).grammar()
        },
{
    let ok = set_parser_language(parser, lg);
    if ok {
        parser.grammar = Some(lg.grammar);
    }
    ok
}

/// `Parser::parse` of `text` with no earlier tree. It returns no tree only
/// with no grammar set, on a timeout or on cancellation; this parser has
/// neither of the last two.
#[verifier::external_body]
fn parse_text(parser: &mut GrammarParser, text: &str) -> (r: Option<Tree>)
    ensures
        final(parser).grammar() == old(parser).grammar(),
        old(parser).grammar() is Some ==> r is Some,
{
    parser.parser.parse(text, None)
}

/// Why tree-sitter gave no tree.
pub enum ParseFailure {
    /// The parser refused the grammar.
    Grammar,
    /// The parser returned no tree.
    NoTree,
}

/// A tree-sitter tree with the grammar and text it was parsed from, and
/// (as a ghost) its plain form. Only `parse_source_tree` makes one.
pub struct SourceTree {
    tree: Tree,
    grammar: Grammar,
    text: String,
    plain: Ghost<SyntaxTree>,
}

impl SourceTree {
    /// The grammar the tree was parsed with.
    pub closed spec fn grammar(&self) -> Grammar {
        self.grammar
    }

    /// The text the tree was parsed from.
    pub closed spec fn text(&self) -> Seq<char> {
        self.text@
    }

    /// The plain form of the tree.
    pub closed spec fn plain(&self) -> SyntaxTree {
        self.plain@
    }

    /// The tree-sitter tree.
    pub fn tree(&self) -> &Tree {
        &self.tree
    }
}

/// Every node of `t` starts on a row no later than the one it ends on.
pub open spec fn rows_ordered(t: SyntaxTree) -> bool {
    forall|i: int| 0 <= i < t.size() ==> (#[trigger] t.nodes@[i]).start_row <= t.nodes@[i].end_row
}

/// Parses `text` with grammar `lg`: the tree-sitter tree and its plain
/// form. It fails only when tree-sitter refuses the grammar.
pub fn parse_source_tree(lg: &LoadedGrammar, text: &str) -> (r: Result<(SourceTree, SyntaxTree), ParseFailure>)
    ensures
        r is Ok <==> grammar_accepted(lg.grammar()),
        r matches Err(f) ==> f is Grammar,
        r matches Ok(p) ==> p.0.grammar() == lg.grammar() && p.0.text() == text@ && p.0.plain() == p.1 && p.1.wf()
            && plain_of(p.1, parse_nodes(lg.grammar(), text@)) && rows_ordered(p.1),
{
    let mut parser = new_parser();
    if !set_grammar(&mut parser, lg) {
        return Err(ParseFailure::Grammar);
    }
    match parse_text(&mut parser, text) {
        Some(tree) => {
            let mut st = SourceTree {
                tree,
                grammar: lg.grammar,
                text: String::from_str(text),
                plain: Ghost(arbitrary()),
            };
            let plain = syntax_tree_of(&st);
            st.plain = Ghost(plain);
            Ok((st, plain))
        },
        None => Err(ParseFailure::NoTree),
    }
}

/// A query compiled for a grammar, with its text.
pub struct CompiledQuery {
    query: Query,
    grammar: Grammar,
    source: String,
}

impl CompiledQuery {
    /// The grammar the query was compiled for.
    pub closed spec fn grammar(&self) -> Grammar {
        self.grammar
    }

    /// The query's text.
    pub closed spec fn source(&self) -> Seq<char> {
        self.source@
    }
}

/// `Query::new`: the query compiled for grammar `lg`, or `None` when the
/// text does not compile. Only the library's own query texts are compiled:
/// on a name error `Query::new` reads the byte before the error's offset,
/// which these texts never place at 0, and slices at that offset, which in
/// ASCII text is always a character boundary.
#[verifier::external_body]
fn new_query(lg: &LoadedGrammar, source: &str) -> (r: Option<Query>)
    requires
        crate::queries::library_query(source@),
    ensures
        r is Some <==> query_compiles(lg.grammar(), source@),
{
    Query::new(&lg.language, source).ok()
}

/// Compiles one of the library's query texts, `source`, for grammar `lg`.
pub fn compile_query(lg: &LoadedGrammar, source: &str) -> (r: Option<CompiledQuery>)
    requires
        crate::queries::library_query(source@),
    ensures
        r is Some <==> query_compiles(lg.grammar(), source@),
        r matches Some(q) ==> q.grammar() == lg.grammar() && q.source() == source@,
{
    match new_query(lg, source) {
        Some(query) => Some(CompiledQuery { query, grammar: lg.grammar, source: String::from_str(source) }),
        None => None,
    }
}

/// `Query::capture_names`: the capture names, indexed by capture index.
#[verifier::external_body]
fn query_capture_names(q: &CompiledQuery) -> (r: Vec<String>)
    ensures
        crate::resolve::strings_view(r@) == capture_names_of(q.grammar(), q.source()),
{
    q.query.capture_names().iter().map(|s| s.to_string()).collect()
}

/// The capture names of a compiled query, by capture index.
pub fn capture_names(q: &CompiledQuery) -> (r: Vec<String>)
    ensures
        crate::resolve::strings_view(r@) == capture_names_of(q.grammar(), q.source()),
{
    query_capture_names(q)
}

/// `QueryCursor::new`.
#[verifier::external_body]
fn new_query_cursor() -> QueryCursor {
    QueryCursor::new()
}

/// The matches `r`, as (capture index, node identifier) pairs, are the
/// matches `qm`, whose nodes are preorder indices into `t`: each node is
/// the one of `t` at that index, and no other node of `t` has its
/// identifier.
pub open spec fn ids_of_matches(r: Seq<Vec<(u32, usize)>>, qm: Seq<Seq<(u32, int)>>, t: SyntaxTree) -> bool {
    &&& r.len() == qm.len()
    &&& forall|m: int| 0 <= m < r.len() ==> (#[trigger] r[m])@.len() == qm[m].len()
    &&& forall|m: int, c: int|
        0 <= m < r.len() && 0 <= c < qm[m].len() ==> {
            &&& (#[trigger] r[m]@[c]).0 == qm[m][c].0
            &&& 0 <= qm[m][c].1 < t.size()
            &&& r[m]@[c].1 == t.nodes@[qm[m][c].1].id
            &&& forall|x: int| 0 <= x < t.size() && x != qm[m][c].1 ==> t.nodes@[x].id != r[m]@[c].1
        }
}

/// `QueryCursor::matches` of `q` over the whole tree of `st`, reading node
/// text from the text that tree was parsed from (so every node's byte range
/// lies within it): every match in the order tree-sitter finds it, each as
/// its captures, (capture index, node identifier) pairs. The nodes are
/// those of `query_matches`; the plain form of `st` lists the tree's nodes
/// in preorder, each with its identifier, which no other node of the tree
/// has.
#[verifier::external_body]
fn cursor_matches(cursor: &mut QueryCursor, q: &CompiledQuery, st: &SourceTree) -> (r: Vec<Vec<(u32, usize)>>)
    requires
        q.grammar() == st.grammar(),
    ensures
        ids_of_matches(r@, query_matches(q.grammar(), q.source(), st.text()), st.plain()),
{
    cursor
        .matches(&q.query, st.tree.root_node(), st.text.as_bytes())
        .map_deref(|m| m.captures.iter().map(|c| (c.index, c.node.id())).collect())
        .collect()
}

/// A node of a parse as plain values: kind, field name, whether named,
/// byte range, rows, depth below the root.
pub type NodeModel = (Seq<char>, Option<Seq<char>>, bool, usize, usize, usize, usize, usize);

/// The nodes, in preorder, of the tree that `Parser::parse` gives for
/// `text` with grammar `g`, each as plain values (identifiers aside).
pub uninterp spec fn parse_nodes(g: Grammar, text: Seq<char>) -> Seq<NodeModel>;

/// An entry as plain values, its identifier aside.
pub open spec fn entry_model(e: NodeEntry) -> NodeModel {
    (
        e.kind@,
        match e.field {
            Some(f) => Some(f@),
            None => None,
        },
        e.named,
        e.start_byte,
        e.end_byte,
        e.start_row,
        e.end_row,
        e.depth,
    )
}

/// `t` is the plain tree of the nodes `ns`: one node for each, in order,
/// with its fields and its depth made consistent.
pub open spec fn plain_of(t: SyntaxTree, ns: Seq<NodeModel>) -> bool {
    &&& t.size() == ns.len()
    &&& t.dep(0) == 0
    &&& forall|i: int| 0 < i < t.size() ==> #[trigger] t.dep(i) == clamp_depth(t.dep(i - 1), ns[i].7 as int)
    &&& forall|i: int|
        0 <= i < t.size() ==> {
            let n = #[trigger] t.nodes@[i];
            &&& n.kind@ == ns[i].0
            &&& match n.field {
                Some(f) => ns[i].1 == Some(f@),
                None => ns[i].1 is None,
            }
            &&& n.named == ns[i].2
            &&& n.start_byte == ns[i].3
            &&& n.end_byte == ns[i].4
            &&& n.start_row == ns[i].5
            &&& n.end_row == ns[i].6
        }
}

/// `Node::descendant_count` of the root of `st`'s tree: its number of
/// nodes.
#[verifier::external_body]
fn tree_node_count(st: &SourceTree) -> (r: usize)
    ensures
        r == parse_nodes(st.grammar(), st.text()).len(),
        r >= 1,
{
    st.tree.root_node().descendant_count()
}

/// The `i`-th node in preorder of `st`'s tree, as plain values and its
/// identifier: a cursor from the root (`Node::walk`) moved there with
/// `TreeCursor::goto_descendant`, read with `TreeCursor::field_name`,
/// `TreeCursor::depth`, `TreeCursor::node`, and the node's `kind`,
/// `is_named`, `start_byte`, `end_byte`, `start_position`, `end_position`
/// and `id`. A node's start comes no later than its end.
#[verifier::external_body]
fn tree_node_entry(st: &SourceTree, i: usize) -> (r: NodeEntry)
    requires
        i < parse_nodes(st.grammar(), st.text()).len(),
    ensures
        entry_model(r) == parse_nodes(st.grammar(), st.text())[i as int],
        r.start_byte <= r.end_byte,
        r.start_row <= r.end_row,
{
    let mut cursor = st.tree.root_node().walk();
    cursor.goto_descendant(i);
    let node = cursor.node();
    NodeEntry {
        kind: node.kind().to_string(),
        field: cursor.field_name().map(|f| f.to_string()),
        named: node.is_named(),
        start_byte: node.start_byte(),
        end_byte: node.end_byte(),
        start_row: node.start_position().row,
        end_row: node.end_position().row,
        depth: cursor.depth() as usize,
        id: node.id(),
    }
}

/// The plain tree of `st`'s tree: its nodes in preorder, with depths made
/// consistent (see [`SyntaxTree::build`]).
fn syntax_tree_of(st: &SourceTree) -> (t: SyntaxTree)
    ensures
        t.wf(),
        plain_of(t, parse_nodes(st.grammar(), st.text())),
        forall|i: int| 0 <= i < t.size() ==> (#[trigger] t.nodes@[i]).start_row <= t.nodes@[i].end_row,
{
    let count = tree_node_count(st);
    let ghost ns = parse_nodes(st.grammar(), st.text());
    let mut entries: Vec<NodeEntry> = Vec::new();
    let mut i: usize = 0;
    while i < count
        invariant
            i <= count,
            count == ns.len(),
            ns == parse_nodes(st.grammar(), st.text()),
            entries@.len() == i,
            forall|k: int| 0 <= k < i ==> entry_model(#[trigger] entries@[k]) == ns[k],
            forall|k: int| 0 <= k < i ==> (#[trigger] entries@[k]).start_row <= entries@[k].end_row,
        decreases count - i,
    {
        let e = tree_node_entry(st, i);
        entries.push(e);
        i = i + 1;
    }
    let t = SyntaxTree::build(entries);
    proof {
        assert forall|k: int| 0 < k < t.size() implies #[trigger] t.dep(k) == clamp_depth(t.dep(k - 1), ns[k].7 as int) by {
            assert(entry_model(entries@[k]) == ns[k]);
        }
        assert forall|k: int| 0 <= k < t.size() implies (#[trigger] t.nodes@[k]).start_row <= t.nodes@[k].end_row by {
            assert(entries@[k].start_row <= entries@[k].end_row);
        }
        assert forall|k: int| 0 <= k < t.size() implies {
            let n = #[trigger] t.nodes@[k];
            &&& n.kind@ == ns[k].0
            &&& match n.field {
                Some(f) => ns[k].1 == Some(f@),
                None => ns[k].1 is None,
            }
            &&& n.named == ns[k].2
            &&& n.start_byte == ns[k].3
            &&& n.end_byte == ns[k].4
            &&& n.start_row == ns[k].5
            &&& n.end_row == ns[k].6
        } by {
            assert(entry_model(entries@[k]) == ns[k]);
        }
    }
    t
}

/// One capture of a query match: the capture's name and the index of the
/// captured node in the plain tree.
pub struct Capture {
    pub name: String,
    pub node: usize,
}

/// The first index of a node with identifier `id`, if the tree has one.
pub open spec fn id_index(tree: &SyntaxTree, id: usize) -> Option<int> {
    if exists|k: int| 0 <= k < tree.size() && tree.nodes@[k].id == id {
        Some(
            choose|k: int|
                0 <= k < tree.size() && tree.nodes@[k].id == id && forall|x: int| 0 <= x < k ==> tree.nodes@[x].id != id,
        )
    } else {
        None
    }
}

/// Index of the node with identifier `id`, if the tree has one.
pub fn index_of_id(tree: &SyntaxTree, id: usize) -> (r: Option<usize>)
    ensures
        match r {
            Some(k) => k < tree.size() && tree.nodes@[k as int].id == id && forall|x: int|
                0 <= x < k ==> tree.nodes@[x].id != id,
            None => forall|x: int| 0 <= x < tree.size() ==> tree.nodes@[x].id != id,
        },
        match r {
            Some(k) => id_index(tree, id) == Some(k as int),
            None => id_index(tree, id) is None,
        },
{
    let mut k: usize = 0;
    while k < tree.nodes.len()
        invariant
            k <= tree.size(),
            forall|x: int| 0 <= x < k ==> tree.nodes@[x].id != id,
        decreases tree.size() - k,
    {
        if tree.nodes[k].id == id {
            proof {
                let f = choose|f: int|
                    0 <= f < tree.size() && tree.nodes@[f].id == id && forall|x: int| 0 <= x < f ==> tree.nodes@[x].id != id;
                assert(tree.nodes@[k as int].id == id);
                if f < k {
                    assert(tree.nodes@[f].id != id);
                }
                if k < f {
                    assert(tree.nodes@[k as int].id != id);
                }
            }
            return Some(k);
        }
        k = k + 1;
    }
    None
}

/// Every capture of every match names a node of `tree`.
pub open spec fn captures_in(tree: &SyntaxTree, matches: Seq<Vec<Capture>>) -> bool {
    forall|m: int, c: int|
        0 <= m < matches.len() && 0 <= c < matches[m]@.len() ==> #[trigger] matches[m]@[c].node
            < tree.size()
}

/// A capture as its name and node index.
pub open spec fn captures_view(v: Seq<Capture>) -> Seq<(Seq<char>, usize)> {
    v.map_values(|c: Capture| (c.name@, c.node))
}

/// The captures of one match, given as (capture index, node identifier)
/// pairs, each named by `names` and placed at the first node of `tree` with
/// that identifier; a capture whose index has no name, or whose node is
/// not in the tree, is left out.
pub open spec fn named_captures(names: Seq<Seq<char>>, caps: Seq<(u32, usize)>, tree: &SyntaxTree) -> Seq<(Seq<char>, usize)>
    decreases caps.len(),
{
    if caps.len() == 0 {
        seq![]
    } else {
        let c = caps.last();
        named_captures(names, caps.drop_last(), tree) + if c.0 < names.len() && id_index(tree, c.1) is Some {
            seq![(names[c.0 as int], id_index(tree, c.1)->0 as usize)]
        } else {
            Seq::<(Seq<char>, usize)>::empty()
        }
    }
}

/// Names and places the captures of each match: match `m` of the result
/// holds the named captures of `matches[m]`.
pub fn name_captures(names: &Vec<String>, matches: &Vec<Vec<(u32, usize)>>, tree: &SyntaxTree) -> (r: Vec<Vec<Capture>>)
    ensures
        r@.len() == matches@.len(),
        forall|m: int|
            0 <= m < r@.len() ==> captures_view((#[trigger] r@[m])@) == named_captures(
                crate::resolve::strings_view(names@),
                matches@[m]@,
                tree,
            ),
        captures_in(tree, r@),
{
    let ghost nv = crate::resolve::strings_view(names@);
    let mut out: Vec<Vec<Capture>> = Vec::new();
    let mut m: usize = 0;
    while m < matches.len()
        invariant
            m <= matches@.len(),
            out@.len() == m,
            nv == crate::resolve::strings_view(names@),
            forall|a: int| 0 <= a < m ==> captures_view((#[trigger] out@[a])@) == named_captures(nv, matches@[a]@, tree),
            captures_in(tree, out@),
        decreases matches@.len() - m,
    {
        let caps = &matches[m];
        let mut captures: Vec<Capture> = Vec::new();
        let mut c: usize = 0;
        while c < caps.len()
            invariant
                c <= caps@.len(),
                caps@ == matches@[m as int]@,
                nv == crate::resolve::strings_view(names@),
                forall|x: int| 0 <= x < captures@.len() ==> #[trigger] captures@[x].node < tree.size(),
                captures_view(captures@) == named_captures(nv, caps@.take(c as int), tree),
            decreases caps@.len() - c,
        {
            let (index, id) = caps[c];
            let ix = index as usize;
            let ghost before = captures@;
            proof {
                assert(caps@.take(c + 1).drop_last() =~= caps@.take(c as int));
                assert(caps@.take(c + 1).last() == caps@[c as int]);
            }
            if ix < names.len() {
                match index_of_id(tree, id) {
                    Some(k) => {
                        captures.push(Capture { name: names[ix].clone(), node: k });
                        proof {
                            assert(captures_view(captures@) =~= captures_view(before).push((nv[ix as int], k)));
                        }
                    },
                    None => {},
                }
            }
            proof {
                assert(captures_view(captures@) =~= named_captures(nv, caps@.take(c + 1), tree));
            }
            c = c + 1;
        }
        proof {
            assert(caps@.take(caps@.len() as int) =~= caps@);
        }
        let ghost before = out@;
        out.push(captures);
        proof {
            assert forall|a: int, x: int|
                0 <= a < out@.len() && 0 <= x < out@[a]@.len() implies #[trigger] out@[a]@[x].node
                < tree.size() by {
                if a < before.len() {
                    assert(out@[a] == before[a]);
                }
            }
            assert forall|a: int| 0 <= a < m + 1 implies captures_view((#[trigger] out@[a])@) == named_captures(
                nv,
                matches@[a]@,
                tree,
            ) by {
                if a < m {
                    assert(out@[a] == before[a]);
                }
            }
        }
        m = m + 1;
    }
    out
}

/// The captures of one match of a query's result, each named by its
/// capture index and placed at its preorder index; a capture whose index
/// has no name is left out.
pub open spec fn query_captures(names: Seq<Seq<char>>, caps: Seq<(u32, int)>) -> Seq<(Seq<char>, usize)>
    decreases caps.len(),
{
    if caps.len() == 0 {
        seq![]
    } else {
        let c = caps.last();
        query_captures(names, caps.drop_last()) + if (c.0 as int) < names.len() {
            seq![(names[c.0 as int], c.1 as usize)]
        } else {
            Seq::<(Seq<char>, usize)>::empty()
        }
    }
}

/// What query `query` of grammar `g` finds in `text`: its matches in
/// tree-sitter's order, each as its named captures.
pub open spec fn query_result(g: Grammar, query: Seq<char>, text: Seq<char>) -> Seq<Seq<(Seq<char>, usize)>> {
    let qm = query_matches(g, query, text);
    Seq::new(qm.len(), |m: int| query_captures(capture_names_of(g, query), qm[m]))
}

proof fn lemma_named_ids(names: Seq<Seq<char>>, ids: Seq<(u32, usize)>, qc: Seq<(u32, int)>, t: &SyntaxTree)
    requires
        ids.len() == qc.len(),
        forall|c: int|
            0 <= c < ids.len() ==> {
                &&& (#[trigger] ids[c]).0 == qc[c].0
                &&& 0 <= qc[c].1 < t.size()
                &&& ids[c].1 == t.nodes@[qc[c].1].id
                &&& forall|x: int| 0 <= x < t.size() && x != qc[c].1 ==> t.nodes@[x].id != ids[c].1
            },
    ensures
        named_captures(names, ids, t) == query_captures(names, qc),
    decreases ids.len(),
{
    if ids.len() > 0 {
        let n = ids.len() - 1;
        assert forall|c: int| 0 <= c < n implies {
            &&& (#[trigger] ids.drop_last()[c]).0 == qc.drop_last()[c].0
            &&& 0 <= qc.drop_last()[c].1 < t.size()
            &&& ids.drop_last()[c].1 == t.nodes@[qc.drop_last()[c].1].id
            &&& forall|x: int| 0 <= x < t.size() && x != qc.drop_last()[c].1 ==> t.nodes@[x].id != ids.drop_last()[c].1
        } by {
            assert(ids.drop_last()[c] == ids[c]);
            assert(qc.drop_last()[c] == qc[c]);
        }
        lemma_named_ids(names, ids.drop_last(), qc.drop_last(), t);
        let id = ids.last().1;
        let k = qc.last().1;
        assert(ids[n] == ids.last() && qc[n] == qc.last());
        assert(0 <= k < t.size() && t.nodes@[k].id == id);
        let f = choose|f: int|
            0 <= f < t.size() && t.nodes@[f].id == id && forall|x: int| 0 <= x < f ==> t.nodes@[x].id != id;
        if f != k {
            assert(t.nodes@[f].id != id);
        }
        assert(id_index(t, id) == Some(k));
    }
}

/// Runs query `query` over the tree of `st` (whose plain form is `tree`):
/// match `m` of the result holds the named captures of the `m`-th match
/// tree-sitter finds.
pub fn run_query(query: &CompiledQuery, st: &SourceTree, tree: &SyntaxTree) -> (r: Vec<Vec<Capture>>)
    requires
        query.grammar() == st.grammar(),
        *tree == st.plain(),
    ensures
        captures_in(tree, r@),
        r@.len() == query_result(query.grammar(), query.source(), st.text()).len(),
        forall|m: int|
            0 <= m < r@.len() ==> captures_view((#[trigger] r@[m])@) == query_result(
                query.grammar(),
                query.source(),
                st.text(),
            )[m],
{
    let names = query_capture_names(query);
    let mut cursor = new_query_cursor();
    let found = cursor_matches(&mut cursor, query, st);
    let r = name_captures(&names, &found, tree);
    proof {
        let qm = query_matches(query.grammar(), query.source(), st.text());
        let nv = crate::resolve::strings_view(names@);
        assert forall|m: int| 0 <= m < r@.len() implies captures_view((#[trigger] r@[m])@) == query_result(
            query.grammar(),
            query.source(),
            st.text(),
        )[m] by {
            assert forall|c: int| 0 <= c < found@[m]@.len() implies {
                &&& (#[trigger] found@[m]@[c]).0 == qm[m][c].0
                &&& 0 <= qm[m][c].1 < tree.size()
                &&& found@[m]@[c].1 == tree.nodes@[qm[m][c].1].id
                &&& forall|x: int| 0 <= x < tree.size() && x != qm[m][c].1 ==> tree.nodes@[x].id != found@[m]@[c].1
            } by {
                assert(found@[m]@[c] == found@[m]@[c]);
            }
            lemma_named_ids(nv, found@[m]@, qm[m], tree);
        }
    }
    r
}

} // verus!
