//! Symbols, imports and exports of a file, read from the matches of the
//! symbol queries.
use vstd::prelude::*;
use vstd::string::StringSliceAdditionalSpecFns;

use crate::complexity::{parent, parent_of, sat_usize, text_or_empty};
use crate::output::{Export, ExportKind, Import, ImportKind, Symbol, SymbolKind};
use crate::syntax::SyntaxTree;
use crate::text::{
    str_eq, chars_of, concat_chars, find_chars, find_from, has_prefix, string_from_chars, strip_prefix_chars,
    sub_chars, trim, trim_chars, trim_start_char, trim_start_char_chars,
};
use crate::complexity::blank_line_flags;
use crate::language::{file_name, file_stem, stem_of};
use crate::output::DetectedLanguage;
use crate::parse::{ParsedFile, ScriptBlock};
use crate::parse::grammar_for;
use crate::queries::{
    javascript_query, legacy_prop_query, rune_query, tsx_query, typescript_query, JAVASCRIPT_QUERY_SOURCE,
    LEGACY_PROP_QUERY_SOURCE, RUNE_QUERY_SOURCE, TYPESCRIPT_QUERY_SOURCE,
};
use crate::text::lines_of;
use crate::treesitter::{
    captures_view, load_grammar, query_compiles, query_result, run_query, Capture, CompiledQuery, Grammar,
    SourceTree,
};
use vstd::utf8::encode_utf8;

verus! {

/// Extracted symbols, imports, and exports from a single file.
pub struct FileSymbols {
    pub symbols: Vec<Symbol>,
    pub imports: Vec<Import>,
    pub exports: Vec<Export>,
}

/// A symbol as plain values: name, kind, first and last line, exported,
/// signature.
pub type SymbolModel = (Seq<char>, SymbolKind, int, int, bool, Option<Seq<char>>);

/// An import as plain values: source, specifiers, kind, line.
pub type ImportModel = (Seq<char>, Seq<Seq<char>>, ImportKind, int);

/// An export as plain values: name, kind, line, source.
pub type ExportModel = (Seq<char>, ExportKind, int, Option<Seq<char>>);

pub open spec fn opt_view(o: Option<String>) -> Option<Seq<char>> {
    match o {
        Some(s) => Some(s@),
        None => None,
    }
}

pub open spec fn views(v: Seq<String>) -> Seq<Seq<char>> {
    v.map_values(|s: String| s@)
}

impl Symbol {
    pub open spec fn model(&self) -> SymbolModel {
        (
            self.name@,
            self.kind,
            self.line as int,
            self.end_line as int,
            self.exported,
            opt_view(self.signature),
        )
    }
}

impl Import {
    pub open spec fn model(&self) -> ImportModel {
        (self.source@, views(self.specifiers@), self.kind, self.line as int)
    }
}

impl Export {
    pub open spec fn model(&self) -> ExportModel {
        (self.name@, self.kind, self.line as int, opt_view(self.source))
    }
}

pub open spec fn symbol_models(v: Seq<Symbol>) -> Seq<SymbolModel> {
    v.map_values(|s: Symbol| s.model())
}

pub open spec fn import_models(v: Seq<Import>) -> Seq<ImportModel> {
    v.map_values(|s: Import| s.model())
}

pub open spec fn export_models(v: Seq<Export>) -> Seq<ExportModel> {
    v.map_values(|s: Export| s.model())
}

// ---------------------------------------------------------------------------
// Text of names and sources
// ---------------------------------------------------------------------------

/// A quoted literal without its quotes: the text trimmed, and when it is at
/// least two characters long and starts and ends with the same kind of
/// quote (`"` or `'`), without the first and last character.
pub open spec fn unquote(s: Seq<char>) -> Seq<char> {
    let t = trim(s);
    if t.len() >= 2 && ((t[0] == '"' && t.last() == '"') || (t[0] == '\'' && t.last() == '\'')) {
        t.subrange(1, t.len() - 1)
    } else {
        t
    }
}

/// The trimmed text is a single quote character, on which `strip_quotes`
/// would slice past its end.
pub open spec fn lone_quote(s: Seq<char>) -> bool {
    trim(s).len() == 1 && (trim(s)[0] == '"' || trim(s)[0] == '\'')
}

fn unquote_chars(v: &Vec<char>) -> (r: Vec<char>)
    ensures
        r@ == unquote(v@),
{
    let t = trim_chars(v);
    let n = t.len();
    if n >= 2 && ((t[0] == '"' && t[n - 1] == '"') || (t[0] == '\'' && t[n - 1] == '\'')) {
        sub_chars(&t, 1, n - 1)
    } else {
        t
    }
}

/// Strip surrounding quotes from a string literal.
pub fn strip_quotes(s: &str) -> (r: String)
    requires
        !lone_quote(s@),
    ensures
        r@ == unquote(s@),
{
    let v = chars_of(s);
    string_from_chars(&unquote_chars(&v))
}

/// The name a specifier binds: the part after the first ` as `, or the
/// whole text, trimmed.
pub open spec fn alias_name(s: Seq<char>) -> Seq<char> {
    match find_from(s, " as "@, 0) {
        Some(k) => trim(s.skip(k + 4)),
        None => trim(s),
    }
}

fn alias_name_of(s: &String) -> (r: String)
    ensures
        r@ == alias_name(s@),
{
    let v = chars_of(s.as_str());
    proof {
        reveal_strlit(" as ");
    }
    let pat = " as ";
    let n = v.len();
    match find_chars(&v, pat) {
        Some(k) => {
            proof {
                crate::text::lemma_find_bound(v@, pat@, 0);
                assert(pat@.len() == 4);
                assert(k + 4 <= v@.len());
            }
            let rest = sub_chars(&v, k + 4, n);
            assert(rest@ =~= v@.skip(k + 4));
            string_from_chars(&trim_chars(&rest))
        },
        None => string_from_chars(&trim_chars(&v)),
    }
}

/// The name of a namespace import `* as name`, or the text as it is.
pub open spec fn namespace_name(s: Seq<char>) -> Seq<char> {
    if has_prefix(s, "* as "@) {
        trim(s.skip(5))
    } else {
        s
    }
}

fn namespace_name_of(s: &String) -> (r: String)
    ensures
        r@ == namespace_name(s@),
{
    let v = chars_of(s.as_str());
    proof {
        reveal_strlit("* as ");
    }
    match strip_prefix_chars(&v, "* as ") {
        Some(rest) => string_from_chars(&trim_chars(&rest)),
        None => s.clone(),
    }
}

/// A return type annotation without its colon: the text after a leading
/// `: `, or else the text with leading colons removed, trimmed.
pub open spec fn return_type_text(s: Seq<char>) -> Seq<char> {
    if has_prefix(s, ": "@) {
        s.skip(2)
    } else {
        trim(trim_start_char(s, ':'))
    }
}

fn return_type_of(s: &String) -> (r: Vec<char>)
    ensures
        r@ == return_type_text(s@),
{
    let v = chars_of(s.as_str());
    proof {
        reveal_strlit(": ");
    }
    match strip_prefix_chars(&v, ": ") {
        Some(rest) => rest,
        None => trim_chars(&trim_start_char_chars(&v, ':')),
    }
}

// ---------------------------------------------------------------------------
// Children
// ---------------------------------------------------------------------------

/// Some node of `s` has kind `k`.
pub open spec fn has_child_kind(t: &SyntaxTree, s: Seq<int>, k: Seq<char>) -> bool {
    exists|x: int| 0 <= x < s.len() && #[trigger] t.kind(s[x]) == k
}

/// Whether some child of `i` has kind `k`.
fn any_child_kind(t: &SyntaxTree, i: usize, k: &str) -> (r: bool)
    requires
        t.wf(),
        i < t.size(),
    ensures
        r == has_child_kind(t, t.children(i as int), k@),
{
    let kids = t.child_list(i);
    let ghost s = t.children(i as int);
    let mut j: usize = 0;
    while j < kids.len()
        invariant
            s == t.children(i as int),
            kids@.len() == s.len(),
            forall|x: int| 0 <= x < kids@.len() ==> #[trigger] kids@[x] == s[x],
            forall|x: int| 0 <= x < kids@.len() ==> #[trigger] kids@[x] < t.size(),
            j <= kids@.len(),
            forall|x: int| 0 <= x < j ==> #[trigger] t.kind(s[x]) != k@,
        decreases kids@.len() - j,
    {
        if t.kind_is(kids[j], k) {
            assert(t.kind(s[j as int]) == k@);
            return true;
        }
        j = j + 1;
    }
    false
}

/// Line of the first row of node `i`, one-based, moved down by `offset`.
pub open spec fn line_of(t: &SyntaxTree, i: int, offset: int) -> int {
    sat_usize(t.nodes@[i].start_row + 1 + offset)
}

/// Line of the last row of node `i`, one-based, moved down by `offset`.
pub open spec fn end_line_of(t: &SyntaxTree, i: int, offset: int) -> int {
    sat_usize(t.nodes@[i].end_row + 1 + offset)
}

fn line_at(t: &SyntaxTree, i: usize, offset: usize) -> (r: usize)
    requires
        i < t.size(),
    ensures
        r == line_of(t, i as int, offset as int),
{
    t.nodes[i].start_row.saturating_add(1).saturating_add(offset)
}

fn end_line_at(t: &SyntaxTree, i: usize, offset: usize) -> (r: usize)
    requires
        i < t.size(),
    ensures
        r == end_line_of(t, i as int, offset as int),
{
    t.nodes[i].end_row.saturating_add(1).saturating_add(offset)
}

fn text_at(t: &SyntaxTree, i: usize, src: &[u8]) -> (r: String)
    requires
        i < t.size(),
    ensures
        r@ == text_or_empty(t, src@, i as int),
{
    match t.node_text(i, src) {
        Some(s) => s,
        None => String::new(),
    }
}

fn push_string(out: &mut Vec<String>, s: String)
    ensures
        views(final(out)@) == views(old(out)@).push(s@),
{
    out.push(s);
    assert(views(final(out)@) =~= views(old(out)@).push(s@));
}

// ---------------------------------------------------------------------------
// Imports
// ---------------------------------------------------------------------------

/// The specifier of one child of a `named_imports` node.
pub open spec fn named_spec(t: &SyntaxTree, src: Seq<u8>, y: int) -> Seq<Seq<char>> {
    if t.kind(y) == "import_specifier"@ && t.text(src, y) is Some {
        seq![alias_name(t.text(src, y)->0)]
    } else {
        seq![]
    }
}

/// The specifiers of the children `s` of a `named_imports` node.
pub open spec fn named_specs(t: &SyntaxTree, src: Seq<u8>, s: Seq<int>) -> Seq<Seq<char>>
    decreases s.len(),
{
    if s.len() == 0 {
        seq![]
    } else {
        named_specs(t, src, s.drop_last()) + named_spec(t, src, s.last())
    }
}

/// The specifiers contributed by one child of an `import_clause`.
pub open spec fn clause_child_specs(t: &SyntaxTree, src: Seq<u8>, x: int) -> Seq<Seq<char>> {
    if t.kind(x) == "identifier"@ {
        match t.text(src, x) {
            Some(s) => seq![s],
            None => seq![],
        }
    } else if t.kind(x) == "namespace_import"@ {
        match t.text(src, x) {
            Some(s) => seq![namespace_name(s)],
            None => seq![],
        }
    } else if t.kind(x) == "named_imports"@ {
        named_specs(t, src, t.children(x))
    } else {
        seq![]
    }
}

/// The specifiers of the children `s` of an `import_clause`.
pub open spec fn clause_specs(t: &SyntaxTree, src: Seq<u8>, s: Seq<int>) -> Seq<Seq<char>>
    decreases s.len(),
{
    if s.len() == 0 {
        seq![]
    } else {
        clause_specs(t, src, s.drop_last()) + clause_child_specs(t, src, s.last())
    }
}

/// The specifiers of the import clauses among the children `s` of an
/// import statement.
pub open spec fn import_specs(t: &SyntaxTree, src: Seq<u8>, s: Seq<int>) -> Seq<Seq<char>>
    decreases s.len(),
{
    if s.len() == 0 {
        seq![]
    } else {
        import_specs(t, src, s.drop_last()) + (if t.kind(s.last()) == "import_clause"@ {
            clause_specs(t, src, t.children(s.last()))
        } else {
            seq![]
        })
    }
}

/// Some import clause of import statement `node` has a child of kind `k`.
pub open spec fn clause_has(t: &SyntaxTree, node: int, k: Seq<char>) -> bool {
    exists|x: int|
        0 <= x < t.children(node).len() && t.kind(t.children(node)[x]) == "import_clause"@
            && has_child_kind(t, t.children(#[trigger] t.children(node)[x]), k)
}

/// An import statement whose clause holds named imports (`{ ... }`) is never
/// a default import: a default import has a clause with a default binding
/// and no named imports. With a clause holding a default binding, no named
/// imports and no namespace import, an import that is not `import type` is
/// a default import.
pub proof fn law_default_import_has_no_named_imports(t: &SyntaxTree, src: Seq<u8>, i: int)
    ensures
        import_kind(t, src, i) == ImportKind::Default ==> forall|x: int, y: int|
            0 <= x < t.children(i).len() && t.kind(t.children(i)[x]) == "import_clause"@ && 0 <= y < t.children(
                t.children(i)[x],
            ).len() ==> t.kind(#[trigger] t.children(#[trigger] t.children(i)[x])[y]) != "named_imports"@,
        import_kind(t, src, i) == ImportKind::Default ==> exists|x: int, y: int|
            0 <= x < t.children(i).len() && t.kind(t.children(i)[x]) == "import_clause"@ && 0 <= y < t.children(
                t.children(i)[x],
            ).len() && t.kind(#[trigger] t.children(#[trigger] t.children(i)[x])[y]) == "identifier"@,
        (forall|x: int, y: int|
            0 <= x < t.children(i).len() && t.kind(t.children(i)[x]) == "import_clause"@ && 0 <= y < t.children(
                t.children(i)[x],
            ).len() ==> t.kind(#[trigger] t.children(#[trigger] t.children(i)[x])[y]) != "named_imports"@
                && t.kind(t.children(t.children(i)[x])[y]) != "namespace_import"@) && (exists|x: int, y: int|
            0 <= x < t.children(i).len() && t.kind(t.children(i)[x]) == "import_clause"@ && 0 <= y < t.children(
                t.children(i)[x],
            ).len() && t.kind(#[trigger] t.children(#[trigger] t.children(i)[x])[y]) == "identifier"@)
            && !has_prefix(text_or_empty(t, src, i), "import type "@) ==> import_kind(t, src, i)
            == ImportKind::Default,
{
    if import_kind(t, src, i) == ImportKind::Default {
        assert(!clause_has(t, i, "named_imports"@));
        assert(clause_has(t, i, "identifier"@));
        assert forall|x: int, y: int|
            0 <= x < t.children(i).len() && t.kind(t.children(i)[x]) == "import_clause"@ && 0 <= y < t.children(
                t.children(i)[x],
            ).len() implies t.kind(#[trigger] t.children(#[trigger] t.children(i)[x])[y]) != "named_imports"@ by {
            if t.kind(t.children(t.children(i)[x])[y]) == "named_imports"@ {
                assert(has_child_kind(t, t.children(t.children(i)[x]), "named_imports"@));
                assert(clause_has(t, i, "named_imports"@));
            }
        }
        let x = choose|x: int|
            0 <= x < t.children(i).len() && t.kind(t.children(i)[x]) == "import_clause"@ && has_child_kind(
                t,
                t.children(#[trigger] t.children(i)[x]),
                "identifier"@,
            );
        let y = choose|y: int| 0 <= y < t.children(t.children(i)[x]).len() && #[trigger] t.kind(t.children(t.children(i)[x])[y]) == "identifier"@;
        assert(t.kind(t.children(t.children(i)[x])[y]) == "identifier"@);
    }
    if (forall|x: int, y: int|
        0 <= x < t.children(i).len() && t.kind(t.children(i)[x]) == "import_clause"@ && 0 <= y < t.children(
            t.children(i)[x],
        ).len() ==> t.kind(#[trigger] t.children(#[trigger] t.children(i)[x])[y]) != "named_imports"@ && t.kind(
            t.children(t.children(i)[x])[y],
        ) != "namespace_import"@) && (exists|x: int, y: int|
        0 <= x < t.children(i).len() && t.kind(t.children(i)[x]) == "import_clause"@ && 0 <= y < t.children(
            t.children(i)[x],
        ).len() && t.kind(#[trigger] t.children(#[trigger] t.children(i)[x])[y]) == "identifier"@)
        && !has_prefix(text_or_empty(t, src, i), "import type "@) {
        let (x, y) = choose|x: int, y: int|
            0 <= x < t.children(i).len() && t.kind(t.children(i)[x]) == "import_clause"@ && 0 <= y < t.children(
                t.children(i)[x],
            ).len() && t.kind(#[trigger] t.children(#[trigger] t.children(i)[x])[y]) == "identifier"@;
        assert(has_child_kind(t, t.children(i), "import_clause"@));
        assert(has_child_kind(t, t.children(t.children(i)[x]), "identifier"@));
        assert(clause_has(t, i, "identifier"@));
        assert(!clause_has(t, i, "named_imports"@)) by {
            if clause_has(t, i, "named_imports"@) {
                let x2 = choose|x2: int|
                    0 <= x2 < t.children(i).len() && t.kind(t.children(i)[x2]) == "import_clause"@ && has_child_kind(
                        t,
                        t.children(#[trigger] t.children(i)[x2]),
                        "named_imports"@,
                    );
                let y2 = choose|y2: int| 0 <= y2 < t.children(t.children(i)[x2]).len() && #[trigger] t.kind(t.children(t.children(i)[x2])[y2]) == "named_imports"@;
                assert(t.kind(t.children(t.children(i)[x2])[y2]) != "named_imports"@);
            }
        }
        assert(!clause_has(t, i, "namespace_import"@)) by {
            if clause_has(t, i, "namespace_import"@) {
                let x2 = choose|x2: int|
                    0 <= x2 < t.children(i).len() && t.kind(t.children(i)[x2]) == "import_clause"@ && has_child_kind(
                        t,
                        t.children(#[trigger] t.children(i)[x2]),
                        "namespace_import"@,
                    );
                let y2 = choose|y2: int| 0 <= y2 < t.children(t.children(i)[x2]).len() && #[trigger] t.kind(t.children(t.children(i)[x2])[y2]) == "namespace_import"@;
                assert(t.kind(t.children(t.children(i)[x2])[y2]) != "namespace_import"@);
            }
        }
    }
}

/// An import statement whose clause holds named imports (`{ ... }`), with or
/// without a default binding, is a named import unless it is `import type`
/// or also has a namespace import. One with no clause at all imports for
/// its side effect only.
pub proof fn law_named_imports_are_named(t: &SyntaxTree, src: Seq<u8>, i: int, x: int, y: int)
    requires
        0 <= x < t.children(i).len(),
        t.kind(t.children(i)[x]) == "import_clause"@,
        0 <= y < t.children(t.children(i)[x]).len(),
        t.kind(t.children(t.children(i)[x])[y]) == "named_imports"@,
        !has_prefix(text_or_empty(t, src, i), "import type "@),
        forall|x2: int, y2: int|
            0 <= x2 < t.children(i).len() && t.kind(t.children(i)[x2]) == "import_clause"@ && 0 <= y2 < t.children(
                t.children(i)[x2],
            ).len() ==> t.kind(#[trigger] t.children(#[trigger] t.children(i)[x2])[y2]) != "namespace_import"@,
    ensures
        import_kind(t, src, i) == ImportKind::Named,
{
    assert(has_child_kind(t, t.children(i), "import_clause"@));
    assert(has_child_kind(t, t.children(t.children(i)[x]), "named_imports"@));
    assert(clause_has(t, i, "named_imports"@));
    assert(!clause_has(t, i, "namespace_import"@)) by {
        if clause_has(t, i, "namespace_import"@) {
            let x2 = choose|x2: int|
                0 <= x2 < t.children(i).len() && t.kind(t.children(i)[x2]) == "import_clause"@ && has_child_kind(
                    t,
                    t.children(#[trigger] t.children(i)[x2]),
                    "namespace_import"@,
                );
            let y2 = choose|y2: int| 0 <= y2 < t.children(t.children(i)[x2]).len() && #[trigger] t.kind(t.children(t.children(i)[x2])[y2]) == "namespace_import"@;
            assert(t.kind(t.children(t.children(i)[x2])[y2]) != "namespace_import"@);
        }
    }
}

/// An import statement with no `import_clause` child imports for its side
/// effect only, and has no specifiers.
pub proof fn law_clauseless_imports_are_side_effects(t: &SyntaxTree, src: Seq<u8>, i: int)
    requires
        forall|x: int| 0 <= x < t.children(i).len() ==> t.kind(#[trigger] t.children(i)[x]) != "import_clause"@,
    ensures
        import_kind(t, src, i) == ImportKind::SideEffect,
        import_specifiers(t, src, i).len() == 0,
{
}

/// The kind of import statement `node`: side effect without a clause, then
/// type-only, namespace, default (without named), or named.
pub open spec fn import_kind(t: &SyntaxTree, src: Seq<u8>, node: int) -> ImportKind {
    if !has_child_kind(t, t.children(node), "import_clause"@) {
        ImportKind::SideEffect
    } else if has_prefix(text_or_empty(t, src, node), "import type "@) {
        ImportKind::TypeOnly
    } else if clause_has(t, node, "namespace_import"@) {
        ImportKind::Namespace
    } else if clause_has(t, node, "identifier"@) && !clause_has(t, node, "named_imports"@) {
        ImportKind::Default
    } else {
        ImportKind::Named
    }
}

/// The specifiers of import statement `node`: none without a clause.
pub open spec fn import_specifiers(t: &SyntaxTree, src: Seq<u8>, node: int) -> Seq<Seq<char>> {
    if !has_child_kind(t, t.children(node), "import_clause"@) {
        seq![]
    } else {
        import_specs(t, src, t.children(node))
    }
}

fn named_import_specs(t: &SyntaxTree, src: &[u8], x: usize, specs: &mut Vec<String>)
    requires
        t.wf(),
        x < t.size(),
    ensures
        views(final(specs)@) == views(old(specs)@) + named_specs(t, src@, t.children(x as int)),
{
    let kids = t.child_list(x);
    let ghost s = t.children(x as int);
    let ghost start = views(specs@);
    let mut j: usize = 0;
    while j < kids.len()
        invariant
            kids@.len() == s.len(),
            forall|k: int| 0 <= k < kids@.len() ==> #[trigger] kids@[k] == s[k],
            forall|k: int| 0 <= k < kids@.len() ==> #[trigger] kids@[k] < t.size(),
            j <= kids@.len(),
            views(specs@) == start + named_specs(t, src@, s.take(j as int)),
        decreases kids@.len() - j,
    {
        let y = kids[j];
        proof {
            assert(s.take(j + 1).drop_last() =~= s.take(j as int));
            assert(s.take(j + 1).last() == s[j as int]);
        }
        if t.kind_is(y, "import_specifier") {
            match t.node_text(y, src) {
                Some(text) => {
                    push_string(specs, alias_name_of(&text));
                },
                None => {},
            }
        }
        j = j + 1;
    }
    assert(s.take(j as int) =~= s);
}

fn parse_import_clause_children(t: &SyntaxTree, src: &[u8], clause: usize, specs: &mut Vec<String>)
    requires
        t.wf(),
        clause < t.size(),
    ensures
        views(final(specs)@) == views(old(specs)@) + clause_specs(t, src@, t.children(clause as int)),
{
    let kids = t.child_list(clause);
    let ghost s = t.children(clause as int);
    let ghost start = views(specs@);
    let mut j: usize = 0;
    while j < kids.len()
        invariant
            t.wf(),
            kids@.len() == s.len(),
            forall|k: int| 0 <= k < kids@.len() ==> #[trigger] kids@[k] == s[k],
            forall|k: int| 0 <= k < kids@.len() ==> #[trigger] kids@[k] < t.size(),
            j <= kids@.len(),
            views(specs@) == start + clause_specs(t, src@, s.take(j as int)),
        decreases kids@.len() - j,
    {
        let x = kids[j];
        proof {
            assert(s.take(j + 1).drop_last() =~= s.take(j as int));
            assert(s.take(j + 1).last() == s[j as int]);
        }
        let ghost before = views(specs@);
        if t.kind_is(x, "identifier") {
            match t.node_text(x, src) {
                Some(text) => {
                    push_string(specs, text);
                },
                None => {},
            }
        } else if t.kind_is(x, "namespace_import") {
            match t.node_text(x, src) {
                Some(text) => {
                    push_string(specs, namespace_name_of(&text));
                },
                None => {},
            }
        } else if t.kind_is(x, "named_imports") {
            named_import_specs(t, src, x, specs);
        }
        assert(views(specs@) == before + clause_child_specs(t, src@, x as int));
        j = j + 1;
    }
    assert(s.take(j as int) =~= s);
}

/// Whether some import clause of `node` has a child of kind `k`.
fn clause_has_exec(t: &SyntaxTree, node: usize, k: &str) -> (r: bool)
    requires
        t.wf(),
        node < t.size(),
    ensures
        r == clause_has(t, node as int, k@),
{
    let kids = t.child_list(node);
    let ghost s = t.children(node as int);
    let mut j: usize = 0;
    while j < kids.len()
        invariant
            t.wf(),
            s == t.children(node as int),
            kids@.len() == s.len(),
            forall|x: int| 0 <= x < kids@.len() ==> #[trigger] kids@[x] == s[x],
            forall|x: int| 0 <= x < kids@.len() ==> #[trigger] kids@[x] < t.size(),
            j <= kids@.len(),
            forall|x: int|
                0 <= x < j ==> !(t.kind(s[x]) == "import_clause"@ && has_child_kind(
                    t,
                    t.children(#[trigger] s[x]),
                    k@,
                )),
        decreases kids@.len() - j,
    {
        let c = kids[j];
        if t.kind_is(c, "import_clause") && any_child_kind(t, c, k) {
            assert(t.kind(s[j as int]) == "import_clause"@ && has_child_kind(
                t,
                t.children(s[j as int]),
                k@,
            ));
            return true;
        }
        j = j + 1;
    }
    false
}

/// Parse the import clause of an import statement: its specifiers and kind.
fn parse_import_clause(t: &SyntaxTree, import_node: usize, src: &[u8]) -> (r: (Vec<String>, ImportKind))
    requires
        t.wf(),
        import_node < t.size(),
    ensures
        views(r.0@) == import_specifiers(t, src@, import_node as int),
        r.1 == import_kind(t, src@, import_node as int),
{
    let text = chars_of(text_at(t, import_node, src).as_str());
    let is_type_only = match strip_prefix_chars(&text, "import type ") {
        Some(_) => true,
        None => false,
    };
    if !any_child_kind(t, import_node, "import_clause") {
        let v: Vec<String> = Vec::new();
        assert(views(v@) =~= Seq::<Seq<char>>::empty());
        return (v, ImportKind::SideEffect);
    }
    let mut specifiers: Vec<String> = Vec::new();
    let kids = t.child_list(import_node);
    let ghost s = t.children(import_node as int);
    let mut j: usize = 0;
    assert(views(specifiers@) =~= import_specs(t, src@, s.take(0)));
    while j < kids.len()
        invariant
            t.wf(),
            kids@.len() == s.len(),
            forall|k: int| 0 <= k < kids@.len() ==> #[trigger] kids@[k] == s[k],
            forall|k: int| 0 <= k < kids@.len() ==> #[trigger] kids@[k] < t.size(),
            j <= kids@.len(),
            views(specifiers@) == import_specs(t, src@, s.take(j as int)),
        decreases kids@.len() - j,
    {
        let c = kids[j];
        proof {
            assert(s.take(j + 1).drop_last() =~= s.take(j as int));
            assert(s.take(j + 1).last() == s[j as int]);
        }
        if t.kind_is(c, "import_clause") {
            parse_import_clause_children(t, src, c, &mut specifiers);
        }
        j = j + 1;
    }
    assert(s.take(j as int) =~= s);
    let kind = if is_type_only {
        ImportKind::TypeOnly
    } else if clause_has_exec(t, import_node, "namespace_import") {
        ImportKind::Namespace
    } else if clause_has_exec(t, import_node, "identifier") && !clause_has_exec(
        t,
        import_node,
        "named_imports",
    ) {
        ImportKind::Default
    } else {
        ImportKind::Named
    };
    (specifiers, kind)
}


// ---------------------------------------------------------------------------
// Exports
// ---------------------------------------------------------------------------

/// The source of an export statement: its first `string` child, unquoted.
pub open spec fn export_source(t: &SyntaxTree, src: Seq<u8>, node: int) -> Option<Seq<char>> {
    match t.child_of_kind(node, "string"@) {
        Some(c) => match t.text(src, c) {
            Some(x) => Some(unquote(x)),
            None => None,
        },
        None => None,
    }
}

fn extract_export_source(t: &SyntaxTree, node: usize, src: &[u8]) -> (r: Option<String>)
    requires
        t.wf(),
        node < t.size(),
    ensures
        opt_view(r) == export_source(t, src@, node as int),
{
    match t.find_child_of_kind(node, "string") {
        Some(c) => match t.node_text(c, src) {
            Some(x) => Some(string_from_chars(&unquote_chars(&chars_of(x.as_str())))),
            None => None,
        },
        None => None,
    }
}

/// The exports of the children `s` of an `export_clause`.
pub open spec fn clause_exports(
    t: &SyntaxTree,
    src: Seq<u8>,
    s: Seq<int>,
    line: int,
    kind: ExportKind,
    source: Option<Seq<char>>,
) -> Seq<ExportModel>
    decreases s.len(),
{
    if s.len() == 0 {
        seq![]
    } else {
        clause_exports(t, src, s.drop_last(), line, kind, source) + (if t.kind(s.last())
            == "export_specifier"@ && t.text(src, s.last()) is Some {
            seq![(alias_name(t.text(src, s.last())->0), kind, line, source)]
        } else {
            seq![]
        })
    }
}

/// The export of one child of a variable declaration: the first identifier
/// of a `variable_declarator`, when its text can be read.
pub open spec fn declarator_export(
    t: &SyntaxTree,
    src: Seq<u8>,
    d: int,
    line: int,
    kind: ExportKind,
) -> Seq<ExportModel> {
    if t.kind(d) == "variable_declarator"@ {
        match t.child_of_kind(d, "identifier"@) {
            Some(id) => match t.text(src, id) {
                Some(x) => seq![(x, kind, line, None)],
                None => seq![],
            },
            None => seq![],
        }
    } else {
        seq![]
    }
}

/// The exports of the children `s` of a variable declaration.
pub open spec fn declarator_exports(
    t: &SyntaxTree,
    src: Seq<u8>,
    s: Seq<int>,
    line: int,
    kind: ExportKind,
) -> Seq<ExportModel>
    decreases s.len(),
{
    if s.len() == 0 {
        seq![]
    } else {
        declarator_exports(t, src, s.drop_last(), line, kind) + declarator_export(
            t,
            src,
            s.last(),
            line,
            kind,
        )
    }
}

/// Declarations that export their name inline (`export function f`).
pub open spec fn is_inline_decl_kind(k: Seq<char>) -> bool {
    ||| k == "function_declaration"@
    ||| k == "generator_function_declaration"@
    ||| k == "class_declaration"@
    ||| k == "abstract_class_declaration"@
    ||| k == "interface_declaration"@
    ||| k == "type_alias_declaration"@
    ||| k == "enum_declaration"@
}

fn is_inline_decl_kind_exec(t: &SyntaxTree, c: usize) -> (r: bool)
    requires
        c < t.size(),
    ensures
        r == is_inline_decl_kind(t.kind(c as int)),
{
    t.kind_is(c, "function_declaration") || t.kind_is(c, "generator_function_declaration")
        || t.kind_is(c, "class_declaration") || t.kind_is(c, "abstract_class_declaration")
        || t.kind_is(c, "interface_declaration") || t.kind_is(c, "type_alias_declaration")
        || t.kind_is(c, "enum_declaration")
}

/// The first node of `s` from position `j` on that is an identifier or a
/// type identifier.
pub open spec fn first_name_node(t: &SyntaxTree, s: Seq<int>, j: int) -> Option<int>
    decreases s.len() - j,
{
    if 0 <= j < s.len() {
        if t.kind(s[j]) == "identifier"@ || t.kind(s[j]) == "type_identifier"@ {
            Some(s[j])
        } else {
            first_name_node(t, s, j + 1)
        }
    } else {
        None
    }
}

/// The name of a declaration: the text of its first identifier child.
pub open spec fn declaration_name(t: &SyntaxTree, src: Seq<u8>, c: int) -> Option<Seq<char>> {
    match first_name_node(t, t.children(c), 0) {
        Some(x) => t.text(src, x),
        None => None,
    }
}

/// Extract the name from a declaration node (function, class, interface,
/// type, enum).
fn extract_declaration_name(t: &SyntaxTree, node: usize, src: &[u8]) -> (r: Option<String>)
    requires
        t.wf(),
        node < t.size(),
    ensures
        opt_view(r) == declaration_name(t, src@, node as int),
{
    let kids = t.child_list(node);
    let ghost s = t.children(node as int);
    let mut j: usize = 0;
    while j < kids.len()
        invariant
            s == t.children(node as int),
            kids@.len() == s.len(),
            forall|k: int| 0 <= k < kids@.len() ==> #[trigger] kids@[k] == s[k],
            forall|k: int| 0 <= k < kids@.len() ==> #[trigger] kids@[k] < t.size(),
            j <= kids@.len(),
            first_name_node(t, s, 0) == first_name_node(t, s, j as int),
        decreases kids@.len() - j,
    {
        let c = kids[j];
        if t.kind_is(c, "identifier") || t.kind_is(c, "type_identifier") {
            return t.node_text(c, src);
        }
        j = j + 1;
    }
    None
}

/// The exports of one child of an export statement.
pub open spec fn export_child(
    t: &SyntaxTree,
    src: Seq<u8>,
    c: int,
    line: int,
    ckind: ExportKind,
    dkind: ExportKind,
    source: Option<Seq<char>>,
) -> Seq<ExportModel> {
    if t.kind(c) == "export_clause"@ {
        clause_exports(t, src, t.children(c), line, ckind, source)
    } else if is_inline_decl_kind(t.kind(c)) {
        match declaration_name(t, src, c) {
            Some(n) => seq![(n, dkind, line, None)],
            None => seq![],
        }
    } else if t.kind(c) == "lexical_declaration"@ || t.kind(c) == "variable_declaration"@ {
        declarator_exports(t, src, t.children(c), line, dkind)
    } else {
        seq![]
    }
}

/// The exports of the children `s` of an export statement.
pub open spec fn export_children(
    t: &SyntaxTree,
    src: Seq<u8>,
    s: Seq<int>,
    line: int,
    ckind: ExportKind,
    dkind: ExportKind,
    source: Option<Seq<char>>,
) -> Seq<ExportModel>
    decreases s.len(),
{
    if s.len() == 0 {
        seq![]
    } else {
        export_children(t, src, s.drop_last(), line, ckind, dkind, source) + export_child(
            t,
            src,
            s.last(),
            line,
            ckind,
            dkind,
            source,
        )
    }
}

/// Kind of the names of an export clause: type-only, re-export (with a
/// source), default, or named.
pub open spec fn clause_export_kind(type_only: bool, has_source: bool, has_default: bool) -> ExportKind {
    if type_only {
        ExportKind::TypeOnly
    } else if has_source {
        ExportKind::ReExport
    } else if has_default {
        ExportKind::Default
    } else {
        ExportKind::Named
    }
}

/// Kind of an inline exported declaration: type-only, default, or named.
pub open spec fn decl_export_kind(type_only: bool, has_default: bool) -> ExportKind {
    if type_only {
        ExportKind::TypeOnly
    } else if has_default {
        ExportKind::Default
    } else {
        ExportKind::Named
    }
}

/// The exports of export statement `node`: the names of its export clause
/// or inline declaration, then `*` for a star re-export, or `default`
/// alone for a default export that names nothing.
pub open spec fn export_statement(t: &SyntaxTree, src: Seq<u8>, node: int, offset: int) -> Seq<
    ExportModel,
> {
    let line = line_of(t, node, offset);
    let type_only = has_prefix(text_or_empty(t, src, node), "export type "@);
    let kids = t.children(node);
    let has_default = has_child_kind(t, kids, "default"@);
    let has_source = has_child_kind(t, kids, "string"@);
    let has_star = has_child_kind(t, kids, "*"@);
    let source = export_source(t, src, node);
    let main = export_children(
        t,
        src,
        kids,
        line,
        clause_export_kind(type_only, has_source, has_default),
        decl_export_kind(type_only, has_default),
        source,
    );
    let with_star = if has_star && has_source {
        main.push(("*"@, ExportKind::StarReExport, line, source))
    } else {
        main
    };
    if has_default && with_star.len() == 0 {
        seq![("default"@, ExportKind::Default, line, None)]
    } else {
        with_star
    }
}

fn push_export(out: &mut Vec<Export>, e: Export)
    ensures
        export_models(final(out)@) == export_models(old(out)@).push(e.model()),
{
    out.push(e);
    assert(export_models(final(out)@) =~= export_models(old(out)@).push(e.model()));
}

fn clone_opt(o: &Option<String>) -> (r: Option<String>)
    ensures
        opt_view(r) == opt_view(*o),
{
    match o {
        Some(s) => Some(s.clone()),
        None => None,
    }
}

fn clause_exports_exec(
    t: &SyntaxTree,
    src: &[u8],
    c: usize,
    line: usize,
    kind: ExportKind,
    source: &Option<String>,
    out: &mut Vec<Export>,
)
    requires
        t.wf(),
        c < t.size(),
    ensures
        export_models(final(out)@) == export_models(old(out)@) + clause_exports(
            t,
            src@,
            t.children(c as int),
            line as int,
            kind,
            opt_view(*source),
        ),
{
    let kids = t.child_list(c);
    let ghost s = t.children(c as int);
    let ghost start = export_models(out@);
    let mut j: usize = 0;
    while j < kids.len()
        invariant
            kids@.len() == s.len(),
            forall|k: int| 0 <= k < kids@.len() ==> #[trigger] kids@[k] == s[k],
            forall|k: int| 0 <= k < kids@.len() ==> #[trigger] kids@[k] < t.size(),
            j <= kids@.len(),
            export_models(out@) == start + clause_exports(
                t,
                src@,
                s.take(j as int),
                line as int,
                kind,
                opt_view(*source),
            ),
        decreases kids@.len() - j,
    {
        let x = kids[j];
        proof {
            assert(s.take(j + 1).drop_last() =~= s.take(j as int));
            assert(s.take(j + 1).last() == s[j as int]);
        }
        if t.kind_is(x, "export_specifier") {
            match t.node_text(x, src) {
                Some(text) => {
                    push_export(
                        out,
                        Export { name: alias_name_of(&text), kind, line, source: clone_opt(source) },
                    );
                },
                None => {},
            }
        }
        j = j + 1;
    }
    assert(s.take(j as int) =~= s);
}

fn declarator_exports_exec(
    t: &SyntaxTree,
    src: &[u8],
    c: usize,
    line: usize,
    kind: ExportKind,
    out: &mut Vec<Export>,
)
    requires
        t.wf(),
        c < t.size(),
    ensures
        export_models(final(out)@) == export_models(old(out)@) + declarator_exports(
            t,
            src@,
            t.children(c as int),
            line as int,
            kind,
        ),
{
    let kids = t.child_list(c);
    let ghost s = t.children(c as int);
    let ghost start = export_models(out@);
    let mut j: usize = 0;
    while j < kids.len()
        invariant
            t.wf(),
            kids@.len() == s.len(),
            forall|k: int| 0 <= k < kids@.len() ==> #[trigger] kids@[k] == s[k],
            forall|k: int| 0 <= k < kids@.len() ==> #[trigger] kids@[k] < t.size(),
            j <= kids@.len(),
            export_models(out@) == start + declarator_exports(
                t,
                src@,
                s.take(j as int),
                line as int,
                kind,
            ),
        decreases kids@.len() - j,
    {
        let d = kids[j];
        proof {
            assert(s.take(j + 1).drop_last() =~= s.take(j as int));
            assert(s.take(j + 1).last() == s[j as int]);
        }
        if t.kind_is(d, "variable_declarator") {
            match t.find_child_of_kind(d, "identifier") {
                Some(id) => match t.node_text(id, src) {
                    Some(name) => {
                        push_export(out, Export { name, kind, line, source: None });
                    },
                    None => {},
                },
                None => {},
            }
        }
        j = j + 1;
    }
    assert(s.take(j as int) =~= s);
}

/// Parse an export statement node into its export entries.
fn parse_export_statement(t: &SyntaxTree, export_node: usize, src: &[u8], line_offset: usize) -> (r: Vec<
    Export,
>)
    requires
        t.wf(),
        export_node < t.size(),
    ensures
        export_models(r@) == export_statement(t, src@, export_node as int, line_offset as int),
{
    let mut exports: Vec<Export> = Vec::new();
    let line = line_at(t, export_node, line_offset);
    let text = chars_of(text_at(t, export_node, src).as_str());
    let is_type_only = match strip_prefix_chars(&text, "export type ") {
        Some(_) => true,
        None => false,
    };
    let has_default = any_child_kind(t, export_node, "default");
    let has_source = any_child_kind(t, export_node, "string");
    let has_star = any_child_kind(t, export_node, "*");
    let source = extract_export_source(t, export_node, src);
    let ckind = if is_type_only {
        ExportKind::TypeOnly
    } else if has_source {
        ExportKind::ReExport
    } else if has_default {
        ExportKind::Default
    } else {
        ExportKind::Named
    };
    let dkind = if is_type_only {
        ExportKind::TypeOnly
    } else if has_default {
        ExportKind::Default
    } else {
        ExportKind::Named
    };
    let kids = t.child_list(export_node);
    let ghost s = t.children(export_node as int);
    let mut j: usize = 0;
    assert(export_models(exports@) =~= export_children(
        t,
        src@,
        s.take(0),
        line as int,
        ckind,
        dkind,
        opt_view(source),
    ));
    while j < kids.len()
        invariant
            t.wf(),
            kids@.len() == s.len(),
            forall|k: int| 0 <= k < kids@.len() ==> #[trigger] kids@[k] == s[k],
            forall|k: int| 0 <= k < kids@.len() ==> #[trigger] kids@[k] < t.size(),
            j <= kids@.len(),
            export_models(exports@) == export_children(
                t,
                src@,
                s.take(j as int),
                line as int,
                ckind,
                dkind,
                opt_view(source),
            ),
        decreases kids@.len() - j,
    {
        let c = kids[j];
        proof {
            assert(s.take(j + 1).drop_last() =~= s.take(j as int));
            assert(s.take(j + 1).last() == s[j as int]);
        }
        let ghost before = export_models(exports@);
        if t.kind_is(c, "export_clause") {
            clause_exports_exec(t, src, c, line, ckind, &source, &mut exports);
        } else if is_inline_decl_kind_exec(t, c) {
            match extract_declaration_name(t, c, src) {
                Some(name) => {
                    push_export(&mut exports, Export { name, kind: dkind, line, source: None });
                },
                None => {},
            }
        } else if t.kind_is(c, "lexical_declaration") || t.kind_is(c, "variable_declaration") {
            declarator_exports_exec(t, src, c, line, dkind, &mut exports);
        }
        assert(export_models(exports@) == before + export_child(
            t,
            src@,
            c as int,
            line as int,
            ckind,
            dkind,
            opt_view(source),
        ));
        j = j + 1;
    }
    assert(s.take(j as int) =~= s);
    if has_star && has_source {
        push_export(
            &mut exports,
            Export {
                name: String::from_str("*"),
                kind: ExportKind::StarReExport,
                line,
                source: clone_opt(&source),
            },
        );
    }
    if has_default && exports.len() == 0 {
        push_export(
            &mut exports,
            Export { name: String::from_str("default"), kind: ExportKind::Default, line, source: None },
        );
    }
    exports
}


// ---------------------------------------------------------------------------
// Signatures
// ---------------------------------------------------------------------------

/// The first node of `s` from `j` on that is an arrow function or a
/// function expression.
pub open spec fn first_fn_node(t: &SyntaxTree, s: Seq<int>, j: int) -> Option<int>
    decreases s.len() - j,
{
    if 0 <= j < s.len() {
        if t.kind(s[j]) == "arrow_function"@ || t.kind(s[j]) == "function_expression"@ {
            Some(s[j])
        } else {
            first_fn_node(t, s, j + 1)
        }
    } else {
        None
    }
}

/// The function value of the first declarator among `s` (from `j` on) that
/// holds one.
pub open spec fn fn_in_declarators(t: &SyntaxTree, s: Seq<int>, j: int) -> Option<int>
    decreases s.len() - j,
{
    if 0 <= j < s.len() {
        if t.kind(s[j]) == "variable_declarator"@ && first_fn_node(t, t.children(s[j]), 0) is Some {
            first_fn_node(t, t.children(s[j]), 0)
        } else {
            fn_in_declarators(t, s, j + 1)
        }
    } else {
        None
    }
}

/// The function node of a declaration: for a variable declaration, the
/// function value of its first declarator that holds one; else the node.
pub open spec fn function_node(t: &SyntaxTree, node: int) -> int {
    if t.kind(node) == "lexical_declaration"@ || t.kind(node) == "variable_declaration"@ {
        match fn_in_declarators(t, t.children(node), 0) {
            Some(f) => f,
            None => node,
        }
    } else {
        node
    }
}

fn first_fn_child(t: &SyntaxTree, d: usize) -> (r: Option<usize>)
    requires
        t.wf(),
        d < t.size(),
    ensures
        match r {
            Some(f) => first_fn_node(t, t.children(d as int), 0) == Some(f as int) && f < t.size(),
            None => first_fn_node(t, t.children(d as int), 0) is None,
        },
{
    let kids = t.child_list(d);
    let ghost s = t.children(d as int);
    let mut j: usize = 0;
    while j < kids.len()
        invariant
            s == t.children(d as int),
            kids@.len() == s.len(),
            forall|k: int| 0 <= k < kids@.len() ==> #[trigger] kids@[k] == s[k],
            forall|k: int| 0 <= k < kids@.len() ==> #[trigger] kids@[k] < t.size(),
            j <= kids@.len(),
            first_fn_node(t, s, 0) == first_fn_node(t, s, j as int),
        decreases kids@.len() - j,
    {
        let c = kids[j];
        if t.kind_is(c, "arrow_function") || t.kind_is(c, "function_expression") {
            return Some(c);
        }
        j = j + 1;
    }
    None
}

/// Find the function or arrow node inside a declaration (handles variable
/// wrappers).
fn find_function_node(t: &SyntaxTree, node: usize) -> (r: usize)
    requires
        t.wf(),
        node < t.size(),
    ensures
        r == function_node(t, node as int),
        r < t.size(),
{
    if t.kind_is(node, "lexical_declaration") || t.kind_is(node, "variable_declaration") {
        let kids = t.child_list(node);
        let ghost s = t.children(node as int);
        let mut j: usize = 0;
        while j < kids.len()
            invariant
                t.wf(),
                s == t.children(node as int),
                kids@.len() == s.len(),
                forall|k: int| 0 <= k < kids@.len() ==> #[trigger] kids@[k] == s[k],
                forall|k: int| 0 <= k < kids@.len() ==> #[trigger] kids@[k] < t.size(),
                j <= kids@.len(),
                fn_in_declarators(t, s, 0) == fn_in_declarators(t, s, j as int),
                t.kind(node as int) == "lexical_declaration"@ || t.kind(node as int)
                    == "variable_declaration"@,
            decreases kids@.len() - j,
        {
            let c = kids[j];
            if t.kind_is(c, "variable_declarator") {
                match first_fn_child(t, c) {
                    Some(f) => {
                        assert(fn_in_declarators(t, s, j as int) == Some(f as int));
                        return f;
                    },
                    None => {},
                }
            }
            j = j + 1;
        }
    }
    node
}

/// The text of the last of the first `n` nodes of `s` that has kind `k`
/// and readable text.
pub open spec fn last_text_of(t: &SyntaxTree, src: Seq<u8>, s: Seq<int>, k: Seq<char>, n: int) -> Option<
    Seq<char>,
>
    decreases n,
{
    if n <= 0 {
        None
    } else if t.kind(s[n - 1]) == k && t.text(src, s[n - 1]) is Some {
        t.text(src, s[n - 1])
    } else {
        last_text_of(t, src, s, k, n - 1)
    }
}

/// The signature of a function: its parameter text, followed by ` -> ` and
/// the return type when it has one; none without parameters.
pub open spec fn function_signature(t: &SyntaxTree, src: Seq<u8>, node: int) -> Option<Seq<char>> {
    let f = function_node(t, node);
    let kids = t.children(f);
    let params = match last_text_of(t, src, kids, "formal_parameters"@, kids.len() as int) {
        Some(p) => p,
        None => seq![],
    };
    let ret = match last_text_of(t, src, kids, "type_annotation"@, kids.len() as int) {
        Some(r) => return_type_text(r),
        None => seq![],
    };
    if params.len() == 0 {
        None
    } else if ret.len() == 0 {
        Some(params)
    } else {
        Some(params + " -> "@ + ret)
    }
}

/// The signature of a symbol: that of its function for functions, arrow
/// functions and methods; none for the other kinds.
pub open spec fn signature_of(t: &SyntaxTree, src: Seq<u8>, node: int, kind: SymbolKind) -> Option<
    Seq<char>,
> {
    match kind {
        SymbolKind::Function | SymbolKind::ArrowFunction | SymbolKind::Method => function_signature(
            t,
            src,
            node,
        ),
        _ => None,
    }
}

/// Build the signature of a function from its declaration or value node.
fn build_function_signature(t: &SyntaxTree, node: usize, src: &[u8]) -> (r: Option<String>)
    requires
        t.wf(),
        node < t.size(),
    ensures
        opt_view(r) == function_signature(t, src@, node as int),
{
    let f = find_function_node(t, node);
    let kids = t.child_list(f);
    let ghost s = t.children(f as int);
    let mut params: Option<String> = None;
    let mut ret: Option<String> = None;
    let mut j: usize = 0;
    proof {
        reveal_strlit("formal_parameters");
        reveal_strlit("type_annotation");
        assert("formal_parameters"@.len() != "type_annotation"@.len());
    }
    while j < kids.len()
        invariant
            kids@.len() == s.len(),
            forall|k: int| 0 <= k < kids@.len() ==> #[trigger] kids@[k] == s[k],
            forall|k: int| 0 <= k < kids@.len() ==> #[trigger] kids@[k] < t.size(),
            j <= kids@.len(),
            "formal_parameters"@ != "type_annotation"@,
            opt_view(params) == last_text_of(t, src@, s, "formal_parameters"@, j as int),
            opt_view(ret) == last_text_of(t, src@, s, "type_annotation"@, j as int),
        decreases kids@.len() - j,
    {
        let c = kids[j];
        if t.kind_is(c, "formal_parameters") {
            match t.node_text(c, src) {
                Some(x) => {
                    params = Some(x);
                },
                None => {},
            }
        } else if t.kind_is(c, "type_annotation") {
            match t.node_text(c, src) {
                Some(x) => {
                    ret = Some(x);
                },
                None => {},
            }
        }
        j = j + 1;
    }
    let params_text: Vec<char> = match &params {
        Some(p) => chars_of(p.as_str()),
        None => Vec::new(),
    };
    let ret_text: Vec<char> = match &ret {
        Some(x) => return_type_of(x),
        None => Vec::new(),
    };
    if params_text.len() == 0 {
        return None;
    }
    if ret_text.len() == 0 {
        return Some(string_from_chars(&params_text));
    }
    let arrow = chars_of(" -> ");
    let joined = concat_chars(&concat_chars(&params_text, &arrow), &ret_text);
    Some(string_from_chars(&joined))
}

/// Build a human-readable signature for a symbol.
fn build_signature(t: &SyntaxTree, node: usize, kind: SymbolKind, src: &[u8]) -> (r: Option<String>)
    requires
        t.wf(),
        node < t.size(),
    ensures
        opt_view(r) == signature_of(t, src@, node as int, kind),
{
    match kind {
        SymbolKind::Function | SymbolKind::ArrowFunction | SymbolKind::Method => {
            build_function_signature(t, node, src)
        },
        _ => None,
    }
}

/// Node `i` is the child of an export statement.
pub open spec fn node_exported(t: &SyntaxTree, i: int) -> bool {
    match parent(t, i) {
        Some(p) => t.kind(p) == "export_statement"@,
        None => false,
    }
}

/// Check if a declaration node's parent is an `export_statement`.
fn is_node_exported(t: &SyntaxTree, node: usize) -> (r: bool)
    requires
        t.wf(),
        node < t.size(),
    ensures
        r == node_exported(t, node as int),
{
    match parent_of(t, node) {
        Some(p) => t.kind_is(p, "export_statement"),
        None => false,
    }
}


// ---------------------------------------------------------------------------
// Query matches
// ---------------------------------------------------------------------------

/// What the captures of one match say: name, symbol kind, declaration
/// node, whether it is an import, a dynamic import or an export statement,
/// and the import source.
pub type MatchState = (
    Option<Seq<char>>,
    Option<SymbolKind>,
    Option<int>,
    bool,
    bool,
    bool,
    Option<Seq<char>>,
);

/// The symbol kind named by a name capture.
pub open spec fn name_capture_kind(c: Seq<char>) -> Option<SymbolKind> {
    if c == "func_name"@ || c == "gen_func_name"@ || c == "func_expr_name"@ || c
        == "var_func_expr_name"@ {
        Some(SymbolKind::Function)
    } else if c == "arrow_name"@ || c == "var_arrow_name"@ {
        Some(SymbolKind::ArrowFunction)
    } else if c == "class_name"@ || c == "abstract_class_name"@ {
        Some(SymbolKind::Class)
    } else if c == "method_name"@ {
        Some(SymbolKind::Method)
    } else if c == "interface_name"@ {
        Some(SymbolKind::Interface)
    } else if c == "type_alias_name"@ {
        Some(SymbolKind::TypeAlias)
    } else if c == "enum_name"@ {
        Some(SymbolKind::Enum)
    } else {
        None
    }
}

/// Captures of a whole declaration or import.
pub open spec fn is_decl_capture(c: Seq<char>) -> bool {
    ||| c == "function_decl"@
    ||| c == "generator_function_decl"@
    ||| c == "arrow_decl"@
    ||| c == "var_arrow_decl"@
    ||| c == "func_expr_decl"@
    ||| c == "var_func_expr_decl"@
    ||| c == "class_decl"@
    ||| c == "abstract_class_decl"@
    ||| c == "method_def"@
    ||| c == "interface_decl"@
    ||| c == "type_alias_decl"@
    ||| c == "enum_decl"@
    ||| c == "import_stmt"@
    ||| c == "dynamic_import"@
}

/// The state after one more capture, `name` on `node`.
pub open spec fn capture_step(
    t: &SyntaxTree,
    src: Seq<u8>,
    st: MatchState,
    name: Seq<char>,
    node: int,
) -> MatchState {
    let text = text_or_empty(t, src, node);
    if name_capture_kind(name) is Some {
        (Some(text), name_capture_kind(name), st.2, st.3, st.4, st.5, st.6)
    } else if is_decl_capture(name) {
        (st.0, st.1, Some(node), st.3, st.4, st.5, st.6)
    } else if name == "import_source"@ {
        (st.0, st.1, st.2, true, st.4, st.5, Some(unquote(text)))
    } else if name == "dynamic_import_source"@ {
        (st.0, st.1, st.2, st.3, true, st.5, Some(unquote(text)))
    } else if name == "export_stmt"@ {
        (st.0, st.1, Some(node), st.3, st.4, true, st.6)
    } else {
        st
    }
}

/// The state after the first `n` captures of a match.
pub open spec fn match_state(t: &SyntaxTree, src: Seq<u8>, caps: Seq<Capture>, n: int) -> MatchState
    decreases n,
{
    if n <= 0 {
        (None, None, None, false, false, false, None)
    } else {
        capture_step(
            t,
            src,
            match_state(t, src, caps, n - 1),
            caps[n - 1].name@,
            caps[n - 1].node as int,
        )
    }
}

/// The state after all captures of a match.
pub open spec fn state_of(t: &SyntaxTree, src: Seq<u8>, caps: Seq<Capture>) -> MatchState {
    match_state(t, src, caps, caps.len() as int)
}

/// The symbol of a match: a named declaration that is no import or export.
pub open spec fn match_symbols(t: &SyntaxTree, src: Seq<u8>, st: MatchState, offset: int) -> Seq<
    SymbolModel,
> {
    if !st.4 && !st.3 && !st.5 && st.0 is Some && st.1 is Some && st.2 is Some {
        let d = st.2->0;
        seq![
            (
                st.0->0,
                st.1->0,
                line_of(t, d, offset),
                end_line_of(t, d, offset),
                node_exported(t, d),
                signature_of(t, src, d, st.1->0),
            ),
        ]
    } else {
        seq![]
    }
}

/// The import of a match: a dynamic import, or an import statement with its
/// specifiers and kind.
pub open spec fn match_imports(t: &SyntaxTree, src: Seq<u8>, st: MatchState, offset: int) -> Seq<
    ImportModel,
> {
    if st.6 is Some && st.2 is Some && st.4 {
        seq![(st.6->0, seq![], ImportKind::Dynamic, line_of(t, st.2->0, offset))]
    } else if st.6 is Some && st.2 is Some && st.3 && !st.4 {
        seq![
            (
                st.6->0,
                import_specifiers(t, src, st.2->0),
                import_kind(t, src, st.2->0),
                line_of(t, st.2->0, offset),
            ),
        ]
    } else {
        seq![]
    }
}

/// The exports of a match: those of its export statement.
pub open spec fn match_exports(t: &SyntaxTree, src: Seq<u8>, st: MatchState, offset: int) -> Seq<
    ExportModel,
> {
    if !st.4 && !st.3 && st.5 && st.2 is Some {
        export_statement(t, src, st.2->0, offset)
    } else {
        seq![]
    }
}

/// A match of a named declaration gives one symbol, named by the name
/// capture and placed at the declaration, whichever of the two captures
/// comes first. Its kind follows the name capture: a function declaration,
/// generator or function expression bound to a variable (`var`, `let` or
/// `const` alike) gives a function; an arrow function, an arrow function;
/// a class or abstract class, a class; then method, interface, type alias
/// and enum.
pub proof fn law_named_matches_give_symbols(
    t: &SyntaxTree,
    src: Seq<u8>,
    ms: Seq<Vec<Capture>>,
    d: Capture,
    n: Capture,
    offset: int,
)
    requires
        ms.len() == 1,
        ms[0]@ == seq![d, n] || ms[0]@ == seq![n, d],
        d.name@ == "function_decl"@ || d.name@ == "generator_function_decl"@ || d.name@ == "arrow_decl"@ || d.name@ == "var_arrow_decl"@ || d.name@ == "func_expr_decl"@ || d.name@ == "var_func_expr_decl"@ || d.name@ == "class_decl"@ || d.name@ == "abstract_class_decl"@ || d.name@ == "method_def"@ || d.name@ == "interface_decl"@ || d.name@ == "type_alias_decl"@ || d.name@ == "enum_decl"@,
        n.name@ == "func_name"@ || n.name@ == "gen_func_name"@ || n.name@ == "func_expr_name"@ || n.name@ == "var_func_expr_name"@ || n.name@ == "arrow_name"@ || n.name@ == "var_arrow_name"@ || n.name@ == "class_name"@ || n.name@ == "abstract_class_name"@ || n.name@ == "method_name"@ || n.name@ == "interface_name"@ || n.name@ == "type_alias_name"@ || n.name@ == "enum_name"@,
    ensures
        matches_symbols(t, src, ms, offset).len() == 1,
        matches_symbols(t, src, ms, offset)[0].0 == text_or_empty(t, src, n.node as int),
        matches_symbols(t, src, ms, offset)[0].2 == line_of(t, d.node as int, offset),
        n.name@ == "func_name"@ || n.name@ == "gen_func_name"@ || n.name@ == "func_expr_name"@ || n.name@ == "var_func_expr_name"@ ==> matches_symbols(t, src, ms, offset)[0].1 == SymbolKind::Function,
        n.name@ == "arrow_name"@ || n.name@ == "var_arrow_name"@ ==> matches_symbols(t, src, ms, offset)[0].1 == SymbolKind::ArrowFunction,
        n.name@ == "class_name"@ || n.name@ == "abstract_class_name"@ ==> matches_symbols(t, src, ms, offset)[0].1 == SymbolKind::Class,
        n.name@ == "method_name"@ ==> matches_symbols(t, src, ms, offset)[0].1 == SymbolKind::Method,
        n.name@ == "interface_name"@ ==> matches_symbols(t, src, ms, offset)[0].1 == SymbolKind::Interface,
        n.name@ == "type_alias_name"@ ==> matches_symbols(t, src, ms, offset)[0].1 == SymbolKind::TypeAlias,
        n.name@ == "enum_name"@ ==> matches_symbols(t, src, ms, offset)[0].1 == SymbolKind::Enum,
{
    reveal_strlit("func_name");
    reveal_strlit("gen_func_name");
    reveal_strlit("func_expr_name");
    reveal_strlit("var_func_expr_name");
    reveal_strlit("arrow_name");
    reveal_strlit("var_arrow_name");
    reveal_strlit("class_name");
    reveal_strlit("abstract_class_name");
    reveal_strlit("method_name");
    reveal_strlit("interface_name");
    reveal_strlit("type_alias_name");
    reveal_strlit("enum_name");
    reveal_strlit("function_decl");
    reveal_strlit("generator_function_decl");
    reveal_strlit("arrow_decl");
    reveal_strlit("var_arrow_decl");
    reveal_strlit("func_expr_decl");
    reveal_strlit("var_func_expr_decl");
    reveal_strlit("class_decl");
    reveal_strlit("abstract_class_decl");
    reveal_strlit("method_def");
    reveal_strlit("interface_decl");
    reveal_strlit("type_alias_decl");
    reveal_strlit("enum_decl");
    assert("func_name"@.len() == 9);
    assert("gen_func_name"@.len() == 13);
    assert("func_expr_name"@.len() == 14);
    assert("var_func_expr_name"@.len() == 18);
    assert("arrow_name"@.len() == 10);
    assert("var_arrow_name"@.len() == 14);
    assert("class_name"@.len() == 10);
    assert("abstract_class_name"@.len() == 19);
    assert("method_name"@.len() == 11);
    assert("interface_name"@.len() == 14);
    assert("type_alias_name"@.len() == 15);
    assert("enum_name"@.len() == 9);
    assert("function_decl"@.len() == 13);
    assert("generator_function_decl"@.len() == 23);
    assert("arrow_decl"@.len() == 10);
    assert("var_arrow_decl"@.len() == 14);
    assert("func_expr_decl"@.len() == 14);
    assert("var_func_expr_decl"@.len() == 18);
    assert("class_decl"@.len() == 10);
    assert("abstract_class_decl"@.len() == 19);
    assert("method_def"@.len() == 10);
    assert("interface_decl"@.len() == 14);
    assert("type_alias_decl"@.len() == 15);
    assert("enum_decl"@.len() == 9);
    assert("function_decl"@[0] != "gen_func_name"@[0]);
    assert("arrow_decl"@[6] != "arrow_name"@[6]);
    assert("arrow_decl"@[0] != "class_name"@[0]);
    assert("var_arrow_decl"@[0] != "func_expr_name"@[0]);
    assert("var_arrow_decl"@[10] != "var_arrow_name"@[10]);
    assert("var_arrow_decl"@[0] != "interface_name"@[0]);
    assert("func_expr_decl"@[10] != "func_expr_name"@[10]);
    assert("func_expr_decl"@[0] != "var_arrow_name"@[0]);
    assert("func_expr_decl"@[0] != "interface_name"@[0]);
    assert("var_func_expr_decl"@[14] != "var_func_expr_name"@[14]);
    assert("class_decl"@[0] != "arrow_name"@[0]);
    assert("class_decl"@[6] != "class_name"@[6]);
    assert("abstract_class_decl"@[15] != "abstract_class_name"@[15]);
    assert("method_def"@[0] != "arrow_name"@[0]);
    assert("method_def"@[0] != "class_name"@[0]);
    assert("interface_decl"@[0] != "func_expr_name"@[0]);
    assert("interface_decl"@[0] != "var_arrow_name"@[0]);
    assert("interface_decl"@[10] != "interface_name"@[10]);
    assert("type_alias_decl"@[11] != "type_alias_name"@[11]);
    assert("enum_decl"@[0] != "func_name"@[0]);
    assert("enum_decl"@[5] != "enum_name"@[5]);
    assert(name_capture_kind(d.name@) is None);
    assert(is_decl_capture(d.name@));
    assert(name_capture_kind(n.name@) is Some);
    let caps = ms[0]@;
    assert(ms.drop_last() =~= Seq::<Vec<Capture>>::empty());
    assert(match_state(t, src, caps, 0) == (None::<Seq<char>>, None::<SymbolKind>, None::<int>, false, false, false, None::<Seq<char>>));
    let s0 = match_state(t, src, caps, 0);
    let s1 = match_state(t, src, caps, 1);
    let st = state_of(t, src, caps);
    assert(caps.len() == 2);
    assert(s1 == capture_step(t, src, s0, caps[0].name@, caps[0].node as int));
    assert(st == capture_step(t, src, s1, caps[1].name@, caps[1].node as int));
    if caps == seq![d, n] {
        assert(caps[0] == d && caps[1] == n);
    } else {
        assert(caps[0] == n && caps[1] == d);
    }
    assert(st.0 == Some(text_or_empty(t, src, n.node as int)));
    assert(st.1 == name_capture_kind(n.name@));
    assert(st.2 == Some(d.node as int));
    assert(!st.3 && !st.4 && !st.5);
    assert(ms.last() == ms[0]);
    assert(matches_symbols(t, src, ms.drop_last(), offset) =~= Seq::<SymbolModel>::empty());
    assert(matches_symbols(t, src, ms, offset) == matches_symbols(t, src, ms.drop_last(), offset) + match_symbols(
        t,
        src,
        st,
        offset,
    ));
    assert(matches_symbols(t, src, ms, offset) =~= match_symbols(t, src, st, offset));
}

/// The symbols of the matches `ms`, in match order.
pub open spec fn matches_symbols(t: &SyntaxTree, src: Seq<u8>, ms: Seq<Vec<Capture>>, offset: int) -> Seq<
    SymbolModel,
>
    decreases ms.len(),
{
    if ms.len() == 0 {
        seq![]
    } else {
        matches_symbols(t, src, ms.drop_last(), offset) + match_symbols(
            t,
            src,
            state_of(t, src, ms.last()@),
            offset,
        )
    }
}

/// The imports of the matches `ms`, in match order.
pub open spec fn matches_imports(t: &SyntaxTree, src: Seq<u8>, ms: Seq<Vec<Capture>>, offset: int) -> Seq<
    ImportModel,
>
    decreases ms.len(),
{
    if ms.len() == 0 {
        seq![]
    } else {
        matches_imports(t, src, ms.drop_last(), offset) + match_imports(
            t,
            src,
            state_of(t, src, ms.last()@),
            offset,
        )
    }
}

/// The exports of the matches `ms`, in match order.
pub open spec fn matches_exports(t: &SyntaxTree, src: Seq<u8>, ms: Seq<Vec<Capture>>, offset: int) -> Seq<
    ExportModel,
>
    decreases ms.len(),
{
    if ms.len() == 0 {
        seq![]
    } else {
        matches_exports(t, src, ms.drop_last(), offset) + match_exports(
            t,
            src,
            state_of(t, src, ms.last()@),
            offset,
        )
    }
}

fn name_capture_kind_exec(c: &str) -> (r: Option<SymbolKind>)
    ensures
        r == name_capture_kind(c@),
{
    if str_eq(c, "func_name") || str_eq(c, "gen_func_name") || str_eq(c, "func_expr_name")
        || str_eq(c, "var_func_expr_name") {
        Some(SymbolKind::Function)
    } else if str_eq(c, "arrow_name") || str_eq(c, "var_arrow_name") {
        Some(SymbolKind::ArrowFunction)
    } else if str_eq(c, "class_name") || str_eq(c, "abstract_class_name") {
        Some(SymbolKind::Class)
    } else if str_eq(c, "method_name") {
        Some(SymbolKind::Method)
    } else if str_eq(c, "interface_name") {
        Some(SymbolKind::Interface)
    } else if str_eq(c, "type_alias_name") {
        Some(SymbolKind::TypeAlias)
    } else if str_eq(c, "enum_name") {
        Some(SymbolKind::Enum)
    } else {
        None
    }
}

fn is_decl_capture_exec(c: &str) -> (r: bool)
    ensures
        r == is_decl_capture(c@),
{
    str_eq(c, "function_decl") || str_eq(c, "generator_function_decl") || str_eq(c, "arrow_decl")
        || str_eq(c, "var_arrow_decl") || str_eq(c, "func_expr_decl") || str_eq(
        c,
        "var_func_expr_decl",
    ) || str_eq(c, "class_decl") || str_eq(c, "abstract_class_decl") || str_eq(c, "method_def")
        || str_eq(c, "interface_decl") || str_eq(c, "type_alias_decl") || str_eq(c, "enum_decl")
        || str_eq(c, "import_stmt") || str_eq(c, "dynamic_import")
}

pub open spec fn opt_int(o: Option<usize>) -> Option<int> {
    match o {
        Some(x) => Some(x as int),
        None => None,
    }
}

fn push_symbol(out: &mut Vec<Symbol>, e: Symbol)
    ensures
        symbol_models(final(out)@) == symbol_models(old(out)@).push(e.model()),
{
    out.push(e);
    assert(symbol_models(final(out)@) =~= symbol_models(old(out)@).push(e.model()));
}

fn push_import(out: &mut Vec<Import>, e: Import)
    ensures
        import_models(final(out)@) == import_models(old(out)@).push(e.model()),
{
    out.push(e);
    assert(import_models(final(out)@) =~= import_models(old(out)@).push(e.model()));
}

fn append_exports(out: &mut Vec<Export>, more: Vec<Export>)
    ensures
        export_models(final(out)@) == export_models(old(out)@) + export_models(more@),
{
    let ghost orig = more@;
    let ghost before = out@;
    let mut more = more;
    out.append(&mut more);
    assert(export_models(out@) =~= export_models(before) + export_models(orig));
}

/// Appends what one query match yields to `out`.
fn process_match(
    t: &SyntaxTree,
    src: &[u8],
    caps: &Vec<Capture>,
    line_offset: usize,
    out: &mut FileSymbols,
)
    requires
        t.wf(),
        forall|c: int| 0 <= c < caps@.len() ==> #[trigger] caps@[c].node < t.size(),
    ensures
        symbol_models(final(out).symbols@) == symbol_models(old(out).symbols@) + match_symbols(
            t,
            src@,
            state_of(t, src@, caps@),
            line_offset as int,
        ),
        import_models(final(out).imports@) == import_models(old(out).imports@) + match_imports(
            t,
            src@,
            state_of(t, src@, caps@),
            line_offset as int,
        ),
        export_models(final(out).exports@) == export_models(old(out).exports@) + match_exports(
            t,
            src@,
            state_of(t, src@, caps@),
            line_offset as int,
        ),
{
    let mut name_str: Option<String> = None;
    let mut kind: Option<SymbolKind> = None;
    let mut decl_node: Option<usize> = None;
    let mut is_import = false;
    let mut is_dynamic_import = false;
    let mut is_export_stmt = false;
    let mut import_source: Option<String> = None;
    let mut c: usize = 0;
    while c < caps.len()
        invariant
            forall|x: int| 0 <= x < caps@.len() ==> #[trigger] caps@[x].node < t.size(),
            c <= caps@.len(),
            decl_node matches Some(d) ==> d < t.size(),
            match_state(t, src@, caps@, c as int) == (
                opt_view(name_str),
                kind,
                opt_int(decl_node),
                is_import,
                is_dynamic_import,
                is_export_stmt,
                opt_view(import_source),
            ),
        decreases caps@.len() - c,
    {
        let cap = &caps[c];
        let node = cap.node;
        let cname = cap.name.as_str();
        let text = text_at(t, node, src);
        match name_capture_kind_exec(cname) {
            Some(k) => {
                name_str = Some(text);
                kind = Some(k);
            },
            None => {
                if is_decl_capture_exec(cname) {
                    decl_node = Some(node);
                } else if str_eq(cname, "import_source") {
                    is_import = true;
                    import_source = Some(string_from_chars(&unquote_chars(&chars_of(text.as_str()))));
                } else if str_eq(cname, "dynamic_import_source") {
                    is_dynamic_import = true;
                    import_source = Some(string_from_chars(&unquote_chars(&chars_of(text.as_str()))));
                } else if str_eq(cname, "export_stmt") {
                    is_export_stmt = true;
                    decl_node = Some(node);
                }
            },
        }
        c = c + 1;
    }
    let ghost st = state_of(t, src@, caps@);
    if is_dynamic_import {
        match (&import_source, decl_node) {
            (Some(source), Some(node)) => {
                let specifiers: Vec<String> = Vec::new();
                assert(views(specifiers@) =~= Seq::<Seq<char>>::empty());
                push_import(
                    &mut out.imports,
                    Import {
                        source: source.clone(),
                        specifiers,
                        kind: ImportKind::Dynamic,
                        line: line_at(t, node, line_offset),
                    },
                );
            },
            _ => {
                assert(import_models(out.imports@) =~= import_models(out.imports@) + Seq::<
                    ImportModel,
                >::empty());
            },
        }
        assert(symbol_models(out.symbols@) =~= symbol_models(out.symbols@) + Seq::<
            SymbolModel,
        >::empty());
        assert(export_models(out.exports@) =~= export_models(out.exports@) + Seq::<
            ExportModel,
        >::empty());
    } else if is_import {
        match (&import_source, decl_node) {
            (Some(source), Some(node)) => {
                let (specifiers, import_kind) = parse_import_clause(t, node, src);
                push_import(
                    &mut out.imports,
                    Import {
                        source: source.clone(),
                        specifiers,
                        kind: import_kind,
                        line: line_at(t, node, line_offset),
                    },
                );
            },
            _ => {
                assert(import_models(out.imports@) =~= import_models(out.imports@) + Seq::<
                    ImportModel,
                >::empty());
            },
        }
        assert(symbol_models(out.symbols@) =~= symbol_models(out.symbols@) + Seq::<
            SymbolModel,
        >::empty());
        assert(export_models(out.exports@) =~= export_models(out.exports@) + Seq::<
            ExportModel,
        >::empty());
    } else if is_export_stmt {
        match decl_node {
            Some(node) => {
                let parsed = parse_export_statement(t, node, src, line_offset);
                append_exports(&mut out.exports, parsed);
            },
            None => {
                assert(export_models(out.exports@) =~= export_models(out.exports@) + Seq::<
                    ExportModel,
                >::empty());
            },
        }
        assert(symbol_models(out.symbols@) =~= symbol_models(out.symbols@) + Seq::<
            SymbolModel,
        >::empty());
        assert(import_models(out.imports@) =~= import_models(out.imports@) + Seq::<
            ImportModel,
        >::empty());
    } else {
        match (name_str, kind, decl_node) {
            (Some(name), Some(sym_kind), Some(node)) => {
                let exported = is_node_exported(t, node);
                let signature = build_signature(t, node, sym_kind, src);
                push_symbol(
                    &mut out.symbols,
                    Symbol {
                        name,
                        kind: sym_kind,
                        line: line_at(t, node, line_offset),
                        end_line: end_line_at(t, node, line_offset),
                        exported,
                        signature,
                    },
                );
            },
            _ => {
                assert(symbol_models(out.symbols@) =~= symbol_models(out.symbols@) + Seq::<
                    SymbolModel,
                >::empty());
            },
        }
        assert(import_models(out.imports@) =~= import_models(out.imports@) + Seq::<
            ImportModel,
        >::empty());
        assert(export_models(out.exports@) =~= export_models(out.exports@) + Seq::<
            ExportModel,
        >::empty());
    }
}

/// What the query matches `ms` yield, each match read in order: symbols of
/// named declarations, imports, and exports.
pub fn symbols_from_matches(
    tree: &SyntaxTree,
    source: &[u8],
    ms: &Vec<Vec<Capture>>,
    line_offset: usize,
) -> (r: FileSymbols)
    requires
        tree.wf(),
        crate::treesitter::captures_in(tree, ms@),
    ensures
        symbol_models(r.symbols@) == matches_symbols(tree, source@, ms@, line_offset as int),
        import_models(r.imports@) == matches_imports(tree, source@, ms@, line_offset as int),
        export_models(r.exports@) == matches_exports(tree, source@, ms@, line_offset as int),
{
    let mut out = FileSymbols { symbols: Vec::new(), imports: Vec::new(), exports: Vec::new() };
    let mut m: usize = 0;
    proof {
        assert(symbol_models(out.symbols@) =~= matches_symbols(tree, source@, ms@.take(0), line_offset as int));
        assert(import_models(out.imports@) =~= matches_imports(tree, source@, ms@.take(0), line_offset as int));
        assert(export_models(out.exports@) =~= matches_exports(tree, source@, ms@.take(0), line_offset as int));
    }
    while m < ms.len()
        invariant
            tree.wf(),
            crate::treesitter::captures_in(tree, ms@),
            m <= ms@.len(),
            symbol_models(out.symbols@) == matches_symbols(tree, source@, ms@.take(m as int), line_offset as int),
            import_models(out.imports@) == matches_imports(tree, source@, ms@.take(m as int), line_offset as int),
            export_models(out.exports@) == matches_exports(tree, source@, ms@.take(m as int), line_offset as int),
        decreases ms@.len() - m,
    {
        proof {
            assert(ms@.take(m + 1).drop_last() =~= ms@.take(m as int));
            assert(ms@.take(m + 1).last() == ms@[m as int]);
            assert forall|c: int| 0 <= c < ms@[m as int]@.len() implies #[trigger] ms@[m as int]@[c].node < tree.size() by {
                assert(ms@[m as int]@[c].node < tree.size());
            }
        }
        process_match(tree, source, &ms[m], line_offset, &mut out);
        m = m + 1;
    }
    assert(ms@.take(m as int) =~= ms@);
    out
}


// ---------------------------------------------------------------------------
// Svelte runes and props
// ---------------------------------------------------------------------------

/// For a query with a name capture and a node capture: the text of the
/// last name capture (none when unreadable) and the last node capture,
/// after the first `n` captures.
pub open spec fn pair_state(
    t: &SyntaxTree,
    src: Seq<u8>,
    caps: Seq<Capture>,
    n: int,
    name_cap: Seq<char>,
    node_cap: Seq<char>,
) -> (Option<Seq<char>>, Option<int>)
    decreases n,
{
    if n <= 0 {
        (None, None)
    } else {
        let st = pair_state(t, src, caps, n - 1, name_cap, node_cap);
        let c = caps[n - 1];
        if c.name@ == name_cap {
            (t.text(src, c.node as int), st.1)
        } else if c.name@ == node_cap {
            (st.0, Some(c.node as int))
        } else {
            st
        }
    }
}

/// The variable a rune call is assigned to: the first identifier of the
/// declarator that holds the call.
pub open spec fn rune_variable(t: &SyntaxTree, src: Seq<u8>, n: int) -> Option<Seq<char>> {
    match parent(t, n) {
        Some(p) => if t.kind(p) == "variable_declarator"@ {
            match t.child_of_kind(p, "identifier"@) {
                Some(c) => t.text(src, c),
                None => None,
            }
        } else {
            None
        },
        None => None,
    }
}

/// The rune symbol of one match: the rune's name, followed by the variable
/// in brackets when it is assigned to one.
pub open spec fn match_rune(t: &SyntaxTree, src: Seq<u8>, caps: Seq<Capture>, offset: int) -> Seq<
    SymbolModel,
> {
    let st = pair_state(t, src, caps, caps.len() as int, "rune_name"@, "rune_call"@);
    if st.0 is Some && st.1 is Some {
        let n = st.1->0;
        let display = match rune_variable(t, src, n) {
            Some(v) => st.0->0 + "("@ + v + ")"@,
            None => st.0->0,
        };
        seq![
            (
                display,
                SymbolKind::Rune,
                line_of(t, n, offset),
                end_line_of(t, n, offset),
                false,
                None,
            ),
        ]
    } else {
        seq![]
    }
}

/// The prop symbol of one match of the legacy prop query.
pub open spec fn match_prop(t: &SyntaxTree, src: Seq<u8>, caps: Seq<Capture>, offset: int) -> Seq<
    SymbolModel,
> {
    let st = pair_state(t, src, caps, caps.len() as int, "legacy_prop_name"@, "legacy_prop"@);
    if st.0 is Some && st.1 is Some {
        let n = st.1->0;
        seq![
            (
                st.0->0,
                SymbolKind::Variable,
                line_of(t, n, offset),
                end_line_of(t, n, offset),
                true,
                None,
            ),
        ]
    } else {
        seq![]
    }
}

/// The rune symbols of the matches `ms`, in order.
pub open spec fn matches_runes(t: &SyntaxTree, src: Seq<u8>, ms: Seq<Vec<Capture>>, offset: int) -> Seq<
    SymbolModel,
>
    decreases ms.len(),
{
    if ms.len() == 0 {
        seq![]
    } else {
        matches_runes(t, src, ms.drop_last(), offset) + match_rune(t, src, ms.last()@, offset)
    }
}

/// The prop symbols of the matches `ms`, in order.
pub open spec fn matches_props(t: &SyntaxTree, src: Seq<u8>, ms: Seq<Vec<Capture>>, offset: int) -> Seq<
    SymbolModel,
>
    decreases ms.len(),
{
    if ms.len() == 0 {
        seq![]
    } else {
        matches_props(t, src, ms.drop_last(), offset) + match_prop(t, src, ms.last()@, offset)
    }
}

proof fn lemma_caps_views(t: &SyntaxTree, src: Seq<u8>, c1: Seq<Capture>, c2: Seq<Capture>, n: int)
    requires
        captures_view(c1) == captures_view(c2),
        0 <= n <= c1.len(),
    ensures
        match_state(t, src, c1, n) == match_state(t, src, c2, n),
        pair_state(t, src, c1, n, "rune_name"@, "rune_call"@) == pair_state(t, src, c2, n, "rune_name"@, "rune_call"@),
        pair_state(t, src, c1, n, "legacy_prop_name"@, "legacy_prop"@) == pair_state(
            t,
            src,
            c2,
            n,
            "legacy_prop_name"@,
            "legacy_prop"@,
        ),
    decreases n,
{
    if n > 0 {
        lemma_caps_views(t, src, c1, c2, n - 1);
        assert(captures_view(c1)[n - 1] == captures_view(c2)[n - 1]);
        assert(c1.len() == captures_view(c1).len() && c2.len() == captures_view(c2).len());
    }
}

/// What the matches give depends only on the name and node of each capture.
pub proof fn lemma_matches_by_views(t: &SyntaxTree, src: Seq<u8>, ms1: Seq<Vec<Capture>>, ms2: Seq<Vec<Capture>>, offset: int)
    requires
        match_views(ms1) == match_views(ms2),
    ensures
        matches_symbols(t, src, ms1, offset) == matches_symbols(t, src, ms2, offset),
        matches_imports(t, src, ms1, offset) == matches_imports(t, src, ms2, offset),
        matches_exports(t, src, ms1, offset) == matches_exports(t, src, ms2, offset),
        matches_runes(t, src, ms1, offset) == matches_runes(t, src, ms2, offset),
        matches_props(t, src, ms1, offset) == matches_props(t, src, ms2, offset),
    decreases ms1.len(),
{
    assert(ms1.len() == match_views(ms1).len() && ms2.len() == match_views(ms2).len());
    if ms1.len() > 0 {
        assert(match_views(ms1.drop_last()) =~= match_views(ms1).drop_last());
        assert(match_views(ms2.drop_last()) =~= match_views(ms2).drop_last());
        lemma_matches_by_views(t, src, ms1.drop_last(), ms2.drop_last(), offset);
        let l1 = ms1.last()@;
        let l2 = ms2.last()@;
        assert(match_views(ms1)[ms1.len() - 1] == match_views(ms2)[ms2.len() - 1]);
        assert(captures_view(l1) == captures_view(l2));
        assert(l1.len() == captures_view(l1).len());
        lemma_caps_views(t, src, l1, l2, l1.len() as int);
    }
}

/// The symbols, imports and exports that a query result gives are
/// determined by it: two results that both give them agree.
pub proof fn law_query_result_determines_symbols(
    t: &SyntaxTree,
    src: Seq<u8>,
    r1: FileSymbols,
    r2: FileSymbols,
    offset: int,
    found: Seq<Seq<(Seq<char>, usize)>>,
)
    requires
        found_by_query(t, src, &r1, offset, found),
        found_by_query(t, src, &r2, offset, found),
    ensures
        symbol_models(r1.symbols@) == symbol_models(r2.symbols@),
        import_models(r1.imports@) == import_models(r2.imports@),
        export_models(r1.exports@) == export_models(r2.exports@),
{
    let ms1 = choose|ms: Seq<Vec<Capture>>|
        match_views(ms) == found && crate::treesitter::captures_in(t, ms) && symbol_models(r1.symbols@)
            == #[trigger] matches_symbols(t, src, ms, offset) && import_models(r1.imports@) == matches_imports(
            t,
            src,
            ms,
            offset,
        ) && export_models(r1.exports@) == matches_exports(t, src, ms, offset);
    let ms2 = choose|ms: Seq<Vec<Capture>>|
        match_views(ms) == found && crate::treesitter::captures_in(t, ms) && symbol_models(r2.symbols@)
            == #[trigger] matches_symbols(t, src, ms, offset) && import_models(r2.imports@) == matches_imports(
            t,
            src,
            ms,
            offset,
        ) && export_models(r2.exports@) == matches_exports(t, src, ms, offset);
    lemma_matches_by_views(t, src, ms1, ms2, offset);
}

proof fn lemma_state_node(t: &SyntaxTree, src: Seq<u8>, caps: Seq<Capture>, n: int)
    requires
        0 <= n <= caps.len(),
        forall|c: int| 0 <= c < caps.len() ==> #[trigger] caps[c].node < t.size(),
    ensures
        match_state(t, src, caps, n).2 matches Some(d) ==> 0 <= d < t.size(),
    decreases n,
{
    if n > 0 {
        lemma_state_node(t, src, caps, n - 1);
        assert(caps[n - 1].node < t.size());
    }
}

/// Every symbol the matches give starts on a line no later than the one it
/// ends on, when every node of the tree does.
pub proof fn law_symbol_lines_ordered(t: &SyntaxTree, src: Seq<u8>, ms: Seq<Vec<Capture>>, offset: int)
    requires
        crate::treesitter::rows_ordered(*t),
        crate::treesitter::captures_in(t, ms),
        offset >= 0,
    ensures
        forall|k: int|
            0 <= k < matches_symbols(t, src, ms, offset).len() ==> (#[trigger] matches_symbols(t, src, ms, offset)[k]).2
                <= matches_symbols(t, src, ms, offset)[k].3 && (offset + 1 <= usize::MAX ==> offset + 1
                <= matches_symbols(t, src, ms, offset)[k].2),
    decreases ms.len(),
{
    if ms.len() > 0 {
        assert(crate::treesitter::captures_in(t, ms.drop_last())) by {
            assert forall|m: int, c: int|
                0 <= m < ms.drop_last().len() && 0 <= c < ms.drop_last()[m]@.len() implies #[trigger] ms.drop_last()[m]@[c].node
                < t.size() by {
                assert(ms.drop_last()[m] == ms[m]);
            }
        }
        law_symbol_lines_ordered(t, src, ms.drop_last(), offset);
        let caps = ms.last()@;
        assert forall|c: int| 0 <= c < caps.len() implies #[trigger] caps[c].node < t.size() by {
            assert(ms[ms.len() - 1]@[c].node < t.size());
        }
        lemma_state_node(t, src, caps, caps.len() as int);
        let st = state_of(t, src, caps);
        if st.2 is Some {
            let d = st.2->0;
            assert(t.nodes@[d].start_row <= t.nodes@[d].end_row);
        }
        let pre = matches_symbols(t, src, ms.drop_last(), offset);
        let last = match_symbols(t, src, st, offset);
        assert forall|k: int| 0 <= k < (pre + last).len() implies #[trigger] (pre + last)[k].2 <= (pre + last)[k].3
            && (offset + 1 <= usize::MAX ==> offset + 1 <= (pre + last)[k].2) by {
            if k < pre.len() {
                assert((pre + last)[k] == pre[k]);
            }
        }
    }
}

/// A symbol the matches give has a signature only when it is a function, an
/// arrow function or a method; a dynamic or side-effect import the matches
/// give has no specifiers.
pub proof fn law_match_shapes(t: &SyntaxTree, src: Seq<u8>, ms: Seq<Vec<Capture>>, offset: int)
    ensures
        forall|k: int|
            0 <= k < matches_symbols(t, src, ms, offset).len() && (#[trigger] matches_symbols(t, src, ms, offset)[k]).5
                is Some ==> matches_symbols(t, src, ms, offset)[k].1 is Function || matches_symbols(t, src, ms, offset)[k].1
                is ArrowFunction || matches_symbols(t, src, ms, offset)[k].1 is Method,
        forall|k: int|
            0 <= k < matches_imports(t, src, ms, offset).len() && ((#[trigger] matches_imports(t, src, ms, offset)[k]).2
                is Dynamic || matches_imports(t, src, ms, offset)[k].2 is SideEffect) ==> matches_imports(
                t,
                src,
                ms,
                offset,
            )[k].1.len() == 0,
    decreases ms.len(),
{
    if ms.len() > 0 {
        law_match_shapes(t, src, ms.drop_last(), offset);
        let st = state_of(t, src, ms.last()@);
        let pre = matches_symbols(t, src, ms.drop_last(), offset);
        let last = match_symbols(t, src, st, offset);
        assert forall|k: int| 0 <= k < (pre + last).len() && (#[trigger] (pre + last)[k]).5 is Some implies (pre
            + last)[k].1 is Function || (pre + last)[k].1 is ArrowFunction || (pre + last)[k].1 is Method by {
            if k < pre.len() {
                assert((pre + last)[k] == pre[k]);
            }
        }
        let ipre = matches_imports(t, src, ms.drop_last(), offset);
        let ilast = match_imports(t, src, st, offset);
        assert forall|k: int| 0 <= k < (ipre + ilast).len() && ((#[trigger] (ipre + ilast)[k]).2 is Dynamic || (ipre
            + ilast)[k].2 is SideEffect) implies (ipre + ilast)[k].1.len() == 0 by {
            if k < ipre.len() {
                assert((ipre + ilast)[k] == ipre[k]);
            }
        }
    }
}

/// In a parsed script file every extracted symbol starts on a line no later
/// than the one it ends on.
pub proof fn law_extracted_lines_ordered(pf: ParsedFile, r: FileSymbols)
    requires
        pf.wf(),
        pf.source_file.language != DetectedLanguage::Svelte,
        symbols_of(pf, r),
    ensures
        forall|k: int| 0 <= k < r.symbols@.len() ==> (#[trigger] r.symbols@[k]).line <= r.symbols@[k].end_line,
{
    let lang = pf.source_file.language;
    if query_compiles(grammar_for(lang), query_source_for(lang)) {
        let src = encode_utf8(pf.source@);
        let found = query_result(grammar_for(lang), query_source_for(lang), pf.source@);
        let ms = choose|ms: Seq<Vec<Capture>>|
            match_views(ms) == found && crate::treesitter::captures_in(&pf.tree, ms) && symbol_models(r.symbols@)
                == #[trigger] matches_symbols(&pf.tree, src, ms, 0) && import_models(r.imports@) == matches_imports(
                &pf.tree,
                src,
                ms,
                0,
            ) && export_models(r.exports@) == matches_exports(&pf.tree, src, ms, 0);
        law_symbol_lines_ordered(&pf.tree, src, ms, 0);
        assert forall|k: int| 0 <= k < r.symbols@.len() implies (#[trigger] r.symbols@[k]).line
            <= r.symbols@[k].end_line by {
            assert(symbol_models(r.symbols@)[k] == r.symbols@[k].model());
        }
    }
}

/// Rows plus one plus `offset` fit in a `usize` for every node of `t`.
pub open spec fn lines_fit(t: &SyntaxTree, offset: int) -> bool {
    forall|i: int|
        0 <= i < t.size() ==> (#[trigger] t.nodes@[i]).start_row + 1 + offset <= usize::MAX && t.nodes@[i].end_row
            + 1 + offset <= usize::MAX
}

/// Symbols with their lines moved down by `offset`.
pub open spec fn shift_symbols(ss: Seq<SymbolModel>, offset: int) -> Seq<SymbolModel> {
    ss.map_values(|x: SymbolModel| (x.0, x.1, x.2 + offset, x.3 + offset, x.4, x.5))
}

/// Imports with their lines moved down by `offset`.
pub open spec fn shift_imports(is: Seq<ImportModel>, offset: int) -> Seq<ImportModel> {
    is.map_values(|x: ImportModel| (x.0, x.1, x.2, x.3 + offset))
}

/// Exports with their lines moved down by `offset`.
pub open spec fn shift_exports(es: Seq<ExportModel>, offset: int) -> Seq<ExportModel> {
    es.map_values(|x: ExportModel| (x.0, x.1, x.2 + offset, x.3))
}

proof fn lemma_shift_exports_add(a: Seq<ExportModel>, b: Seq<ExportModel>, offset: int)
    ensures
        shift_exports(a + b, offset) == shift_exports(a, offset) + shift_exports(b, offset),
{
    assert(shift_exports(a + b, offset) =~= shift_exports(a, offset) + shift_exports(b, offset));
}

proof fn lemma_clause_shift(
    t: &SyntaxTree,
    src: Seq<u8>,
    s: Seq<int>,
    line: int,
    kind: ExportKind,
    source: Option<Seq<char>>,
    offset: int,
)
    ensures
        clause_exports(t, src, s, line + offset, kind, source) == shift_exports(
            clause_exports(t, src, s, line, kind, source),
            offset,
        ),
    decreases s.len(),
{
    if s.len() > 0 {
        lemma_clause_shift(t, src, s.drop_last(), line, kind, source, offset);
        let last = if t.kind(s.last()) == "export_specifier"@ && t.text(src, s.last()) is Some {
            seq![(alias_name(t.text(src, s.last())->0), kind, line, source)]
        } else {
            seq![]
        };
        lemma_shift_exports_add(clause_exports(t, src, s.drop_last(), line, kind, source), last, offset);
        assert(shift_exports(last, offset) =~= if t.kind(s.last()) == "export_specifier"@ && t.text(
            src,
            s.last(),
        ) is Some {
            seq![(alias_name(t.text(src, s.last())->0), kind, line + offset, source)]
        } else {
            seq![]
        });
    }
}

proof fn lemma_declarators_shift(t: &SyntaxTree, src: Seq<u8>, s: Seq<int>, line: int, kind: ExportKind, offset: int)
    ensures
        declarator_exports(t, src, s, line + offset, kind) == shift_exports(
            declarator_exports(t, src, s, line, kind),
            offset,
        ),
    decreases s.len(),
{
    if s.len() > 0 {
        lemma_declarators_shift(t, src, s.drop_last(), line, kind, offset);
        lemma_shift_exports_add(
            declarator_exports(t, src, s.drop_last(), line, kind),
            declarator_export(t, src, s.last(), line, kind),
            offset,
        );
        assert(shift_exports(declarator_export(t, src, s.last(), line, kind), offset) =~= declarator_export(
            t,
            src,
            s.last(),
            line + offset,
            kind,
        ));
    }
}

proof fn lemma_children_shift(
    t: &SyntaxTree,
    src: Seq<u8>,
    s: Seq<int>,
    line: int,
    ckind: ExportKind,
    dkind: ExportKind,
    source: Option<Seq<char>>,
    offset: int,
)
    ensures
        export_children(t, src, s, line + offset, ckind, dkind, source) == shift_exports(
            export_children(t, src, s, line, ckind, dkind, source),
            offset,
        ),
    decreases s.len(),
{
    if s.len() > 0 {
        lemma_children_shift(t, src, s.drop_last(), line, ckind, dkind, source, offset);
        let c = s.last();
        lemma_shift_exports_add(
            export_children(t, src, s.drop_last(), line, ckind, dkind, source),
            export_child(t, src, c, line, ckind, dkind, source),
            offset,
        );
        lemma_clause_shift(t, src, t.children(c), line, ckind, source, offset);
        lemma_declarators_shift(t, src, t.children(c), line, dkind, offset);
        assert(shift_exports(export_child(t, src, c, line, ckind, dkind, source), offset) =~= export_child(
            t,
            src,
            c,
            line + offset,
            ckind,
            dkind,
            source,
        ));
    }
}

proof fn lemma_export_statement_shift(t: &SyntaxTree, src: Seq<u8>, node: int, offset: int)
    requires
        line_of(t, node, offset) == line_of(t, node, 0) + offset,
    ensures
        export_statement(t, src, node, offset) == shift_exports(export_statement(t, src, node, 0), offset),
{
    let line = line_of(t, node, 0);
    let type_only = has_prefix(text_or_empty(t, src, node), "export type "@);
    let kids = t.children(node);
    let has_default = has_child_kind(t, kids, "default"@);
    let has_source = has_child_kind(t, kids, "string"@);
    let has_star = has_child_kind(t, kids, "*"@);
    let source = export_source(t, src, node);
    let ck = clause_export_kind(type_only, has_source, has_default);
    let dk = decl_export_kind(type_only, has_default);
    lemma_children_shift(t, src, kids, line, ck, dk, source, offset);
    let main = export_children(t, src, kids, line, ck, dk, source);
    assert(shift_exports(main.push(("*"@, ExportKind::StarReExport, line, source)), offset) =~= shift_exports(
        main,
        offset,
    ).push(("*"@, ExportKind::StarReExport, line + offset, source)));
    assert(shift_exports(seq![("default"@, ExportKind::Default, line, None::<Seq<char>>)], offset) =~= seq![
        ("default"@, ExportKind::Default, line + offset, None::<Seq<char>>),
    ]);
}

/// The symbols, imports and exports the matches give with a line offset
/// are those they give without one, moved down by it (when no line
/// overflows).
pub proof fn law_offset_moves_lines(t: &SyntaxTree, src: Seq<u8>, ms: Seq<Vec<Capture>>, offset: int)
    requires
        offset >= 0,
        lines_fit(t, offset),
        crate::treesitter::captures_in(t, ms),
    ensures
        matches_symbols(t, src, ms, offset) == shift_symbols(matches_symbols(t, src, ms, 0), offset),
        matches_imports(t, src, ms, offset) == shift_imports(matches_imports(t, src, ms, 0), offset),
        matches_exports(t, src, ms, offset) == shift_exports(matches_exports(t, src, ms, 0), offset),
    decreases ms.len(),
{
    if ms.len() > 0 {
        assert(crate::treesitter::captures_in(t, ms.drop_last())) by {
            assert forall|m: int, c: int|
                0 <= m < ms.drop_last().len() && 0 <= c < ms.drop_last()[m]@.len() implies #[trigger] ms.drop_last()[m]@[c].node
                < t.size() by {
                assert(ms.drop_last()[m] == ms[m]);
            }
        }
        law_offset_moves_lines(t, src, ms.drop_last(), offset);
        let caps = ms.last()@;
        assert forall|c: int| 0 <= c < caps.len() implies #[trigger] caps[c].node < t.size() by {
            assert(ms[ms.len() - 1]@[c].node < t.size());
        }
        lemma_state_node(t, src, caps, caps.len() as int);
        let st = state_of(t, src, caps);
        if st.2 is Some {
            let d = st.2->0;
            assert(t.nodes@[d].start_row + 1 + offset <= usize::MAX);
            assert(t.nodes@[d].end_row + 1 + offset <= usize::MAX);
            assert(line_of(t, d, offset) == line_of(t, d, 0) + offset);
            assert(end_line_of(t, d, offset) == end_line_of(t, d, 0) + offset);
            lemma_export_statement_shift(t, src, d, offset);
        }
        let e0 = matches_exports(t, src, ms.drop_last(), 0);
        lemma_shift_exports_add(e0, match_exports(t, src, st, 0), offset);
        assert(match_exports(t, src, st, offset) == shift_exports(match_exports(t, src, st, 0), offset)) by {
            if !(!st.4 && !st.3 && st.5 && st.2 is Some) {
                assert(shift_exports(Seq::<ExportModel>::empty(), offset) =~= Seq::<ExportModel>::empty());
            }
        }
        let s0 = matches_symbols(t, src, ms.drop_last(), 0);
        let i0 = matches_imports(t, src, ms.drop_last(), 0);
        assert(match_symbols(t, src, st, offset) =~= shift_symbols(match_symbols(t, src, st, 0), offset));
        assert(match_imports(t, src, st, offset) =~= shift_imports(match_imports(t, src, st, 0), offset));
        assert(shift_symbols(s0 + match_symbols(t, src, st, 0), offset) =~= shift_symbols(s0, offset)
            + shift_symbols(match_symbols(t, src, st, 0), offset));
        assert(shift_imports(i0 + match_imports(t, src, st, 0), offset) =~= shift_imports(i0, offset)
            + shift_imports(match_imports(t, src, st, 0), offset));
    }
}

/// Extraction at line offset `offset` gives what extraction at offset 0
/// gives for the same query result, every symbol, import and export line
/// moved down by `offset` (names, kinds, sources, specifiers, flags,
/// signatures and order unchanged), when no line overflows.
pub proof fn law_extraction_offset(
    t: &SyntaxTree,
    src: Seq<u8>,
    r0: FileSymbols,
    r1: FileSymbols,
    offset: int,
    found: Seq<Seq<(Seq<char>, usize)>>,
)
    requires
        offset >= 0,
        lines_fit(t, offset),
        found_by_query(t, src, &r0, 0, found),
        found_by_query(t, src, &r1, offset, found),
    ensures
        symbol_models(r1.symbols@) == shift_symbols(symbol_models(r0.symbols@), offset),
        import_models(r1.imports@) == shift_imports(import_models(r0.imports@), offset),
        export_models(r1.exports@) == shift_exports(export_models(r0.exports@), offset),
{
    let ms0 = choose|ms: Seq<Vec<Capture>>|
        match_views(ms) == found && crate::treesitter::captures_in(t, ms) && symbol_models(r0.symbols@)
            == #[trigger] matches_symbols(t, src, ms, 0) && import_models(r0.imports@) == matches_imports(
            t,
            src,
            ms,
            0,
        ) && export_models(r0.exports@) == matches_exports(t, src, ms, 0);
    let ms1 = choose|ms: Seq<Vec<Capture>>|
        match_views(ms) == found && crate::treesitter::captures_in(t, ms) && symbol_models(r1.symbols@)
            == #[trigger] matches_symbols(t, src, ms, offset) && import_models(r1.imports@) == matches_imports(
            t,
            src,
            ms,
            offset,
        ) && export_models(r1.exports@) == matches_exports(t, src, ms, offset);
    lemma_matches_by_views(t, src, ms1, ms0, offset);
    law_offset_moves_lines(t, src, ms0, offset);
}

fn pair_state_exec(
    t: &SyntaxTree,
    src: &[u8],
    caps: &Vec<Capture>,
    name_cap: &str,
    node_cap: &str,
) -> (r: (Option<String>, Option<usize>))
    requires
        forall|c: int| 0 <= c < caps@.len() ==> #[trigger] caps@[c].node < t.size(),
    ensures
        (opt_view(r.0), opt_int(r.1)) == pair_state(
            t,
            src@,
            caps@,
            caps@.len() as int,
            name_cap@,
            node_cap@,
        ),
        r.1 matches Some(n) ==> n < t.size(),
{
    let mut name: Option<String> = None;
    let mut node: Option<usize> = None;
    let mut c: usize = 0;
    while c < caps.len()
        invariant
            forall|x: int| 0 <= x < caps@.len() ==> #[trigger] caps@[x].node < t.size(),
            c <= caps@.len(),
            node matches Some(n) ==> n < t.size(),
            (opt_view(name), opt_int(node)) == pair_state(
                t,
                src@,
                caps@,
                c as int,
                name_cap@,
                node_cap@,
            ),
        decreases caps@.len() - c,
    {
        let cap = &caps[c];
        if str_eq(cap.name.as_str(), name_cap) {
            name = t.node_text(cap.node, src);
        } else if str_eq(cap.name.as_str(), node_cap) {
            node = Some(cap.node);
        }
        c = c + 1;
    }
    (name, node)
}

/// Walk up from a rune call to the variable it is assigned to.
fn find_rune_variable_name(t: &SyntaxTree, node: usize, src: &[u8]) -> (r: Option<String>)
    requires
        t.wf(),
        node < t.size(),
    ensures
        opt_view(r) == rune_variable(t, src@, node as int),
{
    match parent_of(t, node) {
        Some(p) => {
            if t.kind_is(p, "variable_declarator") {
                match t.find_child_of_kind(p, "identifier") {
                    Some(c) => t.node_text(c, src),
                    None => None,
                }
            } else {
                None
            }
        },
        None => None,
    }
}

/// Appends the rune symbols of the rune query's matches `ms`.
pub fn runes_from_matches(
    tree: &SyntaxTree,
    source: &[u8],
    ms: &Vec<Vec<Capture>>,
    line_offset: usize,
    symbols: &mut Vec<Symbol>,
)
    requires
        tree.wf(),
        crate::treesitter::captures_in(tree, ms@),
    ensures
        symbol_models(final(symbols)@) == symbol_models(old(symbols)@) + matches_runes(
            tree,
            source@,
            ms@,
            line_offset as int,
        ),
{
    let ghost start = symbol_models(symbols@);
    let mut m: usize = 0;
    assert(start =~= start + matches_runes(tree, source@, ms@.take(0), line_offset as int));
    while m < ms.len()
        invariant
            tree.wf(),
            crate::treesitter::captures_in(tree, ms@),
            m <= ms@.len(),
            symbol_models(symbols@) == start + matches_runes(
                tree,
                source@,
                ms@.take(m as int),
                line_offset as int,
            ),
        decreases ms@.len() - m,
    {
        proof {
            assert(ms@.take(m + 1).drop_last() =~= ms@.take(m as int));
            assert(ms@.take(m + 1).last() == ms@[m as int]);
            assert forall|c: int| 0 <= c < ms@[m as int]@.len() implies #[trigger] ms@[m as int]@[c].node
                < tree.size() by {
                assert(ms@[m as int]@[c].node < tree.size());
            }
        }
        let (name, node) = pair_state_exec(tree, source, &ms[m], "rune_name", "rune_call");
        let ghost before = symbol_models(symbols@);
        match (name, node) {
            (Some(name), Some(node)) => {
                let display = match find_rune_variable_name(tree, node, source) {
                    Some(var) => {
                        let open = chars_of("(");
                        let close = chars_of(")");
                        let joined = concat_chars(
                            &concat_chars(&concat_chars(&chars_of(name.as_str()), &open), &chars_of(var.as_str())),
                            &close,
                        );
                        string_from_chars(&joined)
                    },
                    None => name,
                };
                push_symbol(
                    symbols,
                    Symbol {
                        name: display,
                        kind: SymbolKind::Rune,
                        line: line_at(tree, node, line_offset),
                        end_line: end_line_at(tree, node, line_offset),
                        exported: false,
                        signature: None,
                    },
                );
            },
            _ => {},
        }
        assert(symbol_models(symbols@) =~= before + match_rune(tree, source@, ms@[m as int]@, line_offset as int));
        m = m + 1;
    }
    assert(ms@.take(m as int) =~= ms@);
}

/// Appends the prop symbols of the legacy prop query's matches `ms`.
pub fn props_from_matches(
    tree: &SyntaxTree,
    source: &[u8],
    ms: &Vec<Vec<Capture>>,
    line_offset: usize,
    symbols: &mut Vec<Symbol>,
)
    requires
        tree.wf(),
        crate::treesitter::captures_in(tree, ms@),
    ensures
        symbol_models(final(symbols)@) == symbol_models(old(symbols)@) + matches_props(
            tree,
            source@,
            ms@,
            line_offset as int,
        ),
{
    let ghost start = symbol_models(symbols@);
    let mut m: usize = 0;
    assert(start =~= start + matches_props(tree, source@, ms@.take(0), line_offset as int));
    while m < ms.len()
        invariant
            tree.wf(),
            crate::treesitter::captures_in(tree, ms@),
            m <= ms@.len(),
            symbol_models(symbols@) == start + matches_props(
                tree,
                source@,
                ms@.take(m as int),
                line_offset as int,
            ),
        decreases ms@.len() - m,
    {
        proof {
            assert(ms@.take(m + 1).drop_last() =~= ms@.take(m as int));
            assert(ms@.take(m + 1).last() == ms@[m as int]);
            assert forall|c: int| 0 <= c < ms@[m as int]@.len() implies #[trigger] ms@[m as int]@[c].node
                < tree.size() by {
                assert(ms@[m as int]@[c].node < tree.size());
            }
        }
        let (name, node) = pair_state_exec(tree, source, &ms[m], "legacy_prop_name", "legacy_prop");
        let ghost before = symbol_models(symbols@);
        match (name, node) {
            (Some(name), Some(node)) => {
                push_symbol(
                    symbols,
                    Symbol {
                        name,
                        kind: SymbolKind::Variable,
                        line: line_at(tree, node, line_offset),
                        end_line: end_line_at(tree, node, line_offset),
                        exported: true,
                        signature: None,
                    },
                );
            },
            _ => {},
        }
        assert(symbol_models(symbols@) =~= before + match_prop(tree, source@, ms@[m as int]@, line_offset as int));
        m = m + 1;
    }
    assert(ms@.take(m as int) =~= ms@);
}


// ---------------------------------------------------------------------------
// Extraction
// ---------------------------------------------------------------------------

/// The captures of matches as names and node indices.
pub open spec fn match_views(ms: Seq<Vec<Capture>>) -> Seq<Seq<(Seq<char>, usize)>> {
    ms.map_values(|v: Vec<Capture>| captures_view(v@))
}

/// `r` holds the symbols, imports and exports of the matches `found`
/// (names and node indices of each capture) in tree `t` of text `src`.
pub open spec fn found_by_query(
    t: &SyntaxTree,
    src: Seq<u8>,
    r: &FileSymbols,
    offset: int,
    found: Seq<Seq<(Seq<char>, usize)>>,
) -> bool {
    exists|ms: Seq<Vec<Capture>>|
        match_views(ms) == found && crate::treesitter::captures_in(t, ms) && symbol_models(r.symbols@)
            == #[trigger] matches_symbols(t, src, ms, offset) && import_models(r.imports@) == matches_imports(
            t,
            src,
            ms,
            offset,
        ) && export_models(r.exports@) == matches_exports(t, src, ms, offset)
}

/// Run a symbol extraction query against a single tree and collect results:
/// the symbols, imports and exports of the matches tree-sitter finds.
///
/// `line_offset` moves line numbers down, for Svelte script blocks (which
/// are parsed apart from the rest of their file).
pub fn extract_from_tree(
    ts_tree: &SourceTree,
    tree: &SyntaxTree,
    source: &[u8],
    query: &CompiledQuery,
    line_offset: usize,
) -> (r: FileSymbols)
    requires
        tree.wf(),
        crate::treesitter::rows_ordered(*tree),
        *tree == ts_tree.plain(),
        query.grammar() == ts_tree.grammar(),
    ensures
        found_by_query(
            tree,
            source@,
            &r,
            line_offset as int,
            query_result(query.grammar(), query.source(), ts_tree.text()),
        ),
        forall|k: int|
            0 <= k < r.symbols@.len() ==> (#[trigger] r.symbols@[k]).line <= r.symbols@[k].end_line && (line_offset
                < usize::MAX ==> line_offset + 1 <= r.symbols@[k].line),
        forall|k: int|
            0 <= k < r.symbols@.len() && (#[trigger] r.symbols@[k]).signature is Some ==> r.symbols@[k].kind is Function
                || r.symbols@[k].kind is ArrowFunction || r.symbols@[k].kind is Method,
        forall|k: int|
            0 <= k < r.imports@.len() && ((#[trigger] r.imports@[k]).kind is Dynamic || r.imports@[k].kind is SideEffect)
                ==> r.imports@[k].specifiers@.len() == 0,
{
    let ms = run_query(query, ts_tree, tree);
    let r = symbols_from_matches(tree, source, &ms, line_offset);
    proof {
        law_match_shapes(tree, source@, ms@, line_offset as int);
        assert forall|k: int| 0 <= k < r.symbols@.len() && (#[trigger] r.symbols@[k]).signature is Some implies r.symbols@[
            k].kind is Function || r.symbols@[k].kind is ArrowFunction || r.symbols@[k].kind is Method by {
            assert(symbol_models(r.symbols@)[k] == r.symbols@[k].model());
        }
        assert forall|k: int| 0 <= k < r.imports@.len() && ((#[trigger] r.imports@[k]).kind is Dynamic
            || r.imports@[k].kind is SideEffect) implies r.imports@[k].specifiers@.len() == 0 by {
            assert(import_models(r.imports@)[k] == r.imports@[k].model());
            assert(views(r.imports@[k].specifiers@).len() == r.imports@[k].specifiers@.len());
        }
        law_symbol_lines_ordered(tree, source@, ms@, line_offset as int);
        assert forall|k: int| 0 <= k < r.symbols@.len() implies (#[trigger] r.symbols@[k]).line
            <= r.symbols@[k].end_line && (line_offset < usize::MAX ==> line_offset + 1 <= r.symbols@[k].line) by {
            assert(symbol_models(r.symbols@)[k] == r.symbols@[k].model());
        }
    }
    assert(match_views(ms@) =~= query_result(query.grammar(), query.source(), ts_tree.text()));
    assert(matches_symbols(tree, source@, ms@, line_offset as int) == symbol_models(r.symbols@));
    r
}

/// Extract Svelte 5 runes from a script block.
fn extract_runes(
    ts_tree: &SourceTree,
    tree: &SyntaxTree,
    source: &[u8],
    query: &CompiledQuery,
    line_offset: usize,
    symbols: &mut Vec<Symbol>,
)
    requires
        tree.wf(),
        *tree == ts_tree.plain(),
        query.grammar() == ts_tree.grammar(),
    ensures
        exists|ms: Seq<Vec<Capture>>|
            match_views(ms) == query_result(query.grammar(), query.source(), ts_tree.text())
                && crate::treesitter::captures_in(tree, ms) && symbol_models(final(symbols)@) == symbol_models(
                old(symbols)@,
            ) + #[trigger] matches_runes(tree, source@, ms, line_offset as int),
{
    let ms = run_query(query, ts_tree, tree);
    runes_from_matches(tree, source, &ms, line_offset, symbols);
    assert(crate::treesitter::captures_in(tree, ms@));
    assert(match_views(ms@) =~= query_result(query.grammar(), query.source(), ts_tree.text()));
}

/// Extract Svelte 4 legacy `export let` props from a script block.
fn extract_legacy_props(
    ts_tree: &SourceTree,
    tree: &SyntaxTree,
    source: &[u8],
    query: &CompiledQuery,
    line_offset: usize,
    symbols: &mut Vec<Symbol>,
)
    requires
        tree.wf(),
        *tree == ts_tree.plain(),
        query.grammar() == ts_tree.grammar(),
    ensures
        exists|ms: Seq<Vec<Capture>>|
            match_views(ms) == query_result(query.grammar(), query.source(), ts_tree.text())
                && crate::treesitter::captures_in(tree, ms) && symbol_models(final(symbols)@) == symbol_models(
                old(symbols)@,
            ) + #[trigger] matches_props(tree, source@, ms, line_offset as int),
{
    let ms = run_query(query, ts_tree, tree);
    props_from_matches(tree, source, &ms, line_offset, symbols);
    assert(crate::treesitter::captures_in(tree, ms@));
    assert(match_views(ms@) =~= query_result(query.grammar(), query.source(), ts_tree.text()));
}

/// The component symbol of a Svelte file: named after the file's stem
/// (`Unknown` without a file name), spanning all its lines (at least one),
/// exported.
pub open spec fn component_model(path: Seq<char>, source: Seq<char>) -> SymbolModel {
    let name = match file_name(path) {
        Some(n) => stem_of(n),
        None => "Unknown"@,
    };
    let lines = lines_of(source).len();
    (name, SymbolKind::Component, 1, if lines > 1 { lines as int } else { 1 }, true, None)
}

/// The component symbol of a Svelte file.
pub fn component_symbol(path: &str, source: &str) -> (r: Symbol)
    ensures
        r.model() == component_model(path@, source@),
{
    let name = match file_stem(path) {
        Some(s) => s,
        None => String::from_str("Unknown"),
    };
    let lines = blank_line_flags(&chars_of(source)).len();
    Symbol {
        name,
        kind: SymbolKind::Component,
        line: 1,
        end_line: if lines > 1 {
            lines
        } else {
            1
        },
        exported: true,
        signature: None,
    }
}

fn append_symbols(out: &mut Vec<Symbol>, more: Vec<Symbol>)
    ensures
        symbol_models(final(out)@) == symbol_models(old(out)@) + symbol_models(more@),
{
    let ghost orig = more@;
    let ghost before = out@;
    let mut more = more;
    out.append(&mut more);
    assert(symbol_models(out@) =~= symbol_models(before) + symbol_models(orig));
}

fn append_imports(out: &mut Vec<Import>, more: Vec<Import>)
    ensures
        import_models(final(out)@) == import_models(old(out)@) + import_models(more@),
{
    let ghost orig = more@;
    let ghost before = out@;
    let mut more = more;
    out.append(&mut more);
    assert(import_models(out@) =~= import_models(before) + import_models(orig));
}

fn empty_symbols() -> (r: FileSymbols)
    ensures
        r.symbols@.len() == 0,
        r.imports@.len() == 0,
        r.exports@.len() == 0,
{
    FileSymbols { symbols: Vec::new(), imports: Vec::new(), exports: Vec::new() }
}

/// The three Svelte script queries all compile for TypeScript.
pub open spec fn svelte_queries_compile() -> bool {
    &&& query_compiles(Grammar::TypeScript, TYPESCRIPT_QUERY_SOURCE@)
    &&& query_compiles(Grammar::TypeScript, RUNE_QUERY_SOURCE@)
    &&& query_compiles(Grammar::TypeScript, LEGACY_PROP_QUERY_SOURCE@)
}

/// What extraction finds in one script block: the symbols of the matches
/// the TypeScript query finds in its text, then those of its runes, then
/// those of its legacy props; the imports and exports of the TypeScript
/// query's matches. Lines count from the block's first line in the file.
pub open spec fn block_found(block: ScriptBlock, s: Seq<SymbolModel>, i: Seq<ImportModel>, e: Seq<ExportModel>) -> bool {
    let src = encode_utf8(block.source@);
    let off = block.start_line as int;
    exists|ms: Seq<Vec<Capture>>, rs: Seq<Vec<Capture>>, ps: Seq<Vec<Capture>>|
        #![trigger matches_symbols(&block.tree, src, ms, off), matches_runes(&block.tree, src, rs, off), matches_props(&block.tree, src, ps, off)]
        match_views(ms) == query_result(Grammar::TypeScript, TYPESCRIPT_QUERY_SOURCE@, block.source@)
            && match_views(rs) == query_result(Grammar::TypeScript, RUNE_QUERY_SOURCE@, block.source@)
            && match_views(ps) == query_result(Grammar::TypeScript, LEGACY_PROP_QUERY_SOURCE@, block.source@)
            && crate::treesitter::captures_in(&block.tree, ms) && crate::treesitter::captures_in(&block.tree, rs)
            && crate::treesitter::captures_in(&block.tree, ps) && s == matches_symbols(&block.tree, src, ms, off)
            + matches_runes(&block.tree, src, rs, off) + matches_props(&block.tree, src, ps, off) && i
            == matches_imports(&block.tree, src, ms, off) && e == matches_exports(&block.tree, src, ms, off)
}

/// `r` holds the component symbol of the file, then what each of its first
/// `n` script blocks gives, block after block.
pub open spec fn svelte_found(pf: ParsedFile, r: FileSymbols, n: int) -> bool {
    exists|ss: Seq<Seq<SymbolModel>>, is: Seq<Seq<ImportModel>>, es: Seq<Seq<ExportModel>>|
        #![trigger ss.flatten(), is.flatten(), es.flatten()]
        ss.len() == n && is.len() == n && es.len() == n && (forall|b: int|
            0 <= b < n ==> block_found(pf.script_blocks@[b], #[trigger] ss[b], is[b], es[b])) && symbol_models(
            r.symbols@,
        ) == seq![component_model(pf.source_file.path@, pf.source@)] + ss.flatten() && import_models(r.imports@)
            == is.flatten() && export_models(r.exports@) == es.flatten()
}

/// Extract symbols from a Svelte file: its component symbol, then for each
/// script block its symbols, runes and legacy props, imports and exports.
/// When a query does not compile, only the component symbol.
fn extract_svelte(parsed_file: &ParsedFile) -> (r: FileSymbols)
    requires
        parsed_file.wf(),
    ensures
        r.symbols@.len() >= 1,
        r.symbols@[0].model() == component_model(
            parsed_file.source_file.path@,
            parsed_file.source@,
        ),
        svelte_queries_compile() ==> svelte_found(*parsed_file, r, parsed_file.script_blocks@.len() as int),
        !svelte_queries_compile() ==> symbol_models(r.symbols@) == seq![
            component_model(parsed_file.source_file.path@, parsed_file.source@),
        ] && r.imports@.len() == 0 && r.exports@.len() == 0,
{
    let mut symbols: Vec<Symbol> = Vec::new();
    let mut imports: Vec<Import> = Vec::new();
    let mut exports: Vec<Export> = Vec::new();
    symbols.push(component_symbol(parsed_file.source_file.path.as_str(), parsed_file.source.as_str()));
    let ghost first = symbols@[0].model();
    assert(symbol_models(symbols@) =~= seq![first]);
    let ts_lang = load_grammar(Grammar::TypeScript);
    let queries = (typescript_query(), rune_query(&ts_lang), legacy_prop_query(&ts_lang));
    let (ts_query, rune_q, prop_q) = match queries {
        (Some(a), Some(b), Some(c)) => (a, b, c),
        _ => {
            return FileSymbols { symbols, imports, exports };
        },
    };
    let ghost mut ss: Seq<Seq<SymbolModel>> = seq![];
    let ghost mut is: Seq<Seq<ImportModel>> = seq![];
    let ghost mut es: Seq<Seq<ExportModel>> = seq![];
    let mut b: usize = 0;
    while b < parsed_file.script_blocks.len()
        invariant
            parsed_file.wf(),
            b <= parsed_file.script_blocks@.len(),
            first == component_model(parsed_file.source_file.path@, parsed_file.source@),
            svelte_queries_compile(),
            ts_query.grammar() == Grammar::TypeScript && ts_query.source() == TYPESCRIPT_QUERY_SOURCE@,
            rune_q.grammar() == Grammar::TypeScript && rune_q.source() == RUNE_QUERY_SOURCE@,
            prop_q.grammar() == Grammar::TypeScript && prop_q.source() == LEGACY_PROP_QUERY_SOURCE@,
            ss.len() == b,
            is.len() == b,
            es.len() == b,
            forall|x: int| 0 <= x < b ==> block_found(parsed_file.script_blocks@[x], #[trigger] ss[x], is[x], es[x]),
            symbol_models(symbols@) == seq![first] + ss.flatten(),
            import_models(imports@) == is.flatten(),
            export_models(exports@) == es.flatten(),
        decreases parsed_file.script_blocks@.len() - b,
    {
        let block = &parsed_file.script_blocks[b];
        assert(block.wf());
        let src = block.source.as_str().as_bytes();
        let line_offset = block.start_line;
        let found = extract_from_tree(&block.ts_tree, &block.tree, src, &ts_query, line_offset);
        let ghost sym0 = symbol_models(symbols@);
        let ghost imp0 = import_models(imports@);
        let ghost exp0 = export_models(exports@);
        let ghost fsyms = symbol_models(found.symbols@);
        let ghost fimps = import_models(found.imports@);
        let ghost fexps = export_models(found.exports@);
        append_symbols(&mut symbols, found.symbols);
        append_imports(&mut imports, found.imports);
        append_exports(&mut exports, found.exports);
        let ghost mid = symbol_models(symbols@);
        extract_runes(&block.ts_tree, &block.tree, src, &rune_q, line_offset, &mut symbols);
        let ghost mid2 = symbol_models(symbols@);
        extract_legacy_props(&block.ts_tree, &block.tree, src, &prop_q, line_offset, &mut symbols);
        proof {
            let srcv = encode_utf8(block.source@);
            let off = line_offset as int;
            assert(src@ == srcv);
            let ms = choose|ms: Seq<Vec<Capture>>|
                match_views(ms) == query_result(Grammar::TypeScript, TYPESCRIPT_QUERY_SOURCE@, block.source@)
                    && crate::treesitter::captures_in(&block.tree, ms) && fsyms == #[trigger] matches_symbols(
                    &block.tree,
                    srcv,
                    ms,
                    off,
                ) && fimps == matches_imports(&block.tree, srcv, ms, off) && fexps == matches_exports(
                    &block.tree,
                    srcv,
                    ms,
                    off,
                );
            let rs = choose|rs: Seq<Vec<Capture>>|
                match_views(rs) == query_result(Grammar::TypeScript, RUNE_QUERY_SOURCE@, block.source@)
                    && crate::treesitter::captures_in(&block.tree, rs) && mid2 == mid + #[trigger] matches_runes(
                    &block.tree,
                    srcv,
                    rs,
                    off,
                );
            let ps = choose|ps: Seq<Vec<Capture>>|
                match_views(ps) == query_result(Grammar::TypeScript, LEGACY_PROP_QUERY_SOURCE@, block.source@)
                    && crate::treesitter::captures_in(&block.tree, ps) && symbol_models(symbols@) == mid2
                    + #[trigger] matches_props(&block.tree, srcv, ps, off);
            let delta = fsyms + matches_runes(&block.tree, srcv, rs, off) + matches_props(&block.tree, srcv, ps, off);
            assert(block_found(*block, delta, fimps, fexps));
            ss.lemma_flatten_push(delta);
            is.lemma_flatten_push(fimps);
            es.lemma_flatten_push(fexps);
            assert(symbol_models(symbols@) =~= seq![first] + ss.push(delta).flatten());
            assert(import_models(imports@) =~= is.push(fimps).flatten());
            assert(export_models(exports@) =~= es.push(fexps).flatten());
            assert forall|x: int| 0 <= x < b + 1 implies block_found(
                parsed_file.script_blocks@[x],
                #[trigger] ss.push(delta)[x],
                is.push(fimps)[x],
                es.push(fexps)[x],
            ) by {
                if x < b {
                    assert(ss.push(delta)[x] == ss[x]);
                    assert(is.push(fimps)[x] == is[x]);
                    assert(es.push(fexps)[x] == es[x]);
                }
            }
            ss = ss.push(delta);
            is = is.push(fimps);
            es = es.push(fexps);
        }
        b = b + 1;
    }
    let r = FileSymbols { symbols, imports, exports };
    assert(symbol_models(r.symbols@).len() == r.symbols@.len());
    assert(r.symbols@[0].model() == symbol_models(r.symbols@)[0]);
    assert(svelte_found(*parsed_file, r, parsed_file.script_blocks@.len() as int));
    r
}

/// The symbol query's text for a script language: the JavaScript query
/// for JavaScript and JSX, the TypeScript query otherwise.
pub open spec fn query_source_for(lang: DetectedLanguage) -> Seq<char> {
    match lang {
        DetectedLanguage::JavaScript | DetectedLanguage::Jsx => JAVASCRIPT_QUERY_SOURCE@,
        _ => TYPESCRIPT_QUERY_SOURCE@,
    }
}

/// What extraction gives for a parsed file: for a script file, the
/// symbols, imports and exports of the matches its language's query finds
/// in its text (nothing when the query does not compile); for a Svelte
/// component, its component symbol first, then what each script block
/// gives (only the component symbol when a query does not compile).
pub open spec fn symbols_of(pf: ParsedFile, r: FileSymbols) -> bool {
    let lang = pf.source_file.language;
    if lang != DetectedLanguage::Svelte {
        if query_compiles(grammar_for(lang), query_source_for(lang)) {
            found_by_query(
                &pf.tree,
                encode_utf8(pf.source@),
                &r,
                0,
                query_result(grammar_for(lang), query_source_for(lang), pf.source@),
            )
        } else {
            r.symbols@.len() == 0 && r.imports@.len() == 0 && r.exports@.len() == 0
        }
    } else {
        &&& r.symbols@.len() >= 1
        &&& r.symbols@[0].model() == component_model(pf.source_file.path@, pf.source@)
        &&& svelte_queries_compile() ==> svelte_found(pf, r, pf.script_blocks@.len() as int)
        &&& !svelte_queries_compile() ==> symbol_models(r.symbols@) == seq![
            component_model(pf.source_file.path@, pf.source@),
        ] && r.imports@.len() == 0 && r.exports@.len() == 0
    }
}

/// Extract all symbols, imports, and exports from a parsed file, with the
/// query of its language; a Svelte component gets its component symbol and
/// the symbols of its script blocks.
pub fn extract_symbols(parsed_file: &ParsedFile) -> (r: FileSymbols)
    requires
        parsed_file.wf(),
    ensures
        symbols_of(*parsed_file, r),
{
    let query = match parsed_file.source_file.language {
        DetectedLanguage::Svelte => {
            return extract_svelte(parsed_file);
        },
        DetectedLanguage::JavaScript | DetectedLanguage::Jsx => javascript_query(),
        DetectedLanguage::TypeScript => typescript_query(),
        DetectedLanguage::Tsx => tsx_query(),
    };
    let src = parsed_file.source.as_str().as_bytes();
    match query {
        Some(q) => extract_from_tree(&parsed_file.ts_tree, &parsed_file.tree, src, &q, 0),
        None => empty_symbols(),
    }
}

} // verus!
