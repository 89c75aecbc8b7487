# corvalis-recon

Structured analysis of JavaScript, TypeScript and Svelte projects: symbols,
imports and exports, a file-level dependency graph with cycles, complexity
metrics and hotspots, a project overview, and a ranking of files by
importance that a token budget can trim.

The library in `src/` is written in Verus. Its functions state their
results in `requires`/`ensures` over plain mathematical models (sequences
of characters for strings, sequences for vectors), and Verus proves the
code against them. Tree-sitter does the parsing and query matching, and
JSON5 and JSON documents are read with `json5` and `serde_json`; what
these outside crates return is not proved but named (`parse_nodes`,
`query_matches`, `json5_value`, ...) in the contracts of the few trusted
wrappers that call them, and the library's results are stated over those
names. Tree-sitter's trees are copied into a plain preorder `SyntaxTree`
on which the analyses are specified and proved.

Layout of `src/`:

- `text`, `order`, `syntax`: strings as character sequences, a stable sort
  with its permutation, the plain syntax tree.
- `treesitter`, `queries`, `parse`: the calls into tree-sitter, the symbol
  queries, parsing of files and Svelte script blocks.
- `language`, `walk`, `config`: which files are analyzed and how discovery
  decides on each walked entry.
- `symbols`, `complexity`, `metrics`: symbols, imports and exports; line
  counts, cyclomatic complexity, nesting; hotspots.
- `resolve`, `deps`: import resolution with `tsconfig.json` path aliases;
  the dependency graph, entry points, leaves, cycles and statistics.
- `overview`, `ranking`, `analyze`, `report`, `cli`, `output`: the project
  overview, file scores, the full analysis with its budget and plain-text
  rendering, the `complexity` and `symbols` commands, the command line and
  the result types.

`app/` is the command-line program around the library: argument parsing,
the directory walk, reading files, JSON output.
