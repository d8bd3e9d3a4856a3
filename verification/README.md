# rinkaku

rinkaku (輪郭, "outline") condenses a pull request's diff into the
signatures of the definitions it touches, with their one-hop
dependencies, the graph of references among them and its entry points.

## Layout

- `src/` — the library, written in Verus and verified:
  - `diff` parses unified diffs into changed files, the new-side ranges
    of their added lines and the old-side ranges of their removed lines;
  - `tree` holds a parsed syntax tree as plain values;
  - `parse` parses a source with its language's tree-sitter grammar,
    reads the parse node for node into a `tree::SyntaxTree` and runs the
    language's definition and reference queries over it;
  - `extract` decides which definitions a change reports and what each
    reports (kind, name, signature, rows, container, referenced names,
    test status), and classifies head symbols against the base side;
    Terraform blocks are named in reference syntax (`aws_instance.web`,
    `var.region`), `locals` expanded per attribute, and traversals read
    as the names they reference;
  - `language` routes paths to languages, holds each language's
    definition and reference queries, and decides which paths and which
    Rust definitions are tests;
  - `deps` resolves referenced names to definitions elsewhere in the
    repository, ranked by path proximity and capped per name;
  - `graph` builds the reference graph, its cycles, entry points,
    fan-ins and sub-graphs under a path prefix;
  - `pipeline`, `file_size`, `non_symbol_changes`, `progress` and
    `report` assemble the final report.
- `app/` — the command-line program and the analysis entry points around
  the library: reading the diff and files, fanning the work out over
  threads, and handing each step to the library.
- `tests/` — tests of the library, among them extraction on real
  tree-sitter parses.
