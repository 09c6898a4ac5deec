# codescout

The chunking, classification and bookkeeping logic of the codescout coding
agent, written in Verus with its behaviour stated as contracts and proved.

## Layout

- `src/` — the verified library.
  - `text.rs`: character-level models of the string operations used
    throughout (`str::lines`, trimming, prefixes, UTF-8 lengths).
  - `embed/chunker.rs`: plain line packing and markdown sections.
  - `embed/syntax.rs`: the tree-sitter outline of a source file (the one
    call into tree-sitter) and navigation over it.
  - `embed/ast_chunker.rs`: the language registry, doc-comment detection,
    container headers, sub-splitting of oversized declarations, and
    `split_file`.
  - `embed/index.rs`: database paths, change detection, content hashing
    (SHA-256, hex), search scopes and the model check.
  - `embed/drift.rs`: exact-content pairing, greedy assignment, snippets.
  - `memory/classify.rs`, `tools/`, `usage/`, `lsp/`, `logging.rs`,
    `dashboard/`: keyword buckets, file summaries, tool-call outcomes, the
    mock language-server client, log rotation, dashboard parameters.
- `tests/` — tests of the library, run against the compiled crate.
- `app/` — the command line, SQLite storage, file-system walking, floating
  point similarity and MCP notifications, around the library.

Laws of the library are public proof functions named `law_*`.
