# CodeSift

Token-efficient code intelligence for AI coding agents: an index of a repository's files
and symbols, a call graph, lexical search, ranking, and context planning within a token
budget, served on the command line or over MCP (JSON-RPC 2.0).

## Layout

- `src/` is the library, written in Verus. Its functions carry contracts and are proved
  against them, with one exception: the small functions marked
  `#[verifier::external_body]`, which make the calls into tree-sitter, regex, hashbrown
  and std. Their contracts are trusted, not proved: each one's doc comment says what it
  claims of the outside code. The public proof functions state the library's laws (what a read of
  the index gives back of a write, that a plan keeps to its budget, that a call graph walk
  finds every symbol within its depth, that framed cache data reads back unchanged, ...).
  - `index`, `graph`, `engine`: the index, the call graph, and the engine over both.
  - `parser`: symbols and calls from tree-sitter syntax trees.
  - `search`, `ranking`, `context`, `retrieval`, `semantic`: search, scoring, planning.
  - `repository`, `watcher`, `storage`, `paths`: what the file system hands in, as values.
  - `mcp`, `report`: the tool protocol's decisions and the texts that are printed.
  - `tables`, `text`, `types`, `error`: collections, text helpers, shared types.
- `tests/` runs the library on concrete values.
- `app/` is the program around it: the command line, file and network I/O, JSON, the
  file watcher, and the floating-point semantic scores.
