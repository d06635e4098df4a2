# fileflow

FileFlow runs file pipelines against a copy-on-write sandbox and records
every step in a hash-chained journal. This crate is its core, written in
Verus: each public function carries a contract that Verus proves.

- `src/` — the verified library:
  - `digest`, `merkle`: BLAKE3 digests, their order, and the Merkle root
    over a set of digests (independent of the order they are given in).
  - `journal`: journal blocks and their digests, the Merkle tree.
  - `vfs`: snapshots, sandboxes, their roots, and checking a journaled
    step out again.
  - `flowlang`, `flowtext`: the FlowLang tokenizer and parser, with the
    grammar stated as spec functions, and the rendering that parses back.
  - `pipeline`, `compile`, `scheduler`: pipelines compiled from FlowLang,
    their topological order, and running one node against a sandbox.
  - `hyperquery`: rows of the file index and the queries over them.
  - `orchestrator`: the orchestrator service's answers.
- `tests/` — tests of the library on concrete values.
- `app/` — the `fileflow` command line: file system, SQLite and JSON I/O
  around the library.
