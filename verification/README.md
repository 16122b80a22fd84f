# callgraph

Builds call graphs of C source code by reading its text line by line: the
functions a function calls (callee mode) or the functions that call it
(caller mode), down to a given depth, and renders them as indented text
(`depth: name()` per line, four blanks per level).

Layout:

- `src/text.rs` — character-level operations (trimming, searching, words,
  decimal numbers) with their definitions over `Seq<char>`.
- `src/graph.rs` — `FunctionNode`, its model `CallTree`, and the text form.
- `src/pattern.rs` — the `regex` crate's regular expressions, behind named
  queries.
- `src/source.rs` — source lines and the lookup tables the analyzers keep.
- `src/analyze.rs`, `src/callee.rs`, `src/caller.rs` — the three analyzers,
  each with the model of what it computes and the laws proved of it.
- `app/main.rs` — the command-line program: reads the configuration and the
  source files, runs an analyzer, writes the output file.

Configuration file (first four lines): comma-separated C source files, the
target function, the depth, and the mode (`callee` or `caller`).
