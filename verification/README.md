# lexora

The front end and a textual LLVM IR back end of Lexora, a small statically
typed language, written in Verus with contracts proved for each part.

Layout:

- `src/` — the verified library:
  - `lexer.rs`: tokens, whitespace and `//` comments, recovery after bad bytes;
  - `parser.rs`: recursive-descent parser with error recovery;
  - `typechecker.rs`, `typing.rs`, `tables.rs`: names, types, generic enum instances;
  - `move_check.rs`: the ownership (move) pass;
  - `backend/string_ir/`: the IR text builder and code generator (enum
    values, `match` and `?` are reported as not yet supported there);
  - `source_map.rs`, `diagnostic.rs`, `error.rs`, `span.rs`: locations and rendering;
  - `symbol.rs`, `suggest.rs`, `text.rs`, `strslice.rs`: interning, suggestions, text helpers.
- `tests/` — tests that run the library on concrete programs.
- `app/` — the command-line driver: reads files, follows imports (after a
  first pass that collects every enum name), reports errors and writes the IR.
