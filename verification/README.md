# rix

The front end of a small compiler for the `rix` language, verified with Verus.

- `src/lexer.rs`: tokens and the lexer, with a spec function that lexes from any position.
- `src/parser/`: a recursive-descent parser; `grammar.rs` states the grammar as spec
  functions over the characters of the source, and every parse function is proved to
  build the tree and report the errors that the grammar gives; `roundtrip.rs` proves
  that printing an expression parsed from canonically spaced text gives the text back.
- `src/ast/`: the arenas of the syntax tree, views over them, the trees they stand for
  (`tree.rs`), printing back as source text (`printer.rs`) and a symbol table.
- `src/errors/`: collecting, sorting and locating errors.
- `src/analysis/`: name resolution with nested scopes.
- `src/tir/`: the types of the typed IR, each stored once.
- `app/main.rs`: reads `test.rix`, parses it, prints the tree and the errors.
