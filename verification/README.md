# logos_core

Building blocks of a lexer generator, verified with Verus.

A lexer is a list of *specifications* (byte patterns: bytes, sequences,
alternatives, repetitions), each paired with the match it produces. The
library compiles such a list into a state graph of forks and ropes, runs that
graph over input bytes, and plans the Rust code that a derive macro prints
for it.

## Layout

- `src/specification.rs` – specifications, their default priorities
  (checked and unchecked), and constructors for common byte classes.
- `src/regex.rs` – regular expressions: parsing through `regex_syntax`,
  reading a parsed expression into a plain `Regex`, and turning a `Regex`
  into a specification or the reason why it has none.
- `src/lexer.rs`, `src/variant.rs`, `src/variant_match.rs` – lexer
  descriptions and the matches they produce.
- `src/graph.rs` and `src/graph/` – the graph builder: merging of nodes
  (remembered per pair and per set of joined nodes), forks, ropes, the arena
  with its renumbering deletion, and the removal of unreachable nodes.
- `src/interpreter.rs` – runs a graph over bytes, with a specification of
  each step of the state machine.
- `src/runtime.rs` – the token-position state that generated lexer code
  drives over its source text.
- `src/analysis.rs` – the backtrack distance analysis of a built graph.
- `src/generator.rs` – the plan of the generated code for each state, and
  the packed lookup tables of its ropes.
- `src/byte_test.rs` – how generated code tests a byte against ranges, and
  fork jump tables.
- `src/parser.rs` – specifications and priorities of `#[token]` and
  `#[regex]` attributes.
- `src/trusted.rs` – calls into `itertools` and into std functions that vstd
  does not specify.
- `app/` – the derive itself: reading an enum with `syn`, and printing the
  planned code with `quote`.
- `tests/` – tests of the library.
