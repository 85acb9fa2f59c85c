# dockerfile_parser

A lossless lexer, parser and typed syntax tree for Dockerfiles, verified with
Verus.

- `src/kind.rs`: every kind of token and node, and their raw `u16` numbers.
- `src/lexer.rs`: the token stream; its tokens tile the source.
- `src/directive.rs`: the leading `# name=value` directive block and the
  escape character it sets.
- `src/grammar.rs`, `src/parser.rs`: the grammar as spec functions over the
  tokens, and the parser that emits exactly its events and diagnostics.
- `src/placement.rs`: trivia handling: every top-level token of the tree
  is trivia, and every top-level node holds its logical line only and is
  followed by the newline that ends it.
- `src/lossless.rs`, `src/tree.rs`, `src/green.rs`, `src/document.rs`: the
  syntax tree and the `rowan` green tree built from the events; the text of
  either is the source, byte for byte.
- `src/ast.rs`, `src/node_values.rs`, `src/words.rs`: typed views of the
  instructions and the values read from them.
- `app/`: the `rowan::Language` marker, the `rowan` view of a parse and its
  debug rendering.
