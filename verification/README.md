# xmip-core-contract-graphql-schema

The GraphQL schema content contract, verified with Verus: a sound document
always, held at the root to a bound schema when a Location names one.

- `src/lexer.rs` — the lexer, over the characters of the text; each token
  carries the line it starts on, and what is not GraphQL is refused with its
  line.
- `src/document.rs`, `src/type_system.rs` — the parser: the grammar stated as
  spec functions over the tokens, one per production, and the parser proved
  to compute exactly them.
- `src/lib.rs` — the schema a document in the definition language defines,
  the issues a request has with it at the root, and the contract that
  identifies and validates content.
- `src/validation.rs` — descriptors, streams, validation results and issues.
- `src/keyed.rs`, `src/text.rs` — tables keyed by text, and text helpers.
- `app/lib.rs` — reading the schema file a Location names.

Verify with `verus src/lib.rs --crate-type lib`.
