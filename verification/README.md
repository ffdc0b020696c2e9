# starlark: go-to-definition over binding scopes

A verified library that answers "where is the name under the cursor defined?"
for a Starlark module, given the module's source text and its tree of binding
scopes.

- `src/codemap.rs`: byte positions, spans, and the lines and columns they fall
  on (`CodeMap`); lines are counted by newline bytes, columns by characters.
- `src/bind.rs`: the scope tree (`Scope`, `Bind`, `Binding`), its
  well-formedness (each scope binds a name at most once, at a span that lies
  within the source on character boundaries) and its check.
- `src/definition.rs`: `AstModule::find_definition`, the search that it makes
  (the first read of an identifier covering the cursor, resolved from the
  innermost enclosing scope outwards), and the laws proved of it.
- `src/fixture.rs`: programs whose ranges are marked by `<name>`/`</name>`
  tags, as used to write the tests; `\w` is decided by `regex-syntax`.

The tests under `tests/` build the scope trees of their example programs by
hand and take cursor positions and expected spans from tagged fixtures.
