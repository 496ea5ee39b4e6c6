# polyglot_java

Finds the polyglot calls (GraalVM `Context.eval`) of a Java program, on the
syntax tree that tree-sitter builds for it, with contracts proved by Verus.

- `src/order.rs`: node paths and document order, with its laws.
- `src/syntax.rs`: the tree-sitter trees, nodes and cursors, seen as finite
  maps from paths to node kinds, byte ranges and fields, and the run of a
  tree-sitter query (the trusted boundary).
- `src/preorder.rs`: the pre-order walk driven by a tree cursor.
- `src/cst.rs`: a tree paired with its source text.
- `src/text.rs`: text helpers and language names.
- `src/java.rs`: the reading of `eval` calls through a tree-sitter query, and
  the search for polyglot uses.
- `src/use_solver.rs`: the first steps of resolving a use through a user's
  reference analysis.

Where a polyglot call has a form whose reading is not written yet (an `eval`
of a variable, a `getMember` call, a `putMember` export, an `eval` that the
query does not match), the analysis answers with `AnaError` rather than
stopping.
