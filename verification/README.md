# bschema

Summarizes an RDF graph into a compact **class graph** of its repeated
structural patterns and a **member graph** mapping each derived `bs:` class
to the subjects it groups, and renders such a summary as readable example
Turtle.

The library under `src/` is verified with Verus: its functions carry
`requires`/`ensures` contracts over mathematical views (`Seq`, `Set`) of the
graphs, and public proof functions state the properties that hold across
calls (the grouping is a partition of the subjects, every derived class in
the class graph has members, ground graphs have one canonical form, ...).

- `model`, `graph`: terms, triples and the in-memory graph.
- `rdfio`: parsing and Turtle writing through oxigraph, behind trusted
  wrappers.
- `canon`: canonical forms of small graphs, for comparing patterns.
- `algorithm`, `isomorphism`, `relabel`, `skolem`, `keyed`: the
  summarization itself.
- `examples`: the example-Turtle rendering.
- `util`, `order`, `namespace`: strings, sorting and known namespaces.

`app/` holds the Python bindings (pyo3), file reading, and the
floating-point similarity threshold.
