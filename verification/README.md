# nexus_core

A typed array computation engine with a consistency ledger, written in Verus.

A context holds a stack of typed tensors, a registry of ontic type aliases and
conversion bridges, a ledger that records operation signatures and reports
contradictions, savepoints with rollback, and a goal. The library is generic
over the element type of its tensors; the arithmetic on single elements is
handed to the operations that need it.

Layout:

- `src/types.rs`: type constants, verbs, adverbs, errors, tensors.
- `src/ledger.rs`: the consistency ledger and its laws.
- `src/registry.rs`: aliases, the automatic identifier counter, bridges.
- `src/ops.rs`: element-wise application, broadcasting, folds, scans and
  outer products.
- `src/context.rs`: the context, stack manipulation, operations,
  savepoints, assertions, element mapping, and reading and writing the
  whole context as JSON.
- `src/json.rs`, `src/snapshot.rs`: the JSON text of a saved context, its
  writers, and readers proved to read back exactly what was written.
- `src/text.rs`, `src/seqs.rs`, `src/assoc.rs`: helpers.
- `app/`: the `f64` instance, its C interface, and `Display` for errors.
