# astrum_memory

A memory engine for AI agents on small hardware: a hypergraph of facts with provenance,
canon retention, human feedback, entity and semantic linking, Forman-Ricci pruning,
associative recall and a 24-cell ontology. The library is written in Verus and every
function in `src/` is verified against its contract, except four trusted wrappers in
`src/text.rs` over the standard library, whose contracts are assumed: `to_lowercase`
(`str::to_lowercase`), `is_alphanumeric`, `is_uppercase` (the `char` predicates of those
names) and `push_char` (`String::push`).

Layout:

- `src/graph_nexus.rs` — the memory graph: nodes in id order, undirected edges, the
  retention rules (provenance ceiling, canon, feedback, promotion, capacity eviction),
  linking, pruning, expansion and recall filtering.
- `src/laws.rs` — properties of the engine as a whole, proved.
- `src/vector_index.rs`, `src/linking.rs` — top-k selection over given scores, hashing
  buckets and candidate pairs; the floating-point arithmetic stays outside.
- `src/c_api.rs`, `src/persistence.rs` — the engine state behind a C handle and snapshots.
- `src/provenance.rs`, `src/canon.rs`, `src/topology_24cell.rs`, `src/ricci_curvature.rs`,
  `src/affect_overlay.rs` — the vocabulary types.
- `src/entities.rs`, `src/keys.rs`, `src/text.rs`, `src/ids.rs`, `src/fbits.rs`,
  `src/util.rs` — tokenizing, string order, identifiers, f32 bit-level comparison and
  sequence helpers.
- `src/fround.rs` — single-precision addition and subtraction of non-negative values on
  their bit patterns, rounded to nearest with ties to even, for the importance arithmetic
  of human feedback.
- `app/` — cosine similarity, quantization, the affect engine, JSON snapshots on disk,
  the spinlock and the exported C functions.

Loading a snapshot refuses a graph that breaks the library's invariant (nodes out of id
order or above their provenance ceiling, edges to missing nodes or joining a node to
itself, a pair joined twice). These are the promises the engine keeps in every state of
a graph (the provenance ceiling is absolute; an edge joins two stored nodes, once). The
library never writes such a snapshot; only an edited file can hold one. An index is loaded
as it is; an embedding of a node the graph does not store is never recalled and leaves at
the next capacity eviction.

Single-precision values (similarities, weights, affect, importance, confidence) are
carried as their bit patterns; curvature is an exact integer.
