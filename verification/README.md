# graph_model

An in-memory property graph with verified operations.

- `src/core_model.rs`: nodes, bonds, the `InMemoryGraph` with its id index,
  node and bond insertion, and the neighbourhood and lookup queries, each
  specified over the mathematical view `GraphView`.
- `src/laws.rs`: properties that span operations (index soundness, what a
  query hands out, which graphs every query can be asked about).
- `src/ids.rs`: UUID identifiers held as their 128-bit value, drawn through
  the `uuid` crate.
- `src/text.rs`: label blankness and label membership.
- `src/datamodel/`: the minimal document-collection graph.
- `app/`: serde transfer objects and the lock-guarded collection of graphs.
