# sweetmcp_memory

A semantic memory: items (concepts, facts, rules, categories) with tags, metadata and
a confidence level, linked by typed relationships, together with the queries, graph
analyses, metadata checks, snapshots and JSON conversion that work on them.

The library in `src/` is written in Verus. Each public function states what it returns
or changes in `requires`/`ensures` over mathematical models (`Seq`, `Map`, `Set`, and
spec functions such as `meta()` for an item's metadata or `reachable` for the
relationship graph), and Verus proves the code against those contracts. Properties
that relate several operations (a read after a write, an operation undone by another,
a JSON round trip, symmetric distances) are public proof functions in `src/laws.rs`.

The few calls into std and chrono whose behaviour is taken on trust are small
`external_body` wrappers with their contracts stated beside them: the clock
(`clock.rs`), RFC 3339 timestamps (`clock.rs`), Unicode lower-casing (`text.rs`) and
`char::is_uppercase` (`meta_stats.rs`).

Layout:

- `src/` — the verified library, one module per concern (items and metadata, the
  memory and its graph, queries and sorting, snapshots, statistics and health
  vocabulary, conversion).
- `tests/` — tests that run the compiled library.
- `app/` — ordinary Rust around the library: serde and chrono conversions, storage
  measurements, and the scores and reports computed in floating point.
