# shabti

Agent memory for AI agents: deduplication, data tiers and feature gates,
namespaces and sharing between agents, task routing, procedural memory,
event segmentation, contradiction detection, and the MCP and A2A
registries. The logic is written in Verus and proved against its contracts.

## Layout

- `src/` — the verified library. Each module states its behaviour in
  `requires` / `ensures` over spec functions, and the properties that relate
  several operations as public proof functions (`lemma_*`).
  - `dedup`, `entry`, `engine` — content hashing (SHA-256 through the `sha2`
    crate), exact-duplicate detection with in-flight reservations, and the
    decisions of a store: namespace validation, reserve, commit, replay.
  - `gate`, `metrics`, `health` — data tiers and the features they enable,
    request counters, component health.
  - `agent`, `namespace`, `sharing`, `orchestrator`, `a2a` — agents and
    their registries, namespace access rules, share requests, task routing
    by specialization, agent cards.
  - `procedural`, `contradiction`, `event`, `clustering`, `near_dedup` —
    tool-use patterns, numeric and negation contradictions (through the
    `regex` crate), time gaps, segments, boundary merging and scoring,
    grouping of cluster labels and of near-duplicate results.
  - `wasm_store`, `benchmark` — an in-memory entry store keyed by UUID, and
    case-insensitive answer matching.
  - `mcp` — MCP tool and resource definitions, method routing, tool-call
    argument checking.
- `app/` — what stays outside the proofs: floating-point scoring and
  embeddings, JSON rendering and JSON-RPC messages, serde forms of the
  library's types, and clustering with the `hdbscan` crate.
- `tests/` — tests of the library on concrete values.

## What is not here

Not all of the engine's logic is proved. The engine object itself, which
ties the store decisions above to the vector index, the entry log, the link
graph and the background link worker, is absent: those parts rest on
storage, index and graph crates that this crate does not depend on, and so
are query execution, TTL expiry, garbage collection, and reading or deleting
single entries. The embedding model (a `fastembed` model) is absent too. What
the engine decides without them is in `engine`: namespace validation, the two
halves of a store and its abort, the replay of the log into the duplicate
checker, listing by namespace, and the order of graph expansion in a search.
