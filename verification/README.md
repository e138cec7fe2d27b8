# aeo-graph-explorer

Graph queries over AEO Protocol crawls, with the query logic proved correct
by Verus.

A crawl arrives as JSON Lines, one AEO document per line. The service keeps
it as an in-memory typed graph and answers: list the entities, fetch one
entity's document, a node's neighbourhood, the shortest citation chain
between two entities, and the claims that match a predicate or value.

## Layout

- `src/` — the verified library.
  - `json.rs`: JSON documents as the library holds them, their
    mathematical model, lookup, equality and copying, and reading JSON
    text with serde_json.
  - `model.rs`: the AEO node and entity types.
  - `jsonl.rs`: framing of JSON Lines input (line numbers, trimming,
    blank lines).
  - `digraph.rs`: the petgraph `DiGraph` that holds a crawl, seen through
    the operations the library makes on it; each states what petgraph does.
  - `graph.rs`: `AeoGraph` — upsert by id, edge inference from `peers[].id`
    and `authority.primary_sources[]`, loading decoded lines.
  - `query.rs`: neighbourhoods, shortest paths (petgraph's A*), claim
    search.
  - `laws.rs`: properties that relate several operations: neighbourhoods
    agree in both directions (also entity by entity), a written node reads back, loading keeps the
    last document of each id, inferred edges are exactly those the bodies
    name, the hops of a path name its edges, summed over all nodes the
    outbound and inbound lists each count every edge once, claim search
    returns only matching claims and a search by both predicate and value is
    either single search filtered by the other, framing numbers lines from
    one, and blank lines change nothing but line numbers.
- `app/` — the HTTP service (axum, tokio): routing, request decoding with
  serde, and the JSON shapes of the responses.
- `tests/` — tests of the library on concrete crawls.

## Edge inference

| Body field | Edge kind | Direction |
| --- | --- | --- |
| `peers[].id` | `DeclaresPeer` | from → to |
| `authority.primary_sources[]` (URL matches another node id) | `CitesAuthority` | from → to |

References to ids that are not loaded are dropped.
