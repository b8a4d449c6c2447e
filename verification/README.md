# custom_redis

A Redis-like key-value server whose keys are spread over sixteen shards, each value carrying
an embedding vector that a small navigable-graph index searches. The logic is written in Verus
and proved against its contracts; the server around it is ordinary Rust.

Layout:

- `src/` — the verified library.
  - `routing` — which shard a key belongs to.
  - `text` — trimming, splitting, joining and decimal numbers over characters.
  - `value` — the stored values and their mathematical view.
  - `hnsw` — the search graph: insertion with symmetric links that keeps every linked node
    reachable from the entry point, and greedy search.
  - `shard` — one shard's slots, key index, free list and every operation on them.
  - `worker` — a shard worker's step: one request in, one reply out.
  - `aof` — the append-only log's records and how replay reads them back.
  - `replay` — what replaying a whole log does to the keys: idempotence, rewrite round trip.
  - `resp` — the wire replies and request headers.
  - `commands` — command names, argument checks and the replies of each command.
  - `rank` — ranking search candidates by score.
  - `web` — the dashboard's value conversion, key filter and reply cleaning.
  - `laws` — properties that span several operations.
- `app/` — the server: sockets, files, async workers, the embedding model and everything that
  computes with floating point scores.
- `tests/` — tests of the library on concrete values.

Floating point scores never enter the library: the server hands it integer keys that order as
the scores do.
