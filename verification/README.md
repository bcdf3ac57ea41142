# graph_shard_lab

A verified library for studying logical graph sharding: follow graphs split over in-memory
shards by hash, community or balanced-community placement, two-hop queries run directly or
batched by shard, shard-local adjacency caches with LRU, FIFO or LFU eviction, hub
replication, community splitting, snapshots and operation logs.

Every function in `src/` is verified with Verus against a contract over mathematical models
(`Seq`, `Set`, `Map` views of graphs, caches and texts), except three trusted wrappers whose
contracts Verus takes on trust: `text::push_char` (std `String::push`), and `Draws::seeded`
and `Draws::draw` in `uneven` (the `rand` generator, seeded and drawn from; each records the
seed or the requested range). The laws that relate several
operations are public proof functions, for example:

- `properties`: sharded two-hop queries agree with the unsharded graph; batched and direct
  queries reach the same users; cached queries agree with uncached ones while the caches
  agree with the shards, and touch the same shards with the same requests, one cache hit or
  miss per first hop; an LRU adjacency cache hits exactly when the ID simulator does, and
  its `get`, `insert` and `invalidate` keep keys in least-to-most-recent order.
- `hub`: a run of cached sharded queries checks every answer against the reference graph and
  stops at the first mismatch; when the caches agree with the shards and the graph stores
  the reference, every answer matches.
- `replication`: unreplicating a user right after replicating it restores every shard's
  users and lists.
- `sharded`: every stored edge leads to a stored user (part of the graph's invariant); with
  the balanced community placement, every shard holds as many users as the
  assignment loads onto it; warming caches with no observed traffic caches nothing.
- `text_format`, `log_text`, `placement_text`: snapshot files, operation logs and placement
  descriptions read back as what was written.
- `splitting`: split plans cover every community exactly.

Layout:

- `src/` — the library (`graph`, `sharded`, `cache`, `replication`, `splitting`,
  `persistence`, text formats, workloads, coordinator decisions, cache benchmark runs, hub
  hotspot counting and LRU simulations in `hub`, query checking and totals in `measure`).
- `tests/` — tests run against the compiled library.
- `app/` — the benchmark program: file I/O, Tokio shard workers, floating-point reports.
