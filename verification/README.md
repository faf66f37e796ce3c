# quickwit

The decisions of an ingest and indexing pipeline, written in Rust and proved with Verus: a
write-ahead log that lives in an object store, the queues and shards of an ingester, the streams
that serve them, garbage collection, and the supervision of indexing and merge pipelines.

- `src/wal/` is the log itself: the layout of its objects, encoding and decoding, the writer's
  state, finding the tail, replaying, and fencing a log against its previous writer.
- `src/object_wal.rs`, `src/acks.rs`, `src/mem_queue.rs`, `src/state.rs` and `src/fetch.rs` are an
  ingester's side of it: what an object pins, when positions are acknowledged, what is kept in
  memory, what becomes of shards, and what a consumer is sent.
- `src/gc.rs` and `src/janitor.rs` decide which objects of all logs can go.
- `src/supervisor.rs`, `src/pipeline.rs`, `src/stages.rs`, `src/publisher.rs`, `src/uploader.rs`,
  `src/tantivy.rs` and `src/parquet.rs` are the indexing side: generations of actors, retries,
  uploads, publications, deletion and resolution of indexes.
- `src/bench.rs` makes up the bodies of the load generator.

Every function states in `ensures` what it returns or changes. The laws that relate several of them
(what is written is read back, what is fenced stays fenced, what is live is never collected) are
public proof functions beside them. What is taken on trust from other crates and from the standard
library stands in a few functions marked as such, each with the claim it makes.

`app/` holds the input and output around the library: storage, tasks, timers, and the load
generator's `main`.
