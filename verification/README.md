# slayerfs_meta

The metadata side of a chunked file store, verified with Verus.

- `src/slice.rs`, `src/intervals.rs`: slices of a chunk, and sets of positions.
- `src/compact.rs`, `src/compact_laws.rs`: compaction of the slices of a chunk,
  and what holds of it as a whole.
- `src/buffers.rs`, `src/data.rs`: moving and deleting the data of slices.
- `src/txn.rs`: optimistic transactions on a key-value store.
- `src/background.rs`: the state of the work in the background.
- `src/error.rs`, `src/text.rs`: errors and their messages.

`app/` holds the asynchronous code around the library: reading and writing
chunk data, and running transactions on etcd. The library decides what is read,
written and committed; `app/` does it and reports back.
