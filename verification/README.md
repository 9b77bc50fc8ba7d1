# kv_graph

A key-value store that appends each write to a write-ahead log on disk and
periodically flushes logged writes to a Cassandra/Scylla table, with a
checkpoint file recording how far the log has been written and flushed.

- `src/` is the verified library (Verus):
  - `be.rs`: big-endian integer encoding and byte buffers;
  - `wal.rs`: the log record format (with a CRC-32 from `crc32fast`), the
    writer that reserves offsets for records, the segment decoder, and the
    laws that a segment reads back what was written to it;
  - `checkpoint.rs`: the checkpoint and its persisted image;
  - `kv.rs`: key-to-bucket routing, the mutation an append logs, grouping of
    logged mutations for a flush, and the database statements;
  - `cli.rs`: the command line's values.
- `app/` is the program around it: files, the database session (`scylla`),
  background workers (`tokio`) and argument parsing (`clap`).
- `tests/` exercises the library on concrete values.
