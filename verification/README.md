# remem-server

A memory server for language models: an LSM key-value engine with secondary
indexes, the rules by which memories are made, found, connected and forgotten, and
the book-keeping of the background tasks.

- `src/` is the verified library. It does no I/O: it takes and returns plain values.
  - `engine/`: byte formats, write-ahead log, memtable, sorted string tables, block
    cache, compaction, recovery and the engine that ties them together.
    - `storage/tree.rs` and `storage/consistency.rs`: reads give back what was written,
      through rotation, flushes, compaction and the cache. Of a flush this is stated
      where no older waiting memtable has a key of the one that is written out. That is
      so whenever the oldest is taken, as checkpoints, shutdown and flush rounds without
      a failure do; its table must have a new path and fit the fields of a file.
    - `storage/restart.rs`: every step keeps the tables and the log such that a restart
      finds the value of every key, and the restart does find it, provided that the
      tables are loaded again and the memtable has room for what the log holds. A write
      that was logged and then refused for want of room is found too.
    - `checksum.rs`, `storage/log.rs` and `storage/sstable/reader.rs`: one changed byte
      of a log record, behind its length, or of a table, before its footer, is refused.
  - `services/`: memories and their metadata, connections, ageing and search.
  - `access.rs`: who may send requests.
  - `tasks/`: the registry of background tasks, their runs and the restart of workers.
- `app/` holds what surrounds the library: files, HTTP, async work, JSON and
  floating-point arithmetic.
- `tests/` runs the library on concrete values.

Floating-point numbers are carried through the library as their bits. Outside crates
are called through a few trusted functions, each of which says what it relies on.
