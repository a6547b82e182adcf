# CDoc

CDoc is an embedded document store in the spirit of conflict-free replicated
data types. Documents are decomposed into paths (fields, fractional indices
and a terminator), each path maps to a last-write-wins register, and the
paths live in a small LSM tree: a MemTable, a write-ahead log and SSTables.

The library under `src/` holds the store's logic with Verus contracts:

- `bytes`, `varint`: byte-string order, big-endian numbers, the
  order-preserving variable-length integers.
- `path`: path encoding and decoding, the non-interleaving LSeq fractional
  indices (`path::lseq`), last-write-wins register headers (`path::lww`).
- `hlc`: hybrid logical timestamps, the clock that hands them out, and their
  RFC 3339 rendering.
- `mutation`: descriptions of document changes, turned into path/value pairs.
- `query`: the selection language and its parser, with its grammar written as
  spec functions.
- `wal`: the write-ahead log's record format, the writer's state and replay.
- `sst`: the MemTable, and the SSTable file format, writer and reader; `laws`
  proves that a reader gives back what the writer wrote.
- `db`: options, lookups and merged scans over a MemTable and SSTables,
  replaying log records into a MemTable, and when and how a MemTable becomes
  an SSTable file.

`app/` holds the runtime around it: files and memory maps, the process-wide
clock, locks and the database and transaction handles.
