# trine_kv

The storage core of Trine KV, an embedded ordered key-value store, written
in Verus with its behaviour stated in contracts and proved.

- `src/` is the verified library: internal keys and their order, block
  codecs (LZ4 through `lz4_flex`), blob files, table blocks and table files,
  bloom filters, the block cache, range tombstones, compaction planning and
  output, blob accounting and blob garbage collection, point-read and scan
  visibility, the manifest and its file format, recovery reports, storage
  file names, option validation, named-bucket requests, the maintenance
  state, the steps of a flush and of a compaction run, the blob garbage
  collection plan, the deletion of obsolete files, and opening a store.
- `app/` is the plain Rust around it: reading, writing and listing files,
  the process lock, the condition variable of the maintenance workers, and
  opening the files of a persistent store.
- `tests/` runs the library on concrete values.

Round trips (blob files, table blocks, the manifest, recovery reports) and
the other laws of the library are public proof functions next to the code
they speak of.
