# chronicle

A branchable record store with verified logic. Records are appended to a log, states are
chains of updates within that log, branches are cheap, blobs are found by their content.

- `src/` is the library. Its functions are verified with Verus: their contracts speak of
  mathematical values (`StoreView`, `RecordLogView`, ...), and the laws of the store stand
  beside them as proof functions. The exceptions are the small functions that call into other
  crates or the standard library (checksums, hashes, JSON, the cache, the clock): Verus
  believes their contracts, and each says what it claims of the call.
- `tests/` runs the library from outside.
- `app/` keeps a store in a directory and offers it to JavaScript. It reads and writes files,
  locks, serializes, and hands plain values to the library.

## Modules

| module | what it holds |
| --- | --- |
| `types`, `error` | the values that everything else speaks of |
| `bytes`, `text`, `order`, `json`, `digest`, `clock`, `cache` | small parts, and the calls into other crates |
| `format` | magic numbers, versions, and the envelopes of index files |
| `records` | the record codec, the log, its metadata file, and the index |
| `blobs` | the blob codec and content-addressed storage |
| `wal` | the frames and the bookkeeping of the write-ahead log |
| `branches` | branches, their ancestry, and garbage collection |
| `tree` | trees of files: lookup, listing, difference, paths |
| `state` | operations, chains, reconstruction, snapshots, and their laws |
| `subscriptions` | filters, queues, and snapshots that fit a limit |
| `store` | all of it together: appends, updates, history, compaction, recovery, catch-up |
| `bindings` | the values that JavaScript exchanges with a store |

## What is proved of a store

The items of an array state, and the files of a tree state, are what their operations make
one after the other, whatever snapshots were taken and whatever branches were made in between.
(Items with fractions are left out: a fraction need not read as it was written.) Compaction
changes no value. What a state was at a sequence stays what it was, however many updates
follow. Updates on one branch, or of one state, are not seen on others. Timestamps do not go
back with the clock. A store that was closed in order is the same when it is opened again, and
what was written before a crash is not written twice.
