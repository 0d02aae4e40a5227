# sastran

A key-value and vector storage engine, verified with
[Verus](https://github.com/verus-lang/verus).

One engine holds plain values and embeddings under the same keys: a
log-structured merge tree (log, memtable, tables, compaction) with an HNSW
index of the embeddings on top. Both share one log, and recover together.

## Layout

- `src/` is the library. Every function in it has a contract that Verus
  proves.
  - `engine`: the engine, its recovery, and what its files stand for at every
    point (`engine::lsm::laws`, `engine::lsm::index_laws`,
    `engine::guarantees`, `engine::history`).
  - `memtable`, `wal`, `sstable`: write buffer, log and tables, down to the
    bytes.
  - `hnsw`: the vector index and its snapshots; `quantize`: an 8-bit scalar
    quantizer.
  - `io`: the storage abstraction, with files in memory.
- `app/` is what is not verified: files on disk, locks around the engine,
  floating-point arithmetic on embeddings, and error messages.
- `tests/` runs the library.

## What is proved

- A write that is acknowledged is on stable storage before it shows, and so is
  one that failed but shows. Whoever opens the files finds what was
  acknowledged.
- After a failure in a write, in a flush or in a compaction of an engine that was
  in step with its files, these stand for the state before or after the
  operation. However many fail, the files stand for what the engine shows, or
  for that with one record more.
- What a failure left in log and tables is mended before the next record is
  written; a torn end of the log is cut off when the files are opened.
- After any number of operations that were acknowledged, whoever opens the files
  finds for each key what was written last, whether the snapshot of the index is
  intact, missing or damaged (`engine::history`).
- A loss of power loses nothing that was acknowledged, on storage that keeps to
  what the `io` traits say of syncs. Files that come back because a removal was
  not synced are covered for tables that were merged, and for no others.
- Lookups give what was written last; flushes and compactions change nothing
  that a reader sees.
- Records, tables, filters and snapshots read back as they were written; a log
  that was cut anywhere replays the records that are whole.
- Every table has a filter of the size that is asked for, which has no false
  negatives.
- Insertion and deletion keep the graph walkable and within its caps; a search
  returns live nodes, closest first, none twice.
- An embedding that the index cannot take is refused before anything is written.
- The index holds the embeddings that the keys hold, and none for a key that
  holds a plain value or nothing. Recovery, with or without a snapshot, restores
  that.
- A filtered search that gives fewer hits than it was asked for has found every
  key that passes the filter.
- No function panics, overflows or reads out of bounds.

## What is taken on trust

- CRC32 (`crc32fast`) and XXH3 (`xxhash-rust`) are functions of their input.
- A backend behaves as the contracts of the `io` traits say.
- Floats are bit patterns in the library: distances, unit vectors and levels
  come from functions that the caller hands in, and of which it is asked that
  they give one result for one input.
