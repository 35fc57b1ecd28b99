# metashrew (verified core)

The logic of the metashrew Bitcoin indexer framework, written in Verus and
proved against its contracts: the byte layouts shared by guest and host,
the height-versioned key/value chains of the store, the sparse Merkle trees
and state roots, snapshots and their repository, the reorganisation and
pipeline decisions of the sync loop, the JSON-RPC request handling, and the
comparison of two indexers.

## Layout

- `src/` — the verified library.
  - `bytes`, `le`, `codec`, `cursor`, `byte_view`, `byte_map` — byte
    helpers, little-endian numbers, length-prefixed and height-annotated
    layouts, a reading cursor, and a map from byte strings to byte strings.
  - `flush_codec` — the flush message a guest hands to the host.
  - `guest_cache`, `indexer`, `view` — the guest side: its key/value cache,
    the indexer and view traits and the native runtime.
  - `store`, `runtime` — the store interface and the host runtime's
    versioned chains, flushes, reads at a height and rollbacks.
  - `merkle`, `merkleized`, `keccak_smt`, `smt_helper` — sparse Merkle
    trees (BLAKE2b and Keccak), the store that keeps one, and per-height
    state roots.
  - `repo_snapshot`, `repo`, `interval_snapshot` — snapshots, their chunks
    and proofs, the repository server and client logic, and interval
    snapshots of the changed keys.
  - `sync`, `adapter`, `rpc` — the sync loop's decisions, the database
    adapter's keys and memory pool, and the JSON-RPC interface.
  - `diff`, `report`, `key_format`, `harness` — comparing two indexers,
    the text reports of a comparison, readable keys, and the test
    harness's chain bookkeeping.
  - `hashing`, `compression` — the calls into the hashing, hex and zstd
    crates.
- `tests/` — tests of the library, run with the real outside crates.
- `app/` — command-line tools around the library: snapshot files in the
  repository layout, sampled verification of large snapshots, JSON-RPC
  answers, saving comparison reports, and replaying a comparison run's
  decisions.
