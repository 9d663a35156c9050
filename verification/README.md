# rspack_storage

A pack storage for a build cache, verified with Verus. Items (key and value
byte strings) live in named scopes; a scope spreads its keys over buckets by
the byte sum of the key, and each bucket keeps its items in pack files of
bounded size. A meta file per scope records, bucket by bucket, the name, hash
and size of each pack.

## Layout

- `src/` — the verified library.
  - `packing.rs`, `update.rs`, `scope_update.rs`: how items are laid out in
    packs and how updates repack a bucket; `laws.rs` and `scope_law.rs` prove
    that an update leaves exactly the expected items.
  - `pack_file.rs`, `meta_file.rs`, `fields.rs`, `reader.rs`, `text.rs`: the
    byte formats of pack and meta files, with writers, readers and round-trip
    proofs (`meta_law.rs`).
  - `scope_write.rs`, `scope_read.rs`, `placement.rs`, `store_law.rs`: planning
    writes, reading scopes back, and what a saved scope reads back as.
  - `split.rs`, `strategy.rs`, `scope_save.rs`: the two storage strategies.
  - `validate.rs`: checking a stored scope against its options and files.
  - `hash.rs`: pack names and hashes, computed with `rustc-hash`.
  - `pending.rs`, `storage.rs`, `limits.rs`, `paths.rs`, `error.rs`: pending
    updates, save results, checks of the update limits, paths and errors.
- `app/` — file systems (native and in memory) and the storage that runs
  saves and reads through the library.
- `tests/` — scenarios and unit tests.
