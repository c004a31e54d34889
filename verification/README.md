# lf_slots

Slot pools that hand out unique slot indices and take them back, backed by
sharded bitsets, with their behaviour stated in contracts and proved by Verus.

A pool holds `capacity` slots numbered from zero. `pull` hands out a free slot
and marks it taken, `put` frees it again; whole words of slots move at once with
`pull_batch` / `put_batch`, and `pull_exact` takes a fixed number of slots. Every
pool carries an ID, and takes back only handles and batches that carry it.

Pools are driven through exclusive references (`&mut self`); to share one
between threads, put it behind a lock.

## Layout

- `src/` – the verified library
  - `bits.rs` – the bitset reading of words and the counting facts about it
  - `core_internal.rs` – IDs, handles, batches and their iterators
  - `bitshard.rs` – shard sizing (`words_per_shard`, `shard_count`)
  - `buffer.rs` – inline and heap buffers of words
  - `storage.rs` – the sharded pool and `InlineSlots` / `Slots`
  - `batched.rs` – `WordPool` / `WordSlots`, pools of whole words
  - `slot_alloc.rs` – the pool traits and their default operations
  - `cache_coherence.rs` – where scans start, and the round robin rules
  - `laws.rs` – properties that span several operations
- `tests/` – scenarios run against the compiled library
- `app/` – fresh IDs, the thread-aware coherence providers, printing of
  handles and a throughput run
