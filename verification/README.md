# feuer

A cache for byte ranges of immutable objects, written in Verus: executable Rust
whose behaviour is stated in contracts and proved.

- Every successful lookup returns one contiguous `bytes::Bytes` with exactly the
  requested object bytes, cut out of one retained download that covers them.
- Memory is bounded by a soft target that is divided among shards. Pressure
  gives up the extent with the least recent retrieval value per retained byte,
  among at most 64 sampled ones, and trims it to its observed requests where
  that releases at least a quarter of it.
- A download larger than its shard's target empties the shard and stays cached.

## Layout

- `src/` is the library. `shard_state` is the mathematical model of a shard,
  `shard` its implementation, `store` the sharded cache, `cache` the lookup with
  a download callback. `laws`, `targets`, `progress`, `staleness`, `operations`
  and `publication` state what holds across operations. `evidence`,
  `compaction` and `retention` are the policy. `data_file` decides how the raw
  payload file is opened and transferred. `downloader`, `trace`, `replay`,
  `engines` and `report` replay captured requests against cache engines.
- `tests/` runs the library.
- `app/` holds what locks, awaits, measures time or touches the file system: the
  shared cache, the data file on Tokio, metrics, and the replay program.

The operations of outside crates that the library relies on stand in
`payload` (`bytes`), `objects` (`rustc_hash`), `foyer_store` (`foyer_memory`) and,
for the standard library, in `keys`, `text`, `config` and `data_file`; `io_error`
carries errors of the standard library and of `tokio`.
