# rbitcoin-store

The logic of a Bitcoin store's tables, written and proved in Verus.

- `src/` holds the library. Every table is a value in memory with an invariant; the
  contracts speak of what a table holds (the creates of a scripthash, the candidates of
  a transaction id, the spenders of an output) and of the bytes of its files.
- `tests/` runs the library on concrete values.
- `app/` reads and writes the files, runs worker threads and asks the host.

## Modules

| Modules | Subject |
| --- | --- |
| `scripthash`, `scripthash_*` | Index from scripthash to creating transactions: heads, slabs and pages, cold loads, materialize, migration, files |
| `sorted_run`, `run_*`, `loser_tree` | Sorted run files, their catalog and their merge |
| `segmented_head`, `segment_meta` | Transaction head in segments |
| `hashhead`, `sharded_hashhead`, `sharded_scripthash_head`, `slot_table`, `open_address` | Hash heads and open addressing |
| `sp_tweaks` | Silent payment tweaks by block |
| `spender_table`, `point_table`, `spend_annotate_uring`, `annotate_turns` | Spenders of outputs |
| `rebuild_headers`, `hashing` | Links of header rows |
| `io_session_pool`, `host`, `mlock` | Job queues, host limits, pinned pages |
| `bytes`, `compact`, `crc`, `text`, `sorting`, `primitives`, `error` | Basics |

Laws that relate several functions are public proof functions whose names begin with
`law_`. Those of the index as a whole are in `scripthash_laws`, `scripthash_live`,
`scripthash_count` (the create counters) and `scripthash_agree` (loads of the same runs),
those of merges in `merge_laws`.

A table from files of unknown origin can be searched and read. `ScriptHashTable::check`, in
`scripthash_check`, tells whether it can be written to.

The one outside call of the library is SHA-256 of `bitcoin_hashes`, in `hashing`.
