# response_cache

A persistent cache in front of a model provider, with its rules verified in
[Verus](https://github.com/verus-lang/verus).

- `src/` decides: the key of a request (`json`, `noise`, `key`), what is served,
  kept and counted (`response`, `provider`), what the table looks like after a
  change (`store`), what is dropped (`entries`, `order`, `provider`), and what the
  dashboard shows (`entries`, `overview`, `detail`, `format`).
- Beside their rules the modules state what follows from them: that two
  requests share a key exactly if they agree in all that they ask, once the dates
  and commit hashes in their strings are replaced, and the digests do not collide
  (`key`, `canonical`, `syntax`, `settled`), that what was kept is served again and
  what is worth the least goes first (`laws`), that pages and counts are complete
  (`entries`, `overview`), and that larger numbers are not shown as smaller ones
  (`format`).
- `app/` acts: it reads and writes the database file, asks the other provider,
  takes the time and writes the log.
- `tests/` runs the library on concrete values.

Rows come in as plain values and changes go out as `StoreWrite` values, so every
rule can be stated over the table as a map from hashes to rows.
