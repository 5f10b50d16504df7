# vdb_rs

A vector search engine for one machine: an inverted file over k-means partitions, RaBitQ codes of
one bit per dimension, filters in a subset of SQL, files with a checksum, and two servers. The
decisions of the engine are written in Verus and proved.

## Layout

- `src/` is the library. Numbers are held by their IEEE-754 bit patterns. The library orders,
  filters, stores and ranks them; arithmetic comes in as functions, and every contract says which
  values those functions are given and what is made of what they return.
  - `index_ivf_rq`, `rabitq`, `sq8`, `clustering`, `partitioning`: the index and its codes.
  - `search`, `ordering`, `simd`, `hybrid`, `fulltext`, `gpu`: finding and ranking.
  - `sql`, `sql_lexer`, `sql_parser`, `partition_stats`, `payload`: filters and what they read.
  - `storage`, `storage_format`, `storage_save`, `blocks`, `checksum`, `little_endian`: files.
  - `chunked_storage`, `mmap_index`, `memory`: files that stay on disk while they are searched.
  - `vdb`: versions of a database. `nng_server`, `http_server`, `address`: what the servers read
    and answer. `sys_info`, `benchmark`: recommended parameters and measurements.
  - `code_laws`, `search_laws`, `search_pairs`, `sql_laws`, `storage_laws`, `reload_laws`,
    `mmap_laws`: what holds of several functions together.
- `tests/` runs the library with real arithmetic.
- `app/` is the program: arithmetic, files, sockets, the event loop and the command line.
