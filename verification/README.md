# monumentum

A small relational database written in Verus: every function of the library
under `src/` carries a contract that Verus proves.

- `value`, `types`, `row`, `schema`, `table`, `catalog`, `hash_index`,
  `executor`: values, rows, table schemas with their constraints, tables with
  unique-key indexes, the catalog of tables and the statement executor.
- `codec`, `append_log`, `recovery`, `table_codec`: byte readers and writers,
  the checksummed append-only log, and database snapshots.
- `engine`: the paged storage engine: pages and their header, the page file
  (`pager`), the page cache (`buffer_pool`), row storage in chains of data
  pages (`table_storage`), the catalog and its on-disk form, log records, the
  on-disk B-tree (`btree`) with its keys (`key`), an ordered in-memory index
  (`btree_index`), and the engine itself (`storage`). The `*_laws` modules
  prove what reading gives back of writing.
- `app/`: file I/O around the library: whole-file reads and writes, the
  locked write-ahead log file, opening the engine over its files, and
  conversions to and from `f64`.
