# pdb

BM25 full-text search for PostgreSQL, with Tantivy indexes kept in step with
their tables. This crate is split in two:

- `src/` — the verified library: index paths, the catalog and trigger
  SQL, the checks made before an index is created, how a row change becomes
  pending index operations, the per-transaction write buffer (queued while the
  transaction runs, handed out per index at commit, dropped at abort), and the
  per-session search cache behind `pdb_match`, `pdb_score` and the `@@@`
  operator.
- `app/` — the PostgreSQL extension around it (pgrx): SQL functions, the
  trigger, transaction callbacks, SPI queries, and reading and writing the
  Tantivy indexes on disk.

Modules of the library:

| module      | contents                                                        |
| ----------- | --------------------------------------------------------------- |
| `index`     | index paths, catalog/trigger SQL, key detection, creation checks |
| `writer`    | pending operations, commit/abort of the buffer, index semantics  |
| `trigger`   | row changes to pending operations                                |
| `operator`  | search cache, match/score lookups, result limits                 |
| `text`      | text equality                                                    |
| `vecs`      | moving a vector's elements in order                              |
