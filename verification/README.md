# paki_notes

A note store: bundles (folders) of notes, with tags scoped to a bundle.

The store is four relational tables (`bundles`, `notes`, `tags`,
`note_tags`) with the schema's primary keys, foreign keys and
`ON DELETE CASCADE` rules. Every statement the commands run, and every
query they read with, is implemented and proved in Verus against a model of
the tables:

- `src/models.rs` — the records exchanged with callers.
- `src/db.rs` — the tables, their integrity, and each insert, update and
  delete, with what it does to the tables.
- `src/query.rs` — the listings (by name; pinned first then by position;
  latest first with a limit of 100) and the reads of notes with their tags.
- `src/order.rs` — text order as SQLite's BINARY collation sees it, and a
  verified sort.
- `src/like.rs` — SQL `LIKE` as SQLite evaluates it, and the search pattern.
- `src/commands.rs` — the commands: create, list, rename, archive, delete
  bundles; create, list, read, update, delete, search notes; create, list,
  delete, assign and remove tags. Fresh ids (uuid) and timestamps (chrono)
  come from two small trusted wrappers.
- `src/laws.rs` — properties that span commands: cascades, read-back after
  create, idempotent tag assignment, removal undoing assignment, and more.
- `src/table.rs` — lemmas about filtered and rewritten tables.

`app/` is the desktop side: the SQLite file (rusqlite) that keeps the
tables between launches, serde copies of the records, the commands under a
lock, writing every change through to the file, and `run` with `invoke`,
which set up the shared state and route a command by name with JSON
arguments (serde_json).
