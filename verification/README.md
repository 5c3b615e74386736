# nomai_core

The rules of a local-first knowledge store, written in Verus and proved.

An entry is a document made of typed blocks. It lives in a `.nomai` file and in
an index. Blocks are cut into chunks, which are what a semantic search finds.
Searches leave sessions; feedback on them teaches the store which entries answer
which queries.

- `src/` is the verified library: the file format, the index's tables and every
  operation on them, search and ranking, sync between files and index, and the
  memory signals. Tables are plain vectors of rows: an operation takes the state
  and gives back the next one, or an error that leaves nothing behind. What
  cannot be decided from its arguments (new identifiers, the time, what is on
  disk, similarities of vectors) comes in as an argument.
  - `*_model.rs`: the data and its mathematical view.
  - `*_laws.rs`, and the functions named `law_..`: what holds of several
    operations together.
  - `ids.rs`, `time.rs`, `hashing.rs`, `fts_query.rs` and `text.rs` hold the
    functions of `ulid`, `chrono`, `blake3` and std that are believed, not
    proved.
- `app/` is ordinary Rust around it: SQLite, the file system, JSON, and the
  formulas in floating point.
- `tests/` runs the library on concrete values.

Floating-point numbers are held as their IEEE 754 bits in `src/`: they are
compared, ordered, checked and stored there, and computed with in `app/`.
