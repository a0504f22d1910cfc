# mallard

Versioned, editable line buffers built on an append-only pool of interned
lines.  The behaviour of the operations is stated in Verus contracts and
proved; what outside crates and I/O compute is named, not stated.

- `src/green.rs` — the pool of interned lines (`GreenPool`), line ids, and
  per-line CRC32 / MD5 / SHA-256 hashes.
- `src/branch.rs` — `Branch`: an ordered sequence of line ids with undo and
  redo stacks, the abstract `BranchState`, and the laws of editing, undoing
  and redoing.  Each branch owns its pool: a fork copies the pool's entries
  (sharing the line contents), so ids in use stay valid in both, but lines
  interned afterwards in one branch are not seen by the other.
- `src/line_buffer.rs` — `LineBuffer`: a root branch with an optional
  encoding validator; loading from text, readers and line sources; saving.
- `src/encoding.rs`, `src/target_encoding.rs` — validators, and text in a
  legacy encoding chosen by label (through `encoding_rs`).
- `src/text.rs` — splitting and joining lines, number formatting.
- `src/editor.rs` — the commands of a small line editor: how a command line
  is read and what each command does and reports.
- `src/digest.rs` — the hash functions of the outside crates, by name.
- `app/main.rs` — the `edlin` program: arguments, files, the command loop.
- `tests/` — the test suite.
