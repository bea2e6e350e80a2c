# MnemoKanji core (verified)

The study engine and content algorithms of MnemoKanji, a kanji-memorization app, written in
Verus: every function in `src/` carries a contract that the verifier proves, and the laws the
library promises (review order, daily budgets, level gating, undo, learning order, vocabulary
and sentence selection) are stated and proved as proof functions.

- `src/` — the verified library (see the module list in `src/lib.rs`).
- `tests/` — executable tests over the compiled library.
- `app/` — a terminal front end and the offline seed builder: file and database I/O around
  the library. The seed builder reads its JSON sources into the library's `Json` values and
  leaves every reading of them to the verified readers in `src/json.rs`.

The only outside computation the library relies on is the FSRS scheduler (`rs-fsrs`), reached
through a few trusted wrappers in `src/scheduler.rs`, and a handful of std string functions in
`src/text.rs`.
