# reemember

A vocabulary, grammar and bilingual-reading library, verified with Verus.

- `src/` is the library. Every function there carries a contract that Verus
  proves: parsing of the JSON, CSV and Markdown formats, validation, the
  merge policy for re-imported words, the word, grammar and article stores
  with their invariants, the spaced-repetition schedule, question generation
  and grading, export, and the request/reply shapes of the user interface.
  Laws that relate several operations are public proof functions whose names
  begin with `law_`.
- Calls into `serde_json`, `csv`, `chrono` and a few `std` string functions
  stand behind small trusted wrappers whose contracts name what those crates
  compute.
- `tests/` runs the library on concrete inputs.
- `app/` is a command-line front end: `reemember <library.db> <command>
  [payload]`, keeping the words, and a journal of the commands that shape
  collections, topics, grammar and articles, in an SQLite file through
  `rusqlite`.
