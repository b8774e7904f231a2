# carimbo

The logic of Carimbo, a snippet manager and clipboard history, as a library
verified with Verus: trigger matching, token expansion, text transforms,
clipboard classification and capture, imports from other expanders and
backups, the radial picker's ranking, insertion planning and the settings that
drive them.

- `src/` — the verified library; every public function carries a contract.
- `tests/` — tests run against the compiled library.
- `app/` — a command-line front end over SQLite (snippet store, backups,
  imports, retention) that calls the library.

## Maps held as lists

Two tables keyed by text are kept as lists rather than `HashMap<String, _>`:
the form-variable values of `tokens::TokenContext` (a list of `(key, value)`
pairs where a later pair for the same key wins) and the trigger table of
`expansion::Matcher` (parallel vectors of lowercased triggers and
replacements, with the map they stand for held as a ghost value). vstd's
specifications of `HashMap` promise what `insert` and `get` do only for key
types that obey its key model, and it states that model for integer keys,
not for `String`; a `String`-keyed map's lookups could therefore not be
proved without assuming that model. Both lists keep the map's meaning: one
value per key, the last one given.
