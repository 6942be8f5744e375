# duckjeu

A DuckDB extension that runs JEV judgments (`jev_prob`, `jev_bool`, `jev_choice`) on table
data, with `duckjeu_last_profile()` and `duckjeu_cache_clear()` beside them.

## Layout

- `src/` is the judgment library, written in Verus and verified: canonical state encoding
  (`serialize`), requests, results and identities (`judgment`), the provider protocol and
  capabilities (`provider`), the TypeSafe request documents and reply checks (`typesafe`,
  over the plain JSON values of `json`), the deterministic offline provider (`mock`), the
  bounded result cache (`cache`), grouping, batching and execution (`executor`, driven through
  the host interface of `runtime`), query accounting and profile decisions (`metrics`), the
  connection state (`host`), settings (`config`) and the rules of the SQL functions
  (`functions`).
- `app/` is the extension itself: DuckDB registration and vector access, session settings,
  the HTTP transport, locks and condition variables around the connection state, and the
  rendering of the profile document.
- `tests/` exercises the library from outside.
