# cc_switch

The rules by which a switcher of AI coding tools edits the configuration of dsh
(DeepSeek Harness) and zcode, as a library verified with Verus.

- `src/` is the library. Its functions take the texts of configuration files and return
  what is to be done to them. Every function states what it returns; the `law_` functions
  state what holds of several of them together.
- `app/` reads and writes the files, holds the locks, keeps backups, and serves the
  commands of the user interface.
- `tests/` runs the library.

A few facts are taken on trust: what `serde_json`, `serde_yaml`, `toml_edit`, `indexmap`
and `chrono` do. Each stands at the function that makes the call, marked
`external_body`, and its comment says what is claimed.
