# abtop core

The event, plugin, configuration and theme machinery of abtop, written in
Verus: the functions under `src/` are proved against their contracts; the
few calls into std and `serde_json` that Verus cannot read sit behind small
trusted wrappers whose doc comments say what they assume.

- `src/` — the verified library: the event detector (`diff`), the
  `when`-clause grammar and rule matching (`rules`), per-key debouncing
  (`debounce`), event identity hashing (`event_key`), configuration
  merging and hot-reload decisions (`event_config`), `${VAR}`/`~`
  expansion (`interpolation`), the conduit request and environment
  (`invoke`), `{field}` substitution and AppleScript escaping (`template`),
  socket path resolution (`socket_path`), the footer texts
  (`footer`), the theme parser (`theme`), the plugin catalogue
  (`plugins`) and the worker and publisher decisions (`worker`,
  `publisher`). Each module also states, as public proof functions, the
  laws that hold across its operations.
- `app/` — ordinary Rust around the library: file, socket and process
  I/O, threads, terminal drawing, and the serde/toml copies of the
  library's types.
- `tests/` — tests run against the compiled library.
