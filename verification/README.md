# llmfit

Which language models fit a machine, and what a library of them takes on disk.
The library under `src/` is verified with Verus.

- `natural`, `binary64`: double-precision numbers by their bit patterns. Every
  operation is exact and rounded once, to the nearest number, ties to even.
- `text`: characters, trimming, ASCII case, search and order.
- `storage_size`: sizes as users write them, in decimal and binary units.
- `storage`: which models a library retains, what they and one download take, and
  the smallest drives that hold them, with and without headroom.
- `fit`: models, and how they fit a machine.
- `json`: values and texts of `serde_json`. What is claimed of that crate, and of
  `str::to_lowercase` in `text`, is stated there and not proved.
- `mcp_server`: which models agents are told of, and what they are answered.
- `binary64_laws`, `text_laws`, `storage_size_laws`, `storage_laws` and
  `mcp_server_laws`: what holds of all inputs, and of several calls together.

`app/` is the server around it: tools over standard input and output, and the JSON
forms of the library's types. Hardware detection, the catalog, the estimators and
the local runtimes are reached through its `Host` trait.
