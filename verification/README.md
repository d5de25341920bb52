# local_pass

A remote MCP gateway whose decisions are verified with Verus: which tools a
profile exposes, whether a requested path stays inside the safe root, whether
a bearer token matches, how `serve` options are read, and the bookkeeping of
persistent shell sessions.

- `src/` — the verified library.
- `app/` — the command-line program: token files, the HTTP server, process and
  file-system work, all calling into the library.
- `tests/` — tests of the library.
