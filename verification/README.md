# loomis

A small configuration-driven HTTP server (virtual hosts, longest-prefix
locations, static roots and reverse proxying), with its core verified in
Verus.

- `src/` — the verified library:
  - `text.rs`: character-sequence operations (splitting, trimming, decimal
    numbers, `u16` parsing, ASCII case, white space) with their models;
  - `paths.rs`: Unix path text (joining, file names, extensions, component
    prefixes, parent directories);
  - `config.rs`: validation of `[[server]]` / `[[server.location]]` blocks,
    proxy targets, and the laws every accepted configuration satisfies;
  - `server.rs`: request-line reading, request-path sanitizing, candidate
    files, and replies;
  - `routing.rs`: request headers and `Host`, server choice by host (with
    the listener's default server as fallback), longest-prefix location
    choice, prefix stripping for static roots, the rewritten request head
    for proxy locations, listen addresses and access-log lines;
  - `cli.rs`: command-line reading, usage text, and what to run.
- `app/` — the program: TOML reading, socket-address parsing, file-system
  probes, sockets, threads and the upstream connections of proxy
  locations. It hands the library what it finds.
- `tests/` — tests of the library on concrete values.
