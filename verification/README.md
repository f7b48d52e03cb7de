# gitreg

A registry of the Git repositories a user works in, with tags, path
exclusions, daily pruning, integrator notifications, a shell shim that
records repositories as `git` is used, and a self-upgrade.

The library under `src/` is verified with Verus. A `Database` keeps the
registry's contents in memory (the model `DbModel`) and hands every change
to SQLite as a statement. The contracts state what each function returns,
how it changes the in-memory contents, and which statements it hands to
SQLite (`Database::writes`). Two things are left to SQLite and stated
nowhere: whether it carries a statement out, and what changes other
processes make to the file after it was opened.

- `src/db.rs`: the registry (`Database`), kept in memory and written through
  to SQLite via `rusqlite`.
- `src/hook.rs`: recording a repository reported by the shell shim, and the
  `owner/repo` name of its `origin` remote.
- `src/shell.rs`: the shim and alias blocks, where they are written, and
  taking them out again.
- `src/upgrade.rs`: release versions, the release API's answer, the
  published SHA-256 sum and the binary inside a release archive.
- `src/commands.rs`: the decisions behind the commands (targets, daily
  pruning, scanning, the steps of an emergency push, report texts).
- `src/cli.rs`: the command line as plain data.
- `src/properties.rs`: properties that span operations, proved over the
  models.
- `src/text.rs`, `src/order.rs`: character-level text operations and sorting
  used throughout.

`app/` is the command-line program around the library: argument parsing,
files, processes, threads, sockets, the network and the terminal.
