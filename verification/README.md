# SayRat

An open-source, lightweight keyboard launcher: a long-lived background daemon
owns state and the application index, and an ephemeral overlay client talks
to it over a local socket with length-prefixed binary frames.

This crate is the verified core, written in Verus:

- `src/` — the library: message types, the wire codec and framing, the
  `.desktop` reader, the index store format, listing and index operations,
  and the daemon's request dispatch. Every function carries a contract that
  Verus proves; the laws (reading back what was written, store round trips,
  idempotent updates) are public proof functions.
- `app/` — the `sayratd` program and the I/O around the library: sockets and
  client threads, reading and writing the store file, walking application
  directories, environment variables, and framed I/O over readers and
  writers.
- `tests/` — executable tests of the library.
