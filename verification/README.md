# redis_lite

A small Redis-compatible server. The library under `src/` holds its logic,
written in Verus and verified: parsing RESP requests into commands, the
key/value store with expiry times and streams, transactions
(`MULTI`/`EXEC`/`DISCARD`), the replies of every command, the loading of
an RDB dump from its bytes, and the replication handshake messages.

`app/` is the program around it: command-line arguments, the TCP listener,
one task per connection, the expiry tick, reading the dump file and the
connection to a master. It hands the library plain values and writes back
the replies the library computes.

Layout of `src/`:

- `text`, `numbers`, `resp`, `assoc`: strings, decimal numbers, the RESP
  encoding and association lists, with their specifications.
- `command_router`: a request to a `Command`.
- `storage`: the store and its items.
- `transaction`: the queue of a `MULTI` block.
- `executor`: what each command does and answers (`execute_spec`).
- `rdb`, `replication`, `args`, `tcp_request`, `http`, `multi_exec`.
