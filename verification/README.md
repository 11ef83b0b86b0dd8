# bitobase

A small key-value server that speaks a subset of the Redis protocol (RESP):
`SELECT`, `PING`, `GET`, `SET`, `MSET`, `INCR`, `LPUSH`, `RPUSH`, `LPOP`,
`RPOP` and `CONFIG GET`, over a database of strings and lists of strings.

- `src/` is the verified library:
  - `types.rs`: stored values, commands, run arguments;
  - `text.rs`: decimal numbers, integer parsing, white space, trimming, splitting;
  - `store.rs`: the database, a `dashmap::DashMap`, and what it holds;
  - `commands.rs`: what each command answers and how it changes the database;
  - `resp.rs`: encoding replies and decoding requests from the bytes received;
  - `server.rs`: one turn of a connection;
  - `laws.rs`, `roundtrip.rs`: properties across commands and of the wire format.
- `app/` is the program: it listens, reads and writes sockets with `tokio`,
  and hands the bytes it receives to `server::handle_request`.
- `tests/` runs the library on concrete requests.
