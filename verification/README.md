# codecrafters-redis

A small Redis server: strings, lists, streams, transactions and replication over
RESP, on one thread.

- `src/` is the library. Every function in it carries a contract that Verus
  proves. It holds no socket and no clock: it is told what a read or a write
  returned and what time it is, and says what comes next.
  - `resp` reads and writes the protocol.
  - `db` is the keyspace: expiry, watches, and the clients that wait on a key.
    `db::model` says what each operation makes of it, `db::laws` and
    `db::rounds` what holds of all of them.
  - `command` runs requests; `client` is one connection; `networking` is the
    server with all its connections and its link to a master.
  - `dispatch` is a smaller command set on the same database.
  - `text`, `double` and `time` are numbers, strings and durations.
- `app/` is the program: command line, sockets, clock, logs.
- `tests/` runs the library.

`String::from_utf8_lossy` is the one function whose behaviour is taken on trust
(`text::utf8_lossy`).
