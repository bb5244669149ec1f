# Ember

A Redis-compatible key-value server. The library (`src/`) holds everything
the server decides, with its behaviour stated in contracts and proved with
Verus; `app/main.rs` is the server process around it (sockets, tasks, files).

- `resp/` – the RESP wire format: values, their encoding (`types`), the
  parser (`parser`), and the proof that parsing an encoding gives the value
  back (`round_trip`).
- `command/` – reading a command out of a request (`command`) and running
  it, with `MULTI`/`EXEC`/`DISCARD` transactions (`dispatcher`).
- `database/` – the store: values and expiry times in two `DashMap`s
  (`maps` holds the contracts of the map operations), lazy and active
  expiry, snapshots (`store`).
- `rdb/` – the snapshot format: writing (`writer`), reading (`reader`), and
  the proof that reading a snapshot restores what was written
  (`round_trip`).
- `config/client` – a connection's transaction state and the handling of
  its buffered bytes, one request per step.
- `server` – the port from the command line and after a failed bind.
- `utils/` – decimal text, white space, ASCII case, the clock.

Times are milliseconds since the Unix epoch. The store reads a clock that
never goes back: the wall-clock time at which it was made, moved on by the
monotonic time since. The store's methods take
`&mut self`; the server shares one store behind a mutex.
