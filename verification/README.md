# TeamCodex

A local account pool and streaming proxy for Codex. The program is `tcx`.

For each request the pool selects an account, keeps sessions on the account that serves them, and
learns from every answer which accounts are limited, on hold or without access to a model. Streams
pass without a change to their bytes.

## Layout

- `src/` is the library. Every rule of the pool stands here and is verified with Verus.
  - Values: `text`, `table`, `json`, `headers`, `url`, `paths`, `codec`.
  - Numbers: `level` holds and orders doubles, `double` calculates with them, `number` and
    `duration` read them from text, `percent` writes them.
  - Settings and credentials: `config`, `auth`, `oauth`, `login`, `storage`.
  - Limits, models and costs: `quota`, `models`, `cost`.
  - Routing: `affinity` binds sessions and responses to accounts, `journal` writes and reads the
    bindings, `identity` says what an account and a session are known by.
  - The pool: `pool`, `select`, `record`, `report`, `reload`, `reset`.
  - Requests: `route` decides what a request is for, `attempt` carries it from account to account,
    `forward` says what passes and what is learned of an answer, `sse` reads streams, `reply` is
    what the proxy answers itself.
  - Texts: `status`, `tui`, `grid`, `launch`.
- `app/` is the program around the library: files, sockets, processes and the terminal. It asks the
  library what to do, does it, and tells the library what came of it.
- `tests/` runs the library, together with the crates that it calls.

## How to read the contracts

Each type has a view, and contracts speak of views. Times are Unix seconds and are passed in, so
what a function does at a given time is a function of its arguments; the functions that read the
clock themselves say that there is a time for which this holds. Numbers that JSON and headers hold
as floating point are kept as bit patterns (`level::Level`), whose order is that of the numbers.
Their sums, products and quotients are rounded as IEEE 754 rounds them: a contract names the
nearest double, counted in units of the smallest one.

Where something has to be stored before it counts, the library gives the record out first, and
takes in afterwards whether it was stored.

Public proof functions state what holds across functions: that a session stays on its account, that
bindings survive a restart, that no account is tried twice, that credentials of a client do not
reach an upstream. Functions marked `external_body`, and the names declared beside them, say what is
taken from other crates without proof.
