# matchmaking

A 5v5 matchmaking engine. Players wait in a pool ordered by rating; a worker
takes the longest-waiting player as anchor, scans the ratings within that
player's window (which widens the longer the player waits), evicts a group of
ten all-or-nothing, and deals the group into two teams by alternating over the
players ordered by rating.

Layout:

- `src/` — the library, verified with Verus:
  - `models.rs` — players, the window schedule, request/response and match types;
  - `pool.rs` — the player pool (`BTreeMap` of rating buckets) and its queue model;
    a range scan visits only the buckets inside the range;
  - `balance.rs` — team balancing;
  - `metrics.rs` — running counters, and the books that tie them to the pool;
  - `queue.rs` — admission of a player to the queue, counted with the join;
  - `worker.rs` — the decisions of a matching worker, publishing a match (balance,
    count, record), putting players back, and the match history;
  - `clock.rs`, `ids.rs` — the system clock and random ids (drawn from the
    operating system's random source, which may fail, and formatted by uuid).
- `app/` — the HTTP server (axum), shared state behind locks, a monotonic clock
  that the server and the workers read, the worker threads.
- `tests/` — tests of the library.
