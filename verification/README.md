# labkit

Small experiments around channels and metrics, with their decision logic
verified by Verus.

- `src/` — the verified library:
  - `topic.rs`: per-topic failover state (which consumer is read, what the
    standby consumers buffered, when buffered messages expire);
  - `client.rs`: the client's reaction to messages and switch orders;
  - `distribution.rs`: choosing each topic's consumer from watermark
    snapshots, and the switch orders that follow;
  - `consumer.rs`: a mock consumer's round-robin topics and watermarks;
  - `registry.rs`: the table of extra metric registries and its sweep;
  - `time.rs`, `random.rs`: the calls into `jiff` and `rand`.
- `app/` — the programs: tasks, channels, sleeps, HTTP serving and printing.
  Run with one of `channel-failover`, `metrics`, `metrics-registry`,
  `mpsc-dispatch`, `panic-hook`.
- `tests/` — tests of the library on concrete values.
