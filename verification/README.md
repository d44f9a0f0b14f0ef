# vastar

An HTTP/1.1 load generator with a strict response parser, a live progress display, an
SLO-coloured latency report and an adaptive concurrency sweep (`vastar sweep`).

## Layout

- `src/` — the verified library. Every function carries a contract that Verus proves:
  - `request.rs` — URL splitting and the raw request bytes sent on every connection;
  - `http.rs` — the strict response parser (status line, header lines, chunk sizes)
    and the decisions that drive reading a body;
  - `engine.rs` — per-worker bookkeeping, the worker event loop's decisions, the worker
    topology and the split of requests and connections over the workers;
  - `stats.rs` — merging the workers' results, percentiles;
  - `report.rs` — status labels, progress bar and histogram geometry, report counts;
  - `sweep.rs` — the sweep's option grammar (`--conc`, durations), level lists, JSON
    string escaping, `/proc/meminfo` reading;
  - `refcurve.rs` — reading a cached reference curve back from a sweep's JSON;
  - `cli.rs` — the flat benchmark's option checks and request headers;
  - `server.rs` — the benchmark target server's response and request framing;
  - `text.rs`, `base64.rs` — shared text helpers and the Basic-auth encoder.
- `app/` — the program around the library: command-line parsing, sockets, timers,
  terminal output, and everything computed in floating point (rates, latency ratios,
  log spacing, the sweet-spot pick).
- `tests/` — tests of the library on concrete values.
