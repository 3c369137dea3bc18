# TAK Bench

`tak_bench` is the verified core of a tool for explicitly authorized testing of TAK/CoT servers
that accept CoT XML over raw TCP, TLS or mTLS. Use it only against servers that you administer or
are authorized to test.

The library under `src/` is executable Rust whose contracts are proved by Verus:

- `protocol`, `tags`, `xml`, `framing`: CoT events, the XML they are written as, and how a byte
  stream is cut into events;
- `config`, `host`, `safety`, `overrides`: the configuration and the guardrails that a run has to
  pass before anything is dialled;
- `scheduler`, `scenarios`, `session`, `sender`, `receiver`, `readiness`: when participants start,
  connect, send, read, wait and connect again;
- `ledger`, `metrics`, `thresholds`: which events were observed by whom, counters and latencies, and
  when a run is to be aborted;
- `report`, `runner`, `lifecycle`: how a run is judged and told, without credentials or payloads;
- `connection`: server names and TLS clients;
- `binary64`, `duration`, `timestamp`, `correlation`, `text`, `markup`: the values all of these work
  on.

`app/` is the `tak-bench` program around it: the command line, YAML and JSON, sockets, timers and
tasks. `tests/` holds the tests of the library.

What the library takes from other crates stands behind functions whose contracts are stated and not
proved. Their doc comments name the function that is called and say what is claimed of it.
