# tgd_aap

The verified core of the TGD-AAP data and inference pipeline.

- `src/` is the library, verified with Verus:
  - `text`: Unicode whitespace trimming and decimal rendering (specs and the
    two std calls behind them).
  - `data_engine::fetcher`, `data_engine::cleaner`: raw records and their
    cleaning (trimmed non-empty id and name, finite value), with the laws that
    cleaning keeps only valid records and is idempotent.
  - `data_engine::toon`: the Toon frame (`TOON`, version, little-endian count,
    line-per-record payload), its decoder's error rules, and the round-trip law.
  - `data_engine::etl`, `grpc_client`: run identifiers, upload endpoint, alert
    text and Telegram endpoint.
  - `quantum_bridge::circuit`: the feature-encoding circuit layout and its
    holyQASM text; `quantum_bridge::runner`: the most probable outcome of a
    simulation under the IEEE-754 total order.
  - `inference_handler`: the service handler type.
  Doubles are carried as IEEE-754 bit patterns (`u64`).
- `app/` is the program around it: HTTP fetch and upload, JSON encoding, the
  gRPC server and client, the holyQASM subprocess, and all floating-point
  scoring. `cargo run -- etl`, `cargo run -- client`, or no argument for the
  server.
- `tests/` exercise the library on concrete values.
