# bdd-rust-multiprotocol-server

A server that answers the same greeting over REST, GraphQL, gRPC and FIX, and
keeps per-protocol telemetry.

- `src/` is the verified library:
  - `protocols/fix.rs`: FIX framing (body length, checksum), heartbeat
    recognition, the fixed Heartbeat / Test Request / Reject messages, and the
    per-connection decisions (`FixSession::on_read`), with laws about which
    fields survive framing.
  - `telemetry.rs`: per-protocol counters kept in ascending name order, with
    the invariant that failures never exceed requests and the counting laws.
  - `names.rs`: the order of protocol names.
  - `protocols/{rest,grpc,graphql}.rs`, `lib.rs`: replies, exchanges to record,
    health check and listener ports.
  - `activity.rs`: activity log records.
- `app/` holds the listeners (axum, tonic, tokio), the shared mutex around the
  telemetry, logging through `tracing`, and the floating-point averages of the
  telemetry snapshot.
- `tests/` exercises the library on concrete values.
