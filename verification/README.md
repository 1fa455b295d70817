# r2_relay

The core of a relay that forwards opaque, end-to-end encrypted frames
between the devices of a trust group, verified with Verus.

- `src/buffer.rs` — the bounded buffer of recent frames kept per group for catch-up.
- `src/hex.rs` — the hex codec of the wire protocol.
- `src/crypto.rs` — the Ed25519 key and signature checks (ed25519-dalek).
- `src/state.rs` — the relay state: groups, connections, routing, catch-up,
  connection ids, rate limits and word codes.
- `src/handshake.rs` — the HELLO/WELCOME admission rules.
- `src/session.rs` — the answers to text messages and the heartbeat rule.
- `src/protocol.rs` — the protocol messages, close codes and refusal reasons.
- `app/` — the server program: command line, axum WebSocket serving, clocks,
  channels and JSON.
