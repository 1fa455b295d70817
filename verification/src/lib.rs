//! Relay core: the trust-group rooms, their bounded frame buffers, the
//! hex codec of the wire protocol and the HELLO admission rules, each
//! with its contract.

pub mod buffer;
pub mod crypto;
pub mod handshake;
pub mod hex;
pub mod protocol;
pub mod session;
pub mod state;
