use vstd::prelude::*;

use crate::buffer::BufferedFrame;
use crate::protocol::{ClientMessage, ServerMessage};
use crate::state::{RelayState, TrustGroupHash};

verus! {

/// How long a connection may stay silent: 90 seconds, in nanoseconds.
pub const HEARTBEAT_TIMEOUT_NANOS: u64 = 90_000_000_000;

/// Whether a connection silent for `idle_nanos` has timed out.
pub fn heartbeat_expired(idle_nanos: u64) -> (expired: bool)
    ensures
        expired == (idle_nanos >= HEARTBEAT_TIMEOUT_NANOS),
{
    idle_nanos >= HEARTBEAT_TIMEOUT_NANOS
}

/// The monotonic time (nanoseconds) at which a connection last active at
/// `last_activity` times out: 90 seconds later, or the end of the clock.
pub fn heartbeat_deadline(last_activity: u64) -> (deadline: u64)
    ensures
        deadline == if last_activity <= u64::MAX - HEARTBEAT_TIMEOUT_NANOS {
            last_activity + HEARTBEAT_TIMEOUT_NANOS
        } else {
            u64::MAX as int
        },
{
    last_activity.saturating_add(HEARTBEAT_TIMEOUT_NANOS)
}

/// Waking at the deadline finds the connection timed out, and not earlier:
/// for a connection last active at `last_activity`, `now` is at or past the
/// deadline exactly when it has been silent for 90 seconds.
pub proof fn law_heartbeat_deadline(last_activity: u64, now: u64)
    requires
        last_activity <= now,
        last_activity <= u64::MAX - HEARTBEAT_TIMEOUT_NANOS,
    ensures
        (now >= last_activity + HEARTBEAT_TIMEOUT_NANOS) <==> (now - last_activity >= HEARTBEAT_TIMEOUT_NANOS),
{
}

impl RelayState {
    /// The answer to a text message of an admitted connection in group `tg`: a
    /// `Pong` to a ping; to a catch-up request, what `catchup` gives; nothing to
    /// a repeated HELLO.
    pub fn reply_to_text(&self, tg: TrustGroupHash, msg: &ClientMessage) -> (r: (Option<ServerMessage>, Vec<&BufferedFrame>))
        ensures
            match *msg {
                ClientMessage::Ping => r.0 == Some(ServerMessage::Pong) && r.1@.len() == 0,
                ClientMessage::Catchup { since } => {
                    let c = self.spec_catchup(tg, since);
                    &&& r.0 == c.0
                    &&& r.1@.map_values(|f: &BufferedFrame| f@) == c.1
                },
                ClientMessage::Hello { .. } => r.0 is None && r.1@.len() == 0,
            },
    {
        match msg {
            ClientMessage::Ping => (Some(ServerMessage::Pong), Vec::new()),
            ClientMessage::Catchup { since } => self.catchup(tg, *since),
            ClientMessage::Hello { .. } => (None, Vec::new()),
        }
    }
}

} // verus!
