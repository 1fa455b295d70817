use vstd::prelude::*;
use vstd::string::StringSliceAdditionalSpecFns;
use vstd::utf8::encode_utf8;

use crate::crypto::{
    device_key_from_bytes, ed25519_key_decodes, ed25519_verifies, signature_from_bytes, verify_signature,
};
use crate::hex::{hex_decode, hex_decode_panics, lemma_decoded_never_panics, slices_inside_char, spec_hex_decode};
use crate::protocol::{ClientMessage, HandshakeError, ServerMessage};
use crate::state::{
    joined, spec_group_summary, spec_resolve, total_peers, ConnId, Connection, RelayState, TrustGroupHash,
};

verus! {

/// How far (seconds) a HELLO's timestamp may be from the relay's clock.
pub const TIMESTAMP_WINDOW: u64 = 60;

/// The decimal digits of `n`, as ASCII.
pub open spec fn decimal(n: nat) -> Seq<u8>
    decreases n,
{
    if n < 10 {
        seq![(48 + n) as u8]
    } else {
        decimal(n / 10).push((48 + n % 10) as u8)
    }
}

/// The bytes a device signs in its HELLO: `trust_group:device_id:timestamp`.
pub open spec fn spec_signed_message(trust_group: Seq<u8>, device_id: Seq<u8>, timestamp: u64) -> Seq<u8> {
    trust_group + seq![58u8] + device_id + seq![58u8] + decimal(timestamp as nat)
}

fn append_bytes(out: &mut Vec<u8>, bytes: &[u8])
    ensures
        final(out)@ == old(out)@ + bytes@,
{
    let n = bytes.len();
    for i in 0..n
        invariant
            n == bytes@.len(),
            out@ == old(out)@ + bytes@.take(i as int),
    {
        out.push(bytes[i]);
        assert(out@ =~= old(out)@ + bytes@.take(i + 1));
    }
    assert(bytes@.take(n as int) =~= bytes@);
}

fn append_decimal(out: &mut Vec<u8>, n: u64)
    ensures
        final(out)@ == old(out)@ + decimal(n as nat),
    decreases n,
{
    if n >= 10 {
        append_decimal(out, n / 10);
    }
    out.push(48 + (n % 10) as u8);
    assert(out@ =~= old(out)@ + decimal(n as nat));
}

/// The bytes a device signs in its HELLO: `trust_group:device_id:timestamp`.
pub fn signed_message(trust_group: &str, device_id: &str, timestamp: u64) -> (m: Vec<u8>)
    ensures
        m@ == spec_signed_message(trust_group.spec_bytes(), device_id.spec_bytes(), timestamp),
{
    let mut m: Vec<u8> = Vec::new();
    append_bytes(&mut m, trust_group.as_bytes());
    m.push(58);
    append_bytes(&mut m, device_id.as_bytes());
    m.push(58);
    append_decimal(&mut m, timestamp);
    assert(m@ =~= spec_signed_message(trust_group.spec_bytes(), device_id.spec_bytes(), timestamp));
    m
}

/// What the relay answers a HELLO with, given the active groups, the number of
/// connections, the connection limit and its clock (unix seconds). `None` stands
/// for the inputs on which the relay's checks overflow or slice a string inside a
/// character; `Some(Ok(h))` admits the device into group `h`.
pub open spec fn spec_hello(
    active: Set<TrustGroupHash>,
    total: int,
    max_connections: usize,
    version: u32,
    trust_group: Seq<u8>,
    device_id: Seq<u8>,
    timestamp: u64,
    signature: Seq<u8>,
    now: u64,
) -> Option<Result<TrustGroupHash, HandshakeError>> {
    if version != 1 {
        Some(Err(HandshakeError::UnsupportedVersion))
    } else if now + TIMESTAMP_WINDOW > u64::MAX {
        None
    } else if timestamp > now + TIMESTAMP_WINDOW {
        Some(Err(HandshakeError::TimestampOutOfRange))
    } else if timestamp + TIMESTAMP_WINDOW > u64::MAX {
        None
    } else if now > timestamp + TIMESTAMP_WINDOW {
        Some(Err(HandshakeError::TimestampOutOfRange))
    } else if hex_decode_panics(device_id) {
        None
    } else if !(spec_hex_decode(device_id) matches Some(pk) && pk.len() == 32) {
        Some(Err(HandshakeError::InvalidDeviceId))
    } else if hex_decode_panics(signature) {
        None
    } else if !(spec_hex_decode(signature) matches Some(sig) && sig.len() == 64) {
        Some(Err(HandshakeError::InvalidSignature))
    } else {
        let pk = spec_hex_decode(device_id).unwrap();
        let sig = spec_hex_decode(signature).unwrap();
        if !ed25519_key_decodes(pk) {
            Some(Err(HandshakeError::InvalidPublicKey))
        } else if !ed25519_verifies(pk, spec_signed_message(trust_group, device_id, timestamp), sig) {
            Some(Err(HandshakeError::SignatureVerificationFailed))
        } else if trust_group.len() == 16 && hex_decode_panics(trust_group) {
            None
        } else {
            match spec_resolve(active, trust_group) {
                Err(e) => Some(Err(e)),
                Ok(h) => if total > usize::MAX {
                    None
                } else if total >= max_connections {
                    Some(Err(HandshakeError::TooManyConnections))
                } else {
                    Some(Ok(h))
                },
            }
        }
    }
}

/// The relay admits a device only on a HELLO of version 1, stamped within 60
/// seconds of the relay's clock, whose signature over
/// `trust_group:device_id:timestamp` verifies with the device key it carries,
/// that names a group, while fewer than `max_connections` devices are connected.
pub proof fn law_admitted_only_if_valid(
    active: Set<TrustGroupHash>,
    total: int,
    max_connections: usize,
    version: u32,
    trust_group: Seq<u8>,
    device_id: Seq<u8>,
    timestamp: u64,
    signature: Seq<u8>,
    now: u64,
    h: TrustGroupHash,
)
    requires
        spec_hello(active, total, max_connections, version, trust_group, device_id, timestamp, signature, now)
            == Some(Ok::<TrustGroupHash, HandshakeError>(h)),
    ensures
        version == 1,
        timestamp <= now + TIMESTAMP_WINDOW,
        now <= timestamp + TIMESTAMP_WINDOW,
        spec_hex_decode(device_id) matches Some(pk) && pk.len() == 32,
        spec_hex_decode(signature) matches Some(sig) && sig.len() == 64,
        ed25519_verifies(
            spec_hex_decode(device_id).unwrap(),
            spec_signed_message(trust_group, device_id, timestamp),
            spec_hex_decode(signature).unwrap(),
        ),
        spec_resolve(active, trust_group) == Ok::<TrustGroupHash, HandshakeError>(h),
        total < max_connections,
{
}

/// A HELLO of version 1, stamped within 60 seconds of the relay's clock, whose
/// device key and signature are valid hex of the right lengths and verify, and
/// that names a group, is admitted into that group while fewer than
/// `max_connections` devices are connected.
pub proof fn law_valid_hello_admitted(
    active: Set<TrustGroupHash>,
    total: int,
    max_connections: usize,
    trust_group: Seq<u8>,
    device_id: Seq<u8>,
    timestamp: u64,
    signature: Seq<u8>,
    now: u64,
    h: TrustGroupHash,
    pk: Seq<u8>,
    sig: Seq<u8>,
)
    requires
        now + TIMESTAMP_WINDOW <= u64::MAX,
        timestamp + TIMESTAMP_WINDOW <= u64::MAX,
        timestamp <= now + TIMESTAMP_WINDOW,
        now <= timestamp + TIMESTAMP_WINDOW,
        spec_hex_decode(device_id) == Some(pk),
        pk.len() == 32,
        spec_hex_decode(signature) == Some(sig),
        sig.len() == 64,
        ed25519_key_decodes(pk),
        ed25519_verifies(pk, spec_signed_message(trust_group, device_id, timestamp), sig),
        !hex_decode_panics(trust_group),
        spec_resolve(active, trust_group) == Ok::<TrustGroupHash, HandshakeError>(h),
        0 <= total < max_connections,
    ensures
        spec_hello(active, total, max_connections, 1, trust_group, device_id, timestamp, signature, now)
            == Some(Ok::<TrustGroupHash, HandshakeError>(h)),
{
    lemma_decoded_never_panics(device_id);
    lemma_decoded_never_panics(signature);
}

/// What the relay answers a first message with (see `spec_hello`).
pub open spec fn spec_accept_hello(s: RelayState, msg: ClientMessage, now: u64) -> Option<Result<TrustGroupHash, HandshakeError>> {
    match msg {
        ClientMessage::Hello { version, trust_group, device_id, timestamp, signature } => spec_hello(
            s.groups().dom(),
            total_peers(s.groups()),
            s.spec_max_connections(),
            version,
            encode_utf8(trust_group@),
            encode_utf8(device_id@),
            timestamp,
            encode_utf8(signature@),
            now,
        ),
        _ => Some(Err(HandshakeError::ExpectedHello)),
    }
}

/// A device admitted by its HELLO.
pub struct Admission {
    pub trust_group: TrustGroupHash,
    pub device_id: String,
    pub conn_id: ConnId,
    /// Peers already in the group.
    pub peers: usize,
    /// Timestamp of the group's oldest buffered frame, 0 if none.
    pub buffer_oldest: u64,
}

impl Admission {
    /// The WELCOME that answers the HELLO.
    pub fn welcome(&self) -> (m: ServerMessage)
        ensures
            m == (ServerMessage::Welcome { version: 1, peers: self.peers, buffer_oldest: self.buffer_oldest }),
    {
        ServerMessage::Welcome { version: 1, peers: self.peers, buffer_oldest: self.buffer_oldest }
    }
}

impl RelayState {
    /// Runs the HELLO/WELCOME handshake on the first message of a connection, at
    /// unix time `now`: checks the version, the timestamp window, the device key,
    /// the signature over `trust_group:device_id:timestamp`, the trust group and the
    /// connection limit, in that order, and on success hands out a connection id.
    /// `None` where these checks would overflow or slice a string inside a
    /// character (see `spec_hello`).
    pub fn accept_hello(&mut self, msg: ClientMessage, now: u64) -> (r: Option<Result<Admission, HandshakeError>>)
        ensures
            match r {
                None => spec_accept_hello(*old(self), msg, now) is None,
                Some(Err(e)) => spec_accept_hello(*old(self), msg, now) == Some(Err::<TrustGroupHash, HandshakeError>(e)),
                Some(Ok(a)) => {
                    &&& spec_accept_hello(*old(self), msg, now) == Some(Ok::<TrustGroupHash, HandshakeError>(a.trust_group))
                    &&& a.conn_id == old(self).next_id()
                    &&& msg matches ClientMessage::Hello { device_id, .. } && a.device_id@ == device_id@
                    &&& (a.peers, a.buffer_oldest) == spec_group_summary(old(self).groups(), a.trust_group)
                },
            },
            final(self).next_id() == if r matches Some(Ok(_)) {
                old(self).next_id().wrapping_add(1)
            } else {
                old(self).next_id()
            },
            final(self).groups() == old(self).groups(),
            final(self).rate_limits() == old(self).rate_limits(),
            final(self).word_codes() == old(self).word_codes(),
            old(self).wf() && old(self).next_id() != 0 ==> final(self).wf(),
            final(self).spec_buffer_size() == old(self).spec_buffer_size(),
            final(self).spec_max_connections() == old(self).spec_max_connections(),
            final(self).spec_frames_routed() == old(self).spec_frames_routed(),
            final(self).spec_connections_total() == old(self).spec_connections_total(),
    {
        let ghost msg0 = msg;
        match msg {
            ClientMessage::Hello { version, trust_group, device_id, timestamp, signature } => {
                let tg = trust_group.as_str();
                let dev = device_id.as_str();
                let sg = signature.as_str();
                assert(tg.spec_bytes() == encode_utf8(trust_group@));
                assert(dev.spec_bytes() == encode_utf8(device_id@));
                assert(sg.spec_bytes() == encode_utf8(signature@));
                if version != 1 {
                    return Some(Err(HandshakeError::UnsupportedVersion));
                }
                if now > u64::MAX - TIMESTAMP_WINDOW {
                    return None;
                }
                if timestamp > now + TIMESTAMP_WINDOW {
                    return Some(Err(HandshakeError::TimestampOutOfRange));
                }
                if timestamp > u64::MAX - TIMESTAMP_WINDOW {
                    return None;
                }
                if now > timestamp + TIMESTAMP_WINDOW {
                    return Some(Err(HandshakeError::TimestampOutOfRange));
                }
                if slices_inside_char(dev) {
                    return None;
                }
                let pk = match hex_decode(dev) {
                    Some(b) => b,
                    None => return Some(Err(HandshakeError::InvalidDeviceId)),
                };
                if pk.len() != 32 {
                    return Some(Err(HandshakeError::InvalidDeviceId));
                }
                if slices_inside_char(sg) {
                    return None;
                }
                let sig = match hex_decode(sg) {
                    Some(b) => b,
                    None => return Some(Err(HandshakeError::InvalidSignature)),
                };
                if sig.len() != 64 {
                    return Some(Err(HandshakeError::InvalidSignature));
                }
                let key = match device_key_from_bytes(pk) {
                    Some(k) => k,
                    None => return Some(Err(HandshakeError::InvalidPublicKey)),
                };
                let sig = signature_from_bytes(sig);
                let message = signed_message(tg, dev, timestamp);
                if !verify_signature(&key, message.as_slice(), &sig) {
                    return Some(Err(HandshakeError::SignatureVerificationFailed));
                }
                if tg.as_bytes().len() == 16 && slices_inside_char(tg) {
                    return None;
                }
                let hash = match self.resolve_trust_group(tg) {
                    Ok(h) => h,
                    Err(e) => return Some(Err(e)),
                };
                match self.checked_total_connections() {
                    None => return None,
                    Some(total) => {
                        if total >= self.max_connections() {
                            return Some(Err(HandshakeError::TooManyConnections));
                        }
                    },
                }
                let conn_id = self.next_conn_id();
                let (peers, buffer_oldest) = self.group_summary(hash);
                Some(Ok(Admission { trust_group: hash, device_id, conn_id, peers, buffer_oldest }))
            },
            _ => Some(Err(HandshakeError::ExpectedHello)),
        }
    }
}

impl RelayState {
    /// Runs the handshake (see `accept_hello`) and, when the device is admitted,
    /// registers its connection, monotonic time `connected_at` (nanoseconds), in
    /// the same step. The connection limit is checked against the connections
    /// registered, so however many handshakes run one after another on the relay,
    /// it never holds more than `max_connections` connections.
    pub fn join_hello(&mut self, msg: ClientMessage, now: u64, connected_at: u64) -> (r: Option<Result<Admission, HandshakeError>>)
        requires
            old(self).wf(),
            old(self).next_id() != 0,
        ensures
            final(self).wf(),
            match r {
                None => spec_accept_hello(*old(self), msg, now) is None && final(self).groups() == old(self).groups(),
                Some(Err(e)) => spec_accept_hello(*old(self), msg, now) == Some(Err::<TrustGroupHash, HandshakeError>(e))
                    && final(self).groups() == old(self).groups(),
                Some(Ok(a)) => {
                    &&& spec_accept_hello(*old(self), msg, now) == Some(Ok::<TrustGroupHash, HandshakeError>(a.trust_group))
                    &&& a.conn_id == old(self).next_id()
                    &&& msg matches ClientMessage::Hello { device_id, .. } && a.device_id@ == device_id@
                    &&& (a.peers, a.buffer_oldest) == spec_group_summary(old(self).groups(), a.trust_group)
                    &&& joined(
                        old(self).groups(),
                        final(self).groups(),
                        a.trust_group,
                        Connection { conn_id: a.conn_id, device_id: a.device_id, connected_at },
                        old(self).spec_buffer_size(),
                    )
                    &&& total_peers(final(self).groups()) == total_peers(old(self).groups()) + 1
                    &&& total_peers(final(self).groups()) <= old(self).spec_max_connections()
                },
            },
            total_peers(old(self).groups()) <= old(self).spec_max_connections()
                ==> total_peers(final(self).groups()) <= final(self).spec_max_connections(),
            final(self).next_id() == if r matches Some(Ok(_)) {
                old(self).next_id().wrapping_add(1)
            } else {
                old(self).next_id()
            },
            final(self).rate_limits() == old(self).rate_limits(),
            final(self).word_codes() == old(self).word_codes(),
            final(self).spec_buffer_size() == old(self).spec_buffer_size(),
            final(self).spec_max_connections() == old(self).spec_max_connections(),
            final(self).spec_frames_routed() == old(self).spec_frames_routed(),
            final(self).spec_connections_total() == old(self).spec_connections_total(),
    {
        let ghost before = *self;
        let r = self.accept_hello(msg, now);
        match r {
            Some(Ok(a)) => {
                let conn = Connection { conn_id: a.conn_id, device_id: a.device_id.clone(), connected_at };
                proof {
                    assert(!crate::state::registered(self.groups(), conn.conn_id)) by {
                        before.lemma_next_id_fresh();
                    }
                    assert(self.next_id() == 0 || conn.conn_id < self.next_id()) by {
                        before.lemma_next_id_fresh();
                    }
                }
                self.register_connection(a.trust_group, conn);
                Some(Ok(a))
            },
            _ => r,
        }
    }
}

} // verus!
