use ed25519_dalek::{Signer, SigningKey, VerifyingKey};
use r2_relay::handshake::{signed_message, Admission};
use r2_relay::hex::encode;
use r2_relay::protocol::{
    ClientMessage, HandshakeError, ServerMessage, CLOSE_AUTH_FAILED, CLOSE_TOO_MANY,
};
use r2_relay::session::{heartbeat_deadline, heartbeat_expired};
use r2_relay::state::{Connection, RelayState, TrustGroupState};

fn conn(id: u64) -> Connection {
    Connection { conn_id: id, device_id: format!("device-{id}"), connected_at: 0 }
}

/// Registers a connection under the next id, which is `expected_id`.
fn join(s: &mut RelayState, tg: u64, expected_id: u64) {
    let id = s.next_conn_id();
    assert_eq!(id, expected_id);
    s.register_connection(tg, conn(id));
}

const TG_HEX: &str = "0011223344556677";
const TG: u64 = 0x0011_2233_4455_6677;

fn hello(key: &SigningKey, trust_group: &str, timestamp: u64) -> ClientMessage {
    let device_id = encode(&key.verifying_key().to_bytes());
    let message = format!("{}:{}:{}", trust_group, device_id, timestamp);
    let signature = encode(&key.sign(message.as_bytes()).to_bytes());
    ClientMessage::Hello { version: 1, trust_group: trust_group.to_string(), device_id, timestamp, signature }
}

fn admitted(r: Option<Result<Admission, HandshakeError>>) -> Admission {
    match r {
        Some(Ok(a)) => a,
        Some(Err(e)) => panic!("refused: {e:?}"),
        None => panic!("aborted"),
    }
}

fn refused(r: Option<Result<Admission, HandshakeError>>) -> HandshakeError {
    match r {
        Some(Err(e)) => e,
        Some(Ok(_)) => panic!("admitted"),
        None => panic!("aborted"),
    }
}

#[test]
fn group_broadcast_skips_sender() {
    let mut g = TrustGroupState::new(4);
    for id in 1..=3 {
        g.connections.insert(id, conn(id));
    }
    let mut r = g.broadcast(2);
    r.sort();
    assert_eq!(r, vec![1, 3]);
    assert_eq!(g.peer_count(), 3);
}

#[test]
fn frames_reach_every_other_member_only() {
    let mut s = RelayState::new(10, 100);
    join(&mut s, 1, 1);
    join(&mut s, 1, 2);
    join(&mut s, 1, 3);
    join(&mut s, 2, 4);
    let mut r = s.route_frame(1, 2, vec![7, 7], 500);
    r.sort();
    assert_eq!(r, vec![1, 3]);
    assert_eq!(s.frames_routed(), 1);
    assert_eq!(s.connections_total(), 0);
    s.count_accepted();
    assert_eq!(s.connections_total(), 1);
    // The other group neither receives nor buffers the frame.
    let (notice, frames) = s.catchup(2, 0);
    assert_eq!(notice, None);
    assert!(frames.is_empty());
    let (_, frames) = s.catchup(1, 0);
    assert_eq!(frames.len(), 1);
    assert_eq!(frames[0].data, vec![7, 7]);
    assert_eq!(frames[0].timestamp, 500);
}

#[test]
fn frames_for_unknown_group_go_nowhere() {
    let mut s = RelayState::new(10, 100);
    assert!(s.route_frame(9, 1, vec![1], 1).is_empty());
    assert_eq!(s.frames_routed(), 0);
}

#[test]
fn catchup_reports_incomplete_buffer() {
    let mut s = RelayState::new(2, 100);
    join(&mut s, 1, 1);
    s.route_frame(1, 1, vec![1], 100);
    s.route_frame(1, 1, vec![2], 200);
    s.route_frame(1, 1, vec![3], 300);
    let (notice, frames) = s.catchup(1, 50);
    assert_eq!(notice, Some(ServerMessage::CatchupIncomplete { oldest: 200 }));
    assert_eq!(frames.len(), 2);
    let (notice, frames) = s.catchup(1, 200);
    assert_eq!(notice, None);
    assert_eq!(frames.len(), 1);
    assert_eq!(frames[0].data, vec![3]);
}

#[test]
fn text_replies() {
    let mut s = RelayState::new(4, 100);
    join(&mut s, 1, 1);
    let (m, f) = s.reply_to_text(1, &ClientMessage::Ping);
    assert_eq!(m, Some(ServerMessage::Pong));
    assert!(f.is_empty());
    let (m, f) = s.reply_to_text(1, &ClientMessage::Catchup { since: 0 });
    assert_eq!(m, None);
    assert!(f.is_empty());
}

#[test]
fn last_leave_removes_group() {
    let mut s = RelayState::new(4, 100);
    join(&mut s, 5, 1);
    join(&mut s, 5, 2);
    assert_eq!(s.total_connections(), 2);
    assert_eq!(s.leave(5, 1), Some(1));
    assert_eq!(s.group_summary(5), (1, 0));
    assert_eq!(s.leave(5, 2), Some(0));
    assert_eq!(s.group_summary(5), (0, 0));
    assert_eq!(s.leave(5, 2), None);
    assert_eq!(s.total_connections(), 0);
}

#[test]
fn connection_ids_count_up() {
    let mut s = RelayState::new(4, 100);
    assert_eq!(s.next_conn_id(), 1);
    assert_eq!(s.next_conn_id(), 2);
    assert_eq!(s.next_conn_id(), 3);
}

#[test]
fn trust_group_resolution() {
    let mut s = RelayState::new(4, 100);
    assert_eq!(s.resolve_trust_group(TG_HEX), Ok(TG));
    assert_eq!(s.resolve_trust_group("00112233445566zz"), Err(HandshakeError::InvalidTrustGroup));
    assert_eq!(s.resolve_trust_group("ab"), Err(HandshakeError::InvalidTrustGroupLength));
    assert_eq!(s.resolve_trust_group("0011223"), Err(HandshakeError::InvalidTrustGroupLength));
    assert_eq!(s.resolve_trust_group("001"), Err(HandshakeError::NoMatchingTrustGroup));
    join(&mut s, TG, 1);
    assert_eq!(s.resolve_trust_group("001122"), Ok(TG));
    join(&mut s, 0x0012_0000_0000_0000, 2);
    assert_eq!(s.resolve_trust_group("001"), Err(HandshakeError::AmbiguousTrustGroupPrefix));
    assert_eq!(s.resolve_trust_group("0011"), Ok(TG));
}

#[test]
fn hello_admitted_with_valid_signature() {
    let key = SigningKey::from_bytes(&[7u8; 32]);
    let mut s = RelayState::new(4, 100);
    let a = admitted(s.accept_hello(hello(&key, TG_HEX, 1_000_000), 1_000_030));
    assert_eq!(a.trust_group, TG);
    assert_eq!(a.conn_id, 1);
    assert_eq!(a.peers, 0);
    assert_eq!(a.buffer_oldest, 0);
    assert_eq!(a.device_id, encode(&key.verifying_key().to_bytes()));
    assert_eq!(a.welcome(), ServerMessage::Welcome { version: 1, peers: 0, buffer_oldest: 0 });
}

#[test]
fn hello_welcome_reports_group() {
    let key = SigningKey::from_bytes(&[9u8; 32]);
    let mut s = RelayState::new(4, 100);
    join(&mut s, TG, 1);
    s.route_frame(TG, 1, vec![1], 777);
    let a = admitted(s.accept_hello(hello(&key, "0011", 1000), 1000));
    assert_eq!(a.trust_group, TG);
    assert_eq!(a.peers, 1);
    assert_eq!(a.buffer_oldest, 777);
}

#[test]
fn hello_refusals() {
    let key = SigningKey::from_bytes(&[7u8; 32]);
    let mut s = RelayState::new(4, 100);
    let mut m = hello(&key, TG_HEX, 1000);
    if let ClientMessage::Hello { version, .. } = &mut m {
        *version = 2;
    }
    assert_eq!(refused(s.accept_hello(m, 1000)), HandshakeError::UnsupportedVersion);
    assert_eq!(refused(s.accept_hello(hello(&key, TG_HEX, 1000), 1061)), HandshakeError::TimestampOutOfRange);
    assert_eq!(refused(s.accept_hello(hello(&key, TG_HEX, 1061), 1000)), HandshakeError::TimestampOutOfRange);
    admitted(s.accept_hello(hello(&key, TG_HEX, 1060), 1000));
    assert_eq!(refused(s.accept_hello(ClientMessage::Ping, 1000)), HandshakeError::ExpectedHello);

    let mut m = hello(&key, TG_HEX, 1000);
    if let ClientMessage::Hello { device_id, .. } = &mut m {
        device_id.truncate(62);
    }
    assert_eq!(refused(s.accept_hello(m, 1000)), HandshakeError::InvalidDeviceId);

    let mut m = hello(&key, TG_HEX, 1000);
    if let ClientMessage::Hello { signature, .. } = &mut m {
        signature.push_str("zz");
    }
    assert_eq!(refused(s.accept_hello(m, 1000)), HandshakeError::InvalidSignature);

    let mut m = hello(&key, TG_HEX, 1000);
    if let ClientMessage::Hello { timestamp, .. } = &mut m {
        *timestamp = 1001;
    }
    assert_eq!(refused(s.accept_hello(m, 1000)), HandshakeError::SignatureVerificationFailed);

    assert_eq!(refused(s.accept_hello(hello(&key, "0011223344", 1000), 1000)), HandshakeError::InvalidTrustGroupLength);
    assert_eq!(refused(s.accept_hello(hello(&key, "fff", 1000), 1000)), HandshakeError::NoMatchingTrustGroup);
}

#[test]
fn hello_with_invalid_public_key() {
    let key = SigningKey::from_bytes(&[7u8; 32]);
    let bad = (0u8..=255)
        .map(|b| {
            let mut k = [0u8; 32];
            k[0] = b;
            k[1] = 0x55;
            k
        })
        .find(|k| VerifyingKey::from_bytes(k).is_err())
        .expect("some bytes are not a point");
    let mut m = hello(&key, TG_HEX, 1000);
    if let ClientMessage::Hello { device_id, .. } = &mut m {
        *device_id = encode(&bad);
    }
    let mut s = RelayState::new(4, 100);
    assert_eq!(refused(s.accept_hello(m, 1000)), HandshakeError::InvalidPublicKey);
}

#[test]
fn hello_refused_when_full() {
    let key = SigningKey::from_bytes(&[7u8; 32]);
    let mut s = RelayState::new(4, 1);
    join(&mut s, TG, 1);
    let e = refused(s.accept_hello(hello(&key, TG_HEX, 1000), 1000));
    assert_eq!(e, HandshakeError::TooManyConnections);
    assert_eq!(e.close_code(), CLOSE_TOO_MANY);
    assert_eq!(HandshakeError::InvalidDeviceId.close_code(), CLOSE_AUTH_FAILED);
    assert_eq!(e.reason(), "too many connections");
    assert_eq!(s.next_conn_id(), 2);
}

#[test]
fn hello_that_slices_inside_a_character_aborts() {
    let key = SigningKey::from_bytes(&[7u8; 32]);
    let mut m = hello(&key, TG_HEX, 1000);
    if let ClientMessage::Hello { device_id, .. } = &mut m {
        *device_id = "a\u{e9}b".to_string();
    }
    let mut s = RelayState::new(4, 100);
    assert!(s.accept_hello(m, 1000).is_none());
}

#[test]
fn signed_message_format() {
    assert_eq!(signed_message("abc", "def", 1234567890), b"abc:def:1234567890".to_vec());
    assert_eq!(signed_message("", "", 0), b"::0".to_vec());
}

#[test]
fn heartbeat_after_ninety_seconds() {
    assert!(!heartbeat_expired(89_999_999_999));
    assert!(heartbeat_expired(90_000_000_000));
}

#[test]
fn rate_limit_allows_five_per_window() {
    let mut s = RelayState::new(4, 100);
    let second = 1_000_000_000u64;
    for i in 0..5 {
        assert!(s.check_rate_limit(42, i * second));
    }
    assert!(!s.check_rate_limit(42, 10 * second));
    assert!(s.check_rate_limit(43, 10 * second));
    // A new window starts 60 seconds after the first attempt.
    assert!(s.check_rate_limit(42, 60 * second));
}

#[test]
fn word_codes_are_single_use_and_expire() {
    let mut s = RelayState::new(4, 100);
    let minute = 60_000_000_000u64;
    s.register_word_code("apple-pear".to_string(), "tg1".to_string(), "join1".to_string(), 0);
    assert_eq!(s.lookup_word_code("apple-pear", minute), Some(("tg1".to_string(), "join1".to_string())));
    assert_eq!(s.lookup_word_code("apple-pear", minute), None);

    s.register_word_code("plum".to_string(), "tg2".to_string(), "join2".to_string(), 0);
    assert_eq!(s.lookup_word_code("plum", 5 * minute), None);

    s.register_word_code("fig".to_string(), "tg3".to_string(), "join3".to_string(), 0);
    s.register_word_code("fig".to_string(), "tg4".to_string(), "join4".to_string(), minute);
    assert_eq!(s.lookup_word_code("fig", 5 * minute), Some(("tg4".to_string(), "join4".to_string())));
}

#[test]
fn join_then_leave_restores_group() {
    let mut s = RelayState::new(4, 100);
    join(&mut s, 5, 1);
    s.route_frame(5, 1, vec![3], 300);
    assert_eq!(s.group_summary(5), (1, 300));
    join(&mut s, 5, 2);
    assert_eq!(s.group_summary(5), (2, 300));
    assert_eq!(s.leave(5, 2), Some(1));
    assert_eq!(s.group_summary(5), (1, 300));
    join(&mut s, 6, 3);
    assert_eq!(s.leave(6, 3), Some(0));
    assert_eq!(s.group_summary(6), (0, 0));
    assert_eq!(s.total_connections(), 1);
}

#[test]
fn join_hello_registers_and_keeps_the_limit() {
    let a = SigningKey::from_bytes(&[1u8; 32]);
    let b = SigningKey::from_bytes(&[2u8; 32]);
    let mut s = RelayState::new(4, 1);
    let first = admitted(s.join_hello(hello(&a, TG_HEX, 1000), 1000, 5));
    assert_eq!(first.conn_id, 1);
    assert_eq!(s.total_connections(), 1);
    assert_eq!(s.connections_total(), 0);
    assert_eq!(s.group_summary(TG), (1, 0));
    let e = refused(s.join_hello(hello(&b, TG_HEX, 1000), 1000, 6));
    assert_eq!(e, HandshakeError::TooManyConnections);
    assert_eq!(s.total_connections(), 1);
    assert_eq!(s.leave(TG, first.conn_id), Some(0));
    let second = admitted(s.join_hello(hello(&b, TG_HEX, 1000), 1000, 7));
    assert_eq!(second.conn_id, 2);
    assert_eq!(s.total_connections(), 1);
}

#[test]
fn heartbeat_deadline_is_ninety_seconds_after_activity() {
    assert_eq!(heartbeat_deadline(5), 90_000_000_005);
    assert_eq!(heartbeat_deadline(u64::MAX - 1), u64::MAX);
    assert!(heartbeat_expired(heartbeat_deadline(5) - 5));
}

#[test]
fn leaving_unregisters_everywhere() {
    let mut s = RelayState::new(4, 100);
    join(&mut s, 1, 1);
    join(&mut s, 2, 2);
    let r = s.route_frame(2, 2, vec![1], 10);
    assert!(r.is_empty());
    assert_eq!(s.leave(1, 1), Some(0));
    assert_eq!(s.group_summary(1), (0, 0));
    assert_eq!(s.group_summary(2), (1, 10));
    assert_eq!(s.total_connections(), 1);
}

#[test]
fn joined_connection_can_be_undone() {
    let a = SigningKey::from_bytes(&[1u8; 32]);
    let mut s = RelayState::new(4, 1);
    let first = admitted(s.join_hello(hello(&a, TG_HEX, 1000), 1000, 5));
    assert_eq!(s.leave(first.trust_group, first.conn_id), Some(0));
    assert_eq!(s.total_connections(), 0);
    assert_eq!(s.connections_total(), 0);
    admitted(s.join_hello(hello(&a, TG_HEX, 1000), 1000, 6));
}
