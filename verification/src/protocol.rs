use vstd::prelude::*;

verus! {

/// Messages sent by the client (device or browser) to the relay.
#[derive(Debug, PartialEq, Eq)]
pub enum ClientMessage {
    Hello { version: u32, trust_group: String, device_id: String, timestamp: u64, signature: String },
    Ping,
    Catchup { since: u64 },
}

/// Messages sent by the relay to the client.
#[derive(Debug, Clone, Copy, PartialEq, Eq, Structural)]
pub enum ServerMessage {
    Welcome { version: u32, peers: usize, buffer_oldest: u64 },
    Pong,
    CatchupIncomplete { oldest: u64 },
}

/// WebSocket close code: the HELLO was refused.
pub const CLOSE_AUTH_FAILED: u16 = 4401;

/// WebSocket close code: the device is banned.
pub const CLOSE_BANNED: u16 = 4403;

/// WebSocket close code: no frame arrived within the heartbeat timeout.
pub const CLOSE_HEARTBEAT_TIMEOUT: u16 = 4408;

/// WebSocket close code: the relay holds as many connections as it admits.
pub const CLOSE_TOO_MANY: u16 = 4429;

/// Why a HELLO handshake was refused.
#[derive(Debug, Clone, Copy, PartialEq, Eq, Structural)]
pub enum HandshakeError {
    /// The first message was not a text HELLO.
    ExpectedHello,
    /// The first message was text that does not parse as a client message.
    MalformedHello,
    UnsupportedVersion,
    TimestampOutOfRange,
    InvalidDeviceId,
    InvalidSignature,
    InvalidPublicKey,
    SignatureVerificationFailed,
    InvalidTrustGroup,
    NoMatchingTrustGroup,
    AmbiguousTrustGroupPrefix,
    InvalidTrustGroupLength,
    TooManyConnections,
}

/// The close code that answers a refused HELLO.
pub open spec fn spec_close_code(e: HandshakeError) -> u16 {
    match e {
        HandshakeError::TooManyConnections => CLOSE_TOO_MANY,
        _ => CLOSE_AUTH_FAILED,
    }
}

impl HandshakeError {
    /// The close code that answers this refusal.
    pub fn close_code(&self) -> (code: u16)
        ensures
            code == spec_close_code(*self),
    {
        match self {
            HandshakeError::TooManyConnections => CLOSE_TOO_MANY,
            _ => CLOSE_AUTH_FAILED,
        }
    }

    /// The close reason sent with the close code.
    pub fn reason(&self) -> (r: &'static str)
        ensures
            *self == HandshakeError::ExpectedHello ==> r@ == "expected HELLO"@,
            *self == HandshakeError::MalformedHello ==> r@ == "malformed HELLO"@,
            *self == HandshakeError::UnsupportedVersion ==> r@ == "unsupported version"@,
            *self == HandshakeError::TimestampOutOfRange ==> r@ == "timestamp out of range"@,
            *self == HandshakeError::InvalidDeviceId ==> r@ == "invalid device_id"@,
            *self == HandshakeError::InvalidSignature ==> r@ == "invalid signature"@,
            *self == HandshakeError::InvalidPublicKey ==> r@ == "invalid public key"@,
            *self == HandshakeError::SignatureVerificationFailed ==> r@ == "signature verification failed"@,
            *self == HandshakeError::InvalidTrustGroup ==> r@ == "invalid trust_group"@,
            *self == HandshakeError::NoMatchingTrustGroup ==> r@ == "no matching trust group"@,
            *self == HandshakeError::AmbiguousTrustGroupPrefix ==> r@ == "ambiguous trust group prefix"@,
            *self == HandshakeError::InvalidTrustGroupLength ==> r@ == "invalid trust_group length"@,
            *self == HandshakeError::TooManyConnections ==> r@ == "too many connections"@,
    {
        match self {
            HandshakeError::ExpectedHello => "expected HELLO",
            HandshakeError::MalformedHello => "malformed HELLO",
            HandshakeError::UnsupportedVersion => "unsupported version",
            HandshakeError::TimestampOutOfRange => "timestamp out of range",
            HandshakeError::InvalidDeviceId => "invalid device_id",
            HandshakeError::InvalidSignature => "invalid signature",
            HandshakeError::InvalidPublicKey => "invalid public key",
            HandshakeError::SignatureVerificationFailed => "signature verification failed",
            HandshakeError::InvalidTrustGroup => "invalid trust_group",
            HandshakeError::NoMatchingTrustGroup => "no matching trust group",
            HandshakeError::AmbiguousTrustGroupPrefix => "ambiguous trust group prefix",
            HandshakeError::InvalidTrustGroupLength => "invalid trust_group length",
            HandshakeError::TooManyConnections => "too many connections",
        }
    }
}

} // verus!
