use ed25519_dalek::{Signature, Verifier, VerifyingKey};
use vstd::prelude::*;

verus! {

#[verifier::external_type_specification]
#[verifier::external_body]
pub struct ExVerifyingKey(VerifyingKey);

#[verifier::external_type_specification]
#[verifier::external_body]
pub struct ExSignature(Signature);

/// Whether 32 bytes are the compressed Edwards-y form of a curve point, that is,
/// whether ed25519-dalek's `VerifyingKey::from_bytes` accepts them.
pub uninterp spec fn ed25519_key_decodes(public_key: Seq<u8>) -> bool;

/// Whether ed25519-dalek's `Verifier::verify`, with the key that `VerifyingKey::from_bytes`
/// decodes from `public_key`, accepts the 64-byte `signature` of `message`.
pub uninterp spec fn ed25519_verifies(public_key: Seq<u8>, message: Seq<u8>, signature: Seq<u8>) -> bool;

/// A device's Ed25519 public key together with the bytes it was decoded from.
pub struct DeviceKey {
    bytes: Vec<u8>,
    key: VerifyingKey,
}

impl DeviceKey {
    /// The 32 bytes the key was decoded from.
    pub closed spec fn view(&self) -> Seq<u8> {
        self.bytes@
    }
}

/// An Ed25519 signature together with the 64 bytes it was read from.
pub struct DeviceSignature {
    bytes: Vec<u8>,
    signature: Signature,
}

impl DeviceSignature {
    /// The 64 bytes the signature was read from.
    pub closed spec fn view(&self) -> Seq<u8> {
        self.bytes@
    }
}

/// `VerifyingKey::from_bytes` (ed25519-dalek): decompresses the point; fails
/// exactly when the bytes are not a point's compressed form. A key that comes
/// back is kept with the bytes it was made from, so that `verify_signature`
/// speaks of those bytes.
#[verifier::external_body]
pub(crate) fn device_key_from_bytes(bytes: Vec<u8>) -> (r: Option<DeviceKey>)
    requires
        bytes@.len() == 32,
    ensures
        r is Some <==> ed25519_key_decodes(bytes@),
        r matches Some(k) ==> k@ == bytes@,
{
    let parsed = VerifyingKey::from_bytes(bytes.as_slice().try_into().unwrap());
    match parsed {
        Ok(key) => Some(DeviceKey { bytes, key }),
        Err(_) => None,
    }
}

/// `Signature::from_bytes` (the ed25519 crate that ed25519-dalek re-exports):
/// splits the bytes into the two components; it cannot fail. The signature is
/// kept with the bytes it was read from.
#[verifier::external_body]
pub(crate) fn signature_from_bytes(bytes: Vec<u8>) -> (s: DeviceSignature)
    requires
        bytes@.len() == 64,
    ensures
        s@ == bytes@,
{
    let signature = Signature::from_bytes(bytes.as_slice().try_into().unwrap());
    DeviceSignature { bytes, signature }
}

/// `Verifier::verify` of ed25519-dalek: `true` exactly when it returns `Ok` for
/// the key and signature read from the given bytes.
#[verifier::external_body]
pub(crate) fn verify_signature(key: &DeviceKey, message: &[u8], signature: &DeviceSignature) -> (ok: bool)
    ensures
        ok == ed25519_verifies(key@, message@, signature@),
{
    key.key.verify(message, &signature.signature).is_ok()
}

} // verus!
