//! The session handshake: a signed Hello, answered by a signed HelloAck bound to the
//! Hello's nonce.
//!
//! Identity here is the Ed25519 key that signs the Hello. The acknowledgement signs the
//! initiator's nonce as well, which binds the reply to one specific Hello: a recorded
//! acknowledgement cannot be replayed at a later session by someone who never held the
//! key.
//!
//! What is signed is postcard's encoding of every field of the message but the
//! signature, which is the compact wire format the messages travel in.

use vstd::prelude::*;
use crate::identity::{Identity, sign, verify, verify_spec, SignatureError};
use crate::primitives::{ed25519_public_of, ed25519_sig_of, ed25519_accepts_of, random_32};

verus! {

/// Protocol version carried in every envelope.
pub const PROTOCOL_VERSION: u16 = 4;

/// The views of a list of strings.
pub open spec fn str_views(v: Seq<String>) -> Seq<Seq<char>> {
    v.map_values(|s: String| s@)
}

/// The view of an optional string.
pub open spec fn opt_view(s: Option<String>) -> Option<Seq<char>> {
    match s {
        None => None,
        Some(x) => Some(x@),
    }
}

/// Which build a peer runs.
#[derive(Debug, Clone)]
pub struct BuildInfo {
    pub version: String,
    pub git_hash: Option<String>,
}

/// The opening message of a session.
#[derive(Debug, Clone)]
pub struct Hello {
    pub device_id: u128,
    pub pubkey_ed25519: [u8; 32],
    pub features: Vec<String>,
    pub build: BuildInfo,
    pub time_unix_ms: u64,
    pub nonce: [u8; 32],
    pub sig: Vec<u8>,
}

/// The answer to a Hello.
#[derive(Debug, Clone)]
pub struct HelloAck {
    pub accepted: bool,
    pub reason: Option<String>,
    pub features: Vec<String>,
    pub peer_device: u128,
    pub peer_pubkey: [u8; 32],
    pub nonce: [u8; 32],
    pub sig: Vec<u8>,
}

/// Who is on the other end, once their message has been verified.
#[derive(Debug, Clone)]
pub struct PeerHello {
    pub device_id: u128,
    pub pubkey: [u8; 32],
    pub features: Vec<String>,
}

/// postcard's encoding of the tuple `(device_id, pubkey, features, (version,
/// git_hash), time_unix_ms, nonce)`: the bytes a Hello's signature covers, every field
/// but the signature, in order, exactly as the message travels.
pub uninterp spec fn postcard_hello_of(
    device_id: u128,
    pubkey: Seq<u8>,
    features: Seq<Seq<char>>,
    version: Seq<char>,
    git_hash: Option<Seq<char>>,
    time_unix_ms: u64,
    nonce: Seq<u8>,
) -> Seq<u8>;

/// Calls `postcard::to_allocvec` on the tuple of a Hello's signed fields. Claims only
/// that the bytes are a function of the fields, named `postcard_hello_of`. postcard's
/// growable-vector output never refuses a byte and every length here is known, so the
/// call does not fail; its error arm is unreachable.
#[verifier::external_body]
fn postcard_hello(
    device_id: u128,
    pubkey: &[u8; 32],
    features: &Vec<String>,
    version: &String,
    git_hash: &Option<String>,
    time_unix_ms: u64,
    nonce: &[u8; 32],
) -> (b: Vec<u8>)
    ensures
        b@ == postcard_hello_of(device_id, pubkey@, str_views(features@), version@, opt_view(*git_hash), time_unix_ms, nonce@),
{
    match postcard::to_allocvec(&(device_id, pubkey, features, (version, git_hash), time_unix_ms, nonce)) {
        Ok(b) => b,
        Err(_) => Vec::new(),
    }
}

/// The signed bytes of `h`.
pub open spec fn hello_bytes_of(h: Hello) -> Seq<u8> {
    postcard_hello_of(
        h.device_id,
        h.pubkey_ed25519@,
        str_views(h.features@),
        h.build.version@,
        opt_view(h.build.git_hash),
        h.time_unix_ms,
        h.nonce@,
    )
}

/// postcard's encoding of the tuple `(accepted, reason, features, peer_device,
/// peer_pubkey, nonce)`: the bytes a HelloAck's signature covers.
pub uninterp spec fn postcard_ack_of(
    accepted: bool,
    reason: Option<Seq<char>>,
    features: Seq<Seq<char>>,
    peer_device: u128,
    peer_pubkey: Seq<u8>,
    nonce: Seq<u8>,
) -> Seq<u8>;

/// Calls `postcard::to_allocvec` on the tuple of a HelloAck's signed fields. Claims
/// only that the bytes are a function of the fields, named `postcard_ack_of`; as for
/// the Hello, the call does not fail and its error arm is unreachable.
#[verifier::external_body]
fn postcard_ack(
    accepted: bool,
    reason: &Option<String>,
    features: &Vec<String>,
    peer_device: u128,
    peer_pubkey: &[u8; 32],
    nonce: &[u8; 32],
) -> (b: Vec<u8>)
    ensures
        b@ == postcard_ack_of(accepted, opt_view(*reason), str_views(features@), peer_device, peer_pubkey@, nonce@),
{
    match postcard::to_allocvec(&(accepted, reason, features, peer_device, peer_pubkey, nonce)) {
        Ok(b) => b,
        Err(_) => Vec::new(),
    }
}

/// The signed bytes of `a`.
pub open spec fn ack_bytes_of(a: HelloAck) -> Seq<u8> {
    postcard_ack_of(a.accepted, opt_view(a.reason), str_views(a.features@), a.peer_device, a.peer_pubkey@, a.nonce@)
}

fn hello_bytes(h: &Hello) -> (b: Vec<u8>)
    ensures
        b@ == hello_bytes_of(*h),
{
    postcard_hello(h.device_id, &h.pubkey_ed25519, &h.features, &h.build.version, &h.build.git_hash, h.time_unix_ms, &h.nonce)
}

fn ack_bytes(a: &HelloAck) -> (b: Vec<u8>)
    ensures
        b@ == ack_bytes_of(*a),
{
    postcard_ack(a.accepted, &a.reason, &a.features, a.peer_device, &a.peer_pubkey, &a.nonce)
}

/// Creates a signed Hello with a fresh random nonce.
pub fn make_hello(identity: &Identity, device_id: u128, features: Vec<String>, build: BuildInfo, now_ms: u64) -> (h: Hello)
    ensures
        h.device_id == device_id,
        h.pubkey_ed25519@ == ed25519_public_of(identity.signing_view()),
        h.features == features,
        h.build == build,
        h.time_unix_ms == now_ms,
        h.sig@ == ed25519_sig_of(identity.signing_view(), hello_bytes_of(h)),
{
    let nonce = random_32();
    let mut h = Hello {
        device_id,
        pubkey_ed25519: identity.pubkey_bytes(),
        features,
        build,
        time_unix_ms: now_ms,
        nonce,
        sig: Vec::new(),
    };
    let bytes = hello_bytes(&h);
    h.sig = sign(identity, bytes.as_slice());
    h
}

/// Why a handshake message was refused.
#[derive(Debug, Clone, PartialEq, Eq)]
pub enum HandshakeError {
    /// The signature is malformed or does not verify.
    BadSignature(SignatureError),
    /// The acknowledgement answers a different Hello.
    WrongNonce,
    /// The peer refused the handshake, with its reason.
    Refused(Option<String>),
}

/// Verifies a received Hello and says who sent it.
///
/// A Hello signed by the key it names verifies.
pub fn verify_hello(h: &Hello) -> (r: Result<PeerHello, HandshakeError>)
    ensures
        match r {
            Ok(p) => p.device_id == h.device_id && p.pubkey == h.pubkey_ed25519 && p.features@ == h.features@
                && h.sig@.len() == 64 && ed25519_accepts_of(h.pubkey_ed25519@, hello_bytes_of(*h), h.sig@),
            Err(e) => verify_spec(h.pubkey_ed25519@, hello_bytes_of(*h), h.sig@) matches Err(se) && e
                == HandshakeError::BadSignature(se),
        },
        forall|seed: Seq<u8>|
            seed.len() == 32 && h.sig@.len() == 64 && h.pubkey_ed25519@ == ed25519_public_of(seed) && h.sig@
                == ed25519_sig_of(seed, hello_bytes_of(*h)) ==> r is Ok,
{
    let bytes = hello_bytes(h);
    match verify(&h.pubkey_ed25519, bytes.as_slice(), h.sig.as_slice()) {
        Err(e) => Err(HandshakeError::BadSignature(e)),
        Ok(()) => Ok(PeerHello { device_id: h.device_id, pubkey: h.pubkey_ed25519, features: copy_strings(&h.features) }),
    }
}

fn copy_strings(v: &Vec<String>) -> (r: Vec<String>)
    ensures
        r@ == v@,
{
    let mut r: Vec<String> = Vec::new();
    let mut i: usize = 0;
    while i < v.len()
        invariant
            i <= v@.len(),
            r@ == v@.subrange(0, i as int),
        decreases v@.len() - i,
    {
        r.push(v[i].clone());
        i = i + 1;
        assert(r@ =~= v@.subrange(0, i as int));
    }
    assert(v@.subrange(0, i as int) =~= v@);
    r
}

/// Builds a signed HelloAck answering the Hello that carried `nonce`.
pub fn make_hello_ack(
    identity: &Identity,
    device_id: u128,
    accepted: bool,
    reason: Option<String>,
    features: Vec<String>,
    nonce: [u8; 32],
) -> (a: HelloAck)
    ensures
        a.accepted == accepted,
        a.reason == reason,
        a.features == features,
        a.peer_device == device_id,
        a.peer_pubkey@ == ed25519_public_of(identity.signing_view()),
        a.nonce == nonce,
        a.sig@ == ed25519_sig_of(identity.signing_view(), ack_bytes_of(a)),
{
    let mut a = HelloAck {
        accepted,
        reason,
        features,
        peer_device: device_id,
        peer_pubkey: identity.pubkey_bytes(),
        nonce,
        sig: Vec::new(),
    };
    let bytes = ack_bytes(&a);
    a.sig = sign(identity, bytes.as_slice());
    a
}

/// Verifies a HelloAck and confirms it answers the nonce we sent.
///
/// An acknowledgement for another nonce is refused before its signature is looked at;
/// a genuine one for ours verifies; a refusal reports the peer's reason.
pub fn verify_hello_ack(a: &HelloAck, expected_nonce: &[u8; 32]) -> (r: Result<PeerHello, HandshakeError>)
    ensures
        a.nonce@ != expected_nonce@ ==> r == Err::<PeerHello, HandshakeError>(HandshakeError::WrongNonce),
        r matches Ok(p) ==> a.nonce@ == expected_nonce@ && a.accepted && p.device_id == a.peer_device && p.pubkey
            == a.peer_pubkey && p.features@ == a.features@ && a.sig@.len() == 64 && ed25519_accepts_of(
            a.peer_pubkey@,
            ack_bytes_of(*a),
            a.sig@,
        ),
        r matches Err(HandshakeError::Refused(reason)) ==> !a.accepted && reason == a.reason,
        a.nonce@ == expected_nonce@ ==> match verify_spec(a.peer_pubkey@, ack_bytes_of(*a), a.sig@) {
            Err(se) => r == Err::<PeerHello, HandshakeError>(HandshakeError::BadSignature(se)),
            Ok(_) => if a.accepted {
                r is Ok
            } else {
                r == Err::<PeerHello, HandshakeError>(HandshakeError::Refused(a.reason))
            },
        },
        forall|seed: Seq<u8>|
            seed.len() == 32 && a.nonce@ == expected_nonce@ && a.sig@.len() == 64 && a.peer_pubkey@ == ed25519_public_of(
                seed,
            ) && a.sig@ == ed25519_sig_of(seed, ack_bytes_of(*a)) ==> (r is Ok <==> a.accepted),
{
    if !crate::digest::hash_eq(&a.nonce, expected_nonce) {
        return Err(HandshakeError::WrongNonce);
    }
    let bytes = ack_bytes(a);
    match verify(&a.peer_pubkey, bytes.as_slice(), a.sig.as_slice()) {
        Err(e) => {
            return Err(HandshakeError::BadSignature(e));
        },
        Ok(()) => {},
    }
    if !a.accepted {
        let reason = match &a.reason {
            Some(s) => Some(s.clone()),
            None => None,
        };
        return Err(HandshakeError::Refused(reason));
    }
    Ok(PeerHello { device_id: a.peer_device, pubkey: a.peer_pubkey, features: copy_strings(&a.features) })
}

/// The nonce a Hello carries, so a responder can echo it under its own signature.
pub fn hello_nonce(h: &Hello) -> (n: [u8; 32])
    ensures
        n == h.nonce,
{
    h.nonce
}

} // verus!
