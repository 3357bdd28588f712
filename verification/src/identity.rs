//! This device's long-term key material, and signatures made with it.
//!
//! Two keys for two jobs that must not share one: an Ed25519 signing key, which
//! authorises operations and the session handshake, and an X25519 sealing key, which
//! receives file keys sealed to this device. They are independent secrets; from a single
//! seed the sealing key is derived through a domain-separated keyed hash.

use vstd::prelude::*;
use crate::primitives::{
    blake3_keyed, blake3_keyed_of, ed25519_public, ed25519_public_of, ed25519_sign, ed25519_sig_of,
    ed25519_verify, ed25519_accepts_of, x25519_public, x25519_public_of, random_32,
};
use crate::scan::{chars_of, is_ws, trim_bounds, trim, trim_start};

verus! {

/// `nexusfs/seal-key/v1`
pub open spec fn seal_derive_domain() -> Seq<u8> {
    seq![110u8, 101, 120, 117, 115, 102, 115, 47, 115, 101, 97, 108, 45, 107, 101, 121, 47, 118, 49]
}

/// The sealing secret derived from a seed.
pub open spec fn sealing_seed_of(seed: Seq<u8>) -> Seq<u8> {
    blake3_keyed_of(seed, seal_derive_domain())
}

/// This device's key material: the Ed25519 seed and the X25519 secret.
#[derive(Clone)]
pub struct Identity {
    signing: [u8; 32],
    sealing: [u8; 32],
}

impl Identity {
    /// The Ed25519 secret seed.
    pub closed spec fn signing_view(&self) -> Seq<u8> {
        self.signing@
    }

    /// The X25519 secret.
    pub closed spec fn sealing_view(&self) -> Seq<u8> {
        self.sealing@
    }

    /// A fresh identity from the operating system's randomness.
    pub fn generate() -> (id: Self)
        ensures
            id.signing_view().len() == 32,
            id.sealing_view().len() == 32,
    {
        Identity { signing: random_32(), sealing: random_32() }
    }

    /// An identity from caller-supplied key material. The sealing key is derived from
    /// the same seed through a domain-separated keyed hash, so one seed gives one
    /// identity, every time.
    pub fn from_seed(seed: [u8; 32]) -> (id: Self)
        ensures
            id.signing_view() == seed@,
            id.sealing_view() == sealing_seed_of(seed@),
    {
        let sealing = Self::derive_sealing_seed(&seed);
        Identity { signing: seed, sealing }
    }

    /// An identity from both secrets, as stored.
    pub fn from_parts(signing: [u8; 32], sealing: [u8; 32]) -> (id: Self)
        ensures
            id.signing_view() == signing@,
            id.sealing_view() == sealing@,
    {
        Identity { signing, sealing }
    }

    /// The identity an identity file holds: its seed, and its sealing secret when the
    /// file has one. A file written before sealing existed gets the secret its seed
    /// derives, so the device keeps one identity, and must then be written back.
    pub fn from_stored(seed: [u8; 32], sealing: Option<[u8; 32]>) -> (r: (Self, bool))
        ensures
            r.0.signing_view() == seed@,
            r.0.sealing_view() == (match sealing {
                Some(k) => k@,
                None => sealing_seed_of(seed@),
            }),
            r.1 == sealing is None,
    {
        match sealing {
            Some(k) => (Identity { signing: seed, sealing: k }, false),
            None => (Self::from_seed(seed), true),
        }
    }

    /// The sealing secret a seed derives.
    pub fn derive_sealing_seed(seed: &[u8; 32]) -> (s: [u8; 32])
        ensures
            s@ == sealing_seed_of(seed@),
    {
        let d: [u8; 19] = [110u8, 101, 120, 117, 115, 102, 115, 47, 115, 101, 97, 108, 45, 107, 101, 121, 47, 118, 49];
        assert(d@ =~= seal_derive_domain());
        blake3_keyed(seed, &d)
    }

    /// The Ed25519 secret seed.
    pub fn signing_seed(&self) -> (s: [u8; 32])
        ensures
            s@ == self.signing_view(),
    {
        self.signing
    }

    /// The Ed25519 public key, which peers pin.
    pub fn pubkey_bytes(&self) -> (pk: [u8; 32])
        ensures
            pk@ == ed25519_public_of(self.signing_view()),
    {
        ed25519_public(&self.signing)
    }

    /// The X25519 secret that opens envelopes addressed to this device.
    pub fn sealing_secret(&self) -> (s: [u8; 32])
        ensures
            s@ == self.sealing_view(),
    {
        self.sealing
    }

    /// The X25519 public key to enrol elsewhere, so peers can seal file keys to us.
    pub fn sealing_pubkey(&self) -> (pk: [u8; 32])
        ensures
            pk@ == x25519_public_of(self.sealing_view()),
    {
        x25519_public(&self.sealing)
    }
}

/// Signs `msg` with the identity's signing key.
pub fn sign(id: &Identity, msg: &[u8]) -> (sig: Vec<u8>)
    ensures
        sig@ == ed25519_sig_of(id.signing_view(), msg@),
{
    let s = ed25519_sign(&id.signing_seed(), msg);
    let mut out: Vec<u8> = Vec::new();
    let mut i: usize = 0;
    while i < 64
        invariant
            i <= 64,
            s@.len() == 64,
            out@ == s@.subrange(0, i as int),
        decreases 64 - i,
    {
        out.push(s[i]);
        i = i + 1;
        assert(out@ =~= s@.subrange(0, i as int));
    }
    assert(s@.subrange(0, 64) =~= s@);
    out
}

/// Why a signature was refused.
#[derive(Debug, Clone, Copy, PartialEq, Eq, Structural)]
pub enum SignatureError {
    /// The signature is not 64 bytes.
    InvalidLength,
    /// The key does not decode, or the signature does not verify under it.
    Rejected,
}

/// The verdict on `sig` over `msg` under the public key `vk`.
pub open spec fn verify_spec(vk: Seq<u8>, msg: Seq<u8>, sig: Seq<u8>) -> Result<(), SignatureError> {
    if sig.len() != 64 {
        Err(SignatureError::InvalidLength)
    } else if ed25519_accepts_of(vk, msg, sig) {
        Ok(())
    } else {
        Err(SignatureError::Rejected)
    }
}

/// Verifies `sig` over `msg` under the public key `vk`.
pub fn verify(vk: &[u8; 32], msg: &[u8], sig: &[u8]) -> (r: Result<(), SignatureError>)
    ensures
        r == verify_spec(vk@, msg@, sig@),
        forall|seed: Seq<u8>|
            seed.len() == 32 && sig@.len() == 64 && vk@ == ed25519_public_of(seed) && sig@ == ed25519_sig_of(seed, msg@)
                ==> r is Ok,
{
    if sig.len() != 64 {
        return Err(SignatureError::InvalidLength);
    }
    let mut arr: [u8; 64] = [0u8; 64];
    let mut i: usize = 0;
    while i < 64
        invariant
            i <= 64,
            sig@.len() == 64,
            arr@.len() == 64,
            forall|j: int| 0 <= j < i ==> arr@[j] == sig@[j],
        decreases 64 - i,
    {
        arr.set(i, sig[i]);
        i = i + 1;
    }
    assert(arr@ =~= sig@);
    if ed25519_verify(vk, msg, &arr) {
        Ok(())
    } else {
        Err(SignatureError::Rejected)
    }
}

/// The bytes base64 text decodes to, when it is valid.
pub uninterp spec fn base64_decoded_of(text: Seq<char>) -> Option<Seq<u8>>;

/// Calls `base64::Engine::decode` with the `STANDARD` engine on the text's bytes. The
/// result is named only.
#[verifier::external_body]
fn base64_decode(text: &str) -> (r: Option<Vec<u8>>)
    ensures
        crate::primitives::opt_bytes(r) == base64_decoded_of(text@),
{
    base64::Engine::decode(&base64::engine::general_purpose::STANDARD, text.as_bytes()).ok()
}

/// The base64 text of some bytes.
pub uninterp spec fn base64_encoded_of(bytes: Seq<u8>) -> Seq<char>;

/// Calls `base64::Engine::encode` with the `STANDARD` engine. Claims the text is named
/// by the bytes, is made of the engine's alphabet (`A`-`Z`, `a`-`z`, `0`-`9`, `+`, `/`)
/// and `=` padding, so holds no whitespace, and decodes back to the bytes under the same
/// engine, as the crate's round-trip tests check.
#[verifier::external_body]
fn base64_encode(bytes: &[u8]) -> (s: String)
    ensures
        s@ == base64_encoded_of(bytes@),
        base64_decoded_of(s@) == Some(bytes@),
        forall|i: int| 0 <= i < s@.len() ==> !is_ws(#[trigger] s@[i]),
{
    base64::Engine::encode(&base64::engine::general_purpose::STANDARD, bytes)
}

/// Why stored key material could not be read.
#[derive(Debug, Clone, Copy, PartialEq, Eq, Structural)]
pub enum KeyDecodeError {
    /// The text is not valid base64.
    NotBase64,
    /// The decoded material is not 32 bytes.
    WrongLength,
}

/// What decoding stored key text gives.
pub open spec fn decode_key_spec(encoded: Seq<char>) -> Result<Seq<u8>, KeyDecodeError> {
    match base64_decoded_of(trim(encoded)) {
        None => Err(KeyDecodeError::NotBase64),
        Some(b) => if b.len() == 32 {
            Ok(b)
        } else {
            Err(KeyDecodeError::WrongLength)
        },
    }
}

/// Reads 32 bytes of key material from base64 text, ignoring surrounding whitespace.
pub fn decode_key(encoded: &str) -> (r: Result<[u8; 32], KeyDecodeError>)
    ensures
        match r {
            Ok(k) => decode_key_spec(encoded@) == Ok::<Seq<u8>, KeyDecodeError>(k@),
            Err(e) => decode_key_spec(encoded@) == Err::<Seq<u8>, KeyDecodeError>(e),
        },
{
    let v = chars_of(encoded);
    let (a, b) = trim_bounds(&v, 0, v.len());
    assert(v@.subrange(0, v@.len() as int) =~= encoded@);
    let t = encoded.substring_char(a, b);
    let raw = match base64_decode(t) {
        None => {
            return Err(KeyDecodeError::NotBase64);
        },
        Some(raw) => raw,
    };
    if raw.len() != 32 {
        return Err(KeyDecodeError::WrongLength);
    }
    let mut k: [u8; 32] = [0u8; 32];
    let mut i: usize = 0;
    while i < 32
        invariant
            i <= 32,
            raw@.len() == 32,
            k@.len() == 32,
            forall|j: int| 0 <= j < i ==> k@[j] == raw@[j],
        decreases 32 - i,
    {
        k.set(i, raw[i]);
        i = i + 1;
    }
    assert(k@ =~= raw@);
    Ok(k)
}

/// The base64 text key material is stored as.
pub fn encode_key(key: &[u8; 32]) -> (s: String)
    ensures
        s@ == base64_encoded_of(key@),
        decode_key_spec(s@) == Ok::<Seq<u8>, KeyDecodeError>(key@),
{
    let s = base64_encode(key);
    proof {
        if s@.len() > 0 {
            assert(!is_ws(s@[0]));
            assert(!is_ws(s@[s@.len() - 1]));
        }
        assert(trim_start(s@) == s@);
        assert(trim(s@) == s@);
    }
    s
}

} // verus!
