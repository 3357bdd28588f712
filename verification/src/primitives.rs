//! The cryptographic primitives the library calls: keyed BLAKE3, Ed25519, X25519,
//! XChaCha20-Poly1305 and the operating system's random source.
//!
//! Each function here makes one call into its crate. What the contracts claim is
//! named, not proved: a result is the named function of the arguments, and beyond that
//! only the defining property each primitive's documentation gives (a genuine signature
//! verifies, both sides of a Diffie-Hellman agreement compute the same secret, a
//! ciphertext opens to what was sealed).

use vstd::prelude::*;
use chacha20poly1305::KeyInit;
use chacha20poly1305::AeadCore;
use chacha20poly1305::aead::Aead;

verus! {

/// The keyed BLAKE3 hash of `data` under a 32-byte `key`.
pub uninterp spec fn blake3_keyed_of(key: Seq<u8>, data: Seq<u8>) -> Seq<u8>;

/// Calls `blake3::keyed_hash`, which the crate documents as equal to feeding the same
/// bytes to a keyed `Hasher` in any number of updates. The result is named only.
#[verifier::external_body]
pub(crate) fn blake3_keyed(key: &[u8; 32], data: &[u8]) -> (h: [u8; 32])
    ensures
        h@ == blake3_keyed_of(key@, data@),
{
    blake3::keyed_hash(key, data).into()
}

/// The Ed25519 public key of a 32-byte secret seed.
pub uninterp spec fn ed25519_public_of(seed: Seq<u8>) -> Seq<u8>;

/// Calls `SigningKey::from_bytes(seed).verifying_key().to_bytes()`. Named only.
#[verifier::external_body]
pub(crate) fn ed25519_public(seed: &[u8; 32]) -> (pk: [u8; 32])
    ensures
        pk@ == ed25519_public_of(seed@),
{
    ed25519_dalek::SigningKey::from_bytes(seed).verifying_key().to_bytes()
}

/// The Ed25519 signature of `msg` under a 32-byte secret seed (signing is deterministic).
pub uninterp spec fn ed25519_sig_of(seed: Seq<u8>, msg: Seq<u8>) -> Seq<u8>;

/// Calls `Signer::sign` on `SigningKey::from_bytes(seed)` and takes the 64 bytes of the
/// signature. Named only.
#[verifier::external_body]
pub(crate) fn ed25519_sign(seed: &[u8; 32], msg: &[u8]) -> (sig: [u8; 64])
    ensures
        sig@ == ed25519_sig_of(seed@, msg@),
{
    ed25519_dalek::Signer::sign(&ed25519_dalek::SigningKey::from_bytes(seed), msg).to_bytes()
}

/// Whether Ed25519 verification accepts `sig` over `msg` under the public key `vk`.
pub uninterp spec fn ed25519_accepts_of(vk: Seq<u8>, msg: Seq<u8>, sig: Seq<u8>) -> bool;

/// Calls `VerifyingKey::from_bytes(vk)` and, when the key decodes, `Verifier::verify`
/// with `Signature::from_bytes(sig)`; a key that does not decode is a refusal. Claims the
/// result is a function of the three inputs, and that a signature made with a seed
/// verifies under that seed's public key (Ed25519's correctness).
#[verifier::external_body]
pub(crate) fn ed25519_verify(vk: &[u8; 32], msg: &[u8], sig: &[u8; 64]) -> (ok: bool)
    ensures
        ok == ed25519_accepts_of(vk@, msg@, sig@),
        forall|seed: Seq<u8>|
            seed.len() == 32 && vk@ == ed25519_public_of(seed) && sig@ == ed25519_sig_of(seed, msg@) ==> ok,
{
    match ed25519_dalek::VerifyingKey::from_bytes(vk) {
        Ok(k) => ed25519_dalek::Verifier::verify(&k, msg, &ed25519_dalek::Signature::from_bytes(sig)).is_ok(),
        Err(_) => false,
    }
}

/// The X25519 public key of a 32-byte secret.
pub uninterp spec fn x25519_public_of(secret: Seq<u8>) -> Seq<u8>;

/// Calls `PublicKey::from(&StaticSecret::from(secret)).to_bytes()`. Named only.
#[verifier::external_body]
pub(crate) fn x25519_public(secret: &[u8; 32]) -> (pk: [u8; 32])
    ensures
        pk@ == x25519_public_of(secret@),
{
    x25519_dalek::PublicKey::from(&x25519_dalek::StaticSecret::from(*secret)).to_bytes()
}

/// The X25519 shared secret of `secret` with the public key `public`.
pub uninterp spec fn x25519_dh_of(secret: Seq<u8>, public: Seq<u8>) -> Seq<u8>;

/// Calls `StaticSecret::from(secret).diffie_hellman(&PublicKey::from(public))`. Claims the
/// result is a function of the two inputs, and Diffie-Hellman agreement: when `public`
/// belongs to a secret `t`, `t` with this secret's public key computes the same bytes.
#[verifier::external_body]
pub(crate) fn x25519_dh(secret: &[u8; 32], public: &[u8; 32]) -> (s: [u8; 32])
    ensures
        s@ == x25519_dh_of(secret@, public@),
        forall|t: Seq<u8>|
            t.len() == 32 && public@ == x25519_public_of(t) ==> s@ == x25519_dh_of(t, x25519_public_of(secret@)),
{
    x25519_dalek::StaticSecret::from(*secret).diffie_hellman(&x25519_dalek::PublicKey::from(*public)).to_bytes()
}

/// Makes a fresh `EphemeralSecret` from the operating system's randomness and agrees a
/// secret with `recipient`; gives the ephemeral public key and the shared secret. The
/// secret itself is never seen. Claims only agreement: the holder of `recipient`'s secret
/// computes the same shared secret from the ephemeral public key.
#[verifier::external_body]
pub(crate) fn x25519_ephemeral_agreement(recipient: &[u8; 32]) -> (r: ([u8; 32], [u8; 32]))
    ensures
        forall|t: Seq<u8>| t.len() == 32 && recipient@ == x25519_public_of(t) ==> r.1@ == x25519_dh_of(t, r.0@),
{
    let eph = x25519_dalek::EphemeralSecret::random_from_rng(rand::rngs::OsRng);
    let eph_pub = x25519_dalek::PublicKey::from(&eph).to_bytes();
    let shared = eph.diffie_hellman(&x25519_dalek::PublicKey::from(*recipient));
    (eph_pub, shared.to_bytes())
}

/// 32 bytes from the operating system's random source (`OsRng::fill_bytes`). Nothing is
/// claimed of them.
#[verifier::external_body]
pub(crate) fn random_32() -> (b: [u8; 32]) {
    let mut b = [0u8; 32];
    rand::RngCore::fill_bytes(&mut rand::rngs::OsRng, &mut b);
    b
}

/// A fresh 24-byte nonce from `XChaCha20Poly1305::generate_nonce(&mut OsRng)`. Nothing is
/// claimed of it.
#[verifier::external_body]
pub(crate) fn random_nonce() -> (n: [u8; 24]) {
    chacha20poly1305::XChaCha20Poly1305::generate_nonce(&mut chacha20poly1305::aead::OsRng).into()
}

/// The XChaCha20-Poly1305 ciphertext (with tag) of `msg` under `key`, `nonce` and `aad`.
pub uninterp spec fn xchacha_seal_of(key: Seq<u8>, nonce: Seq<u8>, aad: Seq<u8>, msg: Seq<u8>) -> Seq<u8>;

/// The largest plaintext the cipher accepts is below this many bytes.
pub open spec fn aead_limit() -> nat {
    274877906880
}

/// Calls `Aead::encrypt` of `XChaCha20Poly1305::new(key)` with `Payload { msg, aad }`.
/// Claims the ciphertext is named by the inputs, that it is the message's length plus
/// the 16-byte tag (the source encrypts in place and appends the tag), and that
/// encryption succeeds below the cipher's block-count limit (the source refuses only at
/// or past it).
#[verifier::external_body]
pub(crate) fn xchacha_seal(key: &[u8; 32], nonce: &[u8; 24], aad: &[u8], msg: &[u8]) -> (r: Option<Vec<u8>>)
    ensures
        r is Some ==> opt_bytes(r) == Some(xchacha_seal_of(key@, nonce@, aad@, msg@)),
        r matches Some(c) ==> c@.len() == msg@.len() + 16,
        msg@.len() < aead_limit() ==> r is Some,
{
    let cipher = chacha20poly1305::XChaCha20Poly1305::new(key.into());
    cipher.encrypt(chacha20poly1305::XNonce::from_slice(nonce), chacha20poly1305::aead::Payload { msg, aad }).ok()
}

/// The bytes an optional buffer holds.
pub open spec fn opt_bytes(r: Option<Vec<u8>>) -> Option<Seq<u8>> {
    match r {
        Some(v) => Some(v@),
        None => None,
    }
}

/// What XChaCha20-Poly1305 decryption of `ct` under `key`, `nonce` and `aad` gives.
pub uninterp spec fn xchacha_open_of(key: Seq<u8>, nonce: Seq<u8>, aad: Seq<u8>, ct: Seq<u8>) -> Option<Seq<u8>>;

/// Calls `Aead::decrypt` of `XChaCha20Poly1305::new(key)` with `Payload { msg: ct, aad }`.
/// Claims the result is named by the inputs, and that a ciphertext sealed under the same
/// key, nonce and additional data opens to what was sealed. Nothing is claimed of other
/// ciphertexts.
#[verifier::external_body]
pub(crate) fn xchacha_open(key: &[u8; 32], nonce: &[u8; 24], aad: &[u8], ct: &[u8]) -> (r: Option<Vec<u8>>)
    ensures
        opt_bytes(r) == xchacha_open_of(key@, nonce@, aad@, ct@),
        forall|m: Seq<u8>|
            m.len() < aead_limit() && ct@ == xchacha_seal_of(key@, nonce@, aad@, m) ==> opt_bytes(r) == Some(m),
{
    let cipher = chacha20poly1305::XChaCha20Poly1305::new(key.into());
    cipher.decrypt(chacha20poly1305::XNonce::from_slice(nonce), chacha20poly1305::aead::Payload { msg: ct, aad }).ok()
}

} // verus!
