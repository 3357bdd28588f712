use chacha20poly1305::aead::{Aead, KeyInit};
use chacha20poly1305::{XChaCha20Poly1305, XNonce};
use nexusfs::envelope::{open, public_from_secret, recipients_digest, seal, EnvelopeError};
use nexusfs::handshake::{
    hello_nonce, make_hello, make_hello_ack, verify_hello, verify_hello_ack, BuildInfo, HandshakeError,
};
use nexusfs::identity::{decode_key, encode_key, sign, verify, Identity, KeyDecodeError, SignatureError};
use nexusfs::repo::{CipherError, RepoCipher};
use nexusfs::share::seal_to_all;

#[test]
fn signing_and_sealing_keys_are_independent() {
    // Knowing one public key says nothing about the other, and neither equals the other
    // by accident.
    let id = Identity::generate();
    assert_ne!(id.pubkey_bytes(), id.sealing_pubkey());
    assert_ne!(id.signing_seed(), id.sealing_secret());
}

#[test]
fn a_seed_produces_the_same_identity_every_time() {
    let a = Identity::from_seed([9u8; 32]);
    let b = Identity::from_seed([9u8; 32]);
    assert_eq!(a.pubkey_bytes(), b.pubkey_bytes());
    assert_eq!(a.sealing_pubkey(), b.sealing_pubkey());

    let other = Identity::from_seed([10u8; 32]);
    assert_ne!(a.sealing_pubkey(), other.sealing_pubkey());
}

#[test]
fn a_sealed_key_opens_for_its_recipient_and_nobody_else() {
    let alice = Identity::generate();
    let mallory = Identity::generate();
    let file_key = [7u8; 32];

    let env = seal(alice.sealing_pubkey(), &file_key).unwrap();
    assert_eq!(open(alice.sealing_secret(), &env).unwrap(), file_key.to_vec());
    assert!(open(mallory.sealing_secret(), &env).is_err());
}

#[test]
fn a_tampered_envelope_is_unauthentic() {
    let alice = Identity::from_seed([1u8; 32]);
    let mut env = seal(alice.sealing_pubkey(), &[5u8; 32]).unwrap();
    assert_eq!(env.ciphertext.len(), 32 + 16);
    env.ciphertext[3] ^= 0x80;
    assert_eq!(open(alice.sealing_secret(), &env), Err(EnvelopeError::Unauthentic));
}

#[test]
fn the_sealing_public_key_is_the_x25519_image_of_the_secret() {
    let id = Identity::from_seed([2u8; 32]);
    assert_eq!(public_from_secret(id.sealing_secret()), id.sealing_pubkey());
    assert_ne!(public_from_secret([0u8; 32]), public_from_secret([1u8; 32]));
}

#[test]
fn a_seed_fixes_the_ed25519_public_key() {
    // RFC 8032, test 1.
    let seed: [u8; 32] = [
        0x9d, 0x61, 0xb1, 0x9d, 0xef, 0xfd, 0x5a, 0x60, 0xba, 0x84, 0x4a, 0xf4, 0x92, 0xec, 0x2c, 0xc4, 0x44, 0x49,
        0xc5, 0x69, 0x7b, 0x32, 0x69, 0x19, 0x70, 0x3b, 0xac, 0x03, 0x1c, 0xae, 0x7f, 0x60,
    ];
    let expected: [u8; 32] = [
        0xd7, 0x5a, 0x98, 0x01, 0x82, 0xb1, 0x0a, 0xb7, 0xd5, 0x4b, 0xfe, 0xd3, 0xc9, 0x64, 0x07, 0x3a, 0x0e, 0xe1,
        0x72, 0xf3, 0xda, 0xa6, 0x23, 0x25, 0xaf, 0x02, 0x1a, 0x68, 0xf7, 0x07, 0x51, 0x1a,
    ];
    let id = Identity::from_seed(seed);
    assert_eq!(id.pubkey_bytes(), expected);
    assert_eq!(id.signing_seed(), seed);
    let sig = sign(&id, b"");
    assert_eq!(sig.len(), 64);
    assert_eq!(sig[0], 0xe5);
    assert_eq!(sig[63], 0x0b);
}

#[test]
fn signatures_verify_only_for_their_message_and_key() {
    let id = Identity::from_seed([3u8; 32]);
    let other = Identity::from_seed([4u8; 32]);
    let sig = sign(&id, b"message");
    assert_eq!(verify(&id.pubkey_bytes(), b"message", &sig), Ok(()));
    assert_eq!(verify(&id.pubkey_bytes(), b"massage", &sig), Err(SignatureError::Rejected));
    assert_eq!(verify(&other.pubkey_bytes(), b"message", &sig), Err(SignatureError::Rejected));
    assert_eq!(verify(&id.pubkey_bytes(), b"message", &sig[..63]), Err(SignatureError::InvalidLength));
}

#[test]
fn identities_from_parts_keep_both_keys() {
    let a = Identity::from_seed([6u8; 32]);
    let b = Identity::from_parts(a.signing_seed(), a.sealing_secret());
    assert_eq!(a.pubkey_bytes(), b.pubkey_bytes());
    assert_eq!(a.sealing_pubkey(), b.sealing_pubkey());
    assert_eq!(Identity::derive_sealing_seed(&[6u8; 32]), a.sealing_secret());
}

#[test]
fn key_text_round_trips_and_bad_text_is_refused() {
    let key = [0xabu8; 32];
    let text = encode_key(&key);
    assert_eq!(text.len(), 44);
    assert_eq!(decode_key(&text), Ok(key));
    assert_eq!(decode_key(&format!("  {}\n", text)), Ok(key));
    assert_eq!(decode_key("not base64!"), Err(KeyDecodeError::NotBase64));
    assert_eq!(decode_key("AAAA"), Err(KeyDecodeError::WrongLength));
    assert_eq!(encode_key(&[0u8; 32]), format!("{}=", "A".repeat(43)));
}

#[test]
fn repository_cipher_round_trips_chunks_and_file_keys() {
    let file_key = [8u8; 32];
    let ct = RepoCipher::seal_chunk(&file_key, 3, b"payload").unwrap();
    assert_eq!(ct.len(), 7 + 16);
    assert_eq!(RepoCipher::open_chunk(&file_key, 3, &ct).unwrap(), b"payload".to_vec());
    // The chunk index is bound into the nonce.
    assert_eq!(RepoCipher::open_chunk(&file_key, 4, &ct), Err(CipherError::Unauthentic));
    assert_ne!(RepoCipher::chunk_nonce(&file_key, 3), RepoCipher::chunk_nonce(&file_key, 4));
    assert_eq!(RepoCipher::chunk_nonce(&file_key, 3), RepoCipher::chunk_nonce(&file_key, 3));

    let repo = RepoCipher::new([1u8; 32]);
    let sealed = repo.seal_file_key(&file_key).unwrap();
    assert_eq!(sealed.len(), 24 + 32 + 16);
    assert_eq!(repo.open_file_key(&sealed), Ok(file_key));
    let stranger = RepoCipher::new([2u8; 32]);
    assert_eq!(stranger.open_file_key(&sealed), Err(CipherError::Unauthentic));
    assert_eq!(repo.open_file_key(&sealed[..10]), Err(CipherError::Truncated));
    assert_ne!(RepoCipher::new_file_key(), RepoCipher::new_file_key());
}

#[test]
fn a_file_key_of_the_wrong_length_is_refused() {
    // A sealed value that authenticates under the repository key but holds 16 bytes.
    let cipher = XChaCha20Poly1305::new(&[1u8; 32].into());
    let nonce = [5u8; 24];
    let ct = cipher.encrypt(XNonce::from_slice(&nonce), &[8u8; 16][..]).unwrap();
    let mut sealed = nonce.to_vec();
    sealed.extend_from_slice(&ct);
    let repo = RepoCipher::new([1u8; 32]);
    assert_eq!(repo.open_file_key(&sealed), Err(CipherError::WrongKeyLength));

    // The same construction with 32 bytes is an ordinary sealed key.
    let ct = cipher.encrypt(XNonce::from_slice(&nonce), &[8u8; 32][..]).unwrap();
    let mut sealed = nonce.to_vec();
    sealed.extend_from_slice(&ct);
    assert_eq!(repo.open_file_key(&sealed), Ok([8u8; 32]));
}

#[test]
fn the_recipient_digest_ignores_order_and_repeats() {
    let k = [1u8; 32];
    let a = [10u8; 32];
    let b = [20u8; 32];
    let d1 = recipients_digest(&k, &[a, b]);
    let d2 = recipients_digest(&k, &[b, a]);
    let d3 = recipients_digest(&k, &[b, a, b]);
    assert_eq!(d1, d2);
    assert_eq!(d1, d3);
    assert_ne!(d1, recipients_digest(&k, &[a]));
    assert_ne!(d1, recipients_digest(&[2u8; 32], &[a, b]));
}

#[test]
fn a_file_key_is_sealed_to_every_recipient() {
    let a = Identity::from_seed([11u8; 32]);
    let b = Identity::from_seed([12u8; 32]);
    let envs = seal_to_all(&vec![a.sealing_pubkey(), b.sealing_pubkey()], &[9u8; 32]).unwrap();
    assert_eq!(envs.len(), 2);
    assert_eq!(open(a.sealing_secret(), &envs[0]).unwrap(), vec![9u8; 32]);
    assert_eq!(open(b.sealing_secret(), &envs[1]).unwrap(), vec![9u8; 32]);
    assert!(open(a.sealing_secret(), &envs[1]).is_err());
}

fn build() -> BuildInfo {
    BuildInfo { version: "0.1.0".to_string(), git_hash: None }
}

#[test]
fn a_hello_verifies_and_a_tampered_one_does_not() {
    let id = Identity::from_seed([21u8; 32]);
    let h = make_hello(&id, 77, vec!["ops".to_string()], build(), 1_000);
    let peer = verify_hello(&h).unwrap();
    assert_eq!(peer.device_id, 77);
    assert_eq!(peer.pubkey, id.pubkey_bytes());
    assert_eq!(peer.features, vec!["ops".to_string()]);

    let mut forged = h.clone();
    forged.device_id = 78;
    assert_eq!(verify_hello(&forged).unwrap_err(), HandshakeError::BadSignature(SignatureError::Rejected));
    let mut short = h.clone();
    short.sig.pop();
    assert_eq!(verify_hello(&short).unwrap_err(), HandshakeError::BadSignature(SignatureError::InvalidLength));
}

#[test]
fn an_ack_must_answer_our_nonce() {
    let client = Identity::from_seed([22u8; 32]);
    let server = Identity::from_seed([23u8; 32]);
    let h = make_hello(&client, 1, vec![], build(), 5);
    let nonce = hello_nonce(&h);
    assert_eq!(nonce, h.nonce);

    let ack = make_hello_ack(&server, 2, true, None, vec!["blobs".to_string()], nonce);
    let peer = verify_hello_ack(&ack, &nonce).unwrap();
    assert_eq!(peer.device_id, 2);
    assert_eq!(peer.pubkey, server.pubkey_bytes());

    let mut other = nonce;
    other[0] ^= 1;
    assert_eq!(verify_hello_ack(&ack, &other).unwrap_err(), HandshakeError::WrongNonce);

    let refused = make_hello_ack(&server, 2, false, Some("not enrolled".to_string()), vec![], nonce);
    assert_eq!(
        verify_hello_ack(&refused, &nonce).unwrap_err(),
        HandshakeError::Refused(Some("not enrolled".to_string()))
    );
}

#[test]
fn two_hellos_carry_different_nonces() {
    let id = Identity::from_seed([24u8; 32]);
    let a = make_hello(&id, 1, vec![], build(), 5);
    let b = make_hello(&id, 1, vec![], build(), 5);
    assert_ne!(a.nonce, b.nonce);
}

use nexusfs::keyfile::{decode_repo_key, encode_repo_key, RepoKeyError};

#[test]
fn a_repository_key_round_trips_through_its_file_text() {
    let mut key = [0u8; 32];
    for (i, b) in key.iter_mut().enumerate() {
        *b = (i * 37 % 256) as u8;
    }
    let text = encode_repo_key(&key);
    assert_eq!(text.len(), 64);
    assert!(text.starts_with("00254a6f"));
    assert_eq!(decode_repo_key(&text), Ok(key));
    assert_eq!(decode_repo_key(&format!("{}\n", text.to_uppercase())), Ok(key));
    assert_eq!(decode_repo_key("abc"), Err(RepoKeyError::NotHex));
    assert_eq!(decode_repo_key("zz"), Err(RepoKeyError::NotHex));
    assert_eq!(decode_repo_key("abcd"), Err(RepoKeyError::WrongLength));
    assert_eq!(decode_repo_key(""), Err(RepoKeyError::WrongLength));
}

#[test]
fn an_identity_written_before_sealing_gains_a_derived_key() {
    let seed = [13u8; 32];
    let (old, needs_write) = Identity::from_stored(seed, None);
    assert!(needs_write);
    assert_eq!(old.sealing_secret(), Identity::from_seed(seed).sealing_secret());
    let (again, needs_write) = Identity::from_stored(seed, Some(old.sealing_secret()));
    assert!(!needs_write);
    assert_eq!(again.pubkey_bytes(), old.pubkey_bytes());
    assert_eq!(again.sealing_pubkey(), old.sealing_pubkey());
}

fn unhex(s: &str) -> Vec<u8> {
    (0..s.len()).step_by(2).map(|i| u8::from_str_radix(&s[i..i + 2], 16).unwrap()).collect()
}

#[test]
fn the_sealing_public_key_matches_the_x25519_test_vector() {
    // RFC 7748, section 6.1: Alice's key pair.
    let secret: [u8; 32] = unhex("77076d0a7318a57d3c16c17251b26645df4c2f87ebc0992ab177fba51db92c2a").try_into().unwrap();
    let public = unhex("8520f0098930a754748b7ddcb43ef75a0dbf3a0d26381af4eba4a98eaa9b4e6a");
    assert_eq!(public_from_secret(secret).to_vec(), public);
    let id = Identity::from_parts([0u8; 32], secret);
    assert_eq!(id.sealing_pubkey().to_vec(), public);
}

#[test]
fn derived_keys_and_nonces_are_domain_separated_keyed_hashes() {
    let seed = [17u8; 32];
    let expected: [u8; 32] = blake3::keyed_hash(&seed, b"nexusfs/seal-key/v1").into();
    assert_eq!(Identity::derive_sealing_seed(&seed), expected);
    assert_ne!(Identity::derive_sealing_seed(&seed), seed);

    let file_key = [5u8; 32];
    let mut input = b"nexusfs/chunk-nonce/v1".to_vec();
    input.extend_from_slice(&7u64.to_le_bytes());
    let full: [u8; 32] = blake3::keyed_hash(&file_key, &input).into();
    assert_eq!(RepoCipher::chunk_nonce(&file_key, 7).to_vec(), full[..24].to_vec());
}

#[test]
fn the_handshake_signs_the_compact_wire_encoding_of_its_fields() {
    let id = Identity::from_seed([31u8; 32]);
    let features = vec!["ops".to_string(), "blobs".to_string()];
    let build = BuildInfo { version: "0.4.1".to_string(), git_hash: Some("abc123".to_string()) };
    let h = make_hello(&id, 0x1234_5678_9abc, features.clone(), build.clone(), 1_700_000_000_000);
    let encoded = postcard::to_allocvec(&(
        0x1234_5678_9abcu128,
        id.pubkey_bytes(),
        features.clone(),
        (build.version.clone(), build.git_hash.clone()),
        1_700_000_000_000u64,
        h.nonce,
    ))
    .unwrap();
    assert_eq!(verify(&id.pubkey_bytes(), &encoded, &h.sig), Ok(()));

    let ack = make_hello_ack(&id, 77, false, Some("busy".to_string()), features.clone(), [9u8; 32]);
    let encoded = postcard::to_allocvec(&(false, Some("busy".to_string()), features, 77u128, id.pubkey_bytes(), [9u8; 32])).unwrap();
    assert_eq!(verify(&id.pubkey_bytes(), &encoded, &ack.sig), Ok(()));
}
