use nexusfs::apply::{assemble_file, ChunkRef, ReadError};
use nexusfs::chunker::seal_content;
use nexusfs::digest::hash_bytes;
use nexusfs::repo::RepoCipher;

/// Writes `data` the way an encrypted node does: a fresh file key, the content sealed
/// chunk by chunk, and the file key sealed under the repository key.
fn write_encrypted(cipher: &RepoCipher, data: &[u8], chunk_size: usize) -> (Vec<ChunkRef>, Vec<Vec<u8>>, Vec<u8>) {
    let file_key = RepoCipher::new_file_key();
    let sealed = seal_content(&file_key, data, chunk_size).unwrap();
    let sealed_key = cipher.seal_file_key(&file_key).unwrap();
    let refs = sealed.iter().map(|(r, _)| *r).collect();
    let blobs = sealed.into_iter().map(|(_, b)| b).collect();
    (refs, blobs, sealed_key)
}

/// Reads content back the way an encrypted node does: unseal the file key, then
/// reassemble.
fn read_encrypted(cipher: &RepoCipher, refs: &Vec<ChunkRef>, blobs: &[Vec<u8>], sealed_key: &[u8], size: u64) -> Result<Vec<u8>, String> {
    let file_key = cipher.open_file_key(sealed_key).map_err(|e| format!("{:?}", e))?;
    let stored: Vec<Option<Vec<u8>>> = blobs.iter().cloned().map(Some).collect();
    assemble_file(refs, &stored, Some(file_key), size).map_err(|e| format!("{:?}", e))
}

#[test]
fn encrypted_content_round_trips() {
    let cipher = RepoCipher::new([9u8; 32]);
    let secret = b"the quick brown fox jumps over the lazy dog";
    let (refs, blobs, sealed_key) = write_encrypted(&cipher, secret, 1024 * 1024);
    let back = read_encrypted(&cipher, &refs, &blobs, &sealed_key, secret.len() as u64).unwrap();
    assert_eq!(back, secret);
}

#[test]
fn plaintext_is_not_present_on_disk() {
    let cipher = RepoCipher::new([9u8; 32]);
    let secret = b"SUPERSECRETMARKERVALUE";
    let (_, blobs, _) = write_encrypted(&cipher, secret, 1024 * 1024);
    assert!(!blobs.is_empty());
    for stored in &blobs {
        assert!(
            !stored.windows(secret.len()).any(|w| w == secret),
            "plaintext found in a stored chunk"
        );
    }
}

#[test]
fn chunks_are_addressed_by_ciphertext_so_peers_can_verify() {
    let cipher = RepoCipher::new([9u8; 32]);
    let (refs, blobs, _) = write_encrypted(&cipher, b"content", 1024 * 1024);
    for (chunk, stored) in refs.iter().zip(blobs.iter()) {
        assert_eq!(hash_bytes(stored), chunk.hash, "the chunk hash must name the bytes as stored");
        assert_eq!(stored.len(), chunk.len as usize);
        assert_eq!(stored.len(), chunk.plain_len as usize + 16);
    }
}

#[test]
fn the_wrong_repository_key_cannot_read() {
    let right = RepoCipher::new([1u8; 32]);
    let (refs, blobs, sealed_key) = write_encrypted(&right, b"private", 1024 * 1024);
    assert_eq!(read_encrypted(&right, &refs, &blobs, &sealed_key, 7).unwrap(), b"private");

    let wrong = RepoCipher::new([2u8; 32]);
    assert!(read_encrypted(&wrong, &refs, &blobs, &sealed_key, 7).is_err(), "a different key must not decrypt");

    // And with no key at all: the stored bytes are not the content.
    let stored: Vec<Option<Vec<u8>>> = blobs.iter().cloned().map(Some).collect();
    assert!(assemble_file(&refs, &stored, None, 7).is_err(), "an encrypted file must not be readable without a key");
}

#[test]
fn tampered_ciphertext_fails_authentication() {
    let cipher = RepoCipher::new([3u8; 32]);
    let (refs, mut blobs, sealed_key) = write_encrypted(&cipher, b"authentic", 1024 * 1024);
    blobs[0][0] ^= 0xff;
    let file_key = cipher.open_file_key(&sealed_key).unwrap();
    let stored: Vec<Option<Vec<u8>>> = blobs.iter().cloned().map(Some).collect();
    assert_eq!(
        assemble_file(&refs, &stored, Some(file_key), 9),
        Err(ReadError::Unauthentic { index: 0 }),
        "AEAD must reject altered ciphertext rather than return garbage"
    );
}

#[test]
fn every_write_uses_a_fresh_key() {
    let cipher = RepoCipher::new([4u8; 32]);
    let (_, _, first) = write_encrypted(&cipher, b"first", 1024 * 1024);
    let (refs, blobs, second) = write_encrypted(&cipher, b"second", 1024 * 1024);
    assert_ne!(first, second, "each write must mint a new file key");
    assert_eq!(read_encrypted(&cipher, &refs, &blobs, &second, 6).unwrap(), b"second");
}

#[test]
fn multi_chunk_encrypted_files_reassemble() {
    let cipher = RepoCipher::new([6u8; 32]);
    let payload: Vec<u8> = (0..=255u8).cycle().take(5000).collect();
    let (refs, blobs, sealed_key) = write_encrypted(&cipher, &payload, 64);
    assert_eq!(refs.len(), (5000 + 63) / 64);
    let mut offset = 0u64;
    for r in &refs {
        assert_eq!(r.offset, offset);
        offset += r.plain_len as u64;
    }
    assert_eq!(read_encrypted(&cipher, &refs, &blobs, &sealed_key, payload.len() as u64).unwrap(), payload);
}

#[test]
fn a_missing_chunk_is_reported_by_its_index() {
    let cipher = RepoCipher::new([7u8; 32]);
    let payload: Vec<u8> = (0..200u8).collect();
    let (refs, blobs, sealed_key) = write_encrypted(&cipher, &payload, 64);
    let file_key = cipher.open_file_key(&sealed_key).unwrap();
    let mut stored: Vec<Option<Vec<u8>>> = blobs.into_iter().map(Some).collect();
    stored[2] = None;
    assert_eq!(assemble_file(&refs, &stored, Some(file_key), 200), Err(ReadError::MissingChunk { index: 2 }));
}
