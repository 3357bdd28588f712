//! At-rest encryption for chunk content.
//!
//! Chunks are named by the hash of the bytes actually stored, the ciphertext, so a peer
//! that cannot decrypt can still verify a transfer. Each write mints a fresh file key,
//! which encrypts that file's chunks; the file key is sealed with the repository key and
//! stored with the file. A fresh file key per write is what makes deriving chunk nonces
//! from `(file key, chunk index)` safe.

use vstd::prelude::*;
use crate::primitives::{
    blake3_keyed, blake3_keyed_of, xchacha_seal, xchacha_seal_of, xchacha_open, xchacha_open_of,
    aead_limit, random_32, random_nonce,
};

verus! {

/// `nexusfs/chunk-nonce/v1`
pub open spec fn nonce_domain() -> Seq<u8> {
    seq![110u8, 101, 120, 117, 115, 102, 115, 47, 99, 104, 117, 110, 107, 45, 110, 111, 110, 99, 101, 47, 118, 49]
}

/// The low `n` bytes of `x`, least significant first.
pub open spec fn le_bytes(x: nat, n: nat) -> Seq<u8>
    decreases n,
{
    if n == 0 {
        Seq::empty()
    } else {
        seq![(x % 256) as u8] + le_bytes(x / 256, (n - 1) as nat)
    }
}

/// Appends the low `n` bytes of `x`, least significant first.
fn push_le(out: &mut Vec<u8>, x: u64, n: usize)
    ensures
        final(out)@ == old(out)@ + le_bytes(x as nat, n as nat),
    decreases n,
{
    if n > 0 {
        out.push((x % 256) as u8);
        push_le(out, x / 256, n - 1);
        assert(final(out)@ =~= old(out)@ + le_bytes(x as nat, n as nat));
    }
}

/// The nonce for chunk `index` of a file under `file_key`: the first 24 bytes of the
/// keyed hash of the domain and the index in 8 little-endian bytes.
pub open spec fn chunk_nonce_spec(file_key: Seq<u8>, index: u64) -> Seq<u8> {
    blake3_keyed_of(file_key, nonce_domain() + le_bytes(index as nat, 8)).subrange(0, 24)
}

/// Why encryption or decryption failed.
#[derive(Debug, Clone, Copy, PartialEq, Eq, Structural)]
pub enum CipherError {
    /// The cipher refused to encrypt (the plaintext is past its size limit).
    EncryptFailed,
    /// Authentication failed: wrong key or tampered data.
    Unauthentic,
    /// A sealed file key is shorter than its nonce.
    Truncated,
    /// An unsealed file key is not 32 bytes.
    WrongKeyLength,
}

/// Encrypts chunk content under a repository key.
#[derive(Clone)]
pub struct RepoCipher {
    key: [u8; 32],
}

/// The bytes of a sealed file key: the 24-byte nonce, then the ciphertext.
pub open spec fn sealed_file_key_of(repo_key: Seq<u8>, nonce: Seq<u8>, file_key: Seq<u8>) -> Seq<u8> {
    nonce + xchacha_seal_of(repo_key, nonce, Seq::empty(), file_key)
}

impl RepoCipher {
    /// The repository key.
    pub closed spec fn key_view(&self) -> Seq<u8> {
        self.key@
    }

    pub fn new(key: [u8; 32]) -> (c: Self)
        ensures
            c.key_view() == key@,
    {
        RepoCipher { key }
    }

    /// A fresh random key for one file's content.
    pub fn new_file_key() -> (k: [u8; 32]) {
        random_32()
    }

    /// The deterministic nonce for one chunk.
    pub fn chunk_nonce(file_key: &[u8; 32], index: u64) -> (n: [u8; 24])
        ensures
            n@ == chunk_nonce_spec(file_key@, index),
    {
        let mut data: Vec<u8> = vec![110u8, 101, 120, 117, 115, 102, 115, 47, 99, 104, 117, 110, 107, 45, 110, 111, 110, 99, 101, 47, 118, 49];
        assert(data@ =~= nonce_domain());
        push_le(&mut data, index, 8);
        let h = blake3_keyed(file_key, data.as_slice());
        let mut n: [u8; 24] = [0u8; 24];
        let mut i: usize = 0;
        while i < 24
            invariant
                i <= 24,
                h@.len() == 32,
                n@.len() == 24,
                forall|j: int| 0 <= j < i ==> n@[j] == h@[j],
            decreases 24 - i,
        {
            n.set(i, h[i]);
            i = i + 1;
        }
        assert(n@ =~= h@.subrange(0, 24));
        n
    }

    /// Encrypts one chunk of a file.
    pub fn seal_chunk(file_key: &[u8; 32], index: u64, plaintext: &[u8]) -> (r: Result<Vec<u8>, CipherError>)
        ensures
            r matches Ok(c) ==> c@ == xchacha_seal_of(file_key@, chunk_nonce_spec(file_key@, index), Seq::empty(), plaintext@),
            r matches Ok(c) ==> c@.len() == plaintext@.len() + 16,
            r is Err ==> r == Err::<Vec<u8>, CipherError>(CipherError::EncryptFailed),
            plaintext@.len() < aead_limit() ==> r is Ok,
    {
        let nonce = Self::chunk_nonce(file_key, index);
        let empty: [u8; 0] = [];
        assert(empty@ =~= Seq::<u8>::empty());
        match xchacha_seal(file_key, &nonce, &empty, plaintext) {
            Some(c) => Ok(c),
            None => Err(CipherError::EncryptFailed),
        }
    }

    /// Decrypts one chunk of a file. A chunk sealed under the same key and index opens
    /// to its plaintext.
    pub fn open_chunk(file_key: &[u8; 32], index: u64, ciphertext: &[u8]) -> (r: Result<Vec<u8>, CipherError>)
        ensures
            match r {
                Ok(p) => xchacha_open_of(file_key@, chunk_nonce_spec(file_key@, index), Seq::empty(), ciphertext@) == Some(p@),
                Err(e) => e == CipherError::Unauthentic && xchacha_open_of(
                    file_key@,
                    chunk_nonce_spec(file_key@, index),
                    Seq::empty(),
                    ciphertext@,
                ) is None,
            },
            forall|m: Seq<u8>|
                m.len() < aead_limit() && ciphertext@ == xchacha_seal_of(file_key@, chunk_nonce_spec(file_key@, index), Seq::empty(), m)
                    ==> (r matches Ok(p) && p@ == m),
    {
        let nonce = Self::chunk_nonce(file_key, index);
        let empty: [u8; 0] = [];
        assert(empty@ =~= Seq::<u8>::empty());
        match xchacha_open(file_key, &nonce, &empty, ciphertext) {
            Some(p) => Ok(p),
            None => Err(CipherError::Unauthentic),
        }
    }

    /// Seals a file key so it can be stored inside the file's own metadata: a fresh
    /// random nonce followed by the ciphertext.
    pub fn seal_file_key(&self, file_key: &[u8; 32]) -> (r: Result<Vec<u8>, CipherError>)
        ensures
            r matches Ok(s) ==> s@.len() >= 24 && s@ == sealed_file_key_of(self.key_view(), s@.subrange(0, 24), file_key@),
            r is Ok,
    {
        let nonce = random_nonce();
        let empty: [u8; 0] = [];
        assert(empty@ =~= Seq::<u8>::empty());
        match xchacha_seal(&self.key, &nonce, &empty, file_key) {
            Some(c) => {
                let mut out: Vec<u8> = Vec::new();
                let mut i: usize = 0;
                while i < 24
                    invariant
                        i <= 24,
                        nonce@.len() == 24,
                        out@ == nonce@.subrange(0, i as int),
                    decreases 24 - i,
                {
                    out.push(nonce[i]);
                    i = i + 1;
                    assert(out@ =~= nonce@.subrange(0, i as int));
                }
                let mut j: usize = 0;
                while j < c.len()
                    invariant
                        j <= c@.len(),
                        nonce@.len() == 24,
                        out@ == nonce@ + c@.subrange(0, j as int),
                    decreases c@.len() - j,
                {
                    out.push(c[j]);
                    j = j + 1;
                    assert(out@ =~= nonce@ + c@.subrange(0, j as int));
                }
                assert(c@.subrange(0, j as int) =~= c@);
                assert(out@.subrange(0, 24) =~= nonce@);
                Ok(out)
            },
            None => {
                assert(file_key@.len() == 32);
                Err(CipherError::EncryptFailed)
            },
        }
    }

    /// Recovers a file key sealed by [`RepoCipher::seal_file_key`].
    pub fn open_file_key(&self, sealed: &[u8]) -> (r: Result<[u8; 32], CipherError>)
        ensures
            sealed@.len() < 24 ==> r == Err::<[u8; 32], CipherError>(CipherError::Truncated),
            sealed@.len() >= 24 ==> match xchacha_open_of(self.key_view(), sealed@.subrange(0, 24), Seq::empty(), sealed@.subrange(24, sealed@.len() as int)) {
                None => r == Err::<[u8; 32], CipherError>(CipherError::Unauthentic),
                Some(p) => if p.len() == 32 {
                    r matches Ok(k) && k@ == p
                } else {
                    r == Err::<[u8; 32], CipherError>(CipherError::WrongKeyLength)
                },
            },
            forall|n: Seq<u8>, k: Seq<u8>| k.len() == 32 && n.len() == 24 && sealed@ == sealed_file_key_of(self.key_view(), n, k)
                ==> (r matches Ok(x) && x@ == k),
    {
        if sealed.len() < 24 {
            return Err(CipherError::Truncated);
        }
        let mut nonce: [u8; 24] = [0u8; 24];
        let mut i: usize = 0;
        while i < 24
            invariant
                i <= 24,
                sealed@.len() >= 24,
                nonce@.len() == 24,
                forall|j: int| 0 <= j < i ==> nonce@[j] == sealed@[j],
            decreases 24 - i,
        {
            nonce.set(i, sealed[i]);
            i = i + 1;
        }
        assert(nonce@ =~= sealed@.subrange(0, 24));
        let mut ct: Vec<u8> = Vec::new();
        let mut j: usize = 24;
        while j < sealed.len()
            invariant
                24 <= j <= sealed@.len(),
                ct@ == sealed@.subrange(24, j as int),
            decreases sealed@.len() - j,
        {
            ct.push(sealed[j]);
            j = j + 1;
            assert(ct@ =~= sealed@.subrange(24, j as int));
        }
        let empty: [u8; 0] = [];
        assert(empty@ =~= Seq::<u8>::empty());
        proof {
            assert forall|n: Seq<u8>, k: Seq<u8>| k.len() == 32 && n.len() == 24 && sealed@ == sealed_file_key_of(self.key_view(), n, k)
                implies ct@ == xchacha_seal_of(self.key_view(), nonce@, Seq::empty(), k) && k.len() < aead_limit() by {
                assert(sealed@.subrange(0, 24) =~= n);
                assert(sealed@.subrange(24, sealed@.len() as int) =~= xchacha_seal_of(self.key_view(), n, Seq::empty(), k));
            }
        }
        let plain = match xchacha_open(&self.key, &nonce, &empty, ct.as_slice()) {
            None => {
                return Err(CipherError::Unauthentic);
            },
            Some(p) => p,
        };
        if plain.len() != 32 {
            return Err(CipherError::WrongKeyLength);
        }
        let mut k: [u8; 32] = [0u8; 32];
        let mut m: usize = 0;
        while m < 32
            invariant
                m <= 32,
                plain@.len() == 32,
                k@.len() == 32,
                forall|q: int| 0 <= q < m ==> k@[q] == plain@[q],
            decreases 32 - m,
        {
            k.set(m, plain[m]);
            m = m + 1;
        }
        assert(k@ =~= plain@);
        Ok(k)
    }
}

} // verus!
