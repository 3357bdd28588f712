//! Content hashes: BLAKE3 over bytes, and comparing and finding 32-byte hashes.

use vstd::prelude::*;

verus! {

/// The BLAKE3 digest of `data`, as its 32 bytes.
pub uninterp spec fn blake3_of(data: Seq<u8>) -> Seq<u8>;

/// Calls `blake3::hash` and takes the 32 bytes of the result. The contract only names
/// the digest: it is the BLAKE3 function of the input bytes and nothing else.
#[verifier::external_body]
fn blake3_hash(data: &[u8]) -> (h: [u8; 32])
    ensures
        h@ == blake3_of(data@),
{
    blake3::hash(data).into()
}

/// Hash arbitrary bytes with BLAKE3.
pub fn hash_bytes(data: &[u8]) -> (h: [u8; 32])
    ensures
        h@ == blake3_of(data@),
{
    blake3_hash(data)
}

/// Whether two hashes are the same bytes.
pub fn hash_eq(a: &[u8; 32], b: &[u8; 32]) -> (r: bool)
    ensures
        r == (a@ == b@),
{
    let mut i: usize = 0;
    while i < 32
        invariant
            i <= 32,
            a@.len() == 32,
            b@.len() == 32,
            forall|j: int| 0 <= j < i ==> a@[j] == b@[j],
        decreases 32 - i,
    {
        if a[i] != b[i] {
            return false;
        }
        i = i + 1;
    }
    assert(a@ =~= b@);
    true
}

/// Whether `h` is among `hs`, compared by bytes.
pub open spec fn hash_listed(hs: Seq<[u8; 32]>, h: Seq<u8>) -> bool {
    exists|i: int| 0 <= i < hs.len() && (#[trigger] hs[i])@ == h
}

/// Whether `h` is among `hs`.
pub fn hash_in(hs: &Vec<[u8; 32]>, h: &[u8; 32]) -> (r: bool)
    ensures
        r == hash_listed(hs@, h@),
{
    let mut i: usize = 0;
    while i < hs.len()
        invariant
            i <= hs@.len(),
            forall|j: int| 0 <= j < i ==> (#[trigger] hs@[j])@ != h@,
        decreases hs@.len() - i,
    {
        if hash_eq(&hs[i], h) {
            return true;
        }
        i = i + 1;
    }
    false
}

} // verus!
