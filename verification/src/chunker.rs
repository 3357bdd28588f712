//! Fixed-size chunking of file content, and the chunk references a file node records.
//!
//! Content is cut into pieces of one size (the last may be shorter), each named by the
//! hash of the bytes as stored. With encryption the stored bytes are the sealed chunk,
//! so a peer can check a transfer without holding any key.

use vstd::prelude::*;
use crate::apply::{covers_from, assemble_spec, lemma_plain_layout_reads_back, plain_layout, sealed_layout, ChunkRef, ReadError};
use crate::digest::{blake3_of, hash_bytes};
use crate::envelope::flatten;
use crate::primitives::{aead_limit, xchacha_seal_of};
use crate::repo::{chunk_nonce_spec, CipherError, RepoCipher};

verus! {

/// The chunk size actually used: a size of zero means one byte.
pub open spec fn chunk_len(chunk_size: usize) -> nat {
    if chunk_size == 0 {
        1
    } else {
        chunk_size as nat
    }
}

/// `data` cut into pieces of `n` bytes, the last one shorter when `n` does not divide
/// the length. Empty data has no chunks.
pub open spec fn chunks_of(data: Seq<u8>, n: nat) -> Seq<Seq<u8>>
    decreases data.len(),
{
    if data.len() == 0 || n == 0 {
        Seq::empty()
    } else if data.len() <= n {
        seq![data]
    } else {
        seq![data.subrange(0, n as int)] + chunks_of(data.subrange(n as int, data.len() as int), n)
    }
}

/// The bytes of each buffer.
pub open spec fn byte_views(v: Seq<Vec<u8>>) -> Seq<Seq<u8>> {
    v.map_values(|b: Vec<u8>| b@)
}

/// Where chunk `i` of `cs` starts in the content: the bytes of the chunks before it.
pub open spec fn chunk_offset(cs: Seq<Seq<u8>>, i: int) -> nat {
    flatten(cs.take(i)).len()
}

/// Chunking loses nothing and reorders nothing: the chunks, one after another, are the
/// data; each holds between one and `n` bytes.
pub proof fn lemma_chunks_reassemble(data: Seq<u8>, n: nat)
    requires
        n > 0,
    ensures
        flatten(chunks_of(data, n)) == data,
        forall|i: int| 0 <= i < chunks_of(data, n).len() ==> 0 < #[trigger] chunks_of(data, n)[i].len() <= n,
        data.len() > 0 <==> chunks_of(data, n).len() > 0,
    decreases data.len(),
{
    if data.len() == 0 {
    } else if data.len() <= n {
        let cs = chunks_of(data, n);
        assert(cs.drop_last() =~= Seq::<Seq<u8>>::empty());
        assert(flatten(cs.drop_last()) == Seq::<u8>::empty());
        assert(flatten(cs) =~= data);
    } else {
        let head = data.subrange(0, n as int);
        let tail = data.subrange(n as int, data.len() as int);
        lemma_chunks_reassemble(tail, n);
        lemma_flatten_prepend(head, chunks_of(tail, n));
        assert(data =~= head + tail);
    }
}

/// Flattening a list with one more list in front puts its bytes in front.
pub proof fn lemma_flatten_prepend(a: Seq<u8>, rest: Seq<Seq<u8>>)
    ensures
        flatten(seq![a] + rest) == a + flatten(rest),
    decreases rest.len(),
{
    if rest.len() == 0 {
        let s = seq![a] + rest;
        assert(s.drop_last() =~= Seq::<Seq<u8>>::empty());
        assert(flatten(s.drop_last()) == Seq::<u8>::empty());
        assert(flatten(rest) == Seq::<u8>::empty());
        assert(flatten(s) =~= a + flatten(rest));
    } else {
        let s = seq![a] + rest;
        lemma_flatten_prepend(a, rest.drop_last());
        assert(s.drop_last() =~= seq![a] + rest.drop_last());
        assert(s.last() == rest.last());
        assert(flatten(s) =~= a + flatten(rest));
    }
}

/// The bytes before chunk `i + 1` are those before chunk `i`, then chunk `i`.
proof fn lemma_offset_step(cs: Seq<Seq<u8>>, i: int)
    requires
        0 <= i < cs.len(),
    ensures
        flatten(cs.take(i + 1)) == flatten(cs.take(i)) + cs[i],
        chunk_offset(cs, i + 1) == chunk_offset(cs, i) + cs[i].len(),
{
    assert(cs.take(i + 1).drop_last() =~= cs.take(i));
}

/// No prefix of a list flattens to more bytes than the whole list.
proof fn lemma_offset_bounded(cs: Seq<Seq<u8>>, i: int)
    requires
        0 <= i <= cs.len(),
    ensures
        chunk_offset(cs, i) <= flatten(cs).len(),
    decreases cs.len() - i,
{
    if i < cs.len() {
        lemma_offset_step(cs, i);
        lemma_offset_bounded(cs, i + 1);
    } else {
        assert(cs.take(i) =~= cs);
    }
}

/// The bytes `data[a..b]`, copied.
fn copy_range(data: &[u8], a: usize, b: usize) -> (v: Vec<u8>)
    requires
        a <= b <= data@.len(),
    ensures
        v@ == data@.subrange(a as int, b as int),
{
    let mut v: Vec<u8> = Vec::new();
    let mut i: usize = a;
    while i < b
        invariant
            a <= i <= b,
            b <= data@.len(),
            v@ == data@.subrange(a as int, i as int),
        decreases b - i,
    {
        v.push(data[i]);
        i = i + 1;
        assert(v@ =~= data@.subrange(a as int, i as int));
    }
    v
}

/// Fixed-size chunker: `data` in pieces of `chunk_size` bytes (one byte when the size
/// is zero), the last piece shorter when the size does not divide the length.
pub fn chunk_bytes(data: &[u8], chunk_size: usize) -> (r: Vec<Vec<u8>>)
    ensures
        byte_views(r@) == chunks_of(data@, chunk_len(chunk_size)),
{
    let size: usize = if chunk_size == 0 { 1 } else { chunk_size };
    let ghost m = chunk_len(chunk_size);
    let n = data.len();
    let mut out: Vec<Vec<u8>> = Vec::new();
    let mut start: usize = 0;
    assert(data@.subrange(0, n as int) =~= data@);
    while start < n
        invariant
            n == data@.len(),
            size == m,
            m > 0,
            start <= n,
            chunks_of(data@, m) == byte_views(out@) + chunks_of(data@.subrange(start as int, n as int), m),
        decreases n - start,
    {
        let end: usize = if n - start > size { start + size } else { n };
        let piece = copy_range(data, start, end);
        let ghost rest = data@.subrange(start as int, n as int);
        let ghost before = byte_views(out@);
        proof {
            if rest.len() > m {
                assert(rest.subrange(0, m as int) =~= piece@);
                assert(rest.subrange(m as int, rest.len() as int) =~= data@.subrange(end as int, n as int));
            } else {
                assert(rest =~= piece@);
                assert(data@.subrange(end as int, n as int) =~= Seq::<u8>::empty());
            }
        }
        out.push(piece);
        proof {
            assert(byte_views(out@) =~= before.push(piece@));
            assert(byte_views(out@) + chunks_of(data@.subrange(end as int, n as int), m) =~= before + chunks_of(rest, m));
        }
        start = end;
    }
    assert(data@.subrange(n as int, n as int) =~= Seq::<u8>::empty());
    assert(byte_views(out@) + Seq::<Seq<u8>>::empty() =~= byte_views(out@));
    out
}

/// Chunks `data` and names each piece by its BLAKE3 hash.
pub fn chunk_and_hash(data: &[u8], chunk_size: usize) -> (r: Vec<([u8; 32], Vec<u8>)>)
    ensures
        r@.len() == chunks_of(data@, chunk_len(chunk_size)).len(),
        forall|i: int| 0 <= i < r@.len() ==> {
            &&& (#[trigger] r@[i]).1@ == chunks_of(data@, chunk_len(chunk_size))[i]
            &&& r@[i].0@ == blake3_of(chunks_of(data@, chunk_len(chunk_size))[i])
        },
{
    let pieces = chunk_bytes(data, chunk_size);
    let ghost cs = chunks_of(data@, chunk_len(chunk_size));
    let mut out: Vec<([u8; 32], Vec<u8>)> = Vec::new();
    let mut i: usize = 0;
    while i < pieces.len()
        invariant
            i <= pieces@.len(),
            byte_views(pieces@) == cs,
            out@.len() == i,
            forall|j: int| 0 <= j < i ==> {
                &&& (#[trigger] out@[j]).1@ == cs[j]
                &&& out@[j].0@ == blake3_of(cs[j])
            },
        decreases pieces@.len() - i,
    {
        assert(pieces@[i as int]@ == cs[i as int]);
        let h = hash_bytes(pieces[i].as_slice());
        out.push((h, pieces[i].clone()));
        i = i + 1;
    }
    out
}

/// A plaintext chunk's reference: named by the hash of its bytes, which are both its
/// stored and its content length, starting at `offset`.
pub open spec fn plain_ref_ok(r: ChunkRef, chunk: Seq<u8>, offset: nat) -> bool {
    &&& r.hash@ == blake3_of(chunk)
    &&& r.len == chunk.len() as u32
    &&& r.plain_len == chunk.len() as u32
    &&& r.offset == offset
}

/// References for pieces already cut, stored as they are: each piece's hash, its length
/// as both stored and content length, and the offset where it starts in the content.
pub fn refs_for_pieces(pieces: Vec<Vec<u8>>) -> (r: Vec<(ChunkRef, Vec<u8>)>)
    requires
        flatten(byte_views(pieces@)).len() <= u64::MAX,
    ensures
        r@.len() == pieces@.len(),
        forall|i: int| 0 <= i < r@.len() ==> {
            &&& (#[trigger] r@[i]).1@ == pieces@[i]@
            &&& plain_ref_ok(r@[i].0, pieces@[i]@, chunk_offset(byte_views(pieces@), i))
        },
{
    let ghost cs = byte_views(pieces@);
    let mut out: Vec<(ChunkRef, Vec<u8>)> = Vec::new();
    let mut offset: u64 = 0;
    let mut i: usize = 0;
    assert(cs.take(0) =~= Seq::<Seq<u8>>::empty());
    while i < pieces.len()
        invariant
            i <= pieces@.len(),
            cs == byte_views(pieces@),
            flatten(cs).len() <= u64::MAX,
            out@.len() == i,
            offset == chunk_offset(cs, i as int),
            forall|j: int| 0 <= j < i ==> {
                &&& (#[trigger] out@[j]).1@ == pieces@[j]@
                &&& plain_ref_ok(out@[j].0, pieces@[j]@, chunk_offset(cs, j))
            },
        decreases pieces@.len() - i,
    {
        assert(cs[i as int] == pieces@[i as int]@);
        proof {
            lemma_offset_step(cs, i as int);
            lemma_offset_bounded(cs, i + 1);
        }
        let piece = pieces[i].clone();
        let h = hash_bytes(piece.as_slice());
        let len = piece.len();
        let r = ChunkRef { hash: h, len: #[verifier::truncate] (len as u32), offset, plain_len: #[verifier::truncate] (len as u32) };
        offset = offset + len as u64;
        out.push((r, piece));
        i = i + 1;
    }
    out
}

/// Chunks `data` for storage without encryption: each piece with the reference a file
/// node records for it, offsets counted in content bytes. The caller stores each piece
/// under its hash.
pub fn chunk_refs(data: &[u8], chunk_size: usize) -> (r: Vec<(ChunkRef, Vec<u8>)>)
    ensures
        r@.len() == chunks_of(data@, chunk_len(chunk_size)).len(),
        forall|i: int| 0 <= i < r@.len() ==> {
            let cs = chunks_of(data@, chunk_len(chunk_size));
            &&& (#[trigger] r@[i]).1@ == cs[i]
            &&& plain_ref_ok(r@[i].0, cs[i], chunk_offset(cs, i))
        },
{
    let pieces = chunk_bytes(data, chunk_size);
    let len = data.len();
    proof {
        lemma_chunks_reassemble(data@, chunk_len(chunk_size));
        assert(flatten(byte_views(pieces@)).len() == len);
    }
    let r = refs_for_pieces(pieces);
    proof {
        let cs = chunks_of(data@, chunk_len(chunk_size));
        assert forall|i: int| 0 <= i < r@.len() implies {
            &&& (#[trigger] r@[i]).1@ == cs[i]
            &&& plain_ref_ok(r@[i].0, cs[i], chunk_offset(cs, i))
        } by {
            assert(pieces@[i]@ == byte_views(pieces@)[i]);
        }
    }
    r
}

/// A sealed chunk's reference: named by the hash of the ciphertext, with the stored
/// length of the ciphertext and the content length of the plaintext.
pub open spec fn sealed_ref_ok(r: ChunkRef, stored: Seq<u8>, plain: Seq<u8>, offset: nat) -> bool {
    &&& r.hash@ == blake3_of(stored)
    &&& r.len == stored.len() as u32
    &&& r.plain_len == plain.len() as u32
    &&& r.offset == offset
}

/// Chunks `data` and seals each piece under `file_key` with its index's nonce, for
/// storage: each sealed piece with its reference, offsets counted in plaintext bytes.
///
/// Sealing fails only for a piece at or past the cipher's size limit.
pub fn seal_content(file_key: &[u8; 32], data: &[u8], chunk_size: usize) -> (r: Result<Vec<(ChunkRef, Vec<u8>)>, CipherError>)
    ensures
        match r {
            Ok(v) => {
                let cs = chunks_of(data@, chunk_len(chunk_size));
                &&& v@.len() == cs.len()
                &&& forall|i: int| 0 <= i < v@.len() ==> {
                    &&& (#[trigger] v@[i]).1@ == xchacha_seal_of(file_key@, chunk_nonce_spec(file_key@, i as u64), Seq::empty(), cs[i])
                    &&& v@[i].1@.len() == cs[i].len() + 16
                    &&& sealed_ref_ok(v@[i].0, v@[i].1@, cs[i], chunk_offset(cs, i))
                }
            },
            Err(e) => e == CipherError::EncryptFailed,
        },
        chunk_len(chunk_size) < aead_limit() ==> r is Ok,
{
    let pieces = chunk_bytes(data, chunk_size);
    let total = data.len();
    let ghost cs = chunks_of(data@, chunk_len(chunk_size));
    proof {
        lemma_chunks_reassemble(data@, chunk_len(chunk_size));
    }
    let mut out: Vec<(ChunkRef, Vec<u8>)> = Vec::new();
    let mut offset: u64 = 0;
    let mut i: usize = 0;
    assert(cs.take(0) =~= Seq::<Seq<u8>>::empty());
    while i < pieces.len()
        invariant
            i <= pieces@.len(),
            byte_views(pieces@) == cs,
            flatten(cs) == data@,
            data@.len() == total,
            forall|j: int| 0 <= j < cs.len() ==> 0 < #[trigger] cs[j].len() <= chunk_len(chunk_size),
            out@.len() == i,
            offset == chunk_offset(cs, i as int),
            forall|j: int| 0 <= j < i ==> {
                &&& (#[trigger] out@[j]).1@ == xchacha_seal_of(file_key@, chunk_nonce_spec(file_key@, j as u64), Seq::empty(), cs[j])
                &&& out@[j].1@.len() == cs[j].len() + 16
                &&& sealed_ref_ok(out@[j].0, out@[j].1@, cs[j], chunk_offset(cs, j))
            },
        decreases pieces@.len() - i,
    {
        assert(pieces@[i as int]@ == cs[i as int]);
        proof {
            lemma_offset_step(cs, i as int);
            lemma_offset_bounded(cs, i + 1);
        }
        let index = i as u64;
        match RepoCipher::seal_chunk(file_key, index, pieces[i].as_slice()) {
            Ok(sealed) => {
                let h = hash_bytes(sealed.as_slice());
                let plain_len = pieces[i].len();
                let r = ChunkRef { hash: h, len: #[verifier::truncate] (sealed.len() as u32), offset, plain_len: #[verifier::truncate] (plain_len as u32) };
                offset = offset + plain_len as u64;
                out.push((r, sealed));
                i = i + 1;
            },
            Err(e) => {
                return Err(e);
            },
        }
    }
    Ok(out)
}

/// The references of chunked content.
pub open spec fn refs_of(v: Seq<(ChunkRef, Vec<u8>)>) -> Seq<ChunkRef> {
    v.map_values(|e: (ChunkRef, Vec<u8>)| e.0)
}

/// The stored bytes of chunked content, every chunk held.
pub open spec fn stored_of(v: Seq<(ChunkRef, Vec<u8>)>) -> Seq<Option<Seq<u8>>> {
    v.map_values(|e: (ChunkRef, Vec<u8>)| Some(e.1@))
}

/// Content chunked for storage without encryption reads back as itself: reassembling
/// the pieces under their references gives the data, and nothing else.
///
/// Holds whenever a chunk's length fits the 32-bit length a reference records.
pub proof fn lemma_plain_content_reads_back(data: Seq<u8>, chunk_size: usize, v: Seq<(ChunkRef, Vec<u8>)>)
    requires
        chunk_len(chunk_size) <= u32::MAX,
        data.len() <= u64::MAX,
        v.len() == chunks_of(data, chunk_len(chunk_size)).len(),
        forall|i: int| 0 <= i < v.len() ==> {
            let cs = chunks_of(data, chunk_len(chunk_size));
            &&& (#[trigger] v[i]).1@ == cs[i]
            &&& plain_ref_ok(v[i].0, cs[i], chunk_offset(cs, i))
        },
    ensures
        assemble_spec(refs_of(v), stored_of(v), None, data.len() as u64) == Ok::<Seq<u8>, ReadError>(data),
{
    let n = chunk_len(chunk_size);
    let cs = chunks_of(data, n);
    lemma_chunks_reassemble(data, n);
    assert forall|i: int| 0 <= i < cs.len() implies {
        &&& #[trigger] stored_of(v)[i] == Some(cs[i])
        &&& cs[i].len() == refs_of(v)[i].len
        &&& refs_of(v)[i].offset == flatten(cs.take(i)).len()
    } by {
        assert(v[i].1@ == cs[i]);
        assert(0 < cs[i].len() <= n);
    }
    assert(plain_layout(refs_of(v), stored_of(v), cs));
    lemma_plain_layout_reads_back(refs_of(v), stored_of(v), cs);
}

/// Content sealed for storage is laid out as its pieces sealed in order, so that
/// reassembling it under the same file key gives the data back (see `assemble_file`).
///
/// Holds whenever a sealed chunk's length fits the 32-bit length a reference records.
pub proof fn lemma_sealed_content_layout(file_key: Seq<u8>, data: Seq<u8>, chunk_size: usize, v: Seq<(ChunkRef, Vec<u8>)>)
    requires
        chunk_len(chunk_size) + 16 <= u32::MAX,
        v.len() == chunks_of(data, chunk_len(chunk_size)).len(),
        forall|i: int| 0 <= i < v.len() ==> {
            let cs = chunks_of(data, chunk_len(chunk_size));
            &&& (#[trigger] v[i]).1@ == xchacha_seal_of(file_key, chunk_nonce_spec(file_key, i as u64), Seq::empty(), cs[i])
            &&& v[i].1@.len() == cs[i].len() + 16
            &&& sealed_ref_ok(v[i].0, v[i].1@, cs[i], chunk_offset(cs, i))
        },
    ensures
        sealed_layout(refs_of(v), stored_of(v), file_key, chunks_of(data, chunk_len(chunk_size))),
        flatten(chunks_of(data, chunk_len(chunk_size))) == data,
{
    let n = chunk_len(chunk_size);
    let cs = chunks_of(data, n);
    lemma_chunks_reassemble(data, n);
    assert forall|i: int| 0 <= i < cs.len() implies {
        &&& #[trigger] stored_of(v)[i] == Some(xchacha_seal_of(file_key, chunk_nonce_spec(file_key, i as u64), Seq::empty(), cs[i]))
        &&& cs[i].len() < aead_limit()
        &&& xchacha_seal_of(file_key, chunk_nonce_spec(file_key, i as u64), Seq::empty(), cs[i]).len() == refs_of(v)[i].len
        &&& refs_of(v)[i].offset == flatten(cs.take(i)).len()
    } by {
        assert(0 < cs[i].len() <= n);
        assert(v[i].1@.len() == cs[i].len() + 16);
    }
}

/// Chunked content, sealed or not, is a whole-file chunk list: the references cover the
/// content from its first byte to its last, each byte once.
pub proof fn lemma_chunks_cover_the_file(data: Seq<u8>, chunk_size: usize, refs: Seq<ChunkRef>)
    requires
        refs.len() == chunks_of(data, chunk_len(chunk_size)).len(),
        forall|i: int| 0 <= i < refs.len() ==> {
            let cs = chunks_of(data, chunk_len(chunk_size));
            &&& (#[trigger] refs[i]).plain_len == cs[i].len()
            &&& refs[i].offset == chunk_offset(cs, i)
        },
    ensures
        covers_from(refs, 0, 0, data.len()),
{
    let cs = chunks_of(data, chunk_len(chunk_size));
    lemma_chunks_reassemble(data, chunk_len(chunk_size));
    assert(cs.take(0) =~= Seq::<Seq<u8>>::empty());
    lemma_cover_suffix(data, chunk_size, refs, 0);
}

proof fn lemma_cover_suffix(data: Seq<u8>, chunk_size: usize, refs: Seq<ChunkRef>, i: int)
    requires
        0 <= i <= refs.len(),
        refs.len() == chunks_of(data, chunk_len(chunk_size)).len(),
        flatten(chunks_of(data, chunk_len(chunk_size))) == data,
        forall|j: int| 0 <= j < refs.len() ==> {
            let cs = chunks_of(data, chunk_len(chunk_size));
            &&& (#[trigger] refs[j]).plain_len == cs[j].len()
            &&& refs[j].offset == chunk_offset(cs, j)
        },
    ensures
        covers_from(refs, i, chunk_offset(chunks_of(data, chunk_len(chunk_size)), i), data.len()),
    decreases refs.len() - i,
{
    let cs = chunks_of(data, chunk_len(chunk_size));
    if i < refs.len() {
        lemma_offset_step(cs, i);
        lemma_cover_suffix(data, chunk_size, refs, i + 1);
        assert(refs[i].offset == chunk_offset(cs, i));
    } else {
        assert(cs.take(i) =~= cs);
    }
}

} // verus!
