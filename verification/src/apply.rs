//! The rules of applying a write: whether it can still win, whether its chunks form
//! the whole file, and what bytes a partial write leaves behind.
//!
//! Operations whose preconditions are not yet satisfiable are parked rather than
//! rejected: an offline-first system routinely sees a child arrive before its parent.

use vstd::prelude::*;
use crate::lww::{LwwReg, key_lt};
use crate::object::EntryType;
use crate::keys::{push_be, be_bytes};
use crate::primitives::{aead_limit, xchacha_open_of, xchacha_seal_of};
use crate::envelope::{flatten, key_views, lists_exactly, sorted_unique, strictly_sorted};
use crate::repo::{chunk_nonce_spec, CipherError, RepoCipher};
use crate::object::{FileNode, encryption_view};
use crate::text::{dec_string, push_decimal};
use crate::identity::{verify, verify_spec, SignatureError};
use crate::evidence::{check_proof, proof_verdict, ProofEvidence, ProofPolicy, ProofRejection};
use crate::primitives::ed25519_accepts_of;

verus! {

/// What applying an operation did.
#[derive(Debug, Clone, PartialEq, Eq)]
pub enum ApplyOutcome {
    Applied,
    AlreadyApplied,
    /// Preconditions are not satisfiable yet; the operation is stored and retried
    /// whenever later operations arrive.
    Pending(String),
}

/// A reference to one stored chunk of a file.
#[derive(Debug, Clone, Copy, PartialEq, Eq)]
pub struct ChunkRef {
    /// Hash of the bytes as stored.
    pub hash: [u8; 32],
    /// Stored length, which for ciphertext includes the authentication tag.
    pub len: u32,
    /// Offset of the chunk's content in the file's plaintext.
    pub offset: u64,
    /// Length of the chunk's plaintext.
    pub plain_len: u32,
}

/// Whether `chunks[i..]` cover the plaintext from `expected` to `new_size` exactly once.
pub open spec fn covers_from(chunks: Seq<ChunkRef>, i: int, expected: nat, new_size: nat) -> bool
    decreases chunks.len() - i,
{
    if i >= chunks.len() {
        expected == new_size
    } else if chunks[i].offset != expected {
        false
    } else {
        covers_from(chunks, i + 1, expected + chunks[i].plain_len as nat, new_size)
    }
}

/// Whether summing the lengths of `chunks[i..]` from `expected` stays within a `u64`
/// for as long as the offsets keep matching.
pub open spec fn sum_fits_from(chunks: Seq<ChunkRef>, i: int, expected: nat) -> bool
    decreases chunks.len() - i,
{
    if i >= chunks.len() {
        true
    } else if chunks[i].offset != expected {
        true
    } else {
        expected + chunks[i].plain_len <= u64::MAX && sum_fits_from(chunks, i + 1, expected + chunks[i].plain_len as nat)
    }
}

/// True when `chunks` cover the file's plaintext exactly once, start to end.
///
/// Measured in plaintext, not stored bytes: an encrypted chunk is longer than the
/// content it holds.
pub fn chunks_form_whole_file(chunks: &[ChunkRef], new_size: u64) -> (r: bool)
    requires
        sum_fits_from(chunks@, 0, 0),
    ensures
        r == covers_from(chunks@, 0, 0, new_size as nat),
{
    let mut expected: u64 = 0;
    let mut i: usize = 0;
    while i < chunks.len()
        invariant
            i <= chunks@.len(),
            covers_from(chunks@, 0, 0, new_size as nat) == covers_from(chunks@, i as int, expected as nat, new_size as nat),
            sum_fits_from(chunks@, i as int, expected as nat),
        decreases chunks@.len() - i,
    {
        let c = chunks[i];
        if c.offset != expected {
            return false;
        }
        expected = expected + c.plain_len as u64;
        i = i + 1;
    }
    expected == new_size
}

/// Whether a write stamped `(time, device, counter)` could still win `current`.
///
/// Mirrors [`LwwReg::merge`], which keeps the incoming value only on a strictly greater
/// key; anything at or below the current key is already superseded.
pub fn write_can_win<T>(current: &LwwReg<T>, time: u64, device: u128, counter: u64) -> (r: bool)
    ensures
        r == key_lt(current.key(), (time, device, counter)),
{
    time > current.ts || (time == current.ts && (device > current.writer_id || (device == current.writer_id
        && counter > current.seq)))
}

/// Why a write was refused outright.
#[derive(Debug, Clone, Copy, PartialEq, Eq, Structural)]
pub enum WriteError {
    /// The target inode is a directory.
    NotAFile,
    /// `offset` plus the supplied length does not fit in a `u64`.
    OffsetOverflow,
    /// The write claims a size beyond both the existing file and the bytes it supplies.
    SizeUnjustified { claimed: u64, justified: u64 },
    /// The size does not fit in this platform's address space.
    TooLarge,
    /// The offset does not fit in this platform's address space.
    OffsetTooLarge,
}

/// The operator-facing explanation of a refused write.
pub open spec fn write_error_text(e: WriteError) -> Seq<char> {
    match e {
        WriteError::NotAFile => "the target inode is not a file"@,
        WriteError::OffsetOverflow => "write offset plus length overflows"@,
        WriteError::SizeUnjustified { claimed, justified } => "write claims size "@ + dec_string(claimed as nat)
            + " but supplies only "@ + dec_string(justified as nat) + " bytes of content"@,
        WriteError::TooLarge => "file too large for this platform"@,
        WriteError::OffsetTooLarge => "offset too large for this platform"@,
    }
}

impl WriteError {
    /// The operator-facing explanation.
    pub fn message(&self) -> (s: String)
        ensures
            s@ == write_error_text(*self),
    {
        match *self {
            WriteError::NotAFile => String::from_str("the target inode is not a file"),
            WriteError::OffsetOverflow => String::from_str("write offset plus length overflows"),
            WriteError::SizeUnjustified { claimed, justified } => {
                let mut s = String::from_str("write claims size ");
                push_decimal(&mut s, claimed);
                s.append(" but supplies only ");
                push_decimal(&mut s, justified);
                s.append(" bytes of content");
                proof {
                    reveal_strlit("write claims size ");
                    reveal_strlit(" but supplies only ");
                    reveal_strlit(" bytes of content");
                }
                s
            },
            WriteError::TooLarge => String::from_str("file too large for this platform"),
            WriteError::OffsetTooLarge => String::from_str("offset too large for this platform"),
        }
    }
}

/// The byte at `i` of a file after `incoming` is written at `offset` over `existing`:
/// the written byte where the write lands, the old byte where it does not, zero past
/// the end of both.
pub open spec fn spliced_byte(existing: Seq<u8>, incoming: Seq<u8>, offset: nat, i: nat) -> u8 {
    if offset <= i < offset + incoming.len() {
        incoming[i - offset]
    } else if i < existing.len() {
        existing[i as int]
    } else {
        0u8
    }
}

/// The most bytes a partial write can justify: what the file already had, or what the
/// write supplies at its offset.
pub open spec fn justified_size(existing: Seq<u8>, incoming: Seq<u8>, offset: nat) -> nat {
    if existing.len() >= offset + incoming.len() {
        existing.len()
    } else {
        offset + incoming.len()
    }
}

/// The outcome of a partial write of `incoming` at `offset` over `existing`, leaving a
/// file of `new_size` bytes.
pub open spec fn splice_spec(existing: Seq<u8>, incoming: Seq<u8>, offset: u64, new_size: u64) -> Result<Seq<u8>, WriteError> {
    if offset + incoming.len() > u64::MAX {
        Err(WriteError::OffsetOverflow)
    } else if new_size > justified_size(existing, incoming, offset as nat) {
        Err(WriteError::SizeUnjustified {
            claimed: new_size,
            justified: justified_size(existing, incoming, offset as nat) as u64,
        })
    } else if new_size > usize::MAX {
        Err(WriteError::TooLarge)
    } else if offset > usize::MAX {
        Err(WriteError::OffsetTooLarge)
    } else {
        Ok(Seq::new(new_size as nat, |i: int| spliced_byte(existing, incoming, offset as nat, i as nat)))
    }
}

/// The bytes a partial write leaves: `incoming` written at `offset` over `existing`,
/// the file cut or zero-extended to `new_size`.
///
/// The size has to be justified by data actually in hand: a `new_size` beyond both the
/// existing bytes and the written ones is an assertion of padding no writer produces,
/// and honouring it would allocate whatever a peer asked for.
pub fn splice_write(existing: &[u8], incoming: &[u8], offset: u64, new_size: u64) -> (r: Result<Vec<u8>, WriteError>)
    ensures
        match r {
            Ok(buf) => splice_spec(existing@, incoming@, offset, new_size) == Ok::<Seq<u8>, WriteError>(buf@),
            Err(e) => splice_spec(existing@, incoming@, offset, new_size) == Err::<Seq<u8>, WriteError>(e),
        },
{
    let in_len = incoming.len() as u64;
    let ex_len = existing.len() as u64;
    let reach = match offset.checked_add(in_len) {
        Some(x) => x,
        None => {
            return Err(WriteError::OffsetOverflow);
        },
    };
    let justified = if ex_len >= reach {
        ex_len
    } else {
        reach
    };
    if new_size > justified {
        return Err(WriteError::SizeUnjustified { claimed: new_size, justified });
    }
    if new_size > usize::MAX as u64 {
        return Err(WriteError::TooLarge);
    }
    if offset > usize::MAX as u64 {
        return Err(WriteError::OffsetTooLarge);
    }
    let total = new_size as usize;
    let start = offset as usize;
    let mut buf: Vec<u8> = Vec::new();
    let mut i: usize = 0;
    while i < total
        invariant
            i <= total,
            total == new_size,
            start == offset,
            new_size <= justified_size(existing@, incoming@, offset as nat),
            buf@.len() == i,
            forall|j: int| 0 <= j < i ==> buf@[j] == spliced_byte(existing@, incoming@, offset as nat, j as nat),
        decreases total - i,
    {
        let b = if start <= i && i - start < incoming.len() {
            incoming[i - start]
        } else if i < existing.len() {
            existing[i]
        } else {
            0u8
        };
        buf.push(b);
        i = i + 1;
    }
    assert(buf@ =~= Seq::new(new_size as nat, |j: int| spliced_byte(existing@, incoming@, offset as nat, j as nat)));
    Ok(buf)
}

/// Why a write cannot be applied yet.
#[derive(Debug, Clone, Copy, PartialEq, Eq)]
pub enum WriteUnmet {
    /// The inode has not been created here yet.
    NoInode,
    /// A chunk the write references has not been fetched yet.
    MissingChunk([u8; 32]),
}

/// How a write is applied.
#[derive(Debug, Clone, Copy, PartialEq, Eq)]
pub enum WritePlan {
    /// Park the write until its preconditions hold.
    Unmet(WriteUnmet),
    /// The target is a directory.
    NotAFile,
    /// The write cannot win the content register: it is already satisfied, and its
    /// bytes are never needed.
    Superseded,
    /// The chunk list is the whole file.
    WholeFile,
    /// The bytes must be spliced into the existing file.
    Splice,
}

/// Decides how to apply a write stamped `(time, device, counter)` of `chunks` at
/// `offset`, leaving `new_size` bytes. `target` is the inode's kind and content
/// register, when the inode exists; `first_missing` is the first referenced chunk not
/// held locally.
///
/// Superseded writes are settled before availability is checked: otherwise an
/// overwritten version would park forever waiting for content no reader will see.
pub fn plan_write(
    target: Option<(EntryType, &LwwReg<crate::namespace::ContentState>)>,
    time: u64,
    device: u128,
    counter: u64,
    offset: u64,
    chunks: &[ChunkRef],
    new_size: u64,
    first_missing: Option<[u8; 32]>,
) -> (p: WritePlan)
    requires
        sum_fits_from(chunks@, 0, 0),
    ensures
        p == (match target {
            None => WritePlan::Unmet(WriteUnmet::NoInode),
            Some((kind, content)) => if kind != EntryType::File {
                WritePlan::NotAFile
            } else if !key_lt(content.key(), (time, device, counter)) {
                WritePlan::Superseded
            } else if first_missing is Some {
                WritePlan::Unmet(WriteUnmet::MissingChunk(first_missing->0))
            } else if offset == 0 && covers_from(chunks@, 0, 0, new_size as nat) {
                WritePlan::WholeFile
            } else {
                WritePlan::Splice
            },
        }),
{
    match target {
        None => WritePlan::Unmet(WriteUnmet::NoInode),
        Some((kind, content)) => {
            if kind != EntryType::File {
                return WritePlan::NotAFile;
            }
            if !write_can_win(content, time, device, counter) {
                return WritePlan::Superseded;
            }
            if let Some(h) = first_missing {
                return WritePlan::Unmet(WriteUnmet::MissingChunk(h));
            }
            if offset == 0 && chunks_form_whole_file(chunks, new_size) {
                WritePlan::WholeFile
            } else {
                WritePlan::Splice
            }
        },
    }
}

/// `pending\0`
pub open spec fn pending_prefix() -> Seq<u8> {
    seq![112u8, 101, 110, 100, 105, 110, 103, 0]
}

/// Where a parked operation is stored: the prefix, then the device in 16 and the
/// counter in 8 big-endian bytes.
pub fn pending_key(device: u128, counter: u64) -> (k: Vec<u8>)
    ensures
        k@ == pending_prefix() + be_bytes(device as nat, 16) + be_bytes(counter as nat, 8),
{
    let mut k: Vec<u8> = vec![112u8, 101, 110, 100, 105, 110, 103, 0];
    assert(k@ =~= pending_prefix());
    push_be(&mut k, device, 16);
    push_be(&mut k, counter as u128, 8);
    k
}

/// Why a file could not be read back.
#[derive(Debug, Clone, Copy, PartialEq, Eq, Structural)]
pub enum ReadError {
    /// A chunk the file names is not held here.
    MissingChunk { index: usize },
    /// A chunk's stored length differs from what the file records.
    LengthMismatch { index: usize },
    /// A chunk does not start where the content assembled so far ends.
    OffsetMismatch { index: usize },
    /// A chunk failed authentication: altered ciphertext or the wrong key.
    Unauthentic { index: usize },
    /// The assembled content is not the size the file records.
    SizeMismatch,
    /// The file is encrypted and this node has no repository key configured.
    NoRepositoryKey,
    /// The file key sealed with the file could not be recovered.
    FileKey(CipherError),
}

/// What chunk `index` contributes: its stored bytes, or their decryption under `key`.
pub open spec fn chunk_plain(key: Option<Seq<u8>>, index: nat, stored: Seq<u8>) -> Option<Seq<u8>> {
    match key {
        None => Some(stored),
        Some(k) => xchacha_open_of(k, chunk_nonce_spec(k, index as u64), Seq::empty(), stored),
    }
}

/// The views of the stored chunks.
pub open spec fn stored_views(s: Seq<Option<Vec<u8>>>) -> Seq<Option<Seq<u8>>> {
    s.map_values(|o: Option<Vec<u8>>| match o {
        Some(v) => Some(v@),
        None => None,
    })
}

/// Reassembling the first `n` chunks: the content so far, or the first failure.
pub open spec fn assemble_upto(chunks: Seq<ChunkRef>, stored: Seq<Option<Seq<u8>>>, key: Option<Seq<u8>>, n: nat) -> Result<Seq<u8>, ReadError>
    decreases n,
{
    if n == 0 {
        Ok(Seq::empty())
    } else {
        match assemble_upto(chunks, stored, key, (n - 1) as nat) {
            Err(e) => Err(e),
            Ok(out) => {
                let i = (n - 1) as int;
                match stored[i] {
                    None => Err(ReadError::MissingChunk { index: i as usize }),
                    Some(bytes) => if bytes.len() != chunks[i].len {
                        Err(ReadError::LengthMismatch { index: i as usize })
                    } else if chunks[i].offset != out.len() {
                        Err(ReadError::OffsetMismatch { index: i as usize })
                    } else {
                        match chunk_plain(key, i as nat, bytes) {
                            None => Err(ReadError::Unauthentic { index: i as usize }),
                            Some(p) => Ok(out + p),
                        }
                    },
                }
            },
        }
    }
}

/// Reading a whole file back: every chunk in order, then the size check.
pub open spec fn assemble_spec(chunks: Seq<ChunkRef>, stored: Seq<Option<Seq<u8>>>, key: Option<Seq<u8>>, size: u64) -> Result<Seq<u8>, ReadError> {
    match assemble_upto(chunks, stored, key, chunks.len()) {
        Err(e) => Err(e),
        Ok(out) => if out.len() != size {
            Err(ReadError::SizeMismatch)
        } else {
            Ok(out)
        },
    }
}

/// Reassembles a file from its chunk references and the stored chunks (`None` where a
/// chunk is not held), decrypting each under `file_key` when the file is encrypted, and
/// checking the layout as it goes: each chunk's stored length, that each starts where the
/// content so far ends, and the total size.
///
/// Authentication failure means altered ciphertext or the wrong key; the read fails
/// rather than returning whatever the bytes decode to.
pub fn assemble_file(chunks: &Vec<ChunkRef>, stored: &Vec<Option<Vec<u8>>>, file_key: Option<[u8; 32]>, size: u64) -> (r: Result<Vec<u8>, ReadError>)
    requires
        chunks@.len() == stored@.len(),
    ensures
        match r {
            Ok(v) => assemble_spec(chunks@, stored_views(stored@), opt_key(file_key), size) == Ok::<Seq<u8>, ReadError>(v@),
            Err(e) => assemble_spec(chunks@, stored_views(stored@), opt_key(file_key), size) == Err::<Seq<u8>, ReadError>(e),
        },
        forall|ms: Seq<Seq<u8>>|
            file_key is Some && #[trigger] sealed_layout(chunks@, stored_views(stored@), file_key->0@, ms) && flatten(ms).len()
                == size ==> (r matches Ok(v) && v@ == flatten(ms)),
{
    let ghost sv = stored_views(stored@);
    let ghost key = opt_key(file_key);
    let mut out: Vec<u8> = Vec::new();
    let mut i: usize = 0;
    while i < chunks.len()
        invariant
            i <= chunks@.len(),
            chunks@.len() == stored@.len(),
            sv == stored_views(stored@),
            key == opt_key(file_key),
            assemble_upto(chunks@, sv, key, i as nat) == Ok::<Seq<u8>, ReadError>(out@),
            forall|ms: Seq<Seq<u8>>|
                file_key is Some && #[trigger] sealed_layout(chunks@, sv, file_key->0@, ms) ==> out@ == flatten(ms.take(i as int)),
        decreases chunks@.len() - i,
    {
        let c = chunks[i];
        let bytes = match &stored[i] {
            None => {
                proof {
                    lemma_assemble_error_sticks(chunks@, sv, key, (i + 1) as nat, chunks@.len());
                    assert forall|ms: Seq<Seq<u8>>| !(file_key is Some && #[trigger] sealed_layout(chunks@, sv, file_key->0@, ms)) by {
                        if file_key is Some && sealed_layout(chunks@, sv, file_key->0@, ms) {
                            assert(sv[i as int] is Some);
                        }
                    }
                }
                return Err(ReadError::MissingChunk { index: i });
            },
            Some(b) => b,
        };
        assert(sv[i as int] == Some(bytes@));
        if bytes.len() as u64 != c.len as u64 {
            proof {
                lemma_assemble_error_sticks(chunks@, sv, key, (i + 1) as nat, chunks@.len());
                assert forall|ms: Seq<Seq<u8>>| !(file_key is Some && #[trigger] sealed_layout(chunks@, sv, file_key->0@, ms)) by {
                    if file_key is Some && sealed_layout(chunks@, sv, file_key->0@, ms) {
                        assert(sv[i as int] is Some);
                    }
                }
            }
            return Err(ReadError::LengthMismatch { index: i });
        }
        if c.offset != out.len() as u64 {
            proof {
                lemma_assemble_error_sticks(chunks@, sv, key, (i + 1) as nat, chunks@.len());
                assert forall|ms: Seq<Seq<u8>>| !(file_key is Some && #[trigger] sealed_layout(chunks@, sv, file_key->0@, ms)) by {
                    if file_key is Some && sealed_layout(chunks@, sv, file_key->0@, ms) {
                        assert(sv[i as int] is Some);
                    }
                }
            }
            return Err(ReadError::OffsetMismatch { index: i });
        }
        let piece = match file_key {
            None => {
                let mut p: Vec<u8> = Vec::new();
                let mut k: usize = 0;
                while k < bytes.len()
                    invariant
                        k <= bytes@.len(),
                        p@ == bytes@.subrange(0, k as int),
                    decreases bytes@.len() - k,
                {
                    p.push(bytes[k]);
                    k = k + 1;
                    assert(p@ =~= bytes@.subrange(0, k as int));
                }
                assert(bytes@.subrange(0, k as int) =~= bytes@);
                p
            },
            Some(k) => {
                match crate::repo::RepoCipher::open_chunk(&k, i as u64, bytes.as_slice()) {
                    Ok(p) => {
                        proof {
                            assert forall|ms: Seq<Seq<u8>>| file_key is Some && #[trigger] sealed_layout(chunks@, sv, file_key->0@, ms)
                                implies p@ == ms[i as int] by {
                                assert(sv[i as int] is Some);
                                let m = ms[i as int];
                                assert(m.len() < aead_limit());
                            }
                        }
                        p
                    },
                    Err(_) => {
                        proof {
                            lemma_assemble_error_sticks(chunks@, sv, key, (i + 1) as nat, chunks@.len());
                            assert forall|ms: Seq<Seq<u8>>| !(file_key is Some && #[trigger] sealed_layout(chunks@, sv, file_key->0@, ms)) by {
                                if file_key is Some && sealed_layout(chunks@, sv, file_key->0@, ms) {
                                    assert(sv[i as int] is Some);
                                    let m = ms[i as int];
                                    assert(m.len() < aead_limit());
                                }
                            }
                        }
                        return Err(ReadError::Unauthentic { index: i });
                    },
                }
            },
        };
        let ghost o0 = out@;
        let mut k: usize = 0;
        while k < piece.len()
            invariant
                k <= piece@.len(),
                out@ == o0 + piece@.subrange(0, k as int),
            decreases piece@.len() - k,
        {
            out.push(piece[k]);
            k = k + 1;
            assert(out@ =~= o0 + piece@.subrange(0, k as int));
        }
        assert(piece@.subrange(0, k as int) =~= piece@);
        proof {
            assert forall|ms: Seq<Seq<u8>>| file_key is Some && #[trigger] sealed_layout(chunks@, sv, file_key->0@, ms)
                implies out@ == flatten(ms.take(i + 1)) by {
                assert(ms.take(i + 1).drop_last() =~= ms.take(i as int));
            }
        }
        i = i + 1;
    }
    proof {
        assert forall|ms: Seq<Seq<u8>>| file_key is Some && #[trigger] sealed_layout(chunks@, sv, file_key->0@, ms)
            implies out@ == flatten(ms) by {
            assert(ms.take(i as int) =~= ms);
        }
    }
    if out.len() as u64 != size {
        return Err(ReadError::SizeMismatch);
    }
    Ok(out)
}

/// The stored chunks are the pieces `ms` sealed under `key`, each with its index's
/// nonce, recorded with the stored length and with the offset where the piece starts in
/// the content.
pub open spec fn sealed_layout(chunks: Seq<ChunkRef>, stored: Seq<Option<Seq<u8>>>, key: Seq<u8>, ms: Seq<Seq<u8>>) -> bool {
    &&& ms.len() == chunks.len()
    &&& stored.len() == chunks.len()
    &&& forall|i: int| 0 <= i < ms.len() ==> {
        &&& #[trigger] stored[i] == Some(xchacha_seal_of(key, chunk_nonce_spec(key, i as u64), Seq::empty(), ms[i]))
        &&& ms[i].len() < aead_limit()
        &&& xchacha_seal_of(key, chunk_nonce_spec(key, i as u64), Seq::empty(), ms[i]).len() == chunks[i].len
        &&& chunks[i].offset == flatten(ms.take(i)).len()
    }
}

/// The stored chunks are the pieces `ms` themselves, recorded with their lengths and
/// with the offset where each starts in the content.
pub open spec fn plain_layout(chunks: Seq<ChunkRef>, stored: Seq<Option<Seq<u8>>>, ms: Seq<Seq<u8>>) -> bool {
    &&& ms.len() == chunks.len()
    &&& stored.len() == chunks.len()
    &&& forall|i: int| 0 <= i < ms.len() ==> {
        &&& #[trigger] stored[i] == Some(ms[i])
        &&& ms[i].len() == chunks[i].len
        &&& chunks[i].offset == flatten(ms.take(i)).len()
    }
}

/// A plaintext file reads back as the pieces it was stored as, one after another.
pub proof fn lemma_plain_layout_reads_back(chunks: Seq<ChunkRef>, stored: Seq<Option<Seq<u8>>>, ms: Seq<Seq<u8>>)
    requires
        plain_layout(chunks, stored, ms),
        flatten(ms).len() <= u64::MAX,
    ensures
        assemble_spec(chunks, stored, None, flatten(ms).len() as u64) == Ok::<Seq<u8>, ReadError>(flatten(ms)),
{
    lemma_plain_prefix_reads_back(chunks, stored, ms, chunks.len());
    assert(ms.take(chunks.len() as int) =~= ms);
}

proof fn lemma_plain_prefix_reads_back(chunks: Seq<ChunkRef>, stored: Seq<Option<Seq<u8>>>, ms: Seq<Seq<u8>>, n: nat)
    requires
        plain_layout(chunks, stored, ms),
        n <= chunks.len(),
    ensures
        assemble_upto(chunks, stored, None, n) == Ok::<Seq<u8>, ReadError>(flatten(ms.take(n as int))),
    decreases n,
{
    if n == 0 {
        assert(ms.take(0) =~= Seq::<Seq<u8>>::empty());
    } else {
        let i = (n - 1) as int;
        lemma_plain_prefix_reads_back(chunks, stored, ms, (n - 1) as nat);
        assert(stored[i] == Some(ms[i]));
        assert(ms.take(n as int).drop_last() =~= ms.take(i));
    }
}

proof fn lemma_assemble_error_sticks(chunks: Seq<ChunkRef>, stored: Seq<Option<Seq<u8>>>, key: Option<Seq<u8>>, n: nat, m: nat)
    requires
        n <= m,
        assemble_upto(chunks, stored, key, n) is Err,
    ensures
        assemble_upto(chunks, stored, key, m) == assemble_upto(chunks, stored, key, n),
    decreases m - n,
{
    if n < m {
        lemma_assemble_error_sticks(chunks, stored, key, n, (m - 1) as nat);
    }
}

/// The view of an optional key.
pub open spec fn opt_key(k: Option<[u8; 32]>) -> Option<Seq<u8>> {
    match k {
        Some(x) => Some(x@),
        None => None,
    }
}

/// Whether `h` is the hash of a referenced chunk that is not held.
pub open spec fn unheld(referenced: Seq<[u8; 32]>, held: Seq<bool>, h: Seq<u8>) -> bool {
    exists|i: int| 0 <= i < referenced.len() && !held[i] && #[trigger] referenced[i]@ == h
}

/// The content a peer has to send to unblock parked writes: every referenced chunk
/// (`held[i]` tells whether the `i`-th is in the local store) that is not held here,
/// sorted, each once. This is precisely what replication asks for.
pub fn missing_hashes(referenced: &Vec<[u8; 32]>, held: &Vec<bool>) -> (r: Vec<[u8; 32]>)
    requires
        referenced@.len() == held@.len(),
    ensures
        strictly_sorted(key_views(r@)),
        forall|h: Seq<u8>| key_views(r@).contains(h) <==> unheld(referenced@, held@, h),
{
    let mut wanted: Vec<[u8; 32]> = Vec::new();
    let mut i: usize = 0;
    while i < referenced.len()
        invariant
            i <= referenced@.len(),
            referenced@.len() == held@.len(),
            forall|h: Seq<u8>| key_views(wanted@).contains(h) <==> exists|j: int|
                0 <= j < i && !held@[j] && #[trigger] referenced@[j]@ == h,
        decreases referenced@.len() - i,
    {
        if !held[i] {
            let ghost w0 = wanted@;
            wanted.push(referenced[i]);
            proof {
                assert(key_views(wanted@) =~= key_views(w0).push(referenced@[i as int]@));
                assert forall|h: Seq<u8>| key_views(wanted@).contains(h) implies exists|j: int|
                    0 <= j < i + 1 && !held@[j] && #[trigger] referenced@[j]@ == h by {
                    if h != referenced@[i as int]@ {
                        assert(key_views(w0).contains(h));
                    }
                }
                assert forall|h: Seq<u8>| (exists|j: int| 0 <= j < i + 1 && !held@[j] && #[trigger] referenced@[j]@ == h)
                    implies key_views(wanted@).contains(h) by {
                    let j = choose|j: int| 0 <= j < i + 1 && !held@[j] && #[trigger] referenced@[j]@ == h;
                    if j < i {
                        assert(key_views(w0).contains(h));
                        let k = choose|k: int| 0 <= k < w0.len() && key_views(w0)[k] == h;
                        assert(key_views(wanted@)[k] == h);
                    } else {
                        assert(key_views(wanted@)[w0.len() as int] == h);
                    }
                }
            }
        } else {
            proof {
                assert forall|h: Seq<u8>| (exists|j: int| 0 <= j < i + 1 && !held@[j] && #[trigger] referenced@[j]@ == h)
                    implies key_views(wanted@).contains(h) by {
                    let j = choose|j: int| 0 <= j < i + 1 && !held@[j] && #[trigger] referenced@[j]@ == h;
                    assert(j < i);
                }
            }
        }
        i = i + 1;
    }
    let r = sorted_unique(wanted.as_slice());
    proof {
        assert forall|h: Seq<u8>| key_views(r@).contains(h) <==> unheld(referenced@, held@, h) by {
            if unheld(referenced@, held@, h) {
                let j = choose|j: int| 0 <= j < referenced@.len() && !held@[j] && #[trigger] referenced@[j]@ == h;
                assert(exists|j: int| 0 <= j < i && !held@[j] && #[trigger] referenced@[j]@ == h);
            }
        }
    }
    r
}

/// The first chunk of a write that is not held here (`held[i]` tells whether the
/// `i`-th is in the local store), the one a parked write reports it waits for.
pub fn first_missing_chunk(chunks: &Vec<ChunkRef>, held: &Vec<bool>) -> (r: Option<[u8; 32]>)
    requires
        chunks@.len() == held@.len(),
    ensures
        match r {
            None => forall|i: int| 0 <= i < held@.len() ==> #[trigger] held@[i],
            Some(h) => exists|i: int|
                0 <= i < chunks@.len() && !held@[i] && chunks@[i].hash == h && forall|j: int| 0 <= j < i ==> #[trigger] held@[j],
        },
{
    let mut i: usize = 0;
    while i < chunks.len()
        invariant
            i <= chunks@.len(),
            chunks@.len() == held@.len(),
            forall|j: int| 0 <= j < i ==> #[trigger] held@[j],
        decreases chunks@.len() - i,
    {
        if !held[i] {
            return Some(chunks[i].hash);
        }
        i = i + 1;
    }
    None
}

/// What recovering a file key from its sealed form gives under `repo_key`: the 24-byte
/// nonce, then the ciphertext of a 32-byte key.
pub open spec fn file_key_opening(repo_key: Seq<u8>, sealed: Seq<u8>) -> Result<Seq<u8>, CipherError> {
    if sealed.len() < 24 {
        Err(CipherError::Truncated)
    } else {
        match xchacha_open_of(repo_key, sealed.subrange(0, 24), Seq::empty(), sealed.subrange(24, sealed.len() as int)) {
            None => Err(CipherError::Unauthentic),
            Some(p) => if p.len() == 32 {
                Ok(p)
            } else {
                Err(CipherError::WrongKeyLength)
            },
        }
    }
}

/// The repository key a node holds, if it has one.
pub open spec fn cipher_key(cipher: Option<&RepoCipher>) -> Option<Seq<u8>> {
    match cipher {
        Some(c) => Some(c.key_view()),
        None => None,
    }
}

/// Reading a file node back: its file key recovered first when it is encrypted, then
/// its chunks reassembled.
pub open spec fn materialize_spec(file: FileNode, repo_key: Option<Seq<u8>>, stored: Seq<Option<Seq<u8>>>) -> Result<Seq<u8>, ReadError> {
    match encryption_view(file.encryption) {
        None => assemble_spec(file.chunks@, stored, None, file.size),
        Some(sealed) => match repo_key {
            None => Err(ReadError::NoRepositoryKey),
            Some(k) => match file_key_opening(k, sealed) {
                Err(e) => Err(ReadError::FileKey(e)),
                Ok(fk) => assemble_spec(file.chunks@, stored, Some(fk), file.size),
            },
        },
    }
}

/// Reads a file node's content from its stored chunks (`None` where a chunk is not
/// held). Whether a file is encrypted is recorded on the file, not the node, so a
/// node reads its older plaintext files unchanged after enabling encryption; an
/// encrypted file on a node with no repository key is refused.
pub fn materialize_file(file: &FileNode, cipher: Option<&RepoCipher>, stored: &Vec<Option<Vec<u8>>>) -> (r: Result<Vec<u8>, ReadError>)
    requires
        file.chunks@.len() == stored@.len(),
    ensures
        match r {
            Ok(v) => materialize_spec(*file, cipher_key(cipher), stored_views(stored@)) == Ok::<Seq<u8>, ReadError>(v@),
            Err(e) => materialize_spec(*file, cipher_key(cipher), stored_views(stored@)) == Err::<Seq<u8>, ReadError>(e),
        },
{
    let file_key = match &file.encryption {
        None => None,
        Some(info) => match cipher {
            None => {
                return Err(ReadError::NoRepositoryKey);
            },
            Some(c) => match c.open_file_key(info.sealed_key.as_slice()) {
                Ok(k) => Some(k),
                Err(e) => {
                    return Err(ReadError::FileKey(e));
                },
            },
        },
    };
    assemble_file(&file.chunks, stored, file_key, file.size)
}

// --- admitting an operation --------------------------------------------------------

/// What may be done with an operation that passed its checks.
#[derive(Debug, Clone, Copy, PartialEq, Eq, Structural)]
pub enum OpAdmit {
    /// Apply it.
    Apply,
    /// It was applied before; applying again changes nothing.
    AlreadyApplied,
}

/// Why an operation was refused before anything of it was stored.
#[derive(Debug, Clone, Copy, PartialEq, Eq, Structural)]
pub enum OpRefusal {
    /// It carries no signature.
    Unsigned,
    /// Its signature does not verify under its author's key.
    BadSignature(SignatureError),
    /// Its proof does not satisfy the local policy.
    Proof(ProofRejection),
}

/// The verdict on an incoming operation, in the order the checks run.
pub open spec fn admit_spec(
    author: Seq<u8>,
    signed: Seq<u8>,
    sig: Seq<u8>,
    check_policy: bool,
    policy: ProofPolicy,
    evidence: ProofEvidence,
    applied: bool,
) -> Result<OpAdmit, OpRefusal> {
    if sig.len() == 0 {
        Err(OpRefusal::Unsigned)
    } else {
        match verify_spec(author, signed, sig) {
            Err(e) => Err(OpRefusal::BadSignature(e)),
            Ok(_) => if check_policy && proof_verdict(policy, evidence) is Err {
                Err(OpRefusal::Proof(proof_verdict(policy, evidence)->Err_0))
            } else if applied {
                Ok(OpAdmit::AlreadyApplied)
            } else {
                Ok(OpAdmit::Apply)
            },
        }
    }
}

/// Checks an incoming operation before anything of it is stored: its signature over
/// `signed` (its signing bytes) under its author's key first, then, unless the caller
/// is applying its own provisional operation, its proof against `policy`; an operation
/// that passes and was `applied` before is reported so rather than applied again.
///
/// Nothing is admitted unless its signature verifies.
pub fn admit_op(
    author: &[u8; 32],
    signed: &[u8],
    sig: &[u8],
    check_policy: bool,
    policy: ProofPolicy,
    evidence: ProofEvidence,
    applied: bool,
) -> (r: Result<OpAdmit, OpRefusal>)
    ensures
        r == admit_spec(author@, signed@, sig@, check_policy, policy, evidence, applied),
        r is Ok ==> sig@.len() == 64 && ed25519_accepts_of(author@, signed@, sig@),
{
    if sig.len() == 0 {
        return Err(OpRefusal::Unsigned);
    }
    match verify(author, signed, sig) {
        Err(e) => {
            return Err(OpRefusal::BadSignature(e));
        },
        Ok(()) => {},
    }
    if check_policy {
        match check_proof(policy, evidence) {
            Err(rej) => {
                return Err(OpRefusal::Proof(rej));
            },
            Ok(()) => {},
        }
    }
    if applied {
        Ok(OpAdmit::AlreadyApplied)
    } else {
        Ok(OpAdmit::Apply)
    }
}

} // verus!
