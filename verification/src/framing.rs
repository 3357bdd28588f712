//! Message framing on a replication stream: each message is its length as four
//! little-endian bytes, then the message.

use vstd::prelude::*;

verus! {

/// The four little-endian bytes of `x`.
pub open spec fn le32(x: u32) -> Seq<u8> {
    seq![(x & 0xff) as u8, ((x >> 8) & 0xff) as u8, ((x >> 16) & 0xff) as u8, ((x >> 24) & 0xff) as u8]
}

/// The number four little-endian bytes spell.
pub open spec fn le32_value(b0: u8, b1: u8, b2: u8, b3: u8) -> u32 {
    (b0 as u32) | ((b1 as u32) << 8) | ((b2 as u32) << 16) | ((b3 as u32) << 24)
}

/// A length written as a header reads back as that length.
pub proof fn lemma_header_round_trip(x: u32)
    ensures
        le32_value(le32(x)[0], le32(x)[1], le32(x)[2], le32(x)[3]) == x,
{
    let b0 = (x & 0xff) as u8;
    let b1 = ((x >> 8) & 0xff) as u8;
    let b2 = ((x >> 16) & 0xff) as u8;
    let b3 = ((x >> 24) & 0xff) as u8;
    assert((b0 as u32) | ((b1 as u32) << 8) | ((b2 as u32) << 16) | ((b3 as u32) << 24) == x) by (bit_vector)
        requires
            b0 == (x & 0xff) as u8,
            b1 == ((x >> 8) & 0xff) as u8,
            b2 == ((x >> 16) & 0xff) as u8,
            b3 == ((x >> 24) & 0xff) as u8,
    ;
}

/// Frames `payload`: its length (taken as 32 bits) in four little-endian bytes, then
/// the payload.
pub fn frame(payload: &[u8]) -> (f: Vec<u8>)
    ensures
        f@ == le32(payload@.len() as u32) + payload@,
{
    let n: u32 = #[verifier::truncate] (payload.len() as u32);
    let mut f: Vec<u8> = Vec::new();
    f.push((n & 0xff) as u8);
    f.push(((n >> 8) & 0xff) as u8);
    f.push(((n >> 16) & 0xff) as u8);
    f.push(((n >> 24) & 0xff) as u8);
    let mut i: usize = 0;
    let ghost head = f@;
    assert(head =~= le32(payload@.len() as u32));
    while i < payload.len()
        invariant
            i <= payload@.len(),
            head == le32(payload@.len() as u32),
            f@ == head + payload@.subrange(0, i as int),
        decreases payload@.len() - i,
    {
        f.push(payload[i]);
        i = i + 1;
        assert(f@ =~= head + payload@.subrange(0, i as int));
    }
    assert(payload@.subrange(0, i as int) =~= payload@);
    f
}

/// Why a frame was refused.
#[derive(Debug, Clone, Copy, PartialEq, Eq, Structural)]
pub enum FrameError {
    /// The header announces more than the reader accepts.
    TooLarge { len: usize, max: usize },
}

/// The payload length a frame header announces, refused when it passes `max_len`.
pub fn frame_length(header: [u8; 4], max_len: usize) -> (r: Result<usize, FrameError>)
    ensures
        ({
            let len = le32_value(header@[0], header@[1], header@[2], header@[3]);
            if len > max_len {
                r == Err::<usize, FrameError>(FrameError::TooLarge { len: len as usize, max: max_len })
            } else {
                r == Ok::<usize, FrameError>(len as usize)
            }
        }),
{
    let len: u32 = (header[0] as u32) | ((header[1] as u32) << 8) | ((header[2] as u32) << 16) | ((header[3] as u32) << 24);
    if len as u64 > max_len as u64 {
        Err(FrameError::TooLarge { len: len as usize, max: max_len })
    } else {
        Ok(len as usize)
    }
}

} // verus!
