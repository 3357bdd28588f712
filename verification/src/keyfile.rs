//! The repository key as it is kept on disk: 32 bytes in hexadecimal.

use vstd::prelude::*;
use crate::scan::{chars_of, trim, trim_bounds};
use crate::text::{hex_fixed, push_hex_fixed};

verus! {

/// The value of a hexadecimal digit, either case.
pub open spec fn hex_nibble(c: char) -> Option<nat> {
    let n = c as nat;
    if 48 <= n <= 57 {
        Some((n - 48) as nat)
    } else if 97 <= n <= 102 {
        Some((n - 87) as nat)
    } else if 65 <= n <= 70 {
        Some((n - 55) as nat)
    } else {
        None
    }
}

/// The bytes a hexadecimal text spells, two digits a byte, or nothing when its length
/// is odd or a character is not a digit.
pub open spec fn hex_bytes(s: Seq<char>) -> Option<Seq<u8>>
    decreases s.len(),
{
    if s.len() == 0 {
        Some(Seq::empty())
    } else if s.len() % 2 == 1 {
        None
    } else {
        match (hex_bytes(s.subrange(0, s.len() - 2)), hex_nibble(s[s.len() - 2]), hex_nibble(s[s.len() - 1])) {
            (Some(front), Some(h), Some(l)) => Some(front.push((h * 16 + l) as u8)),
            _ => None,
        }
    }
}

/// Why a stored repository key could not be read.
#[derive(Debug, Clone, Copy, PartialEq, Eq, Structural)]
pub enum RepoKeyError {
    /// The text is not hexadecimal.
    NotHex,
    /// The key is not 32 bytes.
    WrongLength,
}

/// What reading a repository key file gives.
pub open spec fn repo_key_spec(text: Seq<char>) -> Result<Seq<u8>, RepoKeyError> {
    match hex_bytes(trim(text)) {
        None => Err(RepoKeyError::NotHex),
        Some(b) => if b.len() == 32 {
            Ok(b)
        } else {
            Err(RepoKeyError::WrongLength)
        },
    }
}

fn nibble(c: char) -> (r: Option<u8>)
    ensures
        match r {
            Some(v) => hex_nibble(c) == Some(v as nat),
            None => hex_nibble(c) is None,
        },
{
    let n = c as u32;
    if 48 <= n && n <= 57 {
        Some((n - 48) as u8)
    } else if 97 <= n && n <= 102 {
        Some((n - 87) as u8)
    } else if 65 <= n && n <= 70 {
        Some((n - 55) as u8)
    } else {
        None
    }
}

/// Once a prefix fails to decode, every longer even-length prefix fails too.
proof fn lemma_hex_failure_sticks(s: Seq<char>, k: int, m: int)
    requires
        0 <= k <= m <= s.len(),
        k % 2 == 0,
        m % 2 == 0,
        hex_bytes(s.subrange(0, k)) is None,
    ensures
        hex_bytes(s.subrange(0, m)) is None,
    decreases m - k,
{
    if k < m {
        lemma_hex_failure_sticks(s, k, m - 2);
        assert(s.subrange(0, m).subrange(0, m - 2) =~= s.subrange(0, m - 2));
    }
}

/// Reads a repository key from the text of its file: 64 hexadecimal digits, either
/// case, with surrounding whitespace ignored.
pub fn decode_repo_key(text: &str) -> (r: Result<[u8; 32], RepoKeyError>)
    ensures
        match r {
            Ok(k) => repo_key_spec(text@) == Ok::<Seq<u8>, RepoKeyError>(k@),
            Err(e) => repo_key_spec(text@) == Err::<Seq<u8>, RepoKeyError>(e),
        },
{
    let v = chars_of(text);
    let (a, b) = trim_bounds(&v, 0, v.len());
    assert(v@.subrange(0, v@.len() as int) =~= text@);
    let ghost t = v@.subrange(a as int, b as int);
    if (b - a) % 2 == 1 {
        return Err(RepoKeyError::NotHex);
    }
    let mut out: Vec<u8> = Vec::new();
    let mut i: usize = a;
    assert(t.subrange(0, 0) =~= Seq::<char>::empty());
    while i < b
        invariant
            a <= i <= b <= v@.len(),
            t == v@.subrange(a as int, b as int),
            t == trim(text@),
            (i - a) % 2 == 0,
            (b - a) % 2 == 0,
            hex_bytes(t.subrange(0, i - a)) == Some(out@),
        decreases b - i,
    {
        let k = (i - a) + 2;
        let ghost pre = t.subrange(0, k as int);
        proof {
            assert(pre.subrange(0, pre.len() - 2) =~= t.subrange(0, i - a));
            assert(pre[pre.len() - 2] == v@[i as int]);
            assert(pre[pre.len() - 1] == v@[i + 1]);
        }
        let hi = nibble(v[i]);
        let lo = nibble(v[i + 1]);
        match (hi, lo) {
            (Some(h), Some(l)) => {
                out.push(h * 16 + l);
                i = i + 2;
            },
            _ => {
                proof {
                    assert(pre.len() % 2 == 0);
                    assert(hex_bytes(pre) is None);
                    lemma_hex_failure_sticks(t, k as int, t.len() as int);
                    assert(t.subrange(0, t.len() as int) =~= t);
                }
                return Err(RepoKeyError::NotHex);
            },
        }
    }
    assert(t.subrange(0, b - a) =~= t);
    if out.len() != 32 {
        return Err(RepoKeyError::WrongLength);
    }
    let mut key: [u8; 32] = [0u8; 32];
    let mut j: usize = 0;
    while j < 32
        invariant
            j <= 32,
            out@.len() == 32,
            key@.len() == 32,
            forall|m: int| 0 <= m < j ==> key@[m] == out@[m],
        decreases 32 - j,
    {
        key.set(j, out[j]);
        j = j + 1;
    }
    assert(key@ =~= out@);
    Ok(key)
}

/// The hexadecimal spelling of `bytes`, two lower-case digits a byte.
pub open spec fn hex_text(bytes: Seq<u8>) -> Seq<char>
    decreases bytes.len(),
{
    if bytes.len() == 0 {
        Seq::empty()
    } else {
        hex_text(bytes.drop_last()) + hex_fixed(bytes.last() as nat, 2)
    }
}

/// The text a repository key file holds for `key`.
pub fn encode_repo_key(key: &[u8; 32]) -> (s: String)
    ensures
        s@ == hex_text(key@),
{
    let mut s = String::new();
    let mut i: usize = 0;
    assert(key@.subrange(0, 0) =~= Seq::<u8>::empty());
    while i < 32
        invariant
            i <= 32,
            key@.len() == 32,
            s@ == hex_text(key@.subrange(0, i as int)),
        decreases 32 - i,
    {
        push_hex_fixed(&mut s, key[i] as u64, 2);
        proof {
            assert(key@.subrange(0, i + 1).drop_last() =~= key@.subrange(0, i as int));
        }
        i = i + 1;
    }
    assert(key@.subrange(0, 32) =~= key@);
    s
}

/// Two digits written for a byte read back as that byte.
proof fn lemma_byte_digits(b: u8)
    ensures
        hex_fixed(b as nat, 2).len() == 2,
        hex_nibble(hex_fixed(b as nat, 2)[0]) == Some((b / 16) as nat),
        hex_nibble(hex_fixed(b as nat, 2)[1]) == Some((b % 16) as nat),
{
    reveal_with_fuel(hex_fixed, 3);
    let hi = (b as nat / 16) % 16;
    assert(hi == b / 16);
}

/// A key written out reads back as the same key.
pub proof fn lemma_repo_key_round_trip(bytes: Seq<u8>)
    ensures
        hex_bytes(hex_text(bytes)) == Some(bytes),
    decreases bytes.len(),
{
    if bytes.len() > 0 {
        let front = bytes.drop_last();
        let b = bytes.last();
        lemma_repo_key_round_trip(front);
        lemma_byte_digits(b);
        lemma_hex_text_len(front);
        let s = hex_text(bytes);
        assert(s == hex_text(front) + hex_fixed(b as nat, 2));
        assert(s.subrange(0, s.len() - 2) =~= hex_text(front));
        assert(s[s.len() - 2] == hex_fixed(b as nat, 2)[0]);
        assert(s[s.len() - 1] == hex_fixed(b as nat, 2)[1]);
        assert(((b / 16) * 16 + b % 16) as u8 == b);
        assert(front.push(b) =~= bytes);
    } else {
        assert(hex_text(bytes) =~= Seq::<char>::empty());
    }
}

proof fn lemma_hex_text_len(bytes: Seq<u8>)
    ensures
        hex_text(bytes).len() == 2 * bytes.len(),
    decreases bytes.len(),
{
    if bytes.len() > 0 {
        lemma_hex_text_len(bytes.drop_last());
        lemma_byte_digits(bytes.last());
    }
}

} // verus!
