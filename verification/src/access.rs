//! The one read failure that is not the server's fault.

use vstd::prelude::*;
use crate::text::{dec_string, push_decimal};
use vstd::string::StringSliceAdditionalSpecFns;

verus! {

/// This node holds the file and every envelope on it, and none of them are addressed to
/// it.
///
/// Typed rather than a plain message because the facades have to tell it apart from a
/// genuine failure: "you may not read this" is a refusal, not a sign that the daemon is
/// broken.
#[derive(Debug, Clone, Copy, PartialEq, Eq, Structural)]
pub struct NotARecipient {
    /// How many envelopes the file carries, none of which opened.
    pub envelopes: usize,
}

/// The text reporting a refusal over `envelopes` envelopes.
pub open spec fn not_a_recipient_text(envelopes: nat) -> Seq<char> {
    "this node is not a recipient of this file: "@ + dec_string(envelopes)
        + " envelope(s), none of which open with this device's sealing key"@
}

impl NotARecipient {
    /// The operator-facing explanation.
    pub fn message(&self) -> (s: String)
        ensures
            s@ == not_a_recipient_text(self.envelopes as nat),
    {
        let head = "this node is not a recipient of this file: ";
        let tail = " envelope(s), none of which open with this device's sealing key";
        proof {
            reveal_strlit("this node is not a recipient of this file: ");
            reveal_strlit(" envelope(s), none of which open with this device's sealing key");
        }
        let mut out = String::from_str(head);
        push_decimal(&mut out, self.envelopes as u64);
        out.append(tail);
        assert(out@ =~= not_a_recipient_text(self.envelopes as nat));
        out
    }
}

/// Compares two secrets without leaking their common prefix through timing: every
/// pair of bytes is looked at, whichever differ. Secrets of different lengths differ.
pub fn constant_time_eq(a: &[u8], b: &[u8]) -> (r: bool)
    ensures
        r == (a@ == b@),
{
    if a.len() != b.len() {
        return false;
    }
    let mut diff: u8 = 0;
    let mut i: usize = 0;
    while i < a.len()
        invariant
            i <= a@.len(),
            a@.len() == b@.len(),
            (diff == 0) == (forall|j: int| 0 <= j < i ==> a@[j] == b@[j]),
        decreases a@.len() - i,
    {
        let x = a[i];
        let y = b[i];
        assert(((diff | (x ^ y)) == 0) == (diff == 0 && x == y)) by (bit_vector);
        diff = diff | (x ^ y);
        i = i + 1;
    }
    if diff == 0 {
        assert(a@ =~= b@);
    }
    diff == 0
}

/// Whether a request carrying `presented` (its token header, when it has one) may use
/// the console: an empty expected token admits everyone, as in development; otherwise
/// the header must be exactly the token.
pub fn token_admits(presented: Option<&str>, expected: &str) -> (r: bool)
    ensures
        r == (expected@.len() == 0 || (presented matches Some(t) && t@ == expected@)),
{
    if expected.is_empty() {
        return true;
    }
    match presented {
        None => false,
        Some(t) => {
            let same = constant_time_eq(t.as_bytes(), expected.as_bytes());
            proof {
                vstd::utf8::encode_utf8_decode_utf8(t@);
                vstd::utf8::encode_utf8_decode_utf8(expected@);
            }
            same
        },
    }
}

} // verus!
