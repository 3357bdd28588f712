//! Deterministic conflict naming.

use vstd::prelude::*;
use crate::text::{push_char, push_decimal, push_hex_fixed, hex_fixed, dec_string, hex_digit, dec_digit};
use vstd::arithmetic::div_mod::lemma_mod_breakdown;

verus! {

/// The name every replica derives for a losing concurrent binding of `base`:
/// `base~conflict-<low 64 bits of device, 16 hex digits>-<time_ms in decimal>`.
pub open spec fn conflict_name_spec(base: Seq<char>, device_id: u128, time_ms: u64) -> Seq<char> {
    base + "~conflict-"@ + hex_fixed(device_id as nat % 0x1_0000_0000_0000_0000, 16)
        + seq!['-'] + dec_string(time_ms as nat)
}

/// Deterministic conflict naming.
///
/// Keep this stable so all replicas converge on the same filenames.
pub fn conflict_name(base: &str, device_id: u128, time_ms: u64) -> (name: String)
    ensures
        name@ == conflict_name_spec(base@, device_id, time_ms),
{
    let mut out = String::from_str(base);
    let tag = "~conflict-";
    proof {
        reveal_strlit("~conflict-");
    }
    out.append(tag);
    let low = (device_id % 0x1_0000_0000_0000_0000u128) as u64;
    push_hex_fixed(&mut out, low, 16);
    push_char(&mut out, '-');
    push_decimal(&mut out, time_ms);
    assert(out@ =~= conflict_name_spec(base@, device_id, time_ms));
    out
}

// --- reading a conflict name back ---------------------------------------------------

/// The value of a lower-case hex digit character.
pub open spec fn hex_char_value(c: char) -> int {
    if '0' <= c && c <= '9' {
        c as int - '0' as int
    } else {
        c as int - 'a' as int + 10
    }
}

/// Whether `c` is a lower-case hex digit.
pub open spec fn is_lower_hex(c: char) -> bool {
    ('0' <= c && c <= '9') || ('a' <= c && c <= 'f')
}

/// The number lower-case hex digits spell, most significant first.
pub open spec fn hex_text_value(s: Seq<char>) -> int
    decreases s.len(),
{
    if s.len() == 0 {
        0
    } else {
        hex_text_value(s.drop_last()) * 16 + hex_char_value(s.last())
    }
}

/// The number decimal digits spell, most significant first.
pub open spec fn dec_text_value(s: Seq<char>) -> int
    decreases s.len(),
{
    if s.len() == 0 {
        0
    } else {
        dec_text_value(s.drop_last()) * 10 + (s.last() as int - '0' as int)
    }
}

/// `16^n`.
pub open spec fn pow16(n: nat) -> nat
    decreases n,
{
    if n == 0 {
        1
    } else {
        16 * pow16((n - 1) as nat)
    }
}

proof fn lemma_pow16_positive(n: nat)
    ensures
        pow16(n) > 0,
    decreases n,
{
    if n > 0 {
        lemma_pow16_positive((n - 1) as nat);
    }
}

proof fn lemma_pow16_16()
    ensures
        pow16(16) == 0x1_0000_0000_0000_0000,
{
    assert(pow16(0) == 1);
    assert(pow16(1) == 16);
    assert(pow16(2) == 0x100);
    assert(pow16(3) == 0x1000);
    assert(pow16(4) == 0x1_0000);
    assert(pow16(5) == 0x10_0000);
    assert(pow16(6) == 0x100_0000);
    assert(pow16(7) == 0x1000_0000);
    assert(pow16(8) == 0x1_0000_0000);
    assert(pow16(9) == 0x10_0000_0000);
    assert(pow16(10) == 0x100_0000_0000);
    assert(pow16(11) == 0x1000_0000_0000);
    assert(pow16(12) == 0x1_0000_0000_0000);
    assert(pow16(13) == 0x10_0000_0000_0000);
    assert(pow16(14) == 0x100_0000_0000_0000);
    assert(pow16(15) == 0x1000_0000_0000_0000);
}

/// `w` hex digits of `v`, read back, give `v` modulo `16^w`, and each is a lower-case
/// hex digit.
proof fn lemma_hex_fixed_reads_back(v: nat, w: nat)
    ensures
        hex_fixed(v, w).len() == w,
        hex_text_value(hex_fixed(v, w)) == v % pow16(w),
        forall|i: int| 0 <= i < w ==> is_lower_hex(#[trigger] hex_fixed(v, w)[i]),
    decreases w,
{
    lemma_pow16_positive(w);
    if w > 0 {
        let m = (w - 1) as nat;
        lemma_hex_fixed_reads_back(v / 16, m);
        lemma_pow16_positive(m);
        let s = hex_fixed(v, w);
        let d = v % 16;
        assert(s.drop_last() =~= hex_fixed(v / 16, m));
        assert(s.last() == hex_digit(d));
        assert(hex_char_value(hex_digit(d)) == d);
        lemma_mod_breakdown(v as int, 16, pow16(m) as int);
        assert(v % pow16(w) == 16 * ((v / 16) % pow16(m)) + v % 16);
        assert forall|i: int| 0 <= i < w implies is_lower_hex(#[trigger] s[i]) by {
            if i < m {
                assert(s[i] == hex_fixed(v / 16, m)[i]);
            }
        }
    } else {
        assert(v % 1 == 0);
    }
}

/// Decimal digits of `v`, read back, give `v`.
proof fn lemma_dec_string_reads_back(v: nat)
    ensures
        dec_text_value(dec_string(v)) == v,
        dec_string(v).len() > 0,
    decreases v,
{
    if v < 10 {
        let s = dec_string(v);
        assert(s.len() == 1);
        assert(s.drop_last() =~= Seq::<char>::empty());
        assert(dec_text_value(s.drop_last()) == 0);
        assert(s.last() == dec_digit(v));
        assert(dec_digit(v) as int - '0' as int == v);
    } else {
        lemma_dec_string_reads_back(v / 10);
        let s = dec_string(v);
        assert(s.drop_last() =~= dec_string(v / 10));
        assert(s.last() == dec_digit(v % 10));
        assert(dec_digit(v % 10) as int - '0' as int == v % 10);
        assert(dec_text_value(s) == dec_text_value(dec_string(v / 10)) * 10 + (v % 10));
    }
}

/// What a conflict name says, read back: the base, the `~conflict-` tag, sixteen
/// lower-case hex digits spelling the device id modulo `2^64`, a `-`, and decimal
/// digits spelling the time. So every replica, whatever device it runs on, derives
/// the same name from the same binding.
pub proof fn lemma_conflict_name_reads_back(base: Seq<char>, device_id: u128, time_ms: u64)
    ensures
        ({
            let s = conflict_name_spec(base, device_id, time_ms);
            let n = base.len() as int;
            &&& s.len() > n + 27
            &&& s.subrange(0, n) == base
            &&& s.subrange(n, n + 10) == "~conflict-"@
            &&& forall|i: int| n + 10 <= i < n + 26 ==> is_lower_hex(#[trigger] s[i])
            &&& hex_text_value(s.subrange(n + 10, n + 26)) == device_id as int % 0x1_0000_0000_0000_0000
            &&& s[n + 26] == '-'
            &&& dec_text_value(s.subrange(n + 27, s.len() as int)) == time_ms as int
        }),
{
    reveal_strlit("~conflict-");
    let h = hex_fixed(device_id as nat % 0x1_0000_0000_0000_0000, 16);
    let t = dec_string(time_ms as nat);
    lemma_hex_fixed_reads_back(device_id as nat % 0x1_0000_0000_0000_0000, 16);
    lemma_pow16_16();
    lemma_dec_string_reads_back(time_ms as nat);
    let s = conflict_name_spec(base, device_id, time_ms);
    let n = base.len() as int;
    assert(s == base + "~conflict-"@ + h + seq!['-'] + t);
    assert(s.subrange(0, n) =~= base);
    assert(s.subrange(n, n + 10) =~= "~conflict-"@);
    assert(s.subrange(n + 10, n + 26) =~= h);
    assert(s.subrange(n + 27, s.len() as int) =~= t);
    assert forall|i: int| n + 10 <= i < n + 26 implies is_lower_hex(#[trigger] s[i]) by {
        assert(s[i] == h[i - n - 10]);
    }
    assert((device_id as nat % 0x1_0000_0000_0000_0000) % 0x1_0000_0000_0000_0000 == device_id as nat % 0x1_0000_0000_0000_0000);
}

/// Devices that differ in the low 64 bits of their ids never share a conflict name for
/// the same base.
pub proof fn lemma_conflict_names_tell_devices_apart(base: Seq<char>, d1: u128, t1: u64, d2: u128, t2: u64)
    requires
        d1 as int % 0x1_0000_0000_0000_0000 != d2 as int % 0x1_0000_0000_0000_0000,
    ensures
        conflict_name_spec(base, d1, t1) != conflict_name_spec(base, d2, t2),
{
    lemma_conflict_name_reads_back(base, d1, t1);
    lemma_conflict_name_reads_back(base, d2, t2);
    let n = base.len() as int;
    if conflict_name_spec(base, d1, t1) == conflict_name_spec(base, d2, t2) {
        assert(conflict_name_spec(base, d1, t1).subrange(n + 10, n + 26) == conflict_name_spec(base, d2, t2).subrange(n + 10, n + 26));
    }
}

} // verus!
