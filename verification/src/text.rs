//! Character-level helpers shared by the parsers and formatters.

use vstd::prelude::*;

verus! {

/// Appends one character to a string.
///
/// Calls `String::push`, which std documents as appending the character to the end
/// of the string; the contract states exactly that over the character views.
#[verifier::external_body]
pub(crate) fn push_char(s: &mut String, c: char)
    ensures
        final(s)@ == old(s)@.push(c),
{
    s.push(c);
}

/// The lower-case hexadecimal digit for `d` (`d < 16`).
pub open spec fn hex_digit(d: nat) -> char {
    if d < 10 {
        ('0' as nat + d) as char
    } else {
        ('a' as nat + (d - 10)) as char
    }
}

/// The decimal digit for `d` (`d < 10`).
pub open spec fn dec_digit(d: nat) -> char {
    ('0' as nat + d) as char
}

/// `v` written in exactly `width` lower-case hex digits, most significant first,
/// keeping only the low `width` digits.
pub open spec fn hex_fixed(v: nat, width: nat) -> Seq<char>
    decreases width,
{
    if width == 0 {
        Seq::empty()
    } else {
        hex_fixed(v / 16, (width - 1) as nat).push(hex_digit(v % 16))
    }
}

/// `v` written in decimal without leading zeros (`"0"` for zero).
pub open spec fn dec_string(v: nat) -> Seq<char>
    decreases v,
{
    if v < 10 {
        seq![dec_digit(v)]
    } else {
        dec_string(v / 10).push(dec_digit(v % 10))
    }
}

fn hex_char(d: u64) -> (c: char)
    requires
        d < 16,
    ensures
        c == hex_digit(d as nat),
{
    if d < 10 {
        ((48 + d) as u8) as char
    } else {
        ((97 + (d - 10)) as u8) as char
    }
}

fn dec_char(d: u64) -> (c: char)
    requires
        d < 10,
    ensures
        c == dec_digit(d as nat),
{
    ((48 + d) as u8) as char
}

/// Appends the low `width` hex digits of `v`, most significant first.
pub fn push_hex_fixed(s: &mut String, v: u64, width: u64)
    ensures
        final(s)@ == old(s)@ + hex_fixed(v as nat, width as nat),
    decreases width,
{
    if width > 0 {
        push_hex_fixed(s, v / 16, width - 1);
        let c = hex_char(v % 16);
        push_char(s, c);
        proof {
            assert(s@ =~= old(s)@ + hex_fixed(v as nat, width as nat));
        }
    } else {
        assert(s@ =~= old(s)@ + hex_fixed(v as nat, width as nat));
    }
}

/// Appends `v` in decimal.
pub fn push_decimal(s: &mut String, v: u64)
    ensures
        final(s)@ == old(s)@ + dec_string(v as nat),
    decreases v,
{
    if v >= 10 {
        push_decimal(s, v / 10);
    }
    let c = dec_char(v % 10);
    push_char(s, c);
    assert(s@ =~= old(s)@ + dec_string(v as nat));
}

/// `v` in lower-case hex without leading zeros (`"0"` for zero), as `{:x}` writes it.
pub open spec fn hex_string(v: nat) -> Seq<char>
    decreases v,
{
    if v < 16 {
        seq![hex_digit(v)]
    } else {
        hex_string(v / 16).push(hex_digit(v % 16))
    }
}

/// Appends `v` in lower-case hex without leading zeros.
pub fn push_hex(s: &mut String, v: u128)
    ensures
        final(s)@ == old(s)@ + hex_string(v as nat),
    decreases v,
{
    if v >= 16 {
        push_hex(s, v / 16);
    }
    let c = hex_char((v % 16) as u64);
    push_char(s, c);
    assert(s@ =~= old(s)@ + hex_string(v as nat));
}

/// `v` in decimal, with a leading `-` when negative.
pub open spec fn int_string(v: int) -> Seq<char> {
    if v < 0 {
        seq!['-'] + dec_string((-v) as nat)
    } else {
        dec_string(v as nat)
    }
}

/// Appends `v` in decimal, signed.
pub fn push_signed(s: &mut String, v: i64)
    ensures
        final(s)@ == old(s)@ + int_string(v as int),
{
    if v < 0 {
        push_char(s, '-');
        let mag: u64 = if v == i64::MIN {
            0x8000_0000_0000_0000u64
        } else {
            (-v) as u64
        };
        push_decimal(s, mag);
        assert(s@ =~= old(s)@ + int_string(v as int));
    } else {
        push_decimal(s, v as u64);
    }
}

/// Strict lexicographic order on character sequences: the order `str` compares by.
pub open spec fn seq_lex_lt(a: Seq<char>, b: Seq<char>) -> bool
    decreases a.len(),
{
    if a.len() == 0 {
        b.len() > 0
    } else if b.len() == 0 {
        false
    } else if (a[0] as int) < (b[0] as int) {
        true
    } else if a[0] == b[0] {
        seq_lex_lt(a.drop_first(), b.drop_first())
    } else {
        false
    }
}

pub proof fn lemma_lex_irreflexive(a: Seq<char>)
    ensures
        !seq_lex_lt(a, a),
    decreases a.len(),
{
    if a.len() > 0 {
        lemma_lex_irreflexive(a.drop_first());
    }
}

pub proof fn lemma_lex_transitive(a: Seq<char>, b: Seq<char>, c: Seq<char>)
    requires
        seq_lex_lt(a, b),
        seq_lex_lt(b, c),
    ensures
        seq_lex_lt(a, c),
    decreases a.len(),
{
    if a.len() > 0 && b.len() > 0 && c.len() > 0 && a[0] == b[0] && b[0] == c[0] {
        lemma_lex_transitive(a.drop_first(), b.drop_first(), c.drop_first());
    }
}

pub proof fn lemma_lex_total(a: Seq<char>, b: Seq<char>)
    ensures
        seq_lex_lt(a, b) || seq_lex_lt(b, a) || a == b,
    decreases a.len(),
{
    if a.len() > 0 && b.len() > 0 && a[0] == b[0] {
        lemma_lex_total(a.drop_first(), b.drop_first());
        if a.drop_first() == b.drop_first() {
            assert(a =~= seq![a[0]] + a.drop_first());
            assert(b =~= seq![b[0]] + b.drop_first());
        }
    } else if a.len() == 0 && b.len() == 0 {
        assert(a =~= b);
    } else if a.len() > 0 && b.len() > 0 {
        assert((a[0] as int) != (b[0] as int));
    }
}

/// Dropping a common prefix does not change how two sequences compare.
pub proof fn lemma_lex_skip(a: Seq<char>, b: Seq<char>, i: int)
    requires
        0 <= i <= a.len(),
        i <= b.len(),
        a.subrange(0, i) == b.subrange(0, i),
    ensures
        seq_lex_lt(a, b) == seq_lex_lt(a.skip(i), b.skip(i)),
    decreases i,
{
    if i > 0 {
        assert(a[0] == a.subrange(0, i)[0]);
        assert(b[0] == b.subrange(0, i)[0]);
        assert(a.drop_first().subrange(0, i - 1) =~= a.subrange(0, i).drop_first());
        assert(b.drop_first().subrange(0, i - 1) =~= b.subrange(0, i).drop_first());
        lemma_lex_skip(a.drop_first(), b.drop_first(), i - 1);
        assert(a.drop_first().skip(i - 1) =~= a.skip(i));
        assert(b.drop_first().skip(i - 1) =~= b.skip(i));
    } else {
        assert(a.skip(0) =~= a);
        assert(b.skip(0) =~= b);
    }
}

/// Compares two strings character by character.
pub fn compare_chars(a: &str, b: &str) -> (o: crate::ordkey::KeyOrder)
    ensures
        (o == crate::ordkey::KeyOrder::Less) == seq_lex_lt(a@, b@),
        (o == crate::ordkey::KeyOrder::Equal) == (a@ == b@),
        (o == crate::ordkey::KeyOrder::Greater) == seq_lex_lt(b@, a@),
{
    let la = a.unicode_len();
    let lb = b.unicode_len();
    let mut i: usize = 0;
    proof {
        lemma_lex_irreflexive(a@);
        lemma_lex_total(a@, b@);
        if seq_lex_lt(a@, b@) && seq_lex_lt(b@, a@) {
            lemma_lex_transitive(a@, b@, a@);
        }
    }
    while i < la && i < lb
        invariant
            la == a@.len(),
            lb == b@.len(),
            i <= la,
            i <= lb,
            a@.subrange(0, i as int) == b@.subrange(0, i as int),
        decreases la - i,
    {
        let ca = a.get_char(i);
        let cb = b.get_char(i);
        if ca != cb {
            proof {
                lemma_lex_skip(a@, b@, i as int);
                lemma_lex_skip(b@, a@, i as int);
                assert(a@.skip(i as int)[0] == ca);
                assert(b@.skip(i as int)[0] == cb);
                assert(a@ != b@);
            }
            if (ca as u32) < (cb as u32) {
                return crate::ordkey::KeyOrder::Less;
            } else {
                return crate::ordkey::KeyOrder::Greater;
            }
        }
        assert(a@.subrange(0, i + 1) =~= a@.subrange(0, i as int).push(ca));
        assert(b@.subrange(0, i + 1) =~= b@.subrange(0, i as int).push(cb));
        i = i + 1;
    }
    proof {
        lemma_lex_skip(a@, b@, i as int);
        lemma_lex_skip(b@, a@, i as int);
    }
    if la == lb {
        assert(a@ =~= a@.subrange(0, i as int));
        assert(b@ =~= b@.subrange(0, i as int));
        crate::ordkey::KeyOrder::Equal
    } else if la < lb {
        assert(a@ != b@);
        crate::ordkey::KeyOrder::Less
    } else {
        assert(a@ != b@);
        crate::ordkey::KeyOrder::Greater
    }
}

} // verus!
