//! How much room is left where the store lives, read from `df -Pk`.
//!
//! Disk is not a tradeoff like battery, heat or link cost: bytes cannot be stored where
//! there is no room. As everywhere in the energy rules, an unreadable source yields
//! `None` and never a zero: "we could not ask" and "there is no space" are different
//! answers. Running `df` happens outside this module; reading its output is here.

use vstd::prelude::*;
use crate::scan::{
    chars_of, line_bounds, word_bounds, trim_bounds, parse_unsigned_range, lines_of, words_of,
    trim, all_digits, is_digit, parse_unsigned,
};

verus! {

/// The capacity column: one or more ASCII digits followed by `%`.
pub open spec fn is_capacity(c: Seq<char>) -> bool {
    c.len() > 1 && c.last() == '%' && all_digits(c.drop_last())
}

/// The index of the first capacity column at or after `i`.
pub open spec fn capacity_from(cols: Seq<Seq<char>>, i: nat) -> Option<nat>
    decreases cols.len() - i,
{
    if i >= cols.len() {
        None
    } else if is_capacity(cols[i as int]) {
        Some(i)
    } else {
        capacity_from(cols, i + 1)
    }
}

/// The last line of `ls` that is not blank once trimmed.
pub open spec fn last_nonblank(ls: Seq<Seq<char>>) -> Option<Seq<char>>
    decreases ls.len(),
{
    if ls.len() == 0 {
        None
    } else if trim(ls.last()).len() > 0 {
        Some(ls.last())
    } else {
        last_nonblank(ls.drop_last())
    }
}

/// The "Available" column of `df -Pk` output: on the last non-blank line, the column
/// just before the first capacity column, parsed as a `u64`.
pub open spec fn df_available_spec(out: Seq<char>) -> Option<nat> {
    match last_nonblank(lines_of(out)) {
        None => None,
        Some(line) => {
            let cols = words_of(line);
            match capacity_from(cols, 0) {
                None => None,
                Some(i) => if i == 0 {
                    None
                } else {
                    parse_unsigned(cols[i - 1], u64::MAX as nat)
                },
            }
        },
    }
}

/// Whether `v[a..b]` is a capacity column.
fn capacity_at(v: &Vec<char>, a: usize, b: usize) -> (r: bool)
    requires
        a <= b <= v@.len(),
    ensures
        r == is_capacity(v@.subrange(a as int, b as int)),
{
    let ghost c = v@.subrange(a as int, b as int);
    if b - a <= 1 || v[b - 1] != '%' {
        return false;
    }
    let mut i = a;
    while i < b - 1
        invariant
            a <= i <= b - 1,
            b <= v@.len(),
            c == v@.subrange(a as int, b as int),
            forall|j: int| a <= j < i ==> is_digit(#[trigger] v@[j]),
        decreases b - 1 - i,
    {
        let ch = v[i];
        if !('0' <= ch && ch <= '9') {
            assert(c.drop_last()[i - a] == ch);
            assert(!all_digits(c.drop_last()));
            return false;
        }
        i = i + 1;
    }
    assert forall|j: int| 0 <= j < c.drop_last().len() implies is_digit(#[trigger] c.drop_last()[j]) by {
        assert(c.drop_last()[j] == v@[a + j]);
    }
    true
}

/// Read the "Available" column out of `df -Pk` output.
///
/// Located by the capacity column rather than by position: the filesystem name and
/// the mount point can both contain spaces, so counting fields from either end is
/// wrong. Capacity is the only purely numeric field ending in `%`, and available is
/// always the field before it. The last non-blank line is read, so a header or a
/// warning line cannot be mistaken for data.
pub fn parse_df_available_kb(out: &str) -> (r: Option<u64>)
    ensures
        match r {
            None => df_available_spec(out@) is None,
            Some(kb) => df_available_spec(out@) == Some(kb as nat),
        },
{
    let v = chars_of(out);
    let lines = line_bounds(&v);
    let ghost ls = lines_of(v@);
    let mut k = lines.len();
    let mut found: Option<(usize, usize)> = None;
    assert(ls.subrange(0, k as int) =~= ls);
    while k > 0
        invariant_except_break
            found is None,
        invariant
            k <= lines@.len(),
            lines@.len() == ls.len(),
            forall|i: int| 0 <= i < lines@.len() ==> (#[trigger] lines@[i]).0 <= lines@[i].1 <= v@.len()
                && v@.subrange(lines@[i].0 as int, lines@[i].1 as int) == ls[i],
            last_nonblank(ls) == last_nonblank(ls.subrange(0, k as int)),
        ensures
            match found {
                None => last_nonblank(ls) is None,
                Some((a, b)) => a <= b <= v@.len() && last_nonblank(ls) == Some(v@.subrange(a as int, b as int)),
            },
        decreases k,
    {
        let (la, lb) = lines[k - 1];
        assert(lines@[k - 1].0 <= lines@[k - 1].1);
        let (ta, tb) = trim_bounds(&v, la, lb);
        let ghost pre = ls.subrange(0, k as int);
        assert(pre.last() == ls[k - 1]);
        assert(pre.drop_last() =~= ls.subrange(0, k - 1));
        if ta < tb {
            found = Some((la, lb));
            break;
        }
        k = k - 1;
    }
    let (la, lb) = match found {
        None => {
            return None;
        },
        Some(p) => p,
    };
    let cols = word_bounds(&v, la, lb);
    let ghost cs = words_of(v@.subrange(la as int, lb as int));
    let mut i: usize = 0;
    assert(last_nonblank(lines_of(out@)) == Some(v@.subrange(la as int, lb as int)));
    while i < cols.len()
        invariant
            la <= lb <= v@.len(),
            last_nonblank(lines_of(out@)) == Some(v@.subrange(la as int, lb as int)),
            cs == words_of(v@.subrange(la as int, lb as int)),
            i <= cols@.len(),
            cols@.len() == cs.len(),
            forall|j: int| 0 <= j < cols@.len() ==> (#[trigger] cols@[j]).0 <= cols@[j].1 <= v@.len()
                && v@.subrange(cols@[j].0 as int, cols@[j].1 as int) == cs[j],
            capacity_from(cs, 0) == capacity_from(cs, i as nat),
        decreases cols@.len() - i,
    {
        let (a, b) = cols[i];
        assert(cols@[i as int].0 <= cols@[i as int].1);
        if capacity_at(&v, a, b) {
            if i == 0 {
                return None;
            }
            let (pa, pb) = cols[i - 1];
            assert(cols@[i - 1].0 <= cols@[i - 1].1);
            return parse_unsigned_range(&v, pa, pb, 0xffff_ffff_ffff_ffffu64);
        }
        i = i + 1;
    }
    None
}

/// Free bytes from `df -Pk` output: the available 1024-byte blocks, times 1024,
/// or `None` when the output has no answer or the product does not fit in a `u64`.
pub fn free_bytes_from_df(out: &str) -> (r: Option<u64>)
    ensures
        match df_available_spec(out@) {
            None => r is None,
            Some(kb) => if kb * 1024 <= u64::MAX {
                r == Some((kb * 1024) as u64)
            } else {
                r is None
            },
        },
{
    match parse_df_available_kb(out) {
        None => None,
        Some(kb) => kb.checked_mul(1024),
    }
}

} // verus!
