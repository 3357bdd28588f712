//! Line and word scanning over character sequences, as `str::lines`,
//! `str::split_whitespace` and `str::trim` do it.

use vstd::prelude::*;

verus! {

/// `char::is_whitespace`: the Unicode `White_Space` property.
pub open spec fn is_ws(c: char) -> bool {
    let n = c as u32;
    (0x9 <= n <= 0xd) || n == 0x20 || n == 0x85 || n == 0xa0 || n == 0x1680 || (0x2000 <= n <= 0x200a)
        || n == 0x2028 || n == 0x2029 || n == 0x202f || n == 0x205f || n == 0x3000
}

pub fn is_ws_exec(c: char) -> (b: bool)
    ensures
        b == is_ws(c),
{
    let n = c as u32;
    (0x9 <= n && n <= 0xd) || n == 0x20 || n == 0x85 || n == 0xa0 || n == 0x1680 || (0x2000 <= n && n
        <= 0x200a) || n == 0x2028 || n == 0x2029 || n == 0x202f || n == 0x205f || n == 0x3000
}

/// Drops a `'\r'` left at the end of a line that ended in `'\n'`.
pub open spec fn strip_cr(line: Seq<char>) -> Seq<char> {
    if line.len() > 0 && line.last() == '\r' {
        line.drop_last()
    } else {
        line
    }
}

/// The lines of `s` after the partial line `cur`: what `str::lines` yields. A line ends
/// at `'\n'` (and loses a `'\r'` just before it); a final newline starts no new line.
pub open spec fn lines_from(s: Seq<char>, cur: Seq<char>) -> Seq<Seq<char>>
    decreases s.len(),
{
    if s.len() == 0 {
        if cur.len() == 0 {
            Seq::empty()
        } else {
            seq![cur]
        }
    } else if s[0] == '\n' {
        seq![strip_cr(cur)] + lines_from(s.drop_first(), Seq::empty())
    } else {
        lines_from(s.drop_first(), cur.push(s[0]))
    }
}

pub open spec fn lines_of(s: Seq<char>) -> Seq<Seq<char>> {
    lines_from(s, Seq::empty())
}

/// The whitespace-separated words of `s` after the partial word `cur`: what
/// `str::split_whitespace` yields.
pub open spec fn words_from(s: Seq<char>, cur: Seq<char>) -> Seq<Seq<char>>
    decreases s.len(),
{
    if s.len() == 0 {
        if cur.len() == 0 {
            Seq::empty()
        } else {
            seq![cur]
        }
    } else if is_ws(s[0]) {
        (if cur.len() == 0 {
            Seq::empty()
        } else {
            seq![cur]
        }) + words_from(s.drop_first(), Seq::empty())
    } else {
        words_from(s.drop_first(), cur.push(s[0]))
    }
}

pub open spec fn words_of(s: Seq<char>) -> Seq<Seq<char>> {
    words_from(s, Seq::empty())
}

pub open spec fn trim_start(s: Seq<char>) -> Seq<char>
    decreases s.len(),
{
    if s.len() > 0 && is_ws(s[0]) {
        trim_start(s.drop_first())
    } else {
        s
    }
}

pub open spec fn trim_end(s: Seq<char>) -> Seq<char>
    decreases s.len(),
{
    if s.len() > 0 && is_ws(s.last()) {
        trim_end(s.drop_last())
    } else {
        s
    }
}

/// `str::trim`: whitespace removed from both ends.
pub open spec fn trim(s: Seq<char>) -> Seq<char> {
    trim_end(trim_start(s))
}

/// `char::to_ascii_lowercase`.
pub open spec fn lower_char(c: char) -> char {
    if 'A' <= c && c <= 'Z' {
        ((c as u32) + 32) as char
    } else {
        c
    }
}

/// `str::to_ascii_lowercase`.
pub open spec fn lower(s: Seq<char>) -> Seq<char> {
    s.map_values(|c: char| lower_char(c))
}

/// The characters of `s`, one by one.
pub fn chars_of(s: &str) -> (v: Vec<char>)
    ensures
        v@ == s@,
{
    let n = s.unicode_len();
    let mut v: Vec<char> = Vec::new();
    let mut i: usize = 0;
    while i < n
        invariant
            n == s@.len(),
            i <= n,
            v@ == s@.subrange(0, i as int),
        decreases n - i,
    {
        v.push(s.get_char(i));
        i = i + 1;
        assert(v@ =~= s@.subrange(0, i as int));
    }
    assert(v@ =~= s@);
    v
}

/// Where each line of `v[lo..hi]` lies in `v`: the `(start, end)` of every line
/// `lines_of` yields.
pub fn line_bounds(v: &Vec<char>) -> (r: Vec<(usize, usize)>)
    ensures
        r@.len() == lines_of(v@).len(),
        forall|i: int| 0 <= i < r@.len() ==> #[trigger] r@[i].0 <= r@[i].1 <= v@.len()
            && v@.subrange(r@[i].0 as int, r@[i].1 as int) == lines_of(v@)[i],
{
    let n = v.len();
    let mut r: Vec<(usize, usize)> = Vec::new();
    let mut start: usize = 0;
    let mut pos: usize = 0;
    let ghost mut done: Seq<Seq<char>> = Seq::empty();
    proof {
        assert(v@.skip(0) =~= v@);
        assert(v@.subrange(0, 0) =~= Seq::<char>::empty());
    }
    while pos < n
        invariant
            n == v@.len(),
            start <= pos <= n,
            r@.len() == done.len(),
            forall|i: int| 0 <= i < r@.len() ==> (#[trigger] r@[i]).0 <= r@[i].1 <= v@.len()
                && v@.subrange(r@[i].0 as int, r@[i].1 as int) == done[i],
            lines_of(v@) == done + lines_from(v@.skip(pos as int), v@.subrange(start as int, pos as int)),
        decreases n - pos,
    {
        let ghost rest = v@.skip(pos as int);
        let ghost cur = v@.subrange(start as int, pos as int);
        let ghost d0 = done;
        assert(rest[0] == v@[pos as int]);
        assert(rest.drop_first() =~= v@.skip(pos + 1));
        if v[pos] == '\n' {
            let end = if pos > start && v[pos - 1] == '\r' {
                pos - 1
            } else {
                pos
            };
            proof {
                if pos > start && v@[pos - 1] == '\r' {
                    assert(cur.last() == '\r');
                    assert(strip_cr(cur) =~= v@.subrange(start as int, end as int));
                } else {
                    assert(strip_cr(cur) =~= v@.subrange(start as int, end as int));
                }
                assert(lines_from(rest, cur) == seq![strip_cr(cur)] + lines_from(v@.skip(pos + 1), Seq::empty()));
                done = done.push(strip_cr(cur));
                assert(v@.subrange(pos + 1, pos + 1) =~= Seq::<char>::empty());
                assert(lines_of(v@) =~= done + lines_from(v@.skip(pos + 1), v@.subrange(pos + 1, pos + 1)));
            }
            let ghost r0 = r@;
            r.push((start, end));
            proof {
                assert forall|i: int| 0 <= i < r@.len() implies #[trigger] r@[i].0 <= r@[i].1 <= v@.len()
                    && v@.subrange(r@[i].0 as int, r@[i].1 as int) == done[i] by {
                    if i < r0.len() {
                        assert(r@[i] == r0[i]);
                        assert(done[i] == d0[i]);
                    } else {
                        assert(r@[i] == (start, end));
                        assert(done[i] == strip_cr(cur));
                        assert(v@.subrange(start as int, end as int) == strip_cr(cur));
                    }
                }
            }
            pos = pos + 1;
            start = pos;
        } else {
            proof {
                assert(cur.push(v@[pos as int]) =~= v@.subrange(start as int, pos + 1));
                assert(lines_from(rest, cur) == lines_from(v@.skip(pos + 1), v@.subrange(start as int, pos + 1)));
            }
            pos = pos + 1;
        }
    }
    proof {
        assert(v@.skip(pos as int) =~= Seq::<char>::empty());
    }
    if start < pos {
        proof {
            done = done.push(v@.subrange(start as int, pos as int));
        }
        r.push((start, pos));
    }
    proof {
        assert(lines_of(v@) =~= done);
    }
    r
}

/// Where each whitespace-separated word of `v[lo..hi]` lies in `v`.
pub fn word_bounds(v: &Vec<char>, lo: usize, hi: usize) -> (r: Vec<(usize, usize)>)
    requires
        lo <= hi <= v@.len(),
    ensures
        r@.len() == words_of(v@.subrange(lo as int, hi as int)).len(),
        forall|i: int| 0 <= i < r@.len() ==> #[trigger] r@[i].0 <= r@[i].1 <= v@.len()
            && v@.subrange(r@[i].0 as int, r@[i].1 as int) == words_of(v@.subrange(lo as int, hi as int))[i],
{
    let ghost w = v@.subrange(lo as int, hi as int);
    let mut r: Vec<(usize, usize)> = Vec::new();
    let mut start: usize = lo;
    let mut pos: usize = lo;
    let ghost mut done: Seq<Seq<char>> = Seq::empty();
    proof {
        assert(w.skip(0) =~= w);
        assert(v@.subrange(lo as int, lo as int) =~= Seq::<char>::empty());
    }
    while pos < hi
        invariant
            lo <= start <= pos <= hi <= v@.len(),
            w == v@.subrange(lo as int, hi as int),
            r@.len() == done.len(),
            forall|i: int| 0 <= i < r@.len() ==> (#[trigger] r@[i]).0 <= r@[i].1 <= v@.len()
                && v@.subrange(r@[i].0 as int, r@[i].1 as int) == done[i],
            words_of(w) == done + words_from(w.skip(pos - lo), v@.subrange(start as int, pos as int)),
        decreases hi - pos,
    {
        let ghost rest = w.skip(pos - lo);
        let ghost cur = v@.subrange(start as int, pos as int);
        let ghost d0 = done;
        assert(rest[0] == v@[pos as int]);
        assert(rest.drop_first() =~= w.skip(pos + 1 - lo));
        if is_ws_exec(v[pos]) {
            proof {
                if cur.len() == 0 {
                    assert(words_from(rest, cur) =~= words_from(w.skip(pos + 1 - lo), Seq::empty()));
                } else {
                    done = done.push(cur);
                }
                assert(v@.subrange(pos + 1, pos + 1) =~= Seq::<char>::empty());
                assert(words_of(w) =~= done + words_from(w.skip(pos + 1 - lo), v@.subrange(pos + 1, pos + 1)));
            }
            let ghost r0 = r@;
            if start < pos {
                r.push((start, pos));
            }
            proof {
                assert forall|i: int| 0 <= i < r@.len() implies #[trigger] r@[i].0 <= r@[i].1 <= v@.len()
                    && v@.subrange(r@[i].0 as int, r@[i].1 as int) == done[i] by {
                    if i < r0.len() {
                        assert(r@[i] == r0[i]);
                        assert(done[i] == d0[i]);
                    } else {
                        assert(r@[i] == (start, pos));
                        assert(done[i] == cur);
                    }
                }
            }
            pos = pos + 1;
            start = pos;
        } else {
            proof {
                assert(cur.push(v@[pos as int]) =~= v@.subrange(start as int, pos + 1));
            }
            pos = pos + 1;
        }
    }
    proof {
        assert(w.skip(pos - lo) =~= Seq::<char>::empty());
    }
    if start < pos {
        proof {
            done = done.push(v@.subrange(start as int, pos as int));
        }
        r.push((start, pos));
    }
    proof {
        assert(words_of(w) =~= done);
    }
    r
}

/// Bounds of `v[lo..hi]` with whitespace trimmed from both ends.
pub fn trim_bounds(v: &Vec<char>, lo: usize, hi: usize) -> (r: (usize, usize))
    requires
        lo <= hi <= v@.len(),
    ensures
        lo <= r.0 <= r.1 <= hi,
        v@.subrange(r.0 as int, r.1 as int) == trim(v@.subrange(lo as int, hi as int)),
{
    let mut a = lo;
    while a < hi && is_ws_exec(v[a])
        invariant
            lo <= a <= hi <= v@.len(),
            trim_start(v@.subrange(lo as int, hi as int)) == trim_start(v@.subrange(a as int, hi as int)),
        decreases hi - a,
    {
        assert(v@.subrange(a as int, hi as int).drop_first() =~= v@.subrange(a + 1, hi as int));
        a = a + 1;
    }
    assert(trim_start(v@.subrange(a as int, hi as int)) == v@.subrange(a as int, hi as int));
    let mut b = hi;
    while b > a && is_ws_exec(v[b - 1])
        invariant
            lo <= a <= b <= hi <= v@.len(),
            trim_end(v@.subrange(a as int, hi as int)) == trim_end(v@.subrange(a as int, b as int)),
        decreases b - a,
    {
        assert(v@.subrange(a as int, b as int).drop_last() =~= v@.subrange(a as int, b - 1));
        b = b - 1;
    }
    assert(trim_end(v@.subrange(a as int, b as int)) == v@.subrange(a as int, b as int));
    (a, b)
}

/// `v[lo..hi]` with ASCII letters lowered.
pub fn lowered(v: &Vec<char>, lo: usize, hi: usize) -> (r: Vec<char>)
    requires
        lo <= hi <= v@.len(),
    ensures
        r@ == lower(v@.subrange(lo as int, hi as int)),
{
    let mut r: Vec<char> = Vec::new();
    let mut i = lo;
    while i < hi
        invariant
            lo <= i <= hi <= v@.len(),
            r@ == lower(v@.subrange(lo as int, i as int)),
        decreases hi - i,
    {
        let c = v[i];
        let d = if 'A' <= c && c <= 'Z' {
            char_from_u32_ascii((c as u32) + 32)
        } else {
            c
        };
        r.push(d);
        i = i + 1;
        assert(r@ =~= lower(v@.subrange(lo as int, i as int)));
    }
    r
}

fn char_from_u32_ascii(n: u32) -> (c: char)
    requires
        n < 128,
    ensures
        c == n as char,
{
    (n as u8) as char
}

/// Whether `v[lo..hi]` equals `pat`.
pub fn range_eq(v: &Vec<char>, lo: usize, hi: usize, pat: &Vec<char>) -> (b: bool)
    requires
        lo <= hi <= v@.len(),
    ensures
        b == (v@.subrange(lo as int, hi as int) == pat@),
{
    if hi - lo != pat.len() {
        return false;
    }
    let mut i: usize = 0;
    while i < pat.len()
        invariant
            lo <= hi <= v@.len(),
            hi - lo == pat@.len(),
            i <= pat@.len(),
            forall|j: int| 0 <= j < i ==> v@[lo + j] == pat@[j],
        decreases pat@.len() - i,
    {
        if v[lo + i] != pat[i] {
            assert(v@.subrange(lo as int, hi as int)[i as int] != pat@[i as int]);
            return false;
        }
        i = i + 1;
    }
    assert(v@.subrange(lo as int, hi as int) =~= pat@);
    true
}

/// Whether `v[lo..hi]` starts with `pat`.
pub fn range_starts_with(v: &Vec<char>, lo: usize, hi: usize, pat: &Vec<char>) -> (b: bool)
    requires
        lo <= hi <= v@.len(),
    ensures
        b == (pat@.len() <= hi - lo && v@.subrange(lo as int, lo + pat@.len()) == pat@),
{
    if hi - lo < pat.len() {
        return false;
    }
    range_eq(v, lo, lo + pat.len(), pat)
}

/// Whether `s` begins with `p`.
pub open spec fn starts_with(s: Seq<char>, p: Seq<char>) -> bool {
    p.len() <= s.len() && s.subrange(0, p.len() as int) == p
}

/// Whether `needle` occurs somewhere in `hay`.
pub open spec fn contains_sub(hay: Seq<char>, needle: Seq<char>) -> bool {
    exists|i: int| 0 <= i && i + needle.len() <= hay.len() && #[trigger] hay.subrange(i, i + needle.len()) == needle
}

/// The value of a run of ASCII digits.
pub open spec fn digits_value(s: Seq<char>) -> nat
    decreases s.len(),
{
    if s.len() == 0 {
        0
    } else {
        digits_value(s.drop_last()) * 10 + ((s.last() as u32) - 48) as nat
    }
}

pub open spec fn is_digit(c: char) -> bool {
    '0' <= c && c <= '9'
}

/// Whether every character of `s` is an ASCII digit.
pub open spec fn all_digits(s: Seq<char>) -> bool {
    forall|i: int| 0 <= i < s.len() ==> is_digit(#[trigger] s[i])
}

/// `w` without one leading `+`.
pub open spec fn unsigned_digits(w: Seq<char>) -> Seq<char> {
    if w.len() > 0 && w[0] == '+' {
        w.drop_first()
    } else {
        w
    }
}

/// What `str::parse` yields for an unsigned integer type whose largest value is `max`:
/// an optional `+`, then one or more ASCII digits, the whole no greater than `max`.
pub open spec fn parse_unsigned(w: Seq<char>, max: nat) -> Option<nat> {
    let digits = unsigned_digits(w);
    if digits.len() == 0 || !all_digits(digits) || digits_value(digits) > max {
        None
    } else {
        Some(digits_value(digits))
    }
}

proof fn lemma_digits_grow(s: Seq<char>, c: char)
    requires
        is_digit(c),
    ensures
        digits_value(s.push(c)) >= digits_value(s),
        digits_value(s.push(c)) == digits_value(s) * 10 + ((c as u32) - 48) as nat,
{
    assert(s.push(c).drop_last() =~= s);
}

/// Parses `v[lo..hi]` as an unsigned integer no greater than `max`.
pub fn parse_unsigned_range(v: &Vec<char>, lo: usize, hi: usize, max: u64) -> (r: Option<u64>)
    requires
        lo <= hi <= v@.len(),
    ensures
        r matches Some(x) ==> parse_unsigned(v@.subrange(lo as int, hi as int), max as nat) == Some(x as nat),
        r is None ==> parse_unsigned(v@.subrange(lo as int, hi as int), max as nat) is None,
{
    let ghost w = v@.subrange(lo as int, hi as int);
    let start = if lo < hi && v[lo] == '+' { lo + 1 } else { lo };
    let ghost digits = v@.subrange(start as int, hi as int);
    assert(digits =~= unsigned_digits(w));
    if start == hi {
        return None;
    }
    let mut acc: u64 = 0;
    let mut over = false;
    let mut i = start;
    while i < hi
        invariant
            lo <= start <= i <= hi <= v@.len(),
            w == v@.subrange(lo as int, hi as int),
            digits == v@.subrange(start as int, hi as int),
            digits == unsigned_digits(w),
            digits.len() > 0,
            forall|j: int| start <= j < i ==> is_digit(#[trigger] v@[j]),
            !over ==> acc as nat == digits_value(v@.subrange(start as int, i as int)) && acc <= max,
            over ==> digits_value(v@.subrange(start as int, i as int)) > max,
        decreases hi - i,
    {
        let c = v[i];
        if !('0' <= c && c <= '9') {
            assert(digits[i - start] == c);
            assert(!is_digit(digits[i - start]));
            assert(!all_digits(digits));
            return None;
        }
        proof {
            assert(v@.subrange(start as int, i + 1) =~= v@.subrange(start as int, i as int).push(c));
            lemma_digits_grow(v@.subrange(start as int, i as int), c);
        }
        if !over {
            let d = (c as u32 - 48) as u64;
            if d > max || acc > (max - d) / 10 {
                over = true;
                assert(acc * 10 + d > max) by (nonlinear_arith)
                    requires
                        d > max || acc > (max - d) / 10,
                        d <= max ==> (max - d) / 10 * 10 + 10 > max - d,
                ;
            } else {
                assert(acc * 10 + d <= max) by (nonlinear_arith)
                    requires
                        acc <= (max - d) / 10,
                        d <= 9,
                ;
                acc = acc * 10 + d;
            }
        }
        i = i + 1;
    }
    proof {
        assert forall|j: int| 0 <= j < digits.len() implies is_digit(#[trigger] digits[j]) by {
            assert(digits[j] == v@[start + j]);
        }
    }
    if over {
        None
    } else {
        Some(acc)
    }
}

/// A string holding exactly the characters of `v`.
pub fn string_of(v: &Vec<char>) -> (s: String)
    ensures
        s@ == v@,
{
    let mut s = String::new();
    let mut i: usize = 0;
    while i < v.len()
        invariant
            i <= v@.len(),
            s@ == v@.subrange(0, i as int),
        decreases v@.len() - i,
    {
        crate::text::push_char(&mut s, v[i]);
        i = i + 1;
        assert(s@ =~= v@.subrange(0, i as int));
    }
    assert(v@.subrange(0, i as int) =~= v@);
    s
}

/// Whether `pat` occurs in `v`.
pub fn vec_contains_sub(v: &Vec<char>, pat: &Vec<char>) -> (b: bool)
    ensures
        b == contains_sub(v@, pat@),
{
    if pat.len() > v.len() {
        return false;
    }
    if pat.len() == 0 {
        assert(v@.subrange(0, 0 + pat@.len() as int) =~= pat@);
        return true;
    }
    let mut i: usize = 0;
    let n = v.len();
    let last = n - pat.len();
    while i <= last
        invariant
            n == v@.len(),
            1 <= pat@.len() <= v@.len(),
            last == v@.len() - pat@.len(),
            i <= last + 1,
            forall|j: int| 0 <= j < i ==> #[trigger] v@.subrange(j, j + pat@.len()) != pat@,
        decreases last + 1 - i,
    {
        if range_eq(v, i, i + pat.len(), pat) {
            assert(v@.subrange(i as int, i + pat@.len() as int) == pat@);
            return true;
        }
        i = i + 1;
    }
    false
}

} // verus!
