//! Deciding whether the active network link is paid for by the byte.
//!
//! "Metered" is a policy statement about a network that only some systems record.
//! NetworkManager keeps it per connection; macOS shows only a phone tether; everything
//! else reports unknown, and an operator can state the answer in config. Throughout,
//! an unreadable or absent source yields [`LinkCost::Unknown`], never
//! [`LinkCost::Unmetered`]: not knowing must not be reported as knowing the link is free.
//!
//! The readings themselves (files, subprocesses) happen outside this module; what is
//! here is the reading of their text.

use vstd::prelude::*;
use crate::telemetry::LinkCost;
use crate::scan::{
    chars_of, line_bounds, word_bounds, trim_bounds, lowered, range_eq, range_starts_with,
    parse_unsigned_range, vec_contains_sub, string_of, lines_of, words_of, trim, lower,
    starts_with, contains_sub, parse_unsigned,
};

verus! {

/// The config value with surrounding whitespace removed and ASCII letters lowered.
pub open spec fn config_word(raw: Seq<char>) -> Seq<char> {
    lower(trim(raw))
}

/// The link cost a config value states outright, if it states one.
pub open spec fn parse_config_spec(raw: Seq<char>) -> Option<LinkCost> {
    let v = config_word(raw);
    if v == "metered"@ {
        Some(LinkCost::Metered)
    } else if v == "unmetered"@ {
        Some(LinkCost::Unmetered)
    } else if v == "unknown"@ {
        Some(LinkCost::Unknown)
    } else {
        None
    }
}

/// Whether a config value is understood: empty, `auto`, or a stated cost.
pub open spec fn config_is_valid_spec(raw: Seq<char>) -> bool {
    let v = config_word(raw);
    v.len() == 0 || v == "auto"@ || parse_config_spec(v) is Some
}

/// Parse the `energy.link_cost` config value.
///
/// `auto` (or absent) means detect; anything else states the answer outright. An
/// unrecognised value is `None`, which the caller treats as `auto` and reports.
pub fn parse_config(raw: &str) -> (r: Option<LinkCost>)
    ensures
        r == parse_config_spec(raw@),
{
    let v = chars_of(raw);
    let (a, b) = trim_bounds(&v, 0, v.len());
    assert(v@.subrange(0, v@.len() as int) =~= raw@);
    let w = lowered(&v, a, b);
    let n = w.len();
    let metered = chars_of("metered");
    let unmetered = chars_of("unmetered");
    let unknown = chars_of("unknown");
    assert(w@.subrange(0, n as int) =~= w@);
    if range_eq(&w, 0, n, &metered) {
        Some(LinkCost::Metered)
    } else if range_eq(&w, 0, n, &unmetered) {
        Some(LinkCost::Unmetered)
    } else if range_eq(&w, 0, n, &unknown) {
        Some(LinkCost::Unknown)
    } else {
        None
    }
}

/// Whether `raw` names a link cost this build understands, `auto` included.
pub fn config_is_valid(raw: &str) -> (b: bool)
    ensures
        b == config_is_valid_spec(raw@),
{
    let v = chars_of(raw);
    let (a, b) = trim_bounds(&v, 0, v.len());
    assert(v@.subrange(0, v@.len() as int) =~= raw@);
    let w = lowered(&v, a, b);
    let n = w.len();
    let auto = chars_of("auto");
    assert(w@.subrange(0, n as int) =~= w@);
    if n == 0 || range_eq(&w, 0, n, &auto) {
        return true;
    }
    let s = string_of(&w);
    parse_config(s.as_str()).is_some()
}

/// What follows `p` on the first line that, trimmed, begins with `p`.
pub open spec fn prefixed_rest(lines: Seq<Seq<char>>, p: Seq<char>) -> Option<Seq<char>>
    decreases lines.len(),
{
    if lines.len() == 0 {
        None
    } else if starts_with(trim(lines[0]), p) {
        Some(trim(lines[0]).skip(p.len() as int))
    } else {
        prefixed_rest(lines.drop_first(), p)
    }
}

/// The lines `ls` as they lie in `v` at the bounds `r`.
pub open spec fn lines_at(v: Seq<char>, r: Seq<(usize, usize)>, ls: Seq<Seq<char>>) -> bool {
    &&& r.len() == ls.len()
    &&& forall|i: int| 0 <= i < r.len() ==> (#[trigger] r[i]).0 <= r[i].1 <= v.len()
        && v.subrange(r[i].0 as int, r[i].1 as int) == ls[i]
}

/// Finds the first line that, trimmed, begins with `pat`; gives the bounds in `v` of
/// what follows the prefix on it.
fn find_prefixed(v: &Vec<char>, r: &Vec<(usize, usize)>, pat: &Vec<char>, Ghost(ls): Ghost<Seq<Seq<char>>>) -> (res: Option<(usize, usize)>)
    requires
        lines_at(v@, r@, ls),
    ensures
        match res {
            None => prefixed_rest(ls, pat@) is None,
            Some((a, b)) => a <= b <= v@.len() && prefixed_rest(ls, pat@) == Some(v@.subrange(a as int, b as int)),
        },
{
    let mut k: usize = 0;
    assert(ls.skip(0) =~= ls);
    while k < r.len()
        invariant
            lines_at(v@, r@, ls),
            k <= r@.len(),
            prefixed_rest(ls, pat@) == prefixed_rest(ls.skip(k as int), pat@),
        decreases r@.len() - k,
    {
        let (la, lb) = r[k];
        assert(r@[k as int].0 <= r@[k as int].1);
        let (a, b) = trim_bounds(v, la, lb);
        assert(ls.skip(k as int)[0] == ls[k as int]);
        assert(ls.skip(k as int).drop_first() =~= ls.skip(k + 1));
        proof {
            if pat@.len() <= b - a {
                assert(v@.subrange(a as int, b as int).subrange(0, pat@.len() as int) =~= v@.subrange(a as int, a + pat@.len()));
            }
        }
        if range_starts_with(v, a, b, pat) {
            let t = a + pat.len();
            assert(trim(ls[k as int]).skip(pat@.len() as int) =~= v@.subrange(t as int, b as int));
            return Some((t, b));
        }
        k = k + 1;
    }
    None
}

/// Reads `GENERAL.METERED` out of terse `nmcli` output: `yes` and `no`, guessed or
/// not, are answers; anything else, or no such line, is unknown.
pub open spec fn nm_metered_spec(out: Seq<char>) -> LinkCost {
    match prefixed_rest(lines_of(out), "GENERAL.METERED:"@) {
        None => LinkCost::Unknown,
        Some(rest) => {
            let value = lower(trim(rest));
            if starts_with(value, "yes"@) {
                LinkCost::Metered
            } else if starts_with(value, "no"@) {
                LinkCost::Unmetered
            } else {
                LinkCost::Unknown
            }
        },
    }
}

/// Read `GENERAL.METERED` out of terse `nmcli` output.
///
/// NetworkManager answers with `yes`, `no`, `unknown`, or either of the first two
/// marked `(guessed)`. The guesses are honoured: they are how NetworkManager reports a
/// link it believes is cellular.
pub fn parse_nm_metered(out: &str) -> (c: LinkCost)
    ensures
        c == nm_metered_spec(out@),
{
    let v = chars_of(out);
    let r = line_bounds(&v);
    let pat = chars_of("GENERAL.METERED:");
    match find_prefixed(&v, &r, &pat, Ghost(lines_of(v@))) {
        None => LinkCost::Unknown,
        Some((a, b)) => {
            let (ta, tb) = trim_bounds(&v, a, b);
            assert(v@.subrange(a as int, b as int).subrange(0, (b - a) as int) =~= v@.subrange(a as int, b as int));
            let value = lowered(&v, ta, tb);
            let n = value.len();
            let yes = chars_of("yes");
            let no = chars_of("no");
            if range_starts_with(&value, 0, n, &yes) {
                assert(value@.subrange(0, n as int) =~= value@);
                LinkCost::Metered
            } else if range_starts_with(&value, 0, n, &no) {
                assert(value@.subrange(0, n as int) =~= value@);
                LinkCost::Unmetered
            } else {
                assert(value@.subrange(0, n as int) =~= value@);
                LinkCost::Unknown
            }
        },
    }
}

/// The interface named by `route -n get default`: the trimmed text after
/// `interface:` on the first line that has it, unless that is empty.
pub open spec fn route_get_default_spec(out: Seq<char>) -> Option<Seq<char>> {
    match prefixed_rest(lines_of(out), "interface:"@) {
        None => None,
        Some(rest) => if trim(rest).len() == 0 {
            None
        } else {
            Some(trim(rest))
        },
    }
}

/// The interface named by `route -n get default`.
pub fn parse_route_get_default(out: &str) -> (r: Option<&str>)
    ensures
        match r {
            None => route_get_default_spec(out@) is None,
            Some(s) => route_get_default_spec(out@) == Some(s@),
        },
{
    let v = chars_of(out);
    let lines = line_bounds(&v);
    let pat = chars_of("interface:");
    match find_prefixed(&v, &lines, &pat, Ghost(lines_of(v@))) {
        None => None,
        Some((a, b)) => {
            let (ta, tb) = trim_bounds(&v, a, b);
            if ta == tb {
                None
            } else {
                Some(out.substring_char(ta, tb))
            }
        },
    }
}

/// A row of `/proc/net/route` read as a default route: its metric and interface, when
/// the destination is all zeroes and the metric column parses as a `u32`.
pub open spec fn route_entry(line: Seq<char>) -> Option<(nat, Seq<char>)> {
    let w = words_of(line);
    if w.len() >= 7 && w[1] == "00000000"@ && parse_unsigned(w[6], u32::MAX as nat) is Some {
        Some((parse_unsigned(w[6], u32::MAX as nat)->0, w[0]))
    } else {
        None
    }
}

/// The default route with the lowest metric among `rows`; of equal metrics, the first.
pub open spec fn lowest_route(rows: Seq<Seq<char>>) -> Option<(nat, Seq<char>)>
    decreases rows.len(),
{
    if rows.len() == 0 {
        None
    } else {
        let prev = lowest_route(rows.drop_last());
        match route_entry(rows.last()) {
            None => prev,
            Some(e) => match prev {
                Some(p) => if p.0 <= e.0 {
                    prev
                } else {
                    Some(e)
                },
                None => Some(e),
            },
        }
    }
}

/// The interface carrying the default route: the lowest-metric default route among
/// the rows after the header.
pub open spec fn default_route_spec(table: Seq<char>) -> Option<Seq<char>> {
    let ls = lines_of(table);
    if ls.len() == 0 {
        None
    } else {
        match lowest_route(ls.drop_first()) {
            Some(e) => Some(e.1),
            None => None,
        }
    }
}

/// Reads the row at `v[la..lb]` as a default route: its metric and the bounds of its
/// interface name.
fn route_entry_at(v: &Vec<char>, la: usize, lb: usize, zeros: &Vec<char>) -> (res: Option<(u64, usize, usize)>)
    requires
        la <= lb <= v@.len(),
        zeros@ == "00000000"@,
    ensures
        match res {
            None => route_entry(v@.subrange(la as int, lb as int)) is None,
            Some((m, a, b)) => a <= b <= v@.len() && m <= u32::MAX
                && route_entry(v@.subrange(la as int, lb as int)) == Some((m as nat, v@.subrange(a as int, b as int))),
        },
{
    let ws = word_bounds(v, la, lb);
    if ws.len() < 7 {
        return None;
    }
    let (da, db) = ws[1];
    let (ma, mb) = ws[6];
    let (ia, ib) = ws[0];
    assert(ws@[1].0 <= ws@[1].1 && ws@[6].0 <= ws@[6].1 && ws@[0].0 <= ws@[0].1);
    if !range_eq(v, da, db, zeros) {
        return None;
    }
    match parse_unsigned_range(v, ma, mb, 0xffff_ffffu64) {
        None => None,
        Some(m) => Some((m, ia, ib)),
    }
}

/// The interface carrying the default route, from the contents of `/proc/net/route`.
///
/// Chosen by lowest metric rather than first match: with both Wi-Fi and a tether up
/// there are two default routes, and traffic takes the one with the lower metric.
pub fn default_route_iface(proc_net_route: &str) -> (r: Option<&str>)
    ensures
        match r {
            None => default_route_spec(proc_net_route@) is None,
            Some(s) => default_route_spec(proc_net_route@) == Some(s@),
        },
{
    let v = chars_of(proc_net_route);
    let lines = line_bounds(&v);
    let zeros = chars_of("00000000");
    let ghost ls = lines_of(v@);
    if lines.len() == 0 {
        return None;
    }
    let mut best: Option<(u64, usize, usize)> = None;
    let mut k: usize = 1;
    assert(ls.subrange(1, 1).len() == 0);
    while k < lines.len()
        invariant
            lines_at(v@, lines@, ls),
            zeros@ == "00000000"@,
            1 <= k <= lines@.len(),
            match best {
                None => lowest_route(ls.subrange(1, k as int)) is None,
                Some((m, a, b)) => a <= b <= v@.len()
                    && lowest_route(ls.subrange(1, k as int)) == Some((m as nat, v@.subrange(a as int, b as int))),
            },
        decreases lines@.len() - k,
    {
        let (la, lb) = lines[k];
        assert(lines@[k as int].0 <= lines@[k as int].1);
        let e = route_entry_at(&v, la, lb, &zeros);
        proof {
            let rows = ls.subrange(1, k + 1);
            assert(rows.drop_last() =~= ls.subrange(1, k as int));
            assert(rows.last() == ls[k as int]);
        }
        match e {
            None => {},
            Some((m, a, b)) => {
                let replace = match best {
                    None => true,
                    Some((bm, _, _)) => m < bm,
                };
                if replace {
                    best = Some((m, a, b));
                }
            },
        }
        k = k + 1;
    }
    assert(ls.drop_first() =~= ls.subrange(1, k as int));
    match best {
        None => None,
        Some((_, a, b)) => {
            assert(v@ == proc_net_route@);
            Some(proc_net_route.substring_char(a, b))
        },
    }
}

/// Whether the port named in the last `Hardware Port:` line before the `Device:` line
/// for `iface` is a phone tether, scanning `lines` with `port` the latest name seen.
pub open spec fn tether_scan(lines: Seq<Seq<char>>, port: Seq<char>, iface: Seq<char>) -> bool
    decreases lines.len(),
{
    if lines.len() == 0 {
        false
    } else {
        let t = trim(lines[0]);
        if starts_with(t, "Hardware Port:"@) {
            tether_scan(lines.drop_first(), trim(t.skip("Hardware Port:"@.len() as int)), iface)
        } else if starts_with(t, "Device:"@) && trim(t.skip("Device:"@.len() as int)) == iface {
            contains_sub(lower(port), "iphone"@) || contains_sub(lower(port), "ipad"@)
        } else {
            tether_scan(lines.drop_first(), port, iface)
        }
    }
}

/// Whether `networksetup -listallhardwareports` shows `iface` as a phone tether.
///
/// The output is blocks of `Hardware Port:` / `Device:` lines, so this tracks the most
/// recent port name and reports it when the device matches.
pub fn is_tether_port(out: &str, iface: &str) -> (b: bool)
    ensures
        b == tether_scan(lines_of(out@), Seq::empty(), iface@),
{
    let v = chars_of(out);
    let lines = line_bounds(&v);
    let want = chars_of(iface);
    let hw = chars_of("Hardware Port:");
    let dev = chars_of("Device:");
    let iphone = chars_of("iphone");
    let ipad = chars_of("ipad");
    let ghost ls = lines_of(v@);
    let mut pa: usize = 0;
    let mut pb: usize = 0;
    let mut k: usize = 0;
    assert(ls.skip(0) =~= ls);
    assert(v@.subrange(0, 0) =~= Seq::<char>::empty());
    while k < lines.len()
        invariant
            lines_at(v@, lines@, ls),
            ls == lines_of(out@),
            want@ == iface@,
            hw@ == "Hardware Port:"@,
            dev@ == "Device:"@,
            iphone@ == "iphone"@,
            ipad@ == "ipad"@,
            k <= lines@.len(),
            pa <= pb <= v@.len(),
            tether_scan(ls, Seq::empty(), iface@) == tether_scan(ls.skip(k as int), v@.subrange(pa as int, pb as int), iface@),
        decreases lines@.len() - k,
    {
        let (la, lb) = lines[k];
        assert(lines@[k as int].0 <= lines@[k as int].1);
        let (a, b) = trim_bounds(&v, la, lb);
        let ghost t = v@.subrange(a as int, b as int);
        assert(ls.skip(k as int)[0] == ls[k as int]);
        assert(ls.skip(k as int).drop_first() =~= ls.skip(k + 1));
        proof {
            if hw@.len() <= b - a {
                assert(t.subrange(0, hw@.len() as int) =~= v@.subrange(a as int, a + hw@.len()));
                assert(t.skip(hw@.len() as int) =~= v@.subrange(a + hw@.len(), b as int));
            }
            if dev@.len() <= b - a {
                assert(t.subrange(0, dev@.len() as int) =~= v@.subrange(a as int, a + dev@.len()));
                assert(t.skip(dev@.len() as int) =~= v@.subrange(a + dev@.len(), b as int));
            }
        }
        if range_starts_with(&v, a, b, &hw) {
            let (na, nb) = trim_bounds(&v, a + hw.len(), b);
            pa = na;
            pb = nb;
        } else if range_starts_with(&v, a, b, &dev) {
            let (da, db) = trim_bounds(&v, a + dev.len(), b);
            if range_eq(&v, da, db, &want) {
                let port = lowered(&v, pa, pb);
                return vec_contains_sub(&port, &iphone) || vec_contains_sub(&port, &ipad);
            }
        }
        k = k + 1;
    }
    false
}

} // verus!
