//! Reading the device's power and thermal state out of what the system reports.
//!
//! The reports themselves (sysfs files, `pmset` output) are gathered outside this
//! module. An unreadable reading stays unknown and never becomes a zero: a machine with
//! no battery is not a device at 0% charge.

use vstd::prelude::*;
use crate::telemetry::PowerSource;
use crate::scan::{
    chars_of, trim_bounds, range_eq, parse_unsigned_range, word_bounds, vec_contains_sub, trim, words_of,
    parse_unsigned, all_digits, digits_value, contains_sub, is_digit,
};

verus! {

/// What one `/sys/class/power_supply` entry reported: its `type` (empty when
/// unreadable), and its `capacity`, `status` and `online` files when readable.
#[derive(Debug, Clone)]
pub struct SupplyReading {
    pub kind: String,
    pub capacity: Option<String>,
    pub status: Option<String>,
    pub online: Option<String>,
}

/// A capacity file read as a percentage: a `u8`, capped at 100.
pub open spec fn capacity_pct(text: Seq<char>) -> Option<u8> {
    match parse_unsigned(trim(text), 255) {
        Some(p) => Some(if p > 100 { 100u8 } else { p as u8 }),
        None => None,
    }
}

/// The view of an optional string.
pub open spec fn opt_chars(s: Option<String>) -> Option<Seq<char>> {
    match s {
        Some(x) => Some(x@),
        None => None,
    }
}

/// What the supplies say so far: a battery was seen, mains power is online, a battery
/// is discharging, and the last readable battery percentage.
pub open spec fn supplies_fold(s: Seq<SupplyReading>) -> (bool, bool, bool, Option<u8>)
    decreases s.len(),
{
    if s.len() == 0 {
        (false, false, false, None)
    } else {
        let prev = supplies_fold(s.drop_last());
        let r = s.last();
        let kind = trim(r.kind@);
        if kind == "Battery"@ {
            let pct = match opt_chars(r.capacity) {
                Some(c) => match capacity_pct(c) {
                    Some(p) => Some(p),
                    None => prev.3,
                },
                None => prev.3,
            };
            let discharging = match opt_chars(r.status) {
                Some(st) => trim(st) == "Discharging"@,
                None => false,
            };
            (true, prev.1, prev.2 || discharging, pct)
        } else if kind == "Mains"@ || kind == "USB"@ {
            let online = match opt_chars(r.online) {
                Some(o) => trim(o) == "1"@,
                None => false,
            };
            (prev.0, prev.1 || online, prev.2, prev.3)
        } else {
            prev
        }
    }
}

/// The power source and charge the supplies report: mains when any mains supply is
/// online; otherwise battery when a battery is discharging; otherwise unknown.
pub open spec fn power_from_supplies_spec(s: Seq<SupplyReading>) -> (PowerSource, Option<u8>) {
    let f = supplies_fold(s);
    let power = if f.1 {
        PowerSource::Mains
    } else if f.0 && f.2 {
        PowerSource::Battery
    } else {
        PowerSource::Unknown
    };
    (power, f.3)
}

/// A supply that is mains power and says so: its type is `Mains` or `USB` and its
/// online file reads `1`.
pub open spec fn reports_mains_online(r: SupplyReading) -> bool {
    &&& (trim(r.kind@) == "Mains"@ || trim(r.kind@) == "USB"@)
    &&& r.online matches Some(o) && trim(o@) == "1"@
}

/// A battery that says it is discharging.
pub open spec fn reports_discharging(r: SupplyReading) -> bool {
    &&& trim(r.kind@) == "Battery"@
    &&& r.status matches Some(st) && trim(st@) == "Discharging"@
}

proof fn lemma_supplies_fold_facts(s: Seq<SupplyReading>)
    ensures
        supplies_fold(s).1 <==> exists|i: int| 0 <= i < s.len() && reports_mains_online(#[trigger] s[i]),
        supplies_fold(s).2 <==> exists|i: int| 0 <= i < s.len() && reports_discharging(#[trigger] s[i]),
        supplies_fold(s).2 ==> supplies_fold(s).0,
    decreases s.len(),
{
    reveal_strlit("Battery");
    reveal_strlit("Mains");
    reveal_strlit("USB");
    if s.len() > 0 {
        let init = s.drop_last();
        let r = s.last();
        let n = s.len() - 1;
        lemma_supplies_fold_facts(init);
        assert(s[n] == r);
        assert forall|i: int| 0 <= i < init.len() implies #[trigger] init[i] == s[i] by {}
        if exists|i: int| 0 <= i < s.len() && reports_mains_online(#[trigger] s[i]) {
            let i = choose|i: int| 0 <= i < s.len() && reports_mains_online(#[trigger] s[i]);
            if i < n {
                assert(reports_mains_online(init[i]));
            }
        }
        if exists|i: int| 0 <= i < init.len() && reports_mains_online(#[trigger] init[i]) {
            let i = choose|i: int| 0 <= i < init.len() && reports_mains_online(#[trigger] init[i]);
            assert(reports_mains_online(s[i]));
        }
        if exists|i: int| 0 <= i < s.len() && reports_discharging(#[trigger] s[i]) {
            let i = choose|i: int| 0 <= i < s.len() && reports_discharging(#[trigger] s[i]);
            if i < n {
                assert(reports_discharging(init[i]));
            }
        }
        if exists|i: int| 0 <= i < init.len() && reports_discharging(#[trigger] init[i]) {
            let i = choose|i: int| 0 <= i < init.len() && reports_discharging(#[trigger] init[i]);
            assert(reports_discharging(s[i]));
        }
        assert("Battery"@.len() == 7);
        assert("Mains"@.len() == 5);
        assert("USB"@.len() == 3);
    }
}

/// What the supplies say of the power source: mains exactly when some `Mains` or `USB`
/// supply's online file reads `1` (a supply that is present but offline does not
/// count); otherwise battery exactly when some battery reports discharging; otherwise
/// unknown.
pub proof fn lemma_power_source_from_supplies(s: Seq<SupplyReading>)
    ensures
        (power_from_supplies_spec(s).0 == PowerSource::Mains) <==> exists|i: int| 0 <= i < s.len() && reports_mains_online(#[trigger] s[i]),
        (power_from_supplies_spec(s).0 == PowerSource::Battery) <==> (!(exists|i: int| 0 <= i < s.len() && reports_mains_online(#[trigger] s[i]))
            && exists|i: int| 0 <= i < s.len() && reports_discharging(#[trigger] s[i])),
{
    lemma_supplies_fold_facts(s);
}

/// Whether `s`, trimmed, is exactly `pat`.
fn trimmed_is(s: &str, pat: &str) -> (b: bool)
    ensures
        b == (trim(s@) == pat@),
{
    let v = chars_of(s);
    let p = chars_of(pat);
    let (a, b) = trim_bounds(&v, 0, v.len());
    assert(v@.subrange(0, v@.len() as int) =~= s@);
    range_eq(&v, a, b, &p)
}

fn read_capacity(text: &str) -> (r: Option<u8>)
    ensures
        r == capacity_pct(text@),
{
    let v = chars_of(text);
    let (a, b) = trim_bounds(&v, 0, v.len());
    assert(v@.subrange(0, v@.len() as int) =~= text@);
    match parse_unsigned_range(&v, a, b, 255) {
        Some(p) => Some(if p > 100 { 100u8 } else { p as u8 }),
        None => None,
    }
}

/// The power source and battery percentage `/sys/class/power_supply` reports.
pub fn power_from_supplies(supplies: &Vec<SupplyReading>) -> (r: (PowerSource, Option<u8>))
    ensures
        r == power_from_supplies_spec(supplies@),
{
    let mut saw_battery = false;
    let mut mains_online = false;
    let mut discharging = false;
    let mut pct: Option<u8> = None;
    let mut i: usize = 0;
    while i < supplies.len()
        invariant
            i <= supplies@.len(),
            supplies_fold(supplies@.subrange(0, i as int)) == (saw_battery, mains_online, discharging, pct),
        decreases supplies@.len() - i,
    {
        let r = &supplies[i];
        proof {
            let pre = supplies@.subrange(0, i + 1);
            assert(pre.drop_last() =~= supplies@.subrange(0, i as int));
            assert(pre.last() == supplies@[i as int]);
        }
        if trimmed_is(r.kind.as_str(), "Battery") {
            saw_battery = true;
            match &r.capacity {
                Some(c) => {
                    match read_capacity(c.as_str()) {
                        Some(p) => {
                            pct = Some(p);
                        },
                        None => {},
                    }
                },
                None => {},
            }
            let d = match &r.status {
                Some(st) => trimmed_is(st.as_str(), "Discharging"),
                None => false,
            };
            discharging = discharging || d;
        } else if trimmed_is(r.kind.as_str(), "Mains") || trimmed_is(r.kind.as_str(), "USB") {
            let on = match &r.online {
                Some(o) => trimmed_is(o.as_str(), "1"),
                None => false,
            };
            mains_online = mains_online || on;
        }
        i = i + 1;
    }
    assert(supplies@.subrange(0, i as int) =~= supplies@);
    let power = if mains_online {
        PowerSource::Mains
    } else if saw_battery && discharging {
        PowerSource::Battery
    } else {
        PowerSource::Unknown
    };
    (power, pct)
}

/// What `str::parse::<i32>` yields: an optional sign, then one or more ASCII digits,
/// the value within range.
pub open spec fn parse_i32(w: Seq<char>) -> Option<int> {
    if w.len() > 0 && w[0] == '-' {
        let d = w.drop_first();
        if d.len() == 0 || !all_digits(d) || digits_value(d) > 2147483648 {
            None
        } else {
            Some(-(digits_value(d) as int))
        }
    } else {
        match parse_unsigned(w, 2147483647) {
            Some(x) => Some(x as int),
            None => None,
        }
    }
}

/// Integer division by 1000, truncating toward zero as Rust's `/` does.
pub open spec fn div_1000(m: int) -> int {
    if m >= 0 {
        m / 1000
    } else {
        -((-m) / 1000)
    }
}

/// A thermal-zone reading in whole degrees: millidegrees divided by 1000, clamped to
/// the range of an `i16` rather than wrapped.
pub open spec fn zone_degrees(text: Seq<char>) -> Option<int> {
    match parse_i32(trim(text)) {
        Some(m) => {
            let d = div_1000(m);
            Some(if d < -32768 {
                -32768
            } else if d > 32767 {
                32767
            } else {
                d
            })
        },
        None => None,
    }
}

/// The hottest reading among `readings`, when any parses.
pub open spec fn hottest_spec(readings: Seq<String>) -> Option<int>
    decreases readings.len(),
{
    if readings.len() == 0 {
        None
    } else {
        let prev = hottest_spec(readings.drop_last());
        match zone_degrees(readings.last()@) {
            None => prev,
            Some(d) => match prev {
                Some(p) => Some(if d > p {
                    d
                } else {
                    p
                }),
                None => Some(d),
            },
        }
    }
}

fn read_i32(v: &Vec<char>, lo: usize, hi: usize) -> (r: Option<i32>)
    requires
        lo <= hi <= v@.len(),
    ensures
        match r {
            Some(x) => parse_i32(v@.subrange(lo as int, hi as int)) == Some(x as int),
            None => parse_i32(v@.subrange(lo as int, hi as int)) is None,
        },
{
    let ghost w = v@.subrange(lo as int, hi as int);
    if lo < hi && v[lo] == '-' {
        let ghost d = v@.subrange(lo + 1, hi as int);
        assert(w.drop_first() =~= d);
        if lo + 1 < hi && v[lo + 1] == '+' {
            assert(d[0] == '+');
            assert(!is_digit(d[0]));
            return None;
        }
        proof {
            assert(crate::scan::unsigned_digits(d) =~= d);
        }
        match parse_unsigned_range(v, lo + 1, hi, 2147483648) {
            Some(m) => {
                let x: i64 = 0i64 - (m as i64);
                Some(x as i32)
            },
            None => None,
        }
    } else {
        match parse_unsigned_range(v, lo, hi, 2147483647) {
            Some(m) => Some(m as i32),
            None => None,
        }
    }
}

fn read_zone(text: &str) -> (r: Option<i16>)
    ensures
        match r {
            Some(x) => zone_degrees(text@) == Some(x as int),
            None => zone_degrees(text@) is None,
        },
{
    let v = chars_of(text);
    let (a, b) = trim_bounds(&v, 0, v.len());
    assert(v@.subrange(0, v@.len() as int) =~= text@);
    match read_i32(&v, a, b) {
        None => None,
        Some(m) => {
            let d: i32 = if m >= 0 {
                m / 1000
            } else {
                let mag: i64 = 0i64 - (m as i64);
                (0i64 - mag / 1000) as i32
            };
            let c: i16 = if d < -32768 {
                -32768i16
            } else if d > 32767 {
                32767i16
            } else {
                d as i16
            };
            Some(c)
        },
    }
}

/// The hottest thermal zone, in whole degrees, from the zones' `temp` files that could
/// be read.
pub fn hottest_zone(readings: &Vec<String>) -> (r: Option<i16>)
    ensures
        match r {
            Some(x) => hottest_spec(readings@) == Some(x as int),
            None => hottest_spec(readings@) is None,
        },
{
    let mut best: Option<i16> = None;
    let mut i: usize = 0;
    while i < readings.len()
        invariant
            i <= readings@.len(),
            match best {
                Some(x) => hottest_spec(readings@.subrange(0, i as int)) == Some(x as int),
                None => hottest_spec(readings@.subrange(0, i as int)) is None,
            },
        decreases readings@.len() - i,
    {
        proof {
            let pre = readings@.subrange(0, i + 1);
            assert(pre.drop_last() =~= readings@.subrange(0, i as int));
            assert(pre.last() == readings@[i as int]);
        }
        match read_zone(readings[i].as_str()) {
            None => {},
            Some(d) => {
                best = match best {
                    Some(p) => Some(if d > p {
                        d
                    } else {
                        p
                    }),
                    None => Some(d),
                };
            },
        }
        i = i + 1;
    }
    assert(readings@.subrange(0, i as int) =~= readings@);
    best
}

/// The first word ending in `%;` or `%`, without that ending.
pub open spec fn pct_word(words: Seq<Seq<char>>) -> Option<Seq<char>>
    decreases words.len(),
{
    if words.len() == 0 {
        None
    } else {
        let w = words[0];
        if w.len() >= 2 && w[w.len() - 2] == '%' && w[w.len() - 1] == ';' {
            Some(w.subrange(0, w.len() - 2))
        } else if w.len() >= 1 && w[w.len() - 1] == '%' {
            Some(w.subrange(0, w.len() - 1))
        } else {
            pct_word(words.drop_first())
        }
    }
}

/// What `pmset -g batt` says: the power source it names, and the charge it lists,
/// capped at 100.
pub open spec fn pmset_spec(text: Seq<char>) -> (PowerSource, Option<u8>) {
    let power = if contains_sub(text, "'AC Power'"@) {
        PowerSource::Mains
    } else if contains_sub(text, "'Battery Power'"@) {
        PowerSource::Battery
    } else {
        PowerSource::Unknown
    };
    let pct = match pct_word(words_of(text)) {
        Some(w) => match parse_unsigned(w, 255) {
            Some(p) => Some(if p > 100 { 100u8 } else { p as u8 }),
            None => None,
        },
        None => None,
    };
    (power, pct)
}

/// Reads the power source and charge out of `pmset -g batt` output. A desktop prints
/// the source alone, which is why an absent percentage stays absent.
pub fn power_from_pmset(text: &str) -> (r: (PowerSource, Option<u8>))
    ensures
        r == pmset_spec(text@),
{
    let v = chars_of(text);
    let ac = chars_of("'AC Power'");
    let batt = chars_of("'Battery Power'");
    let power = if vec_contains_sub(&v, &ac) {
        PowerSource::Mains
    } else if vec_contains_sub(&v, &batt) {
        PowerSource::Battery
    } else {
        PowerSource::Unknown
    };
    let ws = word_bounds(&v, 0, v.len());
    let ghost words = words_of(v@.subrange(0, v@.len() as int));
    assert(v@.subrange(0, v@.len() as int) =~= text@);
    assert(power == pmset_spec(text@).0);
    let mut k: usize = 0;
    assert(words.skip(0) =~= words);
    while k < ws.len()
        invariant
            k <= ws@.len(),
            ws@.len() == words.len(),
            words == words_of(text@),
            power == pmset_spec(text@).0,
            forall|i: int| 0 <= i < ws@.len() ==> (#[trigger] ws@[i]).0 <= ws@[i].1 <= v@.len()
                && v@.subrange(ws@[i].0 as int, ws@[i].1 as int) == words[i],
            pct_word(words) == pct_word(words.skip(k as int)),
        decreases ws@.len() - k,
    {
        let (a, b) = ws[k];
        assert(ws@[k as int].0 <= ws@[k as int].1);
        let ghost w = v@.subrange(a as int, b as int);
        assert(words.skip(k as int)[0] == words[k as int]);
        assert(words.skip(k as int).drop_first() =~= words.skip(k + 1));
        if b - a >= 2 && v[b - 2] == '%' && v[b - 1] == ';' {
            assert(w[w.len() - 2] == v@[b - 2] && w[w.len() - 1] == v@[b - 1]);
            assert(w.subrange(0, w.len() - 2) =~= v@.subrange(a as int, b - 2));
            let p = parse_unsigned_range(&v, a, b - 2, 255);
            return (power, match p {
                Some(x) => Some(if x > 100 { 100u8 } else { x as u8 }),
                None => None,
            });
        } else if b - a >= 1 && v[b - 1] == '%' {
            proof {
                if w.len() >= 2 {
                    assert(w[w.len() - 2] == v@[b - 2]);
                }
            }
            assert(w[w.len() - 1] == v@[b - 1]);
            assert(w.subrange(0, w.len() - 1) =~= v@.subrange(a as int, b - 1));
            let p = parse_unsigned_range(&v, a, b - 1, 255);
            return (power, match p {
                Some(x) => Some(if x > 100 { 100u8 } else { x as u8 }),
                None => None,
            });
        }
        proof {
            if w.len() >= 2 {
                assert(w[w.len() - 2] == v@[b - 2] && w[w.len() - 1] == v@[b - 1]);
            }
            if w.len() >= 1 {
                assert(w[w.len() - 1] == v@[b - 1]);
            }
        }
        k = k + 1;
    }
    (power, None)
}

} // verus!
