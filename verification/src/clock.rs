//! What a node holds of each device's operations, and what it owes a peer.
//!
//! A clock summary names, per device, the highest counter held with nothing missing
//! below it, plus the counters held past that gap. Claiming the highest counter
//! instead would silently lose data: a node holding 1, 2 and 5 would claim 5, and a
//! peer would send nothing above it, leaving 3 and 4 missing for good. Claiming 2 only
//! costs redundant resends, which dedupe on arrival.

use vstd::prelude::*;

verus! {

/// Cap on the counters listed above the watermark per device. Truncating only costs
/// a redundant resend.
pub const MAX_ABOVE_PER_DEVICE: usize = 4096;

/// Operation ids in log order: by device, then counter.
pub open spec fn id_lt(a: (u128, u64), b: (u128, u64)) -> bool {
    a.0 < b.0 || (a.0 == b.0 && a.1 < b.1)
}

/// Ids strictly increasing, as the log's key order gives them.
pub open spec fn ids_sorted(s: Seq<(u128, u64)>) -> bool {
    forall|i: int, j: int| 0 <= i < j < s.len() ==> id_lt(#[trigger] s[i], #[trigger] s[j])
}

/// The counters held for device `d`, in order.
pub open spec fn counters_of(s: Seq<(u128, u64)>, d: u128) -> Seq<u64>
    decreases s.len(),
{
    if s.len() == 0 {
        Seq::empty()
    } else if s.last().0 == d {
        counters_of(s.drop_last(), d).push(s.last().1)
    } else {
        counters_of(s.drop_last(), d)
    }
}

/// Walking up from `w` while the next counter is `w + 1`.
pub open spec fn walk(cs: Seq<u64>, w: nat) -> nat
    decreases cs.len(),
{
    if cs.len() > 0 && cs[0] == w + 1 {
        walk(cs.drop_first(), cs[0] as nat)
    } else {
        w
    }
}

/// The watermark of device `d`: the highest counter held with every counter from 1 up
/// to it held.
pub open spec fn watermark(s: Seq<(u128, u64)>, d: u128) -> nat {
    walk(counters_of(s, d), 0)
}

/// The counters of `cs` above `w`, in order.
pub open spec fn above_of(cs: Seq<u64>, w: nat) -> Seq<u64>
    decreases cs.len(),
{
    if cs.len() == 0 {
        Seq::empty()
    } else if cs.last() > w {
        above_of(cs.drop_last(), w).push(cs.last())
    } else {
        above_of(cs.drop_last(), w)
    }
}

/// At most the first `n` of `s`.
pub open spec fn capped<A>(s: Seq<A>, n: nat) -> Seq<A> {
    if s.len() <= n {
        s
    } else {
        s.subrange(0, n as int)
    }
}

/// The distinct devices of sorted ids, in order.
pub open spec fn devices_of(s: Seq<(u128, u64)>) -> Seq<u128>
    decreases s.len(),
{
    if s.len() == 0 {
        Seq::empty()
    } else {
        let prev = devices_of(s.drop_last());
        if prev.len() > 0 && prev.last() == s.last().0 {
            prev
        } else {
            prev.push(s.last().0)
        }
    }
}

/// What this node holds, per device.
#[derive(Debug, Clone)]
pub struct ClockSummary {
    /// Each device with its watermark.
    pub entries: Vec<(u128, u64)>,
    /// For devices holding counters past the watermark, those counters (capped).
    pub above: Vec<(u128, Vec<u64>)>,
}

/// The entries a summary of `s` lists.
pub open spec fn summary_entries(s: Seq<(u128, u64)>) -> Seq<(u128, u64)> {
    devices_of(s).map_values(|d: u128| (d, watermark(s, d) as u64))
}

/// The counters past the watermark a summary of `s` lists for `d`.
pub open spec fn summary_above(s: Seq<(u128, u64)>, d: u128) -> Seq<u64> {
    capped(above_of(counters_of(s, d), watermark(s, d)), MAX_ABOVE_PER_DEVICE as nat)
}

/// The devices of `devs` that hold counters past their watermark, with those counters.
pub open spec fn summary_above_list(s: Seq<(u128, u64)>, devs: Seq<u128>) -> Seq<(u128, Seq<u64>)>
    decreases devs.len(),
{
    if devs.len() == 0 {
        Seq::empty()
    } else {
        let prev = summary_above_list(s, devs.drop_last());
        let d = devs.last();
        if summary_above(s, d).len() > 0 {
            prev.push((d, summary_above(s, d)))
        } else {
            prev
        }
    }
}

/// The views of the `above` list.
pub open spec fn above_views(a: Seq<(u128, Vec<u64>)>) -> Seq<(u128, Seq<u64>)> {
    a.map_values(|p: (u128, Vec<u64>)| (p.0, p.1@))
}

proof fn lemma_counters_split(s: Seq<(u128, u64)>, k: int, d: u128)
    requires
        0 <= k <= s.len(),
    ensures
        counters_of(s, d) == counters_of(s.subrange(0, k), d) + counters_of(s.subrange(k, s.len() as int), d),
    decreases s.len(),
{
    if k == s.len() {
        assert(s.subrange(0, k) =~= s);
        assert(s.subrange(k, s.len() as int) =~= Seq::<(u128, u64)>::empty());
        assert(counters_of(s, d) + Seq::<u64>::empty() =~= counters_of(s, d));
    } else {
        lemma_counters_split(s.drop_last(), k, d);
        assert(s.drop_last().subrange(0, k) =~= s.subrange(0, k));
        let tail = s.subrange(k, s.len() as int);
        assert(tail.drop_last() =~= s.drop_last().subrange(k, s.drop_last().len() as int));
        assert(tail.last() == s.last());
        if s.last().0 == d {
            assert(counters_of(s, d) =~= counters_of(s.subrange(0, k), d) + counters_of(tail, d));
        }
    }
}

proof fn lemma_counters_none(s: Seq<(u128, u64)>, d: u128)
    requires
        forall|i: int| 0 <= i < s.len() ==> (#[trigger] s[i]).0 != d,
    ensures
        counters_of(s, d) == Seq::<u64>::empty(),
    decreases s.len(),
{
    if s.len() > 0 {
        lemma_counters_none(s.drop_last(), d);
    }
}

proof fn lemma_counters_all(s: Seq<(u128, u64)>, d: u128)
    requires
        forall|i: int| 0 <= i < s.len() ==> (#[trigger] s[i]).0 == d,
    ensures
        counters_of(s, d) == s.map_values(|p: (u128, u64)| p.1),
    decreases s.len(),
{
    if s.len() > 0 {
        lemma_counters_all(s.drop_last(), d);
        assert(s.map_values(|p: (u128, u64)| p.1) =~= s.drop_last().map_values(|p: (u128, u64)| p.1).push(s.last().1));
    }
}

/// In sorted ids, the counters of the device of the group `s[a..b]` are exactly that
/// group's counters.
proof fn lemma_group_counters(s: Seq<(u128, u64)>, a: int, b: int, d: u128)
    requires
        ids_sorted(s),
        0 <= a < b <= s.len(),
        forall|i: int| a <= i < b ==> (#[trigger] s[i]).0 == d,
        a > 0 ==> s[a - 1].0 != d,
        b < s.len() ==> s[b].0 != d,
    ensures
        counters_of(s, d) == s.subrange(a, b).map_values(|p: (u128, u64)| p.1),
{
    lemma_counters_split(s, a, d);
    let rest = s.subrange(a, s.len() as int);
    lemma_counters_split(rest, b - a, d);
    assert forall|i: int| 0 <= i < s.subrange(0, a).len() implies (#[trigger] s.subrange(0, a)[i]).0 != d by {
        assert(s.subrange(0, a)[i] == s[i]);
        assert(id_lt(s[a - 1], s[a]));
        if i < a - 1 {
            assert(id_lt(s[i], s[a - 1]));
        }
    }
    assert forall|i: int| 0 <= i < rest.subrange(b - a, rest.len() as int).len() implies (#[trigger] rest.subrange(
        b - a,
        rest.len() as int,
    )[i]).0 != d by {
        let j = b + i;
        assert(rest.subrange(b - a, rest.len() as int)[i] == s[j]);
        assert(id_lt(s[b - 1], s[b]));
        if j > b {
            assert(id_lt(s[b], s[j]));
        }
    }
    lemma_counters_none(s.subrange(0, a), d);
    lemma_counters_none(rest.subrange(b - a, rest.len() as int), d);
    assert(rest.subrange(0, b - a) =~= s.subrange(a, b));
    lemma_counters_all(s.subrange(a, b), d);
}

proof fn lemma_above_split(a: Seq<u64>, b: Seq<u64>, w: nat)
    ensures
        above_of(a + b, w) == above_of(a, w) + above_of(b, w),
    decreases b.len(),
{
    if b.len() == 0 {
        assert(a + b =~= a);
        assert(above_of(a, w) + above_of(b, w) =~= above_of(a, w));
    } else {
        lemma_above_split(a, b.drop_last(), w);
        assert((a + b).drop_last() =~= a + b.drop_last());
        assert((a + b).last() == b.last());
        if b.last() > w {
            assert(above_of(a + b, w) =~= above_of(a, w) + above_of(b, w));
        }
    }
}

proof fn lemma_devices_last(s: Seq<(u128, u64)>)
    requires
        s.len() > 0,
    ensures
        devices_of(s).len() > 0,
        devices_of(s).last() == s.last().0,
    decreases s.len(),
{
}

/// The group's counters, in order.
pub open spec fn group_counters(s: Seq<(u128, u64)>, a: int, b: int) -> Seq<u64> {
    s.subrange(a, b).map_values(|p: (u128, u64)| p.1)
}

proof fn lemma_extras_capped(cs: Seq<u64>, k: int, w: nat, ex: Seq<u64>)
    requires
        0 <= k <= cs.len(),
        ex == above_of(cs.subrange(0, k), w),
        ex.len() <= MAX_ABOVE_PER_DEVICE,
        k == cs.len() || ex.len() == MAX_ABOVE_PER_DEVICE,
    ensures
        ex == capped(above_of(cs, w), MAX_ABOVE_PER_DEVICE as nat),
{
    lemma_above_split(cs.subrange(0, k), cs.subrange(k, cs.len() as int), w);
    assert(cs.subrange(0, k) + cs.subrange(k, cs.len() as int) =~= cs);
    let all = above_of(cs, w);
    if k == cs.len() {
        assert(cs.subrange(0, k) =~= cs);
    } else {
        assert(all.subrange(0, MAX_ABOVE_PER_DEVICE as int) =~= ex);
    }
}

/// The group of ids for the device at `s`: where it ends, the device's watermark, and
/// its counters past the watermark (capped).
fn group_at(ids: &Vec<(u128, u64)>, s: usize) -> (r: (usize, u64, Vec<u64>))
    requires
        ids_sorted(ids@),
        s < ids@.len(),
        s > 0 ==> ids@[s - 1].0 != ids@[s as int].0,
    ensures
        s < r.0 <= ids@.len(),
        r.0 < ids@.len() ==> ids@[r.0 as int].0 != ids@[s as int].0,
        r.0 > 0 ==> ids@[r.0 - 1].0 == ids@[s as int].0,
        r.1 == watermark(ids@, ids@[s as int].0),
        r.2@ == summary_above(ids@, ids@[s as int].0),
        devices_of(ids@.subrange(0, r.0 as int)) == devices_of(ids@.subrange(0, s as int)).push(ids@[s as int].0),
{
    let n = ids.len();
    let d = ids[s].0;
    let mut e = s + 1;
    while e < n && ids[e].0 == d
        invariant
            s < e <= n,
            n == ids@.len(),
            ids@[s as int].0 == d,
            forall|i: int| s <= i < e ==> (#[trigger] ids@[i]).0 == d,
        decreases n - e,
    {
        e = e + 1;
    }
    let ghost cs = group_counters(ids@, s as int, e as int);
    proof {
        lemma_group_counters(ids@, s as int, e as int, d);
        assert(cs.len() == e - s);
        assert(cs.skip(0) =~= cs);
    }
    let mut w: u64 = 0;
    let mut j = s;
    while j < e && ids[j].1 > w && ids[j].1 - w == 1
        invariant
            s <= j <= e <= n,
            n == ids@.len(),
            cs == group_counters(ids@, s as int, e as int),
            walk(cs, 0) == walk(cs.skip(j - s), w as nat),
        decreases e - j,
    {
        proof {
            assert(cs.skip(j - s)[0] == ids@[j as int].1);
            assert(cs.skip(j - s).drop_first() =~= cs.skip(j + 1 - s));
        }
        w = ids[j].1;
        j = j + 1;
    }
    proof {
        if j < e {
            assert(cs.skip(j - s)[0] == ids@[j as int].1);
        }
    }
    let mut ex: Vec<u64> = Vec::new();
    let mut k = s;
    assert(cs.subrange(0, 0) =~= Seq::<u64>::empty());
    while k < e && ex.len() < MAX_ABOVE_PER_DEVICE
        invariant
            s <= k <= e <= n,
            n == ids@.len(),
            cs == group_counters(ids@, s as int, e as int),
            ex@ == above_of(cs.subrange(0, k - s), w as nat),
            ex@.len() <= MAX_ABOVE_PER_DEVICE,
        decreases e - k,
    {
        proof {
            let pre = cs.subrange(0, k + 1 - s);
            assert(pre.drop_last() =~= cs.subrange(0, k - s));
            assert(pre.last() == ids@[k as int].1);
        }
        if ids[k].1 > w {
            ex.push(ids[k].1);
        }
        k = k + 1;
    }
    proof {
        lemma_extras_capped(cs, k - s, w as nat, ex@);
        lemma_devices_grow(ids@, s as int, e as int, d);
    }
    (e, w, ex)
}

/// Summarizes the operation log, given the ids of the operations it holds in log order.
pub fn summarize(ids: &Vec<(u128, u64)>) -> (r: ClockSummary)
    requires
        ids_sorted(ids@),
    ensures
        r.entries@ == summary_entries(ids@),
        above_views(r.above@) == summary_above_list(ids@, devices_of(ids@)),
{
    let n = ids.len();
    let mut entries: Vec<(u128, u64)> = Vec::new();
    let mut above: Vec<(u128, Vec<u64>)> = Vec::new();
    let mut s: usize = 0;
    assert(ids@.subrange(0, 0) =~= Seq::<(u128, u64)>::empty());
    while s < n
        invariant
            n == ids@.len(),
            s <= n,
            ids_sorted(ids@),
            0 < s < n ==> ids@[s - 1].0 != ids@[s as int].0,
            entries@ == devices_of(ids@.subrange(0, s as int)).map_values(|d: u128| (d, watermark(ids@, d) as u64)),
            above_views(above@) == summary_above_list(ids@, devices_of(ids@.subrange(0, s as int))),
        decreases n - s,
    {
        let d = ids[s].0;
        let (e, w, ex) = group_at(ids, s);
        let ghost dv0 = devices_of(ids@.subrange(0, s as int));
        let ghost dv1 = devices_of(ids@.subrange(0, e as int));
        entries.push((d, w));
        if ex.len() > 0 {
            above.push((d, ex));
        }
        proof {
            assert(dv1.drop_last() =~= dv0);
            assert(dv1.last() == d);
            assert(entries@ =~= dv1.map_values(|x: u128| (x, watermark(ids@, x) as u64)));
            assert(above_views(above@) =~= summary_above_list(ids@, dv1));
        }
        s = e;
    }
    assert(ids@.subrange(0, n as int) =~= ids@);
    ClockSummary { entries, above }
}

/// Extending a prefix that ends just before a group of device `d` by part of that group
/// adds `d` to the devices once.
proof fn lemma_devices_grow(ids: Seq<(u128, u64)>, s: int, t: int, d: u128)
    requires
        0 <= s < t <= ids.len(),
        forall|i: int| s <= i < t ==> (#[trigger] ids[i]).0 == d,
        s > 0 ==> ids[s - 1].0 != d,
    ensures
        devices_of(ids.subrange(0, t)) == devices_of(ids.subrange(0, s)).push(d),
    decreases t - s,
{
    let pre = ids.subrange(0, t);
    assert(pre.drop_last() =~= ids.subrange(0, t - 1));
    assert(pre.last() == ids[t - 1]);
    if t - 1 == s {
        if s > 0 {
            lemma_devices_last(ids.subrange(0, s));
            assert(ids.subrange(0, s).last() == ids[s - 1]);
        }
    } else {
        lemma_devices_grow(ids, s, t - 1, d);
    }
}

// --- what the summary promises ---------------------------------------------------

/// Counters strictly increasing.
pub open spec fn strictly_increasing(cs: Seq<u64>) -> bool {
    forall|i: int, j: int| 0 <= i < j < cs.len() ==> cs[i] < cs[j]
}

proof fn lemma_counters_membership(s: Seq<(u128, u64)>, d: u128, c: u64)
    ensures
        counters_of(s, d).contains(c) <==> s.contains((d, c)),
    decreases s.len(),
{
    if s.len() > 0 {
        lemma_counters_membership(s.drop_last(), d, c);
        let p = counters_of(s.drop_last(), d);
        assert(s =~= s.drop_last().push(s.last()));
        if s.contains((d, c)) {
            let k = choose|k: int| 0 <= k < s.len() && s[k] == (d, c);
            if k < s.len() - 1 {
                assert(s.drop_last()[k] == (d, c));
            }
        }
        if s.drop_last().contains((d, c)) {
            let k = choose|k: int| 0 <= k < s.drop_last().len() && s.drop_last()[k] == (d, c);
            assert(s[k] == (d, c));
        }
        if s.last().0 == d {
            let q = p.push(s.last().1);
            if q.contains(c) {
                let k = choose|k: int| 0 <= k < q.len() && q[k] == c;
                if k < p.len() {
                    assert(p[k] == c);
                }
            }
            if p.contains(c) {
                let k = choose|k: int| 0 <= k < p.len() && p[k] == c;
                assert(q[k] == c);
            }
            if c == s.last().1 {
                assert(q[p.len() as int] == c);
            }
        }
    }
}

proof fn lemma_counters_increasing(s: Seq<(u128, u64)>, d: u128)
    requires
        ids_sorted(s),
    ensures
        strictly_increasing(counters_of(s, d)),
        forall|i: int| 0 <= i < counters_of(s, d).len() ==> s.contains((d, #[trigger] counters_of(s, d)[i])),
    decreases s.len(),
{
    if s.len() > 0 {
        let t = s.drop_last();
        assert(ids_sorted(t)) by {
            assert forall|i: int, j: int| 0 <= i < j < t.len() implies id_lt(#[trigger] t[i], #[trigger] t[j]) by {
                assert(t[i] == s[i] && t[j] == s[j]);
            }
        }
        lemma_counters_increasing(t, d);
        let p = counters_of(t, d);
        assert forall|i: int| 0 <= i < p.len() implies s.contains((d, #[trigger] p[i])) by {
            assert(t.contains((d, p[i])));
            let k = choose|k: int| 0 <= k < t.len() && t[k] == (d, p[i]);
            assert(s[k] == (d, p[i]));
        }
        if s.last().0 == d {
            let q = p.push(s.last().1);
            assert forall|i: int, j: int| 0 <= i < j < q.len() implies q[i] < q[j] by {
                if j == p.len() {
                    assert(t.contains((d, p[i])));
                    let k = choose|k: int| 0 <= k < t.len() && t[k] == (d, p[i]);
                    assert(id_lt(s[k], s[s.len() - 1]));
                }
            }
            assert(s.contains((d, s.last().1))) by {
                assert(s[s.len() - 1] == s.last());
            }
        }
    }
}

proof fn lemma_walk(cs: Seq<u64>, w: nat)
    requires
        strictly_increasing(cs),
        forall|i: int| 0 <= i < cs.len() ==> cs[i] > w,
    ensures
        walk(cs, w) >= w,
        walk(cs, w) == w || walk(cs, w) <= u64::MAX,
        forall|k: u64| w < k <= walk(cs, w) ==> #[trigger] cs.contains(k),
        !cs.contains((walk(cs, w) + 1) as u64) || walk(cs, w) + 1 > u64::MAX,
    decreases cs.len(),
{
    if cs.len() > 0 && cs[0] == w + 1 {
        let rest = cs.drop_first();
        assert forall|i: int| 0 <= i < rest.len() implies rest[i] > cs[0] by {
            assert(cs[0] < cs[i + 1]);
        }
        lemma_walk(rest, cs[0] as nat);
        let r = walk(rest, cs[0] as nat);
        assert forall|k: u64| w < k <= r implies #[trigger] cs.contains(k) by {
            if k == w + 1 {
                assert(cs[0] == k);
            } else {
                assert(rest.contains(k));
                let m = choose|m: int| 0 <= m < rest.len() && rest[m] == k;
                assert(cs[m + 1] == k);
            }
        }
        if r + 1 <= u64::MAX && cs.contains((r + 1) as u64) {
            let m = choose|m: int| 0 <= m < cs.len() && cs[m] == (r + 1) as u64;
            if m == 0 {
                assert(false);
            } else {
                assert(rest[m - 1] == (r + 1) as u64);
            }
        }
    } else {
        if w + 1 <= u64::MAX && cs.contains((w + 1) as u64) {
            let m = choose|m: int| 0 <= m < cs.len() && cs[m] == (w + 1) as u64;
            if m > 0 {
                assert(cs[0] < cs[m]);
            }
        }
    }
}

/// The watermark a summary claims for a device is exactly right: every counter from 1
/// up to it is held, and the next one is not. Counter 0 is never allocated; a log
/// holding one stops the walk at the start.
pub proof fn lemma_watermark_is_contiguous(ids: Seq<(u128, u64)>, d: u128)
    requires
        ids_sorted(ids),
        !ids.contains((d, 0)),
    ensures
        forall|k: u64| 1 <= k <= watermark(ids, d) ==> #[trigger] ids.contains((d, k)),
        watermark(ids, d) < u64::MAX ==> !ids.contains((d, (watermark(ids, d) + 1) as u64)),
        watermark(ids, d) <= u64::MAX,
{
    let cs = counters_of(ids, d);
    lemma_counters_increasing(ids, d);
    assert forall|i: int| 0 <= i < cs.len() implies cs[i] > 0 by {
        assert(ids.contains((d, cs[i])));
        if cs[i] == 0 {
            assert(ids.contains((d, 0)));
        }
    }
    lemma_walk(cs, 0);
    assert forall|k: u64| 1 <= k <= watermark(ids, d) implies #[trigger] ids.contains((d, k)) by {
        assert(cs.contains(k));
        lemma_counters_membership(ids, d, k);
    }
    if watermark(ids, d) < u64::MAX {
        lemma_counters_membership(ids, d, (watermark(ids, d) + 1) as u64);
    }
}

// --- what a peer is owed ------------------------------------------------------------

/// The watermark a summary's entries give `d`: the last entry for it, or 0.
pub open spec fn known_of(entries: Seq<(u128, u64)>, d: u128) -> nat
    decreases entries.len(),
{
    if entries.len() == 0 {
        0
    } else if entries.last().0 == d {
        entries.last().1 as nat
    } else {
        known_of(entries.drop_last(), d)
    }
}

/// The counters past the watermark a summary lists for `d`: the last list for it, or none.
pub open spec fn above_for(above: Seq<(u128, Seq<u64>)>, d: u128) -> Seq<u64>
    decreases above.len(),
{
    if above.len() == 0 {
        Seq::empty()
    } else if above.last().0 == d {
        above.last().1
    } else {
        above_for(above.drop_last(), d)
    }
}

/// Whether a summary says its node already holds `(d, c)`.
pub open spec fn covered(entries: Seq<(u128, u64)>, above: Seq<(u128, Seq<u64>)>, d: u128, c: u64) -> bool {
    c <= known_of(entries, d) || above_for(above, d).contains(c)
}

/// The ids of `local` the summary does not cover, in order.
pub open spec fn uncovered(local: Seq<(u128, u64)>, entries: Seq<(u128, u64)>, above: Seq<(u128, Seq<u64>)>) -> Seq<(u128, u64)>
    decreases local.len(),
{
    if local.len() == 0 {
        Seq::empty()
    } else {
        let prev = uncovered(local.drop_last(), entries, above);
        let x = local.last();
        if covered(entries, above, x.0, x.1) {
            prev
        } else {
            prev.push(x)
        }
    }
}

/// The batch owed to a peer: the uncovered ids, oldest first, stopping once `limit` are
/// taken.
pub open spec fn missing_spec(local: Seq<(u128, u64)>, entries: Seq<(u128, u64)>, above: Seq<(u128, Seq<u64>)>, limit: nat) -> Seq<(u128, u64)> {
    capped(uncovered(local, entries, above), limit)
}

fn known_in(entries: &Vec<(u128, u64)>, d: u128) -> (k: u64)
    ensures
        k == known_of(entries@, d),
{
    let mut i = entries.len();
    assert(entries@.subrange(0, i as int) =~= entries@);
    while i > 0
        invariant
            i <= entries@.len(),
            known_of(entries@, d) == known_of(entries@.subrange(0, i as int), d),
        decreases i,
    {
        let ghost pre = entries@.subrange(0, i as int);
        assert(pre.drop_last() =~= entries@.subrange(0, i - 1));
        if entries[i - 1].0 == d {
            return entries[i - 1].1;
        }
        i = i - 1;
    }
    0
}

fn above_has(above: &Vec<(u128, Vec<u64>)>, d: u128, c: u64) -> (b: bool)
    ensures
        b == above_for(above_views(above@), d).contains(c),
{
    let mut i = above.len();
    assert(above_views(above@).subrange(0, i as int) =~= above_views(above@));
    while i > 0
        invariant
            i <= above@.len(),
            above_for(above_views(above@), d) == above_for(above_views(above@).subrange(0, i as int), d),
        decreases i,
    {
        let ghost pre = above_views(above@).subrange(0, i as int);
        assert(pre.drop_last() =~= above_views(above@).subrange(0, i - 1));
        assert(pre.last() == (above@[i - 1].0, above@[i - 1].1@));
        if above[i - 1].0 == d {
            let list = &above[i - 1].1;
            assert(above_for(above_views(above@), d) == list@);
            let mut j: usize = 0;
            while j < list.len()
                invariant
                    j <= list@.len(),
                    above_for(above_views(above@), d) == list@,
                    forall|m: int| 0 <= m < j ==> list@[m] != c,
                decreases list@.len() - j,
            {
                if list[j] == c {
                    assert(list@[j as int] == c);
                    return true;
                }
                j = j + 1;
            }
            return false;
        }
        i = i - 1;
    }
    assert(above_views(above@).subrange(0, 0).len() == 0);
    false
}

/// The operations this node holds, by id in log order, that the peer's summary does not
/// cover, oldest first. `limit` bounds one batch; the peer asks again until nothing is
/// returned.
///
/// Counters the peer lists past its watermark are skipped: that is what lets a peer make
/// progress past an operation it has permanently refused.
pub fn ops_missing_for(local: &Vec<(u128, u64)>, remote: &ClockSummary, limit: usize) -> (r: Vec<(u128, u64)>)
    ensures
        r@ == missing_spec(local@, remote.entries@, above_views(remote.above@), limit as nat),
        r@.len() <= limit,
{
    let ghost entries = remote.entries@;
    let ghost above = above_views(remote.above@);
    let ghost cap: nat = limit as nat;
    if limit == 0 {
        return Vec::new();
    }
    let mut out: Vec<(u128, u64)> = Vec::new();
    let mut i: usize = 0;
    assert(local@.subrange(0, 0) =~= Seq::<(u128, u64)>::empty());
    while i < local.len()
        invariant
            i <= local@.len(),
            entries == remote.entries@,
            above == above_views(remote.above@),
            cap == limit as nat,
            limit > 0,
            out@ == uncovered(local@.subrange(0, i as int), entries, above),
            out@.len() < cap,
        decreases local@.len() - i,
    {
        let (d, c) = local[i];
        proof {
            let pre = local@.subrange(0, i + 1);
            assert(pre.drop_last() =~= local@.subrange(0, i as int));
            assert(pre.last() == (d, c));
        }
        let known = known_in(&remote.entries, d);
        let is_covered = c <= known || above_has(&remote.above, d, c);
        if !is_covered {
            out.push((d, c));
            if out.len() >= limit {
                proof {
                    lemma_uncovered_prefix(local@, i + 1, entries, above);
                    assert(out@.len() == cap);
                }
                return out;
            }
        }
        i = i + 1;
    }
    assert(local@.subrange(0, i as int) =~= local@);
    out
}

proof fn lemma_uncovered_prefix(local: Seq<(u128, u64)>, k: int, entries: Seq<(u128, u64)>, above: Seq<(u128, Seq<u64>)>)
    requires
        0 <= k <= local.len(),
    ensures
        uncovered(local.subrange(0, k), entries, above).len() <= uncovered(local, entries, above).len(),
        uncovered(local, entries, above).subrange(0, uncovered(local.subrange(0, k), entries, above).len() as int)
            == uncovered(local.subrange(0, k), entries, above),
    decreases local.len(),
{
    if k == local.len() {
        assert(local.subrange(0, k) =~= local);
        assert(uncovered(local, entries, above).subrange(0, uncovered(local, entries, above).len() as int)
            =~= uncovered(local, entries, above));
    } else {
        lemma_uncovered_prefix(local.drop_last(), k, entries, above);
        assert(local.drop_last().subrange(0, k) =~= local.subrange(0, k));
        let u = uncovered(local.drop_last(), entries, above);
        let v = uncovered(local, entries, above);
        let p = uncovered(local.subrange(0, k), entries, above);
        if v != u {
            assert(v == u.push(local.last()));
            assert(v.subrange(0, p.len() as int) =~= u.subrange(0, p.len() as int));
        }
    }
}

// --- a summary covers exactly what its node holds -----------------------------------

proof fn lemma_devices_cover(r: Seq<(u128, u64)>, d: u128, c: u64)
    requires
        r.contains((d, c)),
    ensures
        devices_of(r).contains(d),
    decreases r.len(),
{
    let k = choose|k: int| 0 <= k < r.len() && r[k] == (d, c);
    let prev = devices_of(r.drop_last());
    if k == r.len() - 1 {
        if prev.len() > 0 && prev.last() == r.last().0 {
            assert(prev[prev.len() - 1] == d);
        } else {
            assert(prev.push(d)[prev.len() as int] == d);
        }
    } else {
        assert(r.drop_last()[k] == (d, c));
        lemma_devices_cover(r.drop_last(), d, c);
        let m = choose|m: int| 0 <= m < prev.len() && prev[m] == d;
        if !(prev.len() > 0 && prev.last() == r.last().0) {
            assert(prev.push(r.last().0)[m] == d);
        }
    }
}

proof fn lemma_known_of_summary(r: Seq<(u128, u64)>, devs: Seq<u128>, d: u128)
    ensures
        known_of(devs.map_values(|x: u128| (x, watermark(r, x) as u64)), d) == (if devs.contains(d) {
            (watermark(r, d) as u64) as nat
        } else {
            0
        }),
    decreases devs.len(),
{
    let m = devs.map_values(|x: u128| (x, watermark(r, x) as u64));
    if devs.len() > 0 {
        lemma_known_of_summary(r, devs.drop_last(), d);
        assert(m.drop_last() =~= devs.drop_last().map_values(|x: u128| (x, watermark(r, x) as u64)));
        assert(m.last() == (devs.last(), watermark(r, devs.last()) as u64));
        if devs.drop_last().contains(d) {
            let k = choose|k: int| 0 <= k < devs.drop_last().len() && devs.drop_last()[k] == d;
            assert(devs[k] == d);
        }
        if devs.contains(d) && devs.last() != d {
            let k = choose|k: int| 0 <= k < devs.len() && devs[k] == d;
            assert(devs.drop_last()[k] == d);
        }
        if devs.last() == d {
            assert(devs[devs.len() - 1] == d);
        }
    }
}

proof fn lemma_above_for_summary(r: Seq<(u128, u64)>, devs: Seq<u128>, d: u128)
    ensures
        above_for(summary_above_list(r, devs), d) == (if devs.contains(d) && summary_above(r, d).len() > 0 {
            summary_above(r, d)
        } else {
            Seq::<u64>::empty()
        }),
    decreases devs.len(),
{
    if devs.len() > 0 {
        lemma_above_for_summary(r, devs.drop_last(), d);
        let prev = summary_above_list(r, devs.drop_last());
        let e = devs.last();
        if summary_above(r, e).len() > 0 {
            assert(summary_above_list(r, devs) == prev.push((e, summary_above(r, e))));
            let q = prev.push((e, summary_above(r, e)));
            assert(q.drop_last() =~= prev);
            assert(q.last() == (e, summary_above(r, e)));
        } else {
            assert(summary_above_list(r, devs) == prev);
        }
        if devs.drop_last().contains(d) {
            let k = choose|k: int| 0 <= k < devs.drop_last().len() && devs.drop_last()[k] == d;
            assert(devs[k] == d);
        }
        if devs.contains(d) && devs.last() != d {
            let k = choose|k: int| 0 <= k < devs.len() && devs[k] == d;
            assert(devs.drop_last()[k] == d);
        }
        if devs.last() == d {
            assert(devs[devs.len() - 1] == d);
        }
    }
}

proof fn lemma_above_of_contains(cs: Seq<u64>, w: nat, c: u64)
    ensures
        above_of(cs, w).contains(c) <==> (cs.contains(c) && c > w),
    decreases cs.len(),
{
    if cs.len() > 0 {
        lemma_above_of_contains(cs.drop_last(), w, c);
        let p = above_of(cs.drop_last(), w);
        assert(cs =~= cs.drop_last().push(cs.last()));
        if cs.contains(c) && !cs.drop_last().contains(c) {
            let k = choose|k: int| 0 <= k < cs.len() && cs[k] == c;
            if k < cs.len() - 1 {
                assert(cs.drop_last()[k] == c);
            }
        }
        if cs.drop_last().contains(c) {
            let k = choose|k: int| 0 <= k < cs.drop_last().len() && cs.drop_last()[k] == c;
            assert(cs[k] == c);
        }
        if cs.last() > w {
            let q = p.push(cs.last());
            if q.contains(c) {
                let k = choose|k: int| 0 <= k < q.len() && q[k] == c;
                if k < p.len() {
                    assert(p[k] == c);
                }
            }
            if p.contains(c) {
                let k = choose|k: int| 0 <= k < p.len() && p[k] == c;
                assert(q[k] == c);
            }
            if c == cs.last() {
                assert(q[p.len() as int] == c);
            }
        }
    }
}

/// A summary says its node holds exactly the operations it holds: a peer judging by it
/// is never denied an operation the node lacks, and is never sent one it has, as long as
/// the counters past the watermark were not cut off by the cap. Counter 0 is never
/// allocated, and is left out.
pub proof fn lemma_summary_covers_exactly(r: Seq<(u128, u64)>, d: u128, c: u64)
    requires
        ids_sorted(r),
        !r.contains((d, 0)),
        c >= 1,
        above_of(counters_of(r, d), watermark(r, d)).len() <= MAX_ABOVE_PER_DEVICE,
    ensures
        covered(summary_entries(r), summary_above_list(r, devices_of(r)), d, c) <==> r.contains((d, c)),
{
    let devs = devices_of(r);
    let cs = counters_of(r, d);
    let w = watermark(r, d);
    lemma_watermark_is_contiguous(r, d);
    lemma_known_of_summary(r, devs, d);
    lemma_above_for_summary(r, devs, d);
    lemma_above_of_contains(cs, w, c);
    lemma_counters_membership(r, d, c);
    assert(summary_above(r, d) == above_of(cs, w));
    if !devs.contains(d) {
        if cs.len() > 0 {
            lemma_counters_increasing(r, d);
            assert(r.contains((d, cs[0])));
            lemma_devices_cover(r, d, cs[0]);
        }
        assert(cs.len() == 0);
        assert(w == 0);
        if r.contains((d, c)) {
            lemma_devices_cover(r, d, c);
        }
    }
    if r.contains((d, c)) && c > w {
        assert(above_of(cs, w).len() > 0) by {
            let k = choose|k: int| 0 <= k < above_of(cs, w).len() && above_of(cs, w)[k] == c;
        }
        lemma_devices_cover(r, d, c);
    }
}

/// What a node owes a peer is exactly what the peer lacks: judged against a summary of
/// the peer's log, an operation is owed if and only if the peer does not hold it (with
/// the same exceptions as [`lemma_summary_covers_exactly`]).
pub proof fn lemma_owed_is_what_peer_lacks(remote: Seq<(u128, u64)>, d: u128, c: u64)
    requires
        ids_sorted(remote),
        !remote.contains((d, 0)),
        c >= 1,
        above_of(counters_of(remote, d), watermark(remote, d)).len() <= MAX_ABOVE_PER_DEVICE,
    ensures
        !covered(summary_entries(remote), summary_above_list(remote, devices_of(remote)), d, c) <==> !remote.contains((d, c)),
{
    lemma_summary_covers_exactly(remote, d, c);
}

} // verus!
