//! Deciding how much replication a device can currently afford.
//!
//! Operations and content have wildly different costs: an operation is a few hundred
//! bytes describing an intent, the content it refers to can be megabytes. So the ladder
//! is: full sync, then metadata plus capped content, then metadata only, then nothing.
//! Only the last rung stops tracking the filesystem, and it is reserved for a battery
//! low enough that the device is about to die anyway.
//!
//! Every input can be unknown, and unknown always means unconstrained.

use vstd::prelude::*;
use crate::text::{dec_digit, dec_string, int_string, push_char, push_decimal, push_signed};
use crate::telemetry::{LinkCost, PowerSource, Telemetry};

verus! {

pub const KB: u64 = 1024;
pub const MB: u64 = 1048576;
pub const GB: u64 = 1073741824;
pub const TB: u64 = 1099511627776;

/// `2^e`.
pub open spec fn pow2(e: nat) -> nat
    decreases e,
{
    if e == 0 {
        1
    } else {
        2 * pow2((e - 1) as nat)
    }
}

/// How many low bits a 64-bit integer loses on its way into a 53-bit float mantissa.
pub open spec fn f64_shift(n: nat) -> nat
    decreases n,
{
    if n < 0x20_0000_0000_0000 {
        0
    } else {
        1 + f64_shift(n / 2)
    }
}

/// The value of `n as f64`: `n` rounded to 53 significant bits, ties to even.
pub open spec fn f64_value(n: nat) -> nat {
    let p = pow2(f64_shift(n));
    let q = n / p;
    let r = n % p;
    if r * 2 > p || (r * 2 == p && q % 2 == 1) {
        (q + 1) * p
    } else {
        q * p
    }
}

/// `10 * m / scale` rounded to the nearest integer, ties to even: the tenths digit that
/// `{:.1}` prints for the exact quotient `m / scale`.
pub open spec fn round_tenths(m: nat, scale: nat) -> nat {
    let q = (10 * m) / scale;
    let r = (10 * m) % scale;
    if r * 2 > scale || (r * 2 == scale && q % 2 == 1) {
        q + 1
    } else {
        q
    }
}

/// A count of tenths written with one decimal place.
pub open spec fn one_decimal(t: nat) -> Seq<char> {
    dec_string(t / 10) + seq!['.', dec_digit(t % 10)]
}

/// `n / scale` as `{:.1}` prints the float quotient, followed by `unit`.
pub open spec fn scaled(n: u64, scale: nat, unit: Seq<char>) -> Seq<char> {
    one_decimal(round_tenths(f64_value(n as nat), scale)) + unit
}

/// Bytes as an operator would write them: the largest unit the count reaches, with one
/// decimal place, or plain bytes below a kilobyte.
pub open spec fn human_bytes_spec(n: u64) -> Seq<char> {
    if n >= TB {
        scaled(n, TB as nat, "TB"@)
    } else if n >= GB {
        scaled(n, GB as nat, "GB"@)
    } else if n >= MB {
        scaled(n, MB as nat, "MB"@)
    } else if n >= KB {
        scaled(n, KB as nat, "KB"@)
    } else {
        dec_string(n as nat) + "B"@
    }
}

/// Computes `f64_value(n)` exactly, in integers.
fn float_value(n: u64) -> (m: u128)
    ensures
        m == f64_value(n as nat),
        m <= 2 * (n as nat) + 1,
{
    let mut p: u128 = 1;
    let ghost mut e: nat = 0;
    while (n as u128) / p >= 0x20_0000_0000_0000
        invariant
            p == pow2(e),
            1 <= p <= 0x1000,
            f64_shift(n as nat) == e + f64_shift((n as nat) / (p as nat)),
        decreases (n as u128) / p,
    {
        let ghost x = (n as nat) / (p as nat);
        proof {
            assert(p * 0x20_0000_0000_0000 <= n) by (nonlinear_arith)
                requires
                    (n as nat) / (p as nat) >= 0x20_0000_0000_0000,
                    p >= 1,
            ;
            vstd::arithmetic::div_mod::lemma_div_denominator(n as int, p as int, 2);
            assert((x / 2) == (n as nat) / ((p * 2) as nat));
            assert(x / 2 < x);
        }
        p = p * 2;
        proof {
            e = e + 1;
        }
    }
    let q: u128 = (n as u128) / p;
    let r: u128 = (n as u128) % p;
    proof {
        assert(f64_shift((n as nat) / (p as nat)) == 0);
        vstd::arithmetic::div_mod::lemma_fundamental_div_mod(n as int, p as int);
        assert(q * p + r == n);
        assert(0 <= r < p);
        assert(q * p <= n);
        assert(p <= 2 * (n as nat) + 1 || n == 0);
    }
    if r * 2 > p || (r * 2 == p && q % 2 == 1) {
        proof {
            assert((q + 1) * p == q * p + p) by (nonlinear_arith);
            assert(r >= 1);
            assert(p <= 2 * r);
        }
        (q + 1) * p
    } else {
        q * p
    }
}

/// Appends `n / scale` with one decimal place, as the float formatter prints it.
fn push_scaled(s: &mut String, n: u64, scale: u64)
    requires
        scale >= 1024,
        n >= scale,
    ensures
        final(s)@ == old(s)@ + one_decimal(round_tenths(f64_value(n as nat), scale as nat)),
{
    let m = float_value(n);
    let sc = scale as u128;
    let q = (10 * m) / sc;
    let r = (10 * m) % sc;
    let t: u128 = if r * 2 > sc || (r * 2 == sc && q % 2 == 1) {
        q + 1
    } else {
        q
    };
    proof {
        assert(q as int <= (10 * m) as int / 1024) by (nonlinear_arith)
            requires
                q as int == (10 * m) as int / sc as int,
                sc >= 1024,
                m <= 0x3_0000_0000_0000_0000,
        ;
        assert(t / 10 <= 0xffff_ffff_ffff_ffff);
    }
    push_decimal(s, (t / 10) as u64);
    push_char(s, '.');
    let d = (t % 10) as u64;
    push_char(s, ((48 + d) as u8) as char);
    assert(s@ =~= old(s)@ + one_decimal(t as nat));
}

/// Bytes as an operator would write them, for reasons shown in logs and the console.
///
/// Public so the CLI's `status` formats a budget the same way the reason strings inside
/// it do; two spellings of the same number on one screen is its own small confusion.
pub fn human_bytes(n: u64) -> (s: String)
    ensures
        s@ == human_bytes_spec(n),
{
    let mut s = String::new();
    if n >= TB {
        push_scaled(&mut s, n, TB);
        s.append("TB");
    } else if n >= GB {
        push_scaled(&mut s, n, GB);
        s.append("GB");
    } else if n >= MB {
        push_scaled(&mut s, n, MB);
        s.append("MB");
    } else if n >= KB {
        push_scaled(&mut s, n, KB);
        s.append("KB");
    } else {
        push_decimal(&mut s, n);
        s.append("B");
    }
    assert(s@ =~= human_bytes_spec(n));
    s
}

/// How much work replication may do on this pass.
#[derive(Debug, Clone)]
pub struct SyncBudget {
    /// Contact peers at all.
    pub sync: bool,
    /// Transfer chunk content, not just operations.
    pub content: bool,
    /// Cap on content bytes for one pass. `u64::MAX` means uncapped.
    pub max_content_bytes: u64,
    /// Multiplier on the configured poll interval, in tenths; larger means less often.
    pub interval_scale_tenths: u32,
    /// Why this budget was chosen, for logs and the admin console.
    pub reason: String,
}

/// A budget as values: what `SyncBudget` holds, with the reason as characters.
pub struct BudgetModel {
    pub sync: bool,
    pub content: bool,
    pub max_content_bytes: u64,
    pub interval_scale_tenths: u32,
    pub reason: Seq<char>,
}

impl View for SyncBudget {
    type V = BudgetModel;

    open spec fn view(&self) -> BudgetModel {
        BudgetModel {
            sync: self.sync,
            content: self.content,
            max_content_bytes: self.max_content_bytes,
            interval_scale_tenths: self.interval_scale_tenths,
            reason: self.reason@,
        }
    }
}

pub open spec fn unlimited_model() -> BudgetModel {
    BudgetModel {
        sync: true,
        content: true,
        max_content_bytes: u64::MAX,
        interval_scale_tenths: 10,
        reason: "no constraints apply"@,
    }
}

pub open spec fn metadata_only_model(reason: Seq<char>, tenths: u32) -> BudgetModel {
    BudgetModel { sync: true, content: false, max_content_bytes: 0, interval_scale_tenths: tenths, reason }
}

pub open spec fn capped_model(reason: Seq<char>, max: u64, tenths: u32) -> BudgetModel {
    BudgetModel { sync: true, content: true, max_content_bytes: max, interval_scale_tenths: tenths, reason }
}

pub open spec fn paused_model(reason: Seq<char>) -> BudgetModel {
    BudgetModel { sync: false, content: false, max_content_bytes: 0, interval_scale_tenths: 40, reason }
}

impl SyncBudget {
    pub fn unlimited() -> (b: Self)
        ensures
            b@ == unlimited_model(),
    {
        SyncBudget {
            sync: true,
            content: true,
            max_content_bytes: u64::MAX,
            interval_scale_tenths: 10,
            reason: String::from_str("no constraints apply"),
        }
    }

    fn metadata_only(reason: String, interval_scale_tenths: u32) -> (b: Self)
        ensures
            b@ == metadata_only_model(reason@, interval_scale_tenths),
    {
        SyncBudget { sync: true, content: false, max_content_bytes: 0, interval_scale_tenths, reason }
    }

    fn capped(reason: String, max_content_bytes: u64, interval_scale_tenths: u32) -> (b: Self)
        ensures
            b@ == capped_model(reason@, max_content_bytes, interval_scale_tenths),
    {
        SyncBudget { sync: true, content: true, max_content_bytes, interval_scale_tenths, reason }
    }

    fn paused(reason: String) -> (b: Self)
        ensures
            b@ == paused_model(reason@),
    {
        SyncBudget { sync: false, content: false, max_content_bytes: 0, interval_scale_tenths: 40, reason }
    }
}

/// What replication currently has outstanding.
#[derive(Debug, Clone, Copy, PartialEq, Eq, Structural)]
pub struct BacklogView {
    pub pending_ops: u64,
    pub missing_chunks: u64,
}

impl Default for BacklogView {
    fn default() -> (b: Self)
        ensures
            b.pending_ops == 0,
            b.missing_chunks == 0,
    {
        BacklogView { pending_ops: 0, missing_chunks: 0 }
    }
}

/// Decides how much one replication pass may do.
pub trait Scheduler {
    fn plan(&self, telemetry: &Telemetry, backlog: &BacklogView) -> SyncBudget;
}

/// Thresholds governing the rule-based scheduler.
#[derive(Debug, Clone, Copy)]
pub struct Thresholds {
    /// At or below this charge, stop transferring content.
    pub battery_low_pct: u8,
    /// At or below this charge, stop contacting peers entirely.
    pub battery_critical_pct: u8,
    /// At or above this temperature, stop transferring content.
    pub temp_high_c: i16,
    /// Content cap while conserving, in bytes.
    pub conserving_content_bytes: u64,
    /// Free space to leave alone, in bytes: not a threshold to throttle at but a floor
    /// to stay above.
    pub storage_reserve_bytes: u64,
}

impl Default for Thresholds {
    fn default() -> (t: Self)
        ensures
            t.battery_low_pct == 20,
            t.battery_critical_pct == 5,
            t.temp_high_c == 70,
            t.conserving_content_bytes == 8 * MB,
            t.storage_reserve_bytes == GB,
    {
        Thresholds {
            battery_low_pct: 20,
            battery_critical_pct: 5,
            temp_high_c: 70,
            conserving_content_bytes: 8 * MB,
            storage_reserve_bytes: GB,
        }
    }
}

/// The critical threshold derived from the low one: a quarter of it, at least 2, and
/// never above the low threshold itself.
pub open spec fn derived_critical(low: u8) -> u8 {
    let quarter = low / 4;
    let floored = if quarter < 2 { 2 } else { quarter };
    if floored > low { low } else { floored }
}

impl Thresholds {
    /// Derive the critical threshold from the low one when it is not set explicitly.
    ///
    /// Clamped to at most `battery_low_pct`. Without that, a low threshold of 1 would
    /// derive a critical threshold of 2 and invert the ladder.
    pub fn from_config(battery_low_pct: u8, temp_high_c: i16, storage_reserve_mb: u64) -> (t: Self)
        ensures
            t.battery_low_pct == battery_low_pct,
            t.battery_critical_pct == derived_critical(battery_low_pct),
            t.battery_critical_pct <= t.battery_low_pct,
            t.temp_high_c == temp_high_c,
            t.conserving_content_bytes == 8 * MB,
            t.storage_reserve_bytes == if storage_reserve_mb * MB > u64::MAX {
                u64::MAX as int
            } else {
                storage_reserve_mb * MB
            },
    {
        let quarter = battery_low_pct / 4;
        let floored = if quarter < 2 { 2 } else { quarter };
        let critical = if floored > battery_low_pct { battery_low_pct } else { floored };
        Thresholds {
            battery_low_pct,
            battery_critical_pct: critical,
            temp_high_c,
            conserving_content_bytes: 8 * MB,
            // Saturating rather than wrapping: an operator who writes a reserve larger
            // than any disk gets "always metadata only".
            storage_reserve_bytes: match storage_reserve_mb.checked_mul(MB) {
                Some(v) => v,
                None => u64::MAX,
            },
        }
    }
}

/// The default policy: graded by battery, overridden by heat and metered links.
#[derive(Debug, Clone, Copy)]
pub struct RuleBasedScheduler {
    pub thresholds: Thresholds,
    /// When false, every plan is unlimited.
    pub enabled: bool,
}

impl Default for RuleBasedScheduler {
    fn default() -> (s: Self)
        ensures
            !s.enabled,
            s.thresholds.battery_low_pct == 20,
            s.thresholds.battery_critical_pct == 5,
            s.thresholds.temp_high_c == 70,
            s.thresholds.conserving_content_bytes == 8 * MB,
            s.thresholds.storage_reserve_bytes == GB,
    {
        RuleBasedScheduler { thresholds: Thresholds::default(), enabled: false }
    }
}

/// The top of the conserving band: twice the low threshold, saturating, capped at 100.
pub open spec fn comfortable_pct(low: u8) -> u8 {
    let doubled: int = if 2 * low > 255 { 255 } else { 2 * low };
    if doubled > 100 { 100 } else { doubled as u8 }
}

/// The battery ladder, and the overrides that outrank it.
pub open spec fn grade_model(t: Thresholds, tel: Telemetry, backlog: BacklogView) -> BudgetModel {
    if tel.temp_c is Some && tel.temp_c.unwrap() >= t.temp_high_c {
        metadata_only_model(
            "temperature "@ + int_string(tel.temp_c.unwrap() as int) + "°C is at or above the "@
                + int_string(t.temp_high_c as int) + "°C limit"@,
            20,
        )
    } else if tel.link == LinkCost::Metered {
        metadata_only_model("link is metered"@, 20)
    } else if tel.power != PowerSource::Battery {
        unlimited_model()
    } else if tel.battery_pct is None {
        capped_model("on battery with an unreadable charge level"@, t.conserving_content_bytes, 15)
    } else {
        let pct = tel.battery_pct.unwrap();
        if pct <= t.battery_critical_pct {
            paused_model(
                "battery "@ + dec_string(pct as nat) + "% is at or below the critical "@
                    + dec_string(t.battery_critical_pct as nat) + "%"@,
            )
        } else if pct <= t.battery_low_pct {
            metadata_only_model(
                "battery "@ + dec_string(pct as nat) + "% is at or below the low threshold "@
                    + dec_string(t.battery_low_pct as nat) + "%"@,
                20,
            )
        } else if pct <= comfortable_pct(t.battery_low_pct) && backlog.missing_chunks > 0 {
            capped_model(
                "battery "@ + dec_string(pct as nat) + "% is within the conserving band up to "@
                    + dec_string(comfortable_pct(t.battery_low_pct) as nat) + "%"@,
                t.conserving_content_bytes,
                10,
            )
        } else {
            unlimited_model()
        }
    }
}

/// Content held back to whatever room is left above the reserve: narrows the graded
/// budget, never widens it.
pub open spec fn headroom_model(t: Thresholds, b: BudgetModel, tel: Telemetry) -> BudgetModel {
    if tel.storage_free_bytes is None || !b.content {
        b
    } else {
        let free = tel.storage_free_bytes.unwrap();
        let reserve = t.storage_reserve_bytes;
        if free <= reserve {
            metadata_only_model(
                human_bytes_spec(free) + " free is at or below the "@ + human_bytes_spec(reserve)
                    + " reserve"@,
                b.interval_scale_tenths,
            )
        } else {
            let spare = (free - reserve) as u64;
            if spare >= b.max_content_bytes {
                b
            } else if b.max_content_bytes == u64::MAX {
                capped_model(
                    "content held to the "@ + human_bytes_spec(spare) + " free above the reserve"@,
                    spare,
                    b.interval_scale_tenths,
                )
            } else {
                capped_model(
                    b.reason + ", and further held to the "@ + human_bytes_spec(spare)
                        + " free above the reserve"@,
                    spare,
                    b.interval_scale_tenths,
                )
            }
        }
    }
}

/// The budget a scheduler plans: unlimited when disabled, otherwise graded and then
/// held to the disk headroom.
pub open spec fn plan_model(s: RuleBasedScheduler, tel: Telemetry, backlog: BacklogView) -> BudgetModel {
    if !s.enabled {
        unlimited_model()
    } else {
        headroom_model(s.thresholds, grade_model(s.thresholds, tel, backlog), tel)
    }
}

impl RuleBasedScheduler {
    pub fn new(thresholds: Thresholds) -> (s: Self)
        ensures
            s.thresholds == thresholds,
            s.enabled,
    {
        RuleBasedScheduler { thresholds, enabled: true }
    }

    pub fn disabled() -> (s: Self)
        ensures
            !s.enabled,
            s.thresholds.battery_low_pct == 20,
            s.thresholds.battery_critical_pct == 5,
            s.thresholds.temp_high_c == 70,
            s.thresholds.conserving_content_bytes == 8 * MB,
            s.thresholds.storage_reserve_bytes == GB,
    {
        RuleBasedScheduler { thresholds: Thresholds::default(), enabled: false }
    }

    /// Hold content back to whatever room is left above the reserve.
    fn limit_to_headroom(&self, budget: SyncBudget, telemetry: &Telemetry) -> (b: SyncBudget)
        ensures
            b@ == headroom_model(self.thresholds, budget@, *telemetry),
    {
        let free = match telemetry.storage_free_bytes {
            None => {
                return budget;
            },
            Some(f) => f,
        };
        if !budget.content {
            return budget;
        }
        let reserve = self.thresholds.storage_reserve_bytes;
        if free <= reserve {
            let mut reason = human_bytes(free);
            reason.append(" free is at or below the ");
            let r = human_bytes(reserve);
            reason.append(r.as_str());
            reason.append(" reserve");
            // Not backed off: a full disk will not empty itself by being asked about
            // less often.
            return SyncBudget::metadata_only(reason, budget.interval_scale_tenths);
        }
        let spare = free - reserve;
        if spare >= budget.max_content_bytes {
            return budget;
        }
        let reason = if budget.max_content_bytes == u64::MAX {
            let mut reason = String::from_str("content held to the ");
            let h = human_bytes(spare);
            reason.append(h.as_str());
            reason.append(" free above the reserve");
            reason
        } else {
            let mut reason = budget.reason;
            reason.append(", and further held to the ");
            let h = human_bytes(spare);
            reason.append(h.as_str());
            reason.append(" free above the reserve");
            reason
        };
        SyncBudget::capped(reason, spare, budget.interval_scale_tenths)
    }

    /// The battery ladder, and the overrides that outrank it.
    fn grade(&self, telemetry: &Telemetry, backlog: &BacklogView) -> (b: SyncBudget)
        ensures
            b@ == grade_model(self.thresholds, *telemetry, *backlog),
    {
        let t = &self.thresholds;

        // Heat first: no amount of battery makes cooking the device acceptable.
        if let Some(temp) = telemetry.temp_c {
            if temp >= t.temp_high_c {
                let mut reason = String::from_str("temperature ");
                push_signed(&mut reason, temp as i64);
                reason.append("°C is at or above the ");
                push_signed(&mut reason, t.temp_high_c as i64);
                reason.append("°C limit");
                return SyncBudget::metadata_only(reason, 20);
            }
        }

        // A metered link costs money per byte regardless of how much power is left.
        if telemetry.link == LinkCost::Metered {
            return SyncBudget::metadata_only(String::from_str("link is metered"), 20);
        }

        // Mains and Unknown are both unconstrained.
        if telemetry.power != PowerSource::Battery {
            return SyncBudget::unlimited();
        }

        let pct = match telemetry.battery_pct {
            None => {
                // On battery but the charge is unreadable: conserve mildly.
                return SyncBudget::capped(
                    String::from_str("on battery with an unreadable charge level"),
                    t.conserving_content_bytes,
                    15,
                );
            },
            Some(p) => p,
        };

        if pct <= t.battery_critical_pct {
            let mut reason = String::from_str("battery ");
            push_decimal(&mut reason, pct as u64);
            reason.append("% is at or below the critical ");
            push_decimal(&mut reason, t.battery_critical_pct as u64);
            reason.append("%");
            return SyncBudget::paused(reason);
        }

        if pct <= t.battery_low_pct {
            // Metadata still flows: it is nearly free and keeps the namespace current.
            let mut reason = String::from_str("battery ");
            push_decimal(&mut reason, pct as u64);
            reason.append("% is at or below the low threshold ");
            push_decimal(&mut reason, t.battery_low_pct as u64);
            reason.append("%");
            return SyncBudget::metadata_only(reason, 20);
        }

        // A comfort band above the low threshold where content still moves, capped.
        let doubled: u8 = if t.battery_low_pct > 127 { 255 } else { t.battery_low_pct * 2 };
        let comfortable = if doubled > 100 { 100 } else { doubled };
        if pct <= comfortable && backlog.missing_chunks > 0 {
            let mut reason = String::from_str("battery ");
            push_decimal(&mut reason, pct as u64);
            reason.append("% is within the conserving band up to ");
            push_decimal(&mut reason, comfortable as u64);
            reason.append("%");
            return SyncBudget::capped(reason, t.conserving_content_bytes, 10);
        }

        SyncBudget::unlimited()
    }
}

impl Scheduler for RuleBasedScheduler {
    fn plan(&self, telemetry: &Telemetry, backlog: &BacklogView) -> (b: SyncBudget)
        ensures
            b@ == plan_model(*self, *telemetry, *backlog),
    {
        if !self.enabled {
            return SyncBudget::unlimited();
        }
        let graded = self.grade(telemetry, backlog);
        self.limit_to_headroom(graded, telemetry)
    }
}

/// Unknown is not bad: a device whose every reading is unknown (or that is on mains,
/// cool, on an unmetered or unknown link, with unreadable free space) is planned an
/// unlimited budget.
pub proof fn lemma_unknown_is_unconstrained(s: RuleBasedScheduler, tel: Telemetry, backlog: BacklogView)
    requires
        tel.power != PowerSource::Battery,
        tel.temp_c is None,
        tel.link != LinkCost::Metered,
        tel.storage_free_bytes is None,
    ensures
        plan_model(s, tel, backlog) == unlimited_model(),
{
}

/// Disk headroom narrows whatever the battery ladder decided and never widens it: it
/// never turns content on, never raises the cap, and never changes whether peers are
/// contacted or how often.
pub proof fn lemma_headroom_never_widens(s: RuleBasedScheduler, tel: Telemetry, backlog: BacklogView)
    requires
        s.enabled,
    ensures
        ({
            let graded = grade_model(s.thresholds, tel, backlog);
            let planned = plan_model(s, tel, backlog);
            &&& planned.sync == graded.sync
            &&& planned.content ==> graded.content
            &&& planned.content ==> planned.max_content_bytes <= graded.max_content_bytes
            &&& planned.interval_scale_tenths == graded.interval_scale_tenths
        }),
{
}

/// Operations keep flowing unless the battery is at or below the critical threshold:
/// that is the only rung of the ladder that stops contacting peers.
pub proof fn lemma_only_a_critical_battery_pauses(s: RuleBasedScheduler, tel: Telemetry, backlog: BacklogView)
    ensures
        !plan_model(s, tel, backlog).sync <==> (s.enabled && !(tel.temp_c is Some && tel.temp_c.unwrap()
            >= s.thresholds.temp_high_c) && tel.link != LinkCost::Metered && tel.power == PowerSource::Battery
            && tel.battery_pct is Some && tel.battery_pct.unwrap() <= s.thresholds.battery_critical_pct),
{
}

/// Heat and a metered link override the battery grade: whatever the charge, content is
/// deferred while operations still flow.
pub proof fn lemma_heat_and_metered_links_defer_content(s: RuleBasedScheduler, tel: Telemetry, backlog: BacklogView)
    requires
        s.enabled,
        (tel.temp_c is Some && tel.temp_c.unwrap() >= s.thresholds.temp_high_c) || tel.link == LinkCost::Metered,
    ensures
        plan_model(s, tel, backlog).sync,
        !plan_model(s, tel, backlog).content,
        plan_model(s, tel, backlog).interval_scale_tenths == 20,
{
}

/// A battery at or below the low threshold stops content: on battery with a readable
/// charge no higher than `battery_low_pct`, the plan moves no content, whatever the
/// backlog, the link or the disk. Operations still flow above the critical threshold.
pub proof fn lemma_a_low_battery_defers_content(s: RuleBasedScheduler, tel: Telemetry, backlog: BacklogView)
    requires
        s.enabled,
        tel.power == PowerSource::Battery,
        tel.battery_pct is Some,
        tel.battery_pct.unwrap() <= s.thresholds.battery_low_pct,
    ensures
        !plan_model(s, tel, backlog).content,
        plan_model(s, tel, backlog).max_content_bytes == 0,
        tel.battery_pct.unwrap() > s.thresholds.battery_critical_pct ==> plan_model(s, tel, backlog).sync,
{
}

/// Above the low threshold, on battery, cool and on an unmetered link, content moves:
/// capped within the conserving band when chunks are missing, otherwise uncapped (before
/// the disk headroom is applied).
pub proof fn lemma_above_the_low_threshold_content_moves(s: RuleBasedScheduler, tel: Telemetry, backlog: BacklogView)
    requires
        s.enabled,
        tel.power == PowerSource::Battery,
        tel.battery_pct is Some,
        tel.battery_pct.unwrap() > s.thresholds.battery_low_pct,
        tel.battery_pct.unwrap() > s.thresholds.battery_critical_pct,
        !(tel.temp_c is Some && tel.temp_c.unwrap() >= s.thresholds.temp_high_c),
        tel.link != LinkCost::Metered,
    ensures
        grade_model(s.thresholds, tel, backlog).content,
        grade_model(s.thresholds, tel, backlog).sync,
{
}

/// Switching the scheduler off removes every limit.
pub proof fn lemma_disabled_is_unlimited(s: RuleBasedScheduler, tel: Telemetry, backlog: BacklogView)
    requires
        !s.enabled,
    ensures
        plan_model(s, tel, backlog) == unlimited_model(),
{
}

} // verus!
