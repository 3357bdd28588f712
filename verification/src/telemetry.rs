//! Device telemetry.
//!
//! Every field is optional or explicitly "unknown", and that is load-bearing: a server
//! with no battery is not a device at 0% charge. Conflating the two would make a
//! machine with no power constraint throttle itself permanently.

use vstd::prelude::*;

verus! {

/// Where the device is drawing power from.
#[derive(Debug, Clone, Copy, PartialEq, Eq, Structural)]
pub enum PowerSource {
    /// Mains, or a machine with no battery at all. Power is not a constraint.
    Mains,
    /// Running down a battery.
    Battery,
    /// Could not determine. Treated as unconstrained: refusing to work because a
    /// sensor is missing would be worse than the risk of draining a battery.
    Unknown,
}

impl Default for PowerSource {
    fn default() -> (p: Self)
        ensures
            p == PowerSource::Unknown,
    {
        PowerSource::Unknown
    }
}

/// What moving bytes over this link costs.
#[derive(Debug, Clone, Copy, PartialEq, Eq, Structural)]
pub enum LinkCost {
    /// Ordinary broadband or LAN.
    Unmetered,
    /// Tethered, cellular, or otherwise paid for by the byte.
    Metered,
    Unknown,
}

impl Default for LinkCost {
    fn default() -> (l: Self)
        ensures
            l == LinkCost::Unknown,
    {
        LinkCost::Unknown
    }
}

/// One reading of the device state, as far as the scheduler reads it.
///
/// The one-minute load average the sampler also records is a float, and nothing in the
/// scheduling decision reads it, so it travels beside this record rather than in it.
#[derive(Debug, Clone, Copy)]
pub struct Telemetry {
    pub power: PowerSource,
    /// Charge percentage, when a battery is present and readable.
    pub battery_pct: Option<u8>,
    /// Hottest thermal zone, in degrees Celsius.
    pub temp_c: Option<i16>,
    pub link: LinkCost,
    pub storage_free_bytes: Option<u64>,
    pub sampled_unix_ms: u64,
}

impl Default for Telemetry {
    fn default() -> (t: Self)
        ensures
            t.power == PowerSource::Unknown,
            t.battery_pct is None,
            t.temp_c is None,
            t.link == LinkCost::Unknown,
            t.storage_free_bytes is None,
            t.sampled_unix_ms == 0,
    {
        Telemetry {
            power: PowerSource::Unknown,
            battery_pct: None,
            temp_c: None,
            link: LinkCost::Unknown,
            storage_free_bytes: None,
            sampled_unix_ms: 0,
        }
    }
}

impl Telemetry {
    /// True only when we know the device is running down a battery.
    pub fn on_battery(&self) -> (b: bool)
        ensures
            b == (self.power == PowerSource::Battery),
    {
        self.power == PowerSource::Battery
    }
}

} // verus!
