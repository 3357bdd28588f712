use nexusfs::scheduler::{
    human_bytes, BacklogView, RuleBasedScheduler, Scheduler, SyncBudget, Thresholds,
};
use nexusfs::telemetry::{LinkCost, PowerSource, Telemetry};

fn sched() -> RuleBasedScheduler {
    RuleBasedScheduler::new(Thresholds {
        battery_low_pct: 20,
        battery_critical_pct: 5,
        temp_high_c: 70,
        conserving_content_bytes: 1024,
        storage_reserve_bytes: 0,
    })
}

fn telemetry(power: PowerSource, pct: Option<u8>, temp: Option<i16>) -> Telemetry {
    Telemetry {
        power,
        battery_pct: pct,
        temp_c: temp,
        ..Default::default()
    }
}

fn backlog() -> BacklogView {
    BacklogView {
        pending_ops: 0,
        missing_chunks: 10,
    }
}

fn sched_reserving_1gb() -> RuleBasedScheduler {
    RuleBasedScheduler::new(Thresholds {
        storage_reserve_bytes: 1024 * 1024 * 1024,
        ..Thresholds {
            battery_low_pct: 20,
            battery_critical_pct: 5,
            temp_high_c: 70,
            conserving_content_bytes: 1024,
            storage_reserve_bytes: 0,
        }
    })
}

fn with_free(mut t: Telemetry, free: Option<u64>) -> Telemetry {
    t.storage_free_bytes = free;
    t
}

const GB: u64 = 1024 * 1024 * 1024;

#[test]
fn unreadable_free_space_constrains_nothing() {
    let b = sched_reserving_1gb().plan(
        &with_free(telemetry(PowerSource::Mains, None, None), None),
        &backlog(),
    );
    assert!(b.content);
    assert_eq!(b.max_content_bytes, u64::MAX);
}

#[test]
fn a_disk_at_the_reserve_keeps_metadata_and_drops_content() {
    for free in [0, GB / 2, GB] {
        let b = sched_reserving_1gb().plan(
            &with_free(telemetry(PowerSource::Mains, Some(100), None), Some(free)),
            &backlog(),
        );
        assert!(b.sync, "operations are tiny and keep the namespace current");
        assert!(!b.content, "{free} free is at or below the 1GB reserve");
        assert!(
            b.reason.contains("reserve"),
            "the reason should name what fired, got {:?}",
            b.reason
        );
    }
}

#[test]
fn a_full_disk_does_not_back_off_the_poll_interval() {
    let b = sched_reserving_1gb().plan(
        &with_free(telemetry(PowerSource::Mains, Some(100), None), Some(0)),
        &backlog(),
    );
    assert_eq!(b.interval_scale_tenths, 10);
}

#[test]
fn content_is_held_to_the_room_above_the_reserve() {
    let b = sched_reserving_1gb().plan(
        &with_free(
            telemetry(PowerSource::Mains, Some(100), None),
            Some(GB + 5 * 1024 * 1024),
        ),
        &backlog(),
    );
    assert!(b.content);
    assert_eq!(b.max_content_bytes, 5 * 1024 * 1024);
}

#[test]
fn a_cap_that_binds_is_explained_even_when_it_is_generous() {
    let b = sched_reserving_1gb().plan(
        &with_free(telemetry(PowerSource::Mains, Some(100), None), Some(500 * GB)),
        &backlog(),
    );
    assert_eq!(b.max_content_bytes, 499 * GB);
    assert!(b.content);
    assert!(
        b.reason.contains("499.0GB") && b.reason.contains("reserve"),
        "got {:?}",
        b.reason
    );
}

#[test]
fn a_tight_disk_says_so() {
    let b = sched_reserving_1gb().plan(
        &with_free(telemetry(PowerSource::Mains, Some(100), None), Some(GB + 512)),
        &backlog(),
    );
    assert_eq!(b.max_content_bytes, 512);
    assert!(b.reason.contains("free above the reserve"), "got {:?}", b.reason);
}

#[test]
fn headroom_narrows_a_battery_cap_but_never_widens_it() {
    let roomy = sched_reserving_1gb().plan(
        &with_free(telemetry(PowerSource::Battery, Some(30), None), Some(500 * GB)),
        &backlog(),
    );
    assert_eq!(roomy.max_content_bytes, 1024, "disk must not widen a power cap");

    let tight = sched_reserving_1gb().plan(
        &with_free(telemetry(PowerSource::Battery, Some(30), None), Some(GB + 512)),
        &backlog(),
    );
    assert_eq!(tight.max_content_bytes, 512, "the tighter limit wins");
    assert!(
        tight.reason.contains("battery") && tight.reason.contains("reserve"),
        "both limits should be visible, got {:?}",
        tight.reason
    );
}

#[test]
fn a_paused_budget_is_left_paused_by_the_headroom_check() {
    let b = sched_reserving_1gb().plan(
        &with_free(telemetry(PowerSource::Battery, Some(2), None), Some(500 * GB)),
        &backlog(),
    );
    assert!(!b.sync && !b.content);
    assert!(b.reason.contains("critical"));
}

#[test]
fn bytes_are_reported_in_units_an_operator_recognises() {
    assert_eq!(human_bytes(0), "0B");
    assert_eq!(human_bytes(512), "512B");
    assert_eq!(human_bytes(1024), "1.0KB");
    assert_eq!(human_bytes(5 * 1024 * 1024), "5.0MB");
    assert_eq!(human_bytes(GB + GB / 2), "1.5GB");
    assert_eq!(human_bytes(3 * 1024 * GB), "3.0TB");
}

#[test]
fn an_absurd_reserve_does_not_wrap_around() {
    let t = Thresholds::from_config(20, 70, u64::MAX);
    assert_eq!(t.storage_reserve_bytes, u64::MAX);
}

#[test]
fn mains_is_unconstrained() {
    let b = sched().plan(&telemetry(PowerSource::Mains, Some(10), None), &backlog());
    assert!(b.sync && b.content);
    assert_eq!(b.max_content_bytes, u64::MAX);
}

#[test]
fn unknown_power_is_unconstrained() {
    let b = sched().plan(&telemetry(PowerSource::Unknown, None, None), &backlog());
    assert!(b.sync && b.content);
    assert_eq!(b.max_content_bytes, u64::MAX);
}

#[test]
fn a_healthy_battery_is_unconstrained() {
    let b = sched().plan(&telemetry(PowerSource::Battery, Some(90), None), &backlog());
    assert!(b.sync && b.content);
    assert_eq!(b.max_content_bytes, u64::MAX);
}

#[test]
fn the_conserving_band_caps_content_without_stopping_it() {
    let b = sched().plan(&telemetry(PowerSource::Battery, Some(30), None), &backlog());
    assert!(b.sync && b.content);
    assert_eq!(b.max_content_bytes, 1024);
}

#[test]
fn a_low_battery_keeps_metadata_and_drops_content() {
    let b = sched().plan(&telemetry(PowerSource::Battery, Some(15), None), &backlog());
    assert!(b.sync, "operations should still flow");
    assert!(!b.content, "content should not");
    assert!(b.interval_scale_tenths > 10);
}

#[test]
fn a_critical_battery_stops_everything() {
    let b = sched().plan(&telemetry(PowerSource::Battery, Some(3), None), &backlog());
    assert!(!b.sync);
    assert!(b.reason.contains("critical"));
}

#[test]
fn heat_overrides_a_full_battery() {
    let b = sched().plan(&telemetry(PowerSource::Mains, Some(100), Some(85)), &backlog());
    assert!(b.sync, "metadata is cheap enough to keep flowing");
    assert!(!b.content, "sustained transfer is what generates heat");
    assert!(b.reason.contains("temperature"));
}

#[test]
fn a_metered_link_drops_content_on_mains() {
    let mut t = telemetry(PowerSource::Mains, None, None);
    t.link = LinkCost::Metered;
    let b = sched().plan(&t, &backlog());
    assert!(b.sync && !b.content);
    assert!(b.reason.contains("metered"));
}

#[test]
fn an_unreadable_charge_conserves_rather_than_guessing() {
    let b = sched().plan(&telemetry(PowerSource::Battery, None, None), &backlog());
    assert!(b.sync && b.content);
    assert_eq!(b.max_content_bytes, 1024);
}

#[test]
fn disabling_the_scheduler_removes_every_limit() {
    let b = RuleBasedScheduler::disabled().plan(
        &telemetry(PowerSource::Battery, Some(1), Some(99)),
        &backlog(),
    );
    assert!(b.sync && b.content);
    assert_eq!(b.max_content_bytes, u64::MAX);
}

#[test]
fn the_default_budget_is_unlimited() {
    let b = SyncBudget::unlimited();
    assert!(b.sync && b.content);
    assert_eq!(b.max_content_bytes, u64::MAX);
    assert_eq!(b.interval_scale_tenths, 10);
}

#[test]
fn the_critical_threshold_is_derived_from_the_low_one() {
    let t = Thresholds::from_config(20, 70, 1);
    assert_eq!(t.battery_low_pct, 20);
    assert!(t.battery_critical_pct < t.battery_low_pct);
    assert_eq!(t.storage_reserve_bytes, 1024 * 1024);
}

#[test]
fn only_a_battery_counts_as_on_battery() {
    assert!(telemetry(PowerSource::Battery, None, None).on_battery());
    assert!(!telemetry(PowerSource::Mains, None, None).on_battery());
    assert!(!telemetry(PowerSource::Unknown, None, None).on_battery());
}

#[test]
fn human_bytes_rounds_to_one_decimal() {
    assert_eq!(human_bytes(1023), "1023B");
    assert_eq!(human_bytes(1536), "1.5KB");
    assert_eq!(human_bytes(u64::MAX), "16777216.0TB");
}
