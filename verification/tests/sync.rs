use nexusfs::clock::{ops_missing_for, summarize, ClockSummary};
use nexusfs::digest::hash_bytes;
use nexusfs::evidence::{check_proof, ProofEvidence, ProofPolicy, ProofRejection, VerifyReport};
use nexusfs::format::{
    check_advanced, classify_format, decode_format_version, encode_format_version, next_migration, sealing_check,
    unstamped_version, FormatError, FormatState, MigrationError, MigrationStep, CURRENT_FORMAT_VERSION,
};
use nexusfs::gc::{blocker_message, record_deleted, refused_report, survey, sweep_blocker, SweepBlocker};
use nexusfs::peers::PeerRegistry;
use nexusfs::session::{
    check_protocol_version, fetch_again, on_fetched, ops_reply_more, plan_blob_batch, ContentNext, ContentStep,
    OpsNext, OpsStep, PullSession, SessionError, SyncLimits, SyncOutcome, BLOB_BATCH_BYTES, MAX_OPS_PER_SESSION,
    OPS_BATCH, PROTOCOL_VERSION,
};
use nexusfs::sensors::{hottest_zone, power_from_pmset, power_from_supplies, SupplyReading};
use nexusfs::share::{already_current, tally_file, FileCase, ResealAction, ShareReport};
use nexusfs::telemetry::PowerSource;
use nexusfs::trust::{
    authorize, enrol_sealing_key, enrol_signing_key, parse_peer_entry, Admission, EnrolError, Enrolment, TrustError,
    TrustPolicy,
};
use nexusfs::keys::peer_key;

#[test]
fn clock_summary_reports_the_highest_contiguous_counter() {
    // Device 0x0a holds a complete run: 1, 2. Device 0x0b holds only counter 7.
    let s = summarize(&vec![(0x0a, 1), (0x0a, 2), (0x0b, 7)]);
    assert!(s.entries.iter().any(|(d, c)| *d == 0x0a && *c == 2));
    assert!(
        s.entries.iter().any(|(d, c)| *d == 0x0b && *c == 0),
        "a device with a gap at 1 has no contiguous prefix, so it must claim 0"
    );
    assert_eq!(s.entries.len(), 2);
    assert_eq!(s.above, vec![(0x0b, vec![7])]);
}

#[test]
fn an_empty_log_summarizes_to_nothing() {
    let s = summarize(&vec![]);
    assert!(s.entries.is_empty());
    assert!(s.above.is_empty());
}

#[test]
fn ops_missing_for_respects_what_the_peer_already_has() {
    let local: Vec<(u128, u64)> = (1..=4).map(|c| (0x0c, c)).collect();

    let empty = ClockSummary { entries: vec![], above: vec![] };
    assert_eq!(ops_missing_for(&local, &empty, 100).len(), 4);

    let partial = ClockSummary { entries: vec![(0x0c, 2)], above: vec![] };
    let missing = ops_missing_for(&local, &partial, 100);
    assert_eq!(missing.len(), 2);
    assert!(missing.iter().all(|(_, c)| *c > 2));

    let caught_up = ClockSummary { entries: vec![(0x0c, 4)], above: vec![] };
    assert!(ops_missing_for(&local, &caught_up, 100).is_empty());

    assert_eq!(ops_missing_for(&local, &empty, 3).len(), 3);

    let with_gap = ClockSummary { entries: vec![(0x0c, 0)], above: vec![(0x0c, vec![2, 3, 4])] };
    let missing = ops_missing_for(&local, &with_gap, 100);
    assert_eq!(missing.len(), 1, "only the gap itself should be offered");
    assert_eq!(missing[0].1, 1);
}

#[test]
fn what_a_summary_covers_is_never_offered_back() {
    let local = vec![(1u128, 1u64), (1, 2), (1, 5), (2, 1)];
    let s = summarize(&local);
    assert!(ops_missing_for(&local, &s, 100).is_empty());
    let only_two = summarize(&vec![(2, 1)]);
    assert_eq!(ops_missing_for(&local, &only_two, 100), vec![(1, 1), (1, 2), (1, 5)]);
}

#[test]
fn the_protocol_version_must_match() {
    assert_eq!(check_protocol_version(PROTOCOL_VERSION), Ok(()));
    assert_eq!(check_protocol_version(3), Err(SessionError::UnsupportedVersion { found: 3 }));
}

#[test]
fn an_operation_phase_runs_until_the_peer_is_done() {
    let mut s = PullSession::new(SyncLimits::unlimited());
    s.on_peer(9);
    assert_eq!(s.outcome.peer, Some(9));
    assert_eq!(s.on_ops_batch(OPS_BATCH, true), Ok(OpsStep::Apply));
    assert_eq!(s.on_ops_applied(200, true, true), OpsNext::Again);
    assert_eq!(s.on_ops_batch(10, false), Ok(OpsStep::Apply));
    assert_eq!(s.on_ops_applied(10, false, true), OpsNext::Done);
    assert_eq!(s.on_ops_batch(0, false), Ok(OpsStep::Finished));
    assert_eq!(s.outcome.ops_received, OPS_BATCH + 10);
    assert_eq!(s.outcome.ops_applied, 210);
    let o = s.finish(3);
    assert_eq!(o.still_pending, 3);
    assert_eq!(o.ops_applied, 210);
}

#[test]
fn a_round_that_moves_nothing_ends_the_phase() {
    let mut s = PullSession::new(SyncLimits::unlimited());
    assert_eq!(s.on_ops_batch(5, true), Ok(OpsStep::Apply));
    assert_eq!(s.on_ops_applied(0, true, false), OpsNext::NoProgress);
}

#[test]
fn a_session_past_the_operation_cap_is_abandoned() {
    let mut s = PullSession::new(SyncLimits::unlimited());
    s.outcome.ops_received = MAX_OPS_PER_SESSION - 1;
    assert_eq!(s.on_ops_batch(2, true), Err(SessionError::TooManyOps));
    assert_eq!(s.outcome.ops_received, MAX_OPS_PER_SESSION + 1);
}

#[test]
fn content_requests_follow_the_budget() {
    let mut s = PullSession::new(SyncLimits::unlimited());
    assert_eq!(s.next_content(0), ContentStep::Done);
    assert_eq!(s.next_content(3), ContentStep::Request { max_bytes: BLOB_BATCH_BYTES });

    let mut m = PullSession::new(SyncLimits::metadata_only());
    assert_eq!(m.next_content(3), ContentStep::Deferred);
    assert!(m.outcome.content_deferred);

    let mut capped = PullSession::new(SyncLimits { content: true, max_content_bytes: 1_000 });
    assert_eq!(capped.next_content(1), ContentStep::Request { max_bytes: 1_000 });
    capped.outcome.content_bytes = 1_000;
    assert_eq!(capped.next_content(1), ContentStep::Deferred);
}

#[test]
fn content_that_was_not_asked_for_or_does_not_hash_is_refused() {
    let good = b"chunk".to_vec();
    let h = hash_bytes(&good);
    let stranger = b"other".to_vec();
    let hs = hash_bytes(&stranger);
    let mut s = PullSession::new(SyncLimits::unlimited());
    let kept = s.on_blobs(
        &vec![h],
        vec![(h, good.clone()), (hs, stranger.clone()), (h, b"forged".to_vec())],
    );
    assert_eq!(kept, vec![(h, good)]);
    assert_eq!(s.outcome.blobs_received, 1);
    assert_eq!(s.outcome.content_bytes, 5);
    assert_eq!(s.on_content_stored(2, true, 0), ContentNext::Again);
    assert_eq!(s.on_content_stored(0, true, 1), ContentNext::NoProgress);
    assert_eq!(s.on_content_stored(0, false, 1), ContentNext::Done);
    assert_eq!(s.outcome.ops_applied, 2);
}

#[test]
fn a_full_operations_reply_says_there_may_be_more() {
    assert!(ops_reply_more(OPS_BATCH));
    assert!(!ops_reply_more(OPS_BATCH - 1));
    assert!(!ops_reply_more(0));
}

#[test]
fn a_blob_batch_stops_once_the_byte_limit_is_reached() {
    let held = vec![Some(600u64), None, Some(600), Some(600)];
    assert_eq!(plan_blob_batch(&held, 1_000), (vec![0, 2], true));
    assert_eq!(plan_blob_batch(&held, 10_000), (vec![0, 2, 3], false));
    assert_eq!(plan_blob_batch(&vec![None, None], 10), (vec![], false));
    assert_eq!(plan_blob_batch(&held, 0), (vec![], true));
    // The responder never exceeds its own batch size whatever is asked for.
    let big = vec![Some(BLOB_BATCH_BYTES), Some(1)];
    assert_eq!(plan_blob_batch(&big, u64::MAX), (vec![0], true));
}

#[test]
fn an_on_demand_fetch_takes_only_what_was_asked_for() {
    let a = b"alpha".to_vec();
    let b = b"beta".to_vec();
    let ha = hash_bytes(&a);
    let hb = hash_bytes(&b);
    let mut outstanding = vec![ha];
    let kept = on_fetched(&mut outstanding, vec![(hb, b.clone()), (ha, b.clone()), (ha, a.clone())]);
    assert_eq!(kept, vec![(ha, a)]);
    assert!(outstanding.is_empty());
    assert!(fetch_again(0, 1, true));
    assert!(!fetch_again(1, 1, true));
    assert!(!fetch_again(0, 1, false));
}

#[test]
fn a_default_outcome_is_empty() {
    let o = SyncOutcome::default();
    assert_eq!(o.peer, None);
    assert_eq!((o.ops_received, o.ops_applied, o.blobs_received), (0, 0, 0));
    assert!(!o.content_deferred);
    let l = SyncLimits::default();
    assert!(l.content);
    assert_eq!(l.max_content_bytes, u64::MAX);
}

#[test]
fn the_peer_registry_records_each_pass() {
    let mut r = PeerRegistry::new();
    assert!(r.snapshot().is_empty());
    r.record_attempt("b:1", 10);
    r.record_attempt("a:1", 11);
    r.record_error("b:1", "refused");
    let mut o = SyncOutcome::default();
    o.peer = Some(0xab);
    o.ops_received = 4;
    o.content_deferred = true;
    r.record_success("a:1", 20, &o);
    let snap = r.snapshot();
    assert_eq!(snap.len(), 2);
    assert_eq!(snap[0].address, "a:1");
    assert_eq!(snap[0].last_attempt_ms, 11);
    assert_eq!(snap[0].last_success_ms, Some(20));
    assert_eq!(snap[0].ops_received, 4);
    assert!(snap[0].content_deferred);
    assert_eq!(snap[0].syncs, 1);
    assert_eq!(snap[0].device_id.as_deref(), Some("ab"));
    assert_eq!(snap[1].address, "b:1");
    assert_eq!(snap[1].last_error.as_deref(), Some("refused"));
    assert_eq!(snap[1].last_success_ms, None);

    // A success clears the error.
    r.record_success("b:1", 30, &SyncOutcome::default());
    assert_eq!(r.snapshot()[1].last_error, None);
}

#[test]
fn a_pause_is_reported_until_cleared() {
    let mut r = PeerRegistry::default();
    assert_eq!(r.paused_reason(), None);
    r.record_skip("battery critical");
    assert_eq!(r.paused_reason().as_deref(), Some("battery critical"));
    r.clear_skip();
    assert_eq!(r.paused_reason(), None);
}

#[test]
fn pinned_keys_decide_admission() {
    let k = [1u8; 32];
    let other = [2u8; 32];
    let strict = TrustPolicy { tofu: false };
    let tofu = TrustPolicy { tofu: true };
    assert_eq!(authorize(Some(k), strict, 5, &k), Ok(Admission::Known));
    assert_eq!(authorize(Some(k), tofu, 5, &other), Err(TrustError::KeyMismatch { device: 5 }));
    assert_eq!(authorize(None, tofu, 5, &other), Ok(Admission::PinOnFirstUse));
    assert_eq!(authorize(None, strict, 5, &other), Err(TrustError::NotEnrolled { device: 5 }));
}

#[test]
fn enrolment_refuses_silent_key_changes() {
    let k = [1u8; 32];
    let other = [2u8; 32];
    assert_eq!(enrol_signing_key(None, &k, false, 3), Ok(Enrolment::Added));
    assert_eq!(enrol_signing_key(Some(k), &k, false, 3), Ok(Enrolment::Unchanged));
    assert_eq!(enrol_signing_key(Some(k), &other, false, 3), Err(EnrolError::SigningKeyChanged { device: 3 }));
    assert_eq!(enrol_signing_key(Some(k), &other, true, 3), Ok(Enrolment::Rotated));

    assert_eq!(enrol_sealing_key(None, Some(k), false, 3), Ok(true));
    assert_eq!(enrol_sealing_key(Some(k), Some(k), false, 3), Ok(false));
    assert_eq!(enrol_sealing_key(Some(k), None, false, 3), Ok(false));
    assert_eq!(enrol_sealing_key(Some(k), Some(other), false, 3), Err(EnrolError::SealingKeyChanged { device: 3 }));
    assert_eq!(enrol_sealing_key(Some(k), Some(other), true, 3), Ok(true));
}

#[test]
fn pinned_key_records_read_back() {
    let key = peer_key(0x1234);
    assert_eq!(parse_peer_entry(&key, &[7u8; 32]), Some((0x1234, [7u8; 32])));
    assert_eq!(parse_peer_entry(&key, &[7u8; 31]), None);
    assert_eq!(parse_peer_entry(&key[..24], &[7u8; 32]), None);
}

#[test]
fn a_survey_counts_without_deleting() {
    let a = [1u8; 32];
    let b = [2u8; 32];
    let c = [3u8; 32];
    let stored = vec![(a, 10u64), (b, 20), (c, 30)];
    let (report, garbage) = survey(&stored, &vec![b], true);
    assert_eq!(garbage, vec![(a, 10), (c, 30)]);
    assert_eq!(report.blobs_scanned, 3);
    assert_eq!(report.bytes_scanned, 60);
    assert_eq!(report.reachable, 1);
    assert_eq!(report.unreachable, 2);
    assert_eq!(report.bytes_reclaimable, 40);
    assert_eq!(report.deleted, 0);
    assert!(report.dry_run);
    assert!(report.has_garbage());

    let (mut sweep, garbage) = survey(&stored, &vec![a, b, c], false);
    assert!(garbage.is_empty());
    assert!(!sweep.has_garbage());
    sweep.unreachable = 1;
    sweep.bytes_reclaimable = 7;
    record_deleted(&mut sweep);
    assert_eq!((sweep.deleted, sweep.bytes_deleted), (1, 7));
}

#[test]
fn collection_refuses_without_a_head_or_root() {
    assert_eq!(sweep_blocker(false, false), Some(SweepBlocker::NoHead));
    assert_eq!(sweep_blocker(true, false), Some(SweepBlocker::NoRootInode));
    assert_eq!(sweep_blocker(true, true), None);
    let stored = vec![([1u8; 32], 10u64), ([2u8; 32], 5)];
    let r = refused_report(&stored, SweepBlocker::NoHead);
    assert_eq!(r.blobs_scanned, 2);
    assert_eq!(r.bytes_scanned, 15);
    assert_eq!(r.deleted, 0);
    assert!(!r.dry_run);
    assert_eq!(r.refused, Some(blocker_message(SweepBlocker::NoHead)));
    assert!(blocker_message(SweepBlocker::NoRootInode).contains("root inode"));
}

#[test]
fn format_versions_are_classified_and_migrated_one_step_at_a_time() {
    assert_eq!(classify_format(CURRENT_FORMAT_VERSION), FormatState::Current);
    assert_eq!(classify_format(1), FormatState::NeedsMigration { found: 1 });
    assert_eq!(classify_format(9), FormatState::TooNew { found: 9 });
    assert_eq!(unstamped_version(true), 1);
    assert_eq!(unstamped_version(false), CURRENT_FORMAT_VERSION);
    assert_eq!(next_migration(FormatState::Current), Ok(None));
    assert_eq!(next_migration(FormatState::NeedsMigration { found: 1 }), Ok(Some(MigrationStep::RebuildCommitment)));
    assert_eq!(next_migration(FormatState::NeedsMigration { found: 2 }), Ok(Some(MigrationStep::CheckSealing)));
    assert_eq!(next_migration(FormatState::NeedsMigration { found: 0 }), Err(MigrationError::NoStep { from: 0 }));
    assert_eq!(next_migration(FormatState::TooNew { found: 4 }), Err(MigrationError::TooNew { found: 4 }));
    assert_eq!(check_advanced(1, 2), Ok(2));
    assert_eq!(check_advanced(2, 2), Err(MigrationError::NotAdvanced { from: 2 }));
    assert_eq!(sealing_check(0), Ok(3));
    assert_eq!(sealing_check(2), Err(MigrationError::StaleRecords { count: 2 }));
}

#[test]
fn the_format_stamp_round_trips() {
    assert_eq!(encode_format_version(3), vec![0, 0, 0, 3]);
    assert_eq!(decode_format_version(&encode_format_version(0x01020304)), Ok(0x01020304));
    assert_eq!(decode_format_version(&[1, 2, 3]), Err(FormatError::WrongLength { len: 3 }));
}

#[test]
fn proof_policies_are_read_from_config() {
    assert_eq!(ProofPolicy::from_config(" Transparent "), ProofPolicy::Transparent);
    assert_eq!(ProofPolicy::from_config("REQUIRED"), ProofPolicy::Required);
    assert_eq!(ProofPolicy::from_config("zk_commit"), ProofPolicy::Commit);
    assert_eq!(ProofPolicy::from_config("commit"), ProofPolicy::Commit);
    assert_eq!(ProofPolicy::from_config("whatever"), ProofPolicy::Off);
    assert_eq!(ProofPolicy::default(), ProofPolicy::Off);
    assert!(ProofPolicy::Transparent.generates());
    assert!(!ProofPolicy::Off.generates());
    assert!(ProofPolicy::Commit.commits());
    assert!(!ProofPolicy::Required.commits());
}

#[test]
fn proofs_are_judged_by_policy() {
    let good = ProofEvidence::Transparent { decodes: true, records_new_root: true };
    assert_eq!(check_proof(ProofPolicy::Off, ProofEvidence::Unsupported), Ok(()));
    assert_eq!(check_proof(ProofPolicy::Transparent, ProofEvidence::Absent), Ok(()));
    assert_eq!(check_proof(ProofPolicy::Required, ProofEvidence::Absent), Err(ProofRejection::Missing));
    assert_eq!(check_proof(ProofPolicy::Required, good), Ok(()));
    assert_eq!(
        check_proof(ProofPolicy::Transparent, ProofEvidence::Transparent { decodes: false, records_new_root: true }),
        Err(ProofRejection::Malformed)
    );
    assert_eq!(
        check_proof(ProofPolicy::Transparent, ProofEvidence::Transparent { decodes: true, records_new_root: false }),
        Err(ProofRejection::NoNewRoot)
    );
    assert_eq!(
        check_proof(ProofPolicy::Commit, ProofEvidence::Commit { decodes: true, reaches_root: false }),
        Err(ProofRejection::BadInclusion)
    );
    assert_eq!(check_proof(ProofPolicy::Commit, good), Ok(()));
    assert_eq!(check_proof(ProofPolicy::Transparent, ProofEvidence::Unsupported), Err(ProofRejection::UnsupportedMode));
}

#[test]
fn a_verify_report_is_healthy_only_without_failures() {
    let mut r = VerifyReport {
        operations: 3,
        with_proof: 3,
        without_proof: 0,
        malformed: 0,
        roots_matched: 3,
        roots_mismatched: 0,
        signature_failures: 0,
        unreadable_files: vec![],
        state_root: None,
    };
    assert!(r.ok());
    r.unreadable_files.push("/a".to_string());
    assert!(!r.ok());
}

#[test]
fn resealing_tallies_each_file() {
    let mut report = ShareReport::default();
    assert_eq!(tally_file(&mut report, FileCase::NotAFile), ResealAction::Skip);
    assert_eq!(tally_file(&mut report, FileCase::Plaintext), ResealAction::Skip);
    assert_eq!(tally_file(&mut report, FileCase::Unreadable), ResealAction::Skip);
    assert_eq!(tally_file(&mut report, FileCase::Readable { current: true }), ResealAction::Skip);
    assert_eq!(tally_file(&mut report, FileCase::Readable { current: false }), ResealAction::Reseal);
    assert_eq!(report.files_scanned, 5);
    assert_eq!((report.plaintext, report.unreadable, report.already_current, report.resealed), (1, 1, 1, 1));

    let mut dry = ShareReport { dry_run: true, ..ShareReport::default() };
    assert_eq!(tally_file(&mut dry, FileCase::Readable { current: false }), ResealAction::Skip);
    assert_eq!(dry.resealed, 1);
}

#[test]
fn a_file_is_current_only_when_its_recipients_match() {
    let want = [4u8; 32];
    assert!(already_current(false, Some(want), &want));
    assert!(!already_current(true, Some(want), &want));
    assert!(!already_current(false, Some([5u8; 32]), &want));
    assert!(!already_current(false, None, &want));
}

fn supply(kind: &str, capacity: Option<&str>, status: Option<&str>, online: Option<&str>) -> SupplyReading {
    SupplyReading {
        kind: kind.to_string(),
        capacity: capacity.map(|s| s.to_string()),
        status: status.map(|s| s.to_string()),
        online: online.map(|s| s.to_string()),
    }
}

#[test]
fn power_supplies_are_read_as_the_kernel_reports_them() {
    let discharging = vec![supply("Battery\n", Some("87\n"), Some("Discharging\n"), None)];
    assert_eq!(power_from_supplies(&discharging), (PowerSource::Battery, Some(87)));

    let plugged = vec![
        supply("Battery", Some("150"), Some("Discharging"), None),
        supply("Mains", None, None, Some("1\n")),
    ];
    assert_eq!(power_from_supplies(&plugged), (PowerSource::Mains, Some(100)));

    let usb_offline = vec![supply("USB", None, None, Some("0"))];
    assert_eq!(power_from_supplies(&usb_offline).0, PowerSource::Unknown);
    assert_eq!(power_from_supplies(&vec![]), (PowerSource::Unknown, None));

    let unreadable_capacity = vec![supply("Battery", Some("300"), Some("Charging"), None)];
    assert_eq!(power_from_supplies(&unreadable_capacity).1, None);
}

#[test]
fn the_hottest_thermal_zone_is_clamped_not_wrapped() {
    let zones = vec!["45000\n".to_string(), "bogus".to_string(), "51500".to_string()];
    assert_eq!(hottest_zone(&zones), Some(51));
    assert_eq!(hottest_zone(&vec!["-5500".to_string()]), Some(-5));
    assert_eq!(hottest_zone(&vec!["2147483647".to_string()]), Some(i16::MAX));
    assert_eq!(hottest_zone(&vec!["-2147483648".to_string()]), Some(i16::MIN));
    assert_eq!(hottest_zone(&vec![]), None);
}

#[test]
fn pmset_output_names_the_source_and_charge() {
    let battery = "Now drawing from 'Battery Power'\n -InternalBattery-0 (id=1234)\t87%; discharging; 3:12 remaining present: true\n";
    assert_eq!(power_from_pmset(battery), (PowerSource::Battery, Some(87)));
    let desktop = "Now drawing from 'AC Power'\n";
    assert_eq!(power_from_pmset(desktop), (PowerSource::Mains, None));
    assert_eq!(power_from_pmset("garbage"), (PowerSource::Unknown, None));
    assert_eq!(power_from_pmset("'AC Power' 100%"), (PowerSource::Mains, Some(100)));
}

use nexusfs::scheduler::SyncBudget;
use nexusfs::session::{plan_pass, PassPlan};

#[test]
fn each_tick_sleeps_at_least_a_tenth_of_the_interval() {
    let paused = SyncBudget { sync: false, content: false, max_content_bytes: 0, interval_scale_tenths: 40, reason: "battery critical".to_string() };
    assert_eq!(plan_pass(&paused), (40, PassPlan::Skip));
    let eager = SyncBudget { sync: true, content: true, max_content_bytes: 5, interval_scale_tenths: 0, reason: String::new() };
    assert_eq!(plan_pass(&eager), (1, PassPlan::Pull(SyncLimits { content: true, max_content_bytes: 5 })));
    let ops_only = SyncBudget { sync: true, content: false, max_content_bytes: 0, interval_scale_tenths: 20, reason: String::new() };
    assert_eq!(plan_pass(&ops_only), (20, PassPlan::Pull(SyncLimits::metadata_only())));
}

use nexusfs::access::{constant_time_eq, token_admits};
use nexusfs::framing::{frame, frame_length, FrameError};
use nexusfs::session::{same_hashes, ContentRounds, MAX_FETCH_ROUNDS, MAX_FRAME_LEN};

#[test]
fn tokens_are_compared_whole() {
    assert!(constant_time_eq(b"secret", b"secret"));
    assert!(!constant_time_eq(b"secret", b"secreT"));
    assert!(!constant_time_eq(b"secret", b"secret!"));
    assert!(constant_time_eq(b"", b""));
    assert!(token_admits(None, ""));
    assert!(token_admits(Some("anything"), ""));
    assert!(token_admits(Some("tok"), "tok"));
    assert!(!token_admits(Some("tok2"), "tok"));
    assert!(!token_admits(None, "tok"));
    assert!(token_admits(Some("clé"), "clé"));
}

#[test]
fn frames_carry_their_length_little_endian() {
    let f = frame(b"hello");
    assert_eq!(f, vec![5, 0, 0, 0, b'h', b'e', b'l', b'l', b'o']);
    assert_eq!(frame_length([5, 0, 0, 0], MAX_FRAME_LEN), Ok(5));
    assert_eq!(frame_length([0, 1, 0, 0], MAX_FRAME_LEN), Ok(256));
    assert_eq!(
        frame_length([0xff, 0xff, 0xff, 0xff], MAX_FRAME_LEN),
        Err(FrameError::TooLarge { len: u32::MAX as usize, max: MAX_FRAME_LEN })
    );
    let big = vec![7u8; 70_000];
    let f = frame(&big);
    assert_eq!(frame_length([f[0], f[1], f[2], f[3]], MAX_FRAME_LEN), Ok(70_000));
    assert_eq!(&f[4..], &big[..]);
}

#[test]
fn fetching_on_demand_stops_when_a_round_changes_nothing() {
    let a = [1u8; 32];
    let b = [2u8; 32];
    assert!(same_hashes(&vec![a, b], &vec![a, b]));
    assert!(!same_hashes(&vec![a, b], &vec![b, a]));
    assert!(!same_hashes(&vec![a], &vec![a, b]));

    let mut r = ContentRounds::new(vec![a]);
    assert!(r.should_fetch());
    // The file object arrived and names two chunks.
    r.on_missing(vec![a, b]);
    assert!(r.should_fetch());
    // Nothing new arrived.
    r.on_missing(vec![a, b]);
    assert!(r.stalled);
    assert!(!r.should_fetch());
    assert_eq!(r.wanted, vec![a, b]);

    let mut done = ContentRounds::new(vec![a]);
    done.on_missing(vec![]);
    assert!(!done.should_fetch());

    let mut busy = ContentRounds::new(vec![a]);
    for i in 0..MAX_FETCH_ROUNDS {
        busy.on_missing(vec![[i as u8 + 10; 32]]);
    }
    assert!(!busy.should_fetch());
    assert!(ContentRounds::new(vec![]).should_fetch() == false);
}

#[test]
fn content_past_the_ceiling_is_turned_away_and_deferred() {
    let big = vec![7u8; 20];
    let small = vec![1u8; 4];
    let hb = hash_bytes(&big);
    let hs = hash_bytes(&small);
    let mut s = PullSession::new(SyncLimits { content: true, max_content_bytes: 10 });
    let kept = s.on_blobs(&vec![hb, hs], vec![(hb, big.clone()), (hs, small.clone())]);
    assert_eq!(kept, vec![(hs, small)]);
    assert_eq!(s.outcome.content_bytes, 4);
    assert!(s.outcome.content_bytes <= 10);
    assert!(s.outcome.content_deferred);
}

#[test]
fn a_batch_limit_of_zero_sends_nothing() {
    let local = vec![(1u128, 1u64), (1, 2)];
    let empty = ClockSummary { entries: vec![], above: vec![] };
    assert!(ops_missing_for(&local, &empty, 0).is_empty());
    assert_eq!(ops_missing_for(&local, &empty, 1), vec![(1, 1)]);
}
