use nexusfs::apply::{plan_write, splice_write, ChunkRef, WriteError, WritePlan, WriteUnmet};
use nexusfs::conflicts::conflict_name;
use nexusfs::format::{
    classify_format, decode_format_version, format_refusal, next_migration, sealing_check, unstamped_version,
    FormatState, MigrationError, CURRENT_FORMAT_VERSION,
};
use nexusfs::gc::{sweep_blocker, SweepBlocker};
use nexusfs::inode::{inode_for_op, OpId, ROOT_INODE};
use nexusfs::listing::materialize_dir;
use nexusfs::lww::LwwReg;
use nexusfs::mutate::{create_entry, moved_value, plan_create, plan_rename, rename_within, RenameStep, Wait};
use nexusfs::namespace::{split_path, ContentState, DirEntryValue, NameError};
use nexusfs::object::{DirEntry, EntryType};
use nexusfs::or_map::{Dot, OrMap};
use nexusfs::session::{on_fetched, fetch_again, ContentStep, PullSession, SyncLimits};
use nexusfs::subtree::{SearchStep, SubtreeSearch};
use nexusfs::trust::{authorize, enrol_signing_key, Admission, EnrolError, Enrolment, TrustError, TrustPolicy};
use nexusfs::digest::hash_bytes;

fn names(dir: &OrMap<String, DirEntryValue>) -> Vec<String> {
    materialize_dir(dir).into_iter().map(|e| e.name).collect()
}

#[test]
fn concurrent_same_name_creates_get_deterministic_conflict_names() {
    // Two devices independently create /docs while partitioned; the replicas apply the
    // creations in opposite orders.
    let a = OpId { device_id: 0x01, counter: 1 };
    let b = OpId { device_id: 0x02, counter: 1 };
    let mut ab: OrMap<String, DirEntryValue> = OrMap::new();
    create_entry(&mut ab, "docs".to_string(), a, 1_000, 0o40755, EntryType::Dir);
    create_entry(&mut ab, "docs".to_string(), b, 2_000, 0o40755, EntryType::Dir);
    let mut ba: OrMap<String, DirEntryValue> = OrMap::new();
    create_entry(&mut ba, "docs".to_string(), b, 2_000, 0o40755, EntryType::Dir);
    create_entry(&mut ba, "docs".to_string(), a, 1_000, 0o40755, EntryType::Dir);

    let listing = names(&ab);
    assert_eq!(listing.len(), 2, "both concurrent creates must survive");
    assert_eq!(listing, names(&ba), "orders must agree");
    // Dot ordering is (device, counter), so device 0x01 holds the plain name.
    assert!(listing.contains(&"docs".to_string()));
    assert!(listing.contains(&conflict_name("docs", 0x02, 2_000)));
}

#[test]
fn a_rename_waits_for_the_creation_it_observed() {
    let create = OpId { device_id: 0xA1, counter: 1 };
    let rename_dot = Dot { device_id: 0xB2, counter: 1 };
    let observed = vec![Dot { device_id: 0xA1, counter: 1 }];

    let apply_rename = |dir: &mut OrMap<String, DirEntryValue>| -> RenameStep {
        let survivors = dir.get_all(&"before".to_string());
        let step = plan_rename("after", true, true, &survivors, &observed).unwrap();
        if let RenameStep::Move { value, .. } = step {
            rename_within(dir, &"before".to_string(), observed.clone(), "after".to_string(), rename_dot, moved_value(value, 2_000));
        }
        step
    };

    let mut forward: OrMap<String, DirEntryValue> = OrMap::new();
    create_entry(&mut forward, "before".to_string(), create, 1_000, 0o40755, EntryType::Dir);
    assert!(matches!(apply_rename(&mut forward), RenameStep::Move { .. }));

    let mut reverse: OrMap<String, DirEntryValue> = OrMap::new();
    assert_eq!(
        apply_rename(&mut reverse),
        RenameStep::Wait(Wait::NotYetCreated),
        "a rename whose source has not arrived must park, not vanish"
    );
    create_entry(&mut reverse, "before".to_string(), create, 1_000, 0o40755, EntryType::Dir);
    assert!(matches!(apply_rename(&mut reverse), RenameStep::Move { .. }));

    assert_eq!(names(&forward), vec!["after".to_string()]);
    assert_eq!(names(&reverse), vec!["after".to_string()]);
}

#[test]
fn invalid_names_are_rejected() {
    for bad in ["", "a/b", ".", ".."] {
        assert!(plan_create(bad, true).is_err(), "name {bad:?} must be rejected");
    }
    assert_eq!(plan_create("..", true), Err(NameError::Reserved));
    assert!(split_path("/../etc").is_err());
}

#[test]
fn moving_a_directory_into_its_own_subtree_is_refused() {
    let outer = inode_for_op(OpId { device_id: 0xF3, counter: 1 });
    let inner = inode_for_op(OpId { device_id: 0xF3, counter: 2 });
    let listing_of = |inode: u128| -> Vec<DirEntry> {
        if inode == outer {
            vec![DirEntry { name: "inner".to_string(), inode_id: inner, entry_type: EntryType::Dir }]
        } else {
            vec![]
        }
    };
    // Moving `outer` beneath `inner`: is `inner` inside `outer`?
    let (mut search, mut step) = SubtreeSearch::start(outer, inner);
    while let SearchStep::Visit(x) = step {
        step = search.on_listing(&listing_of(x));
    }
    assert_eq!(step, SearchStep::Found, "moving a directory beneath itself would detach the subtree");
    let (_, step) = SubtreeSearch::start(ROOT_INODE, ROOT_INODE);
    assert_eq!(step, SearchStep::Found);
}

#[test]
fn a_write_cannot_claim_more_content_than_it_supplies() {
    assert_eq!(
        splice_write(b"small", b"XX", 0, u64::MAX),
        Err(WriteError::SizeUnjustified { claimed: u64::MAX, justified: 5 }),
        "the size claim must be refused, not allocated"
    );
}

#[test]
fn a_sparse_write_past_the_end_still_works() {
    let content = splice_write(b"head", b"tail", 64, 68).unwrap();
    assert_eq!(content.len(), 68);
    assert_eq!(&content[..4], b"head");
    assert_eq!(&content[4..64], &[0u8; 60]);
    assert_eq!(&content[64..], b"tail");
}

#[test]
fn a_superseded_write_applies_without_its_content() {
    let current = LwwReg::new(ContentState { node_hash: Some([1u8; 32]), size: 3, mtime_unix_ms: 5_000 }, 5_000, 1, 2);
    let chunks = [ChunkRef { hash: [9u8; 32], len: 3, offset: 0, plain_len: 3 }];
    assert_eq!(
        plan_write(Some((EntryType::File, &current)), 4_000, 1, 1, 0, &chunks, 3, Some([9u8; 32])),
        WritePlan::Superseded
    );
}

#[test]
fn a_write_that_can_still_win_keeps_waiting() {
    let current = LwwReg::new(ContentState { node_hash: Some([1u8; 32]), size: 3, mtime_unix_ms: 5_000 }, 5_000, 1, 2);
    let chunks = [ChunkRef { hash: [9u8; 32], len: 3, offset: 0, plain_len: 3 }];
    assert_eq!(
        plan_write(Some((EntryType::File, &current)), 6_000, 1, 3, 0, &chunks, 3, Some([9u8; 32])),
        WritePlan::Unmet(WriteUnmet::MissingChunk([9u8; 32]))
    );
}

#[test]
fn a_new_repository_is_stamped_with_the_current_format() {
    assert_eq!(unstamped_version(false), CURRENT_FORMAT_VERSION);
    assert_eq!(classify_format(unstamped_version(false)), FormatState::Current);
}

#[test]
fn an_unstamped_repository_is_adopted_as_version_one() {
    assert_eq!(unstamped_version(true), 1);
    assert_eq!(classify_format(1), FormatState::NeedsMigration { found: 1 });
}

#[test]
fn a_newer_format_is_refused_and_cannot_be_forced() {
    let future = CURRENT_FORMAT_VERSION + 7;
    let state = classify_format(future);
    assert_eq!(state, FormatState::TooNew { found: future });
    let err = format_refusal(state).unwrap();
    assert!(err.contains("newer"), "message should say why: {err}");
    assert!(err.contains("Upgrade NexusFS"), "and what to do: {err}");
    assert_eq!(next_migration(state), Err(MigrationError::TooNew { found: future }));
}

#[test]
fn an_older_format_is_refused_until_migrated() {
    let state = classify_format(0);
    assert_eq!(state, FormatState::NeedsMigration { found: 0 });
    let err = format_refusal(state).unwrap();
    assert!(err.contains("nexusfs migrate"), "the message must name the fix: {err}");
}

#[test]
fn migrating_a_current_repository_does_nothing() {
    assert_eq!(next_migration(FormatState::Current), Ok(None));
    assert_eq!(format_refusal(FormatState::Current), None);
}

#[test]
fn a_corrupt_version_record_is_reported_rather_than_guessed() {
    let err = decode_format_version(b"not-a-version").unwrap_err();
    assert!(err.message().contains("expected 4"), "{}", err.message());
    assert_eq!(err.message(), "format version record is 13 bytes, expected 4");
}

#[test]
fn migrating_to_v3_refuses_a_repository_holding_old_encrypted_records() {
    let err = sealing_check(2).unwrap_err();
    assert_eq!(err, MigrationError::StaleRecords { count: 2 });
    assert!(err.message().starts_with("this repository holds 2 record(s)"));
    assert_eq!(sealing_check(0), Ok(3));
}

#[test]
fn collection_refuses_without_a_head() {
    assert_eq!(sweep_blocker(false, true), Some(SweepBlocker::NoHead));
}

#[test]
fn collection_refuses_when_the_namespace_is_missing() {
    assert_eq!(sweep_blocker(true, false), Some(SweepBlocker::NoRootInode));
}

#[test]
fn a_peer_can_be_enrolled_before_it_ever_connects() {
    assert_eq!(enrol_signing_key(None, &[7u8; 32], false, 0xB2), Ok(Enrolment::Added));
}

#[test]
fn re_enrolling_the_same_key_is_not_a_change() {
    assert_eq!(enrol_signing_key(Some([7u8; 32]), &[7u8; 32], false, 0xB2), Ok(Enrolment::Unchanged));
}

#[test]
fn a_different_key_is_refused_unless_rotation_is_explicit() {
    let err = enrol_signing_key(Some([7u8; 32]), &[9u8; 32], false, 0xB2).unwrap_err();
    assert_eq!(err, EnrolError::SigningKeyChanged { device: 0xB2 });
    assert!(err.message().contains("--rotate"), "the message must name the fix: {}", err.message());
    assert!(err.message().starts_with("device b2 "));
    assert_eq!(enrol_signing_key(Some([7u8; 32]), &[9u8; 32], true, 0xB2), Ok(Enrolment::Rotated));
}

#[test]
fn an_unknown_peer_is_refused_when_tofu_is_off() {
    let err = authorize(None, TrustPolicy { tofu: false }, 0x99, &[1u8; 32]).unwrap_err();
    assert_eq!(err, TrustError::NotEnrolled { device: 0x99 });
    assert_eq!(err.message(), "device 99 is not enrolled and trust-on-first-use is disabled");
    assert_eq!(authorize(None, TrustPolicy { tofu: true }, 0x99, &[1u8; 32]), Ok(Admission::PinOnFirstUse));
}

#[test]
fn a_peer_that_changes_its_key_is_refused() {
    let err = authorize(Some([1u8; 32]), TrustPolicy { tofu: true }, 1, &[2u8; 32]).unwrap_err();
    assert_eq!(err, TrustError::KeyMismatch { device: 1 });
    assert!(err.message().contains("different key than the one pinned"));
}

#[test]
fn a_metadata_only_budget_converges_the_namespace_without_the_bytes() {
    let mut s = PullSession::new(SyncLimits::metadata_only());
    assert_eq!(s.next_content(5), ContentStep::Deferred);
    assert!(s.finish(0).content_deferred);
}

#[test]
fn fetching_takes_only_what_was_asked_for() {
    let wanted = b"wanted".to_vec();
    let extra = b"extra".to_vec();
    let mut outstanding = vec![hash_bytes(&wanted)];
    let kept = on_fetched(&mut outstanding, vec![(hash_bytes(&extra), extra), (hash_bytes(&wanted), wanted.clone())]);
    assert_eq!(kept, vec![(hash_bytes(&wanted), wanted)]);
    assert!(outstanding.is_empty());
}

#[test]
fn a_peer_that_does_not_have_the_content_is_not_an_error() {
    let mut outstanding = vec![hash_bytes(b"missing")];
    let kept = on_fetched(&mut outstanding, vec![]);
    assert!(kept.is_empty());
    assert_eq!(outstanding.len(), 1);
    assert!(!fetch_again(0, 0, true));
}

#[test]
fn content_that_does_not_match_its_hash_is_discarded() {
    let good = b"good".to_vec();
    let mut s = PullSession::new(SyncLimits::unlimited());
    let kept = s.on_blobs(&vec![hash_bytes(&good)], vec![(hash_bytes(&good), b"evil".to_vec())]);
    assert!(kept.is_empty());
    assert_eq!(s.outcome.blobs_received, 0);
}

#[test]
fn content_that_does_not_match_its_hash_is_refused_on_demand_too() {
    let good = b"good".to_vec();
    let mut outstanding = vec![hash_bytes(&good)];
    let kept = on_fetched(&mut outstanding, vec![(hash_bytes(&good), b"evil".to_vec())]);
    assert!(kept.is_empty());
    assert_eq!(outstanding, vec![hash_bytes(&good)]);
}
