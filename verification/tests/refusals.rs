use nexusfs::apply::{admit_op, OpAdmit, OpRefusal};
use nexusfs::evidence::ProofEvidence;
use nexusfs::identity::{sign, Identity, SignatureError};
use nexusfs::apply::{materialize_file, splice_write, ChunkRef, ReadError, WriteError};
use nexusfs::chunker::{chunk_refs, seal_content};
use nexusfs::evidence::{check_proof, evidence_for, ProofMode, ProofPolicy, ProofRejection};
use nexusfs::gc::{record_records_deleted, refused_report, survey, survey_records, SweepBlocker};
use nexusfs::keys::{dir_key, inode_key};
use nexusfs::object::{DirEntry, DirNode, EntryType, FileEncryption, FileNode, Object, ObjectHeader};
use nexusfs::or_map::{Dot, OrMap};
use nexusfs::repo::{CipherError, RepoCipher};
use nexusfs::session::ChunkFetch;
use nexusfs::share::{begin_reseal, ResealError};
use nexusfs::subtree::{check_move, MoveError, SearchStep};
use nexusfs::digest::hash_bytes;

fn dot(device: u128, counter: u64) -> Dot {
    Dot { device_id: device, counter }
}

#[test]
fn a_tampered_path_is_rejected_on_receipt() {
    let e = evidence_for(ProofMode::ZkCommit, true, false);
    let r = check_proof(ProofPolicy::Commit, e);
    assert_eq!(r, Err(ProofRejection::BadInclusion));
    let msg = r.unwrap_err().message(0xab, 7);
    assert!(msg.starts_with("operation ab/7 "));
    assert!(msg.contains("inclusion path"));
}

#[test]
fn an_unsupported_proof_mode_is_rejected() {
    let e = evidence_for(ProofMode::ZkFull, true, true);
    assert_eq!(check_proof(ProofPolicy::Transparent, e), Err(ProofRejection::UnsupportedMode));
    assert_eq!(check_proof(ProofPolicy::Off, e), Ok(()));
}

#[test]
fn an_oversized_write_says_what_it_supplies() {
    let e = splice_write(b"small", b"XX", 0, u64::MAX).unwrap_err();
    assert_eq!(e, WriteError::SizeUnjustified { claimed: u64::MAX, justified: 5 });
    assert_eq!(e.message(), format!("write claims size {} but supplies only 5 bytes of content", u64::MAX));
    assert!(e.message().contains("supplies only"));
}

#[test]
fn a_directory_cannot_move_into_its_own_subtree() {
    assert_eq!(check_move(EntryType::Dir, SearchStep::Found), Err(MoveError::IntoOwnSubtree));
    assert_eq!(MoveError::IntoOwnSubtree.message(), "cannot move a directory into its own subtree");
    assert_eq!(check_move(EntryType::Dir, SearchStep::Absent), Ok(()));
    assert_eq!(check_move(EntryType::Dir, SearchStep::TooLarge), Err(MoveError::TreeTooLarge));
    assert_eq!(check_move(EntryType::File, SearchStep::Found), Ok(()));
}

fn file_node(chunks: Vec<ChunkRef>, size: u64, encryption: Option<FileEncryption>) -> FileNode {
    FileNode {
        header: ObjectHeader { type_tag: 1, version: 1 },
        size,
        chunks,
        mode: 0o100644,
        uid: 0,
        gid: 0,
        mtime_unix_ms: 1,
        ctime_unix_ms: 1,
        encryption,
    }
}

#[test]
fn an_encrypted_file_needs_a_repository_key() {
    let cipher = RepoCipher::new([3u8; 32]);
    let file_key = RepoCipher::new_file_key();
    let sealed = seal_content(&file_key, b"secret bytes", 1024).unwrap();
    let refs: Vec<ChunkRef> = sealed.iter().map(|(r, _)| *r).collect();
    let stored: Vec<Option<Vec<u8>>> = sealed.into_iter().map(|(_, b)| Some(b)).collect();
    let enc = FileEncryption { sealed_key: cipher.seal_file_key(&file_key).unwrap() };
    let file = file_node(refs, 12, Some(enc));

    assert_eq!(materialize_file(&file, None, &stored), Err(ReadError::NoRepositoryKey));
    assert_eq!(materialize_file(&file, Some(&cipher), &stored).unwrap(), b"secret bytes");
    let wrong = RepoCipher::new([4u8; 32]);
    assert_eq!(materialize_file(&file, Some(&wrong), &stored), Err(ReadError::FileKey(CipherError::Unauthentic)));
}

#[test]
fn a_plaintext_file_reads_with_or_without_a_key() {
    let pieces = chunk_refs(b"in the clear", 5);
    let refs: Vec<ChunkRef> = pieces.iter().map(|(r, _)| *r).collect();
    let stored: Vec<Option<Vec<u8>>> = pieces.into_iter().map(|(_, b)| Some(b)).collect();
    let file = file_node(refs, 12, None);
    assert_eq!(materialize_file(&file, None, &stored).unwrap(), b"in the clear");
    let cipher = RepoCipher::new([5u8; 32]);
    assert_eq!(materialize_file(&file, Some(&cipher), &stored).unwrap(), b"in the clear");
}

#[test]
fn resealing_with_no_recipients_is_refused() {
    assert_eq!(begin_reseal(&vec![], false), Err(ResealError::NoSealingKey));
    assert!(ResealError::NoSealingKey.message().contains("no sealing key"));
    let r = begin_reseal(&vec![[1u8; 32]], true).unwrap();
    assert!(r.dry_run);
    assert_eq!(r.files_scanned, 0);
}

#[test]
fn an_empty_fetch_sends_nothing_and_stores_nothing() {
    let f = ChunkFetch::new(vec![]);
    assert!(f.done);
    assert_eq!(f.next_request(), None);
    assert_eq!(f.finish(), 0);

    let bytes = b"chunk".to_vec();
    let h = hash_bytes(&bytes);
    let mut f = ChunkFetch::new(vec![h]);
    assert!(f.next_request().is_some());
    let kept = f.on_batch(vec![(h, bytes.clone())], true);
    assert_eq!(kept, vec![(h, bytes)]);
    assert!(f.done, "nothing is outstanding any more");
    assert_eq!(f.finish(), 1);
}

#[test]
fn a_second_canonicalize_changes_nothing() {
    let entries = vec![
        DirEntry { name: "b".to_string(), inode_id: 2, entry_type: EntryType::File },
        DirEntry { name: "a".to_string(), inode_id: 3, entry_type: EntryType::Dir },
    ];
    let mut d = DirNode::new_canonical(entries, 0o40755, 0, 0, 10);
    let once: Vec<String> = d.entries.iter().map(|e| e.name.clone()).collect();
    d.canonicalize();
    let twice: Vec<String> = d.entries.iter().map(|e| e.name.clone()).collect();
    assert_eq!(once, twice);
    assert_eq!(once, vec!["a".to_string(), "b".to_string()]);

    let unsorted = DirNode {
        header: ObjectHeader { type_tag: 2, version: 1 },
        entries: vec![
            DirEntry { name: "z".to_string(), inode_id: 9, entry_type: EntryType::File },
            DirEntry { name: "m".to_string(), inode_id: 8, entry_type: EntryType::File },
        ],
        mode: 0o40755,
        uid: 1,
        gid: 2,
        mtime_unix_ms: 3,
        ctime_unix_ms: 4,
    };
    match Object::DirNode(unsorted).canonicalized() {
        Object::DirNode(c) => {
            assert_eq!(c.entries[0].name, "m");
            assert_eq!(c.entries[1].name, "z");
            assert_eq!((c.uid, c.gid, c.mtime_unix_ms, c.ctime_unix_ms), (1, 2, 3, 4));
        },
        _ => panic!("a directory stays a directory"),
    }
}

#[test]
fn directory_keys_sort_as_their_inodes() {
    let a = dir_key(5);
    let b = dir_key(0x100);
    assert_eq!(a.len(), 20);
    assert_eq!(&a[..4], b"dir\0");
    assert!(a < b);
    assert_ne!(dir_key(5), inode_key(5));
    assert_eq!(dir_key(7), dir_key(7));
}

#[test]
fn a_removal_before_its_add_still_suppresses_it_on_every_replica() {
    let k = "f".to_string();
    let base: OrMap<String, u32> = OrMap::new();
    let mut m1 = base.clone();
    m1.add(k.clone(), dot(1, 2), 7);
    m1.remove_dots(&k, vec![dot(1, 2)]);
    let mut m2 = base.clone();
    m2.remove_dots(&k, vec![dot(1, 2)]);
    m2.add(k.clone(), dot(1, 2), 7);
    assert_eq!(m1.get_all(&k), m2.get_all(&k));
    assert!(m2.get_all(&k).iter().all(|(d, _)| *d != dot(1, 2)));
}

#[test]
fn merging_either_way_lists_the_same_bindings() {
    let k = "x".to_string();
    let mut a: OrMap<String, u32> = OrMap::new();
    a.add(k.clone(), dot(1, 1), 1);
    let mut b: OrMap<String, u32> = OrMap::new();
    b.add(k.clone(), dot(2, 1), 2);
    b.remove_dots(&k, vec![dot(1, 1)]);
    let mut ab = a.clone();
    ab.merge(&b);
    let mut ba = b.clone();
    ba.merge(&a);
    assert_eq!(ab.get_all(&k), ba.get_all(&k));
    assert_eq!(ab.get_all(&k), vec![(dot(2, 1), 2)]);
    let before = ab.get_all(&k);
    let same = ab.clone();
    ab.merge(&same);
    assert_eq!(ab.get_all(&k), before);
}

#[test]
fn unlinked_records_are_collected_once() {
    let stored = vec![([1u8; 32], 10u64)];
    let (mut report, _) = survey(&stored, &vec![[1u8; 32]], false);
    let records = vec![1u128, 7, 9];
    let reachable = vec![1u128, 9];
    let orphans = survey_records(&mut report, &records, &reachable);
    assert_eq!(orphans, vec![7]);
    assert_eq!(report.records_unreachable, 1);
    assert_eq!(report.records_deleted, 0);
    record_records_deleted(&mut report);
    assert_eq!(report.records_deleted, 1);

    let left = vec![1u128, 9];
    let again = survey_records(&mut report, &left, &reachable);
    assert!(again.is_empty());
    assert_eq!(report.records_unreachable, 0);

    let refused = refused_report(&stored, SweepBlocker::NoRootInode);
    assert_eq!(refused.records_deleted, 0);
}

#[test]
fn an_operation_is_admitted_only_with_a_good_signature() {
    let id = Identity::from_seed([8u8; 32]);
    let bytes = b"mkdir docs".to_vec();
    let sig = sign(&id, &bytes);
    let pk = id.pubkey_bytes();
    assert_eq!(admit_op(&pk, &bytes, &sig, true, ProofPolicy::Transparent, ProofEvidence::Absent, false), Ok(OpAdmit::Apply));
    assert_eq!(admit_op(&pk, &bytes, &sig, true, ProofPolicy::Transparent, ProofEvidence::Absent, true), Ok(OpAdmit::AlreadyApplied));
    assert_eq!(admit_op(&pk, &bytes, &[], true, ProofPolicy::Off, ProofEvidence::Absent, false), Err(OpRefusal::Unsigned));
    let mut tampered = bytes.clone();
    tampered[0] ^= 1;
    assert_eq!(
        admit_op(&pk, &tampered, &sig, true, ProofPolicy::Off, ProofEvidence::Absent, false),
        Err(OpRefusal::BadSignature(SignatureError::Rejected))
    );
    assert_eq!(
        admit_op(&pk, &bytes, &sig, true, ProofPolicy::Required, ProofEvidence::Absent, false),
        Err(OpRefusal::Proof(ProofRejection::Missing))
    );
    assert_eq!(admit_op(&pk, &bytes, &sig, false, ProofPolicy::Required, ProofEvidence::Absent, false), Ok(OpAdmit::Apply));
}

#[test]
fn a_second_sweep_deletes_nothing() {
    let stored = vec![([1u8; 32], 10u64), ([2u8; 32], 20), ([3u8; 32], 30)];
    let reachable = vec![[2u8; 32]];
    let (first, garbage) = survey(&stored, &reachable, false);
    assert_eq!(first.unreachable, 2);
    assert_eq!(first.bytes_reclaimable, 40);
    let left: Vec<([u8; 32], u64)> = stored.iter().copied().filter(|b| !garbage.contains(b)).collect();
    assert_eq!(left, vec![([2u8; 32], 20)]);
    let (second, again) = survey(&left, &reachable, false);
    assert!(again.is_empty());
    assert_eq!(second.unreachable, 0);
}
