use nexusfs::apply::{
    assemble_file, chunks_form_whole_file, pending_key, plan_write, splice_write, ChunkRef, ReadError, WriteError,
    WritePlan, WriteUnmet,
};
use nexusfs::conflicts::conflict_name;
use nexusfs::digest::{hash_bytes, hash_eq, hash_in};
use nexusfs::inode::{dot_for_op, inode_for_op, OpId, ROOT_INODE};
use nexusfs::keys::{applied_key, dir_key, imap_key, inode_key, op_key, parse_imap_key, parse_op_key, peer_key};
use nexusfs::listing::materialize_dir;
use nexusfs::lww::LwwReg;
use nexusfs::namespace::{split_path, validate_name, ContentState, DirEntryValue, InodeRecord, NameError, PathError};
use nexusfs::object::{sort_dir_entries, DirEntry, DirNode, EntryType};
use nexusfs::or_map::{Dot, OrMap};
use nexusfs::repo::RepoCipher;

fn hex(bytes: &[u8]) -> String {
    bytes.iter().map(|b| format!("{:02x}", b)).collect()
}

#[test]
fn dirnode_entries_are_sorted_canonically() {
    let now = 0;
    let entries = vec![
        DirEntry { name: "b".into(), inode_id: 2, entry_type: EntryType::File },
        DirEntry { name: "a".into(), inode_id: 1, entry_type: EntryType::File },
    ];

    let dir = DirNode::new_canonical(entries, 0o40755, 0, 0, now);
    assert_eq!(dir.entries[0].name, "a");
    assert_eq!(dir.entries[1].name, "b");
}

#[test]
fn hash_bytes_is_deterministic() {
    let h1 = hash_bytes(b"hello");
    let h2 = hash_bytes(b"hello");
    assert_eq!(h1, h2);
}

#[test]
fn hash_bytes_is_blake3() {
    assert_eq!(
        hex(&hash_bytes(b"")),
        "af1349b9f5f9a1a6a0404dea36dcc9499bcb25c9adc112b7cc9a93cae41f3262"
    );
    assert_ne!(hash_bytes(b"hello"), hash_bytes(b"hellp"));
}

#[test]
fn hash_lookups_compare_whole_digests() {
    let a = hash_bytes(b"a");
    let b = hash_bytes(b"b");
    assert!(hash_eq(&a, &a));
    assert!(!hash_eq(&a, &b));
    assert!(hash_in(&vec![b, a], &a));
    assert!(!hash_in(&vec![b], &a));
}

#[test]
fn equal_names_order_by_kind_then_inode() {
    let mut v = vec![
        DirEntry { name: "x".into(), inode_id: 5, entry_type: EntryType::Dir },
        DirEntry { name: "x".into(), inode_id: 5, entry_type: EntryType::File },
        DirEntry { name: "x".into(), inode_id: 3, entry_type: EntryType::Dir },
        DirEntry { name: "a".into(), inode_id: 9, entry_type: EntryType::Dir },
    ];
    sort_dir_entries(&mut v);
    let got: Vec<(String, u128, EntryType)> = v.iter().map(|e| (e.name.clone(), e.inode_id, e.entry_type)).collect();
    assert_eq!(
        got,
        vec![
            ("a".to_string(), 9, EntryType::Dir),
            ("x".to_string(), 5, EntryType::File),
            ("x".to_string(), 3, EntryType::Dir),
            ("x".to_string(), 5, EntryType::Dir),
        ]
    );
}

#[test]
fn canonicalizing_twice_changes_nothing() {
    let entries = vec![
        DirEntry { name: "z".into(), inode_id: 2, entry_type: EntryType::File },
        DirEntry { name: "m".into(), inode_id: 3, entry_type: EntryType::Dir },
    ];
    let mut dir = DirNode::new_canonical(entries, 0o40755, 1, 2, 77);
    let first: Vec<String> = dir.entries.iter().map(|e| e.name.clone()).collect();
    dir.canonicalize();
    let second: Vec<String> = dir.entries.iter().map(|e| e.name.clone()).collect();
    assert_eq!(first, vec!["m".to_string(), "z".to_string()]);
    assert_eq!(first, second);
    assert_eq!(dir.header.type_tag, 2);
    assert_eq!(dir.mtime_unix_ms, 77);
    assert_eq!(dir.ctime_unix_ms, 77);
    assert_eq!((dir.uid, dir.gid), (1, 2));
}

#[test]
fn invalid_names_are_refused_with_their_reason() {
    assert_eq!(validate_name(""), Err(NameError::Empty));
    assert_eq!(validate_name("a/b"), Err(NameError::Separator));
    assert_eq!(validate_name("."), Err(NameError::Reserved));
    assert_eq!(validate_name(".."), Err(NameError::Reserved));
    assert_eq!(validate_name("..."), Ok(()));
    assert_eq!(validate_name("notes.txt"), Ok(()));
}

#[test]
fn paths_split_into_components_and_refuse_traversal() {
    assert_eq!(split_path("/a/./b//c/").unwrap(), vec!["a", "b", "c"]);
    assert_eq!(split_path("").unwrap(), Vec::<String>::new());
    assert_eq!(split_path("/").unwrap(), Vec::<String>::new());
    assert_eq!(split_path("a/../b"), Err(PathError::Traversal));
    assert_eq!(split_path(".."), Err(PathError::Traversal));
    assert_eq!(split_path("a/..b").unwrap(), vec!["a", "..b"]);
}

#[test]
fn record_keys_round_trip() {
    assert_eq!(parse_imap_key(&imap_key(42)), Some(42));
    assert_eq!(parse_imap_key(&imap_key(u128::MAX)), Some(u128::MAX));
    assert_eq!(parse_imap_key(&dir_key(42)), None);
    assert_eq!(parse_imap_key(b"imap"), None);
    assert_eq!(parse_op_key(&op_key(7, 9)), Some((7, 9)));
    assert_eq!(parse_op_key(&applied_key(7, 9)), None);
    assert_eq!(op_key(1, 2).len(), op_key(3, 4).len());
    assert_ne!(inode_key(5), dir_key(5));
    assert_ne!(peer_key(5), inode_key(5));
    // Big-endian ids keep a prefix scan in numeric order.
    assert!(op_key(1, 255) < op_key(1, 256));
    assert!(op_key(1, u64::MAX) < op_key(2, 0));
    let k = pending_key(1, 2);
    assert_eq!(&k[..8], b"pending\0");
    assert_eq!(k.len(), 8 + 16 + 8);
    assert_eq!(k[8 + 15], 1);
    assert_eq!(k[8 + 16 + 7], 2);
}

#[test]
fn a_partial_write_lands_in_place() {
    assert_eq!(splice_write(b"hello", b"XY", 1, 5).unwrap(), b"hXYlo".to_vec());
    // Truncation keeps the head.
    assert_eq!(splice_write(b"hello", b"", 0, 2).unwrap(), b"he".to_vec());
    // Extending past the end pads with zeros up to where the write lands.
    assert_eq!(splice_write(b"ab", b"c", 4, 5).unwrap(), vec![b'a', b'b', 0, 0, b'c']);
}

#[test]
fn a_write_cannot_claim_more_than_it_supplies() {
    assert_eq!(
        splice_write(b"ab", b"c", 0, 10),
        Err(WriteError::SizeUnjustified { claimed: 10, justified: 2 })
    );
    assert_eq!(
        splice_write(b"ab", b"cd", 3, 9),
        Err(WriteError::SizeUnjustified { claimed: 9, justified: 5 })
    );
    assert_eq!(splice_write(b"", b"x", u64::MAX, 0), Err(WriteError::OffsetOverflow));
}

fn chunk(offset: u64, plain_len: u32) -> ChunkRef {
    ChunkRef { hash: [0u8; 32], len: plain_len, offset, plain_len }
}

#[test]
fn whole_file_chunk_lists_are_recognised() {
    assert!(chunks_form_whole_file(&[chunk(0, 3), chunk(3, 2)], 5));
    assert!(!chunks_form_whole_file(&[chunk(0, 3), chunk(4, 1)], 5));
    assert!(!chunks_form_whole_file(&[chunk(0, 3)], 5));
    assert!(chunks_form_whole_file(&[], 0));
}

fn content_reg(ts: u64, dev: u128, seq: u64) -> LwwReg<ContentState> {
    LwwReg::new(ContentState { node_hash: None, size: 0, mtime_unix_ms: ts }, ts, dev, seq)
}

#[test]
fn writes_are_planned_in_order_of_what_decides_them() {
    let reg = content_reg(100, 1, 1);
    let chunks = [chunk(0, 4)];
    assert_eq!(
        plan_write(None, 200, 1, 2, 0, &chunks, 4, None),
        WritePlan::Unmet(WriteUnmet::NoInode)
    );
    assert_eq!(
        plan_write(Some((EntryType::Dir, &reg)), 200, 1, 2, 0, &chunks, 4, None),
        WritePlan::NotAFile
    );
    // An older write is superseded even when its content is missing.
    assert_eq!(
        plan_write(Some((EntryType::File, &reg)), 50, 1, 2, 0, &chunks, 4, Some([9u8; 32])),
        WritePlan::Superseded
    );
    assert_eq!(
        plan_write(Some((EntryType::File, &reg)), 200, 1, 2, 0, &chunks, 4, Some([9u8; 32])),
        WritePlan::Unmet(WriteUnmet::MissingChunk([9u8; 32]))
    );
    assert_eq!(
        plan_write(Some((EntryType::File, &reg)), 200, 1, 2, 0, &chunks, 4, None),
        WritePlan::WholeFile
    );
    assert_eq!(
        plan_write(Some((EntryType::File, &reg)), 200, 1, 2, 2, &chunks, 6, None),
        WritePlan::Splice
    );
    // Equal timestamps fall to the device, then the counter.
    assert_eq!(
        plan_write(Some((EntryType::File, &reg)), 100, 1, 1, 0, &chunks, 4, None),
        WritePlan::Superseded
    );
    assert_eq!(
        plan_write(Some((EntryType::File, &reg)), 100, 2, 0, 0, &chunks, 4, None),
        WritePlan::WholeFile
    );
}

#[test]
fn plaintext_files_reassemble() {
    let chunks = vec![chunk(0, 3), chunk(3, 2)];
    let stored = vec![Some(b"abc".to_vec()), Some(b"de".to_vec())];
    assert_eq!(assemble_file(&chunks, &stored, None, 5).unwrap(), b"abcde".to_vec());
}

#[test]
fn a_missing_chunk_is_reported_rather_than_read_as_a_short_file() {
    let chunks = vec![chunk(0, 3), chunk(3, 2)];
    let stored = vec![Some(b"abc".to_vec()), None];
    assert_eq!(assemble_file(&chunks, &stored, None, 5), Err(ReadError::MissingChunk { index: 1 }));
    let short = vec![Some(b"ab".to_vec()), Some(b"de".to_vec())];
    assert_eq!(assemble_file(&chunks, &short, None, 5), Err(ReadError::LengthMismatch { index: 0 }));
    let gap = vec![chunk(0, 3), chunk(4, 2)];
    let stored = vec![Some(b"abc".to_vec()), Some(b"de".to_vec())];
    assert_eq!(assemble_file(&gap, &stored, None, 5), Err(ReadError::OffsetMismatch { index: 1 }));
    assert_eq!(assemble_file(&chunks, &stored, None, 6), Err(ReadError::SizeMismatch));
}

#[test]
fn encrypted_chunks_reassemble_and_tampering_is_caught() {
    let key = [3u8; 32];
    let c0 = RepoCipher::seal_chunk(&key, 0, b"hello ").unwrap();
    let c1 = RepoCipher::seal_chunk(&key, 1, b"world").unwrap();
    assert_eq!(c0.len(), 6 + 16);
    let chunks = vec![
        ChunkRef { hash: hash_bytes(&c0), len: c0.len() as u32, offset: 0, plain_len: 6 },
        ChunkRef { hash: hash_bytes(&c1), len: c1.len() as u32, offset: 6, plain_len: 5 },
    ];
    let stored = vec![Some(c0.clone()), Some(c1.clone())];
    assert_eq!(assemble_file(&chunks, &stored, Some(key), 11).unwrap(), b"hello world".to_vec());

    // The wrong key, or swapped chunk order, fails authentication.
    assert_eq!(
        assemble_file(&chunks, &stored, Some([4u8; 32]), 11),
        Err(ReadError::Unauthentic { index: 0 })
    );
    let mut bad = c1.clone();
    bad[0] ^= 1;
    let stored = vec![Some(c0), Some(bad)];
    assert_eq!(assemble_file(&chunks, &stored, Some(key), 11), Err(ReadError::Unauthentic { index: 1 }));
}

#[test]
fn inodes_are_derived_from_the_operation() {
    let a = inode_for_op(OpId { device_id: 1, counter: 1 });
    let b = inode_for_op(OpId { device_id: 1, counter: 1 });
    let c = inode_for_op(OpId { device_id: 1, counter: 2 });
    let d = inode_for_op(OpId { device_id: 2, counter: 1 });
    assert_eq!(a, b);
    assert_ne!(a, c);
    assert_ne!(a, d);
    assert!(a > ROOT_INODE && c > ROOT_INODE && d > ROOT_INODE);
    let dot = dot_for_op(OpId { device_id: 7, counter: 3 });
    assert_eq!(dot, Dot { device_id: 7, counter: 3 });
}

#[test]
fn a_fresh_inode_is_empty_and_owned_by_root() {
    let r = InodeRecord::new(EntryType::File, 0o100644, 1_000, 9, 4);
    assert_eq!(r.kind, EntryType::File);
    assert_eq!(r.content.value, ContentState { node_hash: None, size: 0, mtime_unix_ms: 1_000 });
    assert_eq!(r.attrs.value.mode, 0o100644);
    assert_eq!((r.attrs.value.uid, r.attrs.value.gid), (0, 0));
    assert_eq!(r.ctime_unix_ms, 1_000);
}

#[test]
fn concurrent_same_name_creates_keep_both_with_deterministic_names() {
    let mut m: OrMap<String, DirEntryValue> = OrMap::new();
    let v1 = DirEntryValue { inode_id: 10, entry_type: EntryType::File, created_unix_ms: 1_000 };
    let v2 = DirEntryValue { inode_id: 20, entry_type: EntryType::File, created_unix_ms: 2_000 };
    m.add("doc".to_string(), Dot { device_id: 2, counter: 1 }, v2);
    m.add("doc".to_string(), Dot { device_id: 1, counter: 5 }, v1);
    m.add("z".to_string(), Dot { device_id: 1, counter: 6 }, DirEntryValue { inode_id: 30, entry_type: EntryType::Dir, created_unix_ms: 3_000 });

    let listed = materialize_dir(&m);
    let got: Vec<(String, u128)> = listed.iter().map(|e| (e.name.clone(), e.inode_id)).collect();
    assert_eq!(
        got,
        vec![
            ("doc".to_string(), 10),
            (conflict_name("doc", 2, 2_000), 20),
            ("z".to_string(), 30),
        ]
    );
    assert_eq!(conflict_name("doc", 2, 2_000), "doc~conflict-0000000000000002-2000");

    // Removing the winner lets the other keep the plain name.
    m.remove_dots(&"doc".to_string(), vec![Dot { device_id: 1, counter: 5 }]);
    let listed = materialize_dir(&m);
    let got: Vec<(String, u128)> = listed.iter().map(|e| (e.name.clone(), e.inode_id)).collect();
    assert_eq!(got, vec![("doc".to_string(), 20), ("z".to_string(), 30)]);
}
