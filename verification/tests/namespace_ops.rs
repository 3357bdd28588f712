use nexusfs::apply::{assemble_file, chunks_form_whole_file, ReadError};
use nexusfs::chunker::{chunk_and_hash, chunk_bytes, chunk_refs, seal_content};
use nexusfs::digest::hash_bytes;
use nexusfs::inode::{inode_for_op, OpId};
use nexusfs::mutate::{
    apply_content, apply_setattr, create_entry, dots_for_ops, moved_value, plan_create, plan_rename, rename_across,
    rename_source, rename_within, unlink_observed, RenameSource, RenameStep, Wait,
};
use nexusfs::namespace::{AttrState, DirEntryValue, InodeRecord, NameError};
use nexusfs::object::EntryType;
use nexusfs::or_map::{Dot, OrMap};

fn dot(device_id: u128, counter: u64) -> Dot {
    Dot { device_id, counter }
}

fn file(inode_id: u128, created_unix_ms: u64) -> DirEntryValue {
    DirEntryValue { inode_id, entry_type: EntryType::File, created_unix_ms }
}

#[test]
fn content_is_cut_into_fixed_size_chunks() {
    let pieces = chunk_bytes(b"abcdefg", 3);
    assert_eq!(pieces, vec![b"abc".to_vec(), b"def".to_vec(), b"g".to_vec()]);
    assert!(chunk_bytes(b"", 3).is_empty());
    assert_eq!(chunk_bytes(b"ab", 0), vec![b"a".to_vec(), b"b".to_vec()]);
    assert_eq!(chunk_bytes(b"ab", 10), vec![b"ab".to_vec()]);
    let hashed = chunk_and_hash(b"abcdefg", 3);
    assert_eq!(hashed.len(), 3);
    assert_eq!(hashed[1], (hash_bytes(b"def"), b"def".to_vec()));
}

#[test]
fn plaintext_chunks_read_back_as_the_content() {
    let data = b"hello, chunked world".to_vec();
    let v = chunk_refs(&data, 6);
    let offsets: Vec<u64> = v.iter().map(|(r, _)| r.offset).collect();
    assert_eq!(offsets, vec![0, 6, 12, 18]);
    assert!(v.iter().all(|(r, b)| r.len as usize == b.len() && r.plain_len == r.len && r.hash == hash_bytes(b)));
    let refs: Vec<_> = v.iter().map(|(r, _)| *r).collect();
    let stored: Vec<Option<Vec<u8>>> = v.iter().map(|(_, b)| Some(b.clone())).collect();
    assert!(chunks_form_whole_file(&refs, data.len() as u64));
    assert_eq!(assemble_file(&refs, &stored, None, data.len() as u64).unwrap(), data);
}

#[test]
fn sealed_chunks_read_back_under_the_same_key_only() {
    let key = [42u8; 32];
    let data = b"a secret spread over several chunks".to_vec();
    let v = seal_content(&key, &data, 8).unwrap();
    assert_eq!(v.len(), 5);
    for (i, (r, sealed)) in v.iter().enumerate() {
        assert_eq!(r.offset, 8 * i as u64);
        assert_eq!(sealed.len(), r.plain_len as usize + 16);
        assert_eq!(r.len as usize, sealed.len());
        assert_eq!(r.hash, hash_bytes(sealed));
    }
    // The ciphertext does not carry the plaintext.
    assert!(!v[0].1.windows(8).any(|w| w == &data[..8]));
    let refs: Vec<_> = v.iter().map(|(r, _)| *r).collect();
    let stored: Vec<Option<Vec<u8>>> = v.iter().map(|(_, b)| Some(b.clone())).collect();
    assert!(chunks_form_whole_file(&refs, data.len() as u64));
    assert_eq!(assemble_file(&refs, &stored, Some(key), data.len() as u64).unwrap(), data);
    assert_eq!(
        assemble_file(&refs, &stored, Some([43u8; 32]), data.len() as u64),
        Err(ReadError::Unauthentic { index: 0 })
    );
    // Swapping two chunks breaks the per-index nonce.
    let swapped = vec![stored[1].clone(), stored[0].clone(), stored[2].clone(), stored[3].clone(), stored[4].clone()];
    let swapped_refs = vec![
        nexusfs::apply::ChunkRef { offset: 0, ..refs[1] },
        nexusfs::apply::ChunkRef { offset: 8, ..refs[0] },
        refs[2],
        refs[3],
        refs[4],
    ];
    assert_eq!(
        assemble_file(&swapped_refs, &swapped, Some(key), data.len() as u64),
        Err(ReadError::Unauthentic { index: 0 })
    );
}

#[test]
fn a_rename_moves_the_binding_its_author_observed() {
    let survivors = vec![(dot(1, 1), file(10, 100)), (dot(2, 1), file(20, 200)), (dot(3, 1), file(30, 300))];
    assert_eq!(
        rename_source(&survivors, &vec![dot(1, 1), dot(2, 1)]),
        RenameSource::Move { dot: dot(2, 1), value: file(20, 200) }
    );
    assert_eq!(
        rename_source(&survivors, &vec![dot(3, 1), dot(1, 1)]),
        RenameSource::Move { dot: dot(3, 1), value: file(30, 300) }
    );
    assert_eq!(rename_source(&survivors, &vec![]), RenameSource::Nothing);
    assert_eq!(rename_source(&survivors, &vec![dot(9, 9)]), RenameSource::NotYetCreated);
    assert_eq!(rename_source(&vec![], &vec![dot(9, 9)]), RenameSource::NotYetCreated);
}

#[test]
fn rename_checks_come_in_order() {
    let survivors = vec![(dot(1, 1), file(10, 100))];
    let seen = vec![dot(1, 1)];
    assert_eq!(plan_rename("", false, false, &survivors, &seen), Err(NameError::Empty));
    assert_eq!(plan_rename("b", false, true, &survivors, &seen), Ok(RenameStep::Wait(Wait::SourceParent)));
    assert_eq!(plan_rename("b", true, false, &survivors, &seen), Ok(RenameStep::Wait(Wait::DestParent)));
    assert_eq!(
        plan_rename("b", true, true, &survivors, &seen),
        Ok(RenameStep::Move { dot: dot(1, 1), value: file(10, 100) })
    );
    assert_eq!(plan_rename("b", true, true, &vec![], &seen), Ok(RenameStep::Wait(Wait::NotYetCreated)));
    assert_eq!(plan_rename("b", true, true, &survivors, &vec![]), Ok(RenameStep::Nothing));
    assert_eq!(plan_create("a/b", true), Err(NameError::Separator));
    assert_eq!(plan_create("a", false), Ok(Some(Wait::Parent)));
    assert_eq!(plan_create("a", true), Ok(None));
}

#[test]
fn renames_edit_the_maps_as_crdt_operations() {
    let mut dir: OrMap<String, DirEntryValue> = OrMap::new();
    dir.add("a".to_string(), dot(1, 1), file(10, 100));
    let moved = moved_value(file(10, 100), 500);
    assert_eq!(moved, file(10, 500));
    rename_within(&mut dir, &"a".to_string(), vec![dot(1, 1)], "b".to_string(), dot(1, 2), moved);
    assert_eq!(dir.get(&"a".to_string()), None);
    assert_eq!(dir.get(&"b".to_string()), Some(file(10, 500)));

    let mut dest: OrMap<String, DirEntryValue> = OrMap::new();
    rename_across(&mut dir, &mut dest, &"b".to_string(), vec![dot(1, 2)], "c".to_string(), dot(1, 3), file(10, 600));
    assert!(dir.live_keys().is_empty());
    assert_eq!(dest.get_all(&"c".to_string()), vec![(dot(1, 3), file(10, 600))]);
}

#[test]
fn a_removal_does_not_take_a_concurrent_creation_with_it() {
    let mut dir: OrMap<String, DirEntryValue> = OrMap::new();
    dir.add("x".to_string(), dot(1, 1), file(10, 100));
    // Device 2 creates "x" concurrently; device 1 unlinks the "x" it saw.
    dir.add("x".to_string(), dot(2, 1), file(20, 150));
    unlink_observed(&mut dir, &"x".to_string(), &vec![OpId { device_id: 1, counter: 1 }]);
    assert_eq!(dir.get_all(&"x".to_string()), vec![(dot(2, 1), file(20, 150))]);
}

#[test]
fn an_unlink_that_arrives_before_the_create_still_wins() {
    let mut dir: OrMap<String, DirEntryValue> = OrMap::new();
    unlink_observed(&mut dir, &"x".to_string(), &vec![OpId { device_id: 1, counter: 1 }]);
    let (inode, record) = create_entry(&mut dir, "x".to_string(), OpId { device_id: 1, counter: 1 }, 100, 0o100644, EntryType::File);
    assert_eq!(inode, inode_for_op(OpId { device_id: 1, counter: 1 }));
    assert_eq!(record.kind, EntryType::File);
    assert!(dir.get_all(&"x".to_string()).is_empty());
    assert_eq!(dots_for_ops(&vec![OpId { device_id: 4, counter: 2 }]), vec![dot(4, 2)]);
}

#[test]
fn a_creation_binds_the_inode_its_operation_allocates() {
    let mut dir: OrMap<String, DirEntryValue> = OrMap::new();
    let op = OpId { device_id: 7, counter: 3 };
    let (inode, record) = create_entry(&mut dir, "docs".to_string(), op, 900, 0o40755, EntryType::Dir);
    assert_eq!(
        dir.get_all(&"docs".to_string()),
        vec![(dot(7, 3), DirEntryValue { inode_id: inode, entry_type: EntryType::Dir, created_unix_ms: 900 })]
    );
    assert_eq!(record.attrs.value, AttrState { mode: 0o40755, uid: 0, gid: 0 });
    assert_eq!(record.ctime_unix_ms, 900);
}

#[test]
fn attribute_and_content_changes_merge_by_timestamp() {
    let mut r = InodeRecord::new(EntryType::File, 0o100644, 100, 1, 1);
    apply_setattr(&mut r, Some(0o100600), None, Some(5), 200, 1, 2);
    assert_eq!(r.attrs.value, AttrState { mode: 0o100600, uid: 0, gid: 5 });
    // An older change loses.
    apply_setattr(&mut r, None, Some(9), None, 150, 2, 1);
    assert_eq!(r.attrs.value, AttrState { mode: 0o100600, uid: 0, gid: 5 });

    apply_content(&mut r, [1u8; 32], 10, 300, 1, 3);
    assert_eq!(r.content.value.size, 10);
    assert_eq!(r.content.value.node_hash, Some([1u8; 32]));
    apply_content(&mut r, [2u8; 32], 20, 250, 9, 1);
    assert_eq!(r.content.value.node_hash, Some([1u8; 32]));
    // Same time, higher device wins.
    apply_content(&mut r, [3u8; 32], 30, 300, 2, 0);
    assert_eq!(r.content.value.node_hash, Some([3u8; 32]));
}

use nexusfs::access::NotARecipient;
use nexusfs::listing::{walk_base, walk_entry};
use nexusfs::object::DirEntry;
use nexusfs::peers::PeerView;
use nexusfs::subtree::{SearchStep, SubtreeSearch};
use std::collections::HashMap;

fn entry(name: &str, inode_id: u128, entry_type: EntryType) -> DirEntry {
    DirEntry { name: name.to_string(), inode_id, entry_type }
}

fn search(tree: &HashMap<u128, Vec<DirEntry>>, root: u128, target: u128) -> (SearchStep, Vec<u128>) {
    let (mut s, mut step) = SubtreeSearch::start(root, target);
    let mut visited = Vec::new();
    while let SearchStep::Visit(x) = step {
        visited.push(x);
        let listing = tree.get(&x).cloned().unwrap_or_default();
        step = s.on_listing(&listing);
    }
    (step, visited)
}

#[test]
fn a_directory_cannot_be_moved_beneath_itself() {
    let mut tree = HashMap::new();
    tree.insert(1, vec![entry("a", 2, EntryType::Dir), entry("b", 3, EntryType::Dir), entry("f", 9, EntryType::File)]);
    tree.insert(2, vec![entry("deep", 4, EntryType::Dir), entry("g", 5, EntryType::File)]);
    tree.insert(4, vec![entry("h", 6, EntryType::File)]);
    assert_eq!(search(&tree, 1, 6).0, SearchStep::Found);
    assert_eq!(search(&tree, 1, 4).0, SearchStep::Found);
    assert_eq!(search(&tree, 2, 6).0, SearchStep::Found);
    let (step, visited) = search(&tree, 3, 6);
    assert_eq!(step, SearchStep::Absent);
    assert_eq!(visited, vec![3]);
    let (step, visited) = search(&tree, 2, 9);
    assert_eq!(step, SearchStep::Absent);
    assert_eq!(visited, vec![2, 4]);
    // A directory contains itself.
    assert_eq!(search(&tree, 7, 7).0, SearchStep::Found);
}

#[test]
fn a_cycle_in_the_listings_does_not_loop_the_search() {
    let mut tree = HashMap::new();
    tree.insert(1, vec![entry("a", 2, EntryType::Dir)]);
    tree.insert(2, vec![entry("back", 1, EntryType::Dir), entry("again", 2, EntryType::Dir)]);
    let (step, visited) = search(&tree, 1, 99);
    assert_eq!(step, SearchStep::Absent);
    assert_eq!(visited, vec![1, 2]);
}

#[test]
fn a_walk_lists_paths_beneath_its_base() {
    assert_eq!(walk_base("/docs//"), "/docs");
    assert_eq!(walk_base("/"), "");
    assert_eq!(walk_base("docs"), "docs");
    let f = walk_entry("/docs", 1, &entry("a.txt", 5, EntryType::File), Some((12, 99)));
    assert_eq!(f.path, "/docs/a.txt");
    assert_eq!(f.name, "a.txt");
    assert_eq!((f.depth, f.size, f.inode, f.mtime_unix_ms), (1, 12, 5, 99));
    let d = walk_entry("", 0, &entry("docs", 6, EntryType::Dir), Some((4096, 7)));
    assert_eq!(d.path, "/docs");
    assert_eq!(d.size, 0);
    assert_eq!(d.mtime_unix_ms, 7);
    let missing = walk_entry("", 0, &entry("x", 8, EntryType::File), None);
    assert_eq!((missing.size, missing.mtime_unix_ms), (0, 0));
}

#[test]
fn a_refusal_to_read_says_how_many_envelopes_it_tried() {
    let e = NotARecipient { envelopes: 3 };
    assert_eq!(
        e.message(),
        "this node is not a recipient of this file: 3 envelope(s), none of which open with this device's sealing key"
    );
    let v = PeerView::default();
    assert_eq!(v.address, "");
    assert_eq!(v.syncs, 0);
}

#[test]
fn pieces_cut_elsewhere_get_references_in_order() {
    let v = nexusfs::chunker::refs_for_pieces(vec![b"ab".to_vec(), b"cde".to_vec(), b"".to_vec(), b"f".to_vec()]);
    let got: Vec<(u64, u32)> = v.iter().map(|(r, _)| (r.offset, r.len)).collect();
    assert_eq!(got, vec![(0, 2), (2, 3), (5, 0), (5, 1)]);
    assert_eq!(v[1].0.hash, hash_bytes(b"cde"));
}

#[test]
fn a_removal_records_exactly_the_operations_it_saw_in_order() {
    let survivors = vec![(dot(2, 1), file(20, 1)), (dot(1, 9), file(10, 2)), (dot(1, 3), file(11, 3))];
    let ops = nexusfs::mutate::observed_ops(&survivors);
    assert_eq!(
        ops,
        vec![
            OpId { device_id: 1, counter: 3 },
            OpId { device_id: 1, counter: 9 },
            OpId { device_id: 2, counter: 1 },
        ]
    );
    assert!(nexusfs::mutate::observed_ops(&vec![]).is_empty());
}

use nexusfs::apply::missing_hashes;
use nexusfs::keys::imap_key;
use nexusfs::listing::{lists_child, lookup_entry};
use nexusfs::snapshot::{map_entry, parse_imap_row, reach_step, MapEntry, ReachStep, MAX_TREE_NODES};

#[test]
fn the_content_to_ask_for_is_what_is_not_held_sorted_once() {
    let a = [3u8; 32];
    let b = [1u8; 32];
    let c = [2u8; 32];
    let got = missing_hashes(&vec![a, b, c, a, b], &vec![false, true, false, false, false]);
    assert_eq!(got, vec![b, c, a]);
    assert!(missing_hashes(&vec![a], &vec![true]).is_empty());
}

#[test]
fn inode_map_rows_and_entries() {
    assert_eq!(parse_imap_row(&imap_key(9), &[4u8; 32]), Some((9, [4u8; 32])));
    assert_eq!(parse_imap_row(&imap_key(9), &[4u8; 31]), None);
    assert_eq!(parse_imap_row(b"junk", &[4u8; 32]), None);
    assert_eq!(map_entry(false, Some((EntryType::Dir, None))), MapEntry::Remove);
    assert_eq!(map_entry(true, None), MapEntry::Remove);
    assert_eq!(map_entry(true, Some((EntryType::Dir, Some([1u8; 32])))), MapEntry::DirObject);
    assert_eq!(map_entry(true, Some((EntryType::File, Some([1u8; 32])))), MapEntry::Content([1u8; 32]));
    assert_eq!(map_entry(true, Some((EntryType::File, None))), MapEntry::Remove);
}

#[test]
fn reachability_is_decided_walking_up_recorded_parents() {
    assert_eq!(reach_step(1, false, None, false, 0), ReachStep::Reachable);
    assert_eq!(reach_step(7, true, None, false, 0), ReachStep::Reachable);
    assert_eq!(reach_step(7, false, None, false, 0), ReachStep::Unreachable);
    assert_eq!(reach_step(7, false, Some(3), false, 0), ReachStep::Unreachable);
    assert_eq!(reach_step(7, false, Some(3), true, 0), ReachStep::Up(3));
    assert_eq!(reach_step(7, false, Some(3), true, MAX_TREE_NODES), ReachStep::TooDeep);
}

#[test]
fn lookups_find_the_first_entry_shown_under_a_name() {
    let listing = vec![
        entry("a", 2, EntryType::File),
        entry("b", 3, EntryType::Dir),
        entry("b", 4, EntryType::Dir),
    ];
    assert_eq!(lookup_entry(&listing, "b").map(|e| e.inode_id), Some(3));
    assert_eq!(lookup_entry(&listing, "c").map(|e| e.inode_id), None);
    assert!(lists_child(&listing, 4));
    assert!(!lists_child(&listing, 5));
}
