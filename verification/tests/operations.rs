use nexusfs::apply::{first_missing_chunk, ChunkRef};
use nexusfs::inode::{inode_for_op, OpId};
use nexusfs::opkind::{changed_hashes, describe_op, subject_inode, FsOpKind};

fn chunk(h: u8, offset: u64) -> ChunkRef {
    ChunkRef { hash: [h; 32], len: 10, offset, plain_len: 10 }
}

#[test]
fn operations_are_described_for_the_log() {
    assert_eq!(describe_op(&FsOpKind::Mkdir { parent: 0x1, name: "docs".to_string(), mode: 0o40755 }), "mkdir docs in 1");
    assert_eq!(
        describe_op(&FsOpKind::CreateFile { parent: 0xabc, name: "a.txt".to_string(), mode: 0o100644 }),
        "create a.txt in abc"
    );
    assert_eq!(
        describe_op(&FsOpKind::Write {
            inode: 0xff,
            offset: 0,
            chunks: vec![chunk(1, 0), chunk(2, 10)],
            new_size: 20,
            encryption: None,
        }),
        "write ff (20 bytes, 2 chunks)"
    );
    assert_eq!(
        describe_op(&FsOpKind::Rename {
            old_parent: 1,
            old_name: "a".to_string(),
            new_parent: 2,
            new_name: "b".to_string(),
            observed: vec![],
        }),
        "rename a -> b"
    );
    assert_eq!(
        describe_op(&FsOpKind::Unlink { parent: 0x10, name: "gone".to_string(), observed: vec![] }),
        "unlink gone from 10"
    );
    assert_eq!(describe_op(&FsOpKind::SetAttr { inode: 0x2a, mode: Some(0o644), uid: None, gid: None }), "setattr 2a");
}

#[test]
fn only_a_write_adds_content() {
    let w = FsOpKind::Write { inode: 7, offset: 0, chunks: vec![chunk(1, 0), chunk(2, 10)], new_size: 20, encryption: None };
    assert_eq!(changed_hashes(&w), vec![[1u8; 32], [2u8; 32]]);
    let m = FsOpKind::Mkdir { parent: 1, name: "d".to_string(), mode: 0o40755 };
    assert!(changed_hashes(&m).is_empty());
}

#[test]
fn the_subject_of_an_operation_is_the_inode_it_changes() {
    let id = OpId { device_id: 0x01, counter: 5 };
    let mk = FsOpKind::Mkdir { parent: 1, name: "d".to_string(), mode: 0o40755 };
    assert_eq!(subject_inode(&id, &mk), Some(inode_for_op(id)));
    let w = FsOpKind::Write { inode: 9, offset: 0, chunks: vec![], new_size: 0, encryption: None };
    assert_eq!(subject_inode(&id, &w), Some(9));
    let u = FsOpKind::Unlink { parent: 3, name: "x".to_string(), observed: vec![id] };
    assert_eq!(subject_inode(&id, &u), Some(3));
    let r = FsOpKind::Rename {
        old_parent: 3,
        old_name: "x".to_string(),
        new_parent: 4,
        new_name: "y".to_string(),
        observed: vec![],
    };
    assert_eq!(subject_inode(&id, &r), Some(4));
}

#[test]
fn a_parked_write_names_its_first_missing_chunk() {
    let chunks = vec![chunk(1, 0), chunk(2, 10), chunk(3, 20)];
    assert_eq!(first_missing_chunk(&chunks, &vec![true, false, false]), Some([2u8; 32]));
    assert_eq!(first_missing_chunk(&chunks, &vec![true, true, true]), None);
    assert_eq!(first_missing_chunk(&vec![], &vec![]), None);
}
