//! Keeping the inode map, the set of leaves the state root commits to, exact.
//!
//! Each reachable inode with content has one entry: a directory's object hash, or a
//! file's content hash. An operation updates only the entries it touches, and an inode
//! that is no longer reachable from the root loses its entry.

use vstd::prelude::*;
use crate::inode::ROOT_INODE;
use crate::keys::{parse_imap_key, parse_imap_key_spec};
use crate::object::EntryType;

verus! {

/// The most steps a walk up the tree takes before deciding the parent chain is broken.
pub const MAX_TREE_NODES: usize = 1000000;

/// One stored map row: the inode its key names, and the 32-byte hash it holds, or
/// nothing when the row is malformed.
pub open spec fn imap_row_spec(key: Seq<u8>, value: Seq<u8>) -> Option<(u128, Seq<u8>)> {
    match parse_imap_key_spec(key) {
        Some(inode) => if value.len() == 32 {
            Some((inode, value))
        } else {
            None
        },
        None => None,
    }
}

/// Reads one stored inode-map row. A malformed row is refused: it would corrupt every
/// read of the state root.
pub fn parse_imap_row(key: &[u8], value: &[u8]) -> (r: Option<(u128, [u8; 32])>)
    ensures
        match r {
            Some((inode, h)) => imap_row_spec(key@, value@) == Some((inode, h@)),
            None => imap_row_spec(key@, value@) is None,
        },
{
    let inode = match parse_imap_key(key) {
        Some(i) => i,
        None => {
            return None;
        },
    };
    if value.len() != 32 {
        return None;
    }
    let mut h: [u8; 32] = [0u8; 32];
    let mut i: usize = 0;
    while i < 32
        invariant
            i <= 32,
            value@.len() == 32,
            h@.len() == 32,
            forall|j: int| 0 <= j < i ==> h@[j] == value@[j],
        decreases 32 - i,
    {
        h.set(i, value[i]);
        i = i + 1;
    }
    assert(h@ =~= value@);
    Some((inode, h))
}

/// What an inode's map entry should become.
#[derive(Debug, Clone, Copy, PartialEq, Eq)]
pub enum MapEntry {
    /// The inode is unreachable, gone, or a file with no content: no entry.
    Remove,
    /// A reachable directory: its directory object's hash, built from its listing.
    DirObject,
    /// A reachable file: its content hash.
    Content([u8; 32]),
}

/// Decides an inode's map entry from whether it is reachable and, when its record
/// exists, its kind and content hash. A file with no content yet is absent from the
/// map, as a full walk leaves it: the commitment is over content.
pub fn map_entry(reachable: bool, record: Option<(EntryType, Option<[u8; 32]>)>) -> (e: MapEntry)
    ensures
        e == (if !reachable {
            MapEntry::Remove
        } else {
            match record {
                None => MapEntry::Remove,
                Some((EntryType::Dir, _)) => MapEntry::DirObject,
                Some((EntryType::File, Some(h))) => MapEntry::Content(h),
                Some((EntryType::File, None)) => MapEntry::Remove,
            }
        }),
{
    if !reachable {
        return MapEntry::Remove;
    }
    match record {
        None => MapEntry::Remove,
        Some((EntryType::Dir, _)) => MapEntry::DirObject,
        Some((EntryType::File, Some(h))) => MapEntry::Content(h),
        Some((EntryType::File, None)) => MapEntry::Remove,
    }
}

/// One step of deciding whether an inode is reachable from the root by walking up the
/// parents recorded at creation.
#[derive(Debug, Clone, Copy, PartialEq, Eq, Structural)]
pub enum ReachStep {
    Reachable,
    Unreachable,
    /// Look at this parent next.
    Up(u128),
    /// The parent chain runs longer than any tree this store holds: it is broken.
    TooDeep,
}

/// Decides one step up from `current`, `hops` steps above the inode asked about:
/// the root is reachable; so is anything with a map entry (directories always carry
/// one when reachable); a file without one is reachable only through a recorded parent
/// that still lists it.
pub fn reach_step(current: u128, in_map: bool, parent: Option<u128>, parent_lists: bool, hops: usize) -> (s: ReachStep)
    ensures
        s == (if current == ROOT_INODE || in_map {
            ReachStep::Reachable
        } else {
            match parent {
                None => ReachStep::Unreachable,
                Some(p) => if !parent_lists {
                    ReachStep::Unreachable
                } else if hops + 1 > MAX_TREE_NODES {
                    ReachStep::TooDeep
                } else {
                    ReachStep::Up(p)
                },
            }
        }),
{
    if current == ROOT_INODE || in_map {
        return ReachStep::Reachable;
    }
    match parent {
        None => ReachStep::Unreachable,
        Some(p) => {
            if !parent_lists {
                ReachStep::Unreachable
            } else if hops >= MAX_TREE_NODES {
                ReachStep::TooDeep
            } else {
                ReachStep::Up(p)
            }
        },
    }
}

} // verus!
