//! Inode identifiers.
//!
//! An inode id must be a pure function of the operation that allocates it: every
//! replica applying the same create has to name the same inode, and no replica can
//! consult a shared counter to do it.

use vstd::prelude::*;
use crate::digest::{blake3_of, hash_bytes};
use crate::keys::{be_bytes, be_value, push_be, read_be, lemma_pow256_16};
use crate::or_map::Dot;

verus! {

/// Reserved inode for the filesystem root.
pub const ROOT_INODE: u128 = 1;

/// An operation's identity: the device that authored it and that device's counter.
#[derive(Debug, Clone, Copy, PartialEq, Eq, Structural)]
pub struct OpId {
    pub device_id: u128,
    pub counter: u64,
}

/// `nexusfs/inode/v1`
pub open spec fn inode_domain() -> Seq<u8> {
    seq![110u8, 101, 120, 117, 115, 102, 115, 47, 105, 110, 111, 100, 101, 47, 118, 49]
}

/// The bytes hashed to name the inode an operation allocates.
pub open spec fn inode_hash_input(op: OpId) -> Seq<u8> {
    inode_domain() + be_bytes(op.device_id as nat, 16) + be_bytes(op.counter as nat, 8)
}

/// The inode an operation allocates: the first 16 bytes of the BLAKE3 hash of the
/// domain, device and counter, read big-endian, moved clear of the reserved ids 0 and 1.
pub open spec fn inode_for_op_spec(op: OpId) -> u128 {
    let id = be_value(blake3_of(inode_hash_input(op)).subrange(0, 16));
    if id <= ROOT_INODE {
        (id + 2) as u128
    } else {
        id as u128
    }
}

/// Derives the inode id allocated by an operation.
///
/// Two devices that concurrently create the same path allocate different inodes, which
/// is correct: that is the conflict deterministic conflict naming resolves.
pub fn inode_for_op(op: OpId) -> (id: u128)
    ensures
        id == inode_for_op_spec(op),
        id > ROOT_INODE,
{
    let mut data: Vec<u8> = vec![110u8, 101, 120, 117, 115, 102, 115, 47, 105, 110, 111, 100, 101, 47, 118, 49];
    assert(data@ =~= inode_domain());
    push_be(&mut data, op.device_id, 16);
    push_be(&mut data, op.counter as u128, 8);
    let h = hash_bytes(data.as_slice());
    let id = read_be(&h, 0, 16);
    proof {
        lemma_pow256_16();
    }
    if id <= ROOT_INODE {
        id + 2
    } else {
        id
    }
}

/// Operations and map dots are the same `(device, counter)` pair, so an operation
/// identifies its own causal dot.
pub fn dot_for_op(op: OpId) -> (d: Dot)
    ensures
        d.device_id == op.device_id,
        d.counter == op.counter,
{
    Dot { device_id: op.device_id, counter: op.counter }
}

} // verus!
