//! What a filesystem operation does: the payload every replica applies the same way.

use vstd::prelude::*;
use crate::apply::ChunkRef;
use crate::inode::{OpId, inode_for_op, inode_for_op_spec};
use crate::text::{hex_string, dec_string, push_hex, push_decimal};

verus! {

/// One operation's effect on the namespace or on a file.
#[derive(Debug, Clone)]
pub enum FsOpKind {
    /// A new directory named `name` under `parent`.
    Mkdir { parent: u128, name: String, mode: u32 },
    /// A new, empty file named `name` under `parent`.
    CreateFile { parent: u128, name: String, mode: u32 },
    /// Content for `inode`: `chunks` placed from `offset`, the file then `new_size`
    /// bytes long, with the encoded encryption state when the chunks hold ciphertext.
    Write { inode: u128, offset: u64, chunks: Vec<ChunkRef>, new_size: u64, encryption: Option<Vec<u8>> },
    /// Moves the binding `old_name` under `old_parent` to `new_name` under
    /// `new_parent`; `observed` names the creations of the bindings it saw there.
    Rename { old_parent: u128, old_name: String, new_parent: u128, new_name: String, observed: Vec<OpId> },
    /// Removes the bindings of `name` under `parent` that were observed.
    Unlink { parent: u128, name: String, observed: Vec<OpId> },
    /// Changes whichever attributes are given.
    SetAttr { inode: u128, mode: Option<u32>, uid: Option<u32>, gid: Option<u32> },
}

/// The hashes of the chunks a write references.
pub open spec fn chunk_hashes(chunks: Seq<ChunkRef>) -> Seq<[u8; 32]> {
    chunks.map_values(|c: ChunkRef| c.hash)
}

/// The content an operation adds to the store: a write's chunks, and nothing for
/// any other kind.
pub fn changed_hashes(kind: &FsOpKind) -> (r: Vec<[u8; 32]>)
    ensures
        r@ == (match *kind {
            FsOpKind::Write { chunks, .. } => chunk_hashes(chunks@),
            _ => Seq::<[u8; 32]>::empty(),
        }),
{
    match kind {
        FsOpKind::Write { chunks, .. } => {
            let mut r: Vec<[u8; 32]> = Vec::new();
            let mut i: usize = 0;
            while i < chunks.len()
                invariant
                    i <= chunks@.len(),
                    r@ == chunk_hashes(chunks@).subrange(0, i as int),
                decreases chunks@.len() - i,
            {
                r.push(chunks[i].hash);
                i = i + 1;
                assert(r@ =~= chunk_hashes(chunks@).subrange(0, i as int));
            }
            assert(chunk_hashes(chunks@).subrange(0, i as int) =~= chunk_hashes(chunks@));
            r
        },
        _ => Vec::new(),
    }
}

/// The inode whose state an operation is about: the one a creation allocates, the
/// one a write or attribute change names, the directory an unlink leaves, and the
/// directory a rename moves into.
pub open spec fn subject_inode_spec(op_id: OpId, kind: FsOpKind) -> u128 {
    match kind {
        FsOpKind::Mkdir { .. } => inode_for_op_spec(op_id),
        FsOpKind::CreateFile { .. } => inode_for_op_spec(op_id),
        FsOpKind::Write { inode, .. } => inode,
        FsOpKind::SetAttr { inode, .. } => inode,
        FsOpKind::Unlink { parent, .. } => parent,
        FsOpKind::Rename { new_parent, .. } => new_parent,
    }
}

/// The inode an operation is about, for the evidence that accompanies it.
pub fn subject_inode(op_id: &OpId, kind: &FsOpKind) -> (r: Option<u128>)
    ensures
        r == Some(subject_inode_spec(*op_id, *kind)),
{
    match kind {
        FsOpKind::Mkdir { .. } | FsOpKind::CreateFile { .. } => Some(inode_for_op(*op_id)),
        FsOpKind::Write { inode, .. } | FsOpKind::SetAttr { inode, .. } => Some(*inode),
        FsOpKind::Unlink { parent, .. } => Some(*parent),
        FsOpKind::Rename { new_parent, .. } => Some(*new_parent),
    }
}

/// The one-line description of an operation shown in the operation log.
pub open spec fn describe_spec(kind: FsOpKind) -> Seq<char> {
    match kind {
        FsOpKind::Mkdir { parent, name, .. } => "mkdir "@ + name@ + " in "@ + hex_string(parent as nat),
        FsOpKind::CreateFile { parent, name, .. } => "create "@ + name@ + " in "@ + hex_string(parent as nat),
        FsOpKind::Write { inode, chunks, new_size, .. } => "write "@ + hex_string(inode as nat) + " ("@ + dec_string(
            new_size as nat,
        ) + " bytes, "@ + dec_string(chunks@.len()) + " chunks)"@,
        FsOpKind::Rename { old_name, new_name, .. } => "rename "@ + old_name@ + " -> "@ + new_name@,
        FsOpKind::Unlink { parent, name, .. } => "unlink "@ + name@ + " from "@ + hex_string(parent as nat),
        FsOpKind::SetAttr { inode, .. } => "setattr "@ + hex_string(inode as nat),
    }
}

/// Describes an operation for the operation log: its kind, the names it touches and
/// the inodes in hex.
pub fn describe_op(kind: &FsOpKind) -> (s: String)
    ensures
        s@ == describe_spec(*kind),
{
    match kind {
        FsOpKind::Mkdir { parent, name, .. } => {
            let mut s = String::from_str("mkdir ");
            s.append(name.as_str());
            s.append(" in ");
            push_hex(&mut s, *parent);
            proof {
                reveal_strlit("mkdir ");
                reveal_strlit(" in ");
            }
            s
        },
        FsOpKind::CreateFile { parent, name, .. } => {
            let mut s = String::from_str("create ");
            s.append(name.as_str());
            s.append(" in ");
            push_hex(&mut s, *parent);
            proof {
                reveal_strlit("create ");
                reveal_strlit(" in ");
            }
            s
        },
        FsOpKind::Write { inode, chunks, new_size, .. } => {
            let mut s = String::from_str("write ");
            push_hex(&mut s, *inode);
            s.append(" (");
            push_decimal(&mut s, *new_size);
            s.append(" bytes, ");
            push_decimal(&mut s, chunks.len() as u64);
            s.append(" chunks)");
            proof {
                reveal_strlit("write ");
                reveal_strlit(" (");
                reveal_strlit(" bytes, ");
                reveal_strlit(" chunks)");
            }
            s
        },
        FsOpKind::Rename { old_name, new_name, .. } => {
            let mut s = String::from_str("rename ");
            s.append(old_name.as_str());
            s.append(" -> ");
            s.append(new_name.as_str());
            proof {
                reveal_strlit("rename ");
                reveal_strlit(" -> ");
            }
            s
        },
        FsOpKind::Unlink { parent, name, .. } => {
            let mut s = String::from_str("unlink ");
            s.append(name.as_str());
            s.append(" from ");
            push_hex(&mut s, *parent);
            proof {
                reveal_strlit("unlink ");
                reveal_strlit(" from ");
            }
            s
        },
        FsOpKind::SetAttr { inode, .. } => {
            let mut s = String::from_str("setattr ");
            push_hex(&mut s, *inode);
            proof {
                reveal_strlit("setattr ");
            }
            s
        },
    }
}

} // verus!
