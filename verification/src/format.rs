//! On-disk format versioning.
//!
//! Records carry no field names or type tags, so a decoder given bytes from another
//! schema can succeed and produce nonsense. A version stamp turns that silent
//! misinterpretation into a refusal. An older store needs an explicit migration; a
//! newer one is refused outright.

use vstd::prelude::*;
use crate::keys::{be_value, read_be, pow256};
use crate::text::{dec_string, push_decimal};

verus! {

/// The format this build reads and writes.
pub const CURRENT_FORMAT_VERSION: u32 = 3;

/// The version an unstamped repository that already holds data is taken to be.
pub const FIRST_FORMAT_VERSION: u32 = 1;

/// What opening a repository found.
#[derive(Debug, Clone, Copy, PartialEq, Eq, Structural)]
pub enum FormatState {
    /// Matches this build. Safe to use.
    Current,
    /// Older than this build. Needs migrating before use.
    NeedsMigration { found: u32 },
    /// Written by a later build. Not usable here at all.
    TooNew { found: u32 },
}

/// How a recorded version compares with this build's.
pub fn classify_format(found: u32) -> (s: FormatState)
    ensures
        s == (if found == CURRENT_FORMAT_VERSION {
            FormatState::Current
        } else if found < CURRENT_FORMAT_VERSION {
            FormatState::NeedsMigration { found }
        } else {
            FormatState::TooNew { found }
        }),
{
    if found == CURRENT_FORMAT_VERSION {
        FormatState::Current
    } else if found < CURRENT_FORMAT_VERSION {
        FormatState::NeedsMigration { found }
    } else {
        FormatState::TooNew { found }
    }
}

/// The version of a store with no stamp: one that already has a head predates
/// versioning; one that has never been written is whatever this build makes it.
pub fn unstamped_version(has_head: bool) -> (v: u32)
    ensures
        v == (if has_head {
            FIRST_FORMAT_VERSION
        } else {
            CURRENT_FORMAT_VERSION
        }),
{
    if has_head {
        FIRST_FORMAT_VERSION
    } else {
        CURRENT_FORMAT_VERSION
    }
}

/// Why a stored version record could not be read.
#[derive(Debug, Clone, Copy, PartialEq, Eq, Structural)]
pub enum FormatError {
    /// The record is not 4 bytes long.
    WrongLength { len: usize },
}

/// Reads a version record: exactly 4 bytes, big-endian.
pub fn decode_format_version(raw: &[u8]) -> (r: Result<u32, FormatError>)
    ensures
        raw@.len() == 4 ==> r is Ok && r->Ok_0 as nat == be_value(raw@),
        raw@.len() != 4 ==> r == Err::<u32, FormatError>(FormatError::WrongLength { len: raw@.len() as usize }),
{
    if raw.len() != 4 {
        return Err(FormatError::WrongLength { len: raw.len() });
    }
    let x = read_be(raw, 0, 4);
    proof {
        assert(raw@.subrange(0, 4) =~= raw@);
        reveal_with_fuel(pow256, 5);
    }
    Ok(x as u32)
}

/// The stored form of a version: 4 bytes, big-endian.
pub fn encode_format_version(v: u32) -> (b: Vec<u8>)
    ensures
        b@ == crate::keys::be_bytes(v as nat, 4),
{
    let mut b: Vec<u8> = Vec::new();
    crate::keys::push_be(&mut b, v as u128, 4);
    assert(b@ =~= crate::keys::be_bytes(v as nat, 4));
    b
}

/// A version written and read back is the same version.
pub proof fn lemma_format_version_round_trip(v: u32)
    ensures
        be_value(crate::keys::be_bytes(v as nat, 4)) == v,
{
    reveal_with_fuel(pow256, 5);
    crate::keys::lemma_be_round_trip_exact(v as nat, 4);
}

/// The step that moves a store on from a version.
#[derive(Debug, Clone, Copy, PartialEq, Eq, Structural)]
pub enum MigrationStep {
    /// v1 to v2: nothing changed shape; rebuild the derived state commitment.
    RebuildCommitment,
    /// v2 to v3: refuse if any record was sealed the old way, else restamp.
    CheckSealing,
}

/// Why a migration stopped.
#[derive(Debug, Clone, Copy, PartialEq, Eq, Structural)]
pub enum MigrationError {
    /// The store is newer than this build.
    TooNew { found: u32 },
    /// No step is implemented from this version.
    NoStep { from: u32 },
    /// A step reported success but did not advance the recorded version.
    NotAdvanced { from: u32 },
    /// Records written with the old sealing format cannot be upgraded in place.
    StaleRecords { count: usize },
}

/// What a migration does next from state `s`: nothing when current, a step when
/// older, a refusal when newer.
pub fn next_migration(s: FormatState) -> (r: Result<Option<MigrationStep>, MigrationError>)
    ensures
        r == (match s {
            FormatState::Current => Ok(None),
            FormatState::TooNew { found } => Err(MigrationError::TooNew { found }),
            FormatState::NeedsMigration { found } => if found == 1 {
                Ok(Some(MigrationStep::RebuildCommitment))
            } else if found == 2 {
                Ok(Some(MigrationStep::CheckSealing))
            } else {
                Err(MigrationError::NoStep { from: found })
            },
        }),
{
    match s {
        FormatState::Current => Ok(None),
        FormatState::TooNew { found } => Err(MigrationError::TooNew { found }),
        FormatState::NeedsMigration { found } => {
            if found == 1 {
                Ok(Some(MigrationStep::RebuildCommitment))
            } else if found == 2 {
                Ok(Some(MigrationStep::CheckSealing))
            } else {
                Err(MigrationError::NoStep { from: found })
            }
        },
    }
}

/// After a step from `from`, the recorded version must have moved forward; otherwise
/// the loop would spin forever on a step that did nothing.
pub fn check_advanced(from: u32, now: u32) -> (r: Result<u32, MigrationError>)
    ensures
        now > from ==> r == Ok::<u32, MigrationError>(now),
        now <= from ==> r == Err::<u32, MigrationError>(MigrationError::NotAdvanced { from }),
{
    if now <= from {
        Err(MigrationError::NotAdvanced { from })
    } else {
        Ok(now)
    }
}

/// The v2 to v3 step: only a store with no record in the old sealing format may be
/// restamped.
pub fn sealing_check(stale: usize) -> (r: Result<u32, MigrationError>)
    ensures
        stale == 0 ==> r == Ok::<u32, MigrationError>(3),
        stale > 0 ==> r == Err::<u32, MigrationError>(MigrationError::StaleRecords { count: stale }),
{
    if stale > 0 {
        Err(MigrationError::StaleRecords { count: stale })
    } else {
        Ok(3)
    }
}

/// A string holding `a`, then `n` in decimal, then `b`.
fn text_around(a: &str, n: u64, b: &str) -> (s: String)
    ensures
        s@ == a@ + dec_string(n as nat) + b@,
{
    let mut s = String::from_str(a);
    push_decimal(&mut s, n);
    s.append(b);
    s
}

/// Why a repository cannot be opened by this build, as the operator is told it.
pub open spec fn refusal_text(s: FormatState) -> Option<Seq<char>> {
    match s {
        FormatState::Current => None,
        FormatState::NeedsMigration { found } => Some(
            "this repository is on-disk format v"@ + dec_string(found as nat)
                + ", but this build expects v3. Back it up, then run `nexusfs migrate` to upgrade it."@,
        ),
        FormatState::TooNew { found } => Some(
            "this repository is on-disk format v"@ + dec_string(found as nat)
                + ", which is newer than the v3 this build understands. Upgrade NexusFS; there is no way to open it safely with this version."@,
        ),
    }
}

/// Refuses to proceed unless the store matches this build: nothing for a current
/// repository, otherwise the reason and what to do about it.
pub fn format_refusal(s: FormatState) -> (r: Option<String>)
    ensures
        match r {
            None => refusal_text(s) is None,
            Some(m) => refusal_text(s) == Some(m@),
        },
{
    proof {
        reveal_strlit("this repository is on-disk format v");
        reveal_strlit(", but this build expects v3. Back it up, then run `nexusfs migrate` to upgrade it.");
        reveal_strlit(", which is newer than the v3 this build understands. Upgrade NexusFS; there is no way to open it safely with this version.");
    }
    match s {
        FormatState::Current => None,
        FormatState::NeedsMigration { found } => Some(
            text_around(
                "this repository is on-disk format v",
                found as u64,
                ", but this build expects v3. Back it up, then run `nexusfs migrate` to upgrade it.",
            ),
        ),
        FormatState::TooNew { found } => Some(
            text_around(
                "this repository is on-disk format v",
                found as u64,
                ", which is newer than the v3 this build understands. Upgrade NexusFS; there is no way to open it safely with this version.",
            ),
        ),
    }
}

impl FormatError {
    /// The operator-facing explanation.
    pub fn message(&self) -> (s: String)
        ensures
            s@ == (match *self {
                FormatError::WrongLength { len } => "format version record is "@ + dec_string(len as nat) + " bytes, expected 4"@,
            }),
    {
        proof {
            reveal_strlit("format version record is ");
            reveal_strlit(" bytes, expected 4");
        }
        match *self {
            FormatError::WrongLength { len } => text_around("format version record is ", len as u64, " bytes, expected 4"),
        }
    }
}

impl MigrationError {
    /// The operator-facing explanation.
    pub fn message(&self) -> (s: String)
        ensures
            s@ == (match *self {
                MigrationError::TooNew { found } => "cannot migrate: the repository is on format v"@ + dec_string(found as nat)
                    + ", newer than the v3 this build understands"@,
                MigrationError::NoStep { from } => "no migration is implemented from on-disk format v"@ + dec_string(
                    from as nat,
                ) + ""@,
                MigrationError::NotAdvanced { from } => "migration from format v"@ + dec_string(from as nat)
                    + " did not advance the recorded version; refusing to continue"@,
                MigrationError::StaleRecords { count } => "this repository holds "@ + dec_string(count as nat)
                    + " record(s) written with the v2 encryption format, which cannot be upgraded in place: a `FileNode` is named by its own hash and a `Write` operation is signed, so neither can be re-encoded without invalidating what refers to it. Copy the content out with a v2 build and write it into a fresh v3 repository."@,
            }),
    {
        proof {
            reveal_strlit("cannot migrate: the repository is on format v");
            reveal_strlit(", newer than the v3 this build understands");
            reveal_strlit("no migration is implemented from on-disk format v");
            reveal_strlit("");
            reveal_strlit("migration from format v");
            reveal_strlit(" did not advance the recorded version; refusing to continue");
            reveal_strlit("this repository holds ");
            reveal_strlit(" record(s) written with the v2 encryption format, which cannot be upgraded in place: a `FileNode` is named by its own hash and a `Write` operation is signed, so neither can be re-encoded without invalidating what refers to it. Copy the content out with a v2 build and write it into a fresh v3 repository.");
        }
        match *self {
            MigrationError::TooNew { found } => text_around(
                "cannot migrate: the repository is on format v",
                found as u64,
                ", newer than the v3 this build understands",
            ),
            MigrationError::NoStep { from } => text_around("no migration is implemented from on-disk format v", from as u64, ""),
            MigrationError::NotAdvanced { from } => text_around(
                "migration from format v",
                from as u64,
                " did not advance the recorded version; refusing to continue",
            ),
            MigrationError::StaleRecords { count } => text_around(
                "this repository holds ",
                count as u64,
                " record(s) written with the v2 encryption format, which cannot be upgraded in place: a `FileNode` is named by its own hash and a `Write` operation is signed, so neither can be re-encoded without invalidating what refers to it. Copy the content out with a v2 build and write it into a fresh v3 repository.",
            ),
        }
    }
}

} // verus!
