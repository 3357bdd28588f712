//! Which peers we accept, and how their keys are pinned.
//!
//! Identity is the ed25519 key that signs the handshake, pinned per device. A device
//! presenting a different key than the one pinned is refused whatever the policy: that
//! is either a rotation, which needs an explicit re-enrolment, or an impersonation.

use vstd::prelude::*;
use crate::digest::hash_eq;
use crate::text::{hex_string, push_hex};
use crate::keys::{be_value, read_be, peer_key_prefix, lemma_pow256_16};

verus! {

/// Trust-on-first-use policy for peer public keys.
#[derive(Debug, Clone, Copy, PartialEq, Eq, Structural)]
pub struct TrustPolicy {
    /// Accept and pin an unknown device the first time it is seen.
    pub tofu: bool,
}

/// What accepting a peer involves.
#[derive(Debug, Clone, Copy, PartialEq, Eq, Structural)]
pub enum Admission {
    /// The presented key is the one pinned.
    Known,
    /// The device is unknown and first use is trusted: pin the key, then accept.
    PinOnFirstUse,
}

/// Why a peer is refused.
#[derive(Debug, Clone, Copy, PartialEq, Eq, Structural)]
pub enum TrustError {
    /// The device presented a different key than the one pinned.
    KeyMismatch { device: u128 },
    /// The device is not enrolled and first use is not trusted.
    NotEnrolled { device: u128 },
}

/// The decision on a peer presenting `presented`, given the key pinned for it.
pub open spec fn admission_spec(pinned: Option<[u8; 32]>, presented: Seq<u8>, policy: TrustPolicy, device: u128) -> Result<Admission, TrustError> {
    match pinned {
        Some(known) => if known@ == presented {
            Ok(Admission::Known)
        } else {
            Err(TrustError::KeyMismatch { device })
        },
        None => if policy.tofu {
            Ok(Admission::PinOnFirstUse)
        } else {
            Err(TrustError::NotEnrolled { device })
        },
    }
}

/// Checks a peer's key against what is pinned for `device`.
pub fn authorize(pinned: Option<[u8; 32]>, policy: TrustPolicy, device: u128, presented: &[u8; 32]) -> (r: Result<Admission, TrustError>)
    ensures
        r == admission_spec(pinned, presented@, policy, device),
{
    match pinned {
        Some(known) => {
            if hash_eq(&known, presented) {
                Ok(Admission::Known)
            } else {
                Err(TrustError::KeyMismatch { device })
            }
        },
        None => {
            if policy.tofu {
                Ok(Admission::PinOnFirstUse)
            } else {
                Err(TrustError::NotEnrolled { device })
            }
        },
    }
}

/// A key pinned for a device is never replaced by authorizing: a mismatch is refused
/// under every policy.
pub proof fn lemma_pinned_key_is_never_overridden(known: [u8; 32], presented: Seq<u8>, policy: TrustPolicy, device: u128)
    requires
        known@ != presented,
    ensures
        admission_spec(Some(known), presented, policy, device) == Err::<Admission, TrustError>(
            TrustError::KeyMismatch { device },
        ),
{
}

/// What `enrol` did.
#[derive(Debug, Clone, Copy, PartialEq, Eq, Structural)]
pub enum Enrolment {
    /// The device was not known before.
    Added,
    /// Already enrolled with exactly this key.
    Unchanged,
    /// Already enrolled with a different key, and replacement was allowed.
    Rotated,
}

/// Why an enrolment was refused.
#[derive(Debug, Clone, Copy, PartialEq, Eq, Structural)]
pub enum EnrolError {
    /// The device has a different signing key pinned and rotation was not allowed.
    SigningKeyChanged { device: u128 },
    /// The device has a different sealing key and rotation was not allowed.
    SealingKeyChanged { device: u128 },
}

/// The outcome of pinning `pubkey` for a device whose pinned key is `existing`.
pub open spec fn enrol_spec(existing: Option<[u8; 32]>, pubkey: Seq<u8>, allow_rotation: bool, device: u128) -> Result<Enrolment, EnrolError> {
    match existing {
        Some(k) => if k@ == pubkey {
            Ok(Enrolment::Unchanged)
        } else if !allow_rotation {
            Err(EnrolError::SigningKeyChanged { device })
        } else {
            Ok(Enrolment::Rotated)
        },
        None => Ok(Enrolment::Added),
    }
}

/// Decides an enrolment of the signing key. Replacing a different key requires
/// `allow_rotation`: silently overwriting would erase the one signal that tells a
/// planned rotation from an impersonation.
pub fn enrol_signing_key(existing: Option<[u8; 32]>, pubkey: &[u8; 32], allow_rotation: bool, device: u128) -> (r: Result<Enrolment, EnrolError>)
    ensures
        r == enrol_spec(existing, pubkey@, allow_rotation, device),
{
    match existing {
        Some(k) => {
            if hash_eq(&k, pubkey) {
                Ok(Enrolment::Unchanged)
            } else if !allow_rotation {
                Err(EnrolError::SigningKeyChanged { device })
            } else {
                Ok(Enrolment::Rotated)
            }
        },
        None => Ok(Enrolment::Added),
    }
}

/// Decides whether to record a sealing key: `Ok(true)` when it must be written,
/// `Ok(false)` when the same key is already there or none was given.
pub fn enrol_sealing_key(existing: Option<[u8; 32]>, seal: Option<[u8; 32]>, allow_rotation: bool, device: u128) -> (r: Result<bool, EnrolError>)
    ensures
        r == (match seal {
            None => Ok(false),
            Some(s) => match existing {
                Some(e) => if e@ == s@ {
                    Ok(false)
                } else if !allow_rotation {
                    Err(EnrolError::SealingKeyChanged { device })
                } else {
                    Ok(true)
                },
                None => Ok(true),
            },
        }),
{
    match seal {
        None => Ok(false),
        Some(s) => match existing {
            Some(e) => {
                if hash_eq(&e, &s) {
                    Ok(false)
                } else if !allow_rotation {
                    Err(EnrolError::SealingKeyChanged { device })
                } else {
                    Ok(true)
                }
            },
            None => Ok(true),
        },
    }
}

/// A pinned-key record: the device its key names and the 32-byte key, when both are
/// well formed.
pub open spec fn peer_entry_spec(key: Seq<u8>, value: Seq<u8>) -> Option<(u128, Seq<u8>)> {
    let n = peer_key_prefix().len();
    if key.len() == n + 16 && value.len() == 32 {
        Some((be_value(key.subrange(n as int, key.len() as int)) as u128, value))
    } else {
        None
    }
}

/// Reads one pinned-key record found under the peer-key prefix. Records of the wrong
/// shape are skipped.
pub fn parse_peer_entry(key: &[u8], value: &[u8]) -> (r: Option<(u128, [u8; 32])>)
    ensures
        match r {
            None => peer_entry_spec(key@, value@) is None,
            Some((d, k)) => peer_entry_spec(key@, value@) == Some((d, k@)),
        },
{
    if key.len() != 25 || value.len() != 32 {
        return None;
    }
    let d = read_be(key, 9, 16);
    proof {
        lemma_pow256_16();
    }
    let mut k: [u8; 32] = [0u8; 32];
    let mut i: usize = 0;
    while i < 32
        invariant
            i <= 32,
            value@.len() == 32,
            k@.len() == 32,
            forall|j: int| 0 <= j < i ==> k@[j] == value@[j],
        decreases 32 - i,
    {
        k.set(i, value[i]);
        i = i + 1;
    }
    assert(k@ =~= value@);
    Some((d, k))
}

/// One enrolled peer.
#[derive(Debug, Clone, Copy)]
pub struct EnrolledPeer {
    pub device_id: u128,
    pub pubkey: [u8; 32],
    /// The X25519 key to seal file keys to, when one has been enrolled.
    pub seal_key: Option<[u8; 32]>,
}

/// A string holding `a`, then `device` in lower-case hex, then `b`.
fn device_text(a: &str, device: u128, b: &str) -> (s: String)
    ensures
        s@ == a@ + hex_string(device as nat) + b@,
{
    let mut s = String::from_str(a);
    push_hex(&mut s, device);
    s.append(b);
    s
}

impl TrustError {
    /// The operator-facing explanation.
    pub fn message(&self) -> (s: String)
        ensures
            s@ == (match *self {
                TrustError::KeyMismatch { device } => "device "@ + hex_string(device as nat)
                    + " presented a different key than the one pinned; refusing to sync (re-enrol the peer if this was a deliberate rotation)"@,
                TrustError::NotEnrolled { device } => "device "@ + hex_string(device as nat)
                    + " is not enrolled and trust-on-first-use is disabled"@,
            }),
    {
        proof {
            reveal_strlit("device ");
            reveal_strlit(" presented a different key than the one pinned; refusing to sync (re-enrol the peer if this was a deliberate rotation)");
            reveal_strlit(" is not enrolled and trust-on-first-use is disabled");
        }
        match *self {
            TrustError::KeyMismatch { device } => device_text(
                "device ",
                device,
                " presented a different key than the one pinned; refusing to sync (re-enrol the peer if this was a deliberate rotation)",
            ),
            TrustError::NotEnrolled { device } => device_text("device ", device, " is not enrolled and trust-on-first-use is disabled"),
        }
    }
}

impl EnrolError {
    /// The operator-facing explanation, naming the fix.
    pub fn message(&self) -> (s: String)
        ensures
            s@ == (match *self {
                EnrolError::SigningKeyChanged { device } => "device "@ + hex_string(device as nat)
                    + " is already enrolled with a different key. If this is a deliberate rotation, re-run with --rotate; if it is not, the peer is not who it claims to be."@,
                EnrolError::SealingKeyChanged { device } => "device "@ + hex_string(device as nat)
                    + " is already enrolled with a different sealing key. If this is a deliberate rotation, re-run with --rotate."@,
            }),
    {
        proof {
            reveal_strlit("device ");
            reveal_strlit(" is already enrolled with a different key. If this is a deliberate rotation, re-run with --rotate; if it is not, the peer is not who it claims to be.");
            reveal_strlit(" is already enrolled with a different sealing key. If this is a deliberate rotation, re-run with --rotate.");
        }
        match *self {
            EnrolError::SigningKeyChanged { device } => device_text(
                "device ",
                device,
                " is already enrolled with a different key. If this is a deliberate rotation, re-run with --rotate; if it is not, the peer is not who it claims to be.",
            ),
            EnrolError::SealingKeyChanged { device } => device_text(
                "device ",
                device,
                " is already enrolled with a different sealing key. If this is a deliberate rotation, re-run with --rotate.",
            ),
        }
    }
}

} // verus!
