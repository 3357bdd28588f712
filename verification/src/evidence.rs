//! How a node treats the evidence operations carry.
//!
//! A transparent proof records the state roots around an operation and the objects it
//! touched; a commitment proof adds an inclusion path checkable against the root alone.
//! A receiver is strict about structure and lenient about ordering: a malformed or
//! mislabelled bundle is always rejected, while one whose prior root cannot be
//! corroborated yet is accepted.

use vstd::prelude::*;
use crate::scan::{chars_of, trim_bounds, lowered, range_eq, trim, lower};
use crate::text::{hex_string, dec_string, push_hex, push_decimal};

verus! {

/// How strictly a node treats proofs on operations it receives.
#[derive(Debug, Clone, Copy, PartialEq, Eq, Structural)]
pub enum ProofPolicy {
    /// Do not generate or inspect proofs.
    Off,
    /// Generate proofs on local operations and validate any that arrive.
    Transparent,
    /// As above, and refuse operations that carry no proof at all.
    Required,
    /// Generate commitment proofs carrying an inclusion path.
    Commit,
}

impl Default for ProofPolicy {
    fn default() -> (p: Self)
        ensures
            p == ProofPolicy::Off,
    {
        ProofPolicy::Off
    }
}

/// The policy a config value names; anything unrecognised means none.
pub open spec fn proof_policy_spec(value: Seq<char>) -> ProofPolicy {
    let v = lower(trim(value));
    if v == "transparent"@ {
        ProofPolicy::Transparent
    } else if v == "required"@ {
        ProofPolicy::Required
    } else if v == "zk_commit"@ || v == "commit"@ {
        ProofPolicy::Commit
    } else {
        ProofPolicy::Off
    }
}

impl ProofPolicy {
    pub fn from_config(value: &str) -> (p: Self)
        ensures
            p == proof_policy_spec(value@),
    {
        let v = chars_of(value);
        let (a, b) = trim_bounds(&v, 0, v.len());
        assert(v@.subrange(0, v@.len() as int) =~= value@);
        let w = lowered(&v, a, b);
        let n = w.len();
        assert(w@.subrange(0, n as int) =~= w@);
        let transparent = chars_of("transparent");
        let required = chars_of("required");
        let zk_commit = chars_of("zk_commit");
        let commit = chars_of("commit");
        if range_eq(&w, 0, n, &transparent) {
            ProofPolicy::Transparent
        } else if range_eq(&w, 0, n, &required) {
            ProofPolicy::Required
        } else if range_eq(&w, 0, n, &zk_commit) || range_eq(&w, 0, n, &commit) {
            ProofPolicy::Commit
        } else {
            ProofPolicy::Off
        }
    }

    /// Whether local operations carry proofs at all.
    pub fn generates(&self) -> (b: bool)
        ensures
            b == (*self != ProofPolicy::Off),
    {
        match self {
            ProofPolicy::Off => false,
            _ => true,
        }
    }

    /// Whether local operations should carry an inclusion path.
    pub fn commits(&self) -> (b: bool)
        ensures
            b == (*self == ProofPolicy::Commit),
    {
        match self {
            ProofPolicy::Commit => true,
            _ => false,
        }
    }
}

/// What an incoming operation's proof bundle turned out to be, once decoded and checked.
#[derive(Debug, Clone, Copy, PartialEq, Eq, Structural)]
pub enum ProofEvidence {
    /// The operation carries no bundle.
    Absent,
    /// A transparent bundle: whether it decodes, and whether it records a resulting root.
    Transparent { decodes: bool, records_new_root: bool },
    /// A commitment bundle: whether it decodes, and whether its inclusion path reaches
    /// the root it claims.
    Commit { decodes: bool, reaches_root: bool },
    /// A bundle in a mode this build does not support.
    Unsupported,
}

/// The kinds of proof bundle an operation can carry.
#[derive(Debug, Clone, Copy, PartialEq, Eq, Structural)]
pub enum ProofMode {
    /// The resulting state root, in the clear.
    Transparent,
    /// An inclusion path from the changed entry to the resulting state root.
    ZkCommit,
    /// A succinct proof of the whole transition; not checked by this build.
    ZkFull,
}

/// What a bundle of `mode` amounts to, given whether its bytes decode as that mode
/// and whether the decoded claim holds (a transparent proof records a resulting root;
/// a commitment's path reaches the root it claims). A mode this build cannot check is
/// unsupported whatever its bytes.
pub fn evidence_for(mode: ProofMode, decodes: bool, holds: bool) -> (e: ProofEvidence)
    ensures
        e == (match mode {
            ProofMode::Transparent => ProofEvidence::Transparent { decodes, records_new_root: holds },
            ProofMode::ZkCommit => ProofEvidence::Commit { decodes, reaches_root: holds },
            ProofMode::ZkFull => ProofEvidence::Unsupported,
        }),
{
    match mode {
        ProofMode::Transparent => ProofEvidence::Transparent { decodes, records_new_root: holds },
        ProofMode::ZkCommit => ProofEvidence::Commit { decodes, reaches_root: holds },
        ProofMode::ZkFull => ProofEvidence::Unsupported,
    }
}

/// Why an operation's proof was refused.
#[derive(Debug, Clone, Copy, PartialEq, Eq, Structural)]
pub enum ProofRejection {
    /// The policy requires a proof and there is none.
    Missing,
    /// The bundle does not decode as the mode it declares.
    Malformed,
    /// A transparent proof records no resulting state root.
    NoNewRoot,
    /// The inclusion path does not reach the state root it claims.
    BadInclusion,
    /// The bundle's mode is not supported by this build.
    UnsupportedMode,
}

/// What a refusal says of its operation after naming it.
pub open spec fn rejection_reason(r: ProofRejection) -> Seq<char> {
    match r {
        ProofRejection::Missing => "carries no proof and policy requires one"@,
        ProofRejection::Malformed => "carries a malformed proof"@,
        ProofRejection::NoNewRoot => "records no resulting state root"@,
        ProofRejection::BadInclusion => "carries an inclusion path that does not reach the state root it claims"@,
        ProofRejection::UnsupportedMode => "carries a proof in a mode this build does not support"@,
    }
}

impl ProofRejection {
    /// The operator-facing explanation for the operation `device`/`counter`: the
    /// operation named as `operation <device in hex>/<counter>`, then the reason.
    pub fn message(&self, device: u128, counter: u64) -> (s: String)
        ensures
            s@ == "operation "@ + hex_string(device as nat) + "/"@ + dec_string(counter as nat) + " "@ + rejection_reason(*self),
    {
        let mut s = String::from_str("operation ");
        push_hex(&mut s, device);
        s.append("/");
        push_decimal(&mut s, counter);
        s.append(" ");
        proof {
            reveal_strlit("operation ");
            reveal_strlit("/");
            reveal_strlit(" ");
        }
        match self {
            ProofRejection::Missing => s.append("carries no proof and policy requires one"),
            ProofRejection::Malformed => s.append("carries a malformed proof"),
            ProofRejection::NoNewRoot => s.append("records no resulting state root"),
            ProofRejection::BadInclusion => s.append("carries an inclusion path that does not reach the state root it claims"),
            ProofRejection::UnsupportedMode => s.append("carries a proof in a mode this build does not support"),
        }
        s
    }
}

/// The verdict on an operation's proof under `policy`.
pub open spec fn proof_verdict(policy: ProofPolicy, evidence: ProofEvidence) -> Result<(), ProofRejection> {
    if policy == ProofPolicy::Off {
        Ok(())
    } else {
        match evidence {
            ProofEvidence::Absent => if policy == ProofPolicy::Required {
                Err(ProofRejection::Missing)
            } else {
                Ok(())
            },
            ProofEvidence::Transparent { decodes, records_new_root } => if !decodes {
                Err(ProofRejection::Malformed)
            } else if !records_new_root {
                Err(ProofRejection::NoNewRoot)
            } else {
                Ok(())
            },
            ProofEvidence::Commit { decodes, reaches_root } => if !decodes {
                Err(ProofRejection::Malformed)
            } else if !reaches_root {
                Err(ProofRejection::BadInclusion)
            } else {
                Ok(())
            },
            ProofEvidence::Unsupported => Err(ProofRejection::UnsupportedMode),
        }
    }
}

/// Checks an incoming operation's proof against local policy.
///
/// Malformed evidence is worse than none: it is rejected deterministically, never
/// ignored. Under `Required`, an operation with no proof at all is refused.
pub fn check_proof(policy: ProofPolicy, evidence: ProofEvidence) -> (r: Result<(), ProofRejection>)
    ensures
        r == proof_verdict(policy, evidence),
{
    if policy == ProofPolicy::Off {
        return Ok(());
    }
    match evidence {
        ProofEvidence::Absent => {
            if policy == ProofPolicy::Required {
                Err(ProofRejection::Missing)
            } else {
                Ok(())
            }
        },
        ProofEvidence::Transparent { decodes, records_new_root } => {
            if !decodes {
                Err(ProofRejection::Malformed)
            } else if !records_new_root {
                Err(ProofRejection::NoNewRoot)
            } else {
                Ok(())
            }
        },
        ProofEvidence::Commit { decodes, reaches_root } => {
            if !decodes {
                Err(ProofRejection::Malformed)
            } else if !reaches_root {
                Err(ProofRejection::BadInclusion)
            } else {
                Ok(())
            }
        },
        ProofEvidence::Unsupported => Err(ProofRejection::UnsupportedMode),
    }
}

/// Without a policy every operation passes, whatever it carries.
pub proof fn lemma_no_policy_accepts_everything(evidence: ProofEvidence)
    ensures
        proof_verdict(ProofPolicy::Off, evidence) is Ok,
{
}

/// An operation that carries no proof is refused exactly when the policy is
/// `Required`, and then as missing; every other policy, `Commit` included, accepts it.
pub proof fn lemma_only_required_refuses_a_missing_proof(policy: ProofPolicy)
    ensures
        proof_verdict(policy, ProofEvidence::Absent) is Err <==> policy == ProofPolicy::Required,
        proof_verdict(policy, ProofEvidence::Absent) is Err ==> proof_verdict(policy, ProofEvidence::Absent)
            == Err::<(), ProofRejection>(ProofRejection::Missing),
{
}

/// Malformed evidence is refused under every policy that inspects proofs.
pub proof fn lemma_malformed_is_always_refused(policy: ProofPolicy, evidence: ProofEvidence)
    requires
        policy != ProofPolicy::Off,
        (evidence matches ProofEvidence::Transparent { decodes, .. } && !decodes) || (evidence matches ProofEvidence::Commit { decodes, .. } && !decodes),
    ensures
        proof_verdict(policy, evidence) == Err::<(), ProofRejection>(ProofRejection::Malformed),
{
}

/// Outcome of replaying the local log against its recorded evidence.
#[derive(Debug, Clone)]
pub struct VerifyReport {
    pub operations: usize,
    pub with_proof: usize,
    pub without_proof: usize,
    pub malformed: usize,
    /// Operations whose recorded `new_root` matched the root reached by replay.
    pub roots_matched: usize,
    pub roots_mismatched: usize,
    pub signature_failures: usize,
    pub unreadable_files: Vec<String>,
    pub state_root: Option<[u8; 32]>,
}

impl VerifyReport {
    /// Whether the audit found nothing wrong.
    pub fn ok(&self) -> (b: bool)
        ensures
            b == (self.malformed == 0 && self.signature_failures == 0 && self.roots_mismatched == 0
                && self.unreadable_files@.len() == 0),
    {
        self.malformed == 0 && self.signature_failures == 0 && self.roots_mismatched == 0
            && self.unreadable_files.len() == 0
    }
}

} // verus!
