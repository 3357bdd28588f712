//! Re-sealing existing files to the current recipient set.
//!
//! Enrolling a peer makes it a recipient of what is written afterwards; files already on
//! disk carry envelopes for whoever was enrolled when they were written. Re-sealing adds
//! envelopes for the current set. It never revokes: what someone already holds, they
//! keep.

use vstd::prelude::*;
use crate::envelope::{seal, SealedFileKey, EnvelopeError, envelope_key_of, aad_of, recipients_digest_of, lemma_digest_depends_on_the_set};
use crate::primitives::{x25519_public_of, x25519_dh_of, xchacha_seal_of, aead_limit};
use crate::digest::hash_eq;

verus! {

/// What one re-sealing pass did.
#[derive(Debug, Clone, Copy, Default, PartialEq, Eq, Structural)]
pub struct ShareReport {
    /// Files examined.
    pub files_scanned: usize,
    /// Files already sealed to exactly the current recipients.
    pub already_current: usize,
    /// Files re-sealed (or, in a survey, that would be).
    pub resealed: usize,
    /// Encrypted files this node could not open, and so could not re-seal.
    pub unreadable: usize,
    /// Files stored as plaintext, with no envelopes to bring up to date.
    pub plaintext: usize,
    /// True when this was a survey and nothing was written.
    pub dry_run: bool,
}

/// What one examined file turned out to be.
#[derive(Debug, Clone, Copy, PartialEq, Eq, Structural)]
pub enum FileCase {
    /// The hash does not name a file node here.
    NotAFile,
    /// The file is stored as plaintext.
    Plaintext,
    /// The file is encrypted and this node cannot recover its key.
    Unreadable,
    /// The file is encrypted and its key was recovered; `current` when it is already
    /// sealed to exactly the current recipients.
    Readable { current: bool },
}

/// What to do with one file.
#[derive(Debug, Clone, Copy, PartialEq, Eq, Structural)]
pub enum ResealAction {
    /// Nothing to write.
    Skip,
    /// Write the file again with envelopes for the current recipients.
    Reseal,
}

/// Why a re-sealing pass could not start.
#[derive(Debug, Clone, Copy, PartialEq, Eq, Structural)]
pub enum ResealError {
    /// This node has no sealing key, so there is no one to seal to.
    NoSealingKey,
}

impl ResealError {
    /// The operator-facing explanation.
    pub fn message(&self) -> (s: String)
        ensures
            s@ == "this node has no sealing key, so it cannot seal to anyone. Nothing to do."@,
    {
        String::from_str("this node has no sealing key, so it cannot seal to anyone. Nothing to do.")
    }
}

/// Starts a re-sealing pass to `recipients`: an empty report, or a refusal when
/// there is no recipient at all.
pub fn begin_reseal(recipients: &Vec<[u8; 32]>, dry_run: bool) -> (r: Result<ShareReport, ResealError>)
    ensures
        recipients@.len() == 0 <==> r == Err::<ShareReport, ResealError>(ResealError::NoSealingKey),
        recipients@.len() > 0 ==> r == Ok::<ShareReport, ResealError>(
            ShareReport { files_scanned: 0, already_current: 0, resealed: 0, unreadable: 0, plaintext: 0, dry_run },
        ),
{
    if recipients.len() == 0 {
        return Err(ResealError::NoSealingKey);
    }
    Ok(ShareReport { files_scanned: 0, already_current: 0, resealed: 0, unreadable: 0, plaintext: 0, dry_run })
}

/// Whether a file is sealed to exactly the recipients whose digest is `want`.
pub open spec fn is_current(has_sealed_key: bool, recorded: Option<[u8; 32]>, want: Seq<u8>) -> bool {
    !has_sealed_key && (recorded matches Some(r) && r@ == want)
}

/// A file a re-sealing pass wrote (no repository-sealed key, and the digest of the
/// recipient set it was sealed to under its own key) is current on any later pass
/// whose recipients are the same set, in whatever order: a second pass finds
/// nothing to do.
pub proof fn lemma_a_resealed_file_stays_current(file_key: Seq<u8>, sealed_to: Seq<Seq<u8>>, later: Seq<Seq<u8>>, recorded: [u8; 32])
    requires
        recorded@ == recipients_digest_of(file_key, sealed_to),
        forall|x: Seq<u8>| sealed_to.contains(x) <==> later.contains(x),
    ensures
        is_current(false, Some(recorded), recipients_digest_of(file_key, later)),
{
    lemma_digest_depends_on_the_set(file_key, sealed_to, later);
}

/// Whether a file is already sealed to exactly the current recipients: it carries no
/// single repository-sealed key, and its recorded recipient digest is the wanted one.
/// Decided by the keyed digest rather than by counting envelopes, since two different
/// sets of one size would compare equal.
pub fn already_current(has_sealed_key: bool, recorded: Option<[u8; 32]>, want: &[u8; 32]) -> (b: bool)
    ensures
        b == is_current(has_sealed_key, recorded, want@),
{
    if has_sealed_key {
        return false;
    }
    match recorded {
        Some(r) => hash_eq(&r, want),
        None => false,
    }
}

/// Counts one examined file and decides what to do with it.
pub fn tally_file(report: &mut ShareReport, case: FileCase) -> (a: ResealAction)
    requires
        old(report).files_scanned < usize::MAX,
        old(report).already_current < usize::MAX,
        old(report).resealed < usize::MAX,
        old(report).unreadable < usize::MAX,
        old(report).plaintext < usize::MAX,
    ensures
        final(report).files_scanned == old(report).files_scanned + 1,
        final(report).dry_run == old(report).dry_run,
        final(report).plaintext == old(report).plaintext + (if case == FileCase::Plaintext { 1int } else { 0 }),
        final(report).unreadable == old(report).unreadable + (if case == FileCase::Unreadable { 1int } else { 0 }),
        final(report).already_current == old(report).already_current + (if case == (FileCase::Readable { current: true }) { 1int } else { 0 }),
        final(report).resealed == old(report).resealed + (if case == (FileCase::Readable { current: false }) { 1int } else { 0 }),
        a == (if case == (FileCase::Readable { current: false }) && !old(report).dry_run {
            ResealAction::Reseal
        } else {
            ResealAction::Skip
        }),
{
    report.files_scanned = report.files_scanned + 1;
    match case {
        FileCase::NotAFile => ResealAction::Skip,
        FileCase::Plaintext => {
            report.plaintext = report.plaintext + 1;
            ResealAction::Skip
        },
        FileCase::Unreadable => {
            report.unreadable = report.unreadable + 1;
            ResealAction::Skip
        },
        FileCase::Readable { current } => {
            if current {
                report.already_current = report.already_current + 1;
                ResealAction::Skip
            } else {
                report.resealed = report.resealed + 1;
                if report.dry_run {
                    ResealAction::Skip
                } else {
                    ResealAction::Reseal
                }
            }
        },
    }
}

/// Seals `file_key` to every recipient, in order, stopping at the first failure.
pub fn seal_to_all(recipients: &Vec<[u8; 32]>, file_key: &[u8]) -> (r: Result<Vec<SealedFileKey>, EnvelopeError>)
    ensures
        r matches Ok(envs) ==> envs@.len() == recipients@.len() && forall|i: int| #![trigger envs@[i]] 0 <= i < envs@.len() ==> forall|t: Seq<u8>|
            t.len() == 32 && recipients@[i]@ == x25519_public_of(t) ==> envs@[i].ciphertext@ == xchacha_seal_of(
                envelope_key_of(x25519_dh_of(t, envs@[i].ephemeral_pub@)),
                envs@[i].nonce@,
                aad_of(recipients@[i]@),
                file_key@,
            ),
        file_key@.len() < aead_limit() ==> r is Ok,
{
    let mut out: Vec<SealedFileKey> = Vec::new();
    let mut i: usize = 0;
    while i < recipients.len()
        invariant
            i <= recipients@.len(),
            out@.len() == i,
            forall|k: int| #![trigger out@[k]] 0 <= k < i ==> forall|t: Seq<u8>|
                t.len() == 32 && recipients@[k]@ == x25519_public_of(t) ==> out@[k].ciphertext@ == xchacha_seal_of(
                    envelope_key_of(x25519_dh_of(t, out@[k].ephemeral_pub@)),
                    out@[k].nonce@,
                    aad_of(recipients@[k]@),
                    file_key@,
                ),
        decreases recipients@.len() - i,
    {
        match seal(recipients[i], file_key) {
            Ok(env) => {
                out.push(env);
            },
            Err(e) => {
                return Err(e);
            },
        }
        i = i + 1;
    }
    Ok(out)
}

} // verus!
