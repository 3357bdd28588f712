//! The decisions of a replication session.
//!
//! A session is pull-based and one-directional: the initiator asks a peer for what it
//! is missing, and nothing is pushed. Operations are transferred before content,
//! because an operation is small and self-describing while a chunk is only meaningful
//! once something refers to it.
//!
//! Framing, the handshake and the store live with the transport; what is here is every
//! choice the two ends make between messages: when a phase is over, how much content
//! to ask for, which returned content to keep, and what a responder puts in a batch.

use vstd::prelude::*;
use crate::digest::{blake3_of, hash_bytes, hash_eq, hash_in, hash_listed};

verus! {

/// Protocol version spoken by this build.
pub const PROTOCOL_VERSION: u16 = 4;

/// Largest frame accepted, in bytes.
pub const MAX_FRAME_LEN: usize = 8388608;

/// Operations per batch, so a large backlog streams rather than arriving as one frame.
pub const OPS_BATCH: usize = 256;

/// Content bytes per batch, kept well under the frame limit.
pub const BLOB_BATCH_BYTES: u64 = 4194304;

/// Total operations accepted in one session, so a peer cannot stream forever.
pub const MAX_OPS_PER_SESSION: usize = 100000;

/// How much this pass is allowed to transfer.
///
/// Operations always flow; only content is rationed.
#[derive(Debug, Clone, Copy, PartialEq, Eq, Structural)]
pub struct SyncLimits {
    /// Request chunk content at all.
    pub content: bool,
    /// Ceiling on content bytes accepted this pass.
    pub max_content_bytes: u64,
}

impl SyncLimits {
    pub fn unlimited() -> (l: Self)
        ensures
            l.content,
            l.max_content_bytes == u64::MAX,
    {
        SyncLimits { content: true, max_content_bytes: u64::MAX }
    }

    /// Take operations, defer every byte of content.
    pub fn metadata_only() -> (l: Self)
        ensures
            !l.content,
            l.max_content_bytes == 0,
    {
        SyncLimits { content: false, max_content_bytes: 0 }
    }
}

impl Default for SyncLimits {
    fn default() -> (l: Self)
        ensures
            l.content,
            l.max_content_bytes == u64::MAX,
    {
        SyncLimits::unlimited()
    }
}

/// What one pull achieved.
#[derive(Debug, Clone, Copy, PartialEq, Eq, Structural)]
pub struct SyncOutcome {
    pub peer: Option<u128>,
    pub ops_received: usize,
    pub ops_applied: usize,
    pub blobs_received: usize,
    pub content_bytes: u64,
    pub still_pending: usize,
    /// True when content was left on the table because of the budget rather than
    /// because the peer had nothing more.
    pub content_deferred: bool,
}

impl Default for SyncOutcome {
    fn default() -> (o: Self)
        ensures
            o.peer is None,
            o.ops_received == 0,
            o.ops_applied == 0,
            o.blobs_received == 0,
            o.content_bytes == 0,
            o.still_pending == 0,
            !o.content_deferred,
    {
        SyncOutcome {
            peer: None,
            ops_received: 0,
            ops_applied: 0,
            blobs_received: 0,
            content_bytes: 0,
            still_pending: 0,
            content_deferred: false,
        }
    }
}

/// Why a session was abandoned.
#[derive(Debug, Clone, Copy, PartialEq, Eq, Structural)]
pub enum SessionError {
    /// The peer sent more than [`MAX_OPS_PER_SESSION`] operations.
    TooManyOps,
    /// The peer speaks another protocol version.
    UnsupportedVersion { found: u16 },
}

/// What the operation phase does after a batch arrives.
#[derive(Debug, Clone, Copy, PartialEq, Eq, Structural)]
pub enum OpsStep {
    /// An empty batch with nothing more: the phase is over.
    Finished,
    /// Apply the batch.
    Apply,
}

/// What the operation phase does once a batch has been applied.
#[derive(Debug, Clone, Copy, PartialEq, Eq, Structural)]
pub enum OpsNext {
    /// The peer has nothing more.
    Done,
    /// The peer has more, but this round moved the clock summary nowhere: asking again
    /// would ask the identical question.
    NoProgress,
    /// Ask again with the updated summary.
    Again,
}

/// What the content phase does next.
#[derive(Debug, Clone, Copy, PartialEq, Eq, Structural)]
pub enum ContentStep {
    /// Nothing is missing.
    Done,
    /// Content is missing, and the budget says to leave it.
    Deferred,
    /// Ask the peer for the missing chunks, up to this many bytes.
    Request { max_bytes: u64 },
}

/// What the content phase does once a batch of content has been stored.
#[derive(Debug, Clone, Copy, PartialEq, Eq, Structural)]
pub enum ContentNext {
    Done,
    /// The peer reports more but this round stored nothing.
    NoProgress,
    Again,
}

/// Accept only the protocol version this build speaks.
pub fn check_protocol_version(found: u16) -> (r: Result<(), SessionError>)
    ensures
        r is Ok <==> found == PROTOCOL_VERSION,
        r is Err ==> r == Err::<(), SessionError>(SessionError::UnsupportedVersion { found }),
{
    if found == PROTOCOL_VERSION {
        Ok(())
    } else {
        Err(SessionError::UnsupportedVersion { found })
    }
}

/// The initiator's side of a session: the outcome so far and the budget it runs under.
#[derive(Debug, Clone, Copy)]
pub struct PullSession {
    pub outcome: SyncOutcome,
    pub limits: SyncLimits,
}

/// The batch `wanted` asks for, given the budget already spent.
pub open spec fn request_size(limits: SyncLimits, spent: u64) -> u64 {
    let left = if spent <= limits.max_content_bytes {
        (limits.max_content_bytes - spent) as u64
    } else {
        0u64
    };
    if BLOB_BATCH_BYTES <= left {
        BLOB_BATCH_BYTES
    } else {
        left
    }
}

/// A returned blob that was asked for and whose bytes match its name.
pub open spec fn blob_wanted(wanted: Seq<[u8; 32]>, blob: ([u8; 32], Vec<u8>)) -> bool {
    hash_listed(wanted, blob.0@) && blake3_of(blob.1@) == blob.0@
}

/// The total length of the byte strings in `blobs`.
pub open spec fn blob_bytes(blobs: Seq<([u8; 32], Vec<u8>)>) -> nat
    decreases blobs.len(),
{
    if blobs.len() == 0 {
        0
    } else {
        blob_bytes(blobs.drop_last()) + blobs.last().1@.len()
    }
}

/// The blobs of a batch that are kept, in the order they came: each one asked for,
/// whose bytes match its name, and that still fits under the ceiling `cap` given the
/// `spent` bytes the pass had accepted before the batch and those kept before it.
pub open spec fn kept_blobs(wanted: Seq<[u8; 32]>, blobs: Seq<([u8; 32], Vec<u8>)>, cap: u64, spent: u64) -> Seq<([u8; 32], Vec<u8>)>
    decreases blobs.len(),
{
    if blobs.len() == 0 {
        Seq::empty()
    } else {
        let prev = kept_blobs(wanted, blobs.drop_last(), cap, spent);
        if blob_wanted(wanted, blobs.last()) && spent + blob_bytes(prev) + blobs.last().1@.len() <= cap {
            prev.push(blobs.last())
        } else {
            prev
        }
    }
}

/// Whether some blob of the batch that was asked for and checks out was turned away
/// because it would have taken the pass over its ceiling.
pub open spec fn over_budget(wanted: Seq<[u8; 32]>, blobs: Seq<([u8; 32], Vec<u8>)>, cap: u64, spent: u64) -> bool
    decreases blobs.len(),
{
    if blobs.len() == 0 {
        false
    } else {
        let prev = kept_blobs(wanted, blobs.drop_last(), cap, spent);
        over_budget(wanted, blobs.drop_last(), cap, spent) || (blob_wanted(wanted, blobs.last()) && spent + blob_bytes(prev)
            + blobs.last().1@.len() > cap)
    }
}

/// The bytes kept never take a pass that was within its ceiling over it, and add
/// nothing to one that was already past it.
pub proof fn lemma_kept_within_ceiling(wanted: Seq<[u8; 32]>, blobs: Seq<([u8; 32], Vec<u8>)>, cap: u64, spent: u64)
    ensures
        spent <= cap ==> spent + blob_bytes(kept_blobs(wanted, blobs, cap, spent)) <= cap,
        spent > cap ==> blob_bytes(kept_blobs(wanted, blobs, cap, spent)) == 0,
        kept_blobs(wanted, blobs, cap, spent).len() <= blobs.len(),
    decreases blobs.len(),
{
    if blobs.len() > 0 {
        lemma_kept_within_ceiling(wanted, blobs.drop_last(), cap, spent);
        let prev = kept_blobs(wanted, blobs.drop_last(), cap, spent);
        if blob_wanted(wanted, blobs.last()) && spent + blob_bytes(prev) + blobs.last().1@.len() <= cap {
            assert(prev.push(blobs.last()).drop_last() =~= prev);
        }
    }
}

impl PullSession {
    /// A fresh session under `limits`.
    pub fn new(limits: SyncLimits) -> (s: Self)
        ensures
            s.limits == limits,
            s.outcome.peer is None,
            s.outcome.ops_received == 0,
            s.outcome.ops_applied == 0,
            s.outcome.blobs_received == 0,
            s.outcome.content_bytes == 0,
            s.outcome.still_pending == 0,
            !s.outcome.content_deferred,
    {
        PullSession { outcome: SyncOutcome::default(), limits }
    }

    /// The handshake named the peer.
    pub fn on_peer(&mut self, peer: u128)
        ensures
            final(self).outcome == (SyncOutcome { peer: Some(peer), ..old(self).outcome }),
            final(self).limits == old(self).limits,
    {
        self.outcome.peer = Some(peer);
    }

    /// A batch of `batch_len` operations arrived, with `more` set when the peer has
    /// further operations.
    ///
    /// An empty batch with nothing more ends the phase. Otherwise the batch counts
    /// toward the session's total, and passing [`MAX_OPS_PER_SESSION`] abandons it.
    pub fn on_ops_batch(&mut self, batch_len: usize, more: bool) -> (r: Result<OpsStep, SessionError>)
        requires
            old(self).outcome.ops_received <= MAX_OPS_PER_SESSION,
            batch_len <= MAX_FRAME_LEN,
        ensures
            final(self).limits == old(self).limits,
            batch_len == 0 && !more ==> r == Ok::<OpsStep, SessionError>(OpsStep::Finished) && final(self).outcome
                == old(self).outcome,
            !(batch_len == 0 && !more) ==> {
                &&& final(self).outcome == (SyncOutcome {
                    ops_received: (old(self).outcome.ops_received + batch_len) as usize,
                    ..old(self).outcome
                })
                &&& (old(self).outcome.ops_received + batch_len > MAX_OPS_PER_SESSION ==> r == Err::<
                    OpsStep,
                    SessionError,
                >(SessionError::TooManyOps))
                &&& (old(self).outcome.ops_received + batch_len <= MAX_OPS_PER_SESSION ==> r == Ok::<
                    OpsStep,
                    SessionError,
                >(OpsStep::Apply))
            },
    {
        if batch_len == 0 && !more {
            return Ok(OpsStep::Finished);
        }
        self.outcome.ops_received = self.outcome.ops_received + batch_len;
        if self.outcome.ops_received > MAX_OPS_PER_SESSION {
            Err(SessionError::TooManyOps)
        } else {
            Ok(OpsStep::Apply)
        }
    }

    /// A batch was applied: `applied` of its operations took effect; `advanced` says
    /// whether the local clock summary moved.
    ///
    /// The peer answers relative to the summary, which only advances on the highest
    /// contiguous counter per device; a round that moves it nowhere would be served the
    /// identical window again, so it ends the phase.
    pub fn on_ops_applied(&mut self, applied: usize, more: bool, advanced: bool) -> (n: OpsNext)
        requires
            old(self).outcome.ops_applied + applied <= usize::MAX,
        ensures
            final(self).outcome == (SyncOutcome {
                ops_applied: (old(self).outcome.ops_applied + applied) as usize,
                ..old(self).outcome
            }),
            final(self).limits == old(self).limits,
            n == (if !more {
                OpsNext::Done
            } else if !advanced {
                OpsNext::NoProgress
            } else {
                OpsNext::Again
            }),
    {
        self.outcome.ops_applied = self.outcome.ops_applied + applied;
        if !more {
            OpsNext::Done
        } else if !advanced {
            OpsNext::NoProgress
        } else {
            OpsNext::Again
        }
    }

    /// `wanted` chunks are still missing: decide whether to ask for them.
    ///
    /// A budget that forbids content, or one already spent, defers them; operations
    /// that need them stay parked and apply on a later pass.
    pub fn next_content(&mut self, wanted: usize) -> (c: ContentStep)
        ensures
            final(self).limits == old(self).limits,
            wanted == 0 ==> c == ContentStep::Done && final(self).outcome == old(self).outcome,
            wanted > 0 && (!old(self).limits.content || old(self).outcome.content_bytes
                >= old(self).limits.max_content_bytes) ==> c == ContentStep::Deferred && final(self).outcome
                == (SyncOutcome { content_deferred: true, ..old(self).outcome }),
            wanted > 0 && old(self).limits.content && old(self).outcome.content_bytes
                < old(self).limits.max_content_bytes ==> c == (ContentStep::Request {
                max_bytes: request_size(old(self).limits, old(self).outcome.content_bytes),
            }) && final(self).outcome == old(self).outcome,
    {
        if wanted == 0 {
            return ContentStep::Done;
        }
        if !self.limits.content {
            self.outcome.content_deferred = true;
            return ContentStep::Deferred;
        }
        if self.outcome.content_bytes >= self.limits.max_content_bytes {
            self.outcome.content_deferred = true;
            return ContentStep::Deferred;
        }
        let left = self.limits.max_content_bytes - self.outcome.content_bytes;
        let max_bytes = if BLOB_BATCH_BYTES <= left {
            BLOB_BATCH_BYTES
        } else {
            left
        };
        ContentStep::Request { max_bytes }
    }

    /// A batch of content arrived in answer to a request for `wanted`.
    ///
    /// Content that was not asked for is refused outright, and so is content whose
    /// bytes do not hash to the name they came under. The budget's ceiling holds: a
    /// blob that would take the bytes accepted this pass past it is turned away, and
    /// the pass is marked as having deferred content. What is kept is returned, in the
    /// order it came, to be stored; its bytes count against the budget.
    pub fn on_blobs(&mut self, wanted: &Vec<[u8; 32]>, blobs: Vec<([u8; 32], Vec<u8>)>) -> (kept: Vec<([u8; 32], Vec<u8>)>)
        requires
            old(self).outcome.blobs_received + blobs@.len() <= usize::MAX,
        ensures
            kept@ == kept_blobs(wanted@, blobs@, old(self).limits.max_content_bytes, old(self).outcome.content_bytes),
            final(self).outcome == (SyncOutcome {
                content_bytes: (old(self).outcome.content_bytes + blob_bytes(kept@)) as u64,
                blobs_received: (old(self).outcome.blobs_received + kept@.len()) as usize,
                content_deferred: old(self).outcome.content_deferred || over_budget(
                    wanted@,
                    blobs@,
                    old(self).limits.max_content_bytes,
                    old(self).outcome.content_bytes,
                ),
                ..old(self).outcome
            }),
            final(self).limits == old(self).limits,
            old(self).outcome.content_bytes <= old(self).limits.max_content_bytes ==> final(self).outcome.content_bytes
                <= final(self).limits.max_content_bytes,
    {
        let ghost start = self.outcome;
        let ghost all = blobs@;
        let cap = self.limits.max_content_bytes;
        let mut kept: Vec<([u8; 32], Vec<u8>)> = Vec::new();
        let mut rest = blobs;
        let n = rest.len();
        let mut i: usize = 0;
        assert(all.subrange(0, 0) =~= Seq::<([u8; 32], Vec<u8>)>::empty());
        while i < n
            invariant
                n == all.len(),
                i <= n,
                cap == old(self).limits.max_content_bytes,
                rest@ == all.subrange(i as int, n as int),
                kept@ == kept_blobs(wanted@, all.subrange(0, i as int), cap, start.content_bytes),
                self.limits == old(self).limits,
                self.outcome.content_bytes == start.content_bytes + blob_bytes(kept@),
                self.outcome == (SyncOutcome {
                    content_bytes: self.outcome.content_bytes,
                    blobs_received: (start.blobs_received + kept@.len()) as usize,
                    content_deferred: start.content_deferred || over_budget(wanted@, all.subrange(0, i as int), cap, start.content_bytes),
                    ..start
                }),
                start == old(self).outcome,
                start.blobs_received + all.len() <= usize::MAX,
            decreases n - i,
        {
            let (hash, bytes) = rest.remove(0);
            let ghost pre = all.subrange(0, i + 1);
            proof {
                assert(pre.drop_last() =~= all.subrange(0, i as int));
                assert(pre.last() == all[i as int]);
                assert(all[i as int] == (hash, bytes));
                assert(rest@ =~= all.subrange(i + 1, n as int));
                lemma_kept_within_ceiling(wanted@, all.subrange(0, i as int), cap, start.content_bytes);
            }
            let asked = hash_in(wanted, &hash);
            let matches = if asked {
                let actual = hash_bytes(bytes.as_slice());
                hash_eq(&actual, &hash)
            } else {
                false
            };
            if matches {
                let len = bytes.len() as u64;
                let spent = self.outcome.content_bytes;
                if spent <= cap && len <= cap - spent {
                    let ghost k0 = kept@;
                    proof {
                        assert(k0.push((hash, bytes)).drop_last() =~= k0);
                        assert(kept_blobs(wanted@, pre, cap, start.content_bytes) == k0.push((hash, bytes)));
                    }
                    self.outcome.content_bytes = spent + len;
                    self.outcome.blobs_received = self.outcome.blobs_received + 1;
                    kept.push((hash, bytes));
                } else {
                    self.outcome.content_deferred = true;
                }
            }
            i = i + 1;
        }
        assert(all.subrange(0, n as int) =~= all);
        proof {
            lemma_kept_within_ceiling(wanted@, all, cap, start.content_bytes);
        }
        kept
    }

    /// A batch of content was stored and parked operations retried: `applied` of them
    /// took effect. `stored_before` is how many blobs the session had before the batch.
    ///
    /// The wanted set only shrinks when a blob is stored, so a round that stores
    /// nothing while claiming there is more would repeat the identical request.
    pub fn on_content_stored(&mut self, applied: usize, more: bool, stored_before: usize) -> (n: ContentNext)
        requires
            old(self).outcome.ops_applied + applied <= usize::MAX,
        ensures
            final(self).outcome == (SyncOutcome {
                ops_applied: (old(self).outcome.ops_applied + applied) as usize,
                ..old(self).outcome
            }),
            final(self).limits == old(self).limits,
            n == (if !more {
                ContentNext::Done
            } else if old(self).outcome.blobs_received == stored_before {
                ContentNext::NoProgress
            } else {
                ContentNext::Again
            }),
    {
        self.outcome.ops_applied = self.outcome.ops_applied + applied;
        if !more {
            ContentNext::Done
        } else if self.outcome.blobs_received == stored_before {
            ContentNext::NoProgress
        } else {
            ContentNext::Again
        }
    }

    /// The pass is over: `pending` operations are still parked.
    pub fn finish(self, pending: usize) -> (o: SyncOutcome)
        ensures
            o == (SyncOutcome { still_pending: pending, ..self.outcome }),
    {
        let mut o = self.outcome;
        o.still_pending = pending;
        o
    }
}

// --- responder --------------------------------------------------------------

/// Whether an operations batch of `len` tells the initiator to ask again: a full batch
/// may have more behind it.
pub fn ops_reply_more(len: usize) -> (more: bool)
    ensures
        more == (len == OPS_BATCH),
{
    len == OPS_BATCH
}

/// The requested hashes a responder answers with, from `i` on, having already put
/// `bytes` in the batch: each held one is taken in order, and once the batch reaches
/// `limit` bytes the rest are left for another round and `more` is set.
pub open spec fn batch_from(held: Seq<Option<u64>>, limit: nat, i: nat, bytes: nat) -> (Seq<usize>, bool)
    decreases held.len() - i,
{
    if i >= held.len() {
        (Seq::empty(), false)
    } else if bytes >= limit {
        (Seq::empty(), true)
    } else {
        match held[i as int] {
            Some(len) => {
                let r = batch_from(held, limit, i + 1, bytes + len as nat);
                (seq![i as usize] + r.0, r.1)
            },
            None => batch_from(held, limit, i + 1, bytes),
        }
    }
}

/// The batch limit a request for `max_bytes` is answered under.
pub open spec fn batch_limit(max_bytes: u64) -> u64 {
    if max_bytes <= BLOB_BATCH_BYTES {
        max_bytes
    } else {
        BLOB_BATCH_BYTES
    }
}

/// Plans one content batch. `held[i]` is the length of the `i`-th requested chunk when
/// this node holds it. Returns the indices to send, in request order, and whether more
/// was left out for the byte limit.
pub fn plan_blob_batch(held: &Vec<Option<u64>>, max_bytes: u64) -> (r: (Vec<usize>, bool))
    requires
        forall|i: int| 0 <= i < held@.len() ==> (#[trigger] held@[i] matches Some(len) ==> len
            <= u64::MAX - BLOB_BATCH_BYTES),
    ensures
        (r.0@, r.1) == batch_from(held@, batch_limit(max_bytes) as nat, 0, 0),
{
    let limit = if max_bytes <= BLOB_BATCH_BYTES {
        max_bytes
    } else {
        BLOB_BATCH_BYTES
    };
    let mut taken: Vec<usize> = Vec::new();
    let mut bytes: u64 = 0;
    let mut i: usize = 0;
    while i < held.len()
        invariant
            i <= held@.len(),
            limit == batch_limit(max_bytes),
            limit <= BLOB_BATCH_BYTES,
            bytes < limit || i == 0 || i == held@.len(),
            forall|j: int| 0 <= j < held@.len() ==> (#[trigger] held@[j] matches Some(len) ==> len
                <= u64::MAX - BLOB_BATCH_BYTES),
            batch_from(held@, limit as nat, 0, 0) == (taken@ + batch_from(held@, limit as nat, i as nat, bytes as nat).0,
                batch_from(held@, limit as nat, i as nat, bytes as nat).1),
        decreases held@.len() - i,
    {
        if bytes >= limit {
            return (taken, true);
        }
        match held[i] {
            Some(len) => {
                let ghost t0 = taken@;
                taken.push(i);
                proof {
                    let r = batch_from(held@, limit as nat, (i + 1) as nat, (bytes + len) as nat);
                    assert(t0 + (seq![i] + r.0) =~= taken@ + r.0);
                }
                bytes = bytes + len;
            },
            None => {},
        }
        i = i + 1;
        if bytes >= limit && i < held.len() {
            return (taken, true);
        }
    }
    assert(taken@ + Seq::<usize>::empty() =~= taken@);
    (taken, false)
}

// --- on-demand fetch ----------------------------------------------------------

/// `hs` without every hash equal to `h`.
pub open spec fn without_hash(hs: Seq<[u8; 32]>, h: Seq<u8>) -> Seq<[u8; 32]>
    decreases hs.len(),
{
    if hs.len() == 0 {
        Seq::empty()
    } else if hs.last()@ == h {
        without_hash(hs.drop_last(), h)
    } else {
        without_hash(hs.drop_last(), h).push(hs.last())
    }
}

/// A fetch round over `blobs`: each blob still outstanding whose bytes match its name
/// is kept and its hash leaves the outstanding list; anything else is ignored. Gives
/// the outstanding list after the round and the blobs kept.
pub open spec fn fetch_round(outstanding: Seq<[u8; 32]>, blobs: Seq<([u8; 32], Vec<u8>)>) -> (Seq<[u8; 32]>, Seq<([u8; 32], Vec<u8>)>)
    decreases blobs.len(),
{
    if blobs.len() == 0 {
        (outstanding, Seq::empty())
    } else {
        let prev = fetch_round(outstanding, blobs.drop_last());
        let b = blobs.last();
        if hash_listed(prev.0, b.0@) && blake3_of(b.1@) == b.0@ {
            (without_hash(prev.0, b.0@), prev.1.push(b))
        } else {
            prev
        }
    }
}

/// Drops every copy of `h` from `hs`.
fn remove_hash(hs: &mut Vec<[u8; 32]>, h: &[u8; 32])
    ensures
        final(hs)@ == without_hash(old(hs)@, h@),
{
    let mut out: Vec<[u8; 32]> = Vec::new();
    let mut i: usize = 0;
    assert(hs@.subrange(0, 0) =~= Seq::<[u8; 32]>::empty());
    while i < hs.len()
        invariant
            i <= hs@.len(),
            hs@ == old(hs)@,
            out@ == without_hash(hs@.subrange(0, i as int), h@),
        decreases hs@.len() - i,
    {
        let x = hs[i];
        proof {
            let pre = hs@.subrange(0, i + 1);
            assert(pre.drop_last() =~= hs@.subrange(0, i as int));
            assert(pre.last() == x);
        }
        if !hash_eq(&x, h) {
            out.push(x);
        }
        i = i + 1;
    }
    assert(hs@.subrange(0, i as int) =~= hs@);
    *hs = out;
}

/// One round of an on-demand fetch: judges `blobs` against the chunks still
/// `outstanding`, drops what was kept from that list, and returns what to store.
///
/// Asked-for comes first: a hash that checks out is still not content we wanted.
pub fn on_fetched(outstanding: &mut Vec<[u8; 32]>, blobs: Vec<([u8; 32], Vec<u8>)>) -> (kept: Vec<([u8; 32], Vec<u8>)>)
    ensures
        (final(outstanding)@, kept@) == fetch_round(old(outstanding)@, blobs@),
{
    let ghost all = blobs@;
    let mut rest = blobs;
    let mut kept: Vec<([u8; 32], Vec<u8>)> = Vec::new();
    let n = rest.len();
    let mut i: usize = 0;
    assert(all.subrange(0, 0) =~= Seq::<([u8; 32], Vec<u8>)>::empty());
    while i < n
        invariant
            n == all.len(),
            i <= n,
            rest@ == all.subrange(i as int, n as int),
            (outstanding@, kept@) == fetch_round(old(outstanding)@, all.subrange(0, i as int)),
        decreases n - i,
    {
        let (hash, bytes) = rest.remove(0);
        let ghost pre = all.subrange(0, i + 1);
        proof {
            assert(pre.drop_last() =~= all.subrange(0, i as int));
            assert(pre.last() == all[i as int]);
            assert(rest@ =~= all.subrange(i + 1, n as int));
        }
        let asked = hash_in(outstanding, &hash);
        let fits = if asked {
            let actual = hash_bytes(bytes.as_slice());
            hash_eq(&actual, &hash)
        } else {
            false
        };
        if fits {
            remove_hash(outstanding, &hash);
            kept.push((hash, bytes));
        }
        i = i + 1;
    }
    assert(all.subrange(0, n as int) =~= all);
    kept
}

/// A round keeps no more blobs than it was handed.
proof fn lemma_fetch_round_len(outstanding: Seq<[u8; 32]>, blobs: Seq<([u8; 32], Vec<u8>)>)
    ensures
        fetch_round(outstanding, blobs).1.len() <= blobs.len(),
    decreases blobs.len(),
{
    if blobs.len() > 0 {
        lemma_fetch_round_len(outstanding, blobs.drop_last());
    }
}

/// The initiator's side of an on-demand fetch of specific chunks.
#[derive(Debug, Clone)]
pub struct ChunkFetch {
    /// The chunks still to be obtained.
    pub outstanding: Vec<[u8; 32]>,
    /// How many were stored so far.
    pub stored: usize,
    /// Nothing more will be asked for.
    pub done: bool,
}

impl ChunkFetch {
    /// Starts a fetch of `wanted`. Asking for nothing is done before it starts: no
    /// message is sent and nothing is stored.
    pub fn new(wanted: Vec<[u8; 32]>) -> (f: Self)
        ensures
            f.outstanding@ == wanted@,
            f.stored == 0,
            f.done == (wanted@.len() == 0),
    {
        let done = wanted.len() == 0;
        ChunkFetch { outstanding: wanted, stored: 0, done }
    }

    /// The request to send next, if any: the chunks still outstanding, at most
    /// [`BLOB_BATCH_BYTES`] of them per reply.
    pub fn next_request(&self) -> (r: Option<u64>)
        ensures
            r == (if !self.done && self.outstanding@.len() > 0 { Some(BLOB_BATCH_BYTES) } else { None::<u64> }),
    {
        if !self.done && self.outstanding.len() > 0 {
            Some(BLOB_BATCH_BYTES)
        } else {
            None
        }
    }

    /// A batch arrived in answer, with `more` set when the peer has further content.
    /// What is kept (asked for, and hashing to its name) is returned to be stored; the
    /// fetch ends when the peer has no more, when the batch stored nothing, or when
    /// nothing is outstanding.
    pub fn on_batch(&mut self, blobs: Vec<([u8; 32], Vec<u8>)>, more: bool) -> (kept: Vec<([u8; 32], Vec<u8>)>)
        requires
            old(self).stored + blobs@.len() <= usize::MAX,
        ensures
            (final(self).outstanding@, kept@) == fetch_round(old(self).outstanding@, blobs@),
            final(self).stored == old(self).stored + kept@.len(),
            final(self).done == (kept@.len() == 0 || !more || final(self).outstanding@.len() == 0),
    {
        proof {
            lemma_fetch_round_len(self.outstanding@, blobs@);
        }
        let kept = on_fetched(&mut self.outstanding, blobs);
        let before = self.stored;
        self.stored = self.stored + kept.len();
        self.done = !fetch_again(before, self.stored, more) || self.outstanding.len() == 0;
        kept
    }

    /// The fetch is over: how many chunks it stored.
    pub fn finish(&self) -> (n: usize)
        ensures
            n == self.stored,
    {
        self.stored
    }
}

/// Whether an on-demand fetch asks again: only while the peer has more and the last
/// round stored something. A peer that promises more while handing back nothing
/// usable would otherwise loop on an unchanged request.
pub fn fetch_again(stored_before: usize, stored_after: usize, more: bool) -> (again: bool)
    ensures
        again == (stored_after != stored_before && more),
{
    stored_after != stored_before && more
}

// --- the sync loop ---------------------------------------------------------------

/// What one tick of the sync loop does.
#[derive(Debug, Clone, Copy, PartialEq, Eq, Structural)]
pub enum PassPlan {
    /// Contact no peer this tick; the budget's reason is recorded as the pause.
    Skip,
    /// Pull from every peer under these limits.
    Pull(SyncLimits),
}

/// Plans one tick of the sync loop from the budget: how long to sleep first, as a
/// multiple of the poll interval in tenths (never below one tenth, so a budget cannot
/// make the loop spin), and whether and how to pull.
pub fn plan_pass(budget: &crate::scheduler::SyncBudget) -> (r: (u32, PassPlan))
    ensures
        r.0 == (if budget.interval_scale_tenths < 1 { 1 } else { budget.interval_scale_tenths }),
        r.1 == (if budget.sync {
            PassPlan::Pull(SyncLimits { content: budget.content, max_content_bytes: budget.max_content_bytes })
        } else {
            PassPlan::Skip
        }),
{
    let tenths = if budget.interval_scale_tenths < 1 { 1 } else { budget.interval_scale_tenths };
    if budget.sync {
        (tenths, PassPlan::Pull(SyncLimits { content: budget.content, max_content_bytes: budget.max_content_bytes }))
    } else {
        (tenths, PassPlan::Skip)
    }
}

// --- fetching deferred content on demand -------------------------------------------

/// The most rounds one read spends fetching what it is missing: one for the file
/// object, one for its chunks, and slack for peers that answer partially.
pub const MAX_FETCH_ROUNDS: usize = 4;

/// The hashes' bytes, in order.
pub open spec fn hash_views(hs: Seq<[u8; 32]>) -> Seq<Seq<u8>> {
    hs.map_values(|h: [u8; 32]| h@)
}

/// Whether two lists name the same hashes in the same order.
pub fn same_hashes(a: &Vec<[u8; 32]>, b: &Vec<[u8; 32]>) -> (r: bool)
    ensures
        r == (hash_views(a@) == hash_views(b@)),
{
    if a.len() != b.len() {
        proof {
            assert(hash_views(a@).len() != hash_views(b@).len());
        }
        return false;
    }
    let mut i: usize = 0;
    while i < a.len()
        invariant
            i <= a@.len(),
            a@.len() == b@.len(),
            forall|j: int| 0 <= j < i ==> a@[j]@ == b@[j]@,
        decreases a@.len() - i,
    {
        if !hash_eq(&a[i], &b[i]) {
            proof {
                assert(hash_views(a@)[i as int] != hash_views(b@)[i as int]);
            }
            return false;
        }
        i = i + 1;
    }
    assert(hash_views(a@) =~= hash_views(b@));
    true
}

/// Bringing in what a read needs, in rounds: each round fetches what is still missing,
/// and the next starts from what is missing after it.
pub struct ContentRounds {
    /// What is still missing.
    pub wanted: Vec<[u8; 32]>,
    /// Rounds fetched so far.
    pub rounds: usize,
    /// The last round changed nothing, so asking again would ask the same question.
    pub stalled: bool,
}

impl ContentRounds {
    /// Starts from what a read is missing.
    pub fn new(wanted: Vec<[u8; 32]>) -> (s: Self)
        ensures
            s.wanted == wanted,
            s.rounds == 0,
            !s.stalled,
    {
        ContentRounds { wanted, rounds: 0, stalled: false }
    }

    /// Whether to fetch `wanted` again: not once nothing is missing, the last round
    /// changed nothing, or the rounds are spent.
    pub fn should_fetch(&self) -> (b: bool)
        ensures
            b == (self.wanted@.len() > 0 && !self.stalled && self.rounds < MAX_FETCH_ROUNDS),
    {
        self.wanted.len() > 0 && !self.stalled && self.rounds < MAX_FETCH_ROUNDS
    }

    /// A round was fetched, after which `next` is missing.
    pub fn on_missing(&mut self, next: Vec<[u8; 32]>)
        requires
            old(self).rounds < MAX_FETCH_ROUNDS,
        ensures
            final(self).rounds == old(self).rounds + 1,
            final(self).stalled == (hash_views(next@) == hash_views(old(self).wanted@)),
            final(self).wanted == next,
    {
        self.stalled = same_hashes(&next, &self.wanted);
        self.wanted = next;
        self.rounds = self.rounds + 1;
    }
}

} // verus!
