//! The record of how each configured peer is doing, for the admin surface.
//!
//! Failures are recorded and retried on the next tick rather than aborting: a peer
//! being unreachable is the normal case for an offline-first system. A pause is a
//! property of this node, not of any peer, so it is kept beside the per-peer records
//! rather than in them.

use vstd::prelude::*;
use crate::ordkey::KeyOrder;
use crate::session::SyncOutcome;
use crate::text::{seq_lex_lt, lemma_lex_irreflexive, lemma_lex_transitive, lemma_lex_total, hex_string, push_hex};

verus! {

/// How a configured peer is doing.
#[derive(Debug)]
pub struct PeerStatus {
    pub address: String,
    pub device_id: Option<String>,
    pub last_attempt_ms: u64,
    pub last_success_ms: Option<u64>,
    pub last_error: Option<String>,
    pub ops_received: usize,
    pub blobs_received: usize,
    pub content_bytes: u64,
    /// The last pass left content on the table because of the sync budget.
    pub content_deferred: bool,
    pub syncs: u64,
}

fn copy_opt_string(s: &Option<String>) -> (r: Option<String>)
    ensures
        r == *s,
{
    match s {
        Some(x) => Some(x.clone()),
        None => None,
    }
}

impl PeerStatus {
    /// The record of a peer nothing has happened to yet.
    pub fn fresh(address: &str) -> (s: Self)
        ensures
            s.address@ == address@,
            s.device_id is None,
            s.last_attempt_ms == 0,
            s.last_success_ms is None,
            s.last_error is None,
            s.ops_received == 0,
            s.blobs_received == 0,
            s.content_bytes == 0,
            !s.content_deferred,
            s.syncs == 0,
    {
        PeerStatus {
            address: String::from_str(address),
            device_id: None,
            last_attempt_ms: 0,
            last_success_ms: None,
            last_error: None,
            ops_received: 0,
            blobs_received: 0,
            content_bytes: 0,
            content_deferred: false,
            syncs: 0,
        }
    }

    /// An identical record.
    pub fn copy(&self) -> (r: Self)
        ensures
            r == *self,
    {
        PeerStatus {
            address: self.address.clone(),
            device_id: copy_opt_string(&self.device_id),
            last_attempt_ms: self.last_attempt_ms,
            last_success_ms: self.last_success_ms,
            last_error: copy_opt_string(&self.last_error),
            ops_received: self.ops_received,
            blobs_received: self.blobs_received,
            content_bytes: self.content_bytes,
            content_deferred: self.content_deferred,
            syncs: self.syncs,
        }
    }
}

/// Per-peer records in address order, and why replication is paused, if it is.
pub struct PeerRegistry {
    peers: Vec<PeerStatus>,
    paused: Option<String>,
}

/// The record for `addr` in `peers`, if there is one.
pub open spec fn status_for(peers: Seq<PeerStatus>, addr: Seq<char>) -> Option<PeerStatus> {
    if exists|i: int| 0 <= i < peers.len() && (#[trigger] peers[i]).address@ == addr {
        let i = choose|i: int| 0 <= i < peers.len() && (#[trigger] peers[i]).address@ == addr;
        Some(peers[i])
    } else {
        None
    }
}

/// Records sorted by address, so no address appears twice.
pub open spec fn addresses_sorted(peers: Seq<PeerStatus>) -> bool {
    forall|i: int, j: int| 0 <= i < j < peers.len() ==> seq_lex_lt(#[trigger] peers[i].address@, #[trigger] peers[j].address@)
}

proof fn lemma_lex_order()
    ensures
        forall|a: Seq<char>| !seq_lex_lt(a, a),
        forall|a: Seq<char>, b: Seq<char>, c: Seq<char>| #[trigger] seq_lex_lt(a, b) && #[trigger] seq_lex_lt(b, c) ==> seq_lex_lt(a, c),
        forall|a: Seq<char>, b: Seq<char>| seq_lex_lt(a, b) || seq_lex_lt(b, a) || a == b,
{
    assert forall|a: Seq<char>| !seq_lex_lt(a, a) by {
        lemma_lex_irreflexive(a);
    }
    assert forall|a: Seq<char>, b: Seq<char>, c: Seq<char>| #[trigger] seq_lex_lt(a, b) && #[trigger] seq_lex_lt(b, c) implies seq_lex_lt(a, c) by {
        lemma_lex_transitive(a, b, c);
    }
    assert forall|a: Seq<char>, b: Seq<char>| seq_lex_lt(a, b) || seq_lex_lt(b, a) || a == b by {
        lemma_lex_total(a, b);
    }
}

/// In sorted records, the one at `i` is the record for its address.
proof fn lemma_status_at(peers: Seq<PeerStatus>, i: int)
    requires
        addresses_sorted(peers),
        0 <= i < peers.len(),
    ensures
        status_for(peers, peers[i].address@) == Some(peers[i]),
{
    lemma_lex_order();
    let a = peers[i].address@;
    assert(peers[i].address@ == a);
    let k = choose|k: int| 0 <= k < peers.len() && (#[trigger] peers[k]).address@ == a;
    if k < i {
        assert(seq_lex_lt(peers[k].address@, peers[i].address@));
    } else if k > i {
        assert(seq_lex_lt(peers[i].address@, peers[k].address@));
    }
}

/// Putting a record for `addr` back where `take` found its slot keeps the records
/// sorted, makes it the record for `addr`, and leaves every other address's record as
/// it was.
proof fn lemma_reinsert(p0: Seq<PeerStatus>, rest: Seq<PeerStatus>, i: int, x: PeerStatus, addr: Seq<char>, found: bool)
    requires
        addresses_sorted(p0),
        0 <= i <= p0.len(),
        forall|j: int| 0 <= j < i ==> seq_lex_lt(#[trigger] p0[j].address@, addr),
        found ==> i < p0.len() && p0[i].address@ == addr && rest == p0.remove(i),
        !found ==> rest == p0 && (i < p0.len() ==> seq_lex_lt(addr, p0[i].address@)),
        x.address@ == addr,
    ensures
        addresses_sorted(rest.insert(i, x)),
        status_for(rest.insert(i, x), addr) == Some(x),
        forall|a: Seq<char>| a != addr ==> status_for(rest.insert(i, x), a) == status_for(p0, a),
{
    lemma_lex_order();
    let q = rest.insert(i, x);
    assert(q.len() == p0.len() + (if found { 0int } else { 1int }));
    assert forall|k: int| 0 <= k < q.len() && k != i implies #[trigger] q[k] == (if found || k < i { p0[k] } else { p0[k - 1] }) by {
        if found {
            assert(rest == p0.remove(i));
            if k < i {
                assert(q[k] == rest[k]);
            } else {
                assert(q[k] == rest[k - 1]);
                assert(rest[k - 1] == p0[k]);
            }
        }
    }
    assert(addresses_sorted(q)) by {
        assert forall|a: int, b: int| 0 <= a < b < q.len() implies seq_lex_lt(#[trigger] q[a].address@, #[trigger] q[b].address@) by {
            if a == i {
                let pb = if found { b } else { b - 1 };
                assert(q[b] == p0[pb]);
                if found {
                    assert(seq_lex_lt(p0[i].address@, p0[pb].address@));
                } else {
                    if pb > i {
                        assert(seq_lex_lt(p0[i].address@, p0[pb].address@));
                    }
                }
            } else if b == i {
                assert(q[a] == p0[a]);
            } else {
                let pa = if found || a < i { a } else { a - 1 };
                let pb = if found || b < i { b } else { b - 1 };
                assert(q[a] == p0[pa] && q[b] == p0[pb]);
                if a < i && b > i && !found {
                    assert(seq_lex_lt(p0[a].address@, addr));
                    if pb > i {
                        assert(seq_lex_lt(p0[i].address@, p0[pb].address@));
                    }
                }
            }
        }
    }
    assert(q[i] == x);
    lemma_status_at(q, i);
    assert forall|a: Seq<char>| a != addr implies status_for(q, a) == status_for(p0, a) by {
        if exists|k: int| 0 <= k < p0.len() && (#[trigger] p0[k]).address@ == a {
            let k = choose|k: int| 0 <= k < p0.len() && (#[trigger] p0[k]).address@ == a;
            lemma_status_at(p0, k);
            let kq = if found || k < i { k } else { k + 1 };
            if found {
                assert(k != i);
            }
            assert(q[kq] == p0[k]);
            lemma_status_at(q, kq);
        } else {
            if exists|k: int| 0 <= k < q.len() && (#[trigger] q[k]).address@ == a {
                let k = choose|k: int| 0 <= k < q.len() && (#[trigger] q[k]).address@ == a;
                assert(k != i);
                let kp = if found || k < i { k } else { k - 1 };
                assert(q[k] == p0[kp]);
                assert(p0[kp].address@ == a);
            }
        }
    }
}

/// `s` after a successful pass that started at `now` and achieved `outcome`.
fn succeeded(s: PeerStatus, now: u64, outcome: &SyncOutcome) -> (r: PeerStatus)
    requires
        s.syncs + 1 <= u64::MAX,
        s.ops_received + outcome.ops_received <= usize::MAX,
        s.blobs_received + outcome.blobs_received <= usize::MAX,
        s.content_bytes + outcome.content_bytes <= u64::MAX,
    ensures
        r.address == s.address,
        r.last_attempt_ms == s.last_attempt_ms,
        r.last_success_ms == Some(now),
        r.last_error is None,
        r.content_deferred == outcome.content_deferred,
        match outcome.peer {
            Some(d) => r.device_id matches Some(h) && h@ == hex_string(d as nat),
            None => r.device_id is None,
        },
        r.syncs == s.syncs + 1,
        r.ops_received == s.ops_received + outcome.ops_received,
        r.blobs_received == s.blobs_received + outcome.blobs_received,
        r.content_bytes == s.content_bytes + outcome.content_bytes,
{
    let mut s = s;
    s.last_success_ms = Some(now);
    s.last_error = None;
    s.syncs = s.syncs + 1;
    s.ops_received = s.ops_received + outcome.ops_received;
    s.blobs_received = s.blobs_received + outcome.blobs_received;
    s.content_bytes = s.content_bytes + outcome.content_bytes;
    s.content_deferred = outcome.content_deferred;
    s.device_id = match outcome.peer {
        Some(d) => {
            let mut h = String::new();
            push_hex(&mut h, d);
            assert(h@ =~= hex_string(d as nat));
            Some(h)
        },
        None => None,
    };
    s
}

impl PeerRegistry {
    /// The records are sorted by address.
    pub closed spec fn wf(&self) -> bool {
        addresses_sorted(self.peers@)
    }

    /// The record for `addr`.
    pub closed spec fn status(&self, addr: Seq<char>) -> Option<PeerStatus> {
        status_for(self.peers@, addr)
    }

    /// The pause reason.
    pub closed spec fn pause(&self) -> Option<String> {
        self.paused
    }

    /// The records in address order.
    pub closed spec fn records(&self) -> Seq<PeerStatus> {
        self.peers@
    }

    pub fn new() -> (r: Self)
        ensures
            r.wf(),
            r.records().len() == 0,
            forall|a: Seq<char>| r.status(a) is None,
            r.pause() is None,
    {
        PeerRegistry { peers: Vec::new(), paused: None }
    }

    /// Every record, in address order.
    pub fn snapshot(&self) -> (r: Vec<PeerStatus>)
        requires
            self.wf(),
        ensures
            r@ == self.records(),
            forall|i: int| 0 <= i < r@.len() ==> self.status(#[trigger] r@[i].address@) == Some(r@[i]),
    {
        let mut r: Vec<PeerStatus> = Vec::new();
        let mut i: usize = 0;
        while i < self.peers.len()
            invariant
                i <= self.peers@.len(),
                r@ == self.peers@.subrange(0, i as int),
            decreases self.peers@.len() - i,
        {
            r.push(self.peers[i].copy());
            i = i + 1;
            assert(r@ =~= self.peers@.subrange(0, i as int));
        }
        assert(self.peers@.subrange(0, i as int) =~= self.peers@);
        proof {
            assert forall|i: int| 0 <= i < r@.len() implies self.status(#[trigger] r@[i].address@) == Some(r@[i]) by {
                lemma_status_at(self.peers@, i);
            }
        }
        r
    }

    /// Why replication is currently paused, if it is.
    pub fn paused_reason(&self) -> (r: Option<String>)
        ensures
            r == self.pause(),
    {
        copy_opt_string(&self.paused)
    }

    /// Replication was held back, for `reason`.
    pub fn record_skip(&mut self, reason: &str)
        ensures
            final(self).pause() matches Some(s) && s@ == reason@,
            final(self).records() == old(self).records(),
            final(self).wf() == old(self).wf(),
            forall|a: Seq<char>| final(self).status(a) == old(self).status(a),
    {
        self.paused = Some(String::from_str(reason));
    }

    /// A live pass is running again.
    pub fn clear_skip(&mut self)
        ensures
            final(self).pause() is None,
            final(self).records() == old(self).records(),
            final(self).wf() == old(self).wf(),
            forall|a: Seq<char>| final(self).status(a) == old(self).status(a),
    {
        self.paused = None;
    }

    /// Takes the record for `addr` out of the list (a fresh one if there was none),
    /// giving it and the position it belongs at.
    fn take(&mut self, addr: &str) -> (r: (PeerStatus, usize))
        requires
            old(self).wf(),
        ensures
            r.0.address@ == addr@,
            old(self).status(addr@) matches Some(s) ==> r.0 == s,
            old(self).status(addr@) is None ==> r.0.device_id is None && r.0.last_attempt_ms == 0
                && r.0.last_success_ms is None && r.0.last_error is None && r.0.ops_received == 0
                && r.0.blobs_received == 0 && r.0.content_bytes == 0 && !r.0.content_deferred && r.0.syncs == 0,
            r.1 <= final(self).peers@.len(),
            final(self).paused == old(self).paused,
            forall|x: PeerStatus| #[trigger] x.address@ == addr@ ==> {
                &&& addresses_sorted(final(self).peers@.insert(r.1 as int, x))
                &&& status_for(final(self).peers@.insert(r.1 as int, x), addr@) == Some(x)
                &&& forall|a: Seq<char>| a != addr@ ==> status_for(final(self).peers@.insert(r.1 as int, x), a)
                    == old(self).status(a)
            },
    {
        proof {
            lemma_lex_order();
        }
        let key = String::from_str(addr);
        let mut i: usize = 0;
        while i < self.peers.len()
            && crate::text::compare_chars(self.peers[i].address.as_str(), key.as_str()) == KeyOrder::Less
            invariant
                i <= self.peers@.len(),
                key@ == addr@,
                forall|j: int| 0 <= j < i ==> seq_lex_lt(#[trigger] self.peers@[j].address@, addr@),
            decreases self.peers@.len() - i,
        {
            i = i + 1;
        }
        let ghost p0 = self.peers@;
        let found = i < self.peers.len()
            && crate::text::compare_chars(self.peers[i].address.as_str(), key.as_str()) == KeyOrder::Equal;
        let s = if found {
            proof {
                lemma_status_at(p0, i as int);
            }
            self.peers.remove(i)
        } else {
            proof {
                if exists|k: int| 0 <= k < p0.len() && (#[trigger] p0[k]).address@ == addr@ {
                    let k = choose|k: int| 0 <= k < p0.len() && (#[trigger] p0[k]).address@ == addr@;
                    if k < i {
                        assert(seq_lex_lt(p0[k].address@, addr@));
                    } else if k > i {
                        assert(seq_lex_lt(p0[i as int].address@, p0[k].address@));
                        assert(seq_lex_lt(addr@, p0[i as int].address@));
                    }
                }
            }
            PeerStatus::fresh(addr)
        };
        proof {
            assert forall|x: PeerStatus| #[trigger] x.address@ == addr@ implies {
                &&& addresses_sorted(self.peers@.insert(i as int, x))
                &&& status_for(self.peers@.insert(i as int, x), addr@) == Some(x)
                &&& forall|a: Seq<char>| a != addr@ ==> status_for(self.peers@.insert(i as int, x), a)
                    == status_for(p0, a)
            } by {
                lemma_reinsert(p0, self.peers@, i as int, x, addr@, found);
            }
        }
        (s, i)
    }

    /// Puts a record back at the position `take` gave.
    fn put(&mut self, s: PeerStatus, i: usize)
        requires
            i <= old(self).peers@.len(),
        ensures
            final(self).peers@ == old(self).peers@.insert(i as int, s),
            final(self).paused == old(self).paused,
    {
        self.peers.insert(i, s);
    }

    /// A pass is about to contact `addr` at `now`.
    pub fn record_attempt(&mut self, addr: &str, now: u64)
        requires
            old(self).wf(),
        ensures
            final(self).wf(),
            final(self).pause() == old(self).pause(),
            forall|a: Seq<char>| a != addr@ ==> final(self).status(a) == old(self).status(a),
            final(self).status(addr@) matches Some(s) && s.address@ == addr@ && s.last_attempt_ms == now && match old(
                self,
            ).status(addr@) {
                Some(o) => s == (PeerStatus { last_attempt_ms: now, ..o }),
                None => s.device_id is None && s.last_success_ms is None && s.last_error is None && s.ops_received
                    == 0 && s.blobs_received == 0 && s.content_bytes == 0 && !s.content_deferred && s.syncs == 0,
            },
    {
        let (mut s, i) = self.take(addr);
        s.last_attempt_ms = now;
        assert(s.address@ == addr@);
        self.put(s, i);
    }

    /// The pass to `addr` failed with `message`.
    pub fn record_error(&mut self, addr: &str, message: &str)
        requires
            old(self).wf(),
        ensures
            final(self).wf(),
            final(self).pause() == old(self).pause(),
            forall|a: Seq<char>| a != addr@ ==> final(self).status(a) == old(self).status(a),
            final(self).status(addr@) matches Some(s) && s.address@ == addr@ && (s.last_error matches Some(e)
                && e@ == message@) && match old(self).status(addr@) {
                Some(o) => s == (PeerStatus { last_error: s.last_error, ..o }),
                None => s.device_id is None && s.last_attempt_ms == 0 && s.last_success_ms is None && s.ops_received
                    == 0 && s.blobs_received == 0 && s.content_bytes == 0 && !s.content_deferred && s.syncs == 0,
            },
    {
        let (mut s, i) = self.take(addr);
        s.last_error = Some(String::from_str(message));
        assert(s.address@ == addr@);
        self.put(s, i);
    }

    /// The pass to `addr` that started at `now` succeeded with `outcome`: the counters
    /// accumulate, the error clears, and the peer's device is recorded in hex.
    pub fn record_success(&mut self, addr: &str, now: u64, outcome: &SyncOutcome)
        requires
            old(self).wf(),
            old(self).status(addr@) matches Some(o) ==> o.syncs + 1 <= u64::MAX && o.ops_received
                + outcome.ops_received <= usize::MAX && o.blobs_received + outcome.blobs_received <= usize::MAX
                && o.content_bytes + outcome.content_bytes <= u64::MAX,
        ensures
            final(self).wf(),
            final(self).pause() == old(self).pause(),
            forall|a: Seq<char>| a != addr@ ==> final(self).status(a) == old(self).status(a),
            final(self).status(addr@) matches Some(s) && {
                &&& s.address@ == addr@
                &&& s.last_success_ms == Some(now)
                &&& s.last_error is None
                &&& s.content_deferred == outcome.content_deferred
                &&& match outcome.peer {
                    Some(d) => s.device_id matches Some(h) && h@ == hex_string(d as nat),
                    None => s.device_id is None,
                }
                &&& match old(self).status(addr@) {
                    Some(o) => {
                        &&& s.last_attempt_ms == o.last_attempt_ms
                        &&& s.syncs == o.syncs + 1
                        &&& s.ops_received == o.ops_received + outcome.ops_received
                        &&& s.blobs_received == o.blobs_received + outcome.blobs_received
                        &&& s.content_bytes == o.content_bytes + outcome.content_bytes
                    },
                    None => {
                        &&& s.last_attempt_ms == 0
                        &&& s.syncs == 1
                        &&& s.ops_received == outcome.ops_received
                        &&& s.blobs_received == outcome.blobs_received
                        &&& s.content_bytes == outcome.content_bytes
                    },
                }
            },
    {
        let (s, i) = self.take(addr);
        let s = succeeded(s, now, outcome);
        assert(s.address@ == addr@);
        self.put(s, i);
    }
}

impl Default for PeerRegistry {
    fn default() -> (r: Self)
        ensures
            r.wf(),
            r.records().len() == 0,
            r.pause() is None,
    {
        PeerRegistry::new()
    }
}

/// One peer as the console renders it.
#[derive(Debug, Clone, Default)]
pub struct PeerView {
    pub address: String,
    pub device_id: Option<String>,
    pub last_attempt_ms: u64,
    pub last_success_ms: Option<u64>,
    pub last_error: Option<String>,
    pub ops_received: usize,
    pub blobs_received: usize,
    pub content_bytes: u64,
    /// The last pass stopped short of fetching everything because of the sync budget.
    pub content_deferred: bool,
    pub syncs: u64,
}

/// Supplies peer sync status to the admin console.
///
/// A trait rather than a direct dependency on replication: only the daemon knows
/// whether replication is running, and it supplies the source.
pub trait PeerSource: Send + Sync {
    fn peers(&self) -> Vec<PeerView>;
}

} // verus!
