//! Reclaiming storage that nothing refers to any more.
//!
//! Mark-and-sweep from the live tree and the parked operations. The sweep checks its
//! preconditions before it marks: a repository with no head or no root inode would
//! make every object look like garbage, which is exactly when deleting is worst.

use vstd::prelude::*;
use crate::digest::{hash_in, hash_listed};
use crate::scan::{chars_of, string_of};

verus! {

/// What one collection pass found, and what it did about it.
#[derive(Debug, Clone, PartialEq, Eq)]
pub struct GcReport {
    pub blobs_scanned: usize,
    pub bytes_scanned: u64,
    pub reachable: usize,
    pub unreachable: usize,
    /// Bytes held by unreachable blobs, whether or not they were deleted.
    pub bytes_reclaimable: u64,
    pub deleted: usize,
    pub bytes_deleted: u64,
    /// True when this was a survey and nothing was removed.
    pub dry_run: bool,
    /// Set when the sweep declined to delete despite not being a dry run.
    pub refused: Option<String>,
    /// Inode records nothing can reach any more: neither the tree nor a parked operation.
    pub records_unreachable: usize,
    /// Inode records removed.
    pub records_deleted: usize,
}

impl GcReport {
    /// Whether anything would be, or was, reclaimed.
    pub fn has_garbage(&self) -> (b: bool)
        ensures
            b == (self.unreachable > 0),
    {
        self.unreachable > 0
    }
}

/// Why the sweep will not delete.
#[derive(Debug, Clone, Copy, PartialEq, Eq, Structural)]
pub enum SweepBlocker {
    /// There is no head, so live state cannot be established.
    NoHead,
    /// The root inode record is missing, so the walk would find nothing.
    NoRootInode,
}

/// Why this repository is not safe to sweep, if it is not.
pub fn sweep_blocker(has_head: bool, has_root_inode: bool) -> (b: Option<SweepBlocker>)
    ensures
        b == (if !has_head {
            Some(SweepBlocker::NoHead)
        } else if !has_root_inode {
            Some(SweepBlocker::NoRootInode)
        } else {
            None
        }),
{
    if !has_head {
        Some(SweepBlocker::NoHead)
    } else if !has_root_inode {
        Some(SweepBlocker::NoRootInode)
    } else {
        None
    }
}

/// The explanation an operator is given for a blocker.
pub open spec fn blocker_text(b: SweepBlocker) -> Seq<char> {
    match b {
        SweepBlocker::NoHead => "the repository has no head, so live state cannot be established; bootstrap or restore it before collecting"@,
        SweepBlocker::NoRootInode => "the root inode record is missing, so the namespace walk would find nothing and every object would look like garbage"@,
    }
}

/// The operator-facing explanation of a blocker.
pub fn blocker_message(b: SweepBlocker) -> (s: String)
    ensures
        s@ == blocker_text(b),
{
    match b {
        SweepBlocker::NoHead => string_of(
            &chars_of(
                "the repository has no head, so live state cannot be established; bootstrap or restore it before collecting",
            ),
        ),
        SweepBlocker::NoRootInode => string_of(
            &chars_of(
                "the root inode record is missing, so the namespace walk would find nothing and every object would look like garbage",
            ),
        ),
    }
}

/// The total of the lengths in `stored`.
pub open spec fn stored_bytes(stored: Seq<([u8; 32], u64)>) -> nat
    decreases stored.len(),
{
    if stored.len() == 0 {
        0
    } else {
        stored_bytes(stored.drop_last()) + stored.last().1 as nat
    }
}

/// The stored blobs not named in `reachable`, in store order.
pub open spec fn garbage_of(stored: Seq<([u8; 32], u64)>, reachable: Seq<[u8; 32]>) -> Seq<([u8; 32], u64)>
    decreases stored.len(),
{
    if stored.len() == 0 {
        Seq::empty()
    } else {
        let prev = garbage_of(stored.drop_last(), reachable);
        if hash_listed(reachable, stored.last().0@) {
            prev
        } else {
            prev.push(stored.last())
        }
    }
}

pub proof fn lemma_garbage_bounded(stored: Seq<([u8; 32], u64)>, reachable: Seq<[u8; 32]>)
    ensures
        garbage_of(stored, reachable).len() <= stored.len(),
        stored_bytes(garbage_of(stored, reachable)) <= stored_bytes(stored),
    decreases stored.len(),
{
    if stored.len() > 0 {
        lemma_garbage_bounded(stored.drop_last(), reachable);
        let prev = garbage_of(stored.drop_last(), reachable);
        if !hash_listed(reachable, stored.last().0@) {
            assert(prev.push(stored.last()).drop_last() =~= prev);
        }
    }
}

proof fn lemma_stored_bytes_prefix(stored: Seq<([u8; 32], u64)>, k: int)
    requires
        0 <= k <= stored.len(),
    ensures
        stored_bytes(stored.subrange(0, k)) <= stored_bytes(stored),
    decreases stored.len(),
{
    if k < stored.len() {
        assert(stored.drop_last().subrange(0, k) =~= stored.subrange(0, k));
        lemma_stored_bytes_prefix(stored.drop_last(), k);
    } else {
        assert(stored.subrange(0, k) =~= stored);
    }
}

/// Surveys `stored` against the `reachable` set: counts and sizes of what is reachable
/// and what is not, and the unreachable blobs themselves, which a sweep that is not a
/// dry run then deletes.
pub fn survey(stored: &Vec<([u8; 32], u64)>, reachable: &Vec<[u8; 32]>, dry_run: bool) -> (r: (GcReport, Vec<([u8; 32], u64)>))
    requires
        stored_bytes(stored@) <= u64::MAX,
    ensures
        r.1@ == garbage_of(stored@, reachable@),
        r.0.blobs_scanned == stored@.len(),
        r.0.bytes_scanned == stored_bytes(stored@),
        r.0.unreachable == r.1@.len(),
        r.0.reachable == stored@.len() - r.1@.len(),
        r.0.bytes_reclaimable == stored_bytes(r.1@),
        r.0.deleted == 0,
        r.0.bytes_deleted == 0,
        r.0.dry_run == dry_run,
        r.0.refused is None,
        r.0.records_unreachable == 0,
        r.0.records_deleted == 0,
{
    let mut garbage: Vec<([u8; 32], u64)> = Vec::new();
    let mut scanned_bytes: u64 = 0;
    let mut reclaimable: u64 = 0;
    let mut live: usize = 0;
    let mut i: usize = 0;
    assert(stored@.subrange(0, 0) =~= Seq::<([u8; 32], u64)>::empty());
    while i < stored.len()
        invariant
            i <= stored@.len(),
            stored_bytes(stored@) <= u64::MAX,
            garbage@ == garbage_of(stored@.subrange(0, i as int), reachable@),
            scanned_bytes == stored_bytes(stored@.subrange(0, i as int)),
            reclaimable == stored_bytes(garbage@),
            live + garbage@.len() == i,
        decreases stored@.len() - i,
    {
        let (h, len) = stored[i];
        let ghost pre = stored@.subrange(0, i + 1);
        proof {
            assert(pre.drop_last() =~= stored@.subrange(0, i as int));
            assert(pre.last() == stored@[i as int]);
            lemma_stored_bytes_prefix(stored@, i + 1);
            lemma_garbage_bounded(pre, reachable@);
        }
        scanned_bytes = scanned_bytes + len;
        if hash_in(reachable, &h) {
            live = live + 1;
        } else {
            let ghost g0 = garbage@;
            proof {
                assert(g0.push((h, len)).drop_last() =~= g0);
            }
            reclaimable = reclaimable + len;
            garbage.push((h, len));
        }
        i = i + 1;
    }
    assert(stored@.subrange(0, i as int) =~= stored@);
    let report = GcReport {
        blobs_scanned: stored.len(),
        bytes_scanned: scanned_bytes,
        reachable: live,
        unreachable: garbage.len(),
        bytes_reclaimable: reclaimable,
        deleted: 0,
        bytes_deleted: 0,
        dry_run,
        refused: None,
        records_unreachable: 0,
        records_deleted: 0,
    };
    (report, garbage)
}

/// The report of a sweep that refused to run: what is stored, and why nothing was
/// marked or deleted.
pub fn refused_report(stored: &Vec<([u8; 32], u64)>, blocker: SweepBlocker) -> (r: GcReport)
    requires
        stored_bytes(stored@) <= u64::MAX,
    ensures
        r.blobs_scanned == stored@.len(),
        r.bytes_scanned == stored_bytes(stored@),
        r.reachable == 0,
        r.unreachable == 0,
        r.bytes_reclaimable == 0,
        r.deleted == 0,
        r.bytes_deleted == 0,
        !r.dry_run,
        r.refused matches Some(m) && m@ == blocker_text(blocker),
        r.records_unreachable == 0,
        r.records_deleted == 0,
{
    let mut total: u64 = 0;
    let mut i: usize = 0;
    assert(stored@.subrange(0, 0) =~= Seq::<([u8; 32], u64)>::empty());
    while i < stored.len()
        invariant
            i <= stored@.len(),
            stored_bytes(stored@) <= u64::MAX,
            total == stored_bytes(stored@.subrange(0, i as int)),
        decreases stored@.len() - i,
    {
        proof {
            let pre = stored@.subrange(0, i + 1);
            assert(pre.drop_last() =~= stored@.subrange(0, i as int));
            lemma_stored_bytes_prefix(stored@, i + 1);
        }
        total = total + stored[i].1;
        i = i + 1;
    }
    assert(stored@.subrange(0, i as int) =~= stored@);
    GcReport {
        blobs_scanned: stored.len(),
        bytes_scanned: total,
        reachable: 0,
        unreachable: 0,
        bytes_reclaimable: 0,
        deleted: 0,
        bytes_deleted: 0,
        dry_run: false,
        refused: Some(blocker_message(blocker)),
        records_unreachable: 0,
        records_deleted: 0,
    }
}

/// Records that the surveyed garbage was deleted: every unreachable blob, and all its
/// bytes.
pub fn record_deleted(report: &mut GcReport)
    ensures
        final(report).deleted == old(report).unreachable,
        final(report).bytes_deleted == old(report).bytes_reclaimable,
        final(report).blobs_scanned == old(report).blobs_scanned,
        final(report).bytes_scanned == old(report).bytes_scanned,
        final(report).reachable == old(report).reachable,
        final(report).unreachable == old(report).unreachable,
        final(report).bytes_reclaimable == old(report).bytes_reclaimable,
        final(report).dry_run == old(report).dry_run,
        final(report).refused == old(report).refused,
        final(report).records_unreachable == old(report).records_unreachable,
        final(report).records_deleted == old(report).records_deleted,
{
    report.deleted = report.unreachable;
    report.bytes_deleted = report.bytes_reclaimable;
}

/// Nothing reachable is ever reported as garbage, and everything unreachable is.
pub proof fn lemma_garbage_is_exactly_the_unreachable(stored: Seq<([u8; 32], u64)>, reachable: Seq<[u8; 32]>, b: ([u8; 32], u64))
    ensures
        garbage_of(stored, reachable).contains(b) <==> (stored.contains(b) && !hash_listed(reachable, b.0@)),
    decreases stored.len(),
{
    if stored.len() > 0 {
        let prev = garbage_of(stored.drop_last(), reachable);
        lemma_garbage_is_exactly_the_unreachable(stored.drop_last(), reachable, b);
        assert(stored =~= stored.drop_last().push(stored.last()));
        if stored.contains(b) && !stored.drop_last().contains(b) {
            let k = choose|k: int| 0 <= k < stored.len() && stored[k] == b;
            if k < stored.len() - 1 {
                assert(stored.drop_last()[k] == b);
            }
        }
        if !hash_listed(reachable, stored.last().0@) {
            let g = prev.push(stored.last());
            assert(g[g.len() - 1] == stored.last());
            if g.contains(b) && !prev.contains(b) {
                let k = choose|k: int| 0 <= k < g.len() && g[k] == b;
                if k < prev.len() {
                    assert(prev[k] == b);
                }
            }
            if prev.contains(b) {
                let k = choose|k: int| 0 <= k < prev.len() && prev[k] == b;
                assert(g[k] == b);
            }
        }
        if stored.drop_last().contains(b) {
            let k = choose|k: int| 0 <= k < stored.drop_last().len() && stored.drop_last()[k] == b;
            assert(stored[k] == b);
        }
    }
}

/// The stored blobs a sweep leaves: those named in `reachable`, in store order.
pub open spec fn surviving_blobs(stored: Seq<([u8; 32], u64)>, reachable: Seq<[u8; 32]>) -> Seq<([u8; 32], u64)>
    decreases stored.len(),
{
    if stored.len() == 0 {
        Seq::empty()
    } else {
        let prev = surviving_blobs(stored.drop_last(), reachable);
        if hash_listed(reachable, stored.last().0@) {
            prev.push(stored.last())
        } else {
            prev
        }
    }
}

/// A sweep that deletes the surveyed garbage leaves exactly the stored blobs that are
/// reachable.
pub proof fn lemma_sweep_leaves_exactly_the_reachable(stored: Seq<([u8; 32], u64)>, reachable: Seq<[u8; 32]>, b: ([u8; 32], u64))
    ensures
        surviving_blobs(stored, reachable).contains(b) <==> (stored.contains(b) && hash_listed(reachable, b.0@)),
    decreases stored.len(),
{
    if stored.len() > 0 {
        let init = stored.drop_last();
        let l = stored.last();
        lemma_sweep_leaves_exactly_the_reachable(init, reachable, b);
        assert(stored =~= init.push(l));
        assert(stored.contains(b) <==> (init.contains(b) || b == l)) by {
            if stored.contains(b) {
                let k = choose|k: int| 0 <= k < stored.len() && stored[k] == b;
                if k < init.len() {
                    assert(init[k] == b);
                }
            }
            if init.contains(b) {
                let k = choose|k: int| 0 <= k < init.len() && init[k] == b;
                assert(stored[k] == b);
            }
            if b == l {
                assert(stored[stored.len() - 1] == b);
            }
        }
        let ps = surviving_blobs(init, reachable);
        assert(ps.push(l).contains(b) <==> (ps.contains(b) || b == l)) by {
            let q = ps.push(l);
            if q.contains(b) {
                let k = choose|k: int| 0 <= k < q.len() && q[k] == b;
                if k < ps.len() {
                    assert(ps[k] == b);
                }
            }
            if ps.contains(b) {
                let k = choose|k: int| 0 <= k < ps.len() && ps[k] == b;
                assert(q[k] == b);
            }
            if b == l {
                assert(q[ps.len() as int] == b);
            }
        }
    }
}

/// Collection is stable: surveying what a sweep left, with the same blobs reachable,
/// finds no garbage, so a second pass deletes nothing.
pub proof fn lemma_second_sweep_finds_nothing(stored: Seq<([u8; 32], u64)>, reachable: Seq<[u8; 32]>)
    ensures
        garbage_of(surviving_blobs(stored, reachable), reachable).len() == 0,
        stored_bytes(garbage_of(surviving_blobs(stored, reachable), reachable)) == 0,
{
    let left = surviving_blobs(stored, reachable);
    let g = garbage_of(left, reachable);
    if g.len() > 0 {
        let b = g[0];
        assert(g.contains(b));
        lemma_garbage_is_exactly_the_unreachable(left, reachable, b);
        lemma_sweep_leaves_exactly_the_reachable(stored, reachable, b);
    }
    assert(g =~= Seq::<([u8; 32], u64)>::empty());
}

// --- namespace records -------------------------------------------------------------

/// The inode records (by inode, in store order) that nothing reaches: not the tree, and
/// not a parked operation; `reachable` holds both.
pub open spec fn orphan_records(records: Seq<u128>, reachable: Seq<u128>) -> Seq<u128>
    decreases records.len(),
{
    if records.len() == 0 {
        Seq::empty()
    } else {
        let prev = orphan_records(records.drop_last(), reachable);
        if reachable.contains(records.last()) {
            prev
        } else {
            prev.push(records.last())
        }
    }
}

/// The inode records a sweep leaves: those something still reaches.
pub open spec fn surviving_records(records: Seq<u128>, reachable: Seq<u128>) -> Seq<u128>
    decreases records.len(),
{
    if records.len() == 0 {
        Seq::empty()
    } else {
        let prev = surviving_records(records.drop_last(), reachable);
        if reachable.contains(records.last()) {
            prev.push(records.last())
        } else {
            prev
        }
    }
}

/// Surveys the inode records against what is reachable, counting the orphans into
/// `report` and returning them, for a sweep that is not a dry run to delete.
pub fn survey_records(report: &mut GcReport, records: &Vec<u128>, reachable: &Vec<u128>) -> (orphans: Vec<u128>)
    ensures
        orphans@ == orphan_records(records@, reachable@),
        final(report).records_unreachable == orphans@.len(),
        final(report).records_deleted == old(report).records_deleted,
        final(report).blobs_scanned == old(report).blobs_scanned,
        final(report).bytes_scanned == old(report).bytes_scanned,
        final(report).reachable == old(report).reachable,
        final(report).unreachable == old(report).unreachable,
        final(report).bytes_reclaimable == old(report).bytes_reclaimable,
        final(report).deleted == old(report).deleted,
        final(report).bytes_deleted == old(report).bytes_deleted,
        final(report).dry_run == old(report).dry_run,
        final(report).refused == old(report).refused,
{
    let mut orphans: Vec<u128> = Vec::new();
    let mut i: usize = 0;
    assert(records@.subrange(0, 0) =~= Seq::<u128>::empty());
    while i < records.len()
        invariant
            i <= records@.len(),
            orphans@ == orphan_records(records@.subrange(0, i as int), reachable@),
        decreases records@.len() - i,
    {
        let x = records[i];
        proof {
            let pre = records@.subrange(0, i + 1);
            assert(pre.drop_last() =~= records@.subrange(0, i as int));
            assert(pre.last() == x);
        }
        let mut found = false;
        let mut j: usize = 0;
        while j < reachable.len()
            invariant
                j <= reachable@.len(),
                found == reachable@.subrange(0, j as int).contains(x),
            decreases reachable@.len() - j,
        {
            proof {
                let pre = reachable@.subrange(0, j + 1);
                assert(pre =~= reachable@.subrange(0, j as int).push(reachable@[j as int]));
                if pre.contains(x) && !reachable@.subrange(0, j as int).contains(x) {
                    let k = choose|k: int| 0 <= k < pre.len() && pre[k] == x;
                    if k < j {
                        assert(reachable@.subrange(0, j as int)[k] == x);
                    }
                }
                if reachable@.subrange(0, j as int).contains(x) {
                    let k = choose|k: int| 0 <= k < j && reachable@.subrange(0, j as int)[k] == x;
                    assert(pre[k] == x);
                }
                if reachable@[j as int] == x {
                    assert(pre[j as int] == x);
                }
            }
            if reachable[j] == x {
                found = true;
            }
            j = j + 1;
        }
        assert(reachable@.subrange(0, j as int) =~= reachable@);
        if !found {
            orphans.push(x);
        }
        i = i + 1;
    }
    assert(records@.subrange(0, i as int) =~= records@);
    report.records_unreachable = orphans.len();
    orphans
}

/// Records that the surveyed orphan records were deleted.
pub fn record_records_deleted(report: &mut GcReport)
    ensures
        final(report).records_deleted == old(report).records_unreachable,
        final(report).records_unreachable == old(report).records_unreachable,
        final(report).deleted == old(report).deleted,
        final(report).refused == old(report).refused,
        final(report).dry_run == old(report).dry_run,
{
    report.records_deleted = report.records_unreachable;
}

/// A record is collected exactly when it is stored and nothing reaches it: a record a
/// parked operation names is never collected.
pub proof fn lemma_orphans_are_exactly_the_unreachable(records: Seq<u128>, reachable: Seq<u128>, x: u128)
    ensures
        orphan_records(records, reachable).contains(x) <==> (records.contains(x) && !reachable.contains(x)),
        surviving_records(records, reachable).contains(x) <==> (records.contains(x) && reachable.contains(x)),
    decreases records.len(),
{
    if records.len() > 0 {
        let init = records.drop_last();
        let l = records.last();
        lemma_orphans_are_exactly_the_unreachable(init, reachable, x);
        assert(records =~= init.push(l));
        assert(records.contains(x) <==> (init.contains(x) || x == l)) by {
            if records.contains(x) {
                let k = choose|k: int| 0 <= k < records.len() && records[k] == x;
                if k < init.len() {
                    assert(init[k] == x);
                }
            }
            if init.contains(x) {
                let k = choose|k: int| 0 <= k < init.len() && init[k] == x;
                assert(records[k] == x);
            }
            if x == l {
                assert(records[records.len() - 1] == x);
            }
        }
        let po = orphan_records(init, reachable);
        let ps = surviving_records(init, reachable);
        assert(po.push(l).contains(x) <==> (po.contains(x) || x == l)) by {
            let q = po.push(l);
            if q.contains(x) {
                let k = choose|k: int| 0 <= k < q.len() && q[k] == x;
                if k < po.len() {
                    assert(po[k] == x);
                }
            }
            if po.contains(x) {
                let k = choose|k: int| 0 <= k < po.len() && po[k] == x;
                assert(q[k] == x);
            }
            if x == l {
                assert(q[po.len() as int] == x);
            }
        }
        assert(ps.push(l).contains(x) <==> (ps.contains(x) || x == l)) by {
            let q = ps.push(l);
            if q.contains(x) {
                let k = choose|k: int| 0 <= k < q.len() && q[k] == x;
                if k < ps.len() {
                    assert(ps[k] == x);
                }
            }
            if ps.contains(x) {
                let k = choose|k: int| 0 <= k < ps.len() && ps[k] == x;
                assert(q[k] == x);
            }
            if x == l {
                assert(q[ps.len() as int] == x);
            }
        }
    }
}

/// Collecting records is stable: over what a sweep left, with the same things
/// reachable, a second pass finds no orphan.
pub proof fn lemma_second_record_sweep_finds_nothing(records: Seq<u128>, reachable: Seq<u128>)
    ensures
        orphan_records(surviving_records(records, reachable), reachable).len() == 0,
{
    let left = surviving_records(records, reachable);
    if orphan_records(left, reachable).len() > 0 {
        let x = orphan_records(left, reachable)[0];
        assert(orphan_records(left, reachable).contains(x));
        lemma_orphans_are_exactly_the_unreachable(left, reachable, x);
        lemma_orphans_are_exactly_the_unreachable(records, reachable, x);
    }
}

} // verus!
