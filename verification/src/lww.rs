//! Last-Writer-Wins register.

use vstd::prelude::*;

verus! {

/// Last-Writer-Wins register.
///
/// The ordering key is `(ts, writer_id, seq)`:
/// - `ts` is the wall-clock intent of the writer,
/// - `writer_id` breaks ties between different devices deterministically,
/// - `seq` breaks ties *within* one device, so a device writing twice in the same
///   millisecond still has its later write win.
#[derive(Debug)]
pub struct LwwReg<T> {
    pub value: T,
    pub ts: u64,
    pub writer_id: u128,
    pub seq: u64,
}

/// Strict lexicographic order on `(ts, writer_id, seq)` keys.
pub open spec fn key_lt(a: (u64, u128, u64), b: (u64, u128, u64)) -> bool {
    a.0 < b.0 || (a.0 == b.0 && (a.1 < b.1 || (a.1 == b.1 && a.2 < b.2)))
}

impl<T> LwwReg<T> {
    /// The register's ordering key.
    pub open spec fn key(self) -> (u64, u128, u64) {
        (self.ts, self.writer_id, self.seq)
    }
}

/// The state `a` holds after merging `b` into it: `b` when its key is strictly greater,
/// `a` otherwise.
pub open spec fn lww_join<T>(a: LwwReg<T>, b: LwwReg<T>) -> LwwReg<T> {
    if key_lt(a.key(), b.key()) {
        b
    } else {
        a
    }
}

impl<T: Clone> LwwReg<T> {
    pub fn new(value: T, ts: u64, writer_id: u128, seq: u64) -> (r: Self)
        ensures
            r.value == value,
            r.ts == ts,
            r.writer_id == writer_id,
            r.seq == seq,
    {
        Self { value, ts, writer_id, seq }
    }

    fn order_key(&self) -> (k: (u64, u128, u64))
        ensures
            k == self.key(),
    {
        (self.ts, self.writer_id, self.seq)
    }

    /// Returns true when `other` won and `self` was updated.
    pub fn merge(&mut self, other: &Self) -> (won: bool)
        ensures
            won == key_lt(old(self).key(), other.key()),
            final(self).key() == lww_join(*old(self), *other).key(),
            cloned(lww_join(*old(self), *other).value, final(self).value),
            !won ==> *final(self) == *old(self),
    {
        let mine = self.order_key();
        let theirs = other.order_key();
        let greater = theirs.0 > mine.0 || (theirs.0 == mine.0 && (theirs.1 > mine.1 || (
        theirs.1 == mine.1 && theirs.2 > mine.2)));
        if greater {
            self.value = other.value.clone();
            self.ts = other.ts;
            self.writer_id = other.writer_id;
            self.seq = other.seq;
            true
        } else {
            false
        }
    }
}

/// Merging is commutative whenever the two registers do not carry the same key with
/// different values (a key names one write, so replicas never produce that case).
pub proof fn lemma_lww_join_commutes<T>(a: LwwReg<T>, b: LwwReg<T>)
    requires
        a.key() != b.key() || a == b,
    ensures
        lww_join(a, b) == lww_join(b, a),
{
}

/// Merging is associative: the order in which three states are folded together does
/// not change the result.
pub proof fn lemma_lww_join_associates<T>(a: LwwReg<T>, b: LwwReg<T>, c: LwwReg<T>)
    ensures
        lww_join(lww_join(a, b), c) == lww_join(a, lww_join(b, c)),
{
}

/// Merging a state with itself changes nothing, so re-delivering a write is harmless.
pub proof fn lemma_lww_join_idempotent<T>(a: LwwReg<T>, b: LwwReg<T>)
    ensures
        lww_join(a, a) == a,
        lww_join(lww_join(a, b), b) == lww_join(a, b),
{
}

/// The merged key is the greater of the two keys: a merge never loses a newer write.
pub proof fn lemma_lww_join_keeps_the_newest<T>(a: LwwReg<T>, b: LwwReg<T>)
    ensures
        !key_lt(lww_join(a, b).key(), a.key()),
        !key_lt(lww_join(a, b).key(), b.key()),
{
}

} // verus!
