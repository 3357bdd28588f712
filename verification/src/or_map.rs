//! An observed-remove map.
//!
//! Adds are tagged with a unique dot `(device_id, counter)`; removes record the dots
//! they observed for a key; merge is set union. A value survives exactly when its dot
//! was added and has not been recorded as removed, so the visible state depends only on
//! which adds and removes a replica holds, never on the order they arrived in.

use vstd::prelude::*;
use crate::ordkey::{KeyOrder, OrdKey};

verus! {

/// A unique tag for one add: the device that made it and that device's counter.
#[derive(Debug, Clone, Copy, PartialEq, Eq, Structural, PartialOrd, Ord, Hash)]
pub struct Dot {
    pub device_id: u128,
    pub counter: u64,
}

/// Dots are ordered by device, then counter (the derived order of the struct).
pub open spec fn dot_lt(a: Dot, b: Dot) -> bool {
    a.device_id < b.device_id || (a.device_id == b.device_id && a.counter < b.counter)
}

/// Whether `a` orders before `b`, comparing by fields.
pub fn dot_less(a: &Dot, b: &Dot) -> (r: bool)
    ensures
        r == dot_lt(*a, *b),
{
    a.device_id < b.device_id || (a.device_id == b.device_id && a.counter < b.counter)
}

/// The order the map keeps its entries in: by key, then by dot.
pub open spec fn entry_lt<K: OrdKey>(a: (K::V, Dot), b: (K::V, Dot)) -> bool {
    K::view_lt(a.0, b.0) || (a.0 == b.0 && dot_lt(a.1, b.1))
}

pub proof fn lemma_entry_order<K: OrdKey>()
    ensures
        forall|a: (K::V, Dot)| !entry_lt::<K>(a, a),
        forall|a: (K::V, Dot), b: (K::V, Dot), c: (K::V, Dot)|
            #![trigger entry_lt::<K>(a, b), entry_lt::<K>(b, c)]
            entry_lt::<K>(a, b) && entry_lt::<K>(b, c) ==> entry_lt::<K>(a, c),
        forall|a: (K::V, Dot), b: (K::V, Dot)|
            #![trigger entry_lt::<K>(a, b)]
            entry_lt::<K>(a, b) || entry_lt::<K>(b, a) || a == b,
{
    assert forall|a: (K::V, Dot)| !entry_lt::<K>(a, a) by {
        K::lemma_irreflexive(a.0);
    }
    assert forall|a: (K::V, Dot), b: (K::V, Dot), c: (K::V, Dot)|
        entry_lt::<K>(a, b) && entry_lt::<K>(b, c) implies entry_lt::<K>(a, c) by {
        if K::view_lt(a.0, b.0) && K::view_lt(b.0, c.0) {
            K::lemma_transitive(a.0, b.0, c.0);
        }
    }
    assert forall|a: (K::V, Dot), b: (K::V, Dot)|
        entry_lt::<K>(a, b) || entry_lt::<K>(b, a) || a == b by {
        K::lemma_total(a.0, b.0);
    }
}

/// Compares `(k1, d1)` with `(k2, d2)` in map order.
fn compare_entry<K: OrdKey>(k1: &K, d1: &Dot, k2: &K, d2: &Dot) -> (o: KeyOrder)
    ensures
        (o == KeyOrder::Less) == entry_lt::<K>((k1@, *d1), (k2@, *d2)),
        (o == KeyOrder::Equal) == ((k1@, *d1) == (k2@, *d2)),
        (o == KeyOrder::Greater) == entry_lt::<K>((k2@, *d2), (k1@, *d1)),
{
    proof {
        lemma_entry_order::<K>();
    }
    match k1.compare_key(k2) {
        KeyOrder::Less => KeyOrder::Less,
        KeyOrder::Greater => KeyOrder::Greater,
        KeyOrder::Equal => {
            if dot_less(d1, d2) {
                KeyOrder::Less
            } else if dot_less(d2, d1) {
                KeyOrder::Greater
            } else {
                KeyOrder::Equal
            }
        },
    }
}

/// A minimal Observed-Remove Map.
///
/// Entries are held sorted by `(key, dot)` with no repeats, so two replicas holding the
/// same adds and removes hold them in the same order.
#[derive(Debug, Clone)]
pub struct OrMap<K, V> {
    adds: Vec<(K, Dot, V)>,
    removes: Vec<(K, Dot)>,
}

pub open spec fn add_key<K: OrdKey, V>(e: (K, Dot, V)) -> (K::V, Dot) {
    (e.0@, e.1)
}

/// Whether some element of `r` has view `k`.
pub open spec fn seq_has_view<K: View>(r: Seq<K>, k: K::V) -> bool {
    exists|i: int| 0 <= i < r.len() && #[trigger] r[i]@ == k
}

pub open spec fn rem_key<K: OrdKey>(e: (K, Dot)) -> (K::V, Dot) {
    (e.0@, e.1)
}

impl<K: OrdKey, V> OrMap<K, V> {
    /// Both lists strictly increasing in map order.
    pub closed spec fn wf(&self) -> bool {
        &&& forall|i: int, j: int|
            0 <= i < j < self.adds@.len() ==> entry_lt::<K>(
                #[trigger] add_key(self.adds@[i]),
                #[trigger] add_key(self.adds@[j]),
            )
        &&& forall|i: int, j: int|
            0 <= i < j < self.removes@.len() ==> entry_lt::<K>(
                #[trigger] rem_key(self.removes@[i]),
                #[trigger] rem_key(self.removes@[j]),
            )
    }

    closed spec fn add_index(&self, p: (K::V, Dot)) -> int {
        choose|i: int| 0 <= i < self.adds@.len() && add_key(self.adds@[i]) == p
    }

    /// Every add held: `(key, dot)` to the value it added.
    pub closed spec fn adds_view(&self) -> Map<(K::V, Dot), V> {
        Map::new(
            |p: (K::V, Dot)| exists|i: int| 0 <= i < self.adds@.len() && add_key(self.adds@[i]) == p,
            |p: (K::V, Dot)| self.adds@[self.add_index(p)].2,
        )
    }

    /// Every removal held, as `(key, dot)` pairs.
    pub closed spec fn removes_view(&self) -> Set<(K::V, Dot)> {
        Set::new(|p: (K::V, Dot)| exists|i: int| 0 <= i < self.removes@.len() && rem_key(self.removes@[i]) == p)
    }

    /// Whether anything was ever added under `k`.
    pub open spec fn has_key(&self, k: K::V) -> bool {
        exists|d: Dot| #[trigger] self.adds_view().contains_key((k, d))
    }

    /// Whether the add tagged `d` under `k` is held and not removed.
    pub open spec fn visible(&self, k: K::V, d: Dot) -> bool {
        self.adds_view().contains_key((k, d)) && !self.removes_view().contains((k, d))
    }

    proof fn lemma_add_value(&self, i: int)
        requires
            self.wf(),
            0 <= i < self.adds@.len(),
        ensures
            self.adds_view().contains_key(add_key(self.adds@[i])),
            self.adds_view()[add_key(self.adds@[i])] == self.adds@[i].2,
    {
        lemma_entry_order::<K>();
        let p = add_key(self.adds@[i]);
        let j = self.add_index(p);
        assert(0 <= j < self.adds@.len() && add_key(self.adds@[j]) == p);
        if j < i {
            assert(entry_lt::<K>(add_key(self.adds@[j]), add_key(self.adds@[i])));
        } else if i < j {
            assert(entry_lt::<K>(add_key(self.adds@[i]), add_key(self.adds@[j])));
        }
    }

    /// Position of `(key, dot)` in the adds, or where it would go.
    fn find_add(&self, key: &K, dot: &Dot) -> (r: (usize, bool))
        requires
            self.wf(),
        ensures
            r.0 <= self.adds@.len(),
            forall|i: int| 0 <= i < r.0 ==> entry_lt::<K>(#[trigger] add_key(self.adds@[i]), (key@, *dot)),
            r.1 ==> r.0 < self.adds@.len() && add_key(self.adds@[r.0 as int]) == (key@, *dot),
            !r.1 ==> forall|i: int| r.0 <= i < self.adds@.len() ==> entry_lt::<K>((key@, *dot), #[trigger] add_key(self.adds@[i])),
    {
        proof {
            lemma_entry_order::<K>();
        }
        let mut i: usize = 0;
        while i < self.adds.len()
            invariant
                self.wf(),
                i <= self.adds@.len(),
                forall|j: int| 0 <= j < i ==> entry_lt::<K>(#[trigger] add_key(self.adds@[j]), (key@, *dot)),
            decreases self.adds@.len() - i,
        {
            let o = compare_entry(&self.adds[i].0, &self.adds[i].1, key, dot);
            match o {
                KeyOrder::Less => {
                    i = i + 1;
                },
                KeyOrder::Equal => {
                    return (i, true);
                },
                KeyOrder::Greater => {
                    proof {
                        assert forall|j: int| i <= j < self.adds@.len() implies entry_lt::<K>(
                            (key@, *dot),
                            #[trigger] add_key(self.adds@[j]),
                        ) by {
                            lemma_entry_order::<K>();
                            if j > i {
                                assert(entry_lt::<K>(add_key(self.adds@[i as int]), add_key(self.adds@[j])));
                            }
                        }
                    }
                    return (i, false);
                },
            }
        }
        (i, false)
    }

    /// Record an add of `value` under `key`, tagged `dot`.
    pub fn add(&mut self, key: K, dot: Dot, value: V)
        requires
            old(self).wf(),
        ensures
            final(self).wf(),
            final(self).adds_view() == old(self).adds_view().insert((key@, dot), value),
            final(self).removes_view() == old(self).removes_view(),
    {
        let (i, found) = self.find_add(&key, &dot);
        let ghost s = self.adds@;
        let ghost p = (key@, dot);
        let ghost e = (key, dot, value);
        if found {
            self.adds.remove(i);
        }
        self.adds.insert(i, (key, dot, value));
        proof {
            lemma_entry_order::<K>();
            let t = self.adds@;
            if found {
                assert(t =~= s.update(i as int, e));
                assert forall|a: int, b: int| 0 <= a < b < t.len() implies entry_lt::<K>(
                    #[trigger] add_key(t[a]),
                    #[trigger] add_key(t[b]),
                ) by {
                    if a == i {
                        assert(entry_lt::<K>(add_key(s[a]), add_key(s[b])));
                    } else if b == i {
                        assert(entry_lt::<K>(add_key(s[a]), add_key(s[b])));
                    } else {
                        assert(entry_lt::<K>(add_key(s[a]), add_key(s[b])));
                    }
                }
            } else {
                assert(t =~= s.insert(i as int, e));
                assert forall|a: int, b: int| 0 <= a < b < t.len() implies entry_lt::<K>(
                    #[trigger] add_key(t[a]),
                    #[trigger] add_key(t[b]),
                ) by {
                    if a < i && b == i {
                        assert(entry_lt::<K>(add_key(s[a]), p));
                    } else if a < i && b > i {
                        assert(entry_lt::<K>(add_key(s[a]), add_key(s[b - 1])));
                    } else if a == i {
                        assert(entry_lt::<K>(p, add_key(s[b - 1])));
                    } else if a > i {
                        assert(entry_lt::<K>(add_key(s[a - 1]), add_key(s[b - 1])));
                    } else {
                        assert(entry_lt::<K>(add_key(s[a]), add_key(s[b])));
                    }
                }
            }
            assert(self.wf());
            let old_map = old(self).adds_view().insert(p, value);
            let new_map = self.adds_view();
            assert forall|q: (K::V, Dot)| new_map.contains_key(q) <==> old_map.contains_key(q) by {
                if new_map.contains_key(q) {
                    let k = choose|k: int| 0 <= k < t.len() && add_key(t[k]) == q;
                    if q != p {
                        if found {
                            assert(add_key(s[k]) == q);
                        } else if k < i {
                            assert(add_key(s[k]) == q);
                        } else {
                            assert(add_key(s[k - 1]) == q);
                        }
                    }
                }
                if old_map.contains_key(q) {
                    if q == p {
                        assert(add_key(t[i as int]) == q);
                    } else {
                        let k = choose|k: int| 0 <= k < s.len() && add_key(s[k]) == q;
                        if found || k < i {
                            assert(add_key(t[k]) == q);
                        } else {
                            assert(add_key(t[k + 1]) == q);
                        }
                    }
                }
            }
            assert forall|q: (K::V, Dot)| new_map.contains_key(q) implies new_map[q] == old_map[q] by {
                let k = choose|k: int| 0 <= k < t.len() && add_key(t[k]) == q;
                self.lemma_add_value(k);
                if q != p {
                    if found || k < i {
                        old(self).lemma_add_value(k);
                    } else {
                        old(self).lemma_add_value(k - 1);
                    }
                } else {
                    if k != i {
                        assert(entry_lt::<K>(add_key(t[k]), add_key(t[i as int])) || entry_lt::<K>(add_key(t[i as int]), add_key(t[k])));
                    }
                }
            }
            assert(new_map =~= old_map);
            assert(self.removes_view() =~= old(self).removes_view());
        }
    }

    /// Position of `(key, dot)` in the removes, or where it would go.
    fn find_remove(&self, key: &K, dot: &Dot) -> (r: (usize, bool))
        requires
            self.wf(),
        ensures
            r.0 <= self.removes@.len(),
            forall|i: int| 0 <= i < r.0 ==> entry_lt::<K>(#[trigger] rem_key(self.removes@[i]), (key@, *dot)),
            r.1 ==> r.0 < self.removes@.len() && rem_key(self.removes@[r.0 as int]) == (key@, *dot),
            !r.1 ==> forall|i: int| r.0 <= i < self.removes@.len() ==> entry_lt::<K>((key@, *dot), #[trigger] rem_key(self.removes@[i])),
    {
        let mut i: usize = 0;
        while i < self.removes.len()
            invariant
                self.wf(),
                i <= self.removes@.len(),
                forall|j: int| 0 <= j < i ==> entry_lt::<K>(#[trigger] rem_key(self.removes@[j]), (key@, *dot)),
            decreases self.removes@.len() - i,
        {
            let o = compare_entry(&self.removes[i].0, &self.removes[i].1, key, dot);
            match o {
                KeyOrder::Less => {
                    i = i + 1;
                },
                KeyOrder::Equal => {
                    return (i, true);
                },
                KeyOrder::Greater => {
                    proof {
                        assert forall|j: int| i <= j < self.removes@.len() implies entry_lt::<K>(
                            (key@, *dot),
                            #[trigger] rem_key(self.removes@[j]),
                        ) by {
                            lemma_entry_order::<K>();
                            if j > i {
                                assert(entry_lt::<K>(rem_key(self.removes@[i as int]), rem_key(self.removes@[j])));
                            }
                        }
                    }
                    return (i, false);
                },
            }
        }
        (i, false)
    }

    /// Record the removal of the add tagged `dot` under `key`.
    fn insert_remove(&mut self, key: K, dot: Dot)
        requires
            old(self).wf(),
        ensures
            final(self).wf(),
            final(self).removes_view() == old(self).removes_view().insert((key@, dot)),
            final(self).adds_view() == old(self).adds_view(),
    {
        let (i, found) = self.find_remove(&key, &dot);
        if found {
            return;
        }
        let ghost s = self.removes@;
        let ghost p = (key@, dot);
        let ghost e = (key, dot);
        self.removes.insert(i, (key, dot));
        proof {
            lemma_entry_order::<K>();
            let t = self.removes@;
            assert(t =~= s.insert(i as int, e));
            assert forall|a: int, b: int| 0 <= a < b < t.len() implies entry_lt::<K>(
                #[trigger] rem_key(t[a]),
                #[trigger] rem_key(t[b]),
            ) by {
                if a < i && b == i {
                    assert(entry_lt::<K>(rem_key(s[a]), p));
                } else if a < i && b > i {
                    assert(entry_lt::<K>(rem_key(s[a]), rem_key(s[b - 1])));
                } else if a == i {
                    assert(entry_lt::<K>(p, rem_key(s[b - 1])));
                } else if a > i {
                    assert(entry_lt::<K>(rem_key(s[a - 1]), rem_key(s[b - 1])));
                }
            }
            let want = old(self).removes_view().insert(p);
            assert forall|q: (K::V, Dot)| self.removes_view().contains(q) <==> want.contains(q) by {
                if self.removes_view().contains(q) {
                    let k = choose|k: int| 0 <= k < t.len() && rem_key(t[k]) == q;
                    if q != p {
                        if k < i {
                            assert(rem_key(s[k]) == q);
                        } else {
                            assert(rem_key(s[k - 1]) == q);
                        }
                    }
                }
                if want.contains(q) {
                    if q == p {
                        assert(rem_key(t[i as int]) == q);
                    } else {
                        let k = choose|k: int| 0 <= k < s.len() && rem_key(s[k]) == q;
                        if k < i {
                            assert(rem_key(t[k]) == q);
                        } else {
                            assert(rem_key(t[k + 1]) == q);
                        }
                    }
                }
            }
            assert(self.removes_view() =~= want);
            assert(self.adds_view() =~= old(self).adds_view());
        }
    }

    /// Record a removal of exactly `dots` under `key`.
    ///
    /// The dots need not be present yet. A removal that arrives before the addition it
    /// refers to still suppresses it, because visibility is judged against this set
    /// rather than at insertion time — which is what makes the result independent of
    /// arrival order.
    pub fn remove_dots(&mut self, key: &K, dots: Vec<Dot>)
        requires
            old(self).wf(),
        ensures
            final(self).wf(),
            final(self).adds_view() == old(self).adds_view(),
            final(self).removes_view() == old(self).removes_view().union(
                Set::new(|p: (K::V, Dot)| p.0 == key@ && dots@.contains(p.1)),
            ),
    {
        let mut i: usize = 0;
        while i < dots.len()
            invariant
                self.wf(),
                i <= dots@.len(),
                self.adds_view() == old(self).adds_view(),
                self.removes_view() == old(self).removes_view().union(
                    Set::new(|p: (K::V, Dot)| p.0 == key@ && exists|j: int| 0 <= j < i && #[trigger] dots@[j] == p.1),
                ),
            decreases dots@.len() - i,
        {
            let k = key.copy_key();
            self.insert_remove(k, dots[i]);
            proof {
                let a = Set::new(|p: (K::V, Dot)| p.0 == key@ && exists|j: int| 0 <= j < i && #[trigger] dots@[j] == p.1);
                let b = Set::new(|p: (K::V, Dot)| p.0 == key@ && exists|j: int| 0 <= j < i + 1 && #[trigger] dots@[j] == p.1);
                assert forall|p: (K::V, Dot)| b.contains(p) <==> a.insert((key@, dots@[i as int])).contains(p) by {
                    if p == (key@, dots@[i as int]) {
                        assert(dots@[i as int] == p.1);
                    }
                }
                assert(b =~= a.insert((key@, dots@[i as int])));
                assert(self.removes_view() =~= old(self).removes_view().union(b));
            }
            i = i + 1;
        }
        proof {
            let a = Set::new(|p: (K::V, Dot)| p.0 == key@ && exists|j: int| 0 <= j < i && #[trigger] dots@[j] == p.1);
            let b = Set::new(|p: (K::V, Dot)| p.0 == key@ && dots@.contains(p.1));
            assert(a =~= b);
        }
    }

    /// The dots currently added under `key`, in increasing order, removed or not.
    ///
    /// Only meaningful against a local, fully-observed view — an operation that has to
    /// converge across replicas must name its dots explicitly with `remove_dots`,
    /// because "currently visible" differs by arrival order.
    pub fn observed_dots(&self, key: &K) -> (r: Vec<Dot>)
        requires
            self.wf(),
        ensures
            forall|i: int, j: int| 0 <= i < j < r@.len() ==> dot_lt(#[trigger] r@[i], #[trigger] r@[j]),
            forall|d: Dot| r@.contains(d) <==> self.adds_view().contains_key((key@, d)),
    {
        let mut r: Vec<Dot> = Vec::new();
        let ghost mut src: Seq<int> = Seq::empty();
        let mut i: usize = 0;
        while i < self.adds.len()
            invariant
                self.wf(),
                i <= self.adds@.len(),
                src.len() == r@.len(),
                forall|a: int, b: int| 0 <= a < b < r@.len() ==> dot_lt(#[trigger] r@[a], #[trigger] r@[b]),
                forall|m: int| 0 <= m < r@.len() ==> 0 <= #[trigger] src[m] < i && add_key(self.adds@[src[m]]) == (key@, r@[m]),
                forall|j: int| 0 <= j < i && (#[trigger] add_key(self.adds@[j])).0 == key@ ==> r@.contains(self.adds@[j].1),
            decreases self.adds@.len() - i,
        {
            let o = self.adds[i].0.compare_key(key);
            if o == KeyOrder::Equal {
                proof {
                    lemma_entry_order::<K>();
                    assert forall|m: int| 0 <= m < r@.len() implies dot_lt(#[trigger] r@[m], self.adds@[i as int].1) by {
                        let j = src[m];
                        assert(entry_lt::<K>(add_key(self.adds@[j]), add_key(self.adds@[i as int])));
                        K::lemma_irreflexive(key@);
                    }
                }
                let ghost r0 = r@;
                r.push(self.adds[i].1);
                proof {
                    src = src.push(i as int);
                    assert forall|j: int| 0 <= j < i + 1 && (#[trigger] add_key(self.adds@[j])).0 == key@ implies r@.contains(self.adds@[j].1) by {
                        if j < i {
                            let m = choose|m: int| 0 <= m < r0.len() && r0[m] == self.adds@[j].1;
                            assert(r@[m] == self.adds@[j].1);
                        } else {
                            assert(r@[r0.len() as int] == self.adds@[j].1);
                        }
                    }
                }
            }
            i = i + 1;
        }
        proof {
            assert forall|d: Dot| r@.contains(d) <==> self.adds_view().contains_key((key@, d)) by {
                if r@.contains(d) {
                    let m = choose|m: int| 0 <= m < r@.len() && r@[m] == d;
                    assert(add_key(self.adds@[src[m]]) == (key@, d));
                }
                if self.adds_view().contains_key((key@, d)) {
                    let j = choose|j: int| 0 <= j < self.adds@.len() && add_key(self.adds@[j]) == (key@, d);
                    assert((add_key(self.adds@[j])).0 == key@);
                }
            }
        }
        r
    }

    /// Whether the removal of `(key, dot)` is recorded.
    fn is_removed(&self, key: &K, dot: &Dot) -> (r: bool)
        requires
            self.wf(),
        ensures
            r == self.removes_view().contains((key@, *dot)),
    {
        let (i, found) = self.find_remove(key, dot);
        proof {
            if !found && self.removes_view().contains((key@, *dot)) {
                lemma_entry_order::<K>();
                let j = choose|j: int| 0 <= j < self.removes@.len() && rem_key(self.removes@[j]) == (key@, *dot);
                if j < i {
                    assert(entry_lt::<K>(rem_key(self.removes@[j]), (key@, *dot)));
                } else {
                    assert(entry_lt::<K>((key@, *dot), rem_key(self.removes@[j])));
                }
            }
        }
        found
    }

    /// Whether an add `(key, dot)` is held.
    fn has_add(&self, key: &K, dot: &Dot) -> (r: bool)
        requires
            self.wf(),
        ensures
            r == self.adds_view().contains_key((key@, *dot)),
    {
        let (i, found) = self.find_add(key, dot);
        proof {
            if !found && self.adds_view().contains_key((key@, *dot)) {
                lemma_entry_order::<K>();
                let j = choose|j: int| 0 <= j < self.adds@.len() && add_key(self.adds@[j]) == (key@, *dot);
                if j < i {
                    assert(entry_lt::<K>(add_key(self.adds@[j]), (key@, *dot)));
                } else {
                    assert(entry_lt::<K>((key@, *dot), add_key(self.adds@[j])));
                }
            }
        }
        found
    }

    /// Every key ever added, in key order, including fully-removed ones (tombstones are
    /// retained so that concurrent re-adds still converge).
    pub fn keys(&self) -> (r: Vec<K>)
        requires
            self.wf(),
        ensures
            forall|i: int, j: int| 0 <= i < j < r@.len() ==> K::view_lt(#[trigger] r@[i]@, #[trigger] r@[j]@),
            forall|k: K::V| #[trigger] seq_has_view(r@, k) <==> self.has_key(k),
    {
        let mut r: Vec<K> = Vec::new();
        let ghost mut src: Seq<int> = Seq::empty();
        let ghost mut pos: Seq<int> = Seq::empty();
        let mut i: usize = 0;
        while i < self.adds.len()
            invariant
                self.wf(),
                i <= self.adds@.len(),
                src.len() == r@.len(),
                pos.len() == i,
                forall|a: int, b: int| 0 <= a < b < r@.len() ==> K::view_lt(#[trigger] r@[a]@, #[trigger] r@[b]@),
                i > 0 ==> r@.len() > 0 && r@.last()@ == self.adds@[i - 1].0@,
                i == 0 ==> r@.len() == 0,
                forall|m: int| 0 <= m < r@.len() ==> 0 <= #[trigger] src[m] < i && self.adds@[src[m]].0@ == r@[m]@,
                forall|j: int| 0 <= j < i ==> 0 <= #[trigger] pos[j] < r@.len() && r@[pos[j]]@ == self.adds@[j].0@,
            decreases self.adds@.len() - i,
        {
            let fresh = if r.len() == 0 {
                true
            } else {
                let last = r.len() - 1;
                r[last].compare_key(&self.adds[i].0) != KeyOrder::Equal
            };
            let ghost r0 = r@;
            if fresh {
                proof {
                    if i > 0 {
                        lemma_entry_order::<K>();
                        assert(entry_lt::<K>(add_key(self.adds@[i - 1]), add_key(self.adds@[i as int])));
                        assert forall|m: int| 0 <= m < r0.len() implies K::view_lt(#[trigger] r0[m]@, self.adds@[i as int].0@) by {
                            if m < r0.len() - 1 {
                                K::lemma_transitive(r0[m]@, r0.last()@, self.adds@[i as int].0@);
                            }
                        }
                    }
                }
                r.push(self.adds[i].0.copy_key());
                proof {
                    src = src.push(i as int);
                    pos = pos.push(r0.len() as int);
                }
            } else {
                proof {
                    pos = pos.push(r0.len() - 1);
                }
            }
            i = i + 1;
        }
        proof {
            assert forall|k: K::V| #[trigger] seq_has_view(r@, k) <==> self.has_key(k) by {
                if seq_has_view(r@, k) {
                    let m = choose|m: int| 0 <= m < r@.len() && #[trigger] r@[m]@ == k;
                    assert(add_key(self.adds@[src[m]]) == (k, self.adds@[src[m]].1));
                    assert(self.adds_view().contains_key((k, self.adds@[src[m]].1)));
                }
                if self.has_key(k) {
                    let d = choose|d: Dot| #[trigger] self.adds_view().contains_key((k, d));
                    let j = choose|j: int| 0 <= j < self.adds@.len() && add_key(self.adds@[j]) == (k, d);
                    assert(r@[pos[j]]@ == k);
                }
            }
        }
        r
    }
}

/// Some element of `r` carries dot `d`.
pub open spec fn seq_has_dot<V>(r: Seq<(Dot, V)>, d: Dot) -> bool {
    exists|i: int| 0 <= i < r.len() && #[trigger] r[i].0 == d
}

/// Dots in strictly ascending order.
pub open spec fn dots_sorted(s: Seq<Dot>) -> bool {
    forall|i: int, j: int| 0 <= i < j < s.len() ==> dot_lt(#[trigger] s[i], #[trigger] s[j])
}

/// Whether the add tagged `d` under `k` is held (its dot is in `held`) and not removed.
pub open spec fn shown_in<KV>(held: Set<(KV, Dot)>, removes: Set<(KV, Dot)>, k: KV, d: Dot) -> bool {
    held.contains((k, d)) && !removes.contains((k, d))
}

/// The dots still visible under `k`, ascending: what a replica holding the adds `held`
/// and the removals `removes` lists for `k`. It depends on those two sets alone.
pub open spec fn visible_listing<KV>(held: Set<(KV, Dot)>, removes: Set<(KV, Dot)>, k: KV) -> Seq<Dot> {
    choose|s: Seq<Dot>| dots_sorted(s) && forall|d: Dot| #[trigger] s.contains(d) <==> shown_in(held, removes, k, d)
}

/// The dots of a listing of `(dot, value)` pairs.
pub open spec fn dots_of<V>(r: Seq<(Dot, V)>) -> Seq<Dot> {
    r.map_values(|p: (Dot, V)| p.0)
}

/// Two ascending lists of the same dots are the same list.
pub proof fn lemma_sorted_dots_unique(a: Seq<Dot>, b: Seq<Dot>)
    requires
        dots_sorted(a),
        dots_sorted(b),
        forall|d: Dot| a.contains(d) <==> b.contains(d),
    ensures
        a == b,
    decreases a.len(),
{
    if a.len() == 0 {
        if b.len() > 0 {
            assert(b.contains(b[0]));
        }
        assert(a =~= b);
    } else {
        assert(a.contains(a[0]));
        assert(b.len() > 0);
        assert(b.contains(b[0]));
        let ia = choose|i: int| 0 <= i < a.len() && a[i] == b[0];
        let ib = choose|i: int| 0 <= i < b.len() && b[i] == a[0];
        if ia > 0 {
            assert(dot_lt(a[0], a[ia]));
        }
        if ib > 0 {
            assert(dot_lt(b[0], b[ib]));
        }
        assert(a[0] == b[0]);
        let ta = a.drop_first();
        let tb = b.drop_first();
        assert forall|d: Dot| ta.contains(d) <==> tb.contains(d) by {
            if ta.contains(d) {
                let i = choose|i: int| 0 <= i < ta.len() && ta[i] == d;
                assert(a[i + 1] == d);
                assert(dot_lt(a[0], a[i + 1]));
                assert(b.contains(d));
                let j = choose|j: int| 0 <= j < b.len() && b[j] == d;
                assert(j != 0);
                assert(tb[j - 1] == d);
            }
            if tb.contains(d) {
                let i = choose|i: int| 0 <= i < tb.len() && tb[i] == d;
                assert(b[i + 1] == d);
                assert(dot_lt(b[0], b[i + 1]));
                assert(a.contains(d));
                let j = choose|j: int| 0 <= j < a.len() && a[j] == d;
                assert(j != 0);
                assert(ta[j - 1] == d);
            }
        }
        assert forall|i: int, j: int| 0 <= i < j < ta.len() implies dot_lt(#[trigger] ta[i], #[trigger] ta[j]) by {
            assert(dot_lt(a[i + 1], a[j + 1]));
        }
        assert forall|i: int, j: int| 0 <= i < j < tb.len() implies dot_lt(#[trigger] tb[i], #[trigger] tb[j]) by {
            assert(dot_lt(b[i + 1], b[j + 1]));
        }
        lemma_sorted_dots_unique(ta, tb);
        assert(a =~= seq![a[0]] + ta);
        assert(b =~= seq![b[0]] + tb);
    }
}

/// An add and a removal commute as a reader sees them: whichever a replica received
/// first, it lists the same dots under every key (what `get_all` returns), and an add
/// whose dot the removal named is not visible, so not listed, even when the removal
/// arrived before the add.
pub proof fn lemma_listing_ignores_add_removal_order<KV, V>(
    adds: Map<(KV, Dot), V>,
    removes: Set<(KV, Dot)>,
    k: KV,
    d: Dot,
    v: V,
    ds: Seq<Dot>,
    q: KV,
)
    ensures
        ({
            let removed = Set::new(|p: (KV, Dot)| p.0 == k && ds.contains(p.1));
            let add_first = after_removal(after_add((adds, removes), (k, d), v), removed);
            let remove_first = after_add(after_removal((adds, removes), removed), (k, d), v);
            &&& visible_listing(add_first.0.dom(), add_first.1, q) == visible_listing(remove_first.0.dom(), remove_first.1, q)
            &&& (ds.contains(d) ==> !shown_in(remove_first.0.dom(), remove_first.1, k, d))
        }),
{
    let removed = Set::new(|p: (KV, Dot)| p.0 == k && ds.contains(p.1));
    lemma_add_and_removal_commute((adds, removes), k, d, v, removed);
    if ds.contains(d) {
        assert(removed.contains((k, d)));
    }
}

/// Merging lists the same dots under every key whichever replica merged into which,
/// and merging a replica's own state into it changes no listing.
pub proof fn lemma_merged_listing_commutes<KV, V>(
    a_adds: Map<(KV, Dot), V>,
    a_removes: Set<(KV, Dot)>,
    b_adds: Map<(KV, Dot), V>,
    b_removes: Set<(KV, Dot)>,
    k: KV,
)
    ensures
        visible_listing(join_adds(a_adds, b_adds).dom(), a_removes.union(b_removes), k) == visible_listing(
            join_adds(b_adds, a_adds).dom(),
            b_removes.union(a_removes),
            k,
        ),
        visible_listing(join_adds(a_adds, a_adds).dom(), a_removes.union(a_removes), k) == visible_listing(
            a_adds.dom(),
            a_removes,
            k,
        ),
{
    assert(join_adds(a_adds, b_adds).dom() =~= join_adds(b_adds, a_adds).dom());
    assert(a_removes.union(b_removes) =~= b_removes.union(a_removes));
    assert(join_adds(a_adds, a_adds).dom() =~= a_adds.dom());
    assert(a_removes.union(a_removes) =~= a_removes);
}

/// The adds a merge leaves behind: everything either side held, with the receiving
/// side's value kept where both held the same dot.
pub open spec fn join_adds<KV, V>(mine: Map<(KV, Dot), V>, theirs: Map<(KV, Dot), V>) -> Map<(KV, Dot), V> {
    theirs.union_prefer_right(mine)
}

impl<K: OrdKey, V: Clone> OrMap<K, V> {
    /// An empty map.
    pub fn new() -> (m: Self)
        ensures
            m.wf(),
            m.adds_view() == Map::<(K::V, Dot), V>::empty(),
            m.removes_view() == Set::<(K::V, Dot)>::empty(),
    {
        let m = OrMap { adds: Vec::new(), removes: Vec::new() };
        assert(m.adds_view() =~= Map::<(K::V, Dot), V>::empty());
        assert(m.removes_view() =~= Set::<(K::V, Dot)>::empty());
        m
    }

    /// Whether some value survives under `k`.
    pub open spec fn is_live(&self, k: K::V) -> bool {
        exists|d: Dot| #[trigger] self.visible(k, d)
    }

    /// Every value for `key` that has not been observed-removed, ordered by dot.
    ///
    /// `get` collapses this to one value, which hides concurrent adds. Callers that
    /// must *detect* a conflict — rather than silently pick a winner — need to see
    /// all survivors so they can derive a deterministic conflict name.
    pub fn get_all(&self, key: &K) -> (r: Vec<(Dot, V)>)
        requires
            self.wf(),
        ensures
            forall|i: int, j: int| 0 <= i < j < r@.len() ==> dot_lt(#[trigger] r@[i].0, #[trigger] r@[j].0),
            forall|i: int| 0 <= i < r@.len() ==> self.visible(key@, #[trigger] r@[i].0) && cloned(
                self.adds_view()[(key@, r@[i].0)],
                r@[i].1,
            ),
            forall|d: Dot| #[trigger] self.visible(key@, d) ==> seq_has_dot(r@, d),
            dots_of(r@) == visible_listing(self.adds_view().dom(), self.removes_view(), key@),
    {
        let mut r: Vec<(Dot, V)> = Vec::new();
        let ghost mut src: Seq<int> = Seq::empty();
        let mut i: usize = 0;
        while i < self.adds.len()
            invariant
                self.wf(),
                i <= self.adds@.len(),
                src.len() == r@.len(),
                forall|a: int, b: int| 0 <= a < b < r@.len() ==> dot_lt(#[trigger] r@[a].0, #[trigger] r@[b].0),
                forall|m: int| 0 <= m < r@.len() ==> 0 <= #[trigger] src[m] < i && add_key(self.adds@[src[m]]) == (key@, r@[m].0)
                    && cloned(self.adds@[src[m]].2, r@[m].1) && self.visible(key@, r@[m].0),
                forall|j: int| 0 <= j < i && (#[trigger] add_key(self.adds@[j])).0 == key@
                    && !self.removes_view().contains(add_key(self.adds@[j])) ==> seq_has_dot(r@, self.adds@[j].1),
            decreases self.adds@.len() - i,
        {
            let o = self.adds[i].0.compare_key(key);
            if o == KeyOrder::Equal && !self.is_removed(key, &self.adds[i].1) {
                proof {
                    lemma_entry_order::<K>();
                    self.lemma_add_value(i as int);
                    assert forall|m: int| 0 <= m < r@.len() implies dot_lt(#[trigger] r@[m].0, self.adds@[i as int].1) by {
                        let j = src[m];
                        assert(entry_lt::<K>(add_key(self.adds@[j]), add_key(self.adds@[i as int])));
                        K::lemma_irreflexive(key@);
                    }
                }
                let ghost r0 = r@;
                let v = self.adds[i].2.clone();
                r.push((self.adds[i].1, v));
                proof {
                    src = src.push(i as int);
                    assert forall|j: int| 0 <= j < i + 1 && (#[trigger] add_key(self.adds@[j])).0 == key@
                        && !self.removes_view().contains(add_key(self.adds@[j])) implies seq_has_dot(r@, self.adds@[j].1) by {
                        if j < i {
                            let m = choose|m: int| 0 <= m < r0.len() && #[trigger] r0[m].0 == self.adds@[j].1;
                            assert(r@[m].0 == self.adds@[j].1);
                        } else {
                            assert(r@[r0.len() as int].0 == self.adds@[j].1);
                        }
                    }
                }
            }
            i = i + 1;
        }
        proof {
            assert forall|m: int| 0 <= m < r@.len() implies self.visible(key@, #[trigger] r@[m].0) && cloned(
                self.adds_view()[(key@, r@[m].0)],
                r@[m].1,
            ) by {
                self.lemma_add_value(src[m]);
            }
            assert forall|d: Dot| #[trigger] self.visible(key@, d) implies seq_has_dot(r@, d) by {
                let j = choose|j: int| 0 <= j < self.adds@.len() && add_key(self.adds@[j]) == (key@, d);
                assert((add_key(self.adds@[j])).0 == key@);
            }
            let ds = dots_of(r@);
            let held = self.adds_view().dom();
            let rm = self.removes_view();
            assert forall|i: int, j: int| 0 <= i < j < ds.len() implies dot_lt(#[trigger] ds[i], #[trigger] ds[j]) by {
                assert(dot_lt(r@[i].0, r@[j].0));
            }
            assert forall|d: Dot| #[trigger] ds.contains(d) <==> shown_in(held, rm, key@, d) by {
                if ds.contains(d) {
                    let i = choose|i: int| 0 <= i < ds.len() && ds[i] == d;
                    assert(self.visible(key@, r@[i].0));
                }
                if shown_in(held, rm, key@, d) {
                    assert(self.visible(key@, d));
                    assert(seq_has_dot(r@, d));
                    let i = choose|i: int| 0 <= i < r@.len() && #[trigger] r@[i].0 == d;
                    assert(ds[i] == d);
                }
            }
            assert(dots_sorted(ds) && forall|d: Dot| #[trigger] ds.contains(d) <==> shown_in(held, rm, key@, d));
            let l = visible_listing(held, rm, key@);
            assert(dots_sorted(l) && forall|d: Dot| #[trigger] l.contains(d) <==> shown_in(held, rm, key@, d));
            lemma_sorted_dots_unique(ds, l);
        }
        r
    }

    /// Deterministic single-value read: the highest surviving dot wins.
    pub fn get(&self, key: &K) -> (r: Option<V>)
        requires
            self.wf(),
        ensures
            r is None <==> !self.is_live(key@),
            r matches Some(v) ==> exists|d: Dot| #[trigger] self.visible(key@, d)
                && (forall|e: Dot| #[trigger] self.visible(key@, e) ==> !dot_lt(d, e))
                && cloned(self.adds_view()[(key@, d)], v),
    {
        let mut all = self.get_all(key);
        let ghost s = all@;
        match all.pop() {
            None => {
                proof {
                    if self.is_live(key@) {
                        let d = choose|d: Dot| #[trigger] self.visible(key@, d);
                        assert(seq_has_dot(s, d));
                    }
                }
                None
            },
            Some((d, v)) => {
                proof {
                    let n = s.len() - 1;
                    assert(s[n].0 == d);
                    assert(self.visible(key@, d));
                    assert forall|e: Dot| #[trigger] self.visible(key@, e) implies !dot_lt(d, e) by {
                        assert(seq_has_dot(s, e));
                        let m = choose|m: int| 0 <= m < s.len() && #[trigger] s[m].0 == e;
                        if m < n {
                            assert(dot_lt(s[m].0, s[n].0));
                        }
                    }
                }
                Some(v)
            },
        }
    }

    /// Keys that still have at least one surviving value, in key order.
    pub fn live_keys(&self) -> (r: Vec<K>)
        requires
            self.wf(),
        ensures
            forall|i: int, j: int| 0 <= i < j < r@.len() ==> K::view_lt(#[trigger] r@[i]@, #[trigger] r@[j]@),
            forall|k: K::V| #[trigger] seq_has_view(r@, k) <==> self.is_live(k),
    {
        let all = self.keys();
        let mut r: Vec<K> = Vec::new();
        let ghost mut src: Seq<int> = Seq::empty();
        let mut i: usize = 0;
        while i < all.len()
            invariant
                self.wf(),
                i <= all@.len(),
                src.len() == r@.len(),
                forall|a: int, b: int| 0 <= a < b < all@.len() ==> K::view_lt(#[trigger] all@[a]@, #[trigger] all@[b]@),
                forall|k: K::V| #[trigger] seq_has_view(all@, k) <==> self.has_key(k),
                forall|m: int| 0 <= m < r@.len() ==> 0 <= #[trigger] src[m] < i && all@[src[m]]@ == r@[m]@ && self.is_live(r@[m]@),
                forall|a: int, b: int| 0 <= a < b < r@.len() ==> #[trigger] src[a] < #[trigger] src[b],
                forall|j: int| 0 <= j < i && self.is_live(#[trigger] all@[j]@) ==> seq_has_view(r@, all@[j]@),
            decreases all@.len() - i,
        {
            let found = self.get_all(&all[i]);
            if found.len() > 0 {
                let ghost r0 = r@;
                proof {
                    assert(self.visible(all@[i as int]@, found@[0].0));
                }
                r.push(all[i].copy_key());
                proof {
                    src = src.push(i as int);
                    assert forall|j: int| 0 <= j < i + 1 && self.is_live(#[trigger] all@[j]@) implies seq_has_view(r@, all@[j]@) by {
                        if j < i {
                            let m = choose|m: int| 0 <= m < r0.len() && #[trigger] r0[m]@ == all@[j]@;
                            assert(r@[m]@ == all@[j]@);
                        } else {
                            assert(r@[r0.len() as int]@ == all@[j]@);
                        }
                    }
                }
            } else {
                proof {
                    if self.is_live(all@[i as int]@) {
                        let d = choose|d: Dot| #[trigger] self.visible(all@[i as int]@, d);
                        assert(seq_has_dot(found@, d));
                    }
                }
            }
            i = i + 1;
        }
        proof {
            assert forall|a: int, b: int| 0 <= a < b < r@.len() implies K::view_lt(#[trigger] r@[a]@, #[trigger] r@[b]@) by {
                assert(src[a] < src[b]);
            }
            assert forall|k: K::V| #[trigger] seq_has_view(r@, k) <==> self.is_live(k) by {
                if seq_has_view(r@, k) {
                    let m = choose|m: int| 0 <= m < r@.len() && #[trigger] r@[m]@ == k;
                    assert(0 <= src[m]);
                    assert(self.is_live(r@[m]@));
                }
                if self.is_live(k) {
                    let d = choose|d: Dot| #[trigger] self.visible(k, d);
                    assert(self.adds_view().contains_key((k, d)));
                    assert(self.has_key(k));
                    assert(seq_has_view(all@, k));
                    let j = choose|j: int| 0 <= j < all@.len() && #[trigger] all@[j]@ == k;
                    assert(self.is_live(all@[j]@));
                }
            }
        }
        r
    }

    /// Remove everything currently visible for `key`.
    ///
    /// Only meaningful against a local, fully-observed view; see `observed_dots`.
    pub fn remove(&mut self, key: &K)
        requires
            old(self).wf(),
        ensures
            final(self).wf(),
            final(self).adds_view() == old(self).adds_view(),
            final(self).removes_view() == old(self).removes_view().union(
                Set::new(|p: (K::V, Dot)| p.0 == key@ && old(self).adds_view().contains_key(p)),
            ),
    {
        let observed = self.observed_dots(key);
        let ghost before = self.removes_view();
        self.remove_dots(key, observed);
        proof {
            let a = Set::new(|p: (K::V, Dot)| p.0 == key@ && observed@.contains(p.1));
            let b = Set::new(|p: (K::V, Dot)| p.0 == key@ && old(self).adds_view().contains_key(p));
            assert(a =~= b);
        }
    }

    /// Union this map with `other`.
    pub fn merge(&mut self, other: &Self)
        requires
            old(self).wf(),
            other.wf(),
        ensures
            final(self).wf(),
            final(self).adds_view().dom() == join_adds(old(self).adds_view(), other.adds_view()).dom(),
            forall|p: (K::V, Dot)| #[trigger] final(self).adds_view().contains_key(p) ==> cloned(
                join_adds(old(self).adds_view(), other.adds_view())[p],
                final(self).adds_view()[p],
            ),
            forall|p: (K::V, Dot)| #[trigger] old(self).adds_view().contains_key(p) ==> final(self).adds_view()[p]
                == old(self).adds_view()[p],
            final(self).removes_view() == old(self).removes_view().union(other.removes_view()),
    {
        let ghost mine = old(self).adds_view();
        let ghost theirs = other.adds_view();
        let mut i: usize = 0;
        while i < other.adds.len()
            invariant
                self.wf(),
                other.wf(),
                i <= other.adds@.len(),
                mine == old(self).adds_view(),
                theirs == other.adds_view(),
                self.removes_view() == old(self).removes_view(),
                forall|p: (K::V, Dot)| #[trigger] self.adds_view().contains_key(p) <==> (mine.contains_key(p)
                    || exists|j: int| 0 <= j < i && #[trigger] add_key(other.adds@[j]) == p),
                forall|p: (K::V, Dot)| #[trigger] self.adds_view().contains_key(p) ==> cloned(
                    join_adds(mine, theirs)[p],
                    self.adds_view()[p],
                ),
                forall|p: (K::V, Dot)| #[trigger] mine.contains_key(p) ==> self.adds_view()[p] == mine[p],
            decreases other.adds@.len() - i,
        {
            let ghost before = self.adds_view();
            proof {
                other.lemma_add_value(i as int);
            }
            if !self.has_add(&other.adds[i].0, &other.adds[i].1) {
                let k = other.adds[i].0.copy_key();
                let v = other.adds[i].2.clone();
                self.add(k, other.adds[i].1, v);
            }
            proof {
                let q = add_key(other.adds@[i as int]);
                assert forall|p: (K::V, Dot)| #[trigger] self.adds_view().contains_key(p) <==> (mine.contains_key(p)
                    || exists|j: int| 0 <= j < i + 1 && #[trigger] add_key(other.adds@[j]) == p) by {
                    if p == q {
                        assert(add_key(other.adds@[i as int]) == p);
                    } else if exists|j: int| 0 <= j < i + 1 && #[trigger] add_key(other.adds@[j]) == p {
                        let j = choose|j: int| 0 <= j < i + 1 && #[trigger] add_key(other.adds@[j]) == p;
                        assert(j < i);
                    }
                }
            }
            i = i + 1;
        }
        proof {
            assert forall|p: (K::V, Dot)| #[trigger] self.adds_view().contains_key(p) <==> join_adds(mine, theirs).contains_key(p) by {
                if theirs.contains_key(p) {
                    let j = choose|j: int| 0 <= j < other.adds@.len() && add_key(other.adds@[j]) == p;
                    assert(add_key(other.adds@[j]) == p);
                }
            }
            assert(self.adds_view().dom() =~= join_adds(mine, theirs).dom());
        }
        let ghost rem_mine = self.removes_view();
        let mut i: usize = 0;
        while i < other.removes.len()
            invariant
                self.wf(),
                other.wf(),
                i <= other.removes@.len(),
                self.adds_view().dom() == join_adds(mine, theirs).dom(),
                forall|p: (K::V, Dot)| #[trigger] self.adds_view().contains_key(p) ==> cloned(
                    join_adds(mine, theirs)[p],
                    self.adds_view()[p],
                ),
                forall|p: (K::V, Dot)| #[trigger] mine.contains_key(p) ==> self.adds_view()[p] == mine[p],
                rem_mine == old(self).removes_view(),
                forall|p: (K::V, Dot)| #[trigger] self.removes_view().contains(p) <==> (rem_mine.contains(p)
                    || exists|j: int| 0 <= j < i && #[trigger] rem_key(other.removes@[j]) == p),
            decreases other.removes@.len() - i,
        {
            let k = other.removes[i].0.copy_key();
            self.insert_remove(k, other.removes[i].1);
            proof {
                let q = rem_key(other.removes@[i as int]);
                assert forall|p: (K::V, Dot)| #[trigger] self.removes_view().contains(p) <==> (rem_mine.contains(p)
                    || exists|j: int| 0 <= j < i + 1 && #[trigger] rem_key(other.removes@[j]) == p) by {
                    if p == q {
                        assert(rem_key(other.removes@[i as int]) == p);
                    } else if exists|j: int| 0 <= j < i + 1 && #[trigger] rem_key(other.removes@[j]) == p {
                        let j = choose|j: int| 0 <= j < i + 1 && #[trigger] rem_key(other.removes@[j]) == p;
                        assert(j < i);
                    }
                }
            }
            i = i + 1;
        }
        proof {
            assert forall|p: (K::V, Dot)| #[trigger] self.removes_view().contains(p) <==> rem_mine.union(other.removes_view()).contains(p) by {
                if other.removes_view().contains(p) {
                    let j = choose|j: int| 0 <= j < other.removes@.len() && rem_key(other.removes@[j]) == p;
                    assert(rem_key(other.removes@[j]) == p);
                }
            }
            assert(self.removes_view() =~= rem_mine.union(other.removes_view()));
        }
    }
}

/// Hand-written rather than derived: a derive would demand `K: Default, V: Default`,
/// which an empty map plainly does not need.
impl<K: OrdKey, V: Clone> Default for OrMap<K, V> {
    fn default() -> (m: Self)
        ensures
            m.wf(),
            m.adds_view() == Map::<(K::V, Dot), V>::empty(),
            m.removes_view() == Set::<(K::V, Dot)>::empty(),
    {
        Self::new()
    }
}

/// Whether the add `(k, d)` survives in a state holding `adds` and `removes`.
pub open spec fn visible_in<KV, V>(adds: Map<(KV, Dot), V>, removes: Set<(KV, Dot)>, k: KV, d: Dot) -> bool {
    adds.contains_key((k, d)) && !removes.contains((k, d))
}

/// Merging is commutative: two replicas that pull from each other hold the same adds
/// and the same removals, whichever merged first. The one requirement is that a dot
/// names one add, so both sides agree on the value of any dot they share.
pub proof fn lemma_merge_commutes<KV, V>(
    a_adds: Map<(KV, Dot), V>,
    a_removes: Set<(KV, Dot)>,
    b_adds: Map<(KV, Dot), V>,
    b_removes: Set<(KV, Dot)>,
)
    requires
        forall|p: (KV, Dot)| a_adds.contains_key(p) && b_adds.contains_key(p) ==> a_adds[p] == b_adds[p],
    ensures
        join_adds(a_adds, b_adds) == join_adds(b_adds, a_adds),
        a_removes.union(b_removes) == b_removes.union(a_removes),
{
    assert(join_adds(a_adds, b_adds) =~= join_adds(b_adds, a_adds));
    assert(a_removes.union(b_removes) =~= b_removes.union(a_removes));
}

/// Merging is associative: folding three replicas together in any grouping gives one
/// state.
pub proof fn lemma_merge_associates<KV, V>(
    a_adds: Map<(KV, Dot), V>,
    a_removes: Set<(KV, Dot)>,
    b_adds: Map<(KV, Dot), V>,
    b_removes: Set<(KV, Dot)>,
    c_adds: Map<(KV, Dot), V>,
    c_removes: Set<(KV, Dot)>,
)
    ensures
        join_adds(join_adds(a_adds, b_adds), c_adds) == join_adds(a_adds, join_adds(b_adds, c_adds)),
        a_removes.union(b_removes).union(c_removes) == a_removes.union(b_removes.union(c_removes)),
{
    assert(join_adds(join_adds(a_adds, b_adds), c_adds) =~= join_adds(a_adds, join_adds(b_adds, c_adds)));
    assert(a_removes.union(b_removes).union(c_removes) =~= a_removes.union(b_removes.union(c_removes)));
}

/// Merging a state into itself, or merging the same state twice, changes nothing.
pub proof fn lemma_merge_idempotent<KV, V>(
    a_adds: Map<(KV, Dot), V>,
    a_removes: Set<(KV, Dot)>,
    b_adds: Map<(KV, Dot), V>,
    b_removes: Set<(KV, Dot)>,
)
    ensures
        join_adds(a_adds, a_adds) == a_adds,
        a_removes.union(a_removes) == a_removes,
        join_adds(join_adds(a_adds, b_adds), b_adds) == join_adds(a_adds, b_adds),
        a_removes.union(b_removes).union(b_removes) == a_removes.union(b_removes),
{
    assert(join_adds(a_adds, a_adds) =~= a_adds);
    assert(a_removes.union(a_removes) =~= a_removes);
    assert(join_adds(join_adds(a_adds, b_adds), b_adds) =~= join_adds(a_adds, b_adds));
    assert(a_removes.union(b_removes).union(b_removes) =~= a_removes.union(b_removes));
}

/// The state `add` leaves behind (see the `ensures` of `OrMap::add`).
pub open spec fn after_add<KV, V>(s: (Map<(KV, Dot), V>, Set<(KV, Dot)>), p: (KV, Dot), v: V) -> (Map<(KV, Dot), V>, Set<(KV, Dot)>) {
    (s.0.insert(p, v), s.1)
}

/// The state `remove_dots` leaves behind (see the `ensures` of `OrMap::remove_dots`).
pub open spec fn after_removal<KV, V>(s: (Map<(KV, Dot), V>, Set<(KV, Dot)>), removed: Set<(KV, Dot)>) -> (Map<(KV, Dot), V>, Set<(KV, Dot)>) {
    (s.0, s.1.union(removed))
}

/// An add and a removal commute: whichever arrives first, a replica ends in the same
/// state, and an add whose dot the removal named does not survive — even when the
/// removal arrived before the add it refers to.
pub proof fn lemma_add_and_removal_commute<KV, V>(
    s: (Map<(KV, Dot), V>, Set<(KV, Dot)>),
    k: KV,
    d: Dot,
    v: V,
    removed: Set<(KV, Dot)>,
)
    ensures
        after_add(after_removal(s, removed), (k, d), v) == after_removal(after_add(s, (k, d), v), removed),
        removed.contains((k, d)) ==> ({
            let t = after_add(after_removal(s, removed), (k, d), v);
            !visible_in(t.0, t.1, k, d)
        }),
{
}

/// A visible add stays visible through a merge unless the other replica removed it, and
/// a removal on either side hides it: merge never resurrects what was removed.
pub proof fn lemma_merge_visibility<KV, V>(
    a_adds: Map<(KV, Dot), V>,
    a_removes: Set<(KV, Dot)>,
    b_adds: Map<(KV, Dot), V>,
    b_removes: Set<(KV, Dot)>,
    k: KV,
    d: Dot,
)
    ensures
        visible_in(join_adds(a_adds, b_adds), a_removes.union(b_removes), k, d) <==> (
        (a_adds.contains_key((k, d)) || b_adds.contains_key((k, d))) && !a_removes.contains((k, d))
            && !b_removes.contains((k, d))),
{
}

} // verus!
