//! Why replicas converge: the namespace state every directory edit builds on, and the
//! proof that it does not depend on the order operations were applied in.
//!
//! Every operation that touches the namespace does so by binding a value to a name in
//! a directory under the operation's own dot, or by recording that observed bindings of
//! a name are gone (see `mutate`). Over all directories those edits are inserts into
//! one map and unions into one set, and so a replica's namespace is determined by the
//! set of edits it has applied, whatever their order and however often each arrived.

use vstd::prelude::*;
use crate::inode::{OpId, inode_for_op_spec};
use crate::mutate::{removed_bindings, op_dots};
use crate::namespace::DirEntryValue;
use crate::object::EntryType;
use crate::or_map::{Dot, visible_listing};

verus! {

/// One edit an operation makes to the namespace.
pub enum NsEdit {
    /// `value` is bound to `name` in directory `dir` under `dot`.
    Bind { dir: u128, name: Seq<char>, dot: Dot, value: DirEntryValue },
    /// The bindings of `name` in `dir` under `dots` are gone.
    Unbind { dir: u128, name: Seq<char>, dots: Seq<Dot> },
}

/// The namespace a replica holds: every binding ever added, by directory, name and dot,
/// and every one recorded as removed.
pub struct Namespace {
    pub adds: Map<(u128, Seq<char>, Dot), DirEntryValue>,
    pub removes: Set<(u128, Seq<char>, Dot)>,
}

/// What directory `dir`'s map holds: its adds, by name and dot.
pub open spec fn dir_adds(ns: Namespace, dir: u128) -> Map<(Seq<char>, Dot), DirEntryValue> {
    Map::new(|p: (Seq<char>, Dot)| ns.adds.contains_key((dir, p.0, p.1)), |p: (Seq<char>, Dot)| ns.adds[(dir, p.0, p.1)])
}

/// What directory `dir`'s map has recorded as removed.
pub open spec fn dir_removes(ns: Namespace, dir: u128) -> Set<(Seq<char>, Dot)> {
    Set::new(|p: (Seq<char>, Dot)| ns.removes.contains((dir, p.0, p.1)))
}

/// The bindings `dots` of `name` in `dir`, as namespace keys.
pub open spec fn unbound_keys(dir: u128, name: Seq<char>, dots: Seq<Dot>) -> Set<(u128, Seq<char>, Dot)> {
    Set::new(|p: (u128, Seq<char>, Dot)| p.0 == dir && p.1 == name && dots.contains(p.2))
}

/// The namespace after one edit.
pub open spec fn apply_edit(ns: Namespace, e: NsEdit) -> Namespace {
    match e {
        NsEdit::Bind { dir, name, dot, value } => Namespace { adds: ns.adds.insert((dir, name, dot), value), removes: ns.removes },
        NsEdit::Unbind { dir, name, dots } => Namespace { adds: ns.adds, removes: ns.removes.union(unbound_keys(dir, name, dots)) },
    }
}

/// The namespace after `edits`, applied in order.
pub open spec fn apply_edits(ns: Namespace, edits: Seq<NsEdit>) -> Namespace
    decreases edits.len(),
{
    if edits.len() == 0 {
        ns
    } else {
        apply_edit(apply_edits(ns, edits.drop_last()), edits.last())
    }
}

/// Whether edit `e` binds `value` under the key `k`.
pub open spec fn binds(e: NsEdit, k: (u128, Seq<char>, Dot), value: DirEntryValue) -> bool {
    e matches NsEdit::Bind { dir, name, dot, value: v } && (dir, name, dot) == k && v == value
}

/// Whether edit `e` binds something under the key `k`.
pub open spec fn binds_key(e: NsEdit, k: (u128, Seq<char>, Dot)) -> bool {
    e matches NsEdit::Bind { dir, name, dot, .. } && (dir, name, dot) == k
}

/// Whether edit `e` records the key `k` as removed.
pub open spec fn unbinds(e: NsEdit, k: (u128, Seq<char>, Dot)) -> bool {
    e matches NsEdit::Unbind { dir, name, dots } && k.0 == dir && k.1 == name && dots.contains(k.2)
}

/// Two edits binding the same key bind the same value. This holds of the edits of any
/// set of operations: an operation binds under its own dot, so distinct operations
/// never share a key, and one operation always binds the same value.
pub open spec fn edits_agree(edits: Seq<NsEdit>) -> bool {
    forall|i: int, j: int| 0 <= i < edits.len() && 0 <= j < edits.len() && #[trigger] edits[i] is Bind && #[trigger] edits[j] is Bind
        && edits[i]->Bind_dir == edits[j]->Bind_dir && edits[i]->Bind_name == edits[j]->Bind_name && edits[i]->Bind_dot
        == edits[j]->Bind_dot ==> edits[i]->Bind_value == edits[j]->Bind_value
}

/// The value some edit of `edits` binds under `k`.
pub open spec fn bound_value(edits: Seq<NsEdit>, k: (u128, Seq<char>, Dot)) -> DirEntryValue {
    let i = choose|i: int| 0 <= i < edits.len() && binds_key(edits[i], k);
    edits[i]->Bind_value
}

/// Everything `edits` bind.
pub open spec fn bound_by(edits: Seq<NsEdit>) -> Map<(u128, Seq<char>, Dot), DirEntryValue> {
    Map::new(
        |k: (u128, Seq<char>, Dot)| exists|i: int| 0 <= i < edits.len() && binds_key(#[trigger] edits[i], k),
        |k: (u128, Seq<char>, Dot)| bound_value(edits, k),
    )
}

/// Everything `edits` record as removed.
pub open spec fn unbound_by(edits: Seq<NsEdit>) -> Set<(u128, Seq<char>, Dot)> {
    Set::new(|k: (u128, Seq<char>, Dot)| exists|i: int| 0 <= i < edits.len() && unbinds(#[trigger] edits[i], k))
}

/// Applying agreeing edits in order gives the starting namespace with everything they
/// bind added and everything they remove recorded.
proof fn lemma_closed_form(ns: Namespace, edits: Seq<NsEdit>)
    requires
        edits_agree(edits),
    ensures
        apply_edits(ns, edits).adds == ns.adds.union_prefer_right(bound_by(edits)),
        apply_edits(ns, edits).removes == ns.removes.union(unbound_by(edits)),
    decreases edits.len(),
{
    if edits.len() == 0 {
        assert(bound_by(edits) =~= Map::empty());
        assert(unbound_by(edits) =~= Set::empty());
        assert(ns.adds.union_prefer_right(bound_by(edits)) =~= ns.adds);
        assert(ns.removes.union(unbound_by(edits)) =~= ns.removes);
    } else {
        let init = edits.drop_last();
        let last = edits.last();
        let n = edits.len() - 1;
        assert forall|i: int, j: int|
            0 <= i < init.len() && 0 <= j < init.len() && #[trigger] init[i] is Bind && #[trigger] init[j] is Bind
                && init[i]->Bind_dir == init[j]->Bind_dir && init[i]->Bind_name == init[j]->Bind_name && init[i]->Bind_dot
                == init[j]->Bind_dot implies init[i]->Bind_value == init[j]->Bind_value by {
            assert(edits[i] == init[i] && edits[j] == init[j]);
        }
        lemma_closed_form(ns, init);
        let prev = apply_edits(ns, init);
        assert(edits[n] == last);
        match last {
            NsEdit::Bind { dir, name, dot, value } => {
                let key = (dir, name, dot);
                assert(bound_by(edits) =~= bound_by(init).insert(key, value)) by {
                    assert forall|k: (u128, Seq<char>, Dot)| bound_by(edits).contains_key(k) <==> bound_by(init).insert(
                        key,
                        value,
                    ).contains_key(k) by {
                        if bound_by(edits).contains_key(k) {
                            let i = choose|i: int| 0 <= i < edits.len() && binds_key(#[trigger] edits[i], k);
                            if i < n {
                                assert(init[i] == edits[i]);
                                assert(binds_key(init[i], k));
                            }
                        }
                        if bound_by(init).contains_key(k) {
                            let i = choose|i: int| 0 <= i < init.len() && binds_key(#[trigger] init[i], k);
                            assert(edits[i] == init[i]);
                            assert(binds_key(edits[i], k));
                        }
                        if k == key {
                            assert(binds_key(edits[n], k));
                        }
                    }
                    assert forall|k: (u128, Seq<char>, Dot)| #[trigger] bound_by(edits).contains_key(k) implies bound_by(edits)[k]
                        == bound_by(init).insert(key, value)[k] by {
                        let i = choose|i: int| 0 <= i < edits.len() && binds_key(edits[i], k);
                        assert(binds_key(edits[i], k));
                        if k == key {
                            assert(edits[i]->Bind_value == edits[n]->Bind_value);
                        } else {
                            assert(i < n);
                            assert(init[i] == edits[i]);
                            assert(binds_key(init[i], k));
                            let j = choose|j: int| 0 <= j < init.len() && binds_key(init[j], k);
                            assert(binds_key(init[j], k));
                            assert(edits[j] == init[j]);
                            assert(edits[i]->Bind_value == edits[j]->Bind_value);
                        }
                    }
                }
                assert(unbound_by(edits) =~= unbound_by(init)) by {
                    assert forall|k: (u128, Seq<char>, Dot)| unbound_by(edits).contains(k) implies unbound_by(init).contains(k) by {
                        let i = choose|i: int| 0 <= i < edits.len() && unbinds(#[trigger] edits[i], k);
                        assert(i != n);
                        assert(init[i] == edits[i]);
                        assert(unbinds(init[i], k));
                    }
                    assert forall|k: (u128, Seq<char>, Dot)| unbound_by(init).contains(k) implies unbound_by(edits).contains(k) by {
                        let i = choose|i: int| 0 <= i < init.len() && unbinds(#[trigger] init[i], k);
                        assert(edits[i] == init[i]);
                        assert(unbinds(edits[i], k));
                    }
                }
                assert(ns.adds.union_prefer_right(bound_by(init)).insert(key, value) =~= ns.adds.union_prefer_right(
                    bound_by(init).insert(key, value),
                ));
            },
            NsEdit::Unbind { dir, name, dots } => {
                assert(bound_by(edits) =~= bound_by(init)) by {
                    assert forall|k: (u128, Seq<char>, Dot)| bound_by(edits).contains_key(k) <==> bound_by(init).contains_key(k) by {
                        if bound_by(edits).contains_key(k) {
                            let i = choose|i: int| 0 <= i < edits.len() && binds_key(#[trigger] edits[i], k);
                            assert(i != n);
                            assert(init[i] == edits[i]);
                            assert(binds_key(init[i], k));
                        }
                        if bound_by(init).contains_key(k) {
                            let i = choose|i: int| 0 <= i < init.len() && binds_key(#[trigger] init[i], k);
                            assert(edits[i] == init[i]);
                            assert(binds_key(edits[i], k));
                        }
                    }
                    assert forall|k: (u128, Seq<char>, Dot)| #[trigger] bound_by(edits).contains_key(k) implies bound_by(edits)[k]
                        == bound_by(init)[k] by {
                        let i = choose|i: int| 0 <= i < edits.len() && binds_key(edits[i], k);
                        assert(binds_key(edits[i], k));
                        assert(i != n);
                        let j = choose|j: int| 0 <= j < init.len() && binds_key(init[j], k);
                        assert(binds_key(init[j], k));
                        assert(edits[j] == init[j]);
                        assert(edits[i]->Bind_value == edits[j]->Bind_value);
                    }
                }
                assert(unbound_by(edits) =~= unbound_by(init).union(unbound_keys(dir, name, dots))) by {
                    assert forall|k: (u128, Seq<char>, Dot)| unbound_by(edits).contains(k) <==> unbound_by(init).union(
                        unbound_keys(dir, name, dots),
                    ).contains(k) by {
                        if unbound_by(edits).contains(k) {
                            let i = choose|i: int| 0 <= i < edits.len() && unbinds(#[trigger] edits[i], k);
                            if i < n {
                                assert(init[i] == edits[i]);
                                assert(unbinds(init[i], k));
                            }
                        }
                        if unbound_by(init).contains(k) {
                            let i = choose|i: int| 0 <= i < init.len() && unbinds(#[trigger] init[i], k);
                            assert(edits[i] == init[i]);
                            assert(unbinds(edits[i], k));
                        }
                        if unbound_keys(dir, name, dots).contains(k) {
                            assert(unbinds(edits[n], k));
                        }
                    }
                }
                assert(ns.removes.union(unbound_by(init)).union(unbound_keys(dir, name, dots)) =~= ns.removes.union(
                    unbound_by(init).union(unbound_keys(dir, name, dots)),
                ));
            },
        }
    }
}

/// Edits in which each dot binds one value agree: so the edits of any set of
/// operations do, each binding under its own id the one value it carries.
pub proof fn lemma_operations_agree(edits: Seq<NsEdit>, value_of: spec_fn(Dot) -> DirEntryValue)
    requires
        forall|i: int| 0 <= i < edits.len() && #[trigger] edits[i] is Bind ==> edits[i]->Bind_value == value_of(edits[i]->Bind_dot),
    ensures
        edits_agree(edits),
{
}

/// Replicas converge. Two replicas that start from the same namespace and apply the
/// same edits (the same set: in any order, each any number of times) hold the same
/// namespace, so every directory lists the same entries on both. The one condition is
/// that two edits binding the same key bind the same value, which the edits of any set
/// of operations meet.
pub proof fn lemma_replicas_converge(ns: Namespace, first: Seq<NsEdit>, second: Seq<NsEdit>)
    requires
        edits_agree(first),
        forall|e: NsEdit| first.contains(e) <==> second.contains(e),
    ensures
        apply_edits(ns, first) == apply_edits(ns, second),
        forall|dir: u128, name: Seq<char>|
            visible_listing(dir_adds(apply_edits(ns, first), dir).dom(), dir_removes(apply_edits(ns, first), dir), name)
                == visible_listing(dir_adds(apply_edits(ns, second), dir).dom(), dir_removes(apply_edits(ns, second), dir), name),
{
    assert forall|i: int, j: int|
        0 <= i < second.len() && 0 <= j < second.len() && #[trigger] second[i] is Bind && #[trigger] second[j] is Bind
            && second[i]->Bind_dir == second[j]->Bind_dir && second[i]->Bind_name == second[j]->Bind_name
            && second[i]->Bind_dot == second[j]->Bind_dot implies second[i]->Bind_value == second[j]->Bind_value by {
        assert(second.contains(second[i]));
        assert(second.contains(second[j]));
        let a = choose|a: int| 0 <= a < first.len() && first[a] == second[i];
        let b = choose|b: int| 0 <= b < first.len() && first[b] == second[j];
        assert(first[a] is Bind && first[b] is Bind);
    }
    lemma_closed_form(ns, first);
    lemma_closed_form(ns, second);
    assert forall|k: (u128, Seq<char>, Dot)| bound_by(first).contains_key(k) <==> bound_by(second).contains_key(k) by {
        if bound_by(first).contains_key(k) {
            let i = choose|i: int| 0 <= i < first.len() && binds_key(#[trigger] first[i], k);
            assert(first.contains(first[i]));
            let j = choose|j: int| 0 <= j < second.len() && second[j] == first[i];
            assert(binds_key(second[j], k));
        }
        if bound_by(second).contains_key(k) {
            let i = choose|i: int| 0 <= i < second.len() && binds_key(#[trigger] second[i], k);
            assert(second.contains(second[i]));
            let j = choose|j: int| 0 <= j < first.len() && first[j] == second[i];
            assert(binds_key(first[j], k));
        }
    }
    assert forall|k: (u128, Seq<char>, Dot)| #[trigger] bound_by(first).contains_key(k) implies bound_by(first)[k]
        == bound_by(second)[k] by {
        let i = choose|i: int| 0 <= i < first.len() && binds_key(first[i], k);
        assert(binds_key(first[i], k));
        let j = choose|j: int| 0 <= j < second.len() && binds_key(second[j], k);
        assert(binds_key(second[j], k));
        assert(second.contains(second[j]));
        let a = choose|a: int| 0 <= a < first.len() && first[a] == second[j];
        assert(first[a] is Bind);
        assert(first[i]->Bind_value == first[a]->Bind_value);
    }
    assert(bound_by(first) =~= bound_by(second));
    assert forall|k: (u128, Seq<char>, Dot)| unbound_by(first).contains(k) <==> unbound_by(second).contains(k) by {
        if unbound_by(first).contains(k) {
            let i = choose|i: int| 0 <= i < first.len() && unbinds(#[trigger] first[i], k);
            assert(first.contains(first[i]));
            let j = choose|j: int| 0 <= j < second.len() && second[j] == first[i];
            assert(unbinds(second[j], k));
        }
        if unbound_by(second).contains(k) {
            let i = choose|i: int| 0 <= i < second.len() && unbinds(#[trigger] second[i], k);
            assert(second.contains(second[i]));
            let j = choose|j: int| 0 <= j < first.len() && first[j] == second[i];
            assert(unbinds(first[j], k));
        }
    }
    assert(unbound_by(first) =~= unbound_by(second));
    assert(apply_edits(ns, first).adds =~= apply_edits(ns, second).adds);
    assert(apply_edits(ns, first).removes =~= apply_edits(ns, second).removes);
}

// --- the edits of each operation -------------------------------------------------

/// The dot an operation binds under: its own id.
pub open spec fn op_dot(op: OpId) -> Dot {
    Dot { device_id: op.device_id, counter: op.counter }
}

/// A creation binds the inode it allocates to its name in the parent (what
/// `mutate::create_entry` does to the parent's map).
pub open spec fn create_edits(parent: u128, name: Seq<char>, op: OpId, time_ms: u64, kind: EntryType) -> Seq<NsEdit> {
    seq![
        NsEdit::Bind {
            dir: parent,
            name,
            dot: op_dot(op),
            value: DirEntryValue { inode_id: inode_for_op_spec(op), entry_type: kind, created_unix_ms: time_ms },
        },
    ]
}

/// An unlink removes the bindings of its name it observed (what
/// `mutate::unlink_observed` does).
pub open spec fn unlink_edits(parent: u128, name: Seq<char>, observed: Seq<OpId>) -> Seq<NsEdit> {
    seq![NsEdit::Unbind { dir: parent, name, dots: op_dots(observed) }]
}

/// A rename removes the observed bindings of the old name and binds the moved value to
/// the new name under its own dot (what `mutate::rename_within` and
/// `mutate::rename_across` do).
pub open spec fn rename_edits(
    old_parent: u128,
    old_name: Seq<char>,
    dots: Seq<Dot>,
    new_parent: u128,
    new_name: Seq<char>,
    op: OpId,
    value: DirEntryValue,
) -> Seq<NsEdit> {
    seq![
        NsEdit::Unbind { dir: old_parent, name: old_name, dots },
        NsEdit::Bind { dir: new_parent, name: new_name, dot: op_dot(op), value },
    ]
}

/// Each edit does to the directory it names exactly what the corresponding function of
/// `mutate` states of that directory's map, and leaves every other directory as it was.
pub proof fn lemma_edit_is_a_directory_edit(ns: Namespace, e: NsEdit, d: u128)
    ensures
        match e {
            NsEdit::Bind { dir, name, dot, value } => {
                &&& dir_adds(apply_edit(ns, e), d) == (if d == dir {
                    dir_adds(ns, d).insert((name, dot), value)
                } else {
                    dir_adds(ns, d)
                })
                &&& dir_removes(apply_edit(ns, e), d) == dir_removes(ns, d)
            },
            NsEdit::Unbind { dir, name, dots } => {
                &&& dir_adds(apply_edit(ns, e), d) == dir_adds(ns, d)
                &&& dir_removes(apply_edit(ns, e), d) == (if d == dir {
                    dir_removes(ns, d).union(removed_bindings(name, dots))
                } else {
                    dir_removes(ns, d)
                })
            },
        },
{
    match e {
        NsEdit::Bind { dir, name, dot, value } => {
            if d == dir {
                assert(dir_adds(apply_edit(ns, e), d) =~= dir_adds(ns, d).insert((name, dot), value));
            } else {
                assert(dir_adds(apply_edit(ns, e), d) =~= dir_adds(ns, d));
            }
            assert(dir_removes(apply_edit(ns, e), d) =~= dir_removes(ns, d));
        },
        NsEdit::Unbind { dir, name, dots } => {
            assert(dir_adds(apply_edit(ns, e), d) =~= dir_adds(ns, d));
            if d == dir {
                assert(dir_removes(apply_edit(ns, e), d) =~= dir_removes(ns, d).union(removed_bindings(name, dots)));
            } else {
                assert(dir_removes(apply_edit(ns, e), d) =~= dir_removes(ns, d));
            }
        },
    }
}

} // verus!
