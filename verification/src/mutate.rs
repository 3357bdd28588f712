//! How each namespace operation changes the records it touches, once they are loaded.
//!
//! Every edit is expressed in CRDT terms, an add under the operation's own dot or a
//! removal of exactly the dots its author observed, so that replicas applying the same
//! operations in any order reach the same directories.

use vstd::prelude::*;
use crate::inode::{dot_for_op, inode_for_op, inode_for_op_spec, OpId};
use crate::lww::{key_lt, lww_join, LwwReg};
use crate::namespace::{name_verdict, validate_name, AttrState, ContentState, DirEntryValue, InodeRecord, NameError};
use crate::object::EntryType;
use crate::or_map::{dot_lt, Dot, OrMap};

verus! {

/// The dot each observed operation stands for.
pub open spec fn op_dots(ops: Seq<OpId>) -> Seq<Dot> {
    ops.map_values(|o: OpId| Dot { device_id: o.device_id, counter: o.counter })
}

/// The dots of the operations an author observed.
pub fn dots_for_ops(ops: &Vec<OpId>) -> (d: Vec<Dot>)
    ensures
        d@ == op_dots(ops@),
{
    let mut d: Vec<Dot> = Vec::new();
    let mut i: usize = 0;
    while i < ops.len()
        invariant
            i <= ops@.len(),
            d@ == op_dots(ops@.subrange(0, i as int)),
        decreases ops@.len() - i,
    {
        d.push(dot_for_op(ops[i]));
        i = i + 1;
        assert(d@ =~= op_dots(ops@.subrange(0, i as int)));
    }
    assert(ops@.subrange(0, i as int) =~= ops@);
    d
}

/// What a rename finds to move under its old name.
#[derive(Debug, Clone, Copy, PartialEq, Eq, Structural)]
pub enum RenameSource {
    /// The observed binding with the highest dot: move it.
    Move { dot: Dot, value: DirEntryValue },
    /// Nothing to move, and nothing outstanding could change that.
    Nothing,
    /// The creation the rename observed has not arrived here yet.
    NotYetCreated,
}

/// The last of `survivors`, in the order given, whose dot is among `observed`.
pub open spec fn last_observed(survivors: Seq<(Dot, DirEntryValue)>, observed: Seq<Dot>) -> Option<(Dot, DirEntryValue)>
    decreases survivors.len(),
{
    if survivors.len() == 0 {
        None
    } else if observed.contains(survivors.last().0) {
        Some(survivors.last())
    } else {
        last_observed(survivors.drop_last(), observed)
    }
}

/// The rename's source among the surviving bindings of the old name.
pub open spec fn rename_source_spec(survivors: Seq<(Dot, DirEntryValue)>, observed: Seq<Dot>) -> RenameSource {
    match last_observed(survivors, observed) {
        Some((dot, value)) => RenameSource::Move { dot, value },
        None => if observed.len() == 0 {
            RenameSource::Nothing
        } else {
            RenameSource::NotYetCreated
        },
    }
}

/// The chosen survivor is observed, present, and no later survivor is observed; with
/// survivors in dot order, that makes its dot the highest observed one.
pub proof fn lemma_last_observed_is_highest(survivors: Seq<(Dot, DirEntryValue)>, observed: Seq<Dot>)
    requires
        forall|i: int, j: int| 0 <= i < j < survivors.len() ==> dot_lt(#[trigger] survivors[i].0, #[trigger] survivors[j].0),
    ensures
        last_observed(survivors, observed) matches Some(p) ==> {
            &&& observed.contains(p.0)
            &&& survivors.contains(p)
            &&& forall|k: int| 0 <= k < survivors.len() && observed.contains(#[trigger] survivors[k].0) ==> survivors[k].0 == p.0
                || dot_lt(survivors[k].0, p.0)
        },
        last_observed(survivors, observed) is None ==> forall|k: int| 0 <= k < survivors.len() ==> !observed.contains(
            #[trigger] survivors[k].0,
        ),
    decreases survivors.len(),
{
    if survivors.len() > 0 {
        let s0 = survivors.drop_last();
        let n = survivors.len() - 1;
        assert forall|k: int| 0 <= k < s0.len() implies #[trigger] s0[k] == survivors[k] by {}
        assert forall|i: int, j: int| 0 <= i < j < s0.len() implies dot_lt(#[trigger] s0[i].0, #[trigger] s0[j].0) by {
            assert(s0[i] == survivors[i]);
            assert(s0[j] == survivors[j]);
        }
        lemma_last_observed_is_highest(s0, observed);
        if observed.contains(survivors.last().0) {
            assert(survivors[n] == survivors.last());
            assert(survivors.contains(survivors.last()));
            assert forall|k: int| 0 <= k < survivors.len() && observed.contains(#[trigger] survivors[k].0) implies survivors[k].0
                == survivors.last().0 || dot_lt(survivors[k].0, survivors.last().0) by {
                if k < n {
                    assert(dot_lt(survivors[k].0, survivors[n].0));
                }
            }
        } else {
            assert(last_observed(survivors, observed) == last_observed(s0, observed));
            if let Some(p) = last_observed(s0, observed) {
                assert(s0.contains(p));
                let j = choose|j: int| 0 <= j < s0.len() && s0[j] == p;
                assert(survivors[j] == p);
                assert forall|k: int| 0 <= k < survivors.len() && observed.contains(#[trigger] survivors[k].0) implies survivors[k].0
                    == p.0 || dot_lt(survivors[k].0, p.0) by {
                    if k < n {
                        assert(s0[k] == survivors[k]);
                    } else {
                        assert(survivors[k] == survivors.last());
                    }
                }
            } else {
                assert forall|k: int| 0 <= k < survivors.len() implies !observed.contains(#[trigger] survivors[k].0) by {
                    if k < n {
                        assert(s0[k] == survivors[k]);
                    } else {
                        assert(survivors[k] == survivors.last());
                    }
                }
            }
        }
    }
}

/// Finds what a rename moves: the binding of the old name, among `survivors`, that the
/// author observed, taking the highest dot when several were. When none is here, the
/// rename has nothing to do if it observed nothing, and must wait otherwise: the
/// creation it observed has not arrived.
///
/// Choosing by the author's dots rather than whatever ranks highest here keeps every
/// replica moving the same inode when a concurrent creation reused the name.
pub fn rename_source(survivors: &Vec<(Dot, DirEntryValue)>, observed: &Vec<Dot>) -> (r: RenameSource)
    ensures
        r == rename_source_spec(survivors@, observed@),
{
    let mut i: usize = survivors.len();
    assert(survivors@.subrange(0, i as int) =~= survivors@);
    while i > 0
        invariant
            i <= survivors@.len(),
            last_observed(survivors@, observed@) == last_observed(survivors@.subrange(0, i as int), observed@),
        decreases i,
    {
        let (dot, value) = survivors[i - 1];
        let ghost pre = survivors@.subrange(0, i as int);
        assert(pre.last() == survivors@[i - 1]);
        if dot_in(observed, &dot) {
            return RenameSource::Move { dot, value };
        }
        assert(pre.drop_last() =~= survivors@.subrange(0, i - 1));
        i = i - 1;
    }
    assert(survivors@.subrange(0, 0) =~= Seq::<(Dot, DirEntryValue)>::empty());
    if observed.len() == 0 {
        RenameSource::Nothing
    } else {
        RenameSource::NotYetCreated
    }
}

/// Whether `d` is among `dots`.
fn dot_in(dots: &Vec<Dot>, d: &Dot) -> (r: bool)
    ensures
        r == dots@.contains(*d),
{
    let mut i: usize = 0;
    while i < dots.len()
        invariant
            i <= dots@.len(),
            forall|j: int| 0 <= j < i ==> dots@[j] != *d,
        decreases dots@.len() - i,
    {
        if dots[i].device_id == d.device_id && dots[i].counter == d.counter {
            assert(dots@[i as int] == *d);
            return true;
        }
        i = i + 1;
    }
    false
}

/// The binding a moved entry gets at its new name: the same inode and kind, stamped
/// with the rename's time.
pub fn moved_value(entry: DirEntryValue, time_ms: u64) -> (v: DirEntryValue)
    ensures
        v == (DirEntryValue { inode_id: entry.inode_id, entry_type: entry.entry_type, created_unix_ms: time_ms }),
{
    DirEntryValue { inode_id: entry.inode_id, entry_type: entry.entry_type, created_unix_ms: time_ms }
}

/// The removals recording that the bindings of `name` under `dots` are gone.
pub open spec fn removed_bindings(name: Seq<char>, dots: Seq<Dot>) -> Set<(Seq<char>, Dot)> {
    Set::new(|p: (Seq<char>, Dot)| p.0 == name && dots.contains(p.1))
}

/// A rename within one directory: the observed bindings of `old_name` are removed and
/// `value` is bound to `new_name` under the rename's own dot.
pub fn rename_within(
    map: &mut OrMap<String, DirEntryValue>,
    old_name: &String,
    dots: Vec<Dot>,
    new_name: String,
    dot: Dot,
    value: DirEntryValue,
)
    requires
        old(map).wf(),
    ensures
        final(map).wf(),
        final(map).adds_view() == old(map).adds_view().insert((new_name@, dot), value),
        final(map).removes_view() == old(map).removes_view().union(removed_bindings(old_name@, dots@)),
{
    let ghost d = dots@;
    map.remove_dots(old_name, dots);
    assert(Set::new(|p: (Seq<char>, Dot)| p.0 == old_name@ && d.contains(p.1)) =~= removed_bindings(old_name@, d));
    map.add(new_name, dot, value);
}

/// A rename between two directories: the observed bindings of `old_name` leave
/// `source`, and `value` is bound to `new_name` in `dest` under the rename's own dot.
pub fn rename_across(
    source: &mut OrMap<String, DirEntryValue>,
    dest: &mut OrMap<String, DirEntryValue>,
    old_name: &String,
    dots: Vec<Dot>,
    new_name: String,
    dot: Dot,
    value: DirEntryValue,
)
    requires
        old(source).wf(),
        old(dest).wf(),
    ensures
        final(source).wf(),
        final(dest).wf(),
        final(source).adds_view() == old(source).adds_view(),
        final(source).removes_view() == old(source).removes_view().union(removed_bindings(old_name@, dots@)),
        final(dest).adds_view() == old(dest).adds_view().insert((new_name@, dot), value),
        final(dest).removes_view() == old(dest).removes_view(),
{
    let ghost d = dots@;
    source.remove_dots(old_name, dots);
    assert(Set::new(|p: (Seq<char>, Dot)| p.0 == old_name@ && d.contains(p.1)) =~= removed_bindings(old_name@, d));
    dest.add(new_name, dot, value);
}

/// An unlink: exactly the bindings of `name` its author observed are removed. They
/// need not have arrived yet; the removal holds once they do.
pub fn unlink_observed(map: &mut OrMap<String, DirEntryValue>, name: &String, observed: &Vec<OpId>)
    requires
        old(map).wf(),
    ensures
        final(map).wf(),
        final(map).adds_view() == old(map).adds_view(),
        final(map).removes_view() == old(map).removes_view().union(removed_bindings(name@, op_dots(observed@))),
{
    let dots = dots_for_ops(observed);
    map.remove_dots(name, dots);
    assert(Set::new(|p: (Seq<char>, Dot)| p.0 == name@ && op_dots(observed@).contains(p.1)) =~= removed_bindings(
        name@,
        op_dots(observed@),
    ));
}

/// A creation by operation `op` at `time_ms`: the inode the operation allocates is
/// bound to `name` in the parent's map under the operation's dot, and its fresh record
/// is returned with the inode id.
pub fn create_entry(map: &mut OrMap<String, DirEntryValue>, name: String, op: OpId, time_ms: u64, mode: u32, kind: EntryType) -> (r: (
    u128,
    InodeRecord,
))
    requires
        old(map).wf(),
    ensures
        final(map).wf(),
        r.0 == inode_for_op_spec(op),
        final(map).adds_view() == old(map).adds_view().insert(
            (name@, Dot { device_id: op.device_id, counter: op.counter }),
            DirEntryValue { inode_id: r.0, entry_type: kind, created_unix_ms: time_ms },
        ),
        final(map).removes_view() == old(map).removes_view(),
        r.1.kind == kind,
        r.1.content.value == (ContentState { node_hash: None, size: 0, mtime_unix_ms: time_ms }),
        r.1.content.key() == (time_ms, op.device_id, op.counter),
        r.1.attrs.value == (AttrState { mode, uid: 0, gid: 0 }),
        r.1.attrs.key() == (time_ms, op.device_id, op.counter),
        r.1.ctime_unix_ms == time_ms,
{
    let inode = inode_for_op(op);
    let record = InodeRecord::new(kind, mode, time_ms, op.device_id, op.counter);
    map.add(name, dot_for_op(op), DirEntryValue { inode_id: inode, entry_type: kind, created_unix_ms: time_ms });
    (inode, record)
}

/// The attributes a set-attribute operation writes: each given field replaces the
/// current one, the others are kept.
pub open spec fn attrs_after(current: AttrState, mode: Option<u32>, uid: Option<u32>, gid: Option<u32>) -> AttrState {
    AttrState {
        mode: match mode {
            Some(m) => m,
            None => current.mode,
        },
        uid: match uid {
            Some(u) => u,
            None => current.uid,
        },
        gid: match gid {
            Some(g) => g,
            None => current.gid,
        },
    }
}

/// A set-attribute operation changes only what it names. Whatever the register held,
/// an attribute the operation leaves out (`None`) keeps its previous value; when the
/// operation outranks the register, each attribute it names takes the given value;
/// when it does not, nothing changes at all.
pub proof fn lemma_setattr_changes_only_what_it_names(
    attrs: LwwReg<AttrState>,
    mode: Option<u32>,
    uid: Option<u32>,
    gid: Option<u32>,
    time_ms: u64,
    device: u128,
    counter: u64,
)
    ensures
        ({
            let after = lww_join(
                attrs,
                LwwReg { value: attrs_after(attrs.value, mode, uid, gid), ts: time_ms, writer_id: device, seq: counter },
            ).value;
            let wins = key_lt(attrs.key(), (time_ms, device, counter));
            &&& (mode is None ==> after.mode == attrs.value.mode)
            &&& (uid is None ==> after.uid == attrs.value.uid)
            &&& (gid is None ==> after.gid == attrs.value.gid)
            &&& (wins ==> (mode matches Some(m) ==> after.mode == m))
            &&& (wins ==> (uid matches Some(u) ==> after.uid == u))
            &&& (wins ==> (gid matches Some(g) ==> after.gid == g))
            &&& (!wins ==> after == attrs.value)
        }),
{
}

/// Applies a set-attribute operation stamped `(time_ms, device, counter)` to an inode:
/// the new attributes are merged into the register, so a later write already applied
/// keeps winning.
pub fn apply_setattr(
    record: &mut InodeRecord,
    mode: Option<u32>,
    uid: Option<u32>,
    gid: Option<u32>,
    time_ms: u64,
    device: u128,
    counter: u64,
)
    ensures
        final(record).kind == old(record).kind,
        final(record).content == old(record).content,
        final(record).ctime_unix_ms == old(record).ctime_unix_ms,
        final(record).attrs == lww_join(
            old(record).attrs,
            LwwReg { value: attrs_after(old(record).attrs.value, mode, uid, gid), ts: time_ms, writer_id: device, seq: counter },
        ),
{
    let current = record.attrs.value;
    let incoming = LwwReg::new(
        AttrState {
            mode: match mode {
                Some(m) => m,
                None => current.mode,
            },
            uid: match uid {
                Some(u) => u,
                None => current.uid,
            },
            gid: match gid {
                Some(g) => g,
                None => current.gid,
            },
        },
        time_ms,
        device,
        counter,
    );
    record.attrs.merge(&incoming);
}

/// Applies the content a write produced, stamped `(time_ms, device, counter)`: the new
/// state is merged into the content register, so a concurrent write that outranks it
/// and was applied first stays.
pub fn apply_content(record: &mut InodeRecord, node_hash: [u8; 32], new_size: u64, time_ms: u64, device: u128, counter: u64)
    ensures
        final(record).kind == old(record).kind,
        final(record).attrs == old(record).attrs,
        final(record).ctime_unix_ms == old(record).ctime_unix_ms,
        final(record).content == lww_join(
            old(record).content,
            LwwReg {
                value: ContentState { node_hash: Some(node_hash), size: new_size, mtime_unix_ms: time_ms },
                ts: time_ms,
                writer_id: device,
                seq: counter,
            },
        ),
{
    let incoming = LwwReg::new(
        ContentState { node_hash: Some(node_hash), size: new_size, mtime_unix_ms: time_ms },
        time_ms,
        device,
        counter,
    );
    record.content.merge(&incoming);
}

/// Why a namespace operation has to wait for other operations to arrive.
#[derive(Debug, Clone, Copy, PartialEq, Eq, Structural)]
pub enum Wait {
    /// The parent directory does not exist here yet, or is not a directory.
    Parent,
    /// A rename's source directory does not exist here yet, or is not a directory.
    SourceParent,
    /// A rename's destination directory does not exist here yet, or is not a directory.
    DestParent,
    /// The creation a rename observed has not arrived.
    NotYetCreated,
}

/// What a rename does, its checks made in order.
#[derive(Debug, Clone, Copy, PartialEq, Eq, Structural)]
pub enum RenameStep {
    /// Park the rename until what it needs arrives.
    Wait(Wait),
    /// Nothing to move: the rename is done.
    Nothing,
    /// Move this binding.
    Move { dot: Dot, value: DirEntryValue },
}

/// The rename decision: the new name must be valid, both parents must be directories
/// here, then the source is chosen by the author's observed dots.
pub open spec fn rename_plan_spec(
    new_name: Seq<char>,
    old_parent_is_dir: bool,
    new_parent_is_dir: bool,
    survivors: Seq<(Dot, DirEntryValue)>,
    observed: Seq<Dot>,
) -> Result<RenameStep, NameError> {
    match name_verdict(new_name) {
        Err(e) => Err(e),
        Ok(_) => if !old_parent_is_dir {
            Ok(RenameStep::Wait(Wait::SourceParent))
        } else if !new_parent_is_dir {
            Ok(RenameStep::Wait(Wait::DestParent))
        } else {
            match rename_source_spec(survivors, observed) {
                RenameSource::Move { dot, value } => Ok(RenameStep::Move { dot, value }),
                RenameSource::Nothing => Ok(RenameStep::Nothing),
                RenameSource::NotYetCreated => Ok(RenameStep::Wait(Wait::NotYetCreated)),
            }
        },
    }
}

/// Decides a rename to `new_name`, given whether each parent is a directory here and
/// the surviving bindings of the old name. A directory that moves must then not be
/// moved beneath itself, which the caller checks against the tree.
pub fn plan_rename(
    new_name: &str,
    old_parent_is_dir: bool,
    new_parent_is_dir: bool,
    survivors: &Vec<(Dot, DirEntryValue)>,
    observed: &Vec<Dot>,
) -> (r: Result<RenameStep, NameError>)
    ensures
        r == rename_plan_spec(new_name@, old_parent_is_dir, new_parent_is_dir, survivors@, observed@),
{
    match validate_name(new_name) {
        Err(e) => Err(e),
        Ok(()) => {
            if !old_parent_is_dir {
                Ok(RenameStep::Wait(Wait::SourceParent))
            } else if !new_parent_is_dir {
                Ok(RenameStep::Wait(Wait::DestParent))
            } else {
                match rename_source(survivors, observed) {
                    RenameSource::Move { dot, value } => Ok(RenameStep::Move { dot, value }),
                    RenameSource::Nothing => Ok(RenameStep::Nothing),
                    RenameSource::NotYetCreated => Ok(RenameStep::Wait(Wait::NotYetCreated)),
                }
            }
        },
    }
}

/// Decides a creation of `name`: the name must be valid, and the parent must be a
/// directory here or the creation waits. `Ok(None)` means go ahead.
pub fn plan_create(name: &str, parent_is_dir: bool) -> (r: Result<Option<Wait>, NameError>)
    ensures
        r == (match name_verdict(name@) {
            Err(e) => Err(e),
            Ok(_) => if parent_is_dir {
                Ok(None)
            } else {
                Ok(Some(Wait::Parent))
            },
        }),
{
    match validate_name(name) {
        Err(e) => Err(e),
        Ok(()) => {
            if parent_is_dir {
                Ok(None)
            } else {
                Ok(Some(Wait::Parent))
            }
        },
    }
}

/// An unlink removes only the bindings its author observed: any other binding, such
/// as a concurrent creation under the same name, stays exactly as visible as it was.
pub proof fn lemma_unlink_spares_unobserved(
    before: OrMap<String, DirEntryValue>,
    after: OrMap<String, DirEntryValue>,
    name: Seq<char>,
    observed: Seq<Dot>,
    k: Seq<char>,
    d: Dot,
)
    requires
        after.adds_view() == before.adds_view(),
        after.removes_view() == before.removes_view().union(removed_bindings(name, observed)),
        !(k == name && observed.contains(d)),
    ensures
        after.visible(k, d) == before.visible(k, d),
{
}

/// An unlink that arrives before the creation it observed still wins: a binding whose
/// removal is already recorded stays invisible when its add arrives.
pub proof fn lemma_early_unlink_still_wins(
    before: OrMap<String, DirEntryValue>,
    after: OrMap<String, DirEntryValue>,
    name: Seq<char>,
    d: Dot,
    value: DirEntryValue,
)
    requires
        before.removes_view().contains((name, d)),
        after.adds_view() == before.adds_view().insert((name, d), value),
        after.removes_view() == before.removes_view(),
    ensures
        !after.visible(name, d),
{
}

/// A creation binds its name visibly unless that very binding was already removed, and
/// leaves every other binding as it was.
pub proof fn lemma_creation_is_visible(
    before: OrMap<String, DirEntryValue>,
    after: OrMap<String, DirEntryValue>,
    name: Seq<char>,
    d: Dot,
    value: DirEntryValue,
    k: Seq<char>,
    e: Dot,
)
    requires
        after.adds_view() == before.adds_view().insert((name, d), value),
        after.removes_view() == before.removes_view(),
    ensures
        after.visible(name, d) == !before.removes_view().contains((name, d)),
        (k, e) != (name, d) ==> after.visible(k, e) == before.visible(k, e),
{
}

/// Operation ids are ordered by device, then counter.
pub open spec fn op_lt(a: OpId, b: OpId) -> bool {
    a.device_id < b.device_id || (a.device_id == b.device_id && a.counter < b.counter)
}

/// The operation that made each surviving binding: a dot is exactly the id of the
/// operation that added the entry.
pub open spec fn survivor_ops(survivors: Seq<(Dot, DirEntryValue)>) -> Seq<OpId> {
    survivors.map_values(|p: (Dot, DirEntryValue)| OpId { device_id: p.0.device_id, counter: p.0.counter })
}

/// What a removal or rename of a name records as observed: the operations that created
/// the bindings visible now, sorted, so that two nodes building it from the same view
/// produce identical operations.
pub fn observed_ops(survivors: &Vec<(Dot, DirEntryValue)>) -> (r: Vec<OpId>)
    ensures
        forall|a: int, b: int| 0 <= a < b < r@.len() ==> !op_lt(#[trigger] r@[b], #[trigger] r@[a]),
        r@.to_multiset() == survivor_ops(survivors@).to_multiset(),
{
    let ghost all = survivor_ops(survivors@);
    let n = survivors.len();
    let mut out: Vec<OpId> = Vec::new();
    let mut i: usize = 0;
    proof {
        assert(all.subrange(0, 0) =~= Seq::<OpId>::empty());
        assert(out@ =~= Seq::<OpId>::empty());
    }
    while i < n
        invariant
            n == survivors@.len(),
            all == survivor_ops(survivors@),
            i <= n,
            forall|a: int, b: int| 0 <= a < b < out@.len() ==> !op_lt(#[trigger] out@[b], #[trigger] out@[a]),
            out@.to_multiset() == all.subrange(0, i as int).to_multiset(),
        decreases n - i,
    {
        let x = OpId { device_id: survivors[i].0.device_id, counter: survivors[i].0.counter };
        assert(all[i as int] == x);
        let mut p: usize = 0;
        while p < out.len() && !(x.device_id < out[p].device_id || (x.device_id == out[p].device_id && x.counter < out[p].counter))
            invariant
                p <= out@.len(),
                forall|j: int| 0 <= j < p ==> !op_lt(x, #[trigger] out@[j]),
            decreases out@.len() - p,
        {
            p = p + 1;
        }
        let ghost o0 = out@;
        out.insert(p, x);
        proof {
            assert(out@ =~= o0.insert(p as int, x));
            assert forall|a: int, b: int| 0 <= a < b < out@.len() implies !op_lt(#[trigger] out@[b], #[trigger] out@[a]) by {
                if a < p && b < p {
                    assert(out@[a] == o0[a] && out@[b] == o0[b]);
                } else if a < p && b == p {
                    assert(out@[a] == o0[a]);
                    assert(!op_lt(x, o0[a]));
                } else if a < p && b > p {
                    assert(out@[a] == o0[a] && out@[b] == o0[b - 1]);
                } else if a == p {
                    assert(out@[b] == o0[b - 1]);
                    assert(p < o0.len() ==> op_lt(x, o0[p as int]));
                    if b - 1 > p {
                        assert(!op_lt(o0[b - 1], o0[p as int]));
                    }
                } else {
                    assert(out@[a] == o0[a - 1] && out@[b] == o0[b - 1]);
                }
            }
            assert(all.subrange(0, i + 1) =~= all.subrange(0, i as int).push(x));
            vstd::seq_lib::to_multiset_insert(o0, p as int, x);
            vstd::seq_lib::to_multiset_build(all.subrange(0, i as int), x);
        }
        i = i + 1;
    }
    proof {
        assert(all.subrange(0, n as int) =~= all);
    }
    out
}

/// Applying the same namespace edit twice leaves a directory as applying it once: an
/// add under the same dot binds the same value again, and a removal records the same
/// dots again.
pub proof fn lemma_edits_are_idempotent(
    adds: Map<(Seq<char>, Dot), DirEntryValue>,
    removes: Set<(Seq<char>, Dot)>,
    name: Seq<char>,
    d: Dot,
    value: DirEntryValue,
    observed: Seq<Dot>,
)
    ensures
        adds.insert((name, d), value).insert((name, d), value) == adds.insert((name, d), value),
        removes.union(removed_bindings(name, observed)).union(removed_bindings(name, observed)) == removes.union(
            removed_bindings(name, observed),
        ),
{
    assert(adds.insert((name, d), value).insert((name, d), value) =~= adds.insert((name, d), value));
    assert(removes.union(removed_bindings(name, observed)).union(removed_bindings(name, observed)) =~= removes.union(
        removed_bindings(name, observed),
    ));
}

/// Namespace edits from different operations commute, so replicas applying the same
/// operations in different orders reach the same directory: adds under different dots,
/// removals, and an add beside a removal.
pub proof fn lemma_edits_commute(
    adds: Map<(Seq<char>, Dot), DirEntryValue>,
    removes: Set<(Seq<char>, Dot)>,
    k1: Seq<char>,
    d1: Dot,
    v1: DirEntryValue,
    k2: Seq<char>,
    d2: Dot,
    v2: DirEntryValue,
    n1: Seq<char>,
    o1: Seq<Dot>,
    n2: Seq<char>,
    o2: Seq<Dot>,
)
    requires
        d1 != d2,
    ensures
        adds.insert((k1, d1), v1).insert((k2, d2), v2) == adds.insert((k2, d2), v2).insert((k1, d1), v1),
        removes.union(removed_bindings(n1, o1)).union(removed_bindings(n2, o2)) == removes.union(removed_bindings(n2, o2)).union(
            removed_bindings(n1, o1),
        ),
{
    assert(adds.insert((k1, d1), v1).insert((k2, d2), v2) =~= adds.insert((k2, d2), v2).insert((k1, d1), v1));
    assert(removes.union(removed_bindings(n1, o1)).union(removed_bindings(n2, o2)) =~= removes.union(removed_bindings(n2, o2)).union(
        removed_bindings(n1, o1),
    ));
}

} // verus!
