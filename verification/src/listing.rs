//! What a directory looks like to a reader.
//!
//! When several replicas concurrently bound the same name, every binding survives in the
//! directory's map. Exactly one of them keeps the plain name, the one with the lowest
//! dot, which every replica agrees on; the rest are renamed with their conflict name.
//! No data is hidden, and the listing is sorted into canonical order.

use vstd::prelude::*;
use crate::conflicts::{conflict_name, conflict_name_spec};
use crate::namespace::DirEntryValue;
use crate::object::{DirEntry, EntryType, entries_sorted, entry_views, sort_dir_entries};
use crate::or_map::{Dot, OrMap, dot_lt, seq_has_dot};
use crate::scan::{chars_of, string_of};
use crate::text::{push_char, seq_lex_lt, lemma_lex_irreflexive};

verus! {

broadcast use vstd::seq_lib::group_to_multiset_ensures;

/// The entry one surviving binding of `name` shows as: the plain name for the first
/// (lowest-dot) survivor, its conflict name for any other.
pub open spec fn shown_entry(name: Seq<char>, first: bool, dot: Dot, value: DirEntryValue) -> (Seq<char>, u128, EntryType) {
    (if first {
        name
    } else {
        conflict_name_spec(name, dot.device_id, value.created_unix_ms)
    }, value.inode_id, value.entry_type)
}

/// The entries the survivors of one name show as, in survivor order.
pub open spec fn shown_survivors(name: Seq<char>, survivors: Seq<(Dot, DirEntryValue)>) -> Seq<(Seq<char>, u128, EntryType)> {
    Seq::new(survivors.len(), |j: int| shown_entry(name, j == 0, survivors[j].0, survivors[j].1))
}

/// The entries of every name, one name after another.
pub open spec fn shown_all(names: Seq<Seq<char>>, survivors: Seq<Seq<(Dot, DirEntryValue)>>) -> Seq<(Seq<char>, u128, EntryType)>
    decreases names.len(),
{
    if names.len() == 0 || survivors.len() == 0 {
        Seq::empty()
    } else {
        shown_all(names.drop_last(), survivors.drop_last()) + shown_survivors(names.last(), survivors.last())
    }
}

/// The views of names.
pub open spec fn name_views(names: Seq<String>) -> Seq<Seq<char>> {
    names.map_values(|s: String| s@)
}

/// The survivor lists as values.
pub open spec fn survivor_views(s: Seq<Vec<(Dot, DirEntryValue)>>) -> Seq<Seq<(Dot, DirEntryValue)>> {
    s.map_values(|v: Vec<(Dot, DirEntryValue)>| v@)
}

/// The listing of names and their survivors (as the map reports them): every survivor
/// shown, sorted into canonical order.
pub fn materialize_entries(names: &Vec<String>, survivors: &Vec<Vec<(Dot, DirEntryValue)>>) -> (r: Vec<DirEntry>)
    requires
        names@.len() == survivors@.len(),
    ensures
        entries_sorted(entry_views(r@)),
        entry_views(r@).to_multiset() == shown_all(name_views(names@), survivor_views(survivors@)).to_multiset(),
{
    let mut out: Vec<DirEntry> = Vec::new();
    let mut i: usize = 0;
    assert(entry_views(out@) =~= shown_all(name_views(names@).subrange(0, 0), survivor_views(survivors@).subrange(0, 0)));
    while i < names.len()
        invariant
            i <= names@.len(),
            names@.len() == survivors@.len(),
            entry_views(out@) == shown_all(name_views(names@).subrange(0, i as int), survivor_views(survivors@).subrange(0, i as int)),
        decreases names@.len() - i,
    {
        let name = &names[i];
        let list = &survivors[i];
        let ghost base = entry_views(out@);
        let mut j: usize = 0;
        while j < list.len()
            invariant
                j <= list@.len(),
                entry_views(out@) == base + shown_survivors(name@, list@).subrange(0, j as int),
            decreases list@.len() - j,
        {
            let (dot, value) = list[j];
            let entry_name = if j == 0 {
                name.clone()
            } else {
                conflict_name(name.as_str(), dot.device_id, value.created_unix_ms)
            };
            let ghost o0 = entry_views(out@);
            out.push(DirEntry { name: entry_name, inode_id: value.inode_id, entry_type: value.entry_type });
            assert(entry_views(out@) =~= o0.push(shown_entry(name@, j == 0, dot, value)));
            j = j + 1;
            assert(entry_views(out@) =~= base + shown_survivors(name@, list@).subrange(0, j as int));
        }
        proof {
            let ns = name_views(names@).subrange(0, i + 1);
            let ss = survivor_views(survivors@).subrange(0, i + 1);
            assert(ns.drop_last() =~= name_views(names@).subrange(0, i as int));
            assert(ss.drop_last() =~= survivor_views(survivors@).subrange(0, i as int));
            assert(ns.last() == name@);
            assert(ss.last() == list@);
            assert(shown_survivors(name@, list@).subrange(0, j as int) =~= shown_survivors(name@, list@));
        }
        i = i + 1;
    }
    proof {
        assert(name_views(names@).subrange(0, i as int) =~= name_views(names@));
        assert(survivor_views(survivors@).subrange(0, i as int) =~= survivor_views(survivors@));
    }
    sort_dir_entries(&mut out);
    out
}

/// The entry the binding `(k, d)` of a map shows as.
pub open spec fn shown_binding(m: OrMap<String, DirEntryValue>, k: Seq<char>, d: Dot) -> (Seq<char>, u128, EntryType) {
    shown_entry(k, lowest_visible(m, k, d), d, m.adds_view()[(k, d)])
}

/// Whether `x` is the entry some visible binding of the map shows as.
pub open spec fn shown_from(m: OrMap<String, DirEntryValue>, x: (Seq<char>, u128, EntryType)) -> bool {
    exists|k: Seq<char>, d: Dot| #[trigger] m.visible(k, d) && x == shown_binding(m, k, d)
}

/// Whether `d` is the lowest dot still visible under `k`.
pub open spec fn lowest_visible(m: OrMap<String, DirEntryValue>, k: Seq<char>, d: Dot) -> bool {
    m.visible(k, d) && forall|e: Dot| #[trigger] m.visible(k, e) ==> !dot_lt(e, d)
}

/// Resolves a directory's map into the entries a reader sees: one entry for every
/// binding still visible, the lowest-dot binding of each name under the plain name and
/// the others under their conflict names, in canonical order.
pub fn materialize_dir(map: &OrMap<String, DirEntryValue>) -> (r: Vec<DirEntry>)
    requires
        map.wf(),
    ensures
        entries_sorted(entry_views(r@)),
        forall|i: int| 0 <= i < r@.len() ==> shown_from(*map, #[trigger] entry_views(r@)[i]),
        forall|k: Seq<char>, d: Dot| #[trigger] map.visible(k, d) ==> entry_views(r@).contains(shown_binding(*map, k, d)),
        visible_bindings(*map).finite(),
        r@.len() == visible_bindings(*map).len(),
{
    let names = map.live_keys();
    let mut survivors: Vec<Vec<(Dot, DirEntryValue)>> = Vec::new();
    let mut i: usize = 0;
    while i < names.len()
        invariant
            map.wf(),
            i <= names@.len(),
            survivors@.len() == i,
            forall|a: int| 0 <= a < i ==> #[trigger] survivor_ok(*map, names@[a]@, survivors@[a]@),
        decreases names@.len() - i,
    {
        let all = map.get_all(&names[i]);
        proof {
            lemma_survivors_ok(*map, names@[i as int]@, all@);
        }
        survivors.push(all);
        i = i + 1;
    }
    let r = materialize_entries(&names, &survivors);
    proof {
        let ns = name_views(names@);
        let ss = survivor_views(survivors@);
        assert forall|a: int| 0 <= a < ns.len() implies #[trigger] survivor_ok(*map, ns[a], ss[a]) by {
            assert(survivor_ok(*map, names@[a]@, survivors@[a]@));
        }
        assert forall|k: Seq<char>, d: Dot| #[trigger] map.visible(k, d) implies exists|a: int| 0 <= a < ns.len() && ns[a] == k by {
            assert(map.is_live(k));
            assert(crate::or_map::seq_has_view(names@, k));
            let a = choose|a: int| 0 <= a < names@.len() && #[trigger] names@[a]@ == k;
            assert(ns[a] == k);
        }
        lemma_materialized(*map, ns, ss, entry_views(r@));
        assert forall|a: int, b: int| 0 <= a < b < ns.len() implies #[trigger] ns[a] != #[trigger] ns[b] by {
            assert(seq_lex_lt(names@[a]@, names@[b]@));
            lemma_lex_irreflexive(ns[a]);
        }
        lemma_pairs_count(*map, ns, ss);
        lemma_pairs_len(ns, ss);
        assert(entry_views(r@).to_multiset().len() == shown_all(ns, ss).to_multiset().len());
    }
    r
}

/// The facts `materialize_dir` promises, for a listing `rv` that holds the shown
/// entries of every live name.
proof fn lemma_materialized(
    m: OrMap<String, DirEntryValue>,
    ns: Seq<Seq<char>>,
    ss: Seq<Seq<(Dot, DirEntryValue)>>,
    rv: Seq<(Seq<char>, u128, EntryType)>,
)
    requires
        ns.len() == ss.len(),
        forall|a: int| 0 <= a < ns.len() ==> #[trigger] survivor_ok(m, ns[a], ss[a]),
        forall|k: Seq<char>, d: Dot| #[trigger] m.visible(k, d) ==> exists|a: int| 0 <= a < ns.len() && ns[a] == k,
        rv.to_multiset() == shown_all(ns, ss).to_multiset(),
    ensures
        forall|i: int| 0 <= i < rv.len() ==> shown_from(m, #[trigger] rv[i]),
        forall|k: Seq<char>, d: Dot| #[trigger] m.visible(k, d) ==> rv.contains(shown_binding(m, k, d)),
{
    let listing = shown_all(ns, ss);
    assert forall|i: int| 0 <= i < rv.len() implies shown_from(m, #[trigger] rv[i]) by {
        let x = rv[i];
        assert(rv.contains(x));
        vstd::seq_lib::to_multiset_contains(rv, x);
        vstd::seq_lib::to_multiset_contains(listing, x);
        lemma_listing_sound(m, ns, ss, x);
    }
    assert forall|k: Seq<char>, d: Dot| #[trigger] m.visible(k, d) implies rv.contains(shown_binding(m, k, d)) by {
        let a = choose|a: int| 0 <= a < ns.len() && ns[a] == k;
        let x = shown_binding(m, k, d);
        lemma_listing_complete(m, ns, ss, a, d);
        vstd::seq_lib::to_multiset_contains(rv, x);
        vstd::seq_lib::to_multiset_contains(listing, x);
    }
}

/// The survivors of `k` are exactly its visible bindings, by ascending dot, with the
/// values the map holds.
pub open spec fn survivor_ok(m: OrMap<String, DirEntryValue>, k: Seq<char>, s: Seq<(Dot, DirEntryValue)>) -> bool {
    &&& forall|i: int, j: int| 0 <= i < j < s.len() ==> dot_lt(#[trigger] s[i].0, #[trigger] s[j].0)
    &&& forall|i: int| 0 <= i < s.len() ==> m.visible(k, #[trigger] s[i].0) && m.adds_view()[(k, s[i].0)] == s[i].1
    &&& forall|d: Dot| #[trigger] m.visible(k, d) ==> seq_has_dot(s, d)
}

proof fn lemma_survivors_ok(m: OrMap<String, DirEntryValue>, k: Seq<char>, s: Seq<(Dot, DirEntryValue)>)
    requires
        forall|i: int, j: int| 0 <= i < j < s.len() ==> dot_lt(#[trigger] s[i].0, #[trigger] s[j].0),
        forall|i: int| 0 <= i < s.len() ==> m.visible(k, #[trigger] s[i].0) && cloned(m.adds_view()[(k, s[i].0)], s[i].1),
        forall|d: Dot| #[trigger] m.visible(k, d) ==> seq_has_dot(s, d),
    ensures
        survivor_ok(m, k, s),
{
}

/// The first survivor is the lowest visible dot, and no other survivor is.
proof fn lemma_first_is_lowest(m: OrMap<String, DirEntryValue>, k: Seq<char>, s: Seq<(Dot, DirEntryValue)>, j: int)
    requires
        survivor_ok(m, k, s),
        0 <= j < s.len(),
    ensures
        lowest_visible(m, k, s[j].0) == (j == 0),
{
    if j == 0 {
        assert forall|e: Dot| #[trigger] m.visible(k, e) implies !dot_lt(e, s[0].0) by {
            assert(seq_has_dot(s, e));
            let n = choose|n: int| 0 <= n < s.len() && #[trigger] s[n].0 == e;
            if n > 0 {
                assert(dot_lt(s[0].0, s[n].0));
            }
        }
    } else {
        assert(dot_lt(s[0].0, s[j].0));
        assert(m.visible(k, s[0].0));
    }
}

proof fn lemma_listing_sound(
    m: OrMap<String, DirEntryValue>,
    ns: Seq<Seq<char>>,
    ss: Seq<Seq<(Dot, DirEntryValue)>>,
    x: (Seq<char>, u128, EntryType),
)
    requires
        ns.len() == ss.len(),
        forall|a: int| 0 <= a < ns.len() ==> #[trigger] survivor_ok(m, ns[a], ss[a]),
        shown_all(ns, ss).contains(x),
    ensures
        shown_from(m, x),
    decreases ns.len(),
{
    if ns.len() > 0 {
        let prev = shown_all(ns.drop_last(), ss.drop_last());
        let last = shown_survivors(ns.last(), ss.last());
        let n = ns.len() - 1;
        assert(survivor_ok(m, ns[n], ss[n]));
        let idx = choose|idx: int| 0 <= idx < (prev + last).len() && (prev + last)[idx] == x;
        if idx < prev.len() {
            assert(prev[idx] == x);
            assert forall|a: int| 0 <= a < ns.drop_last().len() implies #[trigger] survivor_ok(m, ns.drop_last()[a], ss.drop_last()[a]) by {
                assert(survivor_ok(m, ns[a], ss[a]));
            }
            lemma_listing_sound(m, ns.drop_last(), ss.drop_last(), x);
        } else {
            let j = idx - prev.len();
            let s = ss.last();
            assert(last[j] == x);
            lemma_first_is_lowest(m, ns.last(), s, j);
            assert(m.visible(ns.last(), s[j].0));
        }
    }
}

proof fn lemma_listing_complete(
    m: OrMap<String, DirEntryValue>,
    ns: Seq<Seq<char>>,
    ss: Seq<Seq<(Dot, DirEntryValue)>>,
    a: int,
    d: Dot,
)
    requires
        ns.len() == ss.len(),
        0 <= a < ns.len(),
        forall|b: int| 0 <= b < ns.len() ==> #[trigger] survivor_ok(m, ns[b], ss[b]),
        m.visible(ns[a], d),
    ensures
        shown_all(ns, ss).contains(shown_binding(m, ns[a], d)),
    decreases ns.len(),
{
    let x = shown_binding(m, ns[a], d);
    let prev = shown_all(ns.drop_last(), ss.drop_last());
    let last = shown_survivors(ns.last(), ss.last());
    assert(shown_all(ns, ss) == prev + last);
    if a < ns.len() - 1 {
        assert forall|b: int| 0 <= b < ns.drop_last().len() implies #[trigger] survivor_ok(m, ns.drop_last()[b], ss.drop_last()[b]) by {
            assert(survivor_ok(m, ns[b], ss[b]));
        }
        assert(ns.drop_last()[a] == ns[a]);
        lemma_listing_complete(m, ns.drop_last(), ss.drop_last(), a, d);
        let idx = choose|idx: int| 0 <= idx < prev.len() && prev[idx] == x;
        assert((prev + last)[idx] == x);
    } else {
        let s = ss.last();
        assert(survivor_ok(m, ns[a], s));
        assert(seq_has_dot(s, d));
        let j = choose|j: int| 0 <= j < s.len() && #[trigger] s[j].0 == d;
        lemma_first_is_lowest(m, ns[a], s, j);
        assert(last[j] == x);
        assert((prev + last)[prev.len() + j] == x);
    }
}

/// Every binding of the map still visible: a name with the dot of one surviving add.
pub open spec fn visible_bindings(m: OrMap<String, DirEntryValue>) -> Set<(Seq<char>, Dot)> {
    Set::new(|p: (Seq<char>, Dot)| m.visible(p.0, p.1))
}

/// The bindings the survivors of one name stand for, in survivor order.
pub open spec fn survivor_pairs(name: Seq<char>, survivors: Seq<(Dot, DirEntryValue)>) -> Seq<(Seq<char>, Dot)> {
    Seq::new(survivors.len(), |j: int| (name, survivors[j].0))
}

/// The bindings of every name, one name after another, in the order of `shown_all`.
pub open spec fn pairs_all(names: Seq<Seq<char>>, survivors: Seq<Seq<(Dot, DirEntryValue)>>) -> Seq<(Seq<char>, Dot)>
    decreases names.len(),
{
    if names.len() == 0 || survivors.len() == 0 {
        Seq::empty()
    } else {
        pairs_all(names.drop_last(), survivors.drop_last()) + survivor_pairs(names.last(), survivors.last())
    }
}

proof fn lemma_pairs_len(ns: Seq<Seq<char>>, ss: Seq<Seq<(Dot, DirEntryValue)>>)
    requires
        ns.len() == ss.len(),
    ensures
        pairs_all(ns, ss).len() == shown_all(ns, ss).len(),
    decreases ns.len(),
{
    if ns.len() > 0 {
        lemma_pairs_len(ns.drop_last(), ss.drop_last());
    }
}

/// A binding is listed exactly when it is some name's binding with one of its survivors.
proof fn lemma_pairs_member(ns: Seq<Seq<char>>, ss: Seq<Seq<(Dot, DirEntryValue)>>, x: (Seq<char>, Dot))
    requires
        ns.len() == ss.len(),
    ensures
        pairs_all(ns, ss).contains(x) <==> exists|a: int, j: int|
            0 <= a < ns.len() && 0 <= j < ss[a].len() && x == (ns[a], #[trigger] ss[a][j].0),
    decreases ns.len(),
{
    if ns.len() > 0 {
        let n = ns.len() - 1;
        let prev = pairs_all(ns.drop_last(), ss.drop_last());
        let last = survivor_pairs(ns.last(), ss.last());
        assert(pairs_all(ns, ss) == prev + last);
        lemma_pairs_member(ns.drop_last(), ss.drop_last(), x);
        if pairs_all(ns, ss).contains(x) {
            let idx = choose|idx: int| 0 <= idx < (prev + last).len() && (prev + last)[idx] == x;
            if idx < prev.len() {
                assert(prev.contains(x));
                let (a, j) = choose|a: int, j: int|
                    0 <= a < ns.drop_last().len() && 0 <= j < ss.drop_last()[a].len() && x == (
                        ns.drop_last()[a],
                        #[trigger] ss.drop_last()[a][j].0,
                    );
                assert(ss[a][j].0 == ss.drop_last()[a][j].0);
            } else {
                let j = idx - prev.len();
                assert(last[j] == x);
                assert(ss[n][j].0 == ss.last()[j].0);
            }
        }
        if exists|a: int, j: int| 0 <= a < ns.len() && 0 <= j < ss[a].len() && x == (ns[a], #[trigger] ss[a][j].0) {
            let (a, j) = choose|a: int, j: int| 0 <= a < ns.len() && 0 <= j < ss[a].len() && x == (ns[a], #[trigger] ss[a][j].0);
            if a < n {
                assert(ss.drop_last()[a][j].0 == ss[a][j].0);
                assert(prev.contains(x));
                let idx = choose|idx: int| 0 <= idx < prev.len() && prev[idx] == x;
                assert((prev + last)[idx] == x);
            } else {
                assert(last[j] == x);
                assert((prev + last)[prev.len() + j] == x);
            }
        }
    }
}

/// With distinct names and each name's survivors in ascending dot order, no binding is
/// listed twice.
proof fn lemma_pairs_no_dup(ns: Seq<Seq<char>>, ss: Seq<Seq<(Dot, DirEntryValue)>>)
    requires
        ns.len() == ss.len(),
        forall|a: int, b: int| 0 <= a < b < ns.len() ==> #[trigger] ns[a] != #[trigger] ns[b],
        forall|a: int, i: int, j: int| 0 <= a < ss.len() && 0 <= i < j < ss[a].len() ==> dot_lt(#[trigger] ss[a][i].0, #[trigger] ss[a][j].0),
    ensures
        pairs_all(ns, ss).no_duplicates(),
    decreases ns.len(),
{
    if ns.len() > 0 {
        let n = ns.len() - 1;
        let dn = ns.drop_last();
        let ds = ss.drop_last();
        assert forall|a: int, b: int| 0 <= a < b < dn.len() implies #[trigger] dn[a] != #[trigger] dn[b] by {
            assert(ns[a] != ns[b]);
        }
        assert forall|a: int, i: int, j: int| 0 <= a < ds.len() && 0 <= i < j < ds[a].len() implies dot_lt(#[trigger] ds[a][i].0, #[trigger] ds[a][j].0) by {
            assert(dot_lt(ss[a][i].0, ss[a][j].0));
        }
        lemma_pairs_no_dup(dn, ds);
        let prev = pairs_all(dn, ds);
        let last = survivor_pairs(ns.last(), ss.last());
        assert forall|i: int, j: int| 0 <= i < j < last.len() implies last[i] != last[j] by {
            assert(dot_lt(ss[n][i].0, ss[n][j].0));
        }
        assert forall|i: int, j: int| 0 <= i < prev.len() && 0 <= j < last.len() implies prev[i] != last[j] by {
            assert(prev.contains(prev[i]));
            lemma_pairs_member(dn, ds, prev[i]);
            let (a, k) = choose|a: int, k: int| 0 <= a < dn.len() && 0 <= k < ds[a].len() && prev[i] == (dn[a], #[trigger] ds[a][k].0);
            assert(ns[a] != ns[n]);
        }
        vstd::seq_lib::lemma_no_dup_in_concat(prev, last);
        assert(pairs_all(ns, ss) == prev + last);
    }
}

/// The listed bindings are exactly the visible ones, each once: as many as the map has.
proof fn lemma_pairs_count(m: OrMap<String, DirEntryValue>, ns: Seq<Seq<char>>, ss: Seq<Seq<(Dot, DirEntryValue)>>)
    requires
        ns.len() == ss.len(),
        forall|a: int, b: int| 0 <= a < b < ns.len() ==> #[trigger] ns[a] != #[trigger] ns[b],
        forall|a: int| 0 <= a < ns.len() ==> #[trigger] survivor_ok(m, ns[a], ss[a]),
        forall|k: Seq<char>, d: Dot| #[trigger] m.visible(k, d) ==> exists|a: int| 0 <= a < ns.len() && ns[a] == k,
    ensures
        visible_bindings(m).finite(),
        pairs_all(ns, ss).len() == visible_bindings(m).len(),
{
    let ps = pairs_all(ns, ss);
    assert forall|a: int, i: int, j: int| 0 <= a < ss.len() && 0 <= i < j < ss[a].len() implies dot_lt(#[trigger] ss[a][i].0, #[trigger] ss[a][j].0) by {
        assert(survivor_ok(m, ns[a], ss[a]));
    }
    lemma_pairs_no_dup(ns, ss);
    assert forall|x: (Seq<char>, Dot)| ps.to_set().contains(x) <==> #[trigger] visible_bindings(m).contains(x) by {
        lemma_pairs_member(ns, ss, x);
        if ps.contains(x) {
            let (a, j) = choose|a: int, j: int| 0 <= a < ns.len() && 0 <= j < ss[a].len() && x == (ns[a], #[trigger] ss[a][j].0);
            assert(survivor_ok(m, ns[a], ss[a]));
        }
        if m.visible(x.0, x.1) {
            let a = choose|a: int| 0 <= a < ns.len() && ns[a] == x.0;
            assert(survivor_ok(m, ns[a], ss[a]));
            assert(seq_has_dot(ss[a], x.1));
            let j = choose|j: int| 0 <= j < ss[a].len() && #[trigger] ss[a][j].0 == x.1;
            assert(x == (ns[a], ss[a][j].0));
        }
    }
    assert(ps.to_set() =~= visible_bindings(m));
    ps.unique_seq_to_set();
    vstd::seq_lib::seq_to_set_is_finite(ps);
}

/// One entry of a depth-first listing beneath a directory.
#[derive(Debug, Clone)]
pub struct WalkEntry {
    /// Absolute path, e.g. `/docs/notes/a.txt`.
    pub path: String,
    pub name: String,
    pub kind: EntryType,
    pub depth: usize,
    /// Byte length for files; zero for directories.
    pub size: u64,
    pub inode: u128,
    /// Last write time recorded on the inode.
    pub mtime_unix_ms: u64,
}

/// `s` without its trailing `/` characters.
pub open spec fn without_trailing_slashes(s: Seq<char>) -> Seq<char>
    decreases s.len(),
{
    if s.len() > 0 && s.last() == '/' {
        without_trailing_slashes(s.drop_last())
    } else {
        s
    }
}

/// The prefix a listing beneath `root` builds its paths on: `root` without trailing
/// slashes, so the root directory itself is the empty prefix.
pub fn walk_base(root: &str) -> (b: String)
    ensures
        b@ == without_trailing_slashes(root@),
{
    let v = chars_of(root);
    let mut e: usize = v.len();
    assert(v@.subrange(0, e as int) =~= v@);
    while e > 0 && v[e - 1] == '/'
        invariant
            e <= v@.len(),
            v@ == root@,
            without_trailing_slashes(root@) == without_trailing_slashes(v@.subrange(0, e as int)),
        decreases e,
    {
        assert(v@.subrange(0, e as int).drop_last() =~= v@.subrange(0, e - 1));
        e = e - 1;
    }
    let mut w: Vec<char> = Vec::new();
    let mut i: usize = 0;
    while i < e
        invariant
            i <= e <= v@.len(),
            w@ == v@.subrange(0, i as int),
        decreases e - i,
    {
        w.push(v[i]);
        i = i + 1;
        assert(w@ =~= v@.subrange(0, i as int));
    }
    string_of(&w)
}

/// The listing entry for `entry`, found at `depth` beneath the directory whose path is
/// `prefix`, given its inode's recorded size and write time when the record exists.
/// Directories list a size of zero.
pub fn walk_entry(prefix: &str, depth: usize, entry: &DirEntry, stat: Option<(u64, u64)>) -> (w: WalkEntry)
    ensures
        w.path@ == prefix@ + seq!['/'] + entry.name@,
        w.name@ == entry.name@,
        w.kind == entry.entry_type,
        w.depth == depth,
        w.inode == entry.inode_id,
        w.size == (if entry.entry_type == EntryType::File {
            match stat {
                Some((size, _)) => size,
                None => 0,
            }
        } else {
            0
        }),
        w.mtime_unix_ms == (match stat {
            Some((_, mtime)) => mtime,
            None => 0,
        }),
{
    let mut path = String::from_str(prefix);
    push_char(&mut path, '/');
    path.append(entry.name.as_str());
    let (size, mtime) = match stat {
        Some((s, m)) => (s, m),
        None => (0, 0),
    };
    let size = if entry.entry_type == EntryType::File { size } else { 0 };
    WalkEntry {
        path,
        name: entry.name.clone(),
        kind: entry.entry_type,
        depth,
        size,
        inode: entry.inode_id,
        mtime_unix_ms: mtime,
    }
}

/// The first entry of a listing named `name`.
pub open spec fn first_named(entries: Seq<(Seq<char>, u128, EntryType)>, name: Seq<char>) -> Option<int>
    decreases entries.len(),
{
    if entries.len() == 0 {
        None
    } else {
        match first_named(entries.drop_last(), name) {
            Some(i) => Some(i),
            None => if entries.last().0 == name {
                Some(entries.len() - 1)
            } else {
                None
            },
        }
    }
}

/// Looks `name` up in a directory's listing: the first entry shown under that name.
pub fn lookup_entry(entries: &Vec<DirEntry>, name: &str) -> (r: Option<DirEntry>)
    ensures
        match first_named(entry_views(entries@), name@) {
            Some(i) => r matches Some(e) && e@ == entry_views(entries@)[i],
            None => r is None,
        },
{
    let mut i: usize = 0;
    while i < entries.len()
        invariant
            i <= entries@.len(),
            first_named(entry_views(entries@).subrange(0, i as int), name@) is None,
        decreases entries@.len() - i,
    {
        let ghost pre = entry_views(entries@).subrange(0, i + 1);
        proof {
            assert(pre.drop_last() =~= entry_views(entries@).subrange(0, i as int));
            assert(pre.last() == entries@[i as int]@);
        }
        if crate::text::compare_chars(entries[i].name.as_str(), name) == crate::ordkey::KeyOrder::Equal {
            proof {
                lemma_first_named_prefix(entry_views(entries@), i + 1);
            }
            let e = DirEntry { name: entries[i].name.clone(), inode_id: entries[i].inode_id, entry_type: entries[i].entry_type };
            return Some(e);
        }
        i = i + 1;
    }
    assert(entry_views(entries@).subrange(0, i as int) =~= entry_views(entries@));
    None
}

/// A match in a prefix is the match in the whole.
proof fn lemma_first_named_prefix(entries: Seq<(Seq<char>, u128, EntryType)>, k: int)
    requires
        0 <= k <= entries.len(),
    ensures
        forall|name: Seq<char>| #[trigger] first_named(entries.subrange(0, k), name) is Some ==> first_named(entries, name)
            == first_named(entries.subrange(0, k), name),
    decreases entries.len() - k,
{
    if k < entries.len() {
        lemma_first_named_prefix(entries, k + 1);
        assert forall|name: Seq<char>| #[trigger] first_named(entries.subrange(0, k), name) is Some implies first_named(
            entries,
            name,
        ) == first_named(entries.subrange(0, k), name) by {
            assert(entries.subrange(0, k + 1).drop_last() =~= entries.subrange(0, k));
            assert(first_named(entries.subrange(0, k + 1), name) == first_named(entries.subrange(0, k), name));
        }
    } else {
        assert(entries.subrange(0, k) =~= entries);
    }
}

/// Whether a directory's listing shows `child`, under any name.
pub fn lists_child(entries: &Vec<DirEntry>, child: u128) -> (b: bool)
    ensures
        b == (exists|i: int| 0 <= i < entries@.len() && #[trigger] entries@[i].inode_id == child),
{
    let mut i: usize = 0;
    while i < entries.len()
        invariant
            i <= entries@.len(),
            forall|j: int| 0 <= j < i ==> entries@[j].inode_id != child,
        decreases entries@.len() - i,
    {
        if entries[i].inode_id == child {
            return true;
        }
        i = i + 1;
    }
    false
}

} // verus!
