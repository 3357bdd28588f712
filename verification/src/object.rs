//! The content-addressed object model: headers, directory entries and directory nodes.
//!
//! A directory node is hashed as stored, so its entries must be in one canonical order
//! for two replicas holding the same directory to name it by the same hash.

use vstd::prelude::*;
use crate::ordkey::KeyOrder;
use crate::apply::ChunkRef;
use crate::text::{seq_lex_lt, lemma_lex_irreflexive, lemma_lex_transitive, lemma_lex_total};

verus! {

broadcast use vstd::seq_lib::group_to_multiset_ensures;

/// Versioned object header to allow safe upgrades.
#[derive(Debug, Clone, Copy, PartialEq, Eq, Structural)]
pub struct ObjectHeader {
    pub type_tag: u16,
    pub version: u16,
}

/// Key material for an encrypted file, stored with the file itself.
#[derive(Debug, Clone)]
pub struct FileEncryption {
    /// The file key, sealed with the repository key.
    pub sealed_key: Vec<u8>,
}

/// Whether a directory entry names a file or a directory. Files order first.
#[derive(Debug, Clone, Copy, PartialEq, Eq, Structural, PartialOrd, Ord, Hash)]
pub enum EntryType {
    File,
    Dir,
}

/// The position of an entry type in the order entries are sorted by.
pub open spec fn type_rank(t: EntryType) -> int {
    match t {
        EntryType::File => 0,
        EntryType::Dir => 1,
    }
}

/// One name in a directory.
#[derive(Debug, Clone)]
pub struct DirEntry {
    pub name: String,
    pub inode_id: u128,
    pub entry_type: EntryType,
}

impl View for DirEntry {
    type V = (Seq<char>, u128, EntryType);

    open spec fn view(&self) -> (Seq<char>, u128, EntryType) {
        (self.name@, self.inode_id, self.entry_type)
    }
}

/// The canonical order of directory entries: by name, then type, then inode.
pub open spec fn dir_entry_lt(a: (Seq<char>, u128, EntryType), b: (Seq<char>, u128, EntryType)) -> bool {
    ||| seq_lex_lt(a.0, b.0)
    ||| a.0 == b.0 && type_rank(a.2) < type_rank(b.2)
    ||| a.0 == b.0 && a.2 == b.2 && a.1 < b.1
}

pub proof fn lemma_dir_entry_order()
    ensures
        forall|a: (Seq<char>, u128, EntryType)| !dir_entry_lt(a, a),
        forall|a: (Seq<char>, u128, EntryType), b: (Seq<char>, u128, EntryType), c: (Seq<char>, u128, EntryType)|
            #[trigger] dir_entry_lt(a, b) && #[trigger] dir_entry_lt(b, c) ==> dir_entry_lt(a, c),
        forall|a: (Seq<char>, u128, EntryType), b: (Seq<char>, u128, EntryType)|
            dir_entry_lt(a, b) || dir_entry_lt(b, a) || a == b,
{
    assert forall|a: (Seq<char>, u128, EntryType)| !dir_entry_lt(a, a) by {
        lemma_lex_irreflexive(a.0);
    }
    assert forall|a: (Seq<char>, u128, EntryType), b: (Seq<char>, u128, EntryType), c: (Seq<char>, u128, EntryType)|
        #[trigger] dir_entry_lt(a, b) && #[trigger] dir_entry_lt(b, c) implies dir_entry_lt(a, c) by {
        if seq_lex_lt(a.0, b.0) && seq_lex_lt(b.0, c.0) {
            lemma_lex_transitive(a.0, b.0, c.0);
        }
    }
    assert forall|a: (Seq<char>, u128, EntryType), b: (Seq<char>, u128, EntryType)|
        dir_entry_lt(a, b) || dir_entry_lt(b, a) || a == b by {
        lemma_lex_total(a.0, b.0);
        if a.0 == b.0 && a.2 == b.2 && a.1 == b.1 {
            assert(a == b);
        }
    }
}

/// The views of a list of entries.
pub open spec fn entry_views(s: Seq<DirEntry>) -> Seq<(Seq<char>, u128, EntryType)> {
    s.map_values(|e: DirEntry| e@)
}

/// Entries in canonical order: no entry orders before one that precedes it.
pub open spec fn entries_sorted(s: Seq<(Seq<char>, u128, EntryType)>) -> bool {
    forall|i: int, j: int| 0 <= i < j < s.len() ==> !dir_entry_lt(#[trigger] s[j], #[trigger] s[i])
}

/// Compares two entries in the canonical order.
pub fn compare_dir_entries(left: &DirEntry, right: &DirEntry) -> (o: KeyOrder)
    ensures
        (o == KeyOrder::Less) == dir_entry_lt(left@, right@),
        (o == KeyOrder::Equal) == (left@ == right@),
        (o == KeyOrder::Greater) == dir_entry_lt(right@, left@),
{
    proof {
        lemma_dir_entry_order();
    }
    let by_name = crate::text::compare_chars(left.name.as_str(), right.name.as_str());
    match by_name {
        KeyOrder::Less => KeyOrder::Less,
        KeyOrder::Greater => KeyOrder::Greater,
        KeyOrder::Equal => {
            let lt = match left.entry_type {
                EntryType::File => 0u8,
                EntryType::Dir => 1u8,
            };
            let rt = match right.entry_type {
                EntryType::File => 0u8,
                EntryType::Dir => 1u8,
            };
            if lt < rt {
                KeyOrder::Less
            } else if lt > rt {
                KeyOrder::Greater
            } else if left.inode_id < right.inode_id {
                KeyOrder::Less
            } else if left.inode_id > right.inode_id {
                KeyOrder::Greater
            } else {
                assert(left.entry_type == right.entry_type);
                KeyOrder::Equal
            }
        },
    }
}

/// Sorts entries into the canonical order: the same entries, by name, then type,
/// then inode.
pub fn sort_dir_entries(entries: &mut Vec<DirEntry>)
    ensures
        entries_sorted(entry_views(final(entries)@)),
        entry_views(final(entries)@).to_multiset() == entry_views(old(entries)@).to_multiset(),
{
    let mut input: Vec<DirEntry> = Vec::new();
    std::mem::swap(&mut input, entries);
    let ghost all = input@;
    let n = input.len();
    let mut out: Vec<DirEntry> = Vec::new();
    let mut i: usize = 0;
    proof {
        lemma_dir_entry_order();
        assert(all.subrange(0, 0) =~= Seq::<DirEntry>::empty());
        assert(entry_views(out@) =~= Seq::<(Seq<char>, u128, EntryType)>::empty());
        assert(entry_views(all.subrange(0, 0)) =~= Seq::<(Seq<char>, u128, EntryType)>::empty());
    }
    while i < n
        invariant
            n == all.len(),
            i <= n,
            all == old(entries)@,
            input@ == all.subrange(i as int, n as int),
            entries_sorted(entry_views(out@)),
            entry_views(out@).to_multiset() == entry_views(all.subrange(0, i as int)).to_multiset(),
        decreases n - i,
    {
        let x = input.remove(0);
        proof {
            assert(all[i as int] == x);
            assert(input@ =~= all.subrange(i + 1, n as int));
        }
        let mut p: usize = 0;
        while p < out.len() && compare_dir_entries(&x, &out[p]) != KeyOrder::Less
            invariant
                p <= out@.len(),
                forall|j: int| 0 <= j < p ==> !dir_entry_lt(x@, #[trigger] out@[j]@),
            decreases out@.len() - p,
        {
            p = p + 1;
        }
        let ghost o0 = out@;
        out.insert(p, x);
        proof {
            lemma_dir_entry_order();
            let v0 = entry_views(o0);
            let v1 = entry_views(out@);
            assert(v1 =~= v0.insert(p as int, x@));
            assert forall|a: int, b: int| 0 <= a < b < v1.len() implies !dir_entry_lt(#[trigger] v1[b], #[trigger] v1[a]) by {
                if a < p && b < p {
                    assert(v1[a] == v0[a] && v1[b] == v0[b]);
                } else if a < p && b == p {
                    assert(v1[a] == o0[a]@);
                    assert(!dir_entry_lt(x@, o0[a]@));
                } else if a < p && b > p {
                    assert(v1[a] == v0[a] && v1[b] == v0[b - 1]);
                } else if a == p {
                    assert(v1[b] == v0[b - 1]);
                    // x orders before out[p], which is no later than out[b - 1].
                    assert(p < o0.len() ==> dir_entry_lt(x@, o0[p as int]@));
                    if b - 1 > p {
                        assert(!dir_entry_lt(v0[b - 1], v0[p as int]));
                    }
                } else {
                    assert(v1[a] == v0[a - 1] && v1[b] == v0[b - 1]);
                }
            }
            let pre = all.subrange(0, i + 1);
            assert(pre =~= all.subrange(0, i as int).push(x));
            assert(entry_views(pre) =~= entry_views(all.subrange(0, i as int)).push(x@));
            vstd::seq_lib::to_multiset_insert(v0, p as int, x@);
            vstd::seq_lib::to_multiset_build(entry_views(all.subrange(0, i as int)), x@);
        }
        i = i + 1;
    }
    proof {
        assert(all.subrange(0, n as int) =~= all);
    }
    *entries = out;
}

/// A directory node. Entries must be in canonical order for canonical hashing.
#[derive(Debug, Clone)]
pub struct DirNode {
    pub header: ObjectHeader,
    pub entries: Vec<DirEntry>,
    pub mode: u32,
    pub uid: u32,
    pub gid: u32,
    pub mtime_unix_ms: u64,
    pub ctime_unix_ms: u64,
}

impl DirNode {
    /// A directory node over `entries`, sorted into canonical order, stamped `now_ms`.
    pub fn new_canonical(entries: Vec<DirEntry>, mode: u32, uid: u32, gid: u32, now_ms: u64) -> (d: Self)
        ensures
            d.header == (ObjectHeader { type_tag: 2, version: 1 }),
            entries_sorted(entry_views(d.entries@)),
            entry_views(d.entries@).to_multiset() == entry_views(entries@).to_multiset(),
            d.mode == mode,
            d.uid == uid,
            d.gid == gid,
            d.mtime_unix_ms == now_ms,
            d.ctime_unix_ms == now_ms,
    {
        let mut entries = entries;
        sort_dir_entries(&mut entries);
        DirNode {
            header: ObjectHeader { type_tag: 2, version: 1 },
            entries,
            mode,
            uid,
            gid,
            mtime_unix_ms: now_ms,
            ctime_unix_ms: now_ms,
        }
    }

    /// Puts the entries into canonical order; nothing else changes.
    pub fn canonicalize(&mut self)
        ensures
            entries_sorted(entry_views(final(self).entries@)),
            entry_views(final(self).entries@).to_multiset() == entry_views(old(self).entries@).to_multiset(),
            final(self).header == old(self).header,
            final(self).mode == old(self).mode,
            final(self).uid == old(self).uid,
            final(self).gid == old(self).gid,
            final(self).mtime_unix_ms == old(self).mtime_unix_ms,
            final(self).ctime_unix_ms == old(self).ctime_unix_ms,
            entries_sorted(entry_views(old(self).entries@)) ==> entry_views(final(self).entries@) == entry_views(
                old(self).entries@,
            ),
    {
        sort_dir_entries(&mut self.entries);
        proof {
            if entries_sorted(entry_views(old(self).entries@)) {
                lemma_canonical_order_is_unique(entry_views(self.entries@), entry_views(old(self).entries@));
            }
        }
    }
}

/// Two sorted lists holding the same entries are the same list: canonical order
/// leaves no choice, which is what makes a directory's hash independent of the order
/// its entries were listed in.
pub proof fn lemma_canonical_order_is_unique(a: Seq<(Seq<char>, u128, EntryType)>, b: Seq<(Seq<char>, u128, EntryType)>)
    requires
        entries_sorted(a),
        entries_sorted(b),
        a.to_multiset() == b.to_multiset(),
    ensures
        a == b,
    decreases a.len(),
{
    lemma_dir_entry_order();
    vstd::seq_lib::to_multiset_len(a);
    vstd::seq_lib::to_multiset_len(b);
    if a.len() == 0 {
        assert(a =~= b);
    } else {
        // The least element of each is the least of the shared multiset.
        let x = a[0];
        let y = b[0];
        assert(a.to_multiset().count(y) > 0) by {
            vstd::seq_lib::to_multiset_contains(b, y);
            assert(b.contains(y)) by { assert(b[0] == y); }
        }
        assert(b.to_multiset().count(x) > 0) by {
            vstd::seq_lib::to_multiset_contains(a, x);
            assert(a.contains(x)) by { assert(a[0] == x); }
        }
        vstd::seq_lib::to_multiset_contains(a, y);
        vstd::seq_lib::to_multiset_contains(b, x);
        let iy = choose|k: int| 0 <= k < a.len() && a[k] == y;
        let ix = choose|k: int| 0 <= k < b.len() && b[k] == x;
        if x != y {
            if iy > 0 {
                assert(!dir_entry_lt(a[iy], a[0]));
            }
            if ix > 0 {
                assert(!dir_entry_lt(b[ix], b[0]));
            }
            assert(false);
        }
        vstd::seq_lib::to_multiset_remove(a, 0);
        vstd::seq_lib::to_multiset_remove(b, 0);
        let a1 = a.remove(0);
        let b1 = b.remove(0);
        assert(a1.to_multiset() =~= b1.to_multiset());
        assert(entries_sorted(a1)) by {
            assert forall|i: int, j: int| 0 <= i < j < a1.len() implies !dir_entry_lt(#[trigger] a1[j], #[trigger] a1[i]) by {
                assert(a1[i] == a[i + 1] && a1[j] == a[j + 1]);
            }
        }
        assert(entries_sorted(b1)) by {
            assert forall|i: int, j: int| 0 <= i < j < b1.len() implies !dir_entry_lt(#[trigger] b1[j], #[trigger] b1[i]) by {
                assert(b1[i] == b[i + 1] && b1[j] == b[j + 1]);
            }
        }
        lemma_canonical_order_is_unique(a1, b1);
        assert(a =~= seq![x] + a1);
        assert(b =~= seq![y] + b1);
    }
}

/// A file's metadata and the chunks holding its content.
#[derive(Debug, Clone)]
pub struct FileNode {
    pub header: ObjectHeader,
    /// The plaintext length.
    pub size: u64,
    pub chunks: Vec<ChunkRef>,
    pub mode: u32,
    pub uid: u32,
    pub gid: u32,
    pub mtime_unix_ms: u64,
    pub ctime_unix_ms: u64,
    /// Present when the chunks hold ciphertext. Chunk hashes always name the bytes as
    /// stored, so a peer can verify a transfer whether or not it can decrypt.
    pub encryption: Option<FileEncryption>,
}

/// A snapshot of the namespace: its root directory, when it was taken and by whom.
#[derive(Debug, Clone, Copy)]
pub struct SnapshotRoot {
    pub header: ObjectHeader,
    pub root_dir_inode: u128,
    pub inode_map_root: Option<[u8; 32]>,
    pub timestamp_unix_ms: u64,
    pub author: u128,
}

/// Anything stored by hash.
#[derive(Debug, Clone)]
pub enum Object {
    FileNode(FileNode),
    DirNode(DirNode),
    SnapshotRoot(SnapshotRoot),
}

/// The sealed key of an encryption record, as bytes.
pub open spec fn encryption_view(e: Option<FileEncryption>) -> Option<Seq<u8>> {
    match e {
        Some(x) => Some(x.sealed_key@),
        None => None,
    }
}

/// Two file nodes say the same thing.
pub open spec fn same_file(a: FileNode, b: FileNode) -> bool {
    &&& a.header == b.header
    &&& a.size == b.size
    &&& a.chunks@ == b.chunks@
    &&& a.mode == b.mode
    &&& a.uid == b.uid
    &&& a.gid == b.gid
    &&& a.mtime_unix_ms == b.mtime_unix_ms
    &&& a.ctime_unix_ms == b.ctime_unix_ms
    &&& encryption_view(a.encryption) == encryption_view(b.encryption)
}

fn copy_bytes(v: &Vec<u8>) -> (r: Vec<u8>)
    ensures
        r@ == v@,
{
    let mut r: Vec<u8> = Vec::new();
    let mut i: usize = 0;
    while i < v.len()
        invariant
            i <= v@.len(),
            r@ == v@.subrange(0, i as int),
        decreases v@.len() - i,
    {
        r.push(v[i]);
        i = i + 1;
        assert(r@ =~= v@.subrange(0, i as int));
    }
    assert(v@.subrange(0, i as int) =~= v@);
    r
}

fn copy_chunks(v: &Vec<ChunkRef>) -> (r: Vec<ChunkRef>)
    ensures
        r@ == v@,
{
    let mut r: Vec<ChunkRef> = Vec::new();
    let mut i: usize = 0;
    while i < v.len()
        invariant
            i <= v@.len(),
            r@ == v@.subrange(0, i as int),
        decreases v@.len() - i,
    {
        r.push(v[i]);
        i = i + 1;
        assert(r@ =~= v@.subrange(0, i as int));
    }
    assert(v@.subrange(0, i as int) =~= v@);
    r
}

fn copy_entries(v: &Vec<DirEntry>) -> (r: Vec<DirEntry>)
    ensures
        entry_views(r@) == entry_views(v@),
{
    let mut r: Vec<DirEntry> = Vec::new();
    let mut i: usize = 0;
    while i < v.len()
        invariant
            i <= v@.len(),
            entry_views(r@) == entry_views(v@.subrange(0, i as int)),
        decreases v@.len() - i,
    {
        let e = &v[i];
        let c = DirEntry { name: e.name.clone(), inode_id: e.inode_id, entry_type: e.entry_type };
        assert(c@ == v@[i as int]@);
        let ghost r0 = r@;
        r.push(c);
        proof {
            assert(entry_views(r@) =~= entry_views(r0).push(c@));
            assert(entry_views(v@.subrange(0, i + 1)) =~= entry_views(v@.subrange(0, i as int)).push(v@[i as int]@));
        }
        i = i + 1;
    }
    assert(v@.subrange(0, i as int) =~= v@);
    r
}

impl FileNode {
    /// A copy saying the same thing.
    pub fn copy(&self) -> (r: Self)
        ensures
            same_file(*self, r),
    {
        let encryption = match &self.encryption {
            Some(e) => Some(FileEncryption { sealed_key: copy_bytes(&e.sealed_key) }),
            None => None,
        };
        FileNode {
            header: self.header,
            size: self.size,
            chunks: copy_chunks(&self.chunks),
            mode: self.mode,
            uid: self.uid,
            gid: self.gid,
            mtime_unix_ms: self.mtime_unix_ms,
            ctime_unix_ms: self.ctime_unix_ms,
            encryption,
        }
    }
}

impl Object {
    /// The object in canonical form, as it is hashed: a directory's entries sorted into
    /// canonical order; anything else unchanged.
    pub fn canonicalized(&self) -> (r: Self)
        ensures
            match *self {
                Object::DirNode(d) => r matches Object::DirNode(e) && {
                    &&& entries_sorted(entry_views(e.entries@))
                    &&& entry_views(e.entries@).to_multiset() == entry_views(d.entries@).to_multiset()
                    &&& e.header == d.header
                    &&& e.mode == d.mode
                    &&& e.uid == d.uid
                    &&& e.gid == d.gid
                    &&& e.mtime_unix_ms == d.mtime_unix_ms
                    &&& e.ctime_unix_ms == d.ctime_unix_ms
                },
                Object::FileNode(f) => r matches Object::FileNode(g) && same_file(f, g),
                Object::SnapshotRoot(x) => r == Object::SnapshotRoot(x),
            },
    {
        match self {
            Object::DirNode(d) => {
                let mut dir = DirNode {
                    header: d.header,
                    entries: copy_entries(&d.entries),
                    mode: d.mode,
                    uid: d.uid,
                    gid: d.gid,
                    mtime_unix_ms: d.mtime_unix_ms,
                    ctime_unix_ms: d.ctime_unix_ms,
                };
                dir.canonicalize();
                Object::DirNode(dir)
            },
            Object::FileNode(f) => Object::FileNode(f.copy()),
            Object::SnapshotRoot(x) => Object::SnapshotRoot(*x),
        }
    }
}

} // verus!
