//! Whether one inode lies beneath a directory: the check that keeps a rename from
//! moving a directory into its own subtree, which would detach it from the root.
//!
//! The search runs in steps so the caller can read each directory's listing from the
//! store in between: it names the next directory to list, and takes that listing back.

use vstd::prelude::*;
use crate::object::{DirEntry, EntryType};

verus! {

/// The most directories one search visits before giving up.
pub const MAX_SUBTREE_NODES: usize = 1000000;

/// What the search needs next, or what it found.
#[derive(Debug, Clone, Copy, PartialEq, Eq, Structural)]
pub enum SearchStep {
    /// The target lies beneath the root.
    Found,
    /// Every directory beneath the root has been listed, and the target is in none.
    Absent,
    /// List this directory and hand the listing to `on_listing`.
    Visit(u128),
    /// More than [`MAX_SUBTREE_NODES`] directories would have to be listed.
    TooLarge,
}

/// A depth-first search for `target` beneath `root`.
pub struct SubtreeSearch {
    target: u128,
    stack: Vec<u128>,
    seen: Vec<u128>,
    visited: usize,
    pending: Option<u128>,
    root: Ghost<u128>,
    listed: Ghost<Map<u128, Seq<(u128, EntryType)>>>,
}

/// What a listing names: each entry's inode and kind.
pub open spec fn listing_of(entries: Seq<DirEntry>) -> Seq<(u128, EntryType)> {
    entries.map_values(|e: DirEntry| (e.inode_id, e.entry_type))
}

/// `listing` names `c` as a directory.
pub open spec fn lists_dir(listing: Seq<(u128, EntryType)>, c: u128) -> bool {
    listing.contains((c, EntryType::Dir))
}

/// `listing` names `c`, as anything.
pub open spec fn lists_inode(listing: Seq<(u128, EntryType)>, c: u128) -> bool {
    exists|i: int| 0 <= i < listing.len() && (#[trigger] listing[i]).0 == c
}

/// `path` starts at `root`, and each directory on it is named as a directory in the
/// listing read of the one before it.
pub open spec fn is_path(listed: Map<u128, Seq<(u128, EntryType)>>, root: u128, path: Seq<u128>) -> bool {
    &&& path.len() > 0
    &&& path[0] == root
    &&& forall|i: int| 0 <= i < path.len() - 1 ==> #[trigger] listed.contains_key(path[i]) && lists_dir(listed[path[i]], path[i + 1])
}

/// `x` lies beneath `root` as far as the listings read show: some path of listed
/// directories leads from the root down to it.
pub open spec fn reachable(listed: Map<u128, Seq<(u128, EntryType)>>, root: u128, x: u128) -> bool {
    exists|path: Seq<u128>| #[trigger] is_path(listed, root, path) && path.last() == x
}

/// The root is reachable from itself, whatever has been listed.
proof fn lemma_root_reachable(listed: Map<u128, Seq<(u128, EntryType)>>, root: u128)
    ensures
        reachable(listed, root, root),
{
    let path = seq![root];
    assert(is_path(listed, root, path));
}

/// Reading the listing of a directory not listed before keeps every path.
proof fn lemma_reachable_grows(listed: Map<u128, Seq<(u128, EntryType)>>, root: u128, x: u128, lst: Seq<(u128, EntryType)>, y: u128)
    requires
        reachable(listed, root, y),
        !listed.contains_key(x),
    ensures
        reachable(listed.insert(x, lst), root, y),
{
    let path = choose|path: Seq<u128>| #[trigger] is_path(listed, root, path) && path.last() == y;
    let grown = listed.insert(x, lst);
    assert forall|i: int| 0 <= i < path.len() - 1 implies #[trigger] grown.contains_key(path[i]) && lists_dir(grown[path[i]], path[i + 1]) by {
        assert(listed.contains_key(path[i]));
        assert(path[i] != x);
    }
    assert(is_path(grown, root, path));
}

/// A directory named in the listing of a reachable directory is reachable.
proof fn lemma_reachable_step(listed: Map<u128, Seq<(u128, EntryType)>>, root: u128, x: u128, c: u128)
    requires
        reachable(listed, root, x),
        listed.contains_key(x),
        lists_dir(listed[x], c),
    ensures
        reachable(listed, root, c),
{
    let path = choose|path: Seq<u128>| #[trigger] is_path(listed, root, path) && path.last() == x;
    let longer = path.push(c);
    assert forall|i: int| 0 <= i < longer.len() - 1 implies #[trigger] listed.contains_key(longer[i]) && lists_dir(listed[longer[i]], longer[i + 1]) by {
        if i < path.len() - 1 {
            assert(longer[i] == path[i]);
            assert(longer[i + 1] == path[i + 1]);
            assert(listed.contains_key(path[i]));
        } else {
            assert(longer[i] == x);
            assert(longer[i + 1] == c);
        }
    }
    assert(is_path(listed, root, longer));
    assert(longer.last() == c);
}

/// The listings read cover the whole tree beneath `root`: the root's was read, and so
/// was that of every directory any of them names.
pub open spec fn closed_under_listing(listed: Map<u128, Seq<(u128, EntryType)>>, root: u128) -> bool {
    &&& listed.contains_key(root)
    &&& forall|s: u128, c: u128| #[trigger] listed.contains_key(s) && lists_dir(listed[s], c) ==> #[trigger] listed.contains_key(c)
}

impl SubtreeSearch {
    /// The directory the search started from.
    pub closed spec fn root(&self) -> u128 {
        self.root@
    }

    /// The inode searched for.
    pub closed spec fn target(&self) -> u128 {
        self.target
    }

    /// The listings handed to the search so far, by directory.
    pub closed spec fn listed(&self) -> Map<u128, Seq<(u128, EntryType)>> {
        self.listed@
    }

    /// The directories visited so far, in the order they were taken.
    pub closed spec fn visited(&self) -> Seq<u128> {
        self.seen@
    }

    /// The directory whose listing the search waits for, if any.
    pub closed spec fn pending(&self) -> Option<u128> {
        self.pending
    }

    /// The search's bookkeeping is consistent.
    pub closed spec fn wf(&self) -> bool {
        let listed = self.listed@;
        let root = self.root@;
        &&& self.target != root
        &&& self.visited == self.seen@.len()
        &&& self.visited <= MAX_SUBTREE_NODES
        // Each directory is visited once.
        &&& forall|i: int, j: int| 0 <= i < j < self.seen@.len() ==> #[trigger] self.seen@[i] != #[trigger] self.seen@[j]
        // Visited directories are listed, but for the one waited on.
        &&& forall|i: int| 0 <= i < self.seen@.len() ==> (#[trigger] listed.contains_key(self.seen@[i]) || self.pending
            == Some(self.seen@[i]))
        &&& forall|s: u128| #[trigger] listed.contains_key(s) ==> self.seen@.contains(s)
        &&& (self.pending matches Some(p) ==> self.seen@.contains(p) && !listed.contains_key(p))
        // Everything visited or queued lies beneath the root.
        &&& forall|i: int| 0 <= i < self.seen@.len() ==> reachable(listed, root, #[trigger] self.seen@[i])
        &&& forall|i: int| 0 <= i < self.stack@.len() ==> reachable(listed, root, #[trigger] self.stack@[i])
        // Everything a listing names as a directory is visited or queued.
        &&& forall|s: u128, c: u128| #[trigger] listed.contains_key(s) && lists_dir(listed[s], c) ==> self.seen@.contains(c)
            || #[trigger] self.stack@.contains(c)
        // The root is visited or queued.
        &&& (self.seen@.contains(root) || self.stack@.contains(root))
        // The target has not been named by any listing read.
        &&& forall|s: u128| #[trigger] listed.contains_key(s) ==> !lists_inode(listed[s], self.target)
    }

    /// Starts a search for `target` beneath `root`. A directory contains itself.
    pub fn start(root: u128, target: u128) -> (r: (Self, SearchStep))
        ensures
            root == target ==> r.1 == SearchStep::Found,
            root != target ==> {
                &&& r.0.wf()
                &&& r.0.root() == root
                &&& r.0.target() == target
                &&& r.0.listed() == Map::<u128, Seq<(u128, EntryType)>>::empty()
                &&& r.1 == SearchStep::Visit(root)
                &&& r.0.pending() == Some(root)
            },
    {
        if root == target {
            let s = SubtreeSearch {
                target,
                stack: Vec::new(),
                seen: Vec::new(),
                visited: 0,
                pending: None,
                root: Ghost(root),
                listed: Ghost(Map::empty()),
            };
            return (s, SearchStep::Found);
        }
        let s = SubtreeSearch {
            target,
            stack: Vec::new(),
            seen: vec![root],
            visited: 1,
            pending: Some(root),
            root: Ghost(root),
            listed: Ghost(Map::empty()),
        };
        proof {
            assert(s.seen@[0] == root);
            assert(s.seen@.contains(root));
            lemma_root_reachable(Map::empty(), root);
        }
        (s, SearchStep::Visit(root))
    }

    /// Takes the next unvisited directory off the queue.
    fn advance(&mut self) -> (step: SearchStep)
        requires
            old(self).wf(),
            old(self).pending() is None,
        ensures
            final(self).root() == old(self).root(),
            final(self).target() == old(self).target(),
            final(self).listed() == old(self).listed(),
            match step {
                SearchStep::Visit(x) => final(self).wf() && final(self).pending() == Some(x) && reachable(
                    final(self).listed(),
                    final(self).root(),
                    x,
                ),
                SearchStep::Absent => closed_under_listing(final(self).listed(), final(self).root()) && forall|s: u128|
                    #[trigger] final(self).listed().contains_key(s) ==> !lists_inode(final(self).listed()[s], final(self).target()),
                SearchStep::TooLarge => final(self).visited().len() == MAX_SUBTREE_NODES && (forall|i: int|
                    0 <= i < final(self).visited().len() ==> reachable(final(self).listed(), final(self).root(), #[trigger] final(self).visited()[i]))
                    && (forall|i: int, j: int| 0 <= i < j < final(self).visited().len() ==> #[trigger] final(self).visited()[i] != #[trigger] final(self).visited()[j])
                    && exists|x: u128|
                    reachable(final(self).listed(), final(self).root(), x) && !(#[trigger] final(self).visited().contains(x)),
                SearchStep::Found => false,
            },
    {
        loop
            invariant
                self.wf(),
                self.pending is None,
                self.root@ == old(self).root@,
                self.target == old(self).target,
                self.listed@ == old(self).listed@,
            decreases self.stack@.len(),
        {
            if self.stack.len() == 0 {
                proof {
                    assert forall|i: int| 0 <= i < self.seen@.len() implies #[trigger] self.listed@.contains_key(self.seen@[i]) by {}
                    assert(self.seen@.contains(self.root@));
                    let k = choose|k: int| 0 <= k < self.seen@.len() && self.seen@[k] == self.root@;
                    assert(self.listed@.contains_key(self.seen@[k]));
                    assert forall|s: u128, c: u128| #[trigger] self.listed@.contains_key(s) && lists_dir(self.listed@[s], c)
                        implies #[trigger] self.listed@.contains_key(c) by {
                        assert(!self.stack@.contains(c));
                        assert(self.seen@.contains(c));
                        let m = choose|m: int| 0 <= m < self.seen@.len() && self.seen@[m] == c;
                        assert(self.listed@.contains_key(self.seen@[m]));
                    }
                }
                return SearchStep::Absent;
            }
            let ghost st0 = self.stack@;
            let x = self.stack.pop().unwrap();
            proof {
                assert(st0 == self.stack@.push(x));
                assert(reachable(self.listed@, self.root@, st0[st0.len() - 1]));
                assert forall|i: int| 0 <= i < self.stack@.len() implies reachable(self.listed@, self.root@, #[trigger] self.stack@[i]) by {
                    assert(self.stack@[i] == st0[i]);
                }
            }
            if vec_has(&self.seen, x) {
                proof {
                    assert forall|s: u128, c: u128| #[trigger] self.listed@.contains_key(s) && lists_dir(self.listed@[s], c)
                        implies self.seen@.contains(c) || #[trigger] self.stack@.contains(c) by {
                        if !self.seen@.contains(c) {
                            assert(st0.contains(c));
                            let k = choose|k: int| 0 <= k < st0.len() && st0[k] == c;
                            if k < st0.len() - 1 {
                                assert(self.stack@[k] == c);
                            }
                        }
                    }
                    if !self.seen@.contains(self.root@) {
                        let k = choose|k: int| 0 <= k < st0.len() && st0[k] == self.root@;
                        if k < st0.len() - 1 {
                            assert(self.stack@[k] == self.root@);
                        }
                    }
                }
            } else {
                if self.visited >= MAX_SUBTREE_NODES {
                    proof {
                        assert(reachable(self.listed@, self.root@, x));
                        assert(!self.seen@.contains(x));
                    }
                    return SearchStep::TooLarge;
                }
                let ghost seen0 = self.seen@;
                self.seen.push(x);
                self.visited = self.visited + 1;
                self.pending = Some(x);
                proof {
                    assert(self.seen@ == seen0.push(x));
                    assert(self.seen@[seen0.len() as int] == x);
                    assert forall|i: int| 0 <= i < self.seen@.len() implies reachable(self.listed@, self.root@, #[trigger] self.seen@[i]) by {
                        if i < seen0.len() {
                            assert(self.seen@[i] == seen0[i]);
                        }
                    }
                    assert forall|i: int, j: int| 0 <= i < j < self.seen@.len() implies #[trigger] self.seen@[i] != #[trigger] self.seen@[j] by {
                        if j == seen0.len() {
                            assert(self.seen@[i] == seen0[i]);
                        } else {
                            assert(self.seen@[i] == seen0[i]);
                            assert(self.seen@[j] == seen0[j]);
                        }
                    }
                    assert forall|i: int| 0 <= i < self.seen@.len() implies (#[trigger] self.listed@.contains_key(self.seen@[i])
                        || self.pending == Some(self.seen@[i])) by {
                        if i < seen0.len() {
                            assert(self.seen@[i] == seen0[i]);
                        }
                    }
                    assert forall|s: u128| #[trigger] self.listed@.contains_key(s) implies self.seen@.contains(s) by {
                        assert(seen0.contains(s));
                        let k = choose|k: int| 0 <= k < seen0.len() && seen0[k] == s;
                        assert(self.seen@[k] == s);
                    }
                    assert(self.seen@.contains(x));
                    assert(!self.listed@.contains_key(x));
                    assert forall|s: u128, c: u128| #[trigger] self.listed@.contains_key(s) && lists_dir(self.listed@[s], c)
                        implies self.seen@.contains(c) || #[trigger] self.stack@.contains(c) by {
                        if seen0.contains(c) {
                            let k = choose|k: int| 0 <= k < seen0.len() && seen0[k] == c;
                            assert(self.seen@[k] == c);
                        } else if c == x {
                        } else {
                            assert(st0.contains(c));
                            let k = choose|k: int| 0 <= k < st0.len() && st0[k] == c;
                            if k < st0.len() - 1 {
                                assert(self.stack@[k] == c);
                            }
                        }
                    }
                    if seen0.contains(self.root@) {
                        let k = choose|k: int| 0 <= k < seen0.len() && seen0[k] == self.root@;
                        assert(self.seen@[k] == self.root@);
                    } else if x != self.root@ {
                        let k = choose|k: int| 0 <= k < st0.len() && st0[k] == self.root@;
                        if k < st0.len() - 1 {
                            assert(self.stack@[k] == self.root@);
                        }
                    }
                }
                return SearchStep::Visit(x);
            }
        }
    }

    /// Takes the listing of the directory the search asked for. The target named in it
    /// ends the search; the directories in it are queued; then the next directory is
    /// taken off the queue.
    pub fn on_listing(&mut self, entries: &Vec<DirEntry>) -> (step: SearchStep)
        requires
            old(self).wf(),
            old(self).pending() is Some,
        ensures
            final(self).root() == old(self).root(),
            final(self).target() == old(self).target(),
            step == SearchStep::Found ==> lists_inode(listing_of(entries@), old(self).target()) && reachable(
                old(self).listed(),
                old(self).root(),
                old(self).pending()->0,
            ),
            step != SearchStep::Found ==> final(self).listed() == old(self).listed().insert(
                old(self).pending()->0,
                listing_of(entries@),
            ),
            match step {
                SearchStep::Visit(x) => final(self).wf() && final(self).pending() == Some(x) && reachable(
                    final(self).listed(),
                    final(self).root(),
                    x,
                ),
                SearchStep::Absent => closed_under_listing(final(self).listed(), final(self).root()) && forall|s: u128|
                    #[trigger] final(self).listed().contains_key(s) ==> !lists_inode(final(self).listed()[s], final(self).target()),
                SearchStep::TooLarge => final(self).visited().len() == MAX_SUBTREE_NODES && (forall|i: int|
                    0 <= i < final(self).visited().len() ==> reachable(final(self).listed(), final(self).root(), #[trigger] final(self).visited()[i]))
                    && (forall|i: int, j: int| 0 <= i < j < final(self).visited().len() ==> #[trigger] final(self).visited()[i] != #[trigger] final(self).visited()[j])
                    && exists|x: u128|
                    reachable(final(self).listed(), final(self).root(), x) && !(#[trigger] final(self).visited().contains(x)),
                SearchStep::Found => true,
            },
    {
        let x = match self.pending {
            Some(p) => p,
            None => 0,
        };
        let ghost lst = listing_of(entries@);
        let ghost listed0 = self.listed@;
        let ghost st_in = self.stack@;
        let mut i: usize = 0;
        while i < entries.len()
            invariant
                i <= entries@.len(),
                lst == listing_of(entries@),
                self.pending == Some(x),
                self.target == old(self).target,
                self.root@ == old(self).root@,
                self.listed@ == listed0,
                listed0 == old(self).listed@,
                self.seen@ == old(self).seen@,
                self.visited == old(self).visited,
                old(self).wf(),
                old(self).pending() == Some(x),
                self.stack@.len() >= st_in.len(),
                self.stack@.subrange(0, st_in.len() as int) == st_in,
                st_in == old(self).stack@,
                forall|j: int| 0 <= j < i ==> lst[j].0 != self.target,
                forall|j: int| 0 <= j < i && lst[j].1 == EntryType::Dir ==> #[trigger] self.stack@.contains(lst[j].0),
                forall|k: int| st_in.len() <= k < self.stack@.len() ==> lists_dir(lst, #[trigger] self.stack@[k]),
            decreases entries@.len() - i,
        {
            assert(lst[i as int] == (entries@[i as int].inode_id, entries@[i as int].entry_type));
            if entries[i].inode_id == self.target {
                proof {
                    assert(lst[i as int].0 == self.target);
                    assert(old(self).seen@.contains(x));
                    let k = choose|k: int| 0 <= k < old(self).seen@.len() && old(self).seen@[k] == x;
                    assert(reachable(listed0, old(self).root@, old(self).seen@[k]));
                }
                return SearchStep::Found;
            }
            if entries[i].entry_type == EntryType::Dir {
                let ghost s0 = self.stack@;
                assert(forall|j: int| 0 <= j < i && lst[j].1 == EntryType::Dir ==> #[trigger] s0.contains(lst[j].0));
                self.stack.push(entries[i].inode_id);
                proof {
                    assert(self.stack@ == s0.push(lst[i as int].0));
                    assert(self.stack@.subrange(0, st_in.len() as int) =~= s0.subrange(0, st_in.len() as int));
                    assert(lst.contains(lst[i as int]));
                    assert forall|j: int| 0 <= j < i + 1 && lst[j].1 == EntryType::Dir implies #[trigger] self.stack@.contains(lst[j].0) by {
                        if j < i {
                            assert(s0.contains(lst[j].0));
                            let k = choose|k: int| 0 <= k < s0.len() && s0[k] == lst[j].0;
                            assert(self.stack@[k] == lst[j].0);
                        } else {
                            assert(self.stack@[s0.len() as int] == lst[j].0);
                        }
                    }
                    assert forall|k: int| st_in.len() <= k < self.stack@.len() implies lists_dir(lst, #[trigger] self.stack@[k]) by {
                        if k < s0.len() {
                            assert(self.stack@[k] == s0[k]);
                        } else {
                            assert(lst[i as int] == (lst[i as int].0, EntryType::Dir));
                        }
                    }
                }
            }
            i = i + 1;
        }
        self.pending = None;
        self.listed = Ghost(listed0.insert(x, lst));
        proof {
            let root = self.root@;
            let new_listed = listed0.insert(x, lst);
            let old_stack = st_in;
            assert forall|k: int| 0 <= k < old_stack.len() implies #[trigger] self.stack@[k] == old_stack[k] by {
                assert(self.stack@.subrange(0, old_stack.len() as int)[k] == old_stack[k]);
            }
            // Reachable directories stay reachable when a listing is added.
            assert forall|y: u128| reachable(listed0, root, y) implies reachable(new_listed, root, y) by {
                lemma_reachable_grows(listed0, root, x, lst, y);
            }
            assert(old(self).seen@.contains(x));
            let kx = choose|k: int| 0 <= k < old(self).seen@.len() && old(self).seen@[k] == x;
            assert(reachable(listed0, root, old(self).seen@[kx]));
            assert(reachable(new_listed, root, x));
            assert forall|i: int| 0 <= i < self.seen@.len() implies reachable(new_listed, root, #[trigger] self.seen@[i]) by {
                assert(reachable(listed0, root, self.seen@[i]));
            }
            assert forall|k: int| 0 <= k < self.stack@.len() implies reachable(new_listed, root, #[trigger] self.stack@[k]) by {
                if k < old_stack.len() {
                    assert(reachable(listed0, root, old_stack[k]));
                } else {
                    assert(lists_dir(lst, self.stack@[k]));
                    assert(new_listed.contains_key(x));
                    assert(new_listed[x] == lst);
                    lemma_reachable_step(new_listed, root, x, self.stack@[k]);
                }
            }
            assert forall|i: int| 0 <= i < self.seen@.len() implies (#[trigger] new_listed.contains_key(self.seen@[i])
                || self.pending == Some(self.seen@[i])) by {
                if self.seen@[i] != x {
                    assert(listed0.contains_key(self.seen@[i]));
                }
            }
            assert forall|s: u128| #[trigger] new_listed.contains_key(s) implies self.seen@.contains(s) by {
                if s != x {
                    assert(listed0.contains_key(s));
                }
            }
            assert forall|s: u128, c: u128| #[trigger] new_listed.contains_key(s) && lists_dir(new_listed[s], c)
                implies self.seen@.contains(c) || #[trigger] self.stack@.contains(c) by {
                if s == x {
                    let j = choose|j: int| 0 <= j < lst.len() && lst[j] == (c, EntryType::Dir);
                    assert(lst[j].1 == EntryType::Dir);
                    assert(self.stack@.contains(lst[j].0));
                } else {
                    assert(listed0.contains_key(s));
                    assert(new_listed[s] == listed0[s]);
                    if !self.seen@.contains(c) {
                        assert(old_stack.contains(c));
                        let k = choose|k: int| 0 <= k < old_stack.len() && old_stack[k] == c;
                        assert(self.stack@[k] == c);
                    }
                }
            }
            if !self.seen@.contains(root) {
                assert(old_stack.contains(root));
                let k = choose|k: int| 0 <= k < old_stack.len() && old_stack[k] == root;
                assert(self.stack@[k] == root);
            }
            assert forall|s: u128| #[trigger] new_listed.contains_key(s) implies !lists_inode(new_listed[s], self.target) by {
                if s == x {
                    assert(new_listed[s] == lst);
                    if lists_inode(lst, self.target) {
                        let j = choose|j: int| 0 <= j < lst.len() && (#[trigger] lst[j]).0 == self.target;
                        assert(lst[j].0 != self.target);
                    }
                } else {
                    assert(new_listed[s] == listed0[s]);
                }
            }
        }
        self.advance()
    }
}

/// Whether `v` holds `x`.
fn vec_has(v: &Vec<u128>, x: u128) -> (r: bool)
    ensures
        r == v@.contains(x),
{
    let mut i: usize = 0;
    while i < v.len()
        invariant
            i <= v@.len(),
            forall|j: int| 0 <= j < i ==> v@[j] != x,
        decreases v@.len() - i,
    {
        if v[i] == x {
            assert(v@[i as int] == x);
            return true;
        }
        i = i + 1;
    }
    false
}

/// Why a rename was refused by the subtree check.
#[derive(Debug, Clone, Copy, PartialEq, Eq, Structural)]
pub enum MoveError {
    /// The new parent lies beneath the directory being moved.
    IntoOwnSubtree,
    /// The search gave up after [`MAX_SUBTREE_NODES`] directories.
    TreeTooLarge,
}

impl MoveError {
    /// The operator-facing explanation.
    pub fn message(&self) -> (s: String)
        ensures
            s@ == (match *self {
                MoveError::IntoOwnSubtree => "cannot move a directory into its own subtree"@,
                MoveError::TreeTooLarge => "directory tree walk exceeded 1000000 nodes"@,
            }),
    {
        match self {
            MoveError::IntoOwnSubtree => String::from_str("cannot move a directory into its own subtree"),
            MoveError::TreeTooLarge => String::from_str("directory tree walk exceeded 1000000 nodes"),
        }
    }
}

/// Whether a rename may move an entry of `kind` to its new parent, given the finished
/// search for the new parent beneath the moved entry. Moving a directory beneath itself
/// would detach the subtree from the root, so it is refused; a file has no subtree and
/// always moves.
pub fn check_move(kind: EntryType, search: SearchStep) -> (r: Result<(), MoveError>)
    requires
        kind == EntryType::Dir ==> !(search is Visit),
    ensures
        r == (if kind == EntryType::File {
            Ok(())
        } else {
            match search {
                SearchStep::Found => Err(MoveError::IntoOwnSubtree),
                SearchStep::TooLarge => Err(MoveError::TreeTooLarge),
                _ => Ok(()),
            }
        }),
{
    if kind == EntryType::File {
        return Ok(());
    }
    match search {
        SearchStep::Found => Err(MoveError::IntoOwnSubtree),
        SearchStep::TooLarge => Err(MoveError::TreeTooLarge),
        _ => Ok(()),
    }
}

} // verus!
