//! Namespace records and the rules on names and paths.
//!
//! Content-addressed objects are immutable; everything that changes lives in CRDT form
//! (directory maps and inode registers), so two replicas applying the same operations
//! in different orders end up with identical state.

use vstd::prelude::*;
use crate::lww::LwwReg;
use crate::object::EntryType;
use crate::scan::{chars_of, string_of};

verus! {

/// What a directory map holds for one name.
#[derive(Debug, Clone, Copy, PartialEq, Eq, Structural)]
pub struct DirEntryValue {
    pub inode_id: u128,
    pub entry_type: EntryType,
    /// Timestamp of the operation that created this link, so conflict naming needs no
    /// log lookup and stays identical on every replica.
    pub created_unix_ms: u64,
}

/// Content of an inode, moved as one unit: hash, size and mtime change together.
#[derive(Debug, Clone, Copy, PartialEq, Eq)]
pub struct ContentState {
    /// Hash of the current file node, for files that have been written.
    pub node_hash: Option<[u8; 32]>,
    pub size: u64,
    pub mtime_unix_ms: u64,
}

#[derive(Debug, Clone, Copy, PartialEq, Eq, Structural)]
pub struct AttrState {
    pub mode: u32,
    pub uid: u32,
    pub gid: u32,
}

/// An inode: its kind, and its content and attributes as last-writer-wins registers.
#[derive(Debug)]
pub struct InodeRecord {
    pub kind: EntryType,
    pub content: LwwReg<ContentState>,
    pub attrs: LwwReg<AttrState>,
    pub ctime_unix_ms: u64,
}

impl InodeRecord {
    /// A fresh inode created at `now_ms` by the operation `(writer_id, seq)`: empty
    /// content, the given mode, owned by root.
    pub fn new(kind: EntryType, mode: u32, now_ms: u64, writer_id: u128, seq: u64) -> (r: Self)
        ensures
            r.kind == kind,
            r.content.value == (ContentState { node_hash: None, size: 0, mtime_unix_ms: now_ms }),
            r.content.key() == (now_ms, writer_id, seq),
            r.attrs.value == (AttrState { mode, uid: 0, gid: 0 }),
            r.attrs.key() == (now_ms, writer_id, seq),
            r.ctime_unix_ms == now_ms,
    {
        InodeRecord {
            kind,
            content: LwwReg::new(
                ContentState { node_hash: None, size: 0, mtime_unix_ms: now_ms },
                now_ms,
                writer_id,
                seq,
            ),
            attrs: LwwReg::new(AttrState { mode, uid: 0, gid: 0 }, now_ms, writer_id, seq),
            ctime_unix_ms: now_ms,
        }
    }
}

/// Why a name cannot be bound in a directory.
#[derive(Debug, Clone, Copy, PartialEq, Eq, Structural)]
pub enum NameError {
    /// The name is empty.
    Empty,
    /// The name contains `/`.
    Separator,
    /// The name is `.` or `..`.
    Reserved,
}

/// Whether `s` contains `c`.
pub open spec fn has_char(s: Seq<char>, c: char) -> bool {
    exists|i: int| 0 <= i < s.len() && s[i] == c
}

/// The verdict on a name.
pub open spec fn name_verdict(name: Seq<char>) -> Result<(), NameError> {
    if name.len() == 0 {
        Err(NameError::Empty)
    } else if has_char(name, '/') {
        Err(NameError::Separator)
    } else if name == seq!['.'] || name == seq!['.', '.'] {
        Err(NameError::Reserved)
    } else {
        Ok(())
    }
}

/// Reject names that would make path resolution ambiguous or escape the tree.
pub fn validate_name(name: &str) -> (r: Result<(), NameError>)
    ensures
        r == name_verdict(name@),
{
    let v = chars_of(name);
    let n = v.len();
    if n == 0 {
        return Err(NameError::Empty);
    }
    let mut i: usize = 0;
    while i < n
        invariant
            n == v@.len(),
            v@ == name@,
            i <= n,
            forall|j: int| 0 <= j < i ==> v@[j] != '/',
        decreases n - i,
    {
        if v[i] == '/' {
            return Err(NameError::Separator);
        }
        i = i + 1;
    }
    if (n == 1 && v[0] == '.') || (n == 2 && v[0] == '.' && v[1] == '.') {
        proof {
            if n == 1 {
                assert(name@ =~= seq!['.']);
            } else {
                assert(name@ =~= seq!['.', '.']);
            }
        }
        return Err(NameError::Reserved);
    }
    proof {
        if name@ == seq!['.'] {
            assert(name@[0] == '.');
        }
        if name@ == seq!['.', '.'] {
            assert(name@[0] == '.' && name@[1] == '.');
        }
    }
    Ok(())
}

/// Why a path was refused.
#[derive(Debug, Clone, Copy, PartialEq, Eq, Structural)]
pub enum PathError {
    /// The path climbs with `..`.
    Traversal,
}

/// The `/`-separated segments of `s` after the partial segment `cur`, as `str::split`
/// yields them: empty segments included, and always at least one.
pub open spec fn split_slash(s: Seq<char>, cur: Seq<char>) -> Seq<Seq<char>>
    decreases s.len(),
{
    if s.len() == 0 {
        seq![cur]
    } else if s[0] == '/' {
        seq![cur] + split_slash(s.drop_first(), Seq::empty())
    } else {
        split_slash(s.drop_first(), cur.push(s[0]))
    }
}

/// The components a path names: its segments without empty ones and `.`.
pub open spec fn path_components(segs: Seq<Seq<char>>) -> Seq<Seq<char>>
    decreases segs.len(),
{
    if segs.len() == 0 {
        Seq::empty()
    } else {
        let prev = path_components(segs.drop_last());
        let s = segs.last();
        if s.len() == 0 || s == seq!['.'] {
            prev
        } else {
            prev.push(s)
        }
    }
}

/// What splitting a path gives: its components, or a refusal when any segment is `..`.
pub open spec fn split_path_spec(path: Seq<char>) -> Result<Seq<Seq<char>>, PathError> {
    let segs = split_slash(path, Seq::empty());
    if exists|i: int| 0 <= i < segs.len() && #[trigger] segs[i] == seq!['.', '.'] {
        Err(PathError::Traversal)
    } else {
        Ok(path_components(segs))
    }
}

/// The strings of `v`, as character sequences.
pub open spec fn string_views(v: Seq<String>) -> Seq<Seq<char>> {
    v.map_values(|s: String| s@)
}

/// Split a path into components, rejecting traversal.
pub fn split_path(path: &str) -> (r: Result<Vec<String>, PathError>)
    ensures
        match r {
            Ok(parts) => split_path_spec(path@) == Ok::<Seq<Seq<char>>, PathError>(string_views(parts@)),
            Err(e) => split_path_spec(path@) == Err::<Seq<Seq<char>>, PathError>(e),
        },
{
    let v = chars_of(path);
    let n = v.len();
    let ghost segs = split_slash(v@, Seq::empty());
    let mut out: Vec<String> = Vec::new();
    let mut start: usize = 0;
    let mut pos: usize = 0;
    let ghost mut done: Seq<Seq<char>> = Seq::empty();
    proof {
        assert(v@.skip(0) =~= v@);
        assert(v@.subrange(0, 0) =~= Seq::<char>::empty());
    }
    // One pass over the characters; a segment is judged when its end is reached.
    loop
        invariant
            n == v@.len(),
            v@ == path@,
            segs == split_slash(v@, Seq::empty()),
            start <= pos <= n,
            segs == done + split_slash(v@.skip(pos as int), v@.subrange(start as int, pos as int)),
            forall|i: int| 0 <= i < done.len() ==> #[trigger] done[i] != seq!['.', '.'],
            string_views(out@) == path_components(done),
        decreases n - pos,
    {
        let ghost rest = v@.skip(pos as int);
        let ghost cur = v@.subrange(start as int, pos as int);
        let at_end = pos == n;
        if at_end || v[pos] == '/' {
            // The segment v[start..pos] is complete.
            let seg_len = pos - start;
            let is_dotdot = seg_len == 2 && v[start] == '.' && v[start + 1] == '.';
            let is_dot = seg_len == 1 && v[start] == '.';
            proof {
                if seg_len == 2 {
                    assert(cur.len() == 2 && cur[0] == v@[start as int] && cur[1] == v@[start + 1]);
                    if is_dotdot {
                        assert(cur =~= seq!['.', '.']);
                    }
                }
                if seg_len == 1 {
                    assert(cur[0] == v@[start as int]);
                    if is_dot {
                        assert(cur =~= seq!['.']);
                    }
                }
                if !at_end {
                    assert(rest[0] == '/');
                    assert(rest.drop_first() =~= v@.skip(pos + 1));
                }
            }
            if is_dotdot {
                proof {
                    let k = done.len() as int;
                    if at_end {
                        assert(rest.len() == 0);
                        assert(segs == done + seq![cur]);
                    } else {
                        assert(segs == done + (seq![cur] + split_slash(v@.skip(pos + 1), Seq::empty())));
                    }
                    assert(segs[k] == cur);
                }
                return Err(PathError::Traversal);
            }
            let ghost o0 = out@;
            if seg_len > 0 && !is_dot {
                let mut seg: Vec<char> = Vec::new();
                let mut j = start;
                while j < pos
                    invariant
                        start <= j <= pos <= n,
                        n == v@.len(),
                        seg@ == v@.subrange(start as int, j as int),
                    decreases pos - j,
                {
                    seg.push(v[j]);
                    j = j + 1;
                    assert(seg@ =~= v@.subrange(start as int, j as int));
                }
                let s = string_of(&seg);
                out.push(s);
            }
            proof {
                let d1 = done.push(cur);
                assert(d1.drop_last() =~= done);
                assert(d1.last() == cur);
                if seg_len > 0 && !is_dot {
                    assert(cur != seq!['.']) by {
                        if cur == seq!['.'] {
                            assert(cur.len() == 1 && cur[0] == '.');
                        }
                    }
                    assert(string_views(out@) =~= string_views(o0).push(cur));
                } else {
                    assert(cur.len() == 0 || cur == seq!['.']);
                    assert(string_views(out@) =~= string_views(o0));
                }
                assert(cur != seq!['.', '.']) by {
                    if cur == seq!['.', '.'] {
                        assert(cur.len() == 2 && cur[0] == '.' && cur[1] == '.');
                    }
                }
                done = d1;
            }
            if at_end {
                proof {
                    assert(rest.len() == 0);
                    assert(segs =~= done);
                    assert forall|i: int| 0 <= i < segs.len() implies #[trigger] segs[i] != seq!['.', '.'] by {
                        assert(segs[i] == done[i]);
                    }
                }
                return Ok(out);
            }
            proof {
                assert(v@.subrange(pos + 1, pos + 1) =~= Seq::<char>::empty());
                assert(segs =~= done + split_slash(v@.skip(pos + 1), v@.subrange(pos + 1, pos + 1)));
            }
            pos = pos + 1;
            start = pos;
        } else {
            proof {
                assert(rest[0] == v@[pos as int]);
                assert(rest.drop_first() =~= v@.skip(pos + 1));
                assert(cur.push(v@[pos as int]) =~= v@.subrange(start as int, pos + 1));
            }
            pos = pos + 1;
        }
    }
}

} // verus!
