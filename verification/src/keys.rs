//! Byte layouts of the keys the store is indexed by.
//!
//! Every key is a short ASCII prefix followed by fixed-width big-endian integers.
//! Fixed width and big-endian together are what make key order agree with number
//! order, so a prefix scan reads the records back already sorted.

use vstd::prelude::*;
use vstd::arithmetic::div_mod::lemma_mod_breakdown;
use crate::envelope::bytes_lt;

verus! {

/// `256^n`.
pub open spec fn pow256(n: nat) -> nat
    decreases n,
{
    if n == 0 {
        1
    } else {
        256 * pow256((n - 1) as nat)
    }
}

/// The low `n` bytes of `x`, most significant first.
pub open spec fn be_bytes(x: nat, n: nat) -> Seq<u8>
    decreases n,
{
    if n == 0 {
        Seq::empty()
    } else {
        be_bytes(x / 256, (n - 1) as nat).push((x % 256) as u8)
    }
}

/// The number whose big-endian bytes are `s`.
pub open spec fn be_value(s: Seq<u8>) -> nat
    decreases s.len(),
{
    if s.len() == 0 {
        0
    } else {
        be_value(s.drop_last()) * 256 + s.last() as nat
    }
}

pub proof fn lemma_pow256_positive(n: nat)
    ensures
        pow256(n) > 0,
    decreases n,
{
    if n > 0 {
        lemma_pow256_positive((n - 1) as nat);
    }
}

pub proof fn lemma_be_bytes_len(x: nat, n: nat)
    ensures
        be_bytes(x, n).len() == n,
    decreases n,
{
    if n > 0 {
        lemma_be_bytes_len(x / 256, (n - 1) as nat);
    }
}

/// Reading back `n` written bytes gives the number modulo `256^n`.
pub proof fn lemma_be_round_trip(x: nat, n: nat)
    ensures
        be_value(be_bytes(x, n)) == x % pow256(n),
    decreases n,
{
    lemma_pow256_positive(n);
    if n == 0 {
    } else {
        let m = (n - 1) as nat;
        lemma_be_round_trip(x / 256, m);
        lemma_pow256_positive(m);
        let s = be_bytes(x, n);
        assert(s.drop_last() =~= be_bytes(x / 256, m));
        assert(s.last() == (x % 256) as u8);
        lemma_mod_breakdown(x as int, 256, pow256(m) as int);
        assert(x % pow256(n) == 256 * ((x / 256) % pow256(m)) + x % 256);
    }
}

/// A number below `256^n` survives a round trip through `n` bytes.
pub proof fn lemma_be_round_trip_exact(x: nat, n: nat)
    requires
        x < pow256(n),
    ensures
        be_value(be_bytes(x, n)) == x,
{
    lemma_be_round_trip(x, n);
    lemma_pow256_positive(n);
    vstd::arithmetic::div_mod::lemma_small_mod(x, pow256(n));
}

pub proof fn lemma_pow256_16()
    ensures
        pow256(16) == 0x1_0000_0000_0000_0000_0000_0000_0000_0000,
{
    reveal_with_fuel(pow256, 17);
}

pub proof fn lemma_pow256_8()
    ensures
        pow256(8) == 0x1_0000_0000_0000_0000,
{
    reveal_with_fuel(pow256, 9);
}

/// Appends the low `n` bytes of `x`, most significant first.
pub fn push_be(out: &mut Vec<u8>, x: u128, n: usize)
    ensures
        final(out)@ == old(out)@ + be_bytes(x as nat, n as nat),
    decreases n,
{
    if n > 0 {
        push_be(out, x / 256, n - 1);
        out.push((x % 256) as u8);
        assert(final(out)@ =~= old(out)@ + be_bytes(x as nat, n as nat));
    }
}

/// Reads `s[lo..lo + n]` as a big-endian number (`n <= 16`).
pub fn read_be(s: &[u8], lo: usize, n: usize) -> (x: u128)
    requires
        n <= 16,
        lo + n <= s@.len(),
    ensures
        x as nat == be_value(s@.subrange(lo as int, lo + n)),
        (x as nat) < pow256(n as nat),
{
    let len = s.len();
    let mut acc: u128 = 0;
    let mut i: usize = 0;
    proof {
        lemma_pow256_16();
        assert(s@.subrange(lo as int, lo as int) =~= Seq::<u8>::empty());
    }
    while i < n
        invariant
            i <= n <= 16,
            len == s@.len(),
            lo + n <= s@.len(),
            acc as nat == be_value(s@.subrange(lo as int, lo + i)),
            acc < pow256(i as nat),
            pow256(16) == 0x1_0000_0000_0000_0000_0000_0000_0000_0000,
        decreases n - i,
    {
        let b = s[lo + i];
        proof {
            assert(s@.subrange(lo as int, lo + i + 1).drop_last() =~= s@.subrange(lo as int, lo + i));
            lemma_pow256_monotone((i + 1) as nat, 16);
            assert(acc * 256 + b < pow256((i + 1) as nat)) by (nonlinear_arith)
                requires
                    acc < pow256(i as nat),
                    b < 256,
                    pow256((i + 1) as nat) == 256 * pow256(i as nat),
            ;
        }
        acc = acc * 256 + b as u128;
        i = i + 1;
    }
    acc
}

pub proof fn lemma_pow256_monotone(a: nat, b: nat)
    requires
        a <= b,
    ensures
        pow256(a) <= pow256(b),
    decreases b,
{
    if a < b {
        lemma_pow256_monotone(a, (b - 1) as nat);
        lemma_pow256_positive((b - 1) as nat);
    }
}

// --- prefixes -------------------------------------------------------------

/// `dir\0`
pub open spec fn dir_prefix() -> Seq<u8> {
    seq![100u8, 105, 114, 0]
}

/// `inode\0`
pub open spec fn inode_prefix() -> Seq<u8> {
    seq![105u8, 110, 111, 100, 101, 0]
}

/// `imap\0`
pub open spec fn imap_prefix() -> Seq<u8> {
    seq![105u8, 109, 97, 112, 0]
}

/// `parent\0`
pub open spec fn parent_prefix() -> Seq<u8> {
    seq![112u8, 97, 114, 101, 110, 116, 0]
}

/// `op\0`
pub open spec fn op_prefix() -> Seq<u8> {
    seq![111u8, 112, 0]
}

/// `applied\0`
pub open spec fn applied_prefix() -> Seq<u8> {
    seq![97u8, 112, 112, 108, 105, 101, 100, 0]
}

/// `peer/key/`
pub open spec fn peer_key_prefix() -> Seq<u8> {
    seq![112u8, 101, 101, 114, 47, 107, 101, 121, 47]
}

/// `peer/seal/`
pub open spec fn seal_key_prefix() -> Seq<u8> {
    seq![112u8, 101, 101, 114, 47, 115, 101, 97, 108, 47]
}

/// The key for an inode under `prefix`: the prefix, then the inode in 16 big-endian bytes.
pub open spec fn inode_keyed(prefix: Seq<u8>, inode: u128) -> Seq<u8> {
    prefix + be_bytes(inode as nat, 16)
}

/// The key for an operation under `prefix`: the prefix, the device in 16 bytes and the
/// counter in 8, both big-endian.
pub open spec fn op_keyed(prefix: Seq<u8>, device: u128, counter: u64) -> Seq<u8> {
    prefix + be_bytes(device as nat, 16) + be_bytes(counter as nat, 8)
}

fn prefix_vec(p: &[u8]) -> (v: Vec<u8>)
    ensures
        v@ == p@,
{
    let mut v: Vec<u8> = Vec::new();
    let mut i: usize = 0;
    while i < p.len()
        invariant
            i <= p@.len(),
            v@ == p@.subrange(0, i as int),
        decreases p@.len() - i,
    {
        v.push(p[i]);
        i = i + 1;
        assert(v@ =~= p@.subrange(0, i as int));
    }
    assert(p@.subrange(0, i as int) =~= p@);
    v
}

/// The prefix followed by the inode in 16 big-endian bytes.
fn prefixed_key(prefix: &[u8], inode: u128) -> (k: Vec<u8>)
    ensures
        k@ == inode_keyed(prefix@, inode),
{
    let mut k = prefix_vec(prefix);
    push_be(&mut k, inode, 16);
    k
}

/// Where a directory's map is stored.
pub fn dir_key(inode: u128) -> (k: Vec<u8>)
    ensures
        k@ == inode_keyed(dir_prefix(), inode),
{
    let p: [u8; 4] = [100u8, 105, 114, 0];
    assert(p@ =~= dir_prefix());
    prefixed_key(&p, inode)
}

/// Where an inode's record is stored.
pub fn inode_key(inode: u128) -> (k: Vec<u8>)
    ensures
        k@ == inode_keyed(inode_prefix(), inode),
{
    let p: [u8; 6] = [105u8, 110, 111, 100, 101, 0];
    assert(p@ =~= inode_prefix());
    prefixed_key(&p, inode)
}

/// Where an inode's entry in the maintained inode map is stored.
pub fn imap_key(inode: u128) -> (k: Vec<u8>)
    ensures
        k@ == inode_keyed(imap_prefix(), inode),
{
    let p: [u8; 5] = [105u8, 109, 97, 112, 0];
    assert(p@ =~= imap_prefix());
    prefixed_key(&p, inode)
}

/// Where the directory an inode was created in is recorded.
pub fn parent_key(inode: u128) -> (k: Vec<u8>)
    ensures
        k@ == inode_keyed(parent_prefix(), inode),
{
    let p: [u8; 7] = [112u8, 97, 114, 101, 110, 116, 0];
    assert(p@ =~= parent_prefix());
    prefixed_key(&p, inode)
}

/// The inode an inode-map key names, when `key` is one.
pub open spec fn parse_imap_key_spec(key: Seq<u8>) -> Option<u128> {
    let n = imap_prefix().len();
    if key.len() == n + 16 && key.subrange(0, n as int) == imap_prefix() {
        Some(be_value(key.subrange(n as int, key.len() as int)) as u128)
    } else {
        None
    }
}

/// Reads the inode back out of an inode-map key, or `None` when `key` is not one.
pub fn parse_imap_key(key: &[u8]) -> (r: Option<u128>)
    ensures
        r == parse_imap_key_spec(key@),
        r matches Some(x) ==> x as nat == be_value(key@.subrange(5, 21)),
{
    let p: [u8; 5] = [105u8, 109, 97, 112, 0];
    assert(p@ =~= imap_prefix());
    if key.len() != 21 {
        return None;
    }
    let mut i: usize = 0;
    while i < 5
        invariant
            key@.len() == 21,
            p@ == imap_prefix(),
            i <= 5,
            forall|j: int| 0 <= j < i ==> key@[j] == p@[j],
        decreases 5 - i,
    {
        if key[i] != p[i] {
            assert(key@.subrange(0, 5)[i as int] != imap_prefix()[i as int]);
            return None;
        }
        i = i + 1;
    }
    assert(key@.subrange(0, 5) =~= imap_prefix());
    let x = read_be(key, 5, 16);
    proof {
        lemma_pow256_16();
    }
    Some(x)
}

/// Writing an inode-map key and reading it back gives the same inode.
pub proof fn lemma_imap_key_round_trip(inode: u128)
    ensures
        parse_imap_key_spec(inode_keyed(imap_prefix(), inode)) == Some(inode),
{
    let k = inode_keyed(imap_prefix(), inode);
    lemma_be_bytes_len(inode as nat, 16);
    lemma_pow256_16();
    lemma_be_round_trip_exact(inode as nat, 16);
    assert(k.subrange(0, 5) =~= imap_prefix());
    assert(k.subrange(5, k.len() as int) =~= be_bytes(inode as nat, 16));
}

/// Where an operation is stored in the log.
pub fn op_key(device: u128, counter: u64) -> (k: Vec<u8>)
    ensures
        k@ == op_keyed(op_prefix(), device, counter),
{
    let mut k: Vec<u8> = vec![111u8, 112, 0];
    assert(k@ =~= op_prefix());
    push_be(&mut k, device, 16);
    push_be(&mut k, counter as u128, 8);
    k
}

/// Where the fact that an operation was applied is stored.
pub fn applied_key(device: u128, counter: u64) -> (k: Vec<u8>)
    ensures
        k@ == op_keyed(applied_prefix(), device, counter),
{
    let mut k: Vec<u8> = vec![97u8, 112, 112, 108, 105, 101, 100, 0];
    assert(k@ =~= applied_prefix());
    push_be(&mut k, device, 16);
    push_be(&mut k, counter as u128, 8);
    k
}

/// The device and counter an operation-log key names, when `key` is one.
pub open spec fn parse_op_key_spec(key: Seq<u8>) -> Option<(u128, u64)> {
    if key.len() == 27 && key.subrange(0, 3) == op_prefix() {
        Some((be_value(key.subrange(3, 19)) as u128, be_value(key.subrange(19, 27)) as u64))
    } else {
        None
    }
}

/// Reads the device and counter back out of an operation-log key.
pub fn parse_op_key(key: &[u8]) -> (r: Option<(u128, u64)>)
    ensures
        r == parse_op_key_spec(key@),
        r matches Some((d, c)) ==> d as nat == be_value(key@.subrange(3, 19)) && c as nat == be_value(
            key@.subrange(19, 27),
        ),
{
    if key.len() != 27 || key[0] != 111u8 || key[1] != 112u8 || key[2] != 0u8 {
        proof {
            if key@.len() == 27 {
                assert(key@.subrange(0, 3)[0] == key@[0]);
                assert(key@.subrange(0, 3)[1] == key@[1]);
                assert(key@.subrange(0, 3)[2] == key@[2]);
            }
        }
        return None;
    }
    assert(key@.subrange(0, 3) =~= op_prefix());
    let d = read_be(key, 3, 16);
    let c = read_be(key, 19, 8);
    proof {
        lemma_pow256_8();
        lemma_pow256_16();
    }
    Some((d, c as u64))
}

/// Writing an operation-log key and reading it back gives the same id.
pub proof fn lemma_op_key_round_trip(device: u128, counter: u64)
    ensures
        parse_op_key_spec(op_keyed(op_prefix(), device, counter)) == Some((device, counter)),
{
    let k = op_keyed(op_prefix(), device, counter);
    lemma_be_bytes_len(device as nat, 16);
    lemma_be_bytes_len(counter as nat, 8);
    lemma_pow256_16();
    lemma_pow256_8();
    lemma_be_round_trip_exact(device as nat, 16);
    lemma_be_round_trip_exact(counter as nat, 8);
    assert(k.subrange(0, 3) =~= op_prefix());
    assert(k.subrange(3, 19) =~= be_bytes(device as nat, 16));
    assert(k.subrange(19, 27) =~= be_bytes(counter as nat, 8));
}

/// Where a peer's pinned signing key is stored.
pub fn peer_key(device: u128) -> (k: Vec<u8>)
    ensures
        k@ == inode_keyed(peer_key_prefix(), device),
{
    let p: [u8; 9] = [112u8, 101, 101, 114, 47, 107, 101, 121, 47];
    assert(p@ =~= peer_key_prefix());
    prefixed_key(&p, device)
}

/// Where a peer's sealing key is stored.
pub fn seal_key_for(device: u128) -> (k: Vec<u8>)
    ensures
        k@ == inode_keyed(seal_key_prefix(), device),
{
    let p: [u8; 10] = [112u8, 101, 101, 114, 47, 115, 101, 97, 108, 47];
    assert(p@ =~= seal_key_prefix());
    prefixed_key(&p, device)
}

/// A leading byte is worth `256^len` of what follows it.
proof fn lemma_be_value_prepend(h: u8, t: Seq<u8>)
    ensures
        be_value(seq![h] + t) == h * pow256(t.len()) + be_value(t),
    decreases t.len(),
{
    let s = seq![h] + t;
    if t.len() == 0 {
        assert(s.len() == 1);
        assert(s.last() == h);
        assert(s.drop_last() =~= Seq::<u8>::empty());
        assert(be_value(s.drop_last()) == 0);
        assert(be_value(s) == h as nat);
        assert(pow256(0) == 1);
        assert(h * pow256(t.len()) == h as int);
    } else {
        let m = (t.len() - 1) as nat;
        lemma_be_value_prepend(h, t.drop_last());
        assert(s.drop_last() =~= seq![h] + t.drop_last());
        assert(s.last() == t.last());
        let p = pow256(m);
        let v = be_value(t.drop_last());
        assert(be_value(s) == be_value(s.drop_last()) * 256 + s.last() as nat);
        assert(be_value(s.drop_last()) == h * p + v);
        assert(be_value(t) == v * 256 + t.last() as nat);
        assert(pow256(t.len()) == 256 * p);
        assert((h * p + v) * 256 == h * (256 * p) + v * 256) by (nonlinear_arith);
    }
}

/// `n` bytes read big-endian are worth less than `256^n`.
proof fn lemma_be_value_bound(t: Seq<u8>)
    ensures
        be_value(t) < pow256(t.len()),
    decreases t.len(),
{
    if t.len() > 0 {
        lemma_be_value_bound(t.drop_last());
        let p = pow256((t.len() - 1) as nat);
        let v = be_value(t.drop_last());
        let l = t.last() as nat;
        assert(v * 256 + l < 256 * p) by (nonlinear_arith)
            requires
                v < p,
                l < 256,
        ;
    }
}

/// For byte strings of one length, the lexicographic order is the order of their
/// big-endian values.
proof fn lemma_lex_is_numeric(a: Seq<u8>, b: Seq<u8>)
    requires
        a.len() == b.len(),
    ensures
        bytes_lt(a, b) <==> be_value(a) < be_value(b),
    decreases a.len(),
{
    if a.len() > 0 {
        let ta = a.drop_first();
        let tb = b.drop_first();
        assert(a =~= seq![a[0]] + ta);
        assert(b =~= seq![b[0]] + tb);
        lemma_be_value_prepend(a[0], ta);
        lemma_be_value_prepend(b[0], tb);
        lemma_be_value_bound(ta);
        lemma_be_value_bound(tb);
        lemma_lex_is_numeric(ta, tb);
        let p = pow256(ta.len());
        let x = a[0] as int;
        let y = b[0] as int;
        let va = be_value(ta) as int;
        let vb = be_value(tb) as int;
        if x < y {
            assert(x * p + va < y * p + vb) by (nonlinear_arith)
                requires
                    x < y,
                    0 <= va < p,
                    0 <= vb,
            ;
        } else if y < x {
            assert(y * p + vb < x * p + va) by (nonlinear_arith)
                requires
                    y < x,
                    0 <= vb < p,
                    0 <= va,
            ;
        }
    }
}

/// A shared prefix does not change the order.
proof fn lemma_lex_common_prefix(p: Seq<u8>, s: Seq<u8>, t: Seq<u8>)
    ensures
        bytes_lt(p + s, p + t) == bytes_lt(s, t),
    decreases p.len(),
{
    if p.len() > 0 {
        lemma_lex_common_prefix(p.drop_first(), s, t);
        assert((p + s).drop_first() =~= p.drop_first() + s);
        assert((p + t).drop_first() =~= p.drop_first() + t);
    }
}

/// Keys of one kind name one inode each, and sort as their inodes do: equal exactly
/// when the inodes are equal, and lexicographically smaller exactly when the inode is
/// smaller, so a range scan over the store visits inodes in ascending order.
pub proof fn lemma_inode_keys_order(prefix: Seq<u8>, a: u128, b: u128)
    ensures
        (inode_keyed(prefix, a) == inode_keyed(prefix, b)) <==> a == b,
        bytes_lt(inode_keyed(prefix, a), inode_keyed(prefix, b)) <==> a < b,
{
    lemma_pow256_16();
    lemma_be_round_trip_exact(a as nat, 16);
    lemma_be_round_trip_exact(b as nat, 16);
    lemma_be_bytes_len(a as nat, 16);
    lemma_be_bytes_len(b as nat, 16);
    let sa = be_bytes(a as nat, 16);
    let sb = be_bytes(b as nat, 16);
    if inode_keyed(prefix, a) == inode_keyed(prefix, b) {
        assert(sa =~= inode_keyed(prefix, a).subrange(prefix.len() as int, prefix.len() + 16int));
        assert(sb =~= inode_keyed(prefix, b).subrange(prefix.len() as int, prefix.len() + 16int));
    }
    lemma_lex_common_prefix(prefix, sa, sb);
    lemma_lex_is_numeric(sa, sb);
}

/// A directory's key is never an inode record's key: the two kinds differ in their
/// first byte.
pub proof fn lemma_dir_and_inode_keys_differ(a: u128, b: u128)
    ensures
        inode_keyed(dir_prefix(), a) != inode_keyed(inode_prefix(), b),
{
    assert(inode_keyed(dir_prefix(), a)[0] == 100u8);
    assert(inode_keyed(inode_prefix(), b)[0] == 105u8);
}

} // verus!
