//! Sealing a file key to one recipient.
//!
//! X25519 to a fresh ephemeral key, then XChaCha20-Poly1305 under a key derived from the
//! shared secret. The additional data names the recipient, which stops an envelope being
//! replayed at another device; the binding to a particular file comes from the signature
//! over the operation that carries it.

use vstd::prelude::*;
use crate::ordkey::KeyOrder;
use crate::primitives::{
    blake3_keyed, blake3_keyed_of, x25519_public, x25519_public_of, x25519_dh, x25519_dh_of,
    x25519_ephemeral_agreement, xchacha_seal, xchacha_seal_of, xchacha_open, xchacha_open_of,
    aead_limit, random_nonce,
};

verus! {

/// `nexusfs/envelope-key/v1`
pub open spec fn kdf_domain() -> Seq<u8> {
    seq![110u8, 101, 120, 117, 115, 102, 115, 47, 101, 110, 118, 101, 108, 111, 112, 101, 45, 107, 101, 121, 47, 118, 49]
}

/// `nexusfs/envelope-aad/v1`
pub open spec fn aad_domain() -> Seq<u8> {
    seq![110u8, 101, 120, 117, 115, 102, 115, 47, 101, 110, 118, 101, 108, 111, 112, 101, 45, 97, 97, 100, 47, 118, 49]
}

/// `nexusfs/recipient-set/v1`
pub open spec fn recipients_domain() -> Seq<u8> {
    seq![110u8, 101, 120, 117, 115, 102, 115, 47, 114, 101, 99, 105, 112, 105, 101, 110, 116, 45, 115, 101, 116, 47, 118, 49]
}

/// The envelope key derived from a shared secret.
pub open spec fn envelope_key_of(shared: Seq<u8>) -> Seq<u8> {
    blake3_keyed_of(shared, kdf_domain())
}

/// What an envelope is authenticated against: the recipient it was sealed for.
pub open spec fn aad_of(recipient: Seq<u8>) -> Seq<u8> {
    aad_domain() + recipient
}

fn kdf(shared: &[u8; 32]) -> (k: [u8; 32])
    ensures
        k@ == envelope_key_of(shared@),
{
    let d: [u8; 23] = [110u8, 101, 120, 117, 115, 102, 115, 47, 101, 110, 118, 101, 108, 111, 112, 101, 45, 107, 101, 121, 47, 118, 49];
    assert(d@ =~= kdf_domain());
    blake3_keyed(shared, &d)
}

/// The additional data an envelope for `recipient_pub` is bound to.
pub fn aad_for(recipient_pub: &[u8; 32]) -> (aad: Vec<u8>)
    ensures
        aad@ == aad_of(recipient_pub@),
{
    let mut aad: Vec<u8> = vec![110u8, 101, 120, 117, 115, 102, 115, 47, 101, 110, 118, 101, 108, 111, 112, 101, 45, 97, 97, 100, 47, 118, 49];
    assert(aad@ =~= aad_domain());
    let mut i: usize = 0;
    while i < 32
        invariant
            i <= 32,
            recipient_pub@.len() == 32,
            aad@ == aad_domain() + recipient_pub@.subrange(0, i as int),
        decreases 32 - i,
    {
        aad.push(recipient_pub[i]);
        i = i + 1;
        assert(aad@ =~= aad_domain() + recipient_pub@.subrange(0, i as int));
    }
    assert(recipient_pub@.subrange(0, 32) =~= recipient_pub@);
    aad
}

/// The X25519 public key matching a secret.
pub fn public_from_secret(secret: [u8; 32]) -> (pk: [u8; 32])
    ensures
        pk@ == x25519_public_of(secret@),
{
    x25519_public(&secret)
}

/// A file key sealed to one recipient.
#[derive(Debug, Clone)]
pub struct SealedFileKey {
    pub ephemeral_pub: [u8; 32],
    pub nonce: [u8; 24],
    pub ciphertext: Vec<u8>,
}

/// Why an envelope could not be made or opened.
#[derive(Debug, Clone, Copy, PartialEq, Eq, Structural)]
pub enum EnvelopeError {
    /// The cipher refused to encrypt.
    EncryptFailed,
    /// The envelope failed authentication: wrong recipient key or tampered data.
    Unauthentic,
}

/// Seals `file_key` to `recipient_pub` using an ephemeral X25519 key.
///
/// Whoever holds the secret behind `recipient_pub` derives the same envelope key from
/// the ephemeral public key carried in the envelope.
pub fn seal(recipient_pub: [u8; 32], file_key: &[u8]) -> (r: Result<SealedFileKey, EnvelopeError>)
    ensures
        r matches Ok(env) ==> forall|t: Seq<u8>|
            t.len() == 32 && recipient_pub@ == x25519_public_of(t) ==> env.ciphertext@ == xchacha_seal_of(
                envelope_key_of(x25519_dh_of(t, env.ephemeral_pub@)),
                env.nonce@,
                aad_of(recipient_pub@),
                file_key@,
            ),
        r is Err ==> r == Err::<SealedFileKey, EnvelopeError>(EnvelopeError::EncryptFailed),
        file_key@.len() < aead_limit() ==> r is Ok,
{
    let aad = aad_for(&recipient_pub);
    let (eph_pub, shared) = x25519_ephemeral_agreement(&recipient_pub);
    let key = kdf(&shared);
    let nonce = random_nonce();
    match xchacha_seal(&key, &nonce, aad.as_slice(), file_key) {
        Some(ct) => Ok(SealedFileKey { ephemeral_pub: eph_pub, nonce, ciphertext: ct }),
        None => Err(EnvelopeError::EncryptFailed),
    }
}

/// The envelope key a recipient holding `secret` derives for `env`.
pub open spec fn recipient_key_of(secret: Seq<u8>, env: SealedFileKey) -> Seq<u8> {
    envelope_key_of(x25519_dh_of(secret, env.ephemeral_pub@))
}

/// Opens an envelope with the recipient's X25519 secret.
///
/// An envelope sealed to this secret's public key opens to the sealed file key.
/// Failure is expected and cheap: a reader trials its key against every envelope on a
/// file, and most are addressed to somebody else.
pub fn open(recipient_secret: [u8; 32], env: &SealedFileKey) -> (r: Result<Vec<u8>, EnvelopeError>)
    ensures
        match r {
            Ok(p) => xchacha_open_of(
                recipient_key_of(recipient_secret@, *env),
                env.nonce@,
                aad_of(x25519_public_of(recipient_secret@)),
                env.ciphertext@,
            ) == Some(p@),
            Err(e) => e == EnvelopeError::Unauthentic && xchacha_open_of(
                recipient_key_of(recipient_secret@, *env),
                env.nonce@,
                aad_of(x25519_public_of(recipient_secret@)),
                env.ciphertext@,
            ) is None,
        },
        forall|m: Seq<u8>|
            m.len() < aead_limit() && env.ciphertext@ == xchacha_seal_of(
                recipient_key_of(recipient_secret@, *env),
                env.nonce@,
                aad_of(x25519_public_of(recipient_secret@)),
                m,
            ) ==> (r matches Ok(p) && p@ == m),
{
    let me = x25519_public(&recipient_secret);
    let aad = aad_for(&me);
    let shared = x25519_dh(&recipient_secret, &env.ephemeral_pub);
    let key = kdf(&shared);
    match xchacha_open(&key, &env.nonce, aad.as_slice(), env.ciphertext.as_slice()) {
        Some(p) => Ok(p),
        None => Err(EnvelopeError::Unauthentic),
    }
}

// --- the recipient-set digest ---------------------------------------------------

/// Strict lexicographic order on byte strings.
pub open spec fn bytes_lt(a: Seq<u8>, b: Seq<u8>) -> bool
    decreases a.len(),
{
    if a.len() == 0 {
        b.len() > 0
    } else if b.len() == 0 {
        false
    } else if a[0] < b[0] {
        true
    } else if a[0] == b[0] {
        bytes_lt(a.drop_first(), b.drop_first())
    } else {
        false
    }
}

pub proof fn lemma_bytes_order(a: Seq<u8>, b: Seq<u8>, c: Seq<u8>)
    ensures
        !bytes_lt(a, a),
        bytes_lt(a, b) && bytes_lt(b, c) ==> bytes_lt(a, c),
        bytes_lt(a, b) || bytes_lt(b, a) || a == b,
        !(bytes_lt(a, b) && bytes_lt(b, a)),
    decreases a.len(),
{
    if a.len() > 0 && b.len() > 0 && c.len() > 0 {
        lemma_bytes_order(a.drop_first(), b.drop_first(), c.drop_first());
    } else if a.len() > 0 && b.len() > 0 {
        lemma_bytes_order(a.drop_first(), b.drop_first(), b.drop_first());
    } else if a.len() > 0 {
        lemma_bytes_order(a.drop_first(), a.drop_first(), a.drop_first());
    }
    if a.len() > 0 && b.len() > 0 && a[0] == b[0] && a.drop_first() == b.drop_first() {
        assert(a =~= seq![a[0]] + a.drop_first());
        assert(b =~= seq![b[0]] + b.drop_first());
    }
    if a.len() == 0 && b.len() == 0 {
        assert(a =~= b);
    }
}

/// The views of a list of 32-byte keys.
pub open spec fn key_views(s: Seq<[u8; 32]>) -> Seq<Seq<u8>> {
    s.map_values(|k: [u8; 32]| k@)
}

/// Every key before another is strictly smaller: sorted, with no key twice.
pub open spec fn strictly_sorted(s: Seq<Seq<u8>>) -> bool {
    forall|i: int, j: int| 0 <= i < j < s.len() ==> bytes_lt(#[trigger] s[i], #[trigger] s[j])
}

/// `s` lists exactly the keys of `of`.
pub open spec fn lists_exactly(s: Seq<Seq<u8>>, of: Seq<Seq<u8>>) -> bool {
    forall|x: Seq<u8>| s.contains(x) <==> of.contains(x)
}

/// The keys of `s`, one after another.
pub open spec fn flatten(s: Seq<Seq<u8>>) -> Seq<u8>
    decreases s.len(),
{
    if s.len() == 0 {
        Seq::empty()
    } else {
        flatten(s.drop_last()) + s.last()
    }
}

fn compare_keys(a: &[u8; 32], b: &[u8; 32]) -> (o: KeyOrder)
    ensures
        (o == KeyOrder::Less) == bytes_lt(a@, b@),
        (o == KeyOrder::Equal) == (a@ == b@),
        (o == KeyOrder::Greater) == bytes_lt(b@, a@),
{
    proof {
        lemma_bytes_order(a@, b@, a@);
        assert(a@.skip(0) =~= a@);
        assert(b@.skip(0) =~= b@);
    }
    let mut i: usize = 0;
    while i < 32
        invariant
            i <= 32,
            a@.len() == 32,
            b@.len() == 32,
            bytes_lt(a@, b@) == bytes_lt(a@.skip(i as int), b@.skip(i as int)),
            bytes_lt(b@, a@) == bytes_lt(b@.skip(i as int), a@.skip(i as int)),
            a@.subrange(0, i as int) == b@.subrange(0, i as int),
        decreases 32 - i,
    {
        assert(a@.skip(i as int).drop_first() =~= a@.skip(i + 1));
        assert(b@.skip(i as int).drop_first() =~= b@.skip(i + 1));
        assert(a@.skip(i as int)[0] == a@[i as int]);
        assert(b@.skip(i as int)[0] == b@[i as int]);
        if a[i] < b[i] {
            assert(a@ != b@);
            return KeyOrder::Less;
        }
        if a[i] > b[i] {
            assert(a@ != b@);
            return KeyOrder::Greater;
        }
        assert(a@.subrange(0, i + 1) =~= a@.subrange(0, i as int).push(a@[i as int]));
        assert(b@.subrange(0, i + 1) =~= b@.subrange(0, i as int).push(b@[i as int]));
        i = i + 1;
    }
    assert(a@ =~= a@.subrange(0, 32));
    assert(b@ =~= b@.subrange(0, 32));
    assert(a@.skip(32).len() == 0 && b@.skip(32).len() == 0);
    KeyOrder::Equal
}

/// The keys of `recipients` sorted, each once.
pub(crate) fn sorted_unique(recipients: &[[u8; 32]]) -> (r: Vec<[u8; 32]>)
    ensures
        strictly_sorted(key_views(r@)),
        lists_exactly(key_views(r@), key_views(recipients@)),
{
    let mut out: Vec<[u8; 32]> = Vec::new();
    let mut i: usize = 0;
    while i < recipients.len()
        invariant
            i <= recipients@.len(),
            strictly_sorted(key_views(out@)),
            lists_exactly(key_views(out@), key_views(recipients@.subrange(0, i as int))),
        decreases recipients@.len() - i,
    {
        let x = recipients[i];
        let mut p: usize = 0;
        while p < out.len() && compare_keys(&out[p], &x) == KeyOrder::Less
            invariant
                p <= out@.len(),
                forall|j: int| 0 <= j < p ==> bytes_lt(#[trigger] out@[j]@, x@),
            decreases out@.len() - p,
        {
            p = p + 1;
        }
        let ghost o0 = out@;
        let dup = p < out.len() && compare_keys(&out[p], &x) == KeyOrder::Equal;
        if !dup {
            out.insert(p, x);
        }
        proof {
            let pre = recipients@.subrange(0, i + 1);
            assert(key_views(pre) =~= key_views(recipients@.subrange(0, i as int)).push(x@));
            let v0 = key_views(o0);
            let v1 = key_views(out@);
            if dup {
                assert(v1 == v0);
                assert forall|y: Seq<u8>| v1.contains(y) <==> key_views(pre).contains(y) by {
                    if y == x@ {
                        assert(v0[p as int] == x@);
                    }
                    if key_views(pre).contains(y) && y != x@ {
                        let k = choose|k: int| 0 <= k < key_views(pre).len() && key_views(pre)[k] == y;
                        assert(key_views(recipients@.subrange(0, i as int))[k] == y);
                    }
                    if key_views(recipients@.subrange(0, i as int)).contains(y) {
                        let k = choose|k: int| 0 <= k < key_views(recipients@.subrange(0, i as int)).len()
                            && key_views(recipients@.subrange(0, i as int))[k] == y;
                        assert(key_views(pre)[k] == y);
                    }
                }
            } else {
                assert(v1 =~= v0.insert(p as int, x@));
                assert forall|a: int, b: int| 0 <= a < b < v1.len() implies bytes_lt(#[trigger] v1[a], #[trigger] v1[b]) by {
                    lemma_bytes_order(v1[a], v1[b], x@);
                    if a < p && b < p {
                        assert(v1[a] == v0[a] && v1[b] == v0[b]);
                    } else if a < p && b == p {
                        assert(v1[a] == o0[a]@);
                    } else if a < p {
                        assert(v1[a] == v0[a] && v1[b] == v0[b - 1]);
                        lemma_bytes_order(v0[a], x@, v0[b - 1]);
                        if b - 1 > p {
                            lemma_bytes_order(x@, v0[p as int], v0[b - 1]);
                            lemma_bytes_order(v0[p as int], x@, x@);
                        } else {
                            lemma_bytes_order(v0[p as int], x@, x@);
                        }
                    } else if a == p {
                        assert(v1[b] == v0[b - 1]);
                        lemma_bytes_order(v0[p as int], x@, x@);
                        if b - 1 > p {
                            lemma_bytes_order(x@, v0[p as int], v0[b - 1]);
                        }
                    } else {
                        assert(v1[a] == v0[a - 1] && v1[b] == v0[b - 1]);
                    }
                }
                assert forall|y: Seq<u8>| v1.contains(y) <==> key_views(pre).contains(y) by {
                    if y == x@ {
                        assert(v1[p as int] == x@);
                        assert(key_views(pre)[i as int] == x@);
                    }
                    if v1.contains(y) && y != x@ {
                        let k = choose|k: int| 0 <= k < v1.len() && v1[k] == y;
                        if k < p {
                            assert(v0[k] == y);
                        } else {
                            assert(v0[k - 1] == y);
                        }
                    }
                    if v0.contains(y) {
                        let k = choose|k: int| 0 <= k < v0.len() && v0[k] == y;
                        if k < p {
                            assert(v1[k] == y);
                        } else {
                            assert(v1[k + 1] == y);
                        }
                    }
                    if key_views(pre).contains(y) && y != x@ {
                        let k = choose|k: int| 0 <= k < key_views(pre).len() && key_views(pre)[k] == y;
                        assert(key_views(recipients@.subrange(0, i as int))[k] == y);
                    }
                    if key_views(recipients@.subrange(0, i as int)).contains(y) {
                        let k = choose|k: int| 0 <= k < key_views(recipients@.subrange(0, i as int)).len()
                            && key_views(recipients@.subrange(0, i as int))[k] == y;
                        assert(key_views(pre)[k] == y);
                    }
                }
            }
        }
        i = i + 1;
    }
    assert(recipients@.subrange(0, i as int) =~= recipients@);
    out
}

/// The keys of `keys` sorted, each once.
pub open spec fn recipient_listing(keys: Seq<Seq<u8>>) -> Seq<Seq<u8>> {
    choose|s: Seq<Seq<u8>>| strictly_sorted(s) && lists_exactly(s, keys)
}

/// The digest of a recipient set: the keyed hash, under the file key, of the domain
/// followed by the recipients sorted and without repeats.
pub open spec fn recipients_digest_of(file_key: Seq<u8>, keys: Seq<Seq<u8>>) -> Seq<u8> {
    blake3_keyed_of(file_key, recipients_domain() + flatten(recipient_listing(keys)))
}

/// A key not yet in a sorted listing can be put in its place.
proof fn lemma_insert_sorted(s: Seq<Seq<u8>>, x: Seq<u8>)
    requires
        strictly_sorted(s),
        !s.contains(x),
    ensures
        exists|t: Seq<Seq<u8>>| strictly_sorted(t) && forall|y: Seq<u8>| #[trigger] t.contains(y) <==> (s.contains(y) || y == x),
    decreases s.len(),
{
    if s.len() == 0 {
        let t = seq![x];
        assert(strictly_sorted(t));
        assert forall|y: Seq<u8>| #[trigger] t.contains(y) <==> (s.contains(y) || y == x) by {
            if t.contains(y) {
                let i = choose|i: int| 0 <= i < t.len() && t[i] == y;
                assert(i == 0);
            }
            if y == x {
                assert(t[0] == y);
            }
        }
    } else {
        let h = s[0];
        lemma_bytes_order(x, h, h);
        if bytes_lt(x, h) {
            let t = seq![x] + s;
            assert forall|i: int, j: int| 0 <= i < j < t.len() implies bytes_lt(#[trigger] t[i], #[trigger] t[j]) by {
                if i == 0 {
                    if j > 1 {
                        assert(bytes_lt(s[0], s[j - 1]));
                        lemma_bytes_order(x, h, s[j - 1]);
                    }
                } else {
                    assert(bytes_lt(s[i - 1], s[j - 1]));
                }
            }
            assert forall|y: Seq<u8>| #[trigger] t.contains(y) <==> (s.contains(y) || y == x) by {
                if t.contains(y) {
                    let i = choose|i: int| 0 <= i < t.len() && t[i] == y;
                    if i > 0 {
                        assert(s[i - 1] == y);
                    }
                }
                if s.contains(y) {
                    let i = choose|i: int| 0 <= i < s.len() && s[i] == y;
                    assert(t[i + 1] == y);
                }
                if y == x {
                    assert(t[0] == y);
                }
            }
            assert(strictly_sorted(t));
        } else {
            assert(x != h);
            assert(bytes_lt(h, x));
            let rest = s.drop_first();
            assert forall|i: int, j: int| 0 <= i < j < rest.len() implies bytes_lt(#[trigger] rest[i], #[trigger] rest[j]) by {
                assert(bytes_lt(s[i + 1], s[j + 1]));
            }
            if rest.contains(x) {
                let i = choose|i: int| 0 <= i < rest.len() && rest[i] == x;
                assert(s[i + 1] == x);
            }
            lemma_insert_sorted(rest, x);
            let t0 = choose|t: Seq<Seq<u8>>| strictly_sorted(t) && forall|y: Seq<u8>| #[trigger] t.contains(y) <==> (rest.contains(y) || y == x);
            let t = seq![h] + t0;
            assert forall|i: int, j: int| 0 <= i < j < t.len() implies bytes_lt(#[trigger] t[i], #[trigger] t[j]) by {
                if i == 0 {
                    let y = t0[j - 1];
                    assert(t0.contains(y));
                    if y != x {
                        assert(rest.contains(y));
                        let k = choose|k: int| 0 <= k < rest.len() && rest[k] == y;
                        assert(bytes_lt(s[0], s[k + 1]));
                    }
                } else {
                    assert(bytes_lt(t0[i - 1], t0[j - 1]));
                }
            }
            assert forall|y: Seq<u8>| #[trigger] t.contains(y) <==> (s.contains(y) || y == x) by {
                if t.contains(y) {
                    let i = choose|i: int| 0 <= i < t.len() && t[i] == y;
                    if i > 0 {
                        assert(t0.contains(y));
                        if rest.contains(y) {
                            let k = choose|k: int| 0 <= k < rest.len() && rest[k] == y;
                            assert(s[k + 1] == y);
                        }
                    } else {
                        assert(s[0] == y);
                    }
                }
                if s.contains(y) {
                    let i = choose|i: int| 0 <= i < s.len() && s[i] == y;
                    if i == 0 {
                        assert(t[0] == y);
                    } else {
                        assert(rest[i - 1] == y);
                        assert(t0.contains(y));
                        let k = choose|k: int| 0 <= k < t0.len() && t0[k] == y;
                        assert(t[k + 1] == y);
                    }
                }
                if y == x {
                    assert(t0.contains(y));
                    let k = choose|k: int| 0 <= k < t0.len() && t0[k] == y;
                    assert(t[k + 1] == y);
                }
            }
            assert(strictly_sorted(t));
        }
    }
}

/// Every list of keys has a sorted listing without repeats.
proof fn lemma_listing_exists(keys: Seq<Seq<u8>>)
    ensures
        exists|s: Seq<Seq<u8>>| strictly_sorted(s) && lists_exactly(s, keys),
    decreases keys.len(),
{
    if keys.len() == 0 {
        let s = Seq::<Seq<u8>>::empty();
        assert(strictly_sorted(s) && lists_exactly(s, keys));
    } else {
        let init = keys.drop_last();
        let x = keys.last();
        lemma_listing_exists(init);
        let s = choose|s: Seq<Seq<u8>>| strictly_sorted(s) && lists_exactly(s, init);
        assert(keys =~= init.push(x));
        assert forall|y: Seq<u8>| keys.contains(y) <==> (init.contains(y) || y == x) by {
            if keys.contains(y) {
                let i = choose|i: int| 0 <= i < keys.len() && keys[i] == y;
                if i < init.len() {
                    assert(init[i] == y);
                }
            }
            if init.contains(y) {
                let i = choose|i: int| 0 <= i < init.len() && init[i] == y;
                assert(keys[i] == y);
            }
            if y == x {
                assert(keys[keys.len() - 1] == y);
            }
        }
        if s.contains(x) {
            assert(lists_exactly(s, keys));
        } else {
            lemma_insert_sorted(s, x);
            let t = choose|t: Seq<Seq<u8>>| strictly_sorted(t) && forall|y: Seq<u8>| #[trigger] t.contains(y) <==> (s.contains(y) || y == x);
            assert(lists_exactly(t, keys));
        }
    }
}

/// The recipient digest depends on the set of recipients alone: not on their order,
/// and not on how often one is named.
pub proof fn lemma_digest_depends_on_the_set(file_key: Seq<u8>, a: Seq<Seq<u8>>, b: Seq<Seq<u8>>)
    requires
        forall|x: Seq<u8>| a.contains(x) <==> b.contains(x),
    ensures
        recipients_digest_of(file_key, a) == recipients_digest_of(file_key, b),
{
    lemma_listing_exists(a);
    lemma_listing_exists(b);
    let la = recipient_listing(a);
    let lb = recipient_listing(b);
    assert(strictly_sorted(la) && lists_exactly(la, a));
    assert(strictly_sorted(lb) && lists_exactly(lb, b));
    lemma_recipient_listing_is_unique(la, lb);
}

/// A digest of the set of recipients a file key was sealed to: the keyed hash, under
/// the file key, of the domain followed by the recipients sorted and without repeats.
/// Keyed, so only a reader can test a candidate set; sorted, so the answer depends on
/// the set and not on the order it was assembled in.
pub fn recipients_digest(file_key: &[u8; 32], recipients: &[[u8; 32]]) -> (d: [u8; 32])
    ensures
        d@ == recipients_digest_of(file_key@, key_views(recipients@)),
{
    let sorted = sorted_unique(recipients);
    let mut data: Vec<u8> = vec![110u8, 101, 120, 117, 115, 102, 115, 47, 114, 101, 99, 105, 112, 105, 101, 110, 116, 45, 115, 101, 116, 47, 118, 49];
    assert(data@ =~= recipients_domain());
    let mut k: usize = 0;
    assert(key_views(sorted@).subrange(0, 0) =~= Seq::<Seq<u8>>::empty());
    while k < sorted.len()
        invariant
            k <= sorted@.len(),
            data@ == recipients_domain() + flatten(key_views(sorted@).subrange(0, k as int)),
        decreases sorted@.len() - k,
    {
        let key = sorted[k];
        let mut b: usize = 0;
        let ghost d0 = data@;
        while b < 32
            invariant
                b <= 32,
                key@.len() == 32,
                data@ == d0 + key@.subrange(0, b as int),
            decreases 32 - b,
        {
            data.push(key[b]);
            b = b + 1;
            assert(data@ =~= d0 + key@.subrange(0, b as int));
        }
        proof {
            let pre = key_views(sorted@).subrange(0, k + 1);
            assert(pre.drop_last() =~= key_views(sorted@).subrange(0, k as int));
            assert(pre.last() == key@);
            assert(key@.subrange(0, 32) =~= key@);
            assert(data@ =~= recipients_domain() + flatten(pre));
        }
        k = k + 1;
    }
    assert(key_views(sorted@).subrange(0, k as int) =~= key_views(sorted@));
    proof {
        let listing = recipient_listing(key_views(recipients@));
        assert(strictly_sorted(key_views(sorted@)) && lists_exactly(key_views(sorted@), key_views(recipients@)));
        lemma_recipient_listing_is_unique(listing, key_views(sorted@));
    }
    blake3_keyed(file_key, data.as_slice())
}

/// Two sorted, repeat-free listings of the same keys are the same listing, so the
/// recipient-set digest depends on which recipients there are and on nothing else.
pub proof fn lemma_recipient_listing_is_unique(a: Seq<Seq<u8>>, b: Seq<Seq<u8>>)
    requires
        strictly_sorted(a),
        strictly_sorted(b),
        forall|x: Seq<u8>| a.contains(x) <==> b.contains(x),
    ensures
        a == b,
    decreases a.len() + b.len(),
{
    if a.len() == 0 || b.len() == 0 {
        if a.len() > 0 {
            assert(a.contains(a[0]));
        }
        if b.len() > 0 {
            assert(b.contains(b[0]));
        }
        assert(a =~= b);
    } else {
        assert(a.contains(a[0]));
        assert(b.contains(b[0]));
        let ia = choose|k: int| 0 <= k < a.len() && a[k] == b[0];
        let ib = choose|k: int| 0 <= k < b.len() && b[k] == a[0];
        if ia > 0 && ib > 0 {
            assert(bytes_lt(a[0], a[ia]));
            assert(bytes_lt(b[0], b[ib]));
            lemma_bytes_order(a[0], b[0], a[0]);
        }
        if ia > 0 && ib == 0 {
            assert(bytes_lt(a[0], a[ia]));
            lemma_bytes_order(a[0], a[0], a[0]);
        }
        if ib > 0 && ia == 0 {
            assert(bytes_lt(b[0], b[ib]));
            lemma_bytes_order(b[0], b[0], b[0]);
        }
        assert(a[0] == b[0]);
        let a1 = a.drop_first();
        let b1 = b.drop_first();
        assert(strictly_sorted(a1)) by {
            assert forall|i: int, j: int| 0 <= i < j < a1.len() implies bytes_lt(#[trigger] a1[i], #[trigger] a1[j]) by {
                assert(a1[i] == a[i + 1] && a1[j] == a[j + 1]);
            }
        }
        assert(strictly_sorted(b1)) by {
            assert forall|i: int, j: int| 0 <= i < j < b1.len() implies bytes_lt(#[trigger] b1[i], #[trigger] b1[j]) by {
                assert(b1[i] == b[i + 1] && b1[j] == b[j + 1]);
            }
        }
        assert forall|x: Seq<u8>| a1.contains(x) <==> b1.contains(x) by {
            if a1.contains(x) {
                let k = choose|k: int| 0 <= k < a1.len() && a1[k] == x;
                assert(a[k + 1] == x);
                assert(bytes_lt(a[0], a[k + 1]));
                lemma_bytes_order(x, x, x);
                assert(b.contains(x));
                let m = choose|m: int| 0 <= m < b.len() && b[m] == x;
                if m == 0 {
                    assert(x == a[0]);
                }
                assert(b1[m - 1] == x);
            }
            if b1.contains(x) {
                let k = choose|k: int| 0 <= k < b1.len() && b1[k] == x;
                assert(b[k + 1] == x);
                assert(bytes_lt(b[0], b[k + 1]));
                lemma_bytes_order(x, x, x);
                assert(a.contains(x));
                let m = choose|m: int| 0 <= m < a.len() && a[m] == x;
                if m == 0 {
                    assert(x == b[0]);
                }
                assert(a1[m - 1] == x);
            }
        }
        lemma_recipient_listing_is_unique(a1, b1);
        assert(a =~= seq![a[0]] + a1);
        assert(b =~= seq![b[0]] + b1);
    }
}

} // verus!
