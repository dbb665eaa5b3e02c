//! How a stored key is laid out.
//!
//! A key opens with the big-endian id of its relation. A key of a relation that carries a
//! validity closes with it: a tag, the timestamp, and whether the row asserts. The timestamp is
//! stored as its distance from the largest one, so that of two versions of one key the newer
//! sorts first.

use vstd::prelude::*;

use crate::order::{
    has_prefix, lemma_lt_common_prefix, lemma_lt_irreflexive, lemma_lt_total, lemma_prefix_range,
    lex_lt, splits_at, to_vec,
};

verus! {

/// A commit sequence: the stamp a row carries.
pub type Stamp = i64;

/// The bytes of a relation id at the front of every key.
pub const ID_LEN: usize = 8;

/// The bytes of a validity at the end of a versioned key.
pub const TAIL_LEN: usize = 10;

/// The byte that opens a validity.
pub const VALIDITY_TAG: u8 = 12;

/// When a version of a key was written, and whether it asserts or retracts.
#[derive(Clone, Copy, Debug, PartialEq, Eq, Structural)]
pub struct Validity {
    pub timestamp: Stamp,
    pub is_assert: bool,
}

/// `256` to the power `w`.
pub open spec fn pow256(w: nat) -> nat
    decreases w,
{
    if w == 0 {
        1
    } else {
        256 * pow256((w - 1) as nat)
    }
}

/// The number that `s` writes, most significant byte first.
pub open spec fn be_value(s: Seq<u8>) -> nat
    decreases s.len(),
{
    if s.len() == 0 {
        0
    } else {
        be_value(s.drop_last()) * 256 + s.last() as nat
    }
}

/// `n` in `w` bytes, most significant byte first.
pub open spec fn be_bytes(n: nat, w: nat) -> Seq<u8>
    decreases w,
{
    if w == 0 {
        Seq::empty()
    } else {
        be_bytes(n / 256, (w - 1) as nat).push((n % 256) as u8)
    }
}

/// The bytes of a validity.
pub open spec fn tail_of(v: Validity) -> Seq<u8> {
    seq![VALIDITY_TAG] + be_bytes((i64::MAX - v.timestamp) as nat, 8) + seq![
        if v.is_assert {
            0u8
        } else {
            1u8
        },
    ]
}

/// The key of the version of `identity` that was written at `v`.
pub open spec fn version_key(identity: Seq<u8>, v: Validity) -> Seq<u8> {
    identity + tail_of(v)
}

/// The validity that `key` closes with, if it closes with one.
pub open spec fn validity_of(key: Seq<u8>) -> Option<Validity> {
    let at = key.len() - TAIL_LEN;
    if key.len() >= ID_LEN + TAIL_LEN && key[at] == VALIDITY_TAG && key[at + 9] <= 1 {
        Some(
            Validity {
                timestamp: (i64::MAX - be_value(key.subrange(at + 1, at + 9))) as i64,
                is_assert: key[at + 9] == 0,
            },
        )
    } else {
        None
    }
}

/// What all versions of one key share: the key without its validity.
pub open spec fn identity_of(key: Seq<u8>) -> Seq<u8> {
    if validity_of(key) is Some {
        key.take(key.len() - TAIL_LEN)
    } else {
        key
    }
}

/// `a` comes before `b` among the versions of one key: it is later, or as late and asserts
/// where `b` retracts.
pub open spec fn newer(a: Validity, b: Validity) -> bool {
    a.timestamp > b.timestamp || (a.timestamp == b.timestamp && a.is_assert && !b.is_assert)
}

/// The least key of the range that holds every version of `key`.
pub open spec fn versions_lower(key: Seq<u8>) -> Seq<u8> {
    if validity_of(key) is Some {
        identity_of(key).push(VALIDITY_TAG)
    } else {
        key
    }
}

/// The least key above every version of `key`.
pub open spec fn versions_upper(key: Seq<u8>) -> Seq<u8> {
    if validity_of(key) is Some {
        identity_of(key).push((VALIDITY_TAG + 1) as u8)
    } else {
        key.push(0)
    }
}

/// `key` with its validity moved to `stamp`; a key without one is left alone.
pub open spec fn restamped(key: Seq<u8>, stamp: Stamp) -> Seq<u8> {
    match validity_of(key) {
        Some(v) => version_key(
            identity_of(key),
            Validity { timestamp: stamp, is_assert: v.is_assert },
        ),
        None => key,
    }
}

proof fn lemma_be_value_bound(s: Seq<u8>)
    ensures
        be_value(s) < pow256(s.len()),
    decreases s.len(),
{
    if s.len() > 0 {
        lemma_be_value_bound(s.drop_last());
    }
}

proof fn lemma_pow256_word()
    ensures
        pow256(8) == 0x1_0000_0000_0000_0000,
{
    reveal_with_fuel(pow256, 9);
}

proof fn lemma_pow256_monotonic(a: nat, b: nat)
    requires
        a <= b,
    ensures
        pow256(a) <= pow256(b),
    decreases b,
{
    if a < b {
        lemma_pow256_monotonic(a, (b - 1) as nat);
    }
}

proof fn lemma_be_bytes_len(n: nat, w: nat)
    ensures
        be_bytes(n, w).len() == w,
    decreases w,
{
    if w > 0 {
        lemma_be_bytes_len(n / 256, (w - 1) as nat);
    }
}

proof fn lemma_be_value_of_bytes(n: nat, w: nat)
    requires
        n < pow256(w),
    ensures
        be_value(be_bytes(n, w)) == n,
    decreases w,
{
    if w > 0 {
        let front = be_bytes(n / 256, (w - 1) as nat);
        lemma_be_value_of_bytes(n / 256, (w - 1) as nat);
        assert(front.push((n % 256) as u8).drop_last() =~= front);
    }
}

proof fn lemma_be_bytes_of_value(s: Seq<u8>)
    ensures
        be_bytes(be_value(s), s.len()) == s,
    decreases s.len(),
{
    if s.len() > 0 {
        lemma_be_bytes_of_value(s.drop_last());
        assert(be_value(s) / 256 == be_value(s.drop_last()));
        assert(s.drop_last().push(s.last()) =~= s);
    } else {
        assert(be_bytes(be_value(s), s.len()) =~= s);
    }
}

/// Numbers of one width sort as their bytes do.
pub proof fn lemma_be_order(s: Seq<u8>, t: Seq<u8>)
    requires
        s.len() == t.len(),
    ensures
        lex_lt(s, t) <==> be_value(s) < be_value(t),
    decreases s.len(),
{
    if s.len() == 0 {
        lemma_lt_irreflexive(s);
        assert(s =~= t);
    } else {
        let n = s.len() - 1;
        let a = s.drop_last();
        let b = t.drop_last();
        lemma_be_order(a, b);
        lemma_be_order(b, a);
        if lex_lt(s, t) {
            let i = choose|i: int| splits_at(s, t, i);
            assert(splits_at(s, t, i));
            if i < n {
                assert forall|k: int| 0 <= k < i implies #[trigger] a[k] == b[k] by {
                    assert(s[k] == t[k]);
                }
                assert(splits_at(a, b, i));
            } else {
                assert forall|k: int| 0 <= k < n implies #[trigger] a[k] == b[k] by {
                    assert(s[k] == t[k]);
                }
                assert(a =~= b);
            }
        }
        if be_value(s) < be_value(t) {
            lemma_lt_total(a, b);
            if lex_lt(a, b) {
                let i = choose|i: int| splits_at(a, b, i);
                assert(splits_at(a, b, i));
                assert forall|k: int| 0 <= k < i implies #[trigger] s[k] == t[k] by {
                    assert(a[k] == b[k]);
                }
                assert(splits_at(s, t, i));
            } else if a == b {
                assert forall|k: int| 0 <= k < n implies #[trigger] s[k] == t[k] by {
                    assert(a[k] == b[k]);
                }
                assert(splits_at(s, t, n));
            }
        }
    }
}

/// A number below two to the sixty-fourth is what its eight bytes write.
pub proof fn lemma_be_word(n: nat)
    requires
        n < 0x1_0000_0000_0000_0000,
    ensures
        be_bytes(n, 8).len() == 8,
        be_value(be_bytes(n, 8)) == n,
{
    lemma_pow256_word();
    lemma_be_bytes_len(n, 8);
    lemma_be_value_of_bytes(n, 8);
}

/// Eight bytes write a number below two to the sixty-fourth.
pub proof fn lemma_be_value_word(s: Seq<u8>)
    requires
        s.len() == 8,
    ensures
        be_value(s) < 0x1_0000_0000_0000_0000,
{
    lemma_pow256_word();
    lemma_be_value_bound(s);
}

/// A validity always takes the same room.
pub proof fn lemma_tail_len(v: Validity)
    ensures
        tail_of(v).len() == TAIL_LEN,
        tail_of(v)[0] == VALIDITY_TAG,
        tail_of(v)[9] == (if v.is_assert {
            0u8
        } else {
            1u8
        }),
        tail_of(v).subrange(1, 9) == be_bytes((i64::MAX - v.timestamp) as nat, 8),
{
    lemma_be_bytes_len((i64::MAX - v.timestamp) as nat, 8);
    assert(tail_of(v).subrange(1, 9) =~= be_bytes((i64::MAX - v.timestamp) as nat, 8));
}

/// Reading back a version's key gives its identity and its validity.
pub proof fn lemma_version_key(identity: Seq<u8>, v: Validity)
    requires
        identity.len() >= ID_LEN,
    ensures
        validity_of(version_key(identity, v)) == Some(v),
        identity_of(version_key(identity, v)) == identity,
        version_key(identity, v).len() == identity.len() + TAIL_LEN,
{
    let key = version_key(identity, v);
    let at = key.len() - TAIL_LEN;
    let n = (i64::MAX - v.timestamp) as nat;
    lemma_tail_len(v);
    lemma_pow256_word();
    lemma_be_value_of_bytes(n, 8);
    assert(key.subrange(at + 1, at + 9) =~= tail_of(v).subrange(1, 9));
    assert(key.take(at) =~= identity);
}

/// A key that closes with a validity is the version of its identity that the validity names.
pub proof fn lemma_key_is_version(key: Seq<u8>)
    requires
        validity_of(key) is Some,
    ensures
        key == version_key(identity_of(key), validity_of(key).unwrap()),
        identity_of(key).len() >= ID_LEN,
{
    let at = key.len() - TAIL_LEN;
    let v = validity_of(key).unwrap();
    let stored = key.subrange(at + 1, at + 9);
    lemma_be_value_bound(stored);
    lemma_pow256_word();
    lemma_be_bytes_of_value(stored);
    lemma_tail_len(v);
    assert(be_bytes((i64::MAX - v.timestamp) as nat, 8) == stored);
    let w = version_key(identity_of(key), v);
    assert forall|i: int| 0 <= i < key.len() implies key[i] == w[i] by {
        if i < at {
            assert(key.take(at)[i] == key[i]);
        } else {
            assert(w[i] == tail_of(v)[i - at]);
            if at < i < at + 9 {
                assert(stored[i - at - 1] == key[i]);
                assert(tail_of(v).subrange(1, 9)[i - at - 1] == tail_of(v)[i - at]);
            }
        }
    }
    assert(key =~= w);
}

/// Of two versions of one key, the newer one sorts first.
pub proof fn lemma_newest_first(identity: Seq<u8>, a: Validity, b: Validity)
    ensures
        lex_lt(version_key(identity, a), version_key(identity, b)) <==> newer(a, b),
{
    lemma_lt_common_prefix(identity, tail_of(a), tail_of(b));
    lemma_tail_len(a);
    lemma_tail_len(b);
    let na = (i64::MAX - a.timestamp) as nat;
    let nb = (i64::MAX - b.timestamp) as nat;
    let x = be_bytes(na, 8);
    let y = be_bytes(nb, 8);
    let fa = seq![
        if a.is_assert {
            0u8
        } else {
            1u8
        },
    ];
    let fb = seq![
        if b.is_assert {
            0u8
        } else {
            1u8
        },
    ];
    lemma_pow256_word();
    lemma_be_bytes_len(na, 8);
    lemma_be_bytes_len(nb, 8);
    lemma_be_value_of_bytes(na, 8);
    lemma_be_value_of_bytes(nb, 8);
    let tag = seq![VALIDITY_TAG];
    assert(tail_of(a) =~= tag + (x + fa));
    assert(tail_of(b) =~= tag + (y + fb));
    lemma_lt_common_prefix(tag, x + fa, y + fb);
    lemma_be_order(x + fa, y + fb);
    assert((x + fa).drop_last() =~= x);
    assert((y + fb).drop_last() =~= y);
    assert(be_value(x + fa) == na * 256 + fa[0]);
    assert(be_value(y + fb) == nb * 256 + fb[0]);
}

/// Every version of a key begins with its identity and the validity tag.
pub proof fn lemma_version_has_prefix(identity: Seq<u8>, v: Validity)
    ensures
        has_prefix(version_key(identity, v), identity.push(VALIDITY_TAG)),
{
    lemma_tail_len(v);
    let k = version_key(identity, v);
    let n = identity.len() as int;
    assert(k[n] == tail_of(v)[0]);
    assert(k.take(n + 1) =~= identity.push(VALIDITY_TAG));
}

/// A key sorts before what lies above its versions.
pub proof fn lemma_versions_upper(key: Seq<u8>)
    ensures
        lex_lt(key, versions_upper(key)),
{
    match validity_of(key) {
        Some(v) => {
            lemma_key_is_version(key);
            lemma_version_has_prefix(identity_of(key), v);
            lemma_prefix_range(identity_of(key), VALIDITY_TAG, key);
        },
        None => {
            assert(splits_at(key, key.push(0), key.len() as int));
        },
    }
}

pub(crate) fn push_be(n: u64, w: usize, out: &mut Vec<u8>)
    ensures
        final(out)@ == old(out)@ + be_bytes(n as nat, w as nat),
    decreases w,
{
    if w > 0 {
        push_be(n / 256, w - 1, out);
        let b: u8 = (n % 256) as u8;
        out.push(b);
        assert(out@ =~= old(out)@ + be_bytes(n as nat, w as nat));
    } else {
        assert(out@ =~= old(out)@ + be_bytes(n as nat, w as nat));
    }
}

/// The number in the eight bytes of `key` that start at `at`.
pub(crate) fn read_be(key: &[u8], at: usize) -> (n: u64)
    requires
        at + 8 <= key@.len(),
    ensures
        n == be_value(key@.subrange(at as int, at + 8)),
{
    let end: usize = key.len();
    let mut n: u64 = 0;
    let mut i: usize = 0;
    assert(key@.subrange(at as int, at as int) =~= Seq::<u8>::empty());
    while i < 8
        invariant
            i <= 8,
            at + 8 <= end,
            end == key@.len(),
            n == be_value(key@.subrange(at as int, at + i)),
        decreases 8 - i,
    {
        proof {
            let read = key@.subrange(at as int, at + i);
            let next = key@.subrange(at as int, at + i + 1);
            assert(next.drop_last() =~= read);
            assert(next.last() == key@[at + i]);
            lemma_be_value_bound(next);
            lemma_pow256_monotonic((i + 1) as nat, 8);
            lemma_pow256_word();
        }
        n = n * 256 + key[at + i] as u64;
        i += 1;
    }
    n
}

/// The key of the version of `identity` written at `v`.
pub fn encode_version(identity: &[u8], v: Validity) -> (key: Vec<u8>)
    ensures
        key@ == version_key(identity@, v),
{
    let mut key = to_vec(identity);
    key.push(VALIDITY_TAG);
    let distance: u64 = (i64::MAX as i128 - v.timestamp as i128) as u64;
    push_be(distance, 8, &mut key);
    key.push(
        if v.is_assert {
            0
        } else {
            1
        },
    );
    assert(key@ =~= version_key(identity@, v));
    key
}

/// The validity at the end of `key`, read without looking at the columns before it.
pub fn tail_validity(key: &[u8]) -> (r: Option<Validity>)
    ensures
        r == validity_of(key@),
{
    if key.len() < ID_LEN + TAIL_LEN {
        return None;
    }
    let at: usize = key.len() - TAIL_LEN;
    if key[at] != VALIDITY_TAG || key[at + 9] > 1 {
        return None;
    }
    let distance: u64 = read_be(key, at + 1);
    let timestamp: i64 = (i64::MAX as i128 - distance as i128) as i64;
    Some(Validity { timestamp, is_assert: key[at + 9] == 0 })
}

/// Moves the validity at the end of `key` to `stamp`.
pub fn restamp_tail_validity(key: &mut Vec<u8>, stamp: Stamp)
    ensures
        final(key)@ == restamped(old(key)@, stamp),
{
    match tail_validity(key.as_slice()) {
        None => {},
        Some(v) => {
            let at: usize = key.len() - TAIL_LEN;
            let identity = vstd::slice::slice_subrange(key.as_slice(), 0, at);
            assert(identity@ =~= identity_of(key@));
            let moved = encode_version(identity, Validity { timestamp: stamp, is_assert: v.is_assert });
            *key = moved;
        },
    }
}

/// What the versions of `key` share, the least key they can have, and the least key above them
/// all.
pub fn validity_version_range(key: &[u8]) -> (r: (&[u8], Vec<u8>, Vec<u8>))
    ensures
        r.0@ == identity_of(key@),
        r.1@ == versions_lower(key@),
        r.2@ == versions_upper(key@),
{
    match tail_validity(key) {
        None => {
            let mut upper = to_vec(key);
            upper.push(0);
            (key, to_vec(key), upper)
        },
        Some(_) => {
            let identity = vstd::slice::slice_subrange(key, 0, key.len() - TAIL_LEN);
            assert(identity@ =~= identity_of(key@));
            let mut lower = to_vec(identity);
            lower.push(VALIDITY_TAG);
            let mut upper = to_vec(identity);
            upper.push(VALIDITY_TAG + 1);
            (identity, lower, upper)
        },
    }
}

} // verus!
