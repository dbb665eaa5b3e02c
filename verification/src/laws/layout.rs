//! What keys are: how they sort, what a version's key holds, and which relation a key belongs to.

use vstd::prelude::*;

use crate::catalog::{relation_under, RelView, RelationId};
use crate::codec::{
    be_bytes, be_value, identity_of, lemma_be_value_word, lemma_be_word, lemma_key_is_version,
    lemma_newest_first, lemma_tail_len, lemma_version_has_prefix, lemma_version_key,
    lemma_versions_upper, newer, restamped, tail_of, validity_of, version_key, versions_lower,
    versions_upper, Stamp, VALIDITY_TAG, Validity,
};
use crate::frontier::lemma_nothing_between;
use crate::laws::lemma_be_bytes_unique;
use crate::order::{
    has_prefix, lemma_lt_asymmetric, lemma_lt_irreflexive, lemma_lt_total, lemma_not_lt,
    lemma_prefix_range, lex_le, lex_lt, splits_at,
};
use crate::scan::{relation_lower, relation_upper};

verus! {

/// Keys sort bytewise: at the first byte in which they differ, or a proper prefix before what
/// extends it. Of two different keys one sorts first.
pub proof fn law_keys_sort_bytewise(a: Seq<u8>, b: Seq<u8>)
    ensures
        lex_lt(a, b) <==> {
            ||| a.len() < b.len() && b.take(a.len() as int) == a
            ||| exists|i: int|
                0 <= i < a.len() && i < b.len() && a.take(i) == b.take(i) && #[trigger] a[i] < b[i]
        },
        lex_le(a, b) <==> !lex_lt(b, a),
        lex_lt(a, b) || lex_lt(b, a) || a == b,
        !(lex_lt(a, b) && lex_lt(b, a)),
        !lex_lt(a, a),
{
    lemma_lt_total(a, b);
    lemma_lt_irreflexive(a);
    if lex_lt(a, b) {
        lemma_lt_asymmetric(a, b);
        let i = choose|i: int| splits_at(a, b, i);
        assert(splits_at(a, b, i));
        assert(a.take(i) =~= b.take(i));
        if i == a.len() {
            assert(a.take(i) =~= a);
        } else {
            assert(a[i] < b[i]);
        }
    }
    if a.len() < b.len() && b.take(a.len() as int) == a {
        let n = a.len() as int;
        assert forall|k: int| 0 <= k < n implies #[trigger] a[k] == b[k] by {
            assert(b.take(n)[k] == b[k]);
        }
        assert(splits_at(a, b, n));
    }
    if exists|i: int|
        0 <= i < a.len() && i < b.len() && a.take(i) == b.take(i) && #[trigger] a[i] < b[i] {
        let i = choose|i: int|
            0 <= i < a.len() && i < b.len() && a.take(i) == b.take(i) && #[trigger] a[i] < b[i];
        assert forall|k: int| 0 <= k < i implies #[trigger] a[k] == b[k] by {
            assert(a.take(i)[k] == b.take(i)[k]);
        }
        assert(splits_at(a, b, i));
    }
}

/// What begins with `p` is `p` and something more.
pub proof fn law_a_prefix_is_what_a_key_begins_with(s: Seq<u8>, p: Seq<u8>)
    ensures
        has_prefix(s, p) <==> exists|rest: Seq<u8>| s == #[trigger] (p + rest),
{
    if has_prefix(s, p) {
        let rest = s.skip(p.len() as int);
        assert(s =~= s.take(p.len() as int) + rest);
        assert(s == p + rest);
    }
    if exists|rest: Seq<u8>| s == #[trigger] (p + rest) {
        let rest = choose|rest: Seq<u8>| s == #[trigger] (p + rest);
        assert(s.take(p.len() as int) =~= p);
    }
}

/// The eight bytes of `s` from `at` on, as a number.
pub open spec fn word_at(s: Seq<u8>, at: int) -> int {
    s[at + 7] + 0x100 * (s[at + 6] + 0x100 * (s[at + 5] + 0x100 * (s[at + 4] + 0x100 * (s[at + 3]
        + 0x100 * (s[at + 2] + 0x100 * (s[at + 1] + 0x100 * s[at]))))))
}

proof fn lemma_word_at(s: Seq<u8>, at: int)
    requires
        0 <= at,
        at + 8 <= s.len(),
    ensures
        be_value(s.subrange(at, at + 8)) == word_at(s, at),
{
    reveal_with_fuel(be_value, 9);
    let b = s.subrange(at, at + 8);
    assert(b.drop_last() =~= s.subrange(at, at + 7));
    assert(s.subrange(at, at + 7).drop_last() =~= s.subrange(at, at + 6));
    assert(s.subrange(at, at + 6).drop_last() =~= s.subrange(at, at + 5));
    assert(s.subrange(at, at + 5).drop_last() =~= s.subrange(at, at + 4));
    assert(s.subrange(at, at + 4).drop_last() =~= s.subrange(at, at + 3));
    assert(s.subrange(at, at + 3).drop_last() =~= s.subrange(at, at + 2));
    assert(s.subrange(at, at + 2).drop_last() =~= s.subrange(at, at + 1));
    assert(s.subrange(at, at + 1).drop_last() =~= Seq::<u8>::empty());
}

/// Big-endian numbers of eight bytes, written and read: the bytes of a number are the ones it is
/// read from.
pub proof fn law_a_word_is_its_eight_bytes(n: u64, s: Seq<u8>)
    ensures
        be_bytes(n as nat, 8).len() == 8,
        word_at(be_bytes(n as nat, 8), 0) == n,
        s.len() == 8 ==> be_value(s) == word_at(s, 0),
        s.len() == 8 && word_at(s, 0) == n ==> s == be_bytes(n as nat, 8),
{
    let b = be_bytes(n as nat, 8);
    lemma_be_word(n as nat);
    lemma_word_at(b, 0);
    assert(b.subrange(0, 8) =~= b);
    if s.len() == 8 {
        lemma_word_at(s, 0);
        assert(s.subrange(0, 8) =~= s);
        if word_at(s, 0) == n {
            lemma_be_bytes_unique(s, b);
        }
    }
}

/// A key is a version of an identity exactly if it is the identity, the tag of a validity, the
/// eight bytes of how far the stamp is from the largest one, and a byte that is zero for an
/// assertion and one for a retraction. A key that is not one of these is its own identity.
pub proof fn law_a_version_is_an_identity_and_a_validity(key: Seq<u8>, identity: Seq<u8>, v: Validity)
    ensures
        validity_of(key) == Some(v) && identity_of(key) == identity <==> {
            let n = identity.len() as int;
            &&& n >= 8
            &&& key.len() == n + 10
            &&& key.take(n) == identity
            &&& key[n] == 12
            &&& word_at(key, n + 1) == i64::MAX - v.timestamp
            &&& key[n + 9] == if v.is_assert {
                0u8
            } else {
                1u8
            }
        },
        validity_of(key) is None ==> identity_of(key) == key,
        validity_of(key) is None ==> key.len() < 18 || key[key.len() - 10] != 12 || key[key.len()
            - 1] > 1,
{
    let n = key.len() - 10;
    if n >= 8 {
        lemma_word_at(key, n + 1);
        lemma_be_value_word(key.subrange(n + 1, n + 9));
    }
}

/// The key of a version holds the identity, and reads back as the version that it is.
pub proof fn law_a_versions_key_reads_back(identity: Seq<u8>, v: Validity)
    ensures
        ({
            let key = version_key(identity, v);
            let n = identity.len() as int;
            &&& key.len() == n + 10
            &&& key.take(n) == identity
            &&& key[n] == 12
            &&& word_at(key, n + 1) == i64::MAX - v.timestamp
            &&& key[n + 9] == if v.is_assert {
                0u8
            } else {
                1u8
            }
        }),
        identity.len() >= 8 ==> validity_of(version_key(identity, v)) == Some(v) && identity_of(
            version_key(identity, v),
        ) == identity,
{
    let key = version_key(identity, v);
    let n = identity.len() as int;
    lemma_tail_len(v);
    lemma_word_at(key, n + 1);
    assert(key.subrange(n + 1, n + 9) =~= tail_of(v).subrange(1, 9));
    lemma_be_word((i64::MAX - v.timestamp) as nat);
    assert(key.take(n) =~= identity);
    if n >= 8 {
        lemma_version_key(identity, v);
    }
}

/// Of two versions of one identity the later sorts first, and of two at one stamp the assertion.
pub proof fn law_the_later_version_sorts_first(identity: Seq<u8>, a: Validity, b: Validity)
    ensures
        lex_lt(version_key(identity, a), version_key(identity, b)) <==> a.timestamp > b.timestamp
            || a.timestamp == b.timestamp && a.is_assert && !b.is_assert,
        newer(a, b) <==> a.timestamp > b.timestamp || a.timestamp == b.timestamp && a.is_assert
            && !b.is_assert,
{
    lemma_newest_first(identity, a, b);
}

/// Stamping a key anew moves its stamp and nothing else: it stays a version of its identity, as
/// long as it was, and asserts if it did. A key without a validity stays as it is.
pub proof fn law_restamping_moves_only_the_stamp(key: Seq<u8>, stamp: Stamp)
    ensures
        match validity_of(key) {
            Some(v) => {
                &&& validity_of(restamped(key, stamp)) == Some(
                    Validity { timestamp: stamp, is_assert: v.is_assert },
                )
                &&& identity_of(restamped(key, stamp)) == identity_of(key)
                &&& restamped(key, stamp).len() == key.len()
            },
            None => restamped(key, stamp) == key,
        },
{
    if let Some(v) = validity_of(key) {
        lemma_key_is_version(key);
        lemma_version_key(identity_of(key), v);
        lemma_version_key(
            identity_of(key),
            Validity { timestamp: stamp, is_assert: v.is_assert },
        );
    }
}

/// The range of a key's versions holds what begins with its identity and the tag of a validity,
/// every version of it among that. The range of a key without a validity holds the key alone.
pub proof fn law_the_range_of_a_keys_versions(key: Seq<u8>, k: Seq<u8>)
    ensures
        !lex_lt(k, versions_lower(key)) && lex_lt(k, versions_upper(key)) <==> match validity_of(
            key,
        ) {
            Some(_) => exists|rest: Seq<u8>|
                k == #[trigger] (identity_of(key).push(12) + rest),
            None => k == key,
        },
        validity_of(key) is Some && validity_of(k) is Some && identity_of(k) == identity_of(key)
            ==> !lex_lt(k, versions_lower(key)) && lex_lt(k, versions_upper(key)),
{
    let id = identity_of(key);
    if validity_of(key) is Some {
        lemma_prefix_range(id, VALIDITY_TAG, k);
        law_a_prefix_is_what_a_key_begins_with(k, id.push(12));
        if validity_of(k) is Some && identity_of(k) == id {
            lemma_key_is_version(k);
            lemma_version_has_prefix(id, validity_of(k).unwrap());
        }
    } else {
        lemma_versions_upper(key);
        lemma_lt_irreflexive(key);
        if !lex_lt(k, key) && k != key {
            lemma_not_lt(k, key);
            lemma_nothing_between(key, k);
        }
    }
}

/// A key belongs to the relation whose id its first eight bytes write.
pub proof fn law_a_key_opens_with_the_id_of_its_relation(key: Seq<u8>, id: u64)
    ensures
        relation_under(key) == Some(id) <==> key.len() >= 8 && word_at(key, 0) == id,
        key.len() < 8 ==> relation_under(key) is None,
{
    if key.len() >= 8 {
        lemma_word_at(key, 0);
        assert(key.subrange(0, 8) =~= key.take(8));
        lemma_be_value_word(key.take(8));
    }
}

/// A relation's keys lie between the bytes of its id and those of the id after it, which is how a
/// relation id is written.
pub proof fn law_a_relation_lies_between_its_id_and_the_next(rel: RelView, id: RelationId)
    requires
        rel.id < u64::MAX,
    ensures
        relation_lower(rel).len() == 8,
        word_at(relation_lower(rel), 0) == rel.id,
        relation_upper(rel).len() == 8,
        word_at(relation_upper(rel), 0) == rel.id + 1,
        id.prefix().len() == 8,
        word_at(id.prefix(), 0) == id.0,
{
    law_a_word_is_its_eight_bytes(rel.id, Seq::empty());
    law_a_word_is_its_eight_bytes((rel.id + 1) as u64, Seq::empty());
    law_a_word_is_its_eight_bytes(id.0, Seq::empty());
}

} // verus!
