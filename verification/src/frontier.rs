//! What a scan as of a point in time shows.

use vstd::prelude::*;

use crate::aftermath::agree;
use crate::codec::{
    identity_of, lemma_key_is_version, lemma_newest_first, lemma_version_has_prefix,
    lemma_version_key, lemma_versions_upper, newer, validity_of, version_key, versions_upper,
    ID_LEN, Stamp, VALIDITY_TAG, Validity,
};
use crate::content::{below, between, is_least, lemma_between_finite, lemma_least_exists};
use crate::iter::{
    frontier_next, frontier_rows, lemma_frontier_next, lemma_next_seek, lemma_next_seek_shrinks,
    next_seek, stands_at,
};
use crate::layer::Content;
use crate::net::regular;
use crate::order::{
    has_prefix, lemma_le_lt, lemma_lt_asymmetric, lemma_lt_irreflexive, lemma_lt_le,
    lemma_lt_transitive, lemma_not_lt, lemma_prefix_range, lex_le, lex_lt, splits_at,
};
use crate::scan::has_version;

verus! {

/// As of `at`, the version under `key` is in force for a scan from `bound`: it asserts, it is not
/// later than `at`, and the scan meets no newer version of its identity that is not later.
pub open spec fn in_force(
    m: Content,
    upper: Option<Seq<u8>>,
    bound: Seq<u8>,
    at: Stamp,
    key: Seq<u8>,
) -> bool {
    &&& between(m, bound, upper).contains_key(key)
    &&& stands_at(key, at)
    &&& forall|w: Validity| #[trigger]
        has_version(m, identity_of(key), w) && w.timestamp <= at && newer(
            w,
            validity_of(key).unwrap(),
        ) ==> lex_lt(version_key(identity_of(key), w), bound)
}

/// Nothing lies between a key and the key followed by a zero byte.
pub proof fn lemma_nothing_between(k: Seq<u8>, j: Seq<u8>)
    requires
        lex_lt(k, j),
    ensures
        !lex_lt(j, k.push(0)),
{
    let next = k.push(0);
    if lex_lt(j, next) {
        let i = choose|i: int| splits_at(j, next, i);
        assert(splits_at(j, next, i));
        if i < k.len() {
            assert forall|h: int| 0 <= h < i implies #[trigger] j[h] == k[h] by {
                assert(j[h] == next[h]);
            }
            assert(next[i] == k[i]);
            assert(splits_at(j, k, i));
            lemma_lt_asymmetric(j, k);
        } else {
            assert forall|h: int| 0 <= h < k.len() implies j[h] == k[h] by {
                assert(j[h] == next[h]);
            }
            assert(j =~= k);
            lemma_lt_irreflexive(k);
        }
    }
}

/// What a frontier scan steps over after meeting a row that does not stand: nothing that is in
/// force, and only versions of that row's identity.
proof fn lemma_stepped_over(m: Content, at: Stamp, k: Seq<u8>, j: Seq<u8>)
    requires
        regular(m.dom()),
        m.contains_key(k),
        m.contains_key(j),
        !lex_lt(j, k),
        lex_lt(j, next_seek(k, at)),
    ensures
        match validity_of(k) {
            None => j == k,
            Some(v) => {
                &&& validity_of(j) is Some
                &&& identity_of(j) == identity_of(k)
                &&& v.timestamp > at ==> validity_of(j).unwrap().timestamp > at
                &&& j != k ==> newer(v, validity_of(j).unwrap())
            },
        },
{
    lemma_not_lt(j, k);
    match validity_of(k) {
        None => {
            if j != k {
                lemma_nothing_between(k, j);
            }
        },
        Some(v) => {
            let id = identity_of(k);
            let lo = id.push(VALIDITY_TAG);
            let hi = id.push((VALIDITY_TAG + 1) as u8);
            let mark = Validity { timestamp: at, is_assert: true };
            lemma_key_is_version(k);
            lemma_version_has_prefix(id, v);
            lemma_version_has_prefix(id, mark);
            lemma_prefix_range(id, VALIDITY_TAG, k);
            lemma_prefix_range(id, VALIDITY_TAG, version_key(id, mark));
            lemma_prefix_range(id, VALIDITY_TAG, j);
            if v.timestamp > at {
                lemma_lt_transitive(j, version_key(id, mark), hi);
            }
            if lex_lt(j, lo) {
                if j != k {
                    lemma_lt_transitive(k, j, lo);
                }
            }
            assert(has_prefix(j, lo));
            assert(m.dom().contains(k) && m.dom().contains(j));
            let vj = validity_of(j).unwrap();
            lemma_key_is_version(j);
            lemma_newest_first(id, vj, mark);
            lemma_newest_first(id, v, vj);
        },
    }
}

/// A frontier scan goes on from a place where exactly what was in force still is.
proof fn lemma_in_force_later(
    m: Content,
    upper: Option<Seq<u8>>,
    bound: Seq<u8>,
    at: Stamp,
    k: Seq<u8>,
    j: Seq<u8>,
)
    requires
        regular(m.dom()),
        is_least(between(m, bound, upper), k),
        !stands_at(k, at),
    ensures
        in_force(m, upper, bound, at, j) <==> in_force(m, upper, next_seek(k, at), at, j),
{
    let rest = between(m, bound, upper);
    let next = next_seek(k, at);
    assert(rest.contains_key(k));
    lemma_next_seek(k, at);
    lemma_not_lt(k, bound);
    lemma_le_lt(bound, k, next);
    if in_force(m, upper, bound, at, j) {
        assert(rest.contains_key(j));
        lemma_not_lt(j, k);
        if lex_lt(j, next) {
            lemma_stepped_over(m, at, k, j);
            lemma_key_is_version(k);
            lemma_key_is_version(j);
            let v = validity_of(k).unwrap();
            assert(has_version(m, identity_of(j), v));
        }
        assert forall|w: Validity| #[trigger] has_version(m, identity_of(j), w) && w.timestamp <= at
            && newer(w, validity_of(j).unwrap()) implies lex_lt(
            version_key(identity_of(j), w),
            next,
        ) by {
            lemma_lt_transitive(version_key(identity_of(j), w), bound, next);
        }
    }
    if in_force(m, upper, next, at, j) {
        assert(between(m, next, upper).contains_key(j));
        lemma_not_lt(j, next);
        lemma_lt_le(bound, next, j);
        lemma_not_lt(j, bound);
        assert(rest.contains_key(j));
        assert forall|w: Validity| #[trigger] has_version(m, identity_of(j), w) && w.timestamp <= at
            && newer(w, validity_of(j).unwrap()) implies lex_lt(
            version_key(identity_of(j), w),
            bound,
        ) by {
            let id = identity_of(j);
            let u = version_key(id, w);
            if !lex_lt(u, bound) {
                lemma_key_is_version(j);
                lemma_newest_first(id, w, validity_of(j).unwrap());
                lemma_version_key(id, w);
                if let Some(b) = upper {
                    lemma_lt_transitive(u, j, b);
                }
                assert(rest.contains_key(u));
                lemma_not_lt(u, k);
                lemma_stepped_over(m, at, k, u);
                lemma_versions_upper(j);
            }
        }
    }
}

/// A frontier scan shows, for each key, the newest version at or before a point in time, skipped
/// entirely when that version is a retraction: its next row is the first of those in force.
pub proof fn law_a_frontier_scan_shows_what_is_in_force(
    m: Content,
    upper: Option<Seq<u8>>,
    bound: Seq<u8>,
    at: Stamp,
)
    requires
        m.dom().finite(),
        regular(m.dom()),
    ensures
        match frontier_next(m, upper, bound, at) {
            None => forall|j: Seq<u8>| !in_force(m, upper, bound, at, j),
            Some(k) => {
                &&& in_force(m, upper, bound, at, k)
                &&& forall|j: Seq<u8>| #[trigger]
                    in_force(m, upper, bound, at, j) ==> lex_le(k, j)
            },
        },
    decreases between(m, bound, upper).dom().len(),
{
    let rest = between(m, bound, upper);
    lemma_between_finite(m, bound, upper);
    if rest.dom().len() == 0 {
        assert(rest.dom() =~= Set::empty());
        assert forall|j: Seq<u8>| !in_force(m, upper, bound, at, j) by {
            assert(!rest.dom().contains(j));
        }
    } else {
        lemma_least_exists(rest);
        let k = choose|k: Seq<u8>| is_least(rest, k);
        assert(rest.contains_key(k));
        if stands_at(k, at) {
            lemma_key_is_version(k);
            let id = identity_of(k);
            let v = validity_of(k).unwrap();
            assert forall|w: Validity| #[trigger] has_version(m, id, w) && w.timestamp <= at
                && newer(w, v) implies lex_lt(version_key(id, w), bound) by {
                let u = version_key(id, w);
                lemma_newest_first(id, w, v);
                if !lex_lt(u, bound) {
                    if let Some(b) = upper {
                        lemma_lt_transitive(u, k, b);
                    }
                    assert(rest.contains_key(u));
                    lemma_lt_asymmetric(u, k);
                }
            }
            assert(in_force(m, upper, bound, at, k));
            assert forall|j: Seq<u8>| #[trigger] in_force(m, upper, bound, at, j) implies lex_le(
                k,
                j,
            ) by {
                assert(rest.contains_key(j));
            }
        } else {
            lemma_next_seek_shrinks(m, upper, bound, k, at);
            law_a_frontier_scan_shows_what_is_in_force(m, upper, next_seek(k, at), at);
            assert forall|j: Seq<u8>|
                in_force(m, upper, bound, at, j) == in_force(m, upper, next_seek(k, at), at, j) by {
                lemma_in_force_later(m, upper, bound, at, k, j);
            }
        }
    }
}

/// After the first row in force, exactly the others are.
proof fn lemma_in_force_after(
    m: Content,
    upper: Option<Seq<u8>>,
    bound: Seq<u8>,
    at: Stamp,
    k: Seq<u8>,
    j: Seq<u8>,
)
    requires
        regular(m.dom()),
        in_force(m, upper, bound, at, k),
        forall|i: Seq<u8>| #[trigger] in_force(m, upper, bound, at, i) ==> lex_le(k, i),
    ensures
        in_force(m, upper, versions_upper(k), at, j) <==> in_force(m, upper, bound, at, j) && j
            != k,
{
    let rest = between(m, bound, upper);
    let next = versions_upper(k);
    let id = identity_of(k);
    assert(next == next_seek(k, at));
    lemma_versions_upper(k);
    lemma_key_is_version(k);
    lemma_not_lt(k, bound);
    lemma_le_lt(bound, k, next);
    if in_force(m, upper, bound, at, j) && j != k {
        assert(lex_lt(k, j));
        lemma_lt_asymmetric(k, j);
        if lex_lt(j, next) {
            lemma_stepped_over(m, at, k, j);
            assert(has_version(m, id, validity_of(k).unwrap()));
            lemma_lt_irreflexive(k);
        }
        assert forall|w: Validity| #[trigger] has_version(m, identity_of(j), w) && w.timestamp <= at
            && newer(w, validity_of(j).unwrap()) implies lex_lt(
            version_key(identity_of(j), w),
            next,
        ) by {
            lemma_lt_transitive(version_key(identity_of(j), w), bound, next);
        }
    }
    if in_force(m, upper, next, at, j) {
        let own = identity_of(j);
        assert(between(m, next, upper).contains_key(j));
        lemma_not_lt(j, next);
        lemma_lt_le(k, next, j);
        lemma_lt_le(bound, next, j);
        lemma_not_lt(j, bound);
        lemma_lt_irreflexive(k);
        lemma_key_is_version(j);
        if own == id {
            lemma_version_has_prefix(id, validity_of(j).unwrap());
            lemma_prefix_range(id, VALIDITY_TAG, j);
        }
        assert forall|w: Validity| #[trigger] has_version(m, own, w) && w.timestamp <= at && newer(
            w,
            validity_of(j).unwrap(),
        ) implies lex_lt(version_key(own, w), bound) by {
            let u = version_key(own, w);
            lemma_version_key(own, w);
            assert(lex_lt(u, next));
            if lex_lt(u, k) {
                lemma_between_versions(m, u, k, j);
            } else {
                lemma_stepped_over(m, at, k, u);
            }
        }
    }
}

/// On regular contents, what lies between two versions of an identity is a version of it.
proof fn lemma_between_versions(m: Content, a: Seq<u8>, k: Seq<u8>, b: Seq<u8>)
    requires
        regular(m.dom()),
        m.contains_key(a),
        m.contains_key(k),
        validity_of(a) is Some,
        validity_of(b) is Some,
        identity_of(a) == identity_of(b),
        lex_lt(a, k),
        lex_lt(k, b),
    ensures
        validity_of(k) is Some,
        identity_of(k) == identity_of(a),
{
    let id = identity_of(a);
    let lo = id.push(VALIDITY_TAG);
    lemma_key_is_version(a);
    lemma_key_is_version(b);
    lemma_version_has_prefix(id, validity_of(a).unwrap());
    lemma_version_has_prefix(id, validity_of(b).unwrap());
    lemma_prefix_range(id, VALIDITY_TAG, a);
    lemma_prefix_range(id, VALIDITY_TAG, b);
    lemma_prefix_range(id, VALIDITY_TAG, k);
    lemma_lt_transitive(k, b, id.push((VALIDITY_TAG + 1) as u8));
    if lex_lt(k, lo) {
        lemma_lt_transitive(a, k, lo);
    }
    assert(m.dom().contains(a) && m.dom().contains(k));
}

/// A frontier scan run to its end shows exactly what is in force, each row once, in key order, and
/// no two rows of one identity.
pub proof fn law_a_drained_frontier_scan_shows_all_that_is_in_force(
    m: Content,
    upper: Option<Seq<u8>>,
    bound: Seq<u8>,
    at: Stamp,
)
    requires
        m.dom().finite(),
        regular(m.dom()),
    ensures
        forall|k: Seq<u8>| #[trigger]
            in_force(m, upper, bound, at, k) <==> frontier_rows(m, upper, bound, at).contains(
                (k, m[k]),
            ),
        forall|i: int|
            0 <= i < frontier_rows(m, upper, bound, at).len() ==> {
                let row = #[trigger] frontier_rows(m, upper, bound, at)[i];
                in_force(m, upper, bound, at, row.0) && row.1 == m[row.0]
            },
        forall|i: int, j: int|
            0 <= i < j < frontier_rows(m, upper, bound, at).len() ==> {
                let a = #[trigger] frontier_rows(m, upper, bound, at)[i];
                let b = #[trigger] frontier_rows(m, upper, bound, at)[j];
                lex_lt(a.0, b.0) && identity_of(a.0) != identity_of(b.0)
            },
    decreases between(m, bound, upper).dom().len(),
{
    let rows = frontier_rows(m, upper, bound, at);
    law_a_frontier_scan_shows_what_is_in_force(m, upper, bound, at);
    lemma_frontier_next(m, upper, bound, at);
    if let Some(k) = frontier_next(m, upper, bound, at) {
        let next = versions_upper(k);
        let rest = frontier_rows(m, upper, next, at);
        lemma_next_seek_shrinks(m, upper, bound, k, at);
        law_a_drained_frontier_scan_shows_all_that_is_in_force(m, upper, next, at);
        assert(rows == seq![(k, m[k])] + rest);
        assert(rows[0] == (k, m[k]));
        assert forall|j: Seq<u8>| #[trigger]
            in_force(m, upper, next, at, j) <==> in_force(m, upper, bound, at, j) && j != k by {
            lemma_in_force_after(m, upper, bound, at, k, j);
        }
        assert forall|j: Seq<u8>| #[trigger] in_force(m, upper, bound, at, j) <==> rows.contains(
            (j, m[j]),
        ) by {
            if j != k && in_force(m, upper, bound, at, j) {
                assert(in_force(m, upper, next, at, j));
                let i = choose|i: int| 0 <= i < rest.len() && rest[i] == (j, m[j]);
                assert(rows[i + 1] == (j, m[j]));
            }
            if j != k && rows.contains((j, m[j])) {
                let i = choose|i: int| 0 <= i < rows.len() && rows[i] == (j, m[j]);
                assert(rest[i - 1] == (j, m[j]));
                assert(in_force(m, upper, next, at, j));
            }
        }
        assert forall|i: int| 0 <= i < rows.len() implies {
            let row = #[trigger] rows[i];
            in_force(m, upper, bound, at, row.0) && row.1 == m[row.0]
        } by {
            if i > 0 {
                assert(rows[i] == rest[i - 1]);
                assert(in_force(m, upper, next, at, rest[i - 1].0));
            }
        }
        assert forall|i: int, j: int| 0 <= i < j < rows.len() implies {
            let a = #[trigger] rows[i];
            let b = #[trigger] rows[j];
            lex_lt(a.0, b.0) && identity_of(a.0) != identity_of(b.0)
        } by {
            assert(rows[j] == rest[j - 1]);
            if i > 0 {
                assert(rows[i] == rest[i - 1]);
            } else {
                let b = rest[j - 1].0;
                assert(in_force(m, upper, next, at, b));
                assert(in_force(m, upper, bound, at, b));
                lemma_one_in_force(m, upper, bound, at, k, b);
            }
        }
    } else {
        assert(rows.len() == 0);
    }
}

/// Two rows in force are of two identities.
proof fn lemma_one_in_force(
    m: Content,
    upper: Option<Seq<u8>>,
    bound: Seq<u8>,
    at: Stamp,
    a: Seq<u8>,
    b: Seq<u8>,
)
    requires
        in_force(m, upper, bound, at, a),
        in_force(m, upper, bound, at, b),
        lex_lt(a, b),
    ensures
        identity_of(a) != identity_of(b),
{
    if identity_of(a) == identity_of(b) {
        let id = identity_of(a);
        let va = validity_of(a).unwrap();
        lemma_key_is_version(a);
        lemma_key_is_version(b);
        lemma_newest_first(id, va, validity_of(b).unwrap());
        assert(has_version(m, id, va));
    }
}

/// Every row that a frontier scan shows is one of the view, in its range, asserts, and was written no
/// later than the point in time; the rows come in key order.
pub proof fn law_every_row_of_a_frontier_scan_stands(
    m: Content,
    upper: Option<Seq<u8>>,
    bound: Seq<u8>,
    at: Stamp,
)
    requires
        m.dom().finite(),
    ensures
        forall|i: int|
            0 <= i < frontier_rows(m, upper, bound, at).len() ==> {
                let row = #[trigger] frontier_rows(m, upper, bound, at)[i];
                &&& m.contains_key(row.0)
                &&& row.1 == m[row.0]
                &&& !lex_lt(row.0, bound)
                &&& upper is Some ==> lex_lt(row.0, upper.unwrap())
                &&& validity_of(row.0) matches Some(v) && v.timestamp <= at && v.is_assert
            },
        forall|i: int, j: int|
            0 <= i < j < frontier_rows(m, upper, bound, at).len() ==> lex_lt(
                (#[trigger] frontier_rows(m, upper, bound, at)[i]).0,
                (#[trigger] frontier_rows(m, upper, bound, at)[j]).0,
            ),
    decreases between(m, bound, upper).dom().len(),
{
    let rows = frontier_rows(m, upper, bound, at);
    lemma_frontier_next(m, upper, bound, at);
    if let Some(k) = frontier_next(m, upper, bound, at) {
        let next = versions_upper(k);
        let rest = frontier_rows(m, upper, next, at);
        lemma_next_seek_shrinks(m, upper, bound, k, at);
        lemma_versions_upper(k);
        law_every_row_of_a_frontier_scan_stands(m, upper, next, at);
        assert(rows == seq![(k, m[k])] + rest);
        assert forall|i: int| 0 < i < rows.len() implies lex_lt(k, (#[trigger] rows[i]).0)
            && !lex_lt(rows[i].0, bound) && rows[i] == rest[i - 1] by {
            assert(rows[i] == rest[i - 1]);
            lemma_not_lt(rows[i].0, next);
            lemma_lt_le(k, next, rows[i].0);
            if lex_lt(rows[i].0, bound) {
                lemma_lt_transitive(k, rows[i].0, bound);
            }
        }
        assert forall|i: int, j: int| 0 <= i < j < rows.len() implies lex_lt(
            (#[trigger] rows[i]).0,
            (#[trigger] rows[j]).0,
        ) by {
            assert(rows[j] == rest[j - 1]);
            if i > 0 {
                assert(rows[i] == rest[i - 1]);
            }
        }
    }
}

/// `v` is the newest version of the identity at or before `at`.
pub open spec fn is_newest_by(m: Content, identity: Seq<u8>, at: Stamp, v: Validity) -> bool {
    &&& has_version(m, identity, v)
    &&& v.timestamp <= at
    &&& forall|w: Validity| #[trigger]
        has_version(m, identity, w) && w.timestamp <= at ==> !newer(w, v)
}

/// A frontier scan over all versions of an identity, run to its end, shows the identity once if its
/// newest version at or before the point in time asserts: by that version. If that version is a
/// retraction, or there is none, it does not show the identity.
pub proof fn law_a_drained_frontier_scan_shows_an_identity_by_its_newest_version(
    m: Content,
    upper: Option<Seq<u8>>,
    lower: Seq<u8>,
    at: Stamp,
    identity: Seq<u8>,
)
    requires
        m.dom().finite(),
        regular(m.dom()),
        identity.len() >= ID_LEN,
        lex_le(lower, identity.push(VALIDITY_TAG)),
        forall|v: Validity| #[trigger]
            has_version(m, identity, v) ==> below(version_key(identity, v), upper),
    ensures
        forall|v: Validity| #[trigger]
            is_newest_by(m, identity, at, v) <==> {
                &&& m.contains_key(version_key(identity, v))
                &&& v.timestamp <= at
                &&& forall|w: Validity| #[trigger]
                    m.contains_key(version_key(identity, w)) && w.timestamp <= at ==> w.timestamp
                        < v.timestamp || w == v || w.timestamp == v.timestamp && v.is_assert
            },
        forall|v: Validity| #[trigger]
            is_newest_by(m, identity, at, v) && v.is_assert ==> frontier_rows(
                m,
                upper,
                lower,
                at,
            ).contains((version_key(identity, v), m[version_key(identity, v)])),
        forall|i: int|
            0 <= i < frontier_rows(m, upper, lower, at).len() && identity_of(
                (#[trigger] frontier_rows(m, upper, lower, at)[i]).0,
            ) == identity ==> {
                let row = frontier_rows(m, upper, lower, at)[i];
                &&& validity_of(row.0) matches Some(v)
                &&& v.is_assert
                &&& is_newest_by(m, identity, at, v)
                &&& row == (version_key(identity, v), m[version_key(identity, v)])
            },
        forall|i: int, j: int|
            0 <= i < frontier_rows(m, upper, lower, at).len() && 0 <= j < frontier_rows(
                m,
                upper,
                lower,
                at,
            ).len() && identity_of((#[trigger] frontier_rows(m, upper, lower, at)[i]).0) == identity
                && identity_of((#[trigger] frontier_rows(m, upper, lower, at)[j]).0) == identity
                ==> i == j,
{
    let rows = frontier_rows(m, upper, lower, at);
    law_a_drained_frontier_scan_shows_all_that_is_in_force(m, upper, lower, at);
    assert forall|v: Validity| #[trigger] is_newest_by(m, identity, at, v) <==> {
        &&& m.contains_key(version_key(identity, v))
        &&& v.timestamp <= at
        &&& forall|w: Validity| #[trigger]
            m.contains_key(version_key(identity, w)) && w.timestamp <= at ==> w.timestamp
                < v.timestamp || w == v || w.timestamp == v.timestamp && v.is_assert
    } by {
        if is_newest_by(m, identity, at, v) {
            assert forall|w: Validity| #[trigger]
                m.contains_key(version_key(identity, w)) && w.timestamp <= at implies w.timestamp
                < v.timestamp || w == v || w.timestamp == v.timestamp && v.is_assert by {
                assert(has_version(m, identity, w));
            }
        }
    }
    assert forall|w: Validity| !lex_lt(#[trigger] version_key(identity, w), lower) by {
        let k = version_key(identity, w);
        lemma_version_has_prefix(identity, w);
        lemma_prefix_range(identity, VALIDITY_TAG, k);
        if lex_lt(k, lower) {
            lemma_lt_le(k, lower, identity.push(VALIDITY_TAG));
        }
    }
    assert forall|v: Validity| #[trigger]
        is_newest_by(m, identity, at, v) && v.is_assert implies rows.contains(
        (version_key(identity, v), m[version_key(identity, v)]),
    ) by {
        let k = version_key(identity, v);
        lemma_version_key(identity, v);
        assert(between(m, lower, upper).contains_key(k));
        assert(in_force(m, upper, lower, at, k));
    }
    assert forall|i: int|
        0 <= i < rows.len() && identity_of((#[trigger] rows[i]).0) == identity implies {
        &&& validity_of(rows[i].0) matches Some(v)
        &&& v.is_assert
        &&& is_newest_by(m, identity, at, v)
        &&& rows[i] == (version_key(identity, v), m[version_key(identity, v)])
    } by {
        let k = rows[i].0;
        assert(in_force(m, upper, lower, at, k));
        lemma_key_is_version(k);
        let v = validity_of(k).unwrap();
        assert(has_version(m, identity, v));
        assert forall|w: Validity| #[trigger]
            has_version(m, identity, w) && w.timestamp <= at implies !newer(w, v) by {
            assert(!lex_lt(version_key(identity, w), lower));
        }
    }
}

/// What is in force as of a point in time depends on the versions up to then alone.
pub proof fn lemma_in_force_agrees(
    a: Content,
    b: Content,
    upper: Option<Seq<u8>>,
    bound: Seq<u8>,
    at: Stamp,
    j: Seq<u8>,
)
    requires
        forall|k: Seq<u8>|
            (#[trigger] validity_of(k)) is Some && validity_of(k).unwrap().timestamp <= at ==> agree(
                a,
                b,
                k,
            ),
        in_force(a, upper, bound, at, j),
    ensures
        in_force(b, upper, bound, at, j),
{
    let id = identity_of(j);
    lemma_key_is_version(j);
    assert(agree(a, b, j));
    assert forall|w: Validity| #[trigger] has_version(b, id, w) && w.timestamp <= at && newer(
        w,
        validity_of(j).unwrap(),
    ) implies lex_lt(version_key(id, w), bound) by {
        lemma_version_key(id, w);
        assert(validity_of(version_key(id, w)) is Some);
        assert(has_version(a, id, w));
    }
}

} // verus!
