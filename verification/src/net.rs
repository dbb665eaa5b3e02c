//! The net effect of a view: what a scan makes of each identity, said without reference to the
//! order the rows come in.

use vstd::prelude::*;

use crate::catalog::RelView;
use crate::codec::{
    identity_of, lemma_be_order, lemma_be_word, lemma_key_is_version, lemma_newest_first,
    lemma_version_has_prefix, lemma_version_key, lemma_versions_upper, newer, validity_of,
    version_key, versions_upper, ID_LEN, VALIDITY_TAG, Validity,
};
use crate::content::{
    ascending, between, lemma_ascending, lemma_ascending_skip, lemma_between_finite,
};
use crate::layer::Content;
use crate::order::{
    has_prefix, lemma_lt_asymmetric, lemma_lt_irreflexive, lemma_lt_le, lemma_lt_total,
    lemma_lt_transitive, lemma_not_lt, lemma_prefix_range, lex_lt, splits_at,
};
use crate::scan::{
    asserted_value, asserts, decided, first_assertion, first_dissent, has_version, is_newest,
    is_newest_assertion, lemma_newest_unique, lemma_relation_range, lemma_relations_apart,
    lemma_run_len, relation_lower, relation_upper, resolution, run_len, scan_all, scan_relation,
    scan_rows, scan_start, Effect, Kv, Resolution, Trace,
};

verus! {

/// No key that is not a version of an identity looks as if it were one: what begins with an
/// identity and the validity tag is a version of that identity. Keys whose columns delimit
/// themselves are like this.
pub open spec fn regular(keys: Set<Seq<u8>>) -> bool {
    forall|j: Seq<u8>, k: Seq<u8>| #[trigger]
        keys.contains(j) && #[trigger] keys.contains(k) && validity_of(j) is Some && has_prefix(
            k,
            identity_of(j).push(VALIDITY_TAG),
        ) ==> validity_of(k) is Some && identity_of(k) == identity_of(j)
}

/// The newest version of an identity.
pub open spec fn newest(m: Content, identity: Seq<u8>) -> Validity {
    choose|v: Validity| is_newest(m, identity, v)
}

/// `v` is the newest assertion under the identity of something other than `val`.
pub open spec fn is_newest_dissent(
    m: Content,
    identity: Seq<u8>,
    val: Seq<u8>,
    v: Validity,
) -> bool {
    &&& v.is_assert
    &&& has_version(m, identity, v)
    &&& m[version_key(identity, v)] != val
    &&& forall|w: Validity| #[trigger]
        has_version(m, identity, w) && w.is_assert && m[version_key(identity, w)] != val
            ==> w.timestamp <= v.timestamp
}

/// The value of the newest assertion under the identity of something other than `val`.
pub open spec fn dissent(m: Content, identity: Seq<u8>, val: Seq<u8>) -> Option<Seq<u8>> {
    if exists|v: Validity| is_newest_dissent(m, identity, val, v) {
        Some(
            m[version_key(identity, choose|v: Validity| is_newest_dissent(m, identity, val, v))],
        )
    } else {
        None
    }
}

/// What the view makes of an identity: its newest version, the value of its newest assertion,
/// and that of the newest assertion that disagrees.
pub open spec fn net(m: Content, identity: Seq<u8>) -> Resolution {
    let v = newest(m, identity);
    let asserted = asserted_value(m, identity);
    Resolution {
        key: version_key(identity, v),
        val: m[version_key(identity, v)],
        asserts: v.is_assert,
        asserted,
        divergent: match asserted {
            Some(a) => dissent(m, identity, a),
            None => None,
        },
    }
}

/// The rows are the versions of the identity in the view, all of them, newest first.
pub open spec fn versions_of(m: Content, identity: Seq<u8>, rows: Seq<Kv>) -> bool {
    &&& identity.len() >= ID_LEN
    &&& rows.len() > 0
    &&& forall|i: int|
        0 <= i < rows.len() ==> validity_of((#[trigger] rows[i]).0) is Some && identity_of(rows[i].0)
            == identity && m.contains_key(rows[i].0) && m[rows[i].0] == rows[i].1
    &&& forall|i: int, j: int|
        0 <= i < j < rows.len() ==> lex_lt((#[trigger] rows[i]).0, (#[trigger] rows[j]).0)
    &&& forall|w: Validity| #[trigger]
        has_version(m, identity, w) ==> exists|i: int|
            0 <= i < rows.len() && (#[trigger] rows[i]).0 == version_key(identity, w)
}

/// The first assertion is preceded by none.
pub proof fn lemma_first_assertion(rows: Seq<Kv>) -> (at: int)
    ensures
        match first_assertion(rows) {
            None => forall|i: int| 0 <= i < rows.len() ==> !asserts((#[trigger] rows[i]).0),
            Some(v) => {
                &&& 0 <= at < rows.len()
                &&& asserts(rows[at].0)
                &&& rows[at].1 == v
                &&& forall|i: int| 0 <= i < at ==> !asserts((#[trigger] rows[i]).0)
            },
        },
    decreases rows.len(),
{
    if rows.len() == 0 {
        0
    } else {
        let front = rows.drop_last();
        let at = lemma_first_assertion(front);
        assert(forall|i: int| 0 <= i < front.len() ==> #[trigger] rows[i] == front[i]);
        if first_assertion(front) is Some {
            at
        } else {
            rows.len() - 1
        }
    }
}

/// The first dissent is preceded by none.
proof fn lemma_first_dissent(rows: Seq<Kv>, val: Seq<u8>) -> (at: int)
    ensures
        match first_dissent(rows, val) {
            None => forall|i: int|
                0 <= i < rows.len() ==> !(asserts((#[trigger] rows[i]).0) && rows[i].1 != val),
            Some(v) => {
                &&& 0 <= at < rows.len()
                &&& asserts(rows[at].0)
                &&& rows[at].1 != val
                &&& rows[at].1 == v
                &&& forall|i: int|
                    0 <= i < at ==> !(asserts((#[trigger] rows[i]).0) && rows[i].1 != val)
            },
        },
    decreases rows.len(),
{
    if rows.len() == 0 {
        0
    } else {
        let front = rows.drop_last();
        let at = lemma_first_dissent(front, val);
        assert(forall|i: int| 0 <= i < front.len() ==> #[trigger] rows[i] == front[i]);
        if first_dissent(front, val) is Some {
            at
        } else {
            rows.len() - 1
        }
    }
}

/// Where a version of the identity stands among the rows.
spec fn place(identity: Seq<u8>, rows: Seq<Kv>, w: Validity) -> int {
    choose|i: int| 0 <= i < rows.len() && (#[trigger] rows[i]).0 == version_key(identity, w)
}

/// A version that stands before another is newer.
proof fn lemma_before_is_newer(m: Content, identity: Seq<u8>, rows: Seq<Kv>, at: int, w: Validity) -> (p: int)
    requires
        versions_of(m, identity, rows),
        0 <= at < rows.len(),
        has_version(m, identity, w),
    ensures
        0 <= p < rows.len(),
        rows[p].0 == version_key(identity, w),
        rows[p].1 == m[version_key(identity, w)],
        validity_of(rows[p].0) == Some(w),
        p < at <==> newer(w, validity_of(rows[at].0).unwrap()),
{
    let p = place(identity, rows, w);
    let v = validity_of(rows[at].0).unwrap();
    assert(0 <= p < rows.len() && rows[p].0 == version_key(identity, w));
    lemma_key_is_version(rows[at].0);
    lemma_newest_first(identity, w, v);
    lemma_version_key(identity, w);
    if p < at {
        assert(lex_lt(rows[p].0, rows[at].0));
    } else if at < p {
        assert(lex_lt(rows[at].0, rows[p].0));
        lemma_lt_asymmetric(rows[at].0, rows[p].0);
    }
    p
}

/// The versions of an identity, newest first, come to what the view makes of it.
pub proof fn lemma_resolution_is_net(m: Content, identity: Seq<u8>, rows: Seq<Kv>)
    requires
        versions_of(m, identity, rows),
    ensures
        resolution(rows) == net(m, identity),
        is_newest(m, identity, newest(m, identity)),
        rows[0].0 == version_key(identity, newest(m, identity)),
{
    let v = validity_of(rows[0].0).unwrap();
    lemma_key_is_version(rows[0].0);
    assert(is_newest(m, identity, v)) by {
        assert(has_version(m, identity, v));
        assert forall|w: Validity| #[trigger] has_version(m, identity, w) implies !newer(w, v) by {
            let p = lemma_before_is_newer(m, identity, rows, 0, w);
        }
    }
    lemma_newest_unique(m, identity, v, newest(m, identity));
    let at = lemma_first_assertion(rows);
    let asserted = asserted_value(m, identity);
    match first_assertion(rows) {
        None => {
            if exists|a: Validity| is_newest_assertion(m, identity, a) {
                let a = choose|a: Validity| is_newest_assertion(m, identity, a);
                let p = lemma_before_is_newer(m, identity, rows, 0, a);
                assert(asserts(rows[p].0));
            }
        },
        Some(val) => {
            let a = validity_of(rows[at].0).unwrap();
            lemma_key_is_version(rows[at].0);
            assert(has_version(m, identity, a));
            assert(is_newest_assertion(m, identity, a)) by {
                assert forall|w: Validity| #[trigger] has_version(m, identity, w)
                    && w.is_assert implies w.timestamp <= a.timestamp by {
                    let p = lemma_before_is_newer(m, identity, rows, at, w);
                    if newer(w, a) {
                        assert(asserts(rows[p].0));
                    }
                }
            }
            lemma_newest_unique(
                m,
                identity,
                a,
                choose|c: Validity| is_newest_assertion(m, identity, c),
            );
            assert(asserted == Some(val));
            lemma_dissent_is_first(m, identity, rows, val);
        },
    }
    assert(resolution(rows) =~= net(m, identity));
}

proof fn lemma_dissent_is_first(m: Content, identity: Seq<u8>, rows: Seq<Kv>, val: Seq<u8>)
    requires
        versions_of(m, identity, rows),
    ensures
        first_dissent(rows, val) == dissent(m, identity, val),
{
    let at = lemma_first_dissent(rows, val);
    match first_dissent(rows, val) {
        None => {
            if exists|d: Validity| is_newest_dissent(m, identity, val, d) {
                let d = choose|d: Validity| is_newest_dissent(m, identity, val, d);
                let p = lemma_before_is_newer(m, identity, rows, 0, d);
                assert(asserts(rows[p].0));
            }
        },
        Some(other) => {
            let d = validity_of(rows[at].0).unwrap();
            lemma_key_is_version(rows[at].0);
            assert(has_version(m, identity, d));
            assert(is_newest_dissent(m, identity, val, d)) by {
                assert forall|w: Validity| #[trigger] has_version(m, identity, w) && w.is_assert
                    && m[version_key(identity, w)] != val implies w.timestamp <= d.timestamp by {
                    let p = lemma_before_is_newer(m, identity, rows, at, w);
                    if newer(w, d) {
                        assert(asserts(rows[p].0));
                    }
                }
            }
            let c = choose|c: Validity| is_newest_dissent(m, identity, val, c);
            assert(is_newest_dissent(m, identity, val, c));
            assert(has_version(m, identity, c));
            assert(c == d);
        },
    }
}

/// Where two assertions under an identity differ, one of them differs from the newest.
pub proof fn lemma_dissent_found(
    m: Content,
    identity: Seq<u8>,
    rows: Seq<Kv>,
    a: Validity,
    b: Validity,
)
    requires
        versions_of(m, identity, rows),
        has_version(m, identity, a),
        a.is_assert,
        has_version(m, identity, b),
        b.is_assert,
        m[version_key(identity, a)] != m[version_key(identity, b)],
    ensures
        net(m, identity).divergent is Some,
{
    let pa = lemma_before_is_newer(m, identity, rows, 0, a);
    let pb = lemma_before_is_newer(m, identity, rows, 0, b);
    lemma_resolution_is_net(m, identity, rows);
    let at = lemma_first_assertion(rows);
    assert(asserts(rows[pa].0) && asserts(rows[pb].0));
    let val = first_assertion(rows).unwrap();
    let d = lemma_first_dissent(rows, val);
}

/// The rows come in key order out of the view, and where one version of an identity comes all
/// of them do.
#[verifier::opaque]
pub open spec fn streams(m: Content, rows: Seq<Kv>) -> bool {
    &&& forall|i: int, j: int|
        0 <= i < j < rows.len() ==> lex_lt((#[trigger] rows[i]).0, (#[trigger] rows[j]).0)
    &&& forall|i: int|
        0 <= i < rows.len() ==> m.contains_key((#[trigger] rows[i]).0) && m[rows[i].0] == rows[i].1
    &&& forall|i: int, w: Validity|
        0 <= i < rows.len() && validity_of((#[trigger] rows[i]).0) is Some && #[trigger] has_version(
            m,
            identity_of(rows[i].0),
            w,
        ) ==> comes(rows, version_key(identity_of(rows[i].0), w))
}

/// A row under this key is among the rows.
pub open spec fn comes(rows: Seq<Kv>, key: Seq<u8>) -> bool {
    exists|i: int| 0 <= i < rows.len() && (#[trigger] rows[i]).0 == key
}

/// The identity that a decided row is about.
pub open spec fn about(row: (RelView, Effect)) -> Seq<u8> {
    identity_of(row.1.key())
}

/// Some decided row is about the identity.
pub open spec fn told(rows: Seq<(RelView, Effect)>, identity: Seq<u8>) -> bool {
    exists|i: int| 0 <= i < rows.len() && about(#[trigger] rows[i]) == identity
}

/// Each decided row is what the view makes of an identity, decided against the destination, under
/// the key of its newest version; the rows come in key order, and no two are about one identity.
#[verifier::opaque]
pub open spec fn tells(rows: Seq<(RelView, Effect)>, m: Content, dst: Content) -> bool {
    &&& forall|i: int|
        0 <= i < rows.len() ==> {
            let row = #[trigger] rows[i];
            &&& validity_of(row.1.key()) is Some
            &&& m.contains_key(row.1.key())
            &&& is_newest(m, about(row), newest(m, about(row)))
            &&& row.1 == decided(net(m, about(row)), dst)
        }
    &&& forall|i: int, j: int|
        0 <= i < j < rows.len() ==> lex_lt((#[trigger] rows[i]).1.key(), (#[trigger] rows[j]).1.key())
            && about(rows[i]) != about(rows[j])
}

/// In a regular view, what follows a run of versions of one identity holds no more of them.
proof fn lemma_run_ends(m: Content, rows: Seq<Kv>, n: int, r: int)
    requires
        regular(m.dom()),
        streams(m, rows),
        0 < n <= r < rows.len(),
        validity_of(rows[0].0) is Some,
        validity_of(rows[n].0) is None || identity_of(rows[n].0) != identity_of(rows[0].0),
    ensures
        !(validity_of(rows[r].0) is Some && identity_of(rows[r].0) == identity_of(rows[0].0)),
{
    reveal(streams);
    let id = identity_of(rows[0].0);
    if validity_of(rows[r].0) is Some && identity_of(rows[r].0) == id {
        let lo = id.push(VALIDITY_TAG);
        let hi = id.push((VALIDITY_TAG + 1) as u8);
        lemma_key_is_version(rows[0].0);
        lemma_key_is_version(rows[r].0);
        lemma_version_has_prefix(id, validity_of(rows[0].0).unwrap());
        lemma_version_has_prefix(id, validity_of(rows[r].0).unwrap());
        lemma_prefix_range(id, VALIDITY_TAG, rows[0].0);
        lemma_prefix_range(id, VALIDITY_TAG, rows[r].0);
        lemma_prefix_range(id, VALIDITY_TAG, rows[n].0);
        assert(lex_lt(rows[0].0, rows[n].0));
        assert(lex_lt(rows[n].0, hi)) by {
            if n < r {
                assert(lex_lt(rows[n].0, rows[r].0));
                lemma_lt_transitive(rows[n].0, rows[r].0, hi);
            }
        }
        if lex_lt(rows[n].0, lo) {
            lemma_lt_transitive(rows[0].0, rows[n].0, lo);
        }
        assert(has_prefix(rows[n].0, lo));
        assert(m.dom().contains(rows[0].0) && m.dom().contains(rows[n].0));
    }
}

/// In a regular view, the first run of a stream is all there is of its identity, and the rest is
/// a stream without it.
proof fn lemma_first_run(m: Content, rows: Seq<Kv>, n: int)
    requires
        regular(m.dom()),
        streams(m, rows),
        rows.len() > 0,
        validity_of(rows[0].0) is Some,
        n == run_len(rows, identity_of(rows[0].0)),
    ensures
        0 < n <= rows.len(),
        versions_of(m, identity_of(rows[0].0), rows.take(n)),
        streams(m, rows.skip(n)),
        forall|r: int|
            n <= r < rows.len() ==> !(validity_of((#[trigger] rows[r]).0) is Some && identity_of(
                rows[r].0,
            ) == identity_of(rows[0].0)),
{
    reveal(streams);
    let id = identity_of(rows[0].0);
    lemma_run_len(rows, id);
    let run = rows.take(n);
    let rest = rows.skip(n);
    assert forall|r: int| n <= r < rows.len() implies !(validity_of((#[trigger] rows[r]).0) is Some
        && identity_of(rows[r].0) == id) by {
        lemma_run_ends(m, rows, n, r);
    }
    lemma_key_is_version(rows[0].0);
    assert(versions_of(m, id, run)) by {
        assert forall|w: Validity| #[trigger] has_version(m, id, w) implies exists|i: int|
            0 <= i < run.len() && (#[trigger] run[i]).0 == version_key(id, w) by {
            assert(has_version(m, identity_of(rows[0].0), w));
            assert(comes(rows, version_key(id, w)));
            let j = choose|j: int|
                0 <= j < rows.len() && (#[trigger] rows[j]).0 == version_key(id, w);
            lemma_version_key(id, w);
            assert(run[j] == rows[j]);
        }
    }
    assert(streams(m, rest)) by {
        assert forall|i: int, w: Validity|
            0 <= i < rest.len() && validity_of((#[trigger] rest[i]).0) is Some
                && #[trigger] has_version(m, identity_of(rest[i].0), w) implies comes(
            rest,
            version_key(identity_of(rest[i].0), w),
        ) by {
            let other = identity_of(rest[i].0);
            assert(rest[i] == rows[i + n]);
            assert(has_version(m, identity_of(rows[i + n].0), w));
            assert(comes(rows, version_key(other, w)));
            let j = choose|j: int|
                0 <= j < rows.len() && (#[trigger] rows[j]).0 == version_key(other, w);
            lemma_key_is_version(rest[i].0);
            lemma_version_key(other, w);
            assert(j >= n);
            assert(rest[j - n] == rows[j]);
        }
    }
}

/// Putting the decision of the first run before those of the rest.
proof fn lemma_tells_first(
    one: (RelView, Effect),
    later: Seq<(RelView, Effect)>,
    m: Content,
    dst: Content,
)
    requires
        tells(later, m, dst),
        tells(seq![one], m, dst),
        forall|i: int|
            0 <= i < later.len() ==> lex_lt(one.1.key(), (#[trigger] later[i]).1.key()) && about(one)
                != about(later[i]),
    ensures
        tells(seq![one] + later, m, dst),
{
    reveal(tells);
    let all = seq![one] + later;
    assert(seq![one][0] == one);
    assert forall|i: int| 0 <= i < all.len() implies {
        let row = #[trigger] all[i];
        &&& validity_of(row.1.key()) is Some
        &&& m.contains_key(row.1.key())
        &&& is_newest(m, about(row), newest(m, about(row)))
        &&& row.1 == decided(net(m, about(row)), dst)
    } by {
        if i > 0 {
            assert(all[i] == later[i - 1]);
        }
    }
    assert forall|i: int, j: int| 0 <= i < j < all.len() implies lex_lt(
        (#[trigger] all[i]).1.key(),
        (#[trigger] all[j]).1.key(),
    ) && about(all[i]) != about(all[j]) by {
        assert(all[j] == later[j - 1]);
        if i > 0 {
            assert(all[i] == later[i - 1]);
        }
    }
}

/// The scan of a stream whose first run it decides: the decision, and then the scan of the rest.
proof fn lemma_scan_step(rel: RelView, rows: Seq<Kv>, m: Content, dst: Content) -> (n: int)
    requires
        regular(m.dom()),
        streams(m, rows),
        scan_rows(rel, rows, dst).rows.len() > 0,
    ensures
        rows.len() > 0,
        validity_of(rows[0].0) is Some,
        0 < n <= rows.len(),
        streams(m, rows.skip(n)),
        scan_rows(rel, rows, dst).rows == seq![
            (rel, decided(net(m, identity_of(rows[0].0)), dst)),
        ] + scan_rows(rel, rows.skip(n), dst).rows,
        scan_rows(rel, rows, dst).failure == scan_rows(rel, rows.skip(n), dst).failure,
        decided(net(m, identity_of(rows[0].0)), dst).key() == rows[0].0,
        m.contains_key(rows[0].0),
        is_newest(m, identity_of(rows[0].0), newest(m, identity_of(rows[0].0))),
        forall|r: int|
            0 <= r < n ==> validity_of((#[trigger] rows[r]).0) is Some && identity_of(rows[r].0)
                == identity_of(rows[0].0),
        forall|r: int|
            n <= r < rows.len() ==> !(validity_of((#[trigger] rows[r]).0) is Some && identity_of(
                rows[r].0,
            ) == identity_of(rows[0].0)),
{
    let id = identity_of(rows[0].0);
    let n = run_len(rows, id) as int;
    lemma_run_len(rows, id);
    lemma_first_run(m, rows, n);
    assert(rows.take(n)[0] == rows[0]);
    lemma_resolution_is_net(m, id, rows.take(n));
    n
}

/// Rows of a stream come in key order.
proof fn lemma_streams_order(m: Content, rows: Seq<Kv>, i: int, j: int)
    requires
        streams(m, rows),
        0 <= i < j < rows.len(),
    ensures
        lex_lt(rows[i].0, rows[j].0),
{
    reveal(streams);
}

/// A scan of a regular view decides each identity once, by what the view makes of it.
pub proof fn lemma_scan_rows_tells(rel: RelView, rows: Seq<Kv>, m: Content, dst: Content)
    requires
        regular(m.dom()),
        streams(m, rows),
    ensures
        tells(scan_rows(rel, rows, dst).rows, m, dst),
        forall|i: int|
            0 <= i < scan_rows(rel, rows, dst).rows.len() ==> (#[trigger] scan_rows(
                rel,
                rows,
                dst,
            ).rows[i]).0 == rel && comes(rows, scan_rows(rel, rows, dst).rows[i].1.key()),
    decreases rows.len(),
{
    let t = scan_rows(rel, rows, dst);
    if t.rows.len() == 0 {
        reveal(tells);
    } else {
        let n = lemma_scan_step(rel, rows, m, dst);
        let id = identity_of(rows[0].0);
        let rest = rows.skip(n);
        let later = scan_rows(rel, rest, dst).rows;
        let one = (rel, decided(net(m, id), dst));
        lemma_scan_rows_tells(rel, rest, m, dst);
        assert forall|i: int| 0 <= i < later.len() implies lex_lt(
            one.1.key(),
            (#[trigger] later[i]).1.key(),
        ) && about(one) != about(later[i]) && comes(rows, later[i].1.key()) && later[i].0 == rel by {
            assert(comes(rest, later[i].1.key()));
            let r = choose|r: int| 0 <= r < rest.len() && (#[trigger] rest[r]).0 == later[i].1.key();
            assert(rest[r] == rows[r + n]);
            lemma_streams_order(m, rows, 0, r + n);
            lemma_tells_row(later, m, dst, i);
        }
        assert(tells(seq![one], m, dst)) by {
            reveal(tells);
        }
        lemma_tells_first(one, later, m, dst);
        assert forall|i: int| 0 <= i < t.rows.len() implies (#[trigger] t.rows[i]).0 == rel && comes(
            rows,
            t.rows[i].1.key(),
        ) by {
            if i == 0 {
                assert(comes(rows, rows[0].0));
            } else {
                assert(t.rows[i] == later[i - 1]);
            }
        }
    }
}

/// What is told of one row.
pub proof fn lemma_tells_row(rows: Seq<(RelView, Effect)>, m: Content, dst: Content, i: int)
    requires
        tells(rows, m, dst),
        0 <= i < rows.len(),
    ensures
        validity_of(rows[i].1.key()) is Some,
        m.contains_key(rows[i].1.key()),
        is_newest(m, about(rows[i]), newest(m, about(rows[i]))),
        rows[i].1 == decided(net(m, about(rows[i])), dst),
        rows[i].1.key() == version_key(about(rows[i]), newest(m, about(rows[i]))),
{
    reveal(tells);
}

/// What is told of two rows.
pub proof fn lemma_tells_order(
    rows: Seq<(RelView, Effect)>,
    m: Content,
    dst: Content,
    i: int,
    j: int,
)
    requires
        tells(rows, m, dst),
        0 <= i < j < rows.len(),
    ensures
        lex_lt(rows[i].1.key(), rows[j].1.key()),
        about(rows[i]) != about(rows[j]),
{
    reveal(tells);
}

/// A scan that does not fail leaves no identity out.
pub proof fn lemma_scan_rows_complete(rel: RelView, rows: Seq<Kv>, m: Content, dst: Content)
    requires
        regular(m.dom()),
        streams(m, rows),
        scan_rows(rel, rows, dst).failure is None,
    ensures
        forall|r: int|
            0 <= r < rows.len() ==> validity_of((#[trigger] rows[r]).0) is Some && told(
                scan_rows(rel, rows, dst).rows,
                identity_of(rows[r].0),
            ),
    decreases rows.len(),
{
    let t = scan_rows(rel, rows, dst);
    if rows.len() > 0 {
        assert(t.rows.len() > 0) by {
            lemma_run_len(rows, identity_of(rows[0].0));
        }
        let n = lemma_scan_step(rel, rows, m, dst);
        let rest = rows.skip(n);
        let later = scan_rows(rel, rest, dst).rows;
        lemma_scan_rows_complete(rel, rest, m, dst);
        assert forall|r: int| 0 <= r < rows.len() implies validity_of((#[trigger] rows[r]).0) is Some
            && told(t.rows, identity_of(rows[r].0)) by {
            if r < n {
                assert(about(t.rows[0]) == identity_of(rows[0].0));
            } else {
                assert(rest[r - n] == rows[r]);
                assert(told(later, identity_of(rest[r - n].0)));
                let i = choose|i: int|
                    0 <= i < later.len() && about(#[trigger] later[i]) == identity_of(
                        rest[r - n].0,
                    );
                assert(t.rows[i + 1] == later[i]);
            }
        }
    }
}

/// The keys that sort before what lies above the versions of the first row's key are those
/// versions.
proof fn lemma_first_run_upper(m: Content, rows: Seq<Kv>, n: int, r: int)
    requires
        regular(m.dom()),
        streams(m, rows),
        0 < n <= rows.len(),
        0 <= r < rows.len(),
        validity_of(rows[0].0) is Some,
        forall|r: int|
            0 <= r < n ==> validity_of((#[trigger] rows[r]).0) is Some && identity_of(rows[r].0)
                == identity_of(rows[0].0),
        forall|r: int|
            n <= r < rows.len() ==> !(validity_of((#[trigger] rows[r]).0) is Some && identity_of(
                rows[r].0,
            ) == identity_of(rows[0].0)),
    ensures
        lex_lt(rows[r].0, versions_upper(rows[0].0)) <==> r < n,
{
    let id = identity_of(rows[0].0);
    let upper = versions_upper(rows[0].0);
    if r < n {
        lemma_versions_upper(rows[r].0);
    } else if lex_lt(rows[r].0, upper) {
        let lo = id.push(VALIDITY_TAG);
        lemma_key_is_version(rows[0].0);
        lemma_version_has_prefix(id, validity_of(rows[0].0).unwrap());
        lemma_prefix_range(id, VALIDITY_TAG, rows[0].0);
        lemma_prefix_range(id, VALIDITY_TAG, rows[r].0);
        lemma_streams_order(m, rows, 0, r);
        if lex_lt(rows[r].0, lo) {
            lemma_lt_transitive(rows[0].0, rows[r].0, lo);
        }
        assert(has_prefix(rows[r].0, lo));
        assert(m.dom().contains(rows[0].0) && m.dom().contains(rows[r].0)) by {
            reveal(streams);
        }
    }
}

/// What a scan decides after one of its rows is what a scan of the rows above every version of
/// that row's key decides.
pub proof fn lemma_scan_rows_resume(
    rel: RelView,
    rows: Seq<Kv>,
    m: Content,
    dst: Content,
    i: int,
) -> (p: int)
    requires
        regular(m.dom()),
        streams(m, rows),
        0 <= i < scan_rows(rel, rows, dst).rows.len(),
    ensures
        0 <= p <= rows.len(),
        forall|r: int|
            0 <= r < rows.len() ==> (lex_lt(
                (#[trigger] rows[r]).0,
                versions_upper(scan_rows(rel, rows, dst).rows[i].1.key()),
            ) <==> r < p),
        scan_rows(rel, rows.skip(p), dst) == (Trace {
            rows: scan_rows(rel, rows, dst).rows.skip(i + 1),
            failure: scan_rows(rel, rows, dst).failure,
        }),
    decreases rows.len(),
{
    let t = scan_rows(rel, rows, dst);
    let n = lemma_scan_step(rel, rows, m, dst);
    let rest = rows.skip(n);
    let later = scan_rows(rel, rest, dst);
    let upper = versions_upper(t.rows[i].1.key());
    if i == 0 {
        assert forall|r: int| 0 <= r < rows.len() implies (lex_lt((#[trigger] rows[r]).0, upper)
            <==> r < n) by {
            lemma_first_run_upper(m, rows, n, r);
        }
        assert(t.rows.skip(1) =~= later.rows);
        n
    } else {
        assert(t.rows[i] == later.rows[i - 1]);
        let q = lemma_scan_rows_resume(rel, rest, m, dst, i - 1);
        lemma_scan_rows_tells(rel, rest, m, dst);
        let key = later.rows[i - 1].1.key();
        assert(comes(rest, key));
        let c = choose|c: int| 0 <= c < rest.len() && (#[trigger] rest[c]).0 == key;
        assert(rest[c] == rows[c + n]);
        lemma_versions_upper(key);
        assert forall|r: int| 0 <= r < rows.len() implies (lex_lt((#[trigger] rows[r]).0, upper)
            <==> r < q + n) by {
            if r >= n {
                assert(rest[r - n] == rows[r]);
            } else {
                // The run of the first identity lies before every later row.
                lemma_streams_order(m, rows, r, c + n);
                lemma_lt_transitive(rows[r].0, rows[c + n].0, upper);
            }
        }
        assert(rest.skip(q) =~= rows.skip(q + n));
        assert(later.rows.skip(i) =~= t.rows.skip(i + 1));
        q + n
    }
}

/// The keys of a relation are those between its prefix and the next one's.
pub proof fn lemma_relation_keys(rel: RelView, key: Seq<u8>)
    requires
        rel.id < u64::MAX,
        key.len() >= ID_LEN,
    ensures
        !lex_lt(key, relation_lower(rel)) && lex_lt(key, relation_upper(rel)) <==> key.take(8)
            == relation_lower(rel),
{
    let lower = relation_lower(rel);
    let upper = relation_upper(rel);
    let p = key.take(8);
    lemma_be_word(rel.id as nat);
    lemma_be_word((rel.id + 1) as nat);
    lemma_lt_word(key, lower);
    lemma_lt_word(key, upper);
    lemma_be_order(p, lower);
    lemma_be_order(p, upper);
    lemma_be_order(lower, p);
    lemma_lt_total(p, lower);
    lemma_lt_irreflexive(lower);
}

/// A key compares with eight bytes as its own first eight do.
pub proof fn lemma_lt_word(key: Seq<u8>, word: Seq<u8>)
    requires
        key.len() >= 8,
        word.len() == 8,
    ensures
        lex_lt(key, word) <==> lex_lt(key.take(8), word),
{
    let p = key.take(8);
    if lex_lt(key, word) {
        let i = choose|i: int| splits_at(key, word, i);
        assert(splits_at(key, word, i));
        assert forall|k: int| 0 <= k < i implies #[trigger] p[k] == word[k] by {
            assert(key[k] == word[k]);
        }
        assert(splits_at(p, word, i));
    }
    if lex_lt(p, word) {
        let i = choose|i: int| splits_at(p, word, i);
        assert(splits_at(p, word, i));
        assert forall|k: int| 0 <= k < i implies #[trigger] key[k] == word[k] by {
            assert(p[k] == word[k]);
        }
        assert(splits_at(key, word, i));
    }
}

/// The rows of a relation are a stream.
pub proof fn lemma_relation_streams(rel: RelView, m: Content)
    requires
        m.dom().finite(),
        rel.id < u64::MAX,
    ensures
        streams(m, ascending(between(m, relation_lower(rel), Some(relation_upper(rel))))),
{
    let lower = relation_lower(rel);
    let upper = Some(relation_upper(rel));
    let part = between(m, lower, upper);
    let rows = ascending(part);
    reveal(streams);
    lemma_between_finite(m, lower, upper);
    lemma_ascending(part);
    assert forall|i: int| 0 <= i < rows.len() implies m.contains_key((#[trigger] rows[i]).0)
        && m[rows[i].0] == rows[i].1 by {
        assert(part.contains_key(rows[i].0));
    }
    assert forall|i: int, w: Validity|
        0 <= i < rows.len() && validity_of((#[trigger] rows[i]).0) is Some && #[trigger] has_version(
            m,
            identity_of(rows[i].0),
            w,
        ) implies comes(rows, version_key(identity_of(rows[i].0), w)) by {
        let id = identity_of(rows[i].0);
        let k = version_key(id, w);
        assert(part.contains_key(rows[i].0));
        lemma_key_is_version(rows[i].0);
        lemma_version_key(id, w);
        lemma_relation_keys(rel, rows[i].0);
        lemma_relation_keys(rel, k);
        assert(rows[i].0.take(8) =~= id.take(8));
        assert(k.take(8) =~= id.take(8));
        assert(part.contains_key(k));
    }
}

/// A flatten takes in the key: it belongs to a relation with a validity that is no index.
pub open spec fn takes(rel: RelView, key: Seq<u8>) -> bool {
    &&& !rel.is_index
    &&& rel.stackable
    &&& !lex_lt(key, relation_lower(rel))
    &&& lex_lt(key, relation_upper(rel))
}

/// A flatten takes in the key: it belongs to one of the relations that it scans.
pub open spec fn taken(rels: Seq<RelView>, key: Seq<u8>) -> bool {
    exists|r: int| 0 <= r < rels.len() && takes(#[trigger] rels[r], key)
}

/// The relations are in order of id, with an id free above each.
pub open spec fn rels_by_id(rels: Seq<RelView>) -> bool {
    &&& forall|i: int, j: int|
        0 <= i < j < rels.len() ==> (#[trigger] rels[i]).id < (#[trigger] rels[j]).id
    &&& forall|i: int| 0 <= i < rels.len() ==> (#[trigger] rels[i]).id < u64::MAX
}

proof fn lemma_rels_rest(rels: Seq<RelView>)
    requires
        rels_by_id(rels),
        rels.len() > 0,
    ensures
        rels_by_id(rels.drop_first()),
        forall|j: int|
            0 <= j < rels.drop_first().len() ==> rels[0].id < (#[trigger] rels.drop_first()[j]).id,
{
    let rest = rels.drop_first();
    assert forall|i: int, j: int| 0 <= i < j < rest.len() implies (#[trigger] rest[i]).id < (
    #[trigger] rest[j]).id by {
        assert(rest[i] == rels[i + 1] && rest[j] == rels[j + 1]);
    }
    assert forall|j: int| 0 <= j < rest.len() implies rels[0].id < (#[trigger] rest[j]).id by {
        assert(rest[j] == rels[j + 1]);
    }
}

/// Two stretches of decided rows, the second above the first and about other identities.
proof fn lemma_tells_append(
    a: Seq<(RelView, Effect)>,
    b: Seq<(RelView, Effect)>,
    m: Content,
    dst: Content,
)
    requires
        tells(a, m, dst),
        tells(b, m, dst),
        forall|i: int, j: int|
            0 <= i < a.len() && 0 <= j < b.len() ==> lex_lt(
                (#[trigger] a[i]).1.key(),
                (#[trigger] b[j]).1.key(),
            ) && about(a[i]) != about(b[j]),
    ensures
        tells(a + b, m, dst),
{
    reveal(tells);
    let all = a + b;
    let n = a.len() as int;
    assert(forall|i: int| 0 <= i < n ==> #[trigger] all[i] == a[i]);
    assert(forall|i: int| n <= i < all.len() ==> #[trigger] all[i] == b[i - n]);
    assert forall|i: int, j: int| 0 <= i < j < all.len() implies lex_lt(
        (#[trigger] all[i]).1.key(),
        (#[trigger] all[j]).1.key(),
    ) && about(all[i]) != about(all[j]) by {
        if j < n {
            assert(lex_lt(a[i].1.key(), a[j].1.key()));
        } else if i >= n {
            assert(lex_lt(b[i - n].1.key(), b[j - n].1.key()));
        } else {
            assert(lex_lt(a[i].1.key(), b[j - n].1.key()));
        }
    }
}

/// Every decided row is of a relation that the scan takes in, and under a key of that relation.
pub open spec fn of_relations(rows: Seq<(RelView, Effect)>, rels: Seq<RelView>) -> bool {
    forall|i: int|
        0 <= i < rows.len() ==> rels.contains((#[trigger] rows[i]).0) && takes(
            rows[i].0,
            rows[i].1.key(),
        )
}

proof fn lemma_scan_relation_tells(rel: RelView, m: Content, top: Content, dst: Content)
    requires
        m.dom().finite(),
        regular(m.dom()),
        rel.id < u64::MAX,
    ensures
        tells(scan_relation(rel, m, top, dst, None).rows, m, dst),
        of_relations(scan_relation(rel, m, top, dst, None).rows, seq![rel]),
        scan_relation(rel, m, top, dst, None).failure is None ==> forall|k: Seq<u8>|
            m.contains_key(k) && #[trigger] takes(rel, k) ==> validity_of(k) is Some && told(
                scan_relation(rel, m, top, dst, None).rows,
                identity_of(k),
            ),
{
    let t = scan_relation(rel, m, top, dst, None);
    let lower = relation_lower(rel);
    let upper = relation_upper(rel);
    if rel.is_index || !rel.stackable {
        reveal(tells);
    } else {
        let part = between(m, lower, Some(upper));
        let rows = ascending(part);
        lemma_between_finite(m, lower, Some(upper));
        lemma_ascending(part);
        lemma_relation_streams(rel, m);
        lemma_scan_rows_tells(rel, rows, m, dst);
        assert forall|i: int| 0 <= i < t.rows.len() implies seq![rel].contains(
            (#[trigger] t.rows[i]).0,
        ) && takes(t.rows[i].0, t.rows[i].1.key()) by {
            assert(comes(rows, t.rows[i].1.key()));
            let r = choose|r: int| 0 <= r < rows.len() && (#[trigger] rows[r]).0 == t.rows[i].1.key();
            assert(part.contains_key(rows[r].0));
            assert(seq![rel][0] == rel);
        }
        if t.failure is None {
            lemma_scan_rows_complete(rel, rows, m, dst);
            assert forall|k: Seq<u8>| m.contains_key(k) && #[trigger] takes(rel, k) implies validity_of(
                k,
            ) is Some && told(t.rows, identity_of(k)) by {
                assert(part.contains_key(k));
                let r = choose|r: int| 0 <= r < rows.len() && (#[trigger] rows[r]).0 == k;
                assert(validity_of(rows[r].0) is Some);
            }
        }
    }
}

/// A key of one relation sorts before a key of a later one, and neither is a version of the
/// other's identity.
pub proof fn lemma_relations_disjoint(a: RelView, x: Seq<u8>, b: RelView, y: Seq<u8>)
    requires
        a.id < b.id,
        b.id < u64::MAX,
        takes(a, x),
        takes(b, y),
        validity_of(x) is Some,
        validity_of(y) is Some,
    ensures
        lex_lt(x, y),
        identity_of(x) != identity_of(y),
        !lex_lt(y, relation_upper(a)),
        lex_lt(x, relation_lower(b)),
{
    lemma_relations_apart(a, b);
    lemma_not_lt(y, relation_lower(b));
    lemma_lt_le(x, relation_upper(a), relation_lower(b));
    lemma_lt_le(x, relation_lower(b), y);
    if lex_lt(y, relation_upper(a)) {
        lemma_lt_le(y, relation_upper(a), relation_lower(b));
    }
    if identity_of(x) == identity_of(y) {
        lemma_key_is_version(x);
        lemma_key_is_version(y);
        assert(x.take(8) =~= identity_of(x).take(8));
        assert(y.take(8) =~= identity_of(y).take(8));
        lemma_relation_keys(a, x);
        lemma_relation_keys(a, y);
    }
}

/// A scan of a regular view decides each identity that it takes in, once, by what the view makes
/// of it, in key order.
pub proof fn lemma_scan_all_tells(rels: Seq<RelView>, m: Content, top: Content, dst: Content)
    requires
        m.dom().finite(),
        regular(m.dom()),
        rels_by_id(rels),
    ensures
        tells(scan_all(rels, m, top, dst, None).rows, m, dst),
        of_relations(scan_all(rels, m, top, dst, None).rows, rels),
        scan_all(rels, m, top, dst, None).failure is None ==> forall|k: Seq<u8>|
            m.contains_key(k) && #[trigger] taken(rels, k) ==> validity_of(k) is Some && told(
                scan_all(rels, m, top, dst, None).rows,
                identity_of(k),
            ),
    decreases rels.len(),
{
    let t = scan_all(rels, m, top, dst, None);
    if rels.len() == 0 {
        reveal(tells);
    } else {
        let rel = rels[0];
        let rest = rels.drop_first();
        let here = scan_relation(rel, m, top, dst, None);
        let later = scan_all(rest, m, top, dst, None);
        lemma_rels_rest(rels);
        lemma_scan_relation_tells(rel, m, top, dst);
        lemma_scan_all_tells(rest, m, top, dst);
        assert(rels.contains(rel));
        assert forall|i: int| 0 <= i < here.rows.len() implies rels.contains(
            (#[trigger] here.rows[i]).0,
        ) && here.rows[i].0 == rel && takes(rel, here.rows[i].1.key()) && validity_of(
            here.rows[i].1.key(),
        ) is Some by {
            assert(seq![rel].contains(here.rows[i].0));
            lemma_tells_row(here.rows, m, dst, i);
        }
        if here.failure is None {
            assert forall|j: int| 0 <= j < later.rows.len() implies rels.contains(
                (#[trigger] later.rows[j]).0,
            ) && rel.id < later.rows[j].0.id < u64::MAX && takes(
                later.rows[j].0,
                later.rows[j].1.key(),
            ) && validity_of(later.rows[j].1.key()) is Some by {
                assert(rest.contains(later.rows[j].0));
                let r = choose|r: int| 0 <= r < rest.len() && rest[r] == later.rows[j].0;
                assert(rest[r] == rels[r + 1]);
                lemma_tells_row(later.rows, m, dst, j);
            }
            assert forall|i: int, j: int|
                0 <= i < here.rows.len() && 0 <= j < later.rows.len() implies lex_lt(
                (#[trigger] here.rows[i]).1.key(),
                (#[trigger] later.rows[j]).1.key(),
            ) && about(here.rows[i]) != about(later.rows[j]) by {
                lemma_relations_disjoint(
                    rel,
                    here.rows[i].1.key(),
                    later.rows[j].0,
                    later.rows[j].1.key(),
                );
            }
            lemma_tells_append(here.rows, later.rows, m, dst);
            assert forall|i: int| 0 <= i < t.rows.len() implies rels.contains(
                (#[trigger] t.rows[i]).0,
            ) && takes(t.rows[i].0, t.rows[i].1.key()) by {
                if i < here.rows.len() {
                    assert(t.rows[i] == here.rows[i]);
                } else {
                    assert(t.rows[i] == later.rows[i - here.rows.len()]);
                }
            }
            if later.failure is None {
                assert forall|k: Seq<u8>| m.contains_key(k) && #[trigger] taken(rels, k) implies validity_of(
                    k,
                ) is Some && told(t.rows, identity_of(k)) by {
                    let r = choose|r: int| 0 <= r < rels.len() && takes(#[trigger] rels[r], k);
                    if r == 0 {
                        assert(takes(rel, k));
                        let i = choose|i: int|
                            0 <= i < here.rows.len() && about(#[trigger] here.rows[i])
                                == identity_of(k);
                        assert(t.rows[i] == here.rows[i]);
                    } else {
                        assert(takes(rest[r - 1], k));
                        assert(taken(rest, k));
                        let i = choose|i: int|
                            0 <= i < later.rows.len() && about(#[trigger] later.rows[i])
                                == identity_of(k);
                        assert(t.rows[i + here.rows.len()] == later.rows[i]);
                    }
                }
            }
        }
    }
}

/// A scan that resumes after a key below all its relations is a scan from the start.
pub proof fn lemma_resume_below(
    rels: Seq<RelView>,
    m: Content,
    top: Content,
    dst: Content,
    after: Seq<u8>,
)
    requires
        rels_by_id(rels),
        forall|j: int| 0 <= j < rels.len() ==> lex_lt(after, relation_lower(#[trigger] rels[j])),
    ensures
        scan_all(rels, m, top, dst, Some(after)) == scan_all(rels, m, top, dst, None),
    decreases rels.len(),
{
    if rels.len() > 0 {
        let rel = rels[0];
        let rest = rels.drop_first();
        lemma_rels_rest(rels);
        assert forall|j: int| 0 <= j < rest.len() implies lex_lt(
            after,
            relation_lower(#[trigger] rest[j]),
        ) by {
            assert(rest[j] == rels[j + 1]);
        }
        lemma_resume_below(rest, m, top, dst, after);
        lemma_relation_range(rel);
        lemma_lt_transitive(after, relation_lower(rel), relation_upper(rel));
        lemma_lt_asymmetric(after, relation_lower(rel));
        assert(scan_start(rel, Some(after)) == scan_start(rel, None));
    }
}

/// A scan of one relation that resumes after one of its rows decides the rows after that one.
proof fn lemma_scan_relation_resume(rel: RelView, m: Content, top: Content, dst: Content, i: int)
    requires
        m.dom().finite(),
        regular(m.dom()),
        rel.id < u64::MAX,
        0 <= i < scan_relation(rel, m, top, dst, None).rows.len(),
    ensures
        scan_relation(
            rel,
            m,
            top,
            dst,
            Some(scan_relation(rel, m, top, dst, None).rows[i].1.key()),
        ) == (Trace {
            rows: scan_relation(rel, m, top, dst, None).rows.skip(i + 1),
            failure: scan_relation(rel, m, top, dst, None).failure,
        }),
{
    let t = scan_relation(rel, m, top, dst, None);
    let a = t.rows[i].1.key();
    let lower = relation_lower(rel);
    let upper = relation_upper(rel);
    let rows = ascending(between(m, lower, Some(upper)));
    lemma_relation_streams(rel, m);
    lemma_scan_relation_tells(rel, m, top, dst);
    lemma_tells_row(t.rows, m, dst, i);
    assert(seq![rel].contains(t.rows[i].0));
    assert(takes(rel, a));
    lemma_be_word(rel.id as nat);
    lemma_not_lt(a, lower);
    assert(lex_lt(lower, a));
    let from = versions_upper(a);
    lemma_versions_upper(a);
    lemma_lt_transitive(lower, a, from);
    let p = lemma_scan_rows_resume(rel, rows, m, dst, i);
    lemma_ascending_skip(m, lower, Some(upper), from, p);
}

/// A scan of a regular view that resumes after one of its rows decides the rows after that one.
pub proof fn lemma_scan_all_resume(
    rels: Seq<RelView>,
    m: Content,
    top: Content,
    dst: Content,
    i: int,
)
    requires
        m.dom().finite(),
        regular(m.dom()),
        rels_by_id(rels),
        0 <= i < scan_all(rels, m, top, dst, None).rows.len(),
    ensures
        scan_all(
            rels,
            m,
            top,
            dst,
            Some(scan_all(rels, m, top, dst, None).rows[i].1.key()),
        ) == (Trace {
            rows: scan_all(rels, m, top, dst, None).rows.skip(i + 1),
            failure: scan_all(rels, m, top, dst, None).failure,
        }),
    decreases rels.len(),
{
    let t = scan_all(rels, m, top, dst, None);
    let rel = rels[0];
    let rest = rels.drop_first();
    let here = scan_relation(rel, m, top, dst, None);
    let later = scan_all(rest, m, top, dst, None);
    let a = t.rows[i].1.key();
    let n = here.rows.len() as int;
    lemma_rels_rest(rels);
    lemma_scan_relation_tells(rel, m, top, dst);
    lemma_scan_all_tells(rest, m, top, dst);
    if i < n {
        assert(t.rows[i] == here.rows[i]);
        lemma_scan_relation_resume(rel, m, top, dst, i);
        assert(seq![rel].contains(here.rows[i].0));
        assert(takes(rel, a));
        assert forall|j: int| 0 <= j < rest.len() implies lex_lt(
            a,
            relation_lower(#[trigger] rest[j]),
        ) by {
            lemma_relations_apart(rel, rest[j]);
            lemma_lt_le(a, relation_upper(rel), relation_lower(rest[j]));
        }
        lemma_resume_below(rest, m, top, dst, a);
        if here.failure is None {
            assert(here.rows.skip(i + 1) + later.rows =~= t.rows.skip(i + 1));
        }
    } else {
        assert(here.failure is None);
        assert(t.rows[i] == later.rows[i - n]);
        lemma_scan_all_resume(rest, m, top, dst, i - n);
        let owner = later.rows[i - n].0;
        assert(rest.contains(owner));
        let r = choose|r: int| 0 <= r < rest.len() && rest[r] == owner;
        assert(takes(owner, a));
        lemma_relations_apart(rel, rest[r]);
        lemma_not_lt(a, relation_lower(owner));
        if lex_lt(a, relation_upper(rel)) {
            lemma_lt_le(a, relation_upper(rel), relation_lower(owner));
        }
        let nothing = Trace { rows: Seq::<(RelView, Effect)>::empty(), failure: None };
        assert(scan_relation(rel, m, top, dst, Some(a)) == nothing);
        assert(nothing.rows + later.rows.skip(i - n + 1) =~= t.rows.skip(i + 1));
    }
}

} // verus!
