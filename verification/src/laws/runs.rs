//! What a scan makes of any view, regular or not: it takes the versions of one identity that come one
//! after another for one record.

use vstd::prelude::*;

use crate::catalog::{lemma_id_listed, rel_views, relation_under, RelView};
use crate::codec::{
    identity_of, lemma_key_is_version, lemma_version_key, validity_of, version_key, Validity,
};
use crate::content::{ascending, between, lemma_ascending, lemma_between_finite};
use crate::laws::{law_a_relation_is_a_range_of_keys, lemma_rel_views_by_id};
use crate::laws::deciding::law_what_a_resolved_identity_means;
use crate::layer::Content;
use crate::net::{lemma_resolution_is_net, net, rels_by_id, takes};
use crate::order::{
    lemma_lt_asymmetric, lemma_lt_irreflexive, lemma_lt_le, lemma_lt_transitive, lemma_not_lt,
    lex_lt,
};
use crate::scan::{
    decided, has_version, lemma_run_len, relation_lower, relation_upper, resolution, run_len,
    scan_all, scan_relation, scan_rows, Effect, Kv,
};
use crate::stack::{Db, LayerRef};

verus! {

/// The rows from `s` on, `n` of them, are versions of one identity, and neither the row before them
/// nor the one after them is one.
spec fn is_run(rows: Seq<Kv>, s: int, n: int) -> bool {
    &&& 0 <= s
    &&& n > 0
    &&& s + n <= rows.len()
    &&& forall|p: int| s <= p < s + n ==> version_of((#[trigger] rows[p]).0, identity_of(rows[s].0))
    &&& s + n < rows.len() ==> !version_of(rows[s + n].0, identity_of(rows[s].0))
    &&& s > 0 ==> !version_of(rows[s - 1].0, identity_of(rows[s].0))
}

/// The key is that of a version of the identity.
pub open spec fn version_of(key: Seq<u8>, identity: Seq<u8>) -> bool {
    validity_of(key) is Some && identity_of(key) == identity
}

/// The decided row is what a run comes to.
spec fn of_run(rel: RelView, rows: Seq<Kv>, dst: Content, row: (RelView, Effect), s: int, n: int) -> bool {
    &&& is_run(rows, s, n)
    &&& row == (rel, decided(resolution(rows.subrange(s, s + n)), dst))
}

proof fn lemma_rows_by_run(rel: RelView, rows: Seq<Kv>, dst: Content, x: int) -> (r: (int, int))
    requires
        0 <= x < scan_rows(rel, rows, dst).rows.len(),
    ensures
        of_run(rel, rows, dst, scan_rows(rel, rows, dst).rows[x], r.0, r.1),
    decreases rows.len(),
{
    let t = scan_rows(rel, rows, dst);
    let id = identity_of(rows[0].0);
    let n = run_len(rows, id) as int;
    let rest = rows.skip(n);
    lemma_run_len(rows, id);
    if x == 0 {
        assert(rows.subrange(0, n) =~= rows.take(n));
        assert(is_run(rows, 0, n));
        (0, n)
    } else {
        let u = scan_rows(rel, rest, dst);
        assert(t.rows[x] == u.rows[x - 1]);
        let (s, c) = lemma_rows_by_run(rel, rest, dst, x - 1);
        lemma_run_later(rows, n, s, c);
        assert(rest.subrange(s, s + c) =~= rows.subrange(s + n, s + n + c));
        (s + n, c)
    }
}

/// A run of what follows the first run is a run.
proof fn lemma_run_later(rows: Seq<Kv>, n: int, s: int, c: int)
    requires
        0 < n <= rows.len(),
        is_run(rows, 0, n),
        is_run(rows.skip(n), s, c),
    ensures
        is_run(rows, s + n, c),
{
    let rest = rows.skip(n);
    assert(rest[s] == rows[s + n]);
    assert forall|p: int| s + n <= p < s + n + c implies version_of(
        (#[trigger] rows[p]).0,
        identity_of(rows[s + n].0),
    ) by {
        assert(rest[p - n] == rows[p]);
    }
    if s + c < rest.len() {
        assert(rest[s + c] == rows[s + n + c]);
    }
    if s > 0 {
        assert(rest[s - 1] == rows[s + n - 1]);
    } else {
        assert(version_of(rows[n - 1].0, identity_of(rows[0].0)));
        assert(version_of(rest[0].0, identity_of(rest[0].0)));
        assert(rest[0] == rows[n]);
    }
}

proof fn lemma_every_row_is_in_a_run(rel: RelView, rows: Seq<Kv>, dst: Content, p: int) -> (r: (
    int,
    int,
    int,
))
    requires
        0 <= p < rows.len(),
        scan_rows(rel, rows, dst).failure is None,
    ensures
        0 <= r.0 < scan_rows(rel, rows, dst).rows.len(),
        of_run(rel, rows, dst, scan_rows(rel, rows, dst).rows[r.0], r.1, r.2),
        r.1 <= p < r.1 + r.2,
    decreases rows.len(),
{
    let t = scan_rows(rel, rows, dst);
    let id = identity_of(rows[0].0);
    let n = run_len(rows, id) as int;
    let rest = rows.skip(n);
    lemma_run_len(rows, id);
    assert(is_run(rows, 0, n));
    if p < n {
        assert(rows.subrange(0, n) =~= rows.take(n));
        (0, 0, n)
    } else {
        let (x, s, c) = lemma_every_row_is_in_a_run(rel, rest, dst, p - n);
        assert(t.rows[x + 1] == scan_rows(rel, rest, dst).rows[x]);
        lemma_run_later(rows, n, s, c);
        assert(rest.subrange(s, s + c) =~= rows.subrange(s + n, s + n + c));
        (x + 1, s + n, c)
    }
}

/// `run` is what the view holds from `k` on as long as nothing comes that is not a version of the
/// identity of `k`.
pub open spec fn is_run_from(m: Content, k: Seq<u8>, run: Content) -> bool {
    &&& forall|j: Seq<u8>| #[trigger]
        run.contains_key(j) <==> m.contains_key(j) && !lex_lt(j, k) && forall|h: Seq<u8>| #[trigger]
            m.contains_key(h) && !lex_lt(h, k) && !lex_lt(j, h) ==> version_of(h, identity_of(k))
    &&& forall|j: Seq<u8>| #[trigger] run.contains_key(j) ==> run[j] == m[j]
}

/// The run in the list of a relation's rows holds what the run of the view holds.
proof fn lemma_run_of_view(
    rel: RelView,
    m: Content,
    held: Content,
    run: Content,
    s: int,
    n: int,
)
    requires
        rel.id < u64::MAX,
        m.dom().finite(),
        is_run(
            ascending(between(m, relation_lower(rel), Some(relation_upper(rel)))),
            s,
            n,
        ),
        is_run_from(
            m,
            ascending(between(m, relation_lower(rel), Some(relation_upper(rel))))[s].0,
            run,
        ),
    ensures
        ({
            let rows = ascending(between(m, relation_lower(rel), Some(relation_upper(rel))));
            decided(resolution(rows.subrange(s, s + n)), held) == decided(
                net(run, identity_of(rows[s].0)),
                held,
            )
        }),
{
    let lower = relation_lower(rel);
    let upper = Some(relation_upper(rel));
    let part = between(m, lower, upper);
    let rows = ascending(part);
    let k = rows[s].0;
    let id = identity_of(k);
    let list = rows.subrange(s, s + n);
    lemma_between_finite(m, lower, upper);
    lemma_ascending(part);
    assert(version_of(rows[s].0, id));
    lemma_key_is_version(k);
    assert(part.contains_key(k));
    assert forall|i: int| 0 <= i < list.len() implies validity_of((#[trigger] list[i]).0) is Some
        && identity_of(list[i].0) == id && run.contains_key(list[i].0) && run[list[i].0]
        == list[i].1 by {
        let j = list[i].0;
        assert(list[i] == rows[s + i]);
        assert(version_of(rows[s + i].0, id));
        assert(part.contains_key(j));
        if i > 0 {
            lemma_lt_asymmetric(k, j);
        } else {
            lemma_lt_irreflexive(k);
        }
        assert forall|h: Seq<u8>| #[trigger]
            m.contains_key(h) && !lex_lt(h, k) && !lex_lt(j, h) implies version_of(h, id) by {
            lemma_in_range(lower, relation_upper(rel), k, j, h);
            assert(part.contains_key(h));
            let p = choose|p: int| 0 <= p < rows.len() && (#[trigger] rows[p]).0 == h;
            if p < s {
                assert(lex_lt(rows[p].0, rows[s].0));
            } else if p > s + i {
                assert(lex_lt(rows[s + i].0, rows[p].0));
            }
            assert(version_of(rows[p].0, id));
        }
    }
    assert forall|i: int, j: int| 0 <= i < j < list.len() implies lex_lt(
        (#[trigger] list[i]).0,
        (#[trigger] list[j]).0,
    ) by {
        assert(list[i] == rows[s + i] && list[j] == rows[s + j]);
    }
    assert forall|w: Validity| #[trigger] has_version(run, id, w) implies exists|i: int|
        0 <= i < list.len() && (#[trigger] list[i]).0 == version_key(id, w) by {
        let j = version_key(id, w);
        lemma_version_key(id, w);
        assert(run.contains_key(j));
        lemma_same_relation(rel, k, j);
        assert(part.contains_key(j));
        let p = choose|p: int| 0 <= p < rows.len() && (#[trigger] rows[p]).0 == j;
        if p < s {
            assert(lex_lt(rows[p].0, rows[s].0));
        } else if p >= s + n {
            let g = rows[s + n].0;
            assert(part.contains_key(g));
            assert(lex_lt(rows[s].0, rows[s + n].0));
            lemma_lt_asymmetric(k, g);
            if p > s + n {
                assert(lex_lt(rows[s + n].0, rows[p].0));
                lemma_lt_asymmetric(g, j);
            } else {
                lemma_lt_irreflexive(j);
            }
            assert(m.contains_key(g) && !lex_lt(g, k) && !lex_lt(j, g));
            assert(version_of(g, id));
        }
        assert(list[p - s] == rows[p]);
    }
    lemma_resolution_is_net(run, id, list);
}

/// What lies between two keys of a range lies in it.
proof fn lemma_in_range(lower: Seq<u8>, upper: Seq<u8>, k: Seq<u8>, j: Seq<u8>, h: Seq<u8>)
    requires
        !lex_lt(k, lower),
        lex_lt(j, upper),
        !lex_lt(h, k),
        !lex_lt(j, h),
    ensures
        !lex_lt(h, lower),
        lex_lt(h, upper),
{
    lemma_not_lt(h, k);
    lemma_not_lt(j, h);
    lemma_not_lt(k, lower);
    if lex_lt(h, lower) {
        lemma_lt_le(h, lower, k);
        lemma_lt_asymmetric(h, k);
        lemma_lt_irreflexive(h);
    }
    if h != j {
        lemma_lt_transitive(h, j, upper);
    }
}

/// Two versions of one identity belong to one relation.
proof fn lemma_same_relation(rel: RelView, k: Seq<u8>, j: Seq<u8>)
    requires
        rel.id < u64::MAX,
        validity_of(k) is Some,
        validity_of(j) is Some,
        identity_of(j) == identity_of(k),
        !lex_lt(k, relation_lower(rel)),
        lex_lt(k, relation_upper(rel)),
    ensures
        !lex_lt(j, relation_lower(rel)),
        lex_lt(j, relation_upper(rel)),
{
    lemma_key_is_version(k);
    lemma_key_is_version(j);
    assert(k.take(8) =~= identity_of(k).take(8));
    assert(j.take(8) =~= identity_of(j).take(8));
    law_a_relation_is_a_range_of_keys(rel, k);
    law_a_relation_is_a_range_of_keys(rel, j);
}

/// A scan decides each row that it shows by the run of versions that begins with it: by what these
/// come to against the destination.
pub proof fn law_a_scan_decides_run_by_run(
    db: Db,
    src: Seq<LayerRef>,
    dst: Seq<LayerRef>,
    i: int,
    run: Content,
)
    requires
        db.wf(),
        0 <= i < db.trace(src, dst, None).rows.len(),
        is_run_from(db.view_of(src), db.trace(src, dst, None).rows[i].1.key(), run),
    ensures
        ({
            let e = db.trace(src, dst, None).rows[i].1;
            e == decided(net(run, identity_of(e.key())), db.view_of(dst))
        }),
{
    db.lemma_view_finite(src);
    lemma_rel_views_by_id(db);
    law_a_scan_of_a_view_decides_run_by_run(
        rel_views(db.relations@),
        db.view_of(src),
        db.layer_view(src, 0),
        db.view_of(dst),
        i,
        run,
    );
}

/// A scan of any view decides each row that it shows by the run of versions that begins with it. A scan
/// that resumes after a key is such a scan, of what lies past the key.
pub proof fn law_a_scan_of_a_view_decides_run_by_run(
    rels: Seq<RelView>,
    m: Content,
    top: Content,
    held: Content,
    i: int,
    run: Content,
)
    requires
        rels_by_id(rels),
        m.dom().finite(),
        0 <= i < scan_all(rels, m, top, held, None).rows.len(),
        is_run_from(m, scan_all(rels, m, top, held, None).rows[i].1.key(), run),
    ensures
        ({
            let e = scan_all(rels, m, top, held, None).rows[i].1;
            e == decided(net(run, identity_of(e.key())), held)
        }),
    decreases rels.len(),
{
    let rel = rels[0];
    let rest = rels.drop_first();
    let here = scan_relation(rel, m, top, held, None);
    let n = here.rows.len() as int;
    let t = scan_all(rels, m, top, held, None);
    if i < n {
        assert(t.rows[i] == here.rows[i]);
        let rows = ascending(between(m, relation_lower(rel), Some(relation_upper(rel))));
        let (s, c) = lemma_rows_by_run(rel, rows, held, i);
        let list = rows.subrange(s, s + c);
        assert(list[0] == rows[s]);
        assert(resolution(list).key == rows[s].0);
        law_what_a_resolved_identity_means(resolution(list), held);
        lemma_run_of_view(rel, m, held, run, s, c);
    } else {
        assert(rels_by_id(rest)) by {
            assert(forall|r: int| 0 <= r < rest.len() ==> #[trigger] rest[r] == rels[r + 1]);
        }
        assert(t.rows[i] == scan_all(rest, m, top, held, None).rows[i - n]);
        law_a_scan_of_a_view_decides_run_by_run(rest, m, top, held, i - n, run);
    }
}

/// A scan that does not fail shows a row for every run: each version that the source view holds in a
/// relation that carries a validity and is no index follows a row that is shown, or is it, with
/// nothing but versions of its identity between them.
pub proof fn law_a_scan_leaves_no_run_out(
    db: Db,
    src: Seq<LayerRef>,
    dst: Seq<LayerRef>,
    key: Seq<u8>,
    id: u64,
)
    requires
        db.wf(),
        db.trace(src, dst, None).failure is None,
        db.view_of(src).contains_key(key),
        relation_under(key) == Some(id),
        db.relations@.contains_key(id),
        !db.relations@[id].is_index,
        db.relations@[id].stackable,
    ensures
        exists|i: int|
            {
                let k = (#[trigger] db.trace(src, dst, None).rows[i]).1.key();
                &&& 0 <= i < db.trace(src, dst, None).rows.len()
                &&& !lex_lt(key, k)
                &&& identity_of(k) == identity_of(key)
                &&& forall|h: Seq<u8>| #[trigger]
                    db.view_of(src).contains_key(h) && !lex_lt(h, k) && !lex_lt(key, h)
                        ==> version_of(h, identity_of(key))
            },
{
    let rels = rel_views(db.relations@);
    let r = lemma_id_listed(db.relations@, id);
    db.lemma_view_finite(src);
    lemma_rel_views_by_id(db);
    law_a_relation_is_a_range_of_keys(rels[r], key);
    let i = lemma_no_run_left_out(
        rels,
        db.view_of(src),
        db.layer_view(src, 0),
        db.view_of(dst),
        key,
        r,
    );
    let shown = db.trace(src, dst, None).rows[i];
}

proof fn lemma_no_run_left_out(
    rels: Seq<RelView>,
    m: Content,
    top: Content,
    held: Content,
    key: Seq<u8>,
    r: int,
) -> (i: int)
    requires
        rels_by_id(rels),
        m.dom().finite(),
        scan_all(rels, m, top, held, None).failure is None,
        m.contains_key(key),
        0 <= r < rels.len(),
        takes(rels[r], key),
    ensures
        0 <= i < scan_all(rels, m, top, held, None).rows.len(),
        ({
            let k = scan_all(rels, m, top, held, None).rows[i].1.key();
            &&& !lex_lt(key, k)
            &&& identity_of(k) == identity_of(key)
            &&& forall|h: Seq<u8>| #[trigger]
                m.contains_key(h) && !lex_lt(h, k) && !lex_lt(key, h) ==> version_of(
                    h,
                    identity_of(key),
                )
        }),
    decreases rels.len(),
{
    let rel = rels[0];
    let rest = rels.drop_first();
    let here = scan_relation(rel, m, top, held, None);
    let n = here.rows.len() as int;
    let t = scan_all(rels, m, top, held, None);
    if r > 0 {
        assert(rels_by_id(rest)) by {
            assert(forall|q: int| 0 <= q < rest.len() ==> #[trigger] rest[q] == rels[q + 1]);
        }
        assert(rest[r - 1] == rels[r]);
        let i = lemma_no_run_left_out(rest, m, top, held, key, r - 1);
        assert(t.rows[i + n] == scan_all(rest, m, top, held, None).rows[i]);
        i + n
    } else {
        let lower = relation_lower(rel);
        let upper = Some(relation_upper(rel));
        let part = between(m, lower, upper);
        let rows = ascending(part);
        lemma_between_finite(m, lower, upper);
        lemma_ascending(part);
        assert(part.contains_key(key));
        let p = choose|p: int| 0 <= p < rows.len() && (#[trigger] rows[p]).0 == key;
        let (x, s, c) = lemma_every_row_is_in_a_run(rel, rows, held, p);
        let list = rows.subrange(s, s + c);
        let k = rows[s].0;
        assert(list[0] == rows[s]);
        law_what_a_resolved_identity_means(resolution(list), held);
        assert(t.rows[x] == here.rows[x]);
        assert(version_of(rows[p].0, identity_of(k)));
        assert(part.contains_key(k));
        if s < p {
            assert(lex_lt(rows[s].0, rows[p].0));
            lemma_lt_asymmetric(k, key);
        } else {
            lemma_lt_irreflexive(key);
        }
        assert forall|h: Seq<u8>| #[trigger]
            m.contains_key(h) && !lex_lt(h, k) && !lex_lt(key, h) implies version_of(
            h,
            identity_of(key),
        ) by {
            lemma_in_range(lower, relation_upper(rel), k, key, h);
            assert(part.contains_key(h));
            let q = choose|q: int| 0 <= q < rows.len() && (#[trigger] rows[q]).0 == h;
            if q < s {
                assert(lex_lt(rows[q].0, rows[s].0));
            } else if q > p {
                assert(lex_lt(rows[p].0, rows[q].0));
            }
            assert(version_of(rows[q].0, identity_of(k)));
        }
        x
    }
}

} // verus!
