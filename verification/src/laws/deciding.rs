//! What a scan decides: when it fails, which rows it shows, and what each of them means against the
//! destination.

use vstd::prelude::*;

use crate::catalog::{ids_of, lemma_id_listed, lemma_ids, rel_views, relation_under, RelView};
use crate::codec::{
    be_value, identity_of, lemma_be_order, lemma_be_value_word, lemma_be_word,
    lemma_key_is_version, lemma_version_key, lemma_versions_upper, newer, validity_of,
    version_key, versions_upper, Validity,
};
use crate::content::{
    ascending, between, lemma_ascending, lemma_ascending_empty, lemma_between_finite,
};
use crate::laws::{
    law_a_relation_is_a_range_of_keys, law_a_source_conflict_is_two_values,
    law_each_identity_is_decided_once, lemma_be_bytes_unique, lemma_rel_views_by_id,
};
use crate::layer::Content;
use crate::net::{
    about, is_newest_dissent, lemma_lt_word, lemma_relations_disjoint, lemma_scan_all_tells,
    lemma_tells_row, net, newest, regular, rels_by_id, taken, takes,
};
use crate::order::{
    lemma_lt_asymmetric, lemma_lt_irreflexive, lemma_lt_le, lemma_lt_total, lemma_lt_transitive,
    lemma_not_lt, lex_lt,
};
use crate::scan::{
    asserted_value, asserts, decided, has_version, is_newest, is_newest_assertion,
    lemma_newest_unique, lemma_relation_range, lemma_run_len, live, relation_lower,
    relation_upper, resolution, run_len, scan_all, scan_relation, scan_rows, scan_start,
    ConflictKind, Effect, Failure, Kv, Resolution,
};
use crate::stack::{Db, LayerRef};

verus! {

/// The key stands in the way of a flatten, as one of the relation filed under `id`: the relation is
/// no index, and either it carries a validity and the source view shows the key, which has none, or
/// it carries none and the top of the source shows the key.
pub open spec fn obstructs(db: Db, src: Seq<LayerRef>, id: u64, key: Seq<u8>) -> bool {
    &&& db.relations@.contains_key(id)
    &&& !db.relations@[id].is_index
    &&& !lex_lt(key, relation_lower(db.relations@[id]@))
    &&& lex_lt(key, relation_upper(db.relations@[id]@))
    &&& if db.relations@[id].stackable {
        db.view_of(src).contains_key(key) && validity_of(key) is None
    } else {
        db.layer_view(src, 0).contains_key(key)
    }
}

/// A scan of the source view fails exactly if some row stands in its way, and then it names the
/// first relation, by id, that has such a row: one whose rows would be left behind, or one with a
/// row that has no validity. A row that stands in the way belongs to that very relation.
pub proof fn law_a_scan_fails_only_for_cause(db: Db, src: Seq<LayerRef>, dst: Seq<LayerRef>)
    requires
        db.wf(),
    ensures
        db.trace(src, dst, None).failure is None <==> forall|id: u64, key: Seq<u8>|
            !obstructs(db, src, id, key),
        db.trace(src, dst, None).failure matches Some(f) ==> exists|id: u64, key: Seq<u8>|
            {
                &&& #[trigger] obstructs(db, src, id, key)
                &&& forall|other: u64, k: Seq<u8>| #[trigger]
                    obstructs(db, src, other, k) ==> id <= other
                &&& f == if db.relations@[id].stackable {
                    Failure::Unversioned { relation: db.relations@[id].name@ }
                } else {
                    Failure::Plain { relation: db.relations@[id].name@ }
                }
            },
        forall|id: u64, key: Seq<u8>| #[trigger]
            obstructs(db, src, id, key) && key.len() >= 8 ==> relation_under(key) == Some(id),
{
    let rels = rel_views(db.relations@);
    let m = db.view_of(src);
    let top = db.layer_view(src, 0);
    let held = db.view_of(dst);
    let t = db.trace(src, dst, None);
    db.lemma_view_finite(src);
    lemma_rel_views_by_id(db);
    lemma_ids(db.relations@);
    let ids = ids_of(db.relations@);
    assert forall|r: int| 0 <= r < rels.len() implies db.relations@.contains_key(#[trigger] ids[r])
        && rels[r].id == ids[r] by {
        assert(ids.to_set().contains(ids[r]));
    }
    assert forall|id: u64, key: Seq<u8>| #[trigger]
        obstructs(db, src, id, key) && key.len() >= 8 implies relation_under(key) == Some(id) by {
        law_a_relation_is_a_range_of_keys(db.relations@[id]@, key);
    }
    assert forall|id: u64, key: Seq<u8>| #[trigger] obstructs(db, src, id, key) implies exists|
        r: int,
    |
        0 <= r < rels.len() && #[trigger] rels[r] == db.relations@[id]@ && blocked(
            rels[r],
            m,
            top,
        ) by {
        let r = lemma_id_listed(db.relations@, id);
        assert(blocks(rels[r], m, top, key));
    }
    lemma_scan_all_failure(rels, m, top, held);
    if t.failure is Some {
        let r = choose|r: int|
            {
                &&& 0 <= r < rels.len()
                &&& blocked(#[trigger] rels[r], m, top)
                &&& forall|q: int| 0 <= q < r ==> !blocked(#[trigger] rels[q], m, top)
                &&& t.failure == Some(failure_of(rels[r]))
            };
        let id = ids[r];
        let key = choose|key: Seq<u8>| blocks(rels[r], m, top, key);
        assert(db.relations@.contains_key(id));
        assert(obstructs(db, src, id, key));
        assert forall|other: u64, k: Seq<u8>| #[trigger]
            obstructs(db, src, other, k) implies id <= other by {
            let q = choose|q: int|
                0 <= q < rels.len() && #[trigger] rels[q] == db.relations@[other]@ && blocked(
                    rels[q],
                    m,
                    top,
                );
            if q < r {
                assert(!blocked(rels[q], m, top));
            } else if r < q {
                assert(rels[r].id < rels[q].id);
            }
        }
    }
}

/// The key stands in the way of scanning the relation.
spec fn blocks(rel: RelView, m: Content, top: Content, key: Seq<u8>) -> bool {
    &&& !rel.is_index
    &&& !lex_lt(key, relation_lower(rel))
    &&& lex_lt(key, relation_upper(rel))
    &&& if rel.stackable {
        m.contains_key(key) && validity_of(key) is None
    } else {
        top.contains_key(key)
    }
}

spec fn blocked(rel: RelView, m: Content, top: Content) -> bool {
    exists|key: Seq<u8>| blocks(rel, m, top, key)
}

spec fn failure_of(rel: RelView) -> Failure {
    if rel.stackable {
        Failure::Unversioned { relation: rel.name }
    } else {
        Failure::Plain { relation: rel.name }
    }
}

proof fn lemma_scan_rows_failure(rel: RelView, rows: Seq<Kv>, dst: Content)
    ensures
        scan_rows(rel, rows, dst).failure == if exists|i: int|
            0 <= i < rows.len() && validity_of((#[trigger] rows[i]).0) is None {
            Some(Failure::Unversioned { relation: rel.name })
        } else {
            None
        },
    decreases rows.len(),
{
    if rows.len() > 0 && validity_of(rows[0].0) is Some {
        let id = identity_of(rows[0].0);
        let n = run_len(rows, id) as int;
        lemma_run_len(rows, id);
        let rest = rows.skip(n);
        if n < rows.len() && validity_of(rows[n].0) is None {
        } else {
            lemma_scan_rows_failure(rel, rest, dst);
            if exists|i: int| 0 <= i < rows.len() && validity_of((#[trigger] rows[i]).0) is None {
                let i = choose|i: int|
                    0 <= i < rows.len() && validity_of((#[trigger] rows[i]).0) is None;
                assert(rest[i - n] == rows[i]);
            }
            if exists|i: int| 0 <= i < rest.len() && validity_of((#[trigger] rest[i]).0) is None {
                let i = choose|i: int|
                    0 <= i < rest.len() && validity_of((#[trigger] rest[i]).0) is None;
                assert(rows[i + n] == rest[i]);
            }
        }
    }
}

proof fn lemma_scan_relation_failure(rel: RelView, m: Content, top: Content, dst: Content)
    requires
        m.dom().finite(),
    ensures
        scan_relation(rel, m, top, dst, None).failure == if blocked(rel, m, top) {
            Some(failure_of(rel))
        } else {
            None
        },
{
    let lower = relation_lower(rel);
    let upper = Some(relation_upper(rel));
    let part = between(m, lower, upper);
    if !rel.is_index && !rel.stackable {
        let found = between(top, lower, upper);
        if blocked(rel, m, top) {
            let key = choose|key: Seq<u8>| blocks(rel, m, top, key);
            assert(found.dom().contains(key));
        } else {
            assert forall|k: Seq<u8>| !found.dom().contains(k) by {
                if found.dom().contains(k) {
                    assert(blocks(rel, m, top, k));
                }
            }
            assert(found.dom() =~= Set::<Seq<u8>>::empty());
        }
    } else if !rel.is_index {
        let rows = ascending(part);
        lemma_between_finite(m, lower, upper);
        lemma_ascending(part);
        lemma_scan_rows_failure(rel, rows, dst);
        if blocked(rel, m, top) {
            let key = choose|key: Seq<u8>| blocks(rel, m, top, key);
            assert(part.contains_key(key));
            let i = choose|i: int| 0 <= i < rows.len() && (#[trigger] rows[i]).0 == key;
            assert(validity_of(rows[i].0) is None);
        }
        if exists|i: int| 0 <= i < rows.len() && validity_of((#[trigger] rows[i]).0) is None {
            let i = choose|i: int|
                0 <= i < rows.len() && validity_of((#[trigger] rows[i]).0) is None;
            assert(part.contains_key(rows[i].0));
            assert(blocks(rel, m, top, rows[i].0));
        }
    }
}

proof fn lemma_scan_all_failure(rels: Seq<RelView>, m: Content, top: Content, dst: Content)
    requires
        m.dom().finite(),
    ensures
        scan_all(rels, m, top, dst, None).failure is None <==> forall|r: int|
            0 <= r < rels.len() ==> !blocked(#[trigger] rels[r], m, top),
        scan_all(rels, m, top, dst, None).failure is Some ==> exists|r: int|
            {
                &&& 0 <= r < rels.len()
                &&& blocked(#[trigger] rels[r], m, top)
                &&& forall|q: int| 0 <= q < r ==> !blocked(#[trigger] rels[q], m, top)
                &&& scan_all(rels, m, top, dst, None).failure == Some(failure_of(rels[r]))
            },
    decreases rels.len(),
{
    if rels.len() > 0 {
        let rest = rels.drop_first();
        lemma_scan_relation_failure(rels[0], m, top, dst);
        lemma_scan_all_failure(rest, m, top, dst);
        assert(forall|r: int| 0 <= r < rest.len() ==> #[trigger] rest[r] == rels[r + 1]);
        if blocked(rels[0], m, top) {
            assert(scan_all(rels, m, top, dst, None).failure == Some(failure_of(rels[0])));
        } else {
            if scan_all(rest, m, top, dst, None).failure is Some {
                let r = choose|r: int|
                    {
                        &&& 0 <= r < rest.len()
                        &&& blocked(#[trigger] rest[r], m, top)
                        &&& forall|q: int| 0 <= q < r ==> !blocked(#[trigger] rest[q], m, top)
                        &&& scan_all(rest, m, top, dst, None).failure == Some(failure_of(rest[r]))
                    };
                assert(rels[r + 1] == rest[r]);
                assert forall|q: int| 0 <= q < r + 1 implies !blocked(
                    #[trigger] rels[q],
                    m,
                    top,
                ) by {
                    if q > 0 {
                        assert(rest[q - 1] == rels[q]);
                    }
                }
            }
            assert forall|r: int|
                0 <= r < rels.len() && scan_all(rest, m, top, dst, None).failure is None implies !blocked(
                #[trigger] rels[r],
                m,
                top,
            ) by {
                if r > 0 {
                    assert(rest[r - 1] == rels[r]);
                }
            }
            if forall|r: int| 0 <= r < rels.len() ==> !blocked(#[trigger] rels[r], m, top) {
                assert forall|r: int| 0 <= r < rest.len() implies !blocked(
                    #[trigger] rest[r],
                    m,
                    top,
                ) by {
                    assert(rest[r] == rels[r + 1]);
                }
            }
        }
    }
}

/// The source view holds a version under this key, and the relation that its first bytes name, of
/// which `rel` is the description, carries a validity and is no index.
pub open spec fn of_view(db: Db, src: Seq<LayerRef>, rel: RelView, key: Seq<u8>) -> bool {
    &&& db.view_of(src).contains_key(key)
    &&& validity_of(key) is Some
    &&& exists|id: u64| #[trigger]
        db.relations@.contains_key(id) && relation_under(key) == Some(id) && rel
            == db.relations@[id]@ && !db.relations@[id].is_index && db.relations@[id].stackable
}

/// The row names a row of the source view by the key that it has there, and an effective row its
/// value as well. Effective rows assert or retract as the row of the view does, redundant ones
/// assert and inert ones retract.
pub open spec fn names_a_row(db: Db, src: Seq<LayerRef>, row: (RelView, Effect)) -> bool {
    match row.1 {
        Effect::Effective { key, val, asserts } => of_view(db, src, row.0, key) && val
            == db.view_of(src)[key] && asserts == validity_of(key).unwrap().is_assert,
        Effect::Redundant { key } => of_view(db, src, row.0, key) && validity_of(
            key,
        ).unwrap().is_assert,
        Effect::Inert { key } => of_view(db, src, row.0, key) && !validity_of(
            key,
        ).unwrap().is_assert,
        Effect::Divergent { key, .. } => of_view(db, src, row.0, key),
    }
}

/// The key that a decided row names.
pub proof fn law_a_decided_row_goes_by_its_key(e: Effect)
    ensures
        match e {
            Effect::Effective { key, .. } => e.key() == key,
            Effect::Redundant { key } => e.key() == key,
            Effect::Inert { key } => e.key() == key,
            Effect::Divergent { key, .. } => e.key() == key,
        },
{
}

/// Every row that a scan shows, wherever it begins, names a row of the source view, in key order,
/// and after the key that the scan resumes from.
pub proof fn law_a_scan_shows_rows_of_the_view(
    db: Db,
    src: Seq<LayerRef>,
    dst: Seq<LayerRef>,
    after: Option<Seq<u8>>,
)
    requires
        db.wf(),
    ensures
        forall|i: int|
            0 <= i < db.trace(src, dst, after).rows.len() ==> {
                &&& names_a_row(db, src, #[trigger] db.trace(src, dst, after).rows[i])
                &&& after matches Some(a) ==> lex_lt(a, db.trace(src, dst, after).rows[i].1.key())
            },
        forall|i: int, j: int|
            0 <= i < j < db.trace(src, dst, after).rows.len() ==> lex_lt(
                (#[trigger] db.trace(src, dst, after).rows[i]).1.key(),
                (#[trigger] db.trace(src, dst, after).rows[j]).1.key(),
            ),
{
    let rels = rel_views(db.relations@);
    let m = db.view_of(src);
    let t = db.trace(src, dst, after);
    db.lemma_view_finite(src);
    lemma_rel_views_by_id(db);
    lemma_ids(db.relations@);
    let ids = ids_of(db.relations@);
    lemma_scan_all_shows(rels, m, db.layer_view(src, 0), db.view_of(dst), after);
    assert forall|i: int| 0 <= i < t.rows.len() implies {
        &&& names_a_row(db, src, #[trigger] t.rows[i])
        &&& after matches Some(a) ==> lex_lt(a, t.rows[i].1.key())
    } by {
        let row = t.rows[i];
        let key = row.1.key();
        assert(shown(row, m, after));
        let r = choose|r: int| 0 <= r < rels.len() && #[trigger] rels[r] == row.0;
        let id = ids[r];
        assert(ids.to_set().contains(id));
        assert(db.relations@.contains_key(id));
        lemma_key_is_version(key);
        law_a_relation_is_a_range_of_keys(row.0, key);
        assert(of_view(db, src, row.0, key));
    }
}

/// The row is one that a scan of the view can show.
spec fn shown(row: (RelView, Effect), m: Content, after: Option<Seq<u8>>) -> bool {
    let key = row.1.key();
    &&& m.contains_key(key)
    &&& validity_of(key) is Some
    &&& takes(row.0, key)
    &&& after matches Some(a) ==> lex_lt(a, key)
    &&& match row.1 {
        Effect::Effective { val, asserts, .. } => val == m[key] && asserts == validity_of(
            key,
        ).unwrap().is_assert,
        Effect::Redundant { .. } => validity_of(key).unwrap().is_assert,
        Effect::Inert { .. } => !validity_of(key).unwrap().is_assert,
        Effect::Divergent { .. } => true,
    }
}

/// A run decided by itself is shown under the key of its first row.
proof fn lemma_run_shown(run: Seq<Kv>, dst: Content)
    requires
        run.len() > 0,
    ensures
        ({
            let e = decided(resolution(run), dst);
            &&& e.key() == run[0].0
            &&& match e {
                Effect::Effective { val, asserts: a, .. } => val == run[0].1 && a == asserts(run[0].0),
                Effect::Redundant { .. } => asserts(run[0].0),
                Effect::Inert { .. } => !asserts(run[0].0),
                Effect::Divergent { .. } => true,
            }
        }),
{
}

proof fn lemma_scan_rows_shows(rel: RelView, rows: Seq<Kv>, dst: Content)
    requires
        forall|i: int, j: int|
            0 <= i < j < rows.len() ==> lex_lt((#[trigger] rows[i]).0, (#[trigger] rows[j]).0),
    ensures
        forall|n: int|
            0 <= n < scan_rows(rel, rows, dst).rows.len() ==> {
                let row = #[trigger] scan_rows(rel, rows, dst).rows[n];
                &&& row.0 == rel
                &&& comes_as(rows, row.1)
            },
        forall|i: int, j: int|
            0 <= i < j < scan_rows(rel, rows, dst).rows.len() ==> lex_lt(
                (#[trigger] scan_rows(rel, rows, dst).rows[i]).1.key(),
                (#[trigger] scan_rows(rel, rows, dst).rows[j]).1.key(),
            ),
    decreases rows.len(),
{
    let t = scan_rows(rel, rows, dst);
    if rows.len() > 0 && validity_of(rows[0].0) is Some {
        let id = identity_of(rows[0].0);
        let n = run_len(rows, id) as int;
        lemma_run_len(rows, id);
        let rest = rows.skip(n);
        if n < rows.len() && validity_of(rows[n].0) is None {
        } else {
            assert forall|i: int, j: int| 0 <= i < j < rest.len() implies lex_lt(
                (#[trigger] rest[i]).0,
                (#[trigger] rest[j]).0,
            ) by {
                assert(rest[i] == rows[i + n] && rest[j] == rows[j + n]);
            }
            let run = rows.take(n);
            let u = scan_rows(rel, rest, dst);
            let one = (rel, decided(resolution(run), dst));
            lemma_scan_rows_shows(rel, rest, dst);
            assert(run[0] == rows[0]);
            lemma_run_shown(run, dst);
            assert(t.rows =~= seq![one] + u.rows);
            assert(came(rows, one.1, 0));
            assert forall|k: int| 0 <= k < t.rows.len() implies {
                let row = #[trigger] t.rows[k];
                &&& row.0 == rel
                &&& comes_as(rows, row.1)
            } by {
                if k > 0 {
                    assert(t.rows[k] == u.rows[k - 1]);
                    let e = t.rows[k].1;
                    assert(comes_as(rest, e));
                    let i = choose|i: int| came(rest, e, i);
                    assert(came(rows, e, i + n));
                }
            }
            assert forall|i: int, j: int| 0 <= i < j < t.rows.len() implies lex_lt(
                (#[trigger] t.rows[i]).1.key(),
                (#[trigger] t.rows[j]).1.key(),
            ) by {
                assert(t.rows[j] == u.rows[j - 1]);
                if i > 0 {
                    assert(t.rows[i] == u.rows[i - 1]);
                } else {
                    let e = t.rows[j].1;
                    assert(comes_as(rest, e));
                    let h = choose|h: int| came(rest, e, h);
                    assert(rows[h + n] == rest[h]);
                    assert(lex_lt(rows[0].0, rows[h + n].0));
                }
            }
        }
    }
}

/// The row at `i` is the one that the effect is of.
spec fn came(rows: Seq<Kv>, e: Effect, i: int) -> bool {
    &&& 0 <= i < rows.len()
    &&& rows[i].0 == e.key()
    &&& validity_of(rows[i].0) is Some
    &&& match e {
        Effect::Effective { val, asserts: a, .. } => val == rows[i].1 && a == asserts(rows[i].0),
        Effect::Redundant { .. } => asserts(rows[i].0),
        Effect::Inert { .. } => !asserts(rows[i].0),
        Effect::Divergent { .. } => true,
    }
}

spec fn comes_as(rows: Seq<Kv>, e: Effect) -> bool {
    exists|i: int| came(rows, e, i)
}

proof fn lemma_scan_relation_shows(
    rel: RelView,
    m: Content,
    top: Content,
    dst: Content,
    after: Option<Seq<u8>>,
)
    requires
        m.dom().finite(),
        rel.id < u64::MAX,
    ensures
        forall|i: int|
            0 <= i < scan_relation(rel, m, top, dst, after).rows.len() ==> {
                let row = #[trigger] scan_relation(rel, m, top, dst, after).rows[i];
                row.0 == rel && shown(row, m, after)
            },
        forall|i: int, j: int|
            0 <= i < j < scan_relation(rel, m, top, dst, after).rows.len() ==> lex_lt(
                (#[trigger] scan_relation(rel, m, top, dst, after).rows[i]).1.key(),
                (#[trigger] scan_relation(rel, m, top, dst, after).rows[j]).1.key(),
            ),
{
    let t = scan_relation(rel, m, top, dst, after);
    let lower = relation_lower(rel);
    let start = scan_start(rel, after);
    let upper = Some(relation_upper(rel));
    let part = between(m, start, upper);
    if !rel.is_index && rel.stackable && !(after matches Some(a) && !lex_lt(
        a,
        relation_upper(rel),
    )) {
        let rows = ascending(part);
        lemma_between_finite(m, start, upper);
        lemma_ascending(part);
        lemma_scan_rows_shows(rel, rows, dst);
        lemma_be_word(rel.id as nat);
        assert forall|i: int| 0 <= i < t.rows.len() implies {
            let row = #[trigger] t.rows[i];
            row.0 == rel && shown(row, m, after)
        } by {
            let row = t.rows[i];
            assert(comes_as(rows, row.1));
            let h = choose|h: int| came(rows, row.1, h);
            let key = row.1.key();
            assert(part.contains_key(rows[h].0));
            lemma_key_is_version(key);
            lemma_not_lt(key, start);
            lemma_not_lt(key, lower);
            if let Some(a) = after {
                lemma_not_lt(lower, a);
                if lex_lt(lower, a) {
                    lemma_versions_upper(a);
                    lemma_lt_le(a, start, key);
                    lemma_lt_transitive(lower, a, key);
                    lemma_lt_asymmetric(lower, key);
                } else {
                    assert(key != lower);
                    if lower != a {
                        lemma_lt_total(a, lower);
                        lemma_lt_transitive(a, lower, key);
                    }
                }
            }
        }
    }
}

proof fn lemma_scan_all_shows(
    rels: Seq<RelView>,
    m: Content,
    top: Content,
    dst: Content,
    after: Option<Seq<u8>>,
)
    requires
        m.dom().finite(),
        rels_by_id(rels),
    ensures
        forall|i: int|
            0 <= i < scan_all(rels, m, top, dst, after).rows.len() ==> {
                let row = #[trigger] scan_all(rels, m, top, dst, after).rows[i];
                &&& shown(row, m, after)
                &&& exists|r: int| 0 <= r < rels.len() && #[trigger] rels[r] == row.0
            },
        forall|i: int, j: int|
            0 <= i < j < scan_all(rels, m, top, dst, after).rows.len() ==> lex_lt(
                (#[trigger] scan_all(rels, m, top, dst, after).rows[i]).1.key(),
                (#[trigger] scan_all(rels, m, top, dst, after).rows[j]).1.key(),
            ),
    decreases rels.len(),
{
    if rels.len() > 0 {
        let t = scan_all(rels, m, top, dst, after);
        let rel = rels[0];
        let rest = rels.drop_first();
        let here = scan_relation(rel, m, top, dst, after);
        let later = scan_all(rest, m, top, dst, after);
        let n = here.rows.len() as int;
        assert(rels_by_id(rest)) by {
            assert(forall|r: int| 0 <= r < rest.len() ==> #[trigger] rest[r] == rels[r + 1]);
        }
        lemma_scan_relation_shows(rel, m, top, dst, after);
        lemma_scan_all_shows(rest, m, top, dst, after);
        assert forall|i: int| 0 <= i < t.rows.len() implies {
            let row = #[trigger] t.rows[i];
            &&& shown(row, m, after)
            &&& exists|r: int| 0 <= r < rels.len() && #[trigger] rels[r] == row.0
        } by {
            if i < n {
                assert(t.rows[i] == here.rows[i]);
                assert(rels[0] == here.rows[i].0);
            } else {
                assert(t.rows[i] == later.rows[i - n]);
                let r = choose|r: int|
                    0 <= r < rest.len() && #[trigger] rest[r] == later.rows[i - n].0;
                assert(rels[r + 1] == rest[r]);
            }
        }
        assert forall|i: int, j: int| 0 <= i < j < t.rows.len() implies lex_lt(
            (#[trigger] t.rows[i]).1.key(),
            (#[trigger] t.rows[j]).1.key(),
        ) by {
            if j < n {
                assert(t.rows[i] == here.rows[i] && t.rows[j] == here.rows[j]);
            } else if i >= n {
                assert(t.rows[i] == later.rows[i - n] && t.rows[j] == later.rows[j - n]);
            } else {
                assert(t.rows[i] == here.rows[i] && t.rows[j] == later.rows[j - n]);
                let r = choose|r: int|
                    0 <= r < rest.len() && #[trigger] rest[r] == later.rows[j - n].0;
                assert(rest[r] == rels[r + 1]);
                assert(rels[0].id < rels[r + 1].id);
                lemma_relations_disjoint(
                    rel,
                    here.rows[i].1.key(),
                    rest[r],
                    later.rows[j - n].1.key(),
                );
            }
        }
    }
}

/// Two assertions of the identity in the view carry different values.
pub open spec fn disagrees(m: Content, identity: Seq<u8>) -> bool {
    exists|a: Validity, b: Validity|
        #![trigger m.contains_key(version_key(identity, a)), m.contains_key(version_key(identity, b))]
        m.contains_key(version_key(identity, a)) && a.is_assert && m.contains_key(
            version_key(identity, b),
        ) && b.is_assert && m[version_key(identity, a)] != m[version_key(identity, b)]
}

/// `val` is what the latest of the identity's assertions in the view that do not carry `other`
/// carries.
pub open spec fn latest_but(m: Content, identity: Seq<u8>, other: Seq<u8>, val: Seq<u8>) -> bool {
    exists|v: Validity|
        {
            &&& #[trigger] m.contains_key(version_key(identity, v))
            &&& v.is_assert
            &&& m[version_key(identity, v)] == val
            &&& val != other
            &&& forall|w: Validity| #[trigger]
                m.contains_key(version_key(identity, w)) && w.is_assert && m[version_key(
                    identity,
                    w,
                )] != other ==> w.timestamp <= v.timestamp
        }
}

/// What a scan makes of each identity of any regular view: it is shown under the key of its latest
/// version. If two assertions in the view disagree it is a conflict of the source, between the latest
/// of them and the latest that carries something else. Otherwise an assertion is a conflict with the
/// destination where that last asserted another value, redundant where that has it live with the same
/// value, and effective elsewhere; and a retraction is effective where the destination has the record
/// live, and inert elsewhere.
pub proof fn law_what_a_scan_of_a_view_makes_of_an_identity(
    rels: Seq<RelView>,
    m: Content,
    top: Content,
    held: Content,
    i: int,
)
    requires
        rels_by_id(rels),
        m.dom().finite(),
        regular(m.dom()),
        0 <= i < scan_all(rels, m, top, held, None).rows.len(),
    ensures
        ({
            let e = scan_all(rels, m, top, held, None).rows[i].1;
            let key = e.key();
            let identity = identity_of(key);
            let v = validity_of(key).unwrap();
            &&& m.contains_key(key)
            &&& validity_of(key) is Some
            &&& forall|w: Validity| #[trigger]
                m.contains_key(version_key(identity, w)) ==> w == v || w.timestamp < v.timestamp
                    || w.timestamp == v.timestamp && v.is_assert && !w.is_assert
            &&& e is Divergent && e->kind == ConflictKind::Source <==> disagrees(m, identity)
            &&& e is Divergent && e->kind == ConflictKind::Destination <==> {
                &&& !disagrees(m, identity)
                &&& v.is_assert
                &&& asserted_value(held, identity) is Some
                &&& asserted_value(held, identity) != Some(m[key])
            }
            &&& e is Redundant <==> {
                &&& !disagrees(m, identity)
                &&& v.is_assert
                &&& asserted_value(held, identity) == Some(m[key])
                &&& live(held, identity)
            }
            &&& e is Inert <==> !disagrees(m, identity) && !v.is_assert && !live(held, identity)
            &&& e is Effective <==> {
                &&& !disagrees(m, identity)
                &&& if v.is_assert {
                    asserted_value(held, identity) is None || asserted_value(held, identity)
                        == Some(m[key]) && !live(held, identity)
                } else {
                    live(held, identity)
                }
            }
            &&& e matches Effect::Effective { val, asserts, .. } ==> val == m[key] && asserts
                == v.is_assert
            &&& e matches Effect::Divergent { existing, incoming, kind, .. } ==> {
                &&& asserted_value(m, identity) == Some(incoming)
                &&& kind == ConflictKind::Source ==> latest_but(m, identity, incoming, existing)
                &&& kind == ConflictKind::Destination ==> asserted_value(held, identity) == Some(
                    existing,
                )
            }
        }),
{
    let t = scan_all(rels, m, top, held, None);
    let e = t.rows[i].1;
    let identity = about(t.rows[i]);
    lemma_scan_all_tells(rels, m, top, held);
    lemma_tells_row(t.rows, m, held, i);
    lemma_key_is_version(e.key());
    let v = newest(m, identity);
    lemma_version_key(identity, v);
    assert forall|w: Validity| #[trigger] m.contains_key(version_key(identity, w)) implies w == v
        || w.timestamp < v.timestamp || w.timestamp == v.timestamp && v.is_assert
        && !w.is_assert by {
        assert(has_version(m, identity, w));
        assert(!newer(w, v));
    }
    law_what_a_view_makes_of_an_identity(m, identity, v);
}

/// What a scan makes of each identity: it is shown under the key of its latest version. If two
/// assertions in the view disagree it is a conflict of the source, between the latest of them and
/// the latest that carries something else. Otherwise an assertion is a conflict with the destination
/// where that last asserted another value, redundant where that has it live with the same value, and
/// effective elsewhere; and a retraction is effective where the destination has the record live, and
/// inert elsewhere.
pub proof fn law_what_a_scan_makes_of_an_identity(
    db: Db,
    src: Seq<LayerRef>,
    dst: Seq<LayerRef>,
    i: int,
)
    requires
        db.wf(),
        db.reads_regular(src),
        0 <= i < db.trace(src, dst, None).rows.len(),
    ensures
        ({
            let m = db.view_of(src);
            let held = db.view_of(dst);
            let e = db.trace(src, dst, None).rows[i].1;
            let key = e.key();
            let identity = identity_of(key);
            let v = validity_of(key).unwrap();
            &&& m.contains_key(key)
            &&& validity_of(key) is Some
            &&& forall|w: Validity| #[trigger]
                m.contains_key(version_key(identity, w)) ==> w == v || w.timestamp < v.timestamp
                    || w.timestamp == v.timestamp && v.is_assert && !w.is_assert
            &&& e is Divergent && e->kind == ConflictKind::Source <==> disagrees(m, identity)
            &&& e is Divergent && e->kind == ConflictKind::Destination <==> {
                &&& !disagrees(m, identity)
                &&& v.is_assert
                &&& asserted_value(held, identity) is Some
                &&& asserted_value(held, identity) != Some(m[key])
            }
            &&& e is Redundant <==> {
                &&& !disagrees(m, identity)
                &&& v.is_assert
                &&& asserted_value(held, identity) == Some(m[key])
                &&& live(held, identity)
            }
            &&& e is Inert <==> !disagrees(m, identity) && !v.is_assert && !live(held, identity)
            &&& e is Effective <==> {
                &&& !disagrees(m, identity)
                &&& if v.is_assert {
                    asserted_value(held, identity) is None || asserted_value(held, identity)
                        == Some(m[key]) && !live(held, identity)
                } else {
                    live(held, identity)
                }
            }
            &&& e matches Effect::Effective { val, asserts, .. } ==> val == m[key] && asserts
                == v.is_assert
            &&& e matches Effect::Divergent { existing, incoming, kind, .. } ==> {
                &&& asserted_value(m, identity) == Some(incoming)
                &&& kind == ConflictKind::Source ==> latest_but(m, identity, incoming, existing)
                &&& kind == ConflictKind::Destination ==> asserted_value(held, identity) == Some(
                    existing,
                )
            }
        }),
{
    db.lemma_view_finite(src);
    lemma_rel_views_by_id(db);
    law_what_a_scan_of_a_view_makes_of_an_identity(
        rel_views(db.relations@),
        db.view_of(src),
        db.layer_view(src, 0),
        db.view_of(dst),
        i,
    );
}

/// A scan that resumes after a key is a scan of what the source view has past that key's versions, and
/// the relations before the one that the key belongs to are no longer looked at.
pub proof fn law_a_resumed_scan_is_a_scan_of_what_lies_past_the_key(
    db: Db,
    src: Seq<LayerRef>,
    dst: Seq<LayerRef>,
    a: Seq<u8>,
)
    requires
        db.wf(),
        validity_of(a) is Some,
    ensures
        db.trace(src, dst, Some(a)) == scan_all(
            rel_views(db.relations@),
            between(db.view_of(src), versions_upper(a), None),
            between(db.layer_view(src, 0), a.take(8), None),
            db.view_of(dst),
            None,
        ),
{
    lemma_rel_views_by_id(db);
    lemma_resumed(
        rel_views(db.relations@),
        db.view_of(src),
        db.layer_view(src, 0),
        db.view_of(dst),
        a,
    );
}

proof fn lemma_resumed(
    rels: Seq<RelView>,
    m: Content,
    top: Content,
    dst: Content,
    a: Seq<u8>,
)
    requires
        rels_by_id(rels),
        validity_of(a) is Some,
    ensures
        scan_all(rels, m, top, dst, Some(a)) == scan_all(
            rels,
            between(m, versions_upper(a), None),
            between(top, a.take(8), None),
            dst,
            None,
        ),
    decreases rels.len(),
{
    if rels.len() > 0 {
        let rest = rels.drop_first();
        assert(rels_by_id(rest)) by {
            assert(forall|r: int| 0 <= r < rest.len() ==> #[trigger] rest[r] == rels[r + 1]);
        }
        lemma_resumed(rest, m, top, dst, a);
        lemma_relation_resumed(rels[0], m, top, dst, a);
    }
}

/// Where a relation lies beside a key and what is past its versions.
proof fn lemma_beside(rel: RelView, a: Seq<u8>, k: Seq<u8>)
    requires
        rel.id < u64::MAX,
        validity_of(a) is Some,
        !lex_lt(k, relation_lower(rel)),
        lex_lt(k, relation_upper(rel)),
    ensures
        a != relation_lower(rel),
        lex_lt(a, versions_upper(a)),
        lex_lt(a, relation_lower(rel)) ==> !lex_lt(k, versions_upper(a)),
        !lex_lt(a, relation_upper(rel)) ==> lex_lt(k, versions_upper(a)) && lex_lt(k, a.take(8)),
        lex_lt(a, relation_upper(rel)) ==> !lex_lt(k, a.take(8)),
{
    let lower = relation_lower(rel);
    let upper = relation_upper(rel);
    let s = versions_upper(a);
    let p = a.take(8);
    let own = be_value(p);
    lemma_key_is_version(a);
    lemma_versions_upper(a);
    lemma_be_word(rel.id as nat);
    lemma_be_word((rel.id + 1) as nat);
    lemma_be_value_word(p);
    assert(identity_of(a).take(8) =~= p);
    assert(s.take(8) =~= p);
    lemma_be_order(p, lower);
    lemma_be_order(p, upper);
    lemma_be_order(lower, p);
    lemma_be_order(upper, p);
    lemma_lt_word(a, lower);
    lemma_lt_word(a, upper);
    lemma_lt_word(s, lower);
    lemma_be_bytes_unique(p, upper);
    lemma_be_bytes_unique(p, lower);
    lemma_lt_total(p, upper);
    if lex_lt(a, lower) {
        assert(lex_lt(s, lower));
        if lex_lt(k, s) {
            lemma_lt_transitive(k, s, lower);
        }
    }
    if !lex_lt(a, upper) {
        lemma_not_lt(a, upper);
        lemma_lt_le(k, upper, a);
        lemma_lt_transitive(k, a, s);
        lemma_not_lt(p, upper);
        lemma_lt_le(k, upper, p);
    } else {
        assert(own <= rel.id);
        lemma_not_lt(lower, p);
        if lex_lt(k, p) {
            lemma_lt_le(k, p, lower);
        }
    }
}

proof fn lemma_relation_resumed(rel: RelView, m: Content, top: Content, dst: Content, a: Seq<u8>)
    requires
        rel.id < u64::MAX,
        validity_of(a) is Some,
    ensures
        scan_relation(rel, m, top, dst, Some(a)) == scan_relation(
            rel,
            between(m, versions_upper(a), None),
            between(top, a.take(8), None),
            dst,
            None,
        ),
{
    let lower = relation_lower(rel);
    let upper = Some(relation_upper(rel));
    let past = between(m, versions_upper(a), None);
    let above = between(top, a.take(8), None);
    lemma_relation_range(rel);
    assert forall|k: Seq<u8>| !lex_lt(k, lower) && lex_lt(k, relation_upper(rel)) implies {
        &&& a != lower
        &&& lex_lt(a, versions_upper(a))
        &&& lex_lt(a, lower) ==> !lex_lt(k, versions_upper(a))
        &&& !lex_lt(a, relation_upper(rel)) ==> lex_lt(k, versions_upper(a)) && lex_lt(
            k,
            a.take(8),
        )
        &&& lex_lt(a, relation_upper(rel)) ==> !lex_lt(k, a.take(8))
    } by {
        lemma_beside(rel, a, k);
    }
    lemma_lt_irreflexive(lower);
    lemma_beside(rel, a, lower);
    if !lex_lt(a, relation_upper(rel)) {
        assert(between(past, lower, upper).dom() =~= Set::<Seq<u8>>::empty());
        assert(between(above, lower, upper).dom() =~= Set::<Seq<u8>>::empty());
        lemma_ascending_empty(between(past, lower, upper));
    } else {
        assert(between(above, lower, upper).dom() =~= between(top, lower, upper).dom());
        lemma_lt_total(lower, a);
        let start = scan_start(rel, Some(a));
        if lex_lt(lower, a) {
            lemma_lt_transitive(lower, a, start);
            assert forall|k: Seq<u8>| !lex_lt(k, start) implies !lex_lt(k, lower) by {
                if lex_lt(k, lower) {
                    lemma_lt_transitive(k, lower, start);
                }
            }
        }
        assert(between(m, start, upper).dom() =~= between(past, lower, upper).dom());
        assert(between(m, start, upper) =~= between(past, lower, upper));
    }
}

/// What a scan that resumes after a key makes of each identity is what a scan makes of it that sees
/// what the source view has past that key's versions.
pub proof fn law_what_a_resumed_scan_makes_of_an_identity(
    db: Db,
    src: Seq<LayerRef>,
    dst: Seq<LayerRef>,
    a: Seq<u8>,
    i: int,
)
    requires
        db.wf(),
        validity_of(a) is Some,
        regular(between(db.view_of(src), versions_upper(a), None).dom()),
        0 <= i < db.trace(src, dst, Some(a)).rows.len(),
    ensures
        ({
            let m = between(db.view_of(src), versions_upper(a), None);
            let held = db.view_of(dst);
            let e = db.trace(src, dst, Some(a)).rows[i].1;
            let key = e.key();
            let identity = identity_of(key);
            let v = validity_of(key).unwrap();
            &&& m.contains_key(key)
            &&& validity_of(key) is Some
            &&& forall|w: Validity| #[trigger]
                m.contains_key(version_key(identity, w)) ==> w == v || w.timestamp < v.timestamp
                    || w.timestamp == v.timestamp && v.is_assert && !w.is_assert
            &&& e is Divergent && e->kind == ConflictKind::Source <==> disagrees(m, identity)
            &&& e is Divergent && e->kind == ConflictKind::Destination <==> {
                &&& !disagrees(m, identity)
                &&& v.is_assert
                &&& asserted_value(held, identity) is Some
                &&& asserted_value(held, identity) != Some(m[key])
            }
            &&& e is Redundant <==> {
                &&& !disagrees(m, identity)
                &&& v.is_assert
                &&& asserted_value(held, identity) == Some(m[key])
                &&& live(held, identity)
            }
            &&& e is Inert <==> !disagrees(m, identity) && !v.is_assert && !live(held, identity)
            &&& e is Effective <==> {
                &&& !disagrees(m, identity)
                &&& if v.is_assert {
                    asserted_value(held, identity) is None || asserted_value(held, identity)
                        == Some(m[key]) && !live(held, identity)
                } else {
                    live(held, identity)
                }
            }
            &&& e matches Effect::Effective { val, asserts, .. } ==> val == m[key] && asserts
                == v.is_assert
            &&& e matches Effect::Divergent { existing, incoming, kind, .. } ==> {
                &&& asserted_value(m, identity) == Some(incoming)
                &&& kind == ConflictKind::Source ==> latest_but(m, identity, incoming, existing)
                &&& kind == ConflictKind::Destination ==> asserted_value(held, identity) == Some(
                    existing,
                )
            }
        }),
{
    db.lemma_view_finite(src);
    lemma_rel_views_by_id(db);
    lemma_between_finite(db.view_of(src), versions_upper(a), None);
    law_a_resumed_scan_is_a_scan_of_what_lies_past_the_key(db, src, dst, a);
    law_what_a_scan_of_a_view_makes_of_an_identity(
        rel_views(db.relations@),
        between(db.view_of(src), versions_upper(a), None),
        between(db.layer_view(src, 0), a.take(8), None),
        db.view_of(dst),
        i,
    );
}

/// A scan that resumes after a key and does not fail shows every identity that the source view has
/// past that key's versions, in a relation that carries a validity and is no index.
pub proof fn law_a_resumed_scan_leaves_no_identity_out(
    db: Db,
    src: Seq<LayerRef>,
    dst: Seq<LayerRef>,
    a: Seq<u8>,
    key: Seq<u8>,
    id: u64,
)
    requires
        db.wf(),
        validity_of(a) is Some,
        regular(between(db.view_of(src), versions_upper(a), None).dom()),
        db.trace(src, dst, Some(a)).failure is None,
        db.view_of(src).contains_key(key),
        !lex_lt(key, versions_upper(a)),
        relation_under(key) == Some(id),
        db.relations@.contains_key(id),
        !db.relations@[id].is_index,
        db.relations@[id].stackable,
    ensures
        validity_of(key) is Some,
        exists|i: int|
            0 <= i < db.trace(src, dst, Some(a)).rows.len() && identity_of(
                (#[trigger] db.trace(src, dst, Some(a)).rows[i]).1.key(),
            ) == identity_of(key),
{
    let rels = rel_views(db.relations@);
    let m = between(db.view_of(src), versions_upper(a), None);
    let t = db.trace(src, dst, Some(a));
    db.lemma_view_finite(src);
    lemma_rel_views_by_id(db);
    lemma_between_finite(db.view_of(src), versions_upper(a), None);
    law_a_resumed_scan_is_a_scan_of_what_lies_past_the_key(db, src, dst, a);
    lemma_scan_all_tells(
        rels,
        m,
        between(db.layer_view(src, 0), a.take(8), None),
        db.view_of(dst),
    );
    let r = lemma_id_listed(db.relations@, id);
    law_a_relation_is_a_range_of_keys(rels[r], key);
    assert(takes(rels[r], key));
    assert(taken(rels, key));
    assert(m.contains_key(key));
    let i = choose|i: int| 0 <= i < t.rows.len() && about(#[trigger] t.rows[i]) == identity_of(key);
    assert(identity_of(t.rows[i].1.key()) == identity_of(key));
}

/// A scan that resumes after a key fails exactly if a row stands in its way that it has yet to come
/// to: one past the key's versions, or one that would be left behind in a relation that is not
/// finished.
pub proof fn law_a_resumed_scan_fails_only_for_cause(
    db: Db,
    src: Seq<LayerRef>,
    dst: Seq<LayerRef>,
    a: Seq<u8>,
)
    requires
        db.wf(),
        validity_of(a) is Some,
    ensures
        db.trace(src, dst, Some(a)).failure is None <==> forall|id: u64, key: Seq<u8>| #[trigger]
            obstructs(db, src, id, key) ==> if db.relations@[id].stackable {
                lex_lt(key, versions_upper(a))
            } else {
                lex_lt(key, a.take(8))
            },
{
    let rels = rel_views(db.relations@);
    let m = between(db.view_of(src), versions_upper(a), None);
    let top = between(db.layer_view(src, 0), a.take(8), None);
    let ids = ids_of(db.relations@);
    db.lemma_view_finite(src);
    lemma_rel_views_by_id(db);
    lemma_ids(db.relations@);
    lemma_between_finite(db.view_of(src), versions_upper(a), None);
    law_a_resumed_scan_is_a_scan_of_what_lies_past_the_key(db, src, dst, a);
    lemma_scan_all_failure(rels, m, top, db.view_of(dst));
    if db.trace(src, dst, Some(a)).failure is None {
        assert forall|id: u64, key: Seq<u8>| #[trigger] obstructs(db, src, id, key) implies (
        if db.relations@[id].stackable {
            lex_lt(key, versions_upper(a))
        } else {
            lex_lt(key, a.take(8))
        }) by {
            let r = lemma_id_listed(db.relations@, id);
            assert(!blocked(rels[r], m, top));
            assert(!blocks(rels[r], m, top, key));
        }
    } else {
        let r = choose|r: int| 0 <= r < rels.len() && blocked(#[trigger] rels[r], m, top);
        let key = choose|key: Seq<u8>| blocks(rels[r], m, top, key);
        assert(ids.to_set().contains(ids[r]));
        assert(db.relations@.contains_key(ids[r]));
        assert(obstructs(db, src, ids[r], key));
    }
}

/// What a view makes of an identity: its latest version, with its key, value and flag, what its latest
/// assertion carries, and, if two of its assertions disagree, what the latest that carries something
/// else than that does.
pub proof fn law_what_a_view_makes_of_an_identity(m: Content, identity: Seq<u8>, v: Validity)
    requires
        m.dom().finite(),
        identity.len() >= 8,
        m.contains_key(version_key(identity, v)),
        forall|w: Validity| #[trigger]
            m.contains_key(version_key(identity, w)) ==> w == v || w.timestamp < v.timestamp
                || w.timestamp == v.timestamp && v.is_assert && !w.is_assert,
    ensures
        is_newest(m, identity, v),
        newest(m, identity) == v,
        ({
            let r = net(m, identity);
            let key = version_key(identity, v);
            &&& r.key == key
            &&& r.val == m[key]
            &&& r.asserts == v.is_assert
            &&& r.asserted == asserted_value(m, identity)
            &&& identity_of(r.key) == identity
            &&& r.divergent is Some <==> disagrees(m, identity)
            &&& r.divergent is Some ==> r.asserted is Some && latest_but(
                m,
                identity,
                r.asserted.unwrap(),
                r.divergent.unwrap(),
            )
            &&& v.is_assert ==> r.asserted == Some(m[key])
        }),
{
    let r = net(m, identity);
    lemma_version_key(identity, v);
    assert(is_newest(m, identity, v));
    lemma_newest_unique(m, identity, v, newest(m, identity));
    law_a_source_conflict_is_two_values(m, identity, v);
    if disagrees(m, identity) {
        let (a, b) = choose|a: Validity, b: Validity|
            #![trigger m.contains_key(version_key(identity, a)), m.contains_key(version_key(identity, b))]
            m.contains_key(version_key(identity, a)) && a.is_assert && m.contains_key(
                version_key(identity, b),
            ) && b.is_assert && m[version_key(identity, a)] != m[version_key(identity, b)];
        assert(has_version(m, identity, a) && has_version(m, identity, b));
        assert(r.divergent is Some);
    }
    if r.divergent is Some {
        let (a, b) = choose|a: Validity, b: Validity|
            #![trigger has_version(m, identity, a), has_version(m, identity, b)]
            has_version(m, identity, a) && a.is_assert && has_version(m, identity, b) && b.is_assert
                && m[version_key(identity, a)] != m[version_key(identity, b)];
        assert(m.contains_key(version_key(identity, a)) && m.contains_key(
            version_key(identity, b),
        ));
        assert(disagrees(m, identity));
        let val = r.asserted.unwrap();
        let d = choose|d: Validity| is_newest_dissent(m, identity, val, d);
        assert(is_newest_dissent(m, identity, val, d));
        assert forall|w: Validity| #[trigger]
            m.contains_key(version_key(identity, w)) && w.is_assert && m[version_key(identity, w)]
                != val implies w.timestamp <= d.timestamp by {
            assert(has_version(m, identity, w));
        }
        assert(m.contains_key(version_key(identity, d)));
        assert(latest_but(m, identity, val, r.divergent.unwrap()));
    }
    if v.is_assert {
        assert(is_newest_assertion(m, identity, v)) by {
            assert forall|w: Validity| #[trigger]
                has_version(m, identity, w) && w.is_assert implies w.timestamp <= v.timestamp by {
                assert(!newer(w, v));
            }
        }
        let c = choose|c: Validity| is_newest_assertion(m, identity, c);
        lemma_newest_unique(m, identity, v, c);
    }
}

/// A scan that does not fail shows every identity of the source view that belongs to a relation that
/// carries a validity and is no index, and shows it once.
pub proof fn law_a_scan_leaves_no_identity_out(
    db: Db,
    src: Seq<LayerRef>,
    dst: Seq<LayerRef>,
    key: Seq<u8>,
    id: u64,
)
    requires
        db.wf(),
        db.reads_regular(src),
        db.trace(src, dst, None).failure is None,
        db.view_of(src).contains_key(key),
        relation_under(key) == Some(id),
        db.relations@.contains_key(id),
        !db.relations@[id].is_index,
        db.relations@[id].stackable,
    ensures
        validity_of(key) is Some,
        exists|i: int|
            0 <= i < db.trace(src, dst, None).rows.len() && identity_of(
                (#[trigger] db.trace(src, dst, None).rows[i]).1.key(),
            ) == identity_of(key),
        forall|i: int, j: int|
            0 <= i < j < db.trace(src, dst, None).rows.len() ==> identity_of(
                (#[trigger] db.trace(src, dst, None).rows[i]).1.key(),
            ) != identity_of((#[trigger] db.trace(src, dst, None).rows[j]).1.key()),
{
    let rels = rel_views(db.relations@);
    let t = db.trace(src, dst, None);
    law_each_identity_is_decided_once(db, src, dst);
    let r = lemma_id_listed(db.relations@, id);
    law_a_relation_is_a_range_of_keys(rels[r], key);
    assert(takes(rels[r], key));
    assert(taken(rels, key));
    let i = choose|i: int| 0 <= i < t.rows.len() && about(#[trigger] t.rows[i]) == identity_of(key);
    assert(identity_of(t.rows[i].1.key()) == identity_of(key));
    assert forall|i: int, j: int| 0 <= i < j < t.rows.len() implies identity_of(
        (#[trigger] t.rows[i]).1.key(),
    ) != identity_of((#[trigger] t.rows[j]).1.key()) by {
        assert(about(t.rows[i]) != about(t.rows[j]));
    }
}

/// What a resolved identity means against any destination: a source that disagrees with itself is
/// a conflict; otherwise an assertion is effective unless the destination has another value, which
/// is a conflict, or the same one live, and a retraction is effective where the record is live.
pub proof fn law_what_a_resolved_identity_means(r: Resolution, dst: Content)
    ensures
        ({
            let e = decided(r, dst);
            let identity = identity_of(r.key);
            let torn = r.divergent is Some && r.asserted is Some;
            let held = asserted_value(dst, identity);
            &&& e.key() == r.key
            &&& e is Divergent <==> torn || r.asserts && held is Some && held != Some(r.val)
            &&& e is Redundant <==> !torn && r.asserts && held == Some(r.val) && live(dst, identity)
            &&& e is Inert <==> !torn && !r.asserts && !live(dst, identity)
            &&& e matches Effect::Effective { key, val, asserts } ==> key == r.key && val == r.val
                && asserts == r.asserts
            &&& e matches Effect::Divergent { key, existing, incoming, kind } ==> {
                &&& key == r.key
                &&& torn ==> kind == ConflictKind::Source && Some(existing) == r.divergent && Some(
                    incoming,
                ) == r.asserted
                &&& !torn ==> kind == ConflictKind::Destination && Some(existing) == held
                    && incoming == r.val
            }
        }),
{
}

} // verus!
