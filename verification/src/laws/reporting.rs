//! What is reported: plans, pages, writes, refusals and errors, said of the rows that a scan shows
//! and of the views that it reads.

use vstd::prelude::*;

use crate::catalog::{relation_under, RelInfo, RelView};
use crate::codec::{
    identity_of, lemma_key_is_version, restamped, validity_of, version_key, Stamp, Validity,
};
use crate::flatten::{
    clashes, conflict_views, cursor_view, items_of, page_of, plan_of, plan_view, reports,
    row_views, writes_of, written, ConflictView, FlattenConflict, FlattenCursor, FlattenError,
    FlattenItem, FlattenPage, FlattenPlan, FlattenStats, ItemView, PlanView, Refusal,
};
use crate::iter::upper_view;
use crate::laws::{law_a_scan_resumes_where_it_stopped, resume_point};
use crate::laws::deciding::{
    disagrees, latest_but, law_a_scan_leaves_no_identity_out, law_a_scan_shows_rows_of_the_view,
    law_what_a_scan_makes_of_an_identity, names_a_row, of_view,
};
use crate::layer::{Content, Row};
use crate::order::lex_lt;
use crate::scan::{
    asserted_value, ending, feed, has_version, is_newest, is_newest_assertion,
    lemma_newest_unique, live, opt_view, slice_view, ConflictKind, Effect, Failure, Halt, Kv,
    Outcome, Resolved, RowEffect, ScanError, Visitor,
};
use crate::stack::{has_layer, is_layer, Db, LayerRef, StackError, StackFault};

verus! {

/// A plan counts the effective, redundant and inert rows of a scan, adds up the bytes of key and
/// value of the effective ones, and lists its conflicts, in order, each with what the row says.
pub proof fn law_a_plan_takes_in_every_row(rows: Seq<(RelView, Effect)>)
    ensures
        plan_of(rows).rows_copied == rows.filter(
            |r: (RelView, Effect)| r.1 is Effective,
        ).len(),
        plan_of(rows).rows_deduped == rows.filter(
            |r: (RelView, Effect)| r.1 is Redundant,
        ).len(),
        plan_of(rows).tombstones_dropped == rows.filter(
            |r: (RelView, Effect)| r.1 is Inert,
        ).len(),
        plan_of(rows).bytes_copied == rows.fold_left(
            0int,
            |n: int, r: (RelView, Effect)|
                match r.1 {
                    Effect::Effective { key, val, .. } => n + key.len() + val.len(),
                    _ => n,
                },
        ),
        plan_of(rows).conflicts == rows.filter(
            |r: (RelView, Effect)| r.1 is Divergent,
        ).map_values(
            |r: (RelView, Effect)|
                ConflictView {
                    kind: r.1->kind,
                    relation: r.0.name,
                    key: r.1->Divergent_key,
                    existing: r.1->existing,
                    incoming: r.1->incoming,
                },
        ),
    decreases rows.len(),
{
    reveal(Seq::filter);
    reveal_with_fuel(Seq::fold_left, 2);
    let listed = rows.filter(|r: (RelView, Effect)| r.1 is Divergent).map_values(
        |r: (RelView, Effect)|
            ConflictView {
                kind: r.1->kind,
                relation: r.0.name,
                key: r.1->Divergent_key,
                existing: r.1->existing,
                incoming: r.1->incoming,
            },
    );
    if rows.len() > 0 {
        law_a_plan_takes_in_every_row(rows.drop_last());
    }
    assert(plan_of(rows).conflicts =~= listed);
}

/// Each conflict of a plan is one of the rows, and each row that is a conflict is in the plan.
proof fn lemma_conflict_is_a_row(rows: Seq<(RelView, Effect)>, c: int) -> (i: int)
    requires
        0 <= c < plan_of(rows).conflicts.len(),
    ensures
        0 <= i < rows.len(),
        rows[i].1 is Divergent,
        plan_of(rows).conflicts[c] == (ConflictView {
            kind: rows[i].1->kind,
            relation: rows[i].0.name,
            key: rows[i].1->Divergent_key,
            existing: rows[i].1->existing,
            incoming: rows[i].1->incoming,
        }),
    decreases rows.len(),
{
    let front = rows.drop_last();
    if c < plan_of(front).conflicts.len() {
        let i = lemma_conflict_is_a_row(front, c);
        assert(front[i] == rows[i]);
        i
    } else {
        rows.len() - 1
    }
}

/// A page shows each row as what it is, under the row's own key and the name of its relation: a row
/// to copy with its value, a conflict with its kind and its two values.
pub proof fn law_an_item_shows_its_row(rows: Seq<(RelView, Effect)>, i: int)
    requires
        0 <= i < rows.len(),
    ensures
        items_of(rows).len() == rows.len(),
        match rows[i].1 {
            Effect::Effective { key, val, .. } => items_of(rows)[i] == (ItemView::Copy {
                relation: rows[i].0.name,
                key,
                value: val,
            }),
            Effect::Redundant { key } => items_of(rows)[i] == (ItemView::Dedupe {
                relation: rows[i].0.name,
                key,
            }),
            Effect::Inert { key } => items_of(rows)[i] == (ItemView::TombstoneDropped {
                relation: rows[i].0.name,
                key,
            }),
            Effect::Divergent { key, existing, incoming, kind } => items_of(rows)[i]
                == ItemView::Conflict(
                ConflictView { kind, relation: rows[i].0.name, key, existing, incoming },
            ),
        },
{
}

/// A flatten that keeps the stamps writes the effective rows of the scan, key and value, in order;
/// the items that a page shows as copies are just these. One that stamps anew writes as many, in the
/// same order, with the same values, each under its key with the stamp moved.
pub proof fn law_what_is_written_is_what_is_shown_as_copied(
    rows: Seq<(RelView, Effect)>,
    stamp: Stamp,
)
    ensures
        writes_of(rows, false, stamp) == rows.filter(
            |r: (RelView, Effect)| r.1 is Effective,
        ).map_values(|r: (RelView, Effect)| (r.1->Effective_key, r.1->val)),
        writes_of(rows, false, stamp) == items_of(rows).filter(
            |i: ItemView| i is Copy,
        ).map_values(|i: ItemView| (i->Copy_key, i->value)),
        writes_of(rows, true, stamp) == writes_of(rows, false, stamp).map_values(
            |w: Kv| (restamped(w.0, stamp), w.1),
        ),
    decreases rows.len(),
{
    reveal(Seq::filter);
    let kept = writes_of(rows, false, stamp);
    if rows.len() > 0 {
        law_what_is_written_is_what_is_shown_as_copied(rows.drop_last(), stamp);
        assert(items_of(rows).drop_last() =~= items_of(rows.drop_last()));
    }
    assert(kept =~= rows.filter(|r: (RelView, Effect)| r.1 is Effective).map_values(
        |r: (RelView, Effect)| (r.1->Effective_key, r.1->val),
    ));
    assert(kept =~= items_of(rows).filter(|i: ItemView| i is Copy).map_values(
        |i: ItemView| (i->Copy_key, i->value),
    ));
    assert(writes_of(rows, true, stamp) =~= kept.map_values(
        |w: Kv| (restamped(w.0, stamp), w.1),
    ));
}

/// Once rows have been written, the last row written under a key is what is under it, and what was
/// not written to is as it was.
pub proof fn law_the_last_write_to_a_key_counts(m: Content, rows: Seq<Kv>, k: Seq<u8>)
    ensures
        written(m, rows).contains_key(k) <==> m.contains_key(k) || exists|i: int|
            0 <= i < rows.len() && (#[trigger] rows[i]).0 == k,
        forall|i: int|
            0 <= i < rows.len() && (#[trigger] rows[i]).0 == k && (forall|j: int|
                i < j < rows.len() ==> (#[trigger] rows[j]).0 != k) ==> written(m, rows)[k]
                == rows[i].1,
        (forall|i: int| 0 <= i < rows.len() ==> (#[trigger] rows[i]).0 != k) && m.contains_key(k)
            ==> written(m, rows)[k] == m[k],
    decreases rows.len(),
{
    if rows.len() > 0 {
        let front = rows.drop_last();
        let n = rows.len() - 1;
        law_the_last_write_to_a_key_counts(m, front, k);
        assert(written(m, rows) == written(m, front).insert(rows[n].0, rows[n].1));
        if rows[n].0 == k {
            assert forall|i: int|
                0 <= i < rows.len() && (#[trigger] rows[i]).0 == k && (forall|j: int|
                    i < j < rows.len() ==> (#[trigger] rows[j]).0 != k) implies written(m, rows)[k]
                == rows[i].1 by {
                if i < n {
                    assert(rows[n].0 != k);
                }
            }
        } else {
            lemma_earlier_writes(rows, k);
            assert forall|i: int|
                0 <= i < rows.len() && (#[trigger] rows[i]).0 == k && (forall|j: int|
                    i < j < rows.len() ==> (#[trigger] rows[j]).0 != k) implies written(m, rows)[k]
                == rows[i].1 by {
                assert(front[i] == rows[i]);
                assert forall|j: int| i < j < front.len() implies (#[trigger] front[j]).0 != k by {
                    assert(rows[j].0 != k);
                }
            }
            if forall|i: int| 0 <= i < rows.len() ==> (#[trigger] rows[i]).0 != k {
                assert forall|i: int| 0 <= i < front.len() implies (#[trigger] front[i]).0 != k by {
                    assert(rows[i].0 != k);
                }
            }
        }
    }
}

proof fn lemma_earlier_writes(rows: Seq<Kv>, k: Seq<u8>)
    requires
        rows.len() > 0,
        rows.last().0 != k,
    ensures
        (exists|i: int| 0 <= i < rows.len() && (#[trigger] rows[i]).0 == k) <==> (exists|i: int|
            0 <= i < rows.drop_last().len() && (#[trigger] rows.drop_last()[i]).0 == k),
{
    let front = rows.drop_last();
    if exists|i: int| 0 <= i < rows.len() && (#[trigger] rows[i]).0 == k {
        let i = choose|i: int| 0 <= i < rows.len() && (#[trigger] rows[i]).0 == k;
        assert(front[i] == rows[i]);
    }
    if exists|i: int| 0 <= i < front.len() && (#[trigger] front[i]).0 == k {
        let i = choose|i: int| 0 <= i < front.len() && (#[trigger] front[i]).0 == k;
        assert(rows[i] == front[i]);
    }
}

/// The conflict says what the two views hold: it names the latest version of an identity in the
/// source view, by its key and the name of its relation; what comes in is what the view's latest
/// assertion carries; and what is there is what the latest assertion of the view that carries
/// something else carries, if the source disagrees with itself, or else what the destination last
/// asserted, which is something else.
pub open spec fn is_a_conflict(
    db: Db,
    src: Seq<LayerRef>,
    dst: Seq<LayerRef>,
    c: ConflictView,
) -> bool {
    let m = db.view_of(src);
    let held = db.view_of(dst);
    let identity = identity_of(c.key);
    &&& m.contains_key(c.key)
    &&& validity_of(c.key) matches Some(v)
    &&& forall|w: Validity| #[trigger]
        m.contains_key(version_key(identity, w)) ==> w == v || w.timestamp < v.timestamp
            || w.timestamp == v.timestamp && v.is_assert && !w.is_assert
    &&& exists|id: u64| #[trigger]
        db.relations@.contains_key(id) && relation_under(c.key) == Some(id) && c.relation
            == db.relations@[id].name@
    &&& asserted_value(m, identity) == Some(c.incoming)
    &&& match c.kind {
        ConflictKind::Source => latest_but(m, identity, c.incoming, c.existing),
        ConflictKind::Destination => {
            &&& !disagrees(m, identity)
            &&& v.is_assert
            &&& asserted_value(held, identity) == Some(c.existing)
            &&& c.existing != c.incoming
        },
    }
}

proof fn lemma_row_is_a_conflict(db: Db, src: Seq<LayerRef>, dst: Seq<LayerRef>, i: int)
    requires
        db.wf(),
        db.reads_regular(src),
        0 <= i < db.trace(src, dst, None).rows.len(),
        db.trace(src, dst, None).rows[i].1 is Divergent,
    ensures
        ({
            let row = db.trace(src, dst, None).rows[i];
            is_a_conflict(
                db,
                src,
                dst,
                ConflictView {
                    kind: row.1->kind,
                    relation: row.0.name,
                    key: row.1->Divergent_key,
                    existing: row.1->existing,
                    incoming: row.1->incoming,
                },
            )
        }),
{
    law_what_a_scan_makes_of_an_identity(db, src, dst, i);
    law_a_scan_shows_rows_of_the_view(db, src, dst, None);
    let row = db.trace(src, dst, None).rows[i];
    assert(names_a_row(db, src, row));
    let key = row.1->Divergent_key;
    let identity = identity_of(key);
    let m = db.view_of(src);
    lemma_key_is_version(key);
    if row.1->kind == ConflictKind::Destination {
        let v = validity_of(key).unwrap();
        assert(is_newest_assertion(m, identity, v)) by {
            assert forall|w: Validity| #[trigger]
                has_version(m, identity, w) && w.is_assert implies w.timestamp <= v.timestamp by {
                assert(m.contains_key(version_key(identity, w)));
            }
        }
        let c = choose|c: Validity| is_newest_assertion(m, identity, c);
        lemma_newest_unique(m, identity, v, c);
    }
}

/// Every conflict that a plan or a refusal reports is one, and says what the views hold.
pub proof fn law_a_reported_conflict_says_what_the_views_hold(
    db: Db,
    src: Seq<LayerRef>,
    dst: Seq<LayerRef>,
    c: int,
)
    requires
        db.wf(),
        db.reads_regular(src),
    ensures
        0 <= c < plan_of(db.trace(src, dst, None).rows).conflicts.len() ==> is_a_conflict(
            db,
            src,
            dst,
            plan_of(db.trace(src, dst, None).rows).conflicts[c],
        ),
        db.refusal(src, dst) matches Some(Refusal::Conflicts(cs)) ==> cs.len() > 0 && (0 <= c
            < cs.len() ==> is_a_conflict(db, src, dst, cs[c])),
{
    let rows = db.trace(src, dst, None).rows;
    if 0 <= c < plan_of(rows).conflicts.len() {
        let i = lemma_conflict_is_a_row(rows, c);
        lemma_row_is_a_conflict(db, src, dst, i);
    }
}

/// A conflict is reported of every identity of the source view that has one: whose assertions in the
/// view disagree, or whose latest version asserts what the destination last asserted otherwise.
pub proof fn law_no_conflict_goes_unreported(
    db: Db,
    src: Seq<LayerRef>,
    dst: Seq<LayerRef>,
    key: Seq<u8>,
    id: u64,
)
    requires
        db.wf(),
        db.reads_regular(src),
        db.trace(src, dst, None).failure is None,
        db.view_of(src).contains_key(key),
        relation_under(key) == Some(id),
        db.relations@.contains_key(id),
        !db.relations@[id].is_index,
        db.relations@[id].stackable,
        ({
            let identity = identity_of(key);
            let held = asserted_value(db.view_of(dst), identity);
            ||| disagrees(db.view_of(src), identity)
            ||| live(db.view_of(src), identity) && held is Some && held != asserted_value(
                db.view_of(src),
                identity,
            )
        }),
    ensures
        exists|c: int|
            0 <= c < plan_of(db.trace(src, dst, None).rows).conflicts.len() && identity_of(
                (#[trigger] plan_of(db.trace(src, dst, None).rows).conflicts[c]).key,
            ) == identity_of(key),
{
    let rows = db.trace(src, dst, None).rows;
    let m = db.view_of(src);
    let identity = identity_of(key);
    law_a_scan_leaves_no_identity_out(db, src, dst, key, id);
    let i = choose|i: int|
        0 <= i < rows.len() && identity_of((#[trigger] rows[i]).1.key()) == identity;
    law_what_a_scan_makes_of_an_identity(db, src, dst, i);
    let k = rows[i].1.key();
    let v = validity_of(k).unwrap();
    lemma_key_is_version(k);
    if !disagrees(m, identity) {
        let l = choose|l: Validity| #[trigger] is_newest(m, identity, l) && l.is_assert;
        assert(has_version(m, identity, l));
        assert(m.contains_key(version_key(identity, l)));
        assert(has_version(m, identity, v));
        assert(l == v);
        assert(is_newest_assertion(m, identity, v)) by {
            assert forall|w: Validity| #[trigger]
                has_version(m, identity, w) && w.is_assert implies w.timestamp <= v.timestamp by {
                assert(m.contains_key(version_key(identity, w)));
            }
        }
        let c = choose|c: Validity| is_newest_assertion(m, identity, c);
        lemma_newest_unique(m, identity, v, c);
    }
    assert(rows[i].1 is Divergent);
    let c = lemma_row_is_reported(rows, i);
}

proof fn lemma_row_is_reported(rows: Seq<(RelView, Effect)>, i: int) -> (c: int)
    requires
        0 <= i < rows.len(),
        rows[i].1 is Divergent,
    ensures
        0 <= c < plan_of(rows).conflicts.len(),
        plan_of(rows).conflicts[c].key == rows[i].1.key(),
    decreases rows.len(),
{
    let front = rows.drop_last();
    if i == rows.len() - 1 {
        plan_of(front).conflicts.len() as int
    } else {
        assert(front[i] == rows[i]);
        lemma_row_is_reported(front, i)
    }
}

/// The item names a row of the source view: by the key that it has there and the name of the
/// relation that the key belongs to, and if it is to be copied, with its value. What is skipped
/// asserts, and what is dropped retracts.
pub open spec fn names_a_rows_item(db: Db, src: Seq<LayerRef>, item: ItemView) -> bool {
    match item {
        ItemView::Copy { relation, key, value } => {
            &&& names_key(db, src, relation, key)
            &&& value == db.view_of(src)[key]
        },
        ItemView::Dedupe { relation, key } => {
            &&& names_key(db, src, relation, key)
            &&& validity_of(key).unwrap().is_assert
        },
        ItemView::TombstoneDropped { relation, key } => {
            &&& names_key(db, src, relation, key)
            &&& !validity_of(key).unwrap().is_assert
        },
        ItemView::Conflict(c) => names_key(db, src, c.relation, c.key),
    }
}

/// The source view holds a version under this key, and the relation that it belongs to goes by this
/// name.
pub open spec fn names_key(
    db: Db,
    src: Seq<LayerRef>,
    relation: Seq<char>,
    key: Seq<u8>,
) -> bool {
    &&& db.view_of(src).contains_key(key)
    &&& validity_of(key) is Some
    &&& exists|id: u64| #[trigger]
        db.relations@.contains_key(id) && relation_under(key) == Some(id) && relation
            == db.relations@[id].name@ && !db.relations@[id].is_index
            && db.relations@[id].stackable
}

/// The key that an item goes by.
pub open spec fn item_key(item: ItemView) -> Seq<u8> {
    match item {
        ItemView::Copy { key, .. } => key,
        ItemView::Dedupe { key, .. } => key,
        ItemView::TombstoneDropped { key, .. } => key,
        ItemView::Conflict(c) => c.key,
    }
}

/// Every item of a page, wherever it begins, names a row of the source view, in key order and after
/// the cursor. A page holds no more than it was asked for; one that names a place to resume from
/// names the key of its last item, if it has one, and is full; and one that names none is not.
pub proof fn law_a_page_names_rows_of_the_view(
    db: Db,
    src: Seq<LayerRef>,
    dst: Seq<LayerRef>,
    after: Option<Seq<u8>>,
    limit: nat,
    i: int,
)
    requires
        db.wf(),
        page_of(db.trace(src, dst, after), after, limit) is Some,
    ensures
        ({
            let p = page_of(db.trace(src, dst, after), after, limit).unwrap();
            &&& p.items.len() <= limit
            &&& 0 <= i < p.items.len() ==> names_a_rows_item(db, src, p.items[i])
            &&& 0 <= i < p.items.len() ==> (after matches Some(a) ==> lex_lt(
                a,
                item_key(p.items[i]),
            ))
            &&& 0 < i < p.items.len() ==> lex_lt(item_key(p.items[i - 1]), item_key(p.items[i]))
            &&& p.next is Some ==> p.items.len() == limit
            &&& p.next is Some && p.items.len() > 0 ==> p.next == Some(item_key(p.items.last()))
            &&& p.next is None && p.items.len() > 0 ==> p.items.len() < limit
        }),
{
    let t = db.trace(src, dst, after);
    let p = page_of(t, after, limit).unwrap();
    let shown = if t.rows.len() >= limit {
        t.rows.take(limit as int)
    } else {
        t.rows
    };
    law_a_scan_shows_rows_of_the_view(db, src, dst, after);
    if limit > 0 || t.rows.len() == 0 {
        assert(p.items == items_of(shown)) by {
            if t.rows.len() >= limit {
                assert(shown =~= t.rows.take(limit as int));
            }
        }
        assert forall|j: int| 0 <= j < p.items.len() implies names_a_rows_item(
            db,
            src,
            #[trigger] p.items[j],
        ) && item_key(p.items[j]) == t.rows[j].1.key() by {
            assert(shown[j] == t.rows[j]);
            law_an_item_shows_its_row(shown, j);
            let row = t.rows[j];
            assert(names_a_row(db, src, row));
            assert(of_view(db, src, row.0, row.1.key()));
            let id = choose|id: u64| #[trigger]
                db.relations@.contains_key(id) && relation_under(row.1.key()) == Some(id) && row.0
                    == db.relations@[id]@ && !db.relations@[id].is_index
                    && db.relations@[id].stackable;
            assert(names_key(db, src, row.0.name, row.1.key()));
        }
        if p.items.len() > 0 {
            assert(item_key(p.items[p.items.len() - 1]) == t.rows[p.items.len() - 1].1.key());
        }
        if 0 < i < p.items.len() {
            assert(item_key(p.items[i - 1]) == t.rows[i - 1].1.key());
            assert(item_key(p.items[i]) == t.rows[i].1.key());
        }
    }
}

/// Every conflict on a page that the pages before it lead to is one, and says what the views hold;
/// what it shows as copied, skipped or dropped goes by the latest version of its identity in the
/// source view.
pub proof fn law_a_page_shows_what_the_views_hold(
    db: Db,
    src: Seq<LayerRef>,
    dst: Seq<LayerRef>,
    shown: int,
    limit: nat,
    i: int,
)
    requires
        db.wf(),
        db.reads_regular(src),
        0 <= shown <= db.trace(src, dst, None).rows.len(),
    ensures
        ({
            let t = db.trace(src, dst, None);
            let after = resume_point(t, shown);
            let m = db.view_of(src);
            page_of(db.trace(src, dst, after), after, limit) matches Some(p) ==> 0 <= i
                < p.items.len() ==> {
                let item = p.items[i];
                let identity = identity_of(item_key(item));
                &&& item matches ItemView::Conflict(c) ==> is_a_conflict(db, src, dst, c)
                &&& m.contains_key(item_key(item))
                &&& validity_of(item_key(item)) matches Some(v) && forall|w: Validity| #[trigger]
                    m.contains_key(version_key(identity, w)) ==> w == v || w.timestamp < v.timestamp
                        || w.timestamp == v.timestamp && v.is_assert && !w.is_assert
                &&& item is Copy ==> !disagrees(m, identity)
                &&& item is Dedupe ==> live(db.view_of(dst), identity) && asserted_value(
                    db.view_of(dst),
                    identity,
                ) == Some(m[item_key(item)])
                &&& item is TombstoneDropped ==> !live(db.view_of(dst), identity)
            }
        }),
{
    let t = db.trace(src, dst, None);
    let after = resume_point(t, shown);
    let u = db.trace(src, dst, after);
    law_a_scan_resumes_where_it_stopped(db, src, dst, shown);
    if let Some(p) = page_of(u, after, limit) {
        if 0 <= i < p.items.len() {
            let part = if u.rows.len() >= limit {
                u.rows.take(limit as int)
            } else {
                u.rows
            };
            assert(p.items == items_of(part));
            assert(part[i] == u.rows[i]);
            assert(u.rows[i] == t.rows[shown + i]);
            law_an_item_shows_its_row(part, i);
            law_what_a_scan_makes_of_an_identity(db, src, dst, shown + i);
            if t.rows[shown + i].1 is Divergent {
                lemma_row_is_a_conflict(db, src, dst, shown + i);
            }
        }
    }
}

/// The store has no layer of this name.
pub open spec fn no_layer(db: Db, name: Seq<char>) -> bool {
    forall|l: int| 0 <= l < db.layers@.len() ==> (#[trigger] db.layers@[l]).name@ != name
}

/// A stack is at fault exactly if it names no layer, or names one that the store does not have; the
/// first of these is the one reported.
pub proof fn law_a_stack_is_at_fault_for_cause(db: Db, stack: Seq<LayerRef>)
    ensures
        db.fault(stack) == Some(StackFault::Empty) <==> stack.len() == 0,
        forall|name: Seq<char>|
            db.fault(stack) == Some(StackFault::UnknownLayer { name }) <==> exists|i: int|
                {
                    &&& 0 <= i < stack.len()
                    &&& (#[trigger] stack[i]).name@ == name
                    &&& no_layer(db, name)
                    &&& forall|j: int|
                        0 <= j < i ==> !no_layer(db, (#[trigger] stack[j]).name@)
                },
        db.fault(stack) is None <==> stack.len() > 0 && forall|i: int|
            0 <= i < stack.len() ==> !no_layer(db, (#[trigger] stack[i]).name@),
{
    assert forall|name: Seq<char>| no_layer(db, name) <==> !#[trigger] has_layer(
        db.layers@,
        name,
    ) by {
        lemma_has_layer(db, name);
    }
    assert forall|name: Seq<char>|
        db.fault(stack) == Some(StackFault::UnknownLayer { name }) <==> exists|i: int|
            {
                &&& 0 <= i < stack.len()
                &&& (#[trigger] stack[i]).name@ == name
                &&& no_layer(db, name)
                &&& forall|j: int| 0 <= j < i ==> !no_layer(db, (#[trigger] stack[j]).name@)
            } by {
        if db.fault(stack) == Some(StackFault::UnknownLayer { name }) {
            let i = choose|i: int| db.first_unknown(stack, i);
            assert(!has_layer(db.layers@, stack[i].name@));
            assert forall|j: int| 0 <= j < i implies !no_layer(db, (#[trigger] stack[j]).name@) by {
                assert(has_layer(db.layers@, stack[j].name@));
            }
        }
        if exists|i: int|
            {
                &&& 0 <= i < stack.len()
                &&& (#[trigger] stack[i]).name@ == name
                &&& no_layer(db, name)
                &&& forall|j: int| 0 <= j < i ==> !no_layer(db, (#[trigger] stack[j]).name@)
            } {
            let i = choose|i: int|
                {
                    &&& 0 <= i < stack.len()
                    &&& (#[trigger] stack[i]).name@ == name
                    &&& no_layer(db, name)
                    &&& forall|j: int| 0 <= j < i ==> !no_layer(db, (#[trigger] stack[j]).name@)
                };
            assert(!has_layer(db.layers@, name));
            assert forall|j: int| 0 <= j < i implies has_layer(
                db.layers@,
                (#[trigger] stack[j]).name@,
            ) by {
                assert(!no_layer(db, stack[j].name@));
            }
            assert(db.first_unknown(stack, i));
            let c = choose|c: int| db.first_unknown(stack, c);
            if c < i {
                assert(has_layer(db.layers@, stack[c].name@));
            } else if i < c {
                assert(has_layer(db.layers@, stack[i].name@));
            }
        }
    }
    if db.fault(stack) is None {
        assert forall|i: int| 0 <= i < stack.len() implies !no_layer(
            db,
            (#[trigger] stack[i]).name@,
        ) by {
            db.lemma_known(stack, i);
        }
    } else if stack.len() > 0 {
        let i = choose|i: int| db.first_unknown(stack, i);
        assert(!has_layer(db.layers@, stack[i].name@));
        assert(no_layer(db, stack[i].name@));
    }
}

proof fn lemma_has_layer(db: Db, name: Seq<char>)
    ensures
        no_layer(db, name) <==> !has_layer(db.layers@, name),
{
    if has_layer(db.layers@, name) {
        let i = choose|i: int| is_layer(db.layers@, name, i);
        assert(db.layers@[i].name@ == name);
    }
    if !no_layer(db, name) {
        let l = choose|l: int| 0 <= l < db.layers@.len() && (#[trigger] db.layers@[l]).name@ == name;
        lemma_first_of_name(db, name, l);
    }
}

proof fn lemma_first_of_name(db: Db, name: Seq<char>, l: int)
    requires
        0 <= l < db.layers@.len(),
        db.layers@[l].name@ == name,
    ensures
        has_layer(db.layers@, name),
    decreases l,
{
    if exists|j: int| 0 <= j < l && (#[trigger] db.layers@[j]).name@ == name {
        let j = choose|j: int| 0 <= j < l && (#[trigger] db.layers@[j]).name@ == name;
        lemma_first_of_name(db, name, j);
    } else {
        assert(is_layer(db.layers@, name, l));
    }
}

/// A flatten is refused for cause, and for the first of these: the source stack cannot be read, the
/// destination stack cannot be read, the destination's top layer is one of the source's, the source
/// view cannot be resolved, or there are conflicts. A plan is refused for all of these but the last,
/// and a flatten that none of them stands against goes through.
pub proof fn law_a_flatten_is_refused_for_cause(db: Db, src: Seq<LayerRef>, dst: Seq<LayerRef>)
    ensures
        ({
            let conflicts = plan_of(db.trace(src, dst, None).rows).conflicts;
            let shared = exists|i: int|
                0 <= i < src.len() && (#[trigger] src[i]).name@ == dst[0].name@;
            if db.fault(src) is Some {
                &&& db.refusal(src, dst) == Some(Refusal::Stack(db.fault(src).unwrap()))
                &&& db.unplannable(src, dst) == db.refusal(src, dst)
                &&& db.context_fault(src, dst) == db.fault(src)
            } else if db.fault(dst) is Some {
                &&& db.refusal(src, dst) == Some(Refusal::Stack(db.fault(dst).unwrap()))
                &&& db.unplannable(src, dst) == db.refusal(src, dst)
                &&& db.context_fault(src, dst) == db.fault(dst)
            } else if shared {
                &&& db.refusal(src, dst) == Some(Refusal::Clash { layer: dst[0].name@ })
                &&& db.unplannable(src, dst) == db.refusal(src, dst)
                &&& db.context_fault(src, dst) is None
                &&& clashes(src, dst)
            } else if db.trace(src, dst, None).failure is Some {
                &&& db.refusal(src, dst) == Some(
                    Refusal::Scan(db.trace(src, dst, None).failure.unwrap()),
                )
                &&& db.unplannable(src, dst) == db.refusal(src, dst)
                &&& db.context_fault(src, dst) is None
                &&& !clashes(src, dst)
            } else {
                &&& db.unplannable(src, dst) is None
                &&& db.context_fault(src, dst) is None
                &&& !clashes(src, dst)
                &&& conflicts.len() > 0 ==> db.refusal(src, dst) == Some(
                    Refusal::Conflicts(conflicts),
                )
                &&& conflicts.len() == 0 ==> db.refusal(src, dst) is None
            }
        }),
{
}

/// What a flatten reports is what its plan counts, and the sequences that it occupies: the one of its
/// stamp, if it stamped its rows anew.
pub proof fn law_a_report_is_the_plans_counts_and_the_stamp(
    stats: FlattenStats,
    plan: PlanView,
    restamp: bool,
    stamp: Stamp,
)
    ensures
        reports(stats, plan, restamp, stamp) <==> {
            &&& stats.rows_copied == plan.rows_copied
            &&& stats.bytes_copied == plan.bytes_copied
            &&& stats.rows_deduped == plan.rows_deduped
            &&& stats.tombstones_dropped == plan.tombstones_dropped
            &&& plan.conflicts.len() == 0
            &&& restamp ==> stats.seq_range == Some((stamp, stamp))
            &&& !restamp ==> stats.seq_range is None
        },
{
    let none = conflict_views(Seq::empty());
    if plan.conflicts.len() == 0 {
        assert(plan.conflicts =~= none);
    }
    if stats.rows_copied == plan.rows_copied && stats.bytes_copied == plan.bytes_copied
        && stats.rows_deduped == plan.rows_deduped && stats.tombstones_dropped
        == plan.tombstones_dropped && plan.conflicts.len() == 0 {
        assert(plan_view(stats, Seq::empty()) =~= plan);
    }
}

/// What is reported of a conflict, an item, a plan or a page is what stands in its fields.
pub proof fn law_what_is_reported_stands_in_the_fields(
    c: FlattenConflict,
    item: FlattenItem,
    plan: FlattenPlan,
    page: FlattenPage,
    i: int,
)
    ensures
        c@.kind == c.kind,
        c@.relation == c.relation@,
        c@.key == c.key@,
        c@.existing == c.existing@,
        c@.incoming == c.incoming@,
        match item {
            FlattenItem::Copy { relation, key, value } => item@ == (ItemView::Copy {
                relation: relation@,
                key: key@,
                value: value@,
            }),
            FlattenItem::Dedupe { relation, key } => item@ == (ItemView::Dedupe {
                relation: relation@,
                key: key@,
            }),
            FlattenItem::TombstoneDropped { relation, key } => item@
                == (ItemView::TombstoneDropped { relation: relation@, key: key@ }),
            FlattenItem::Conflict(f) => item@ == ItemView::Conflict(f@),
        },
        plan@.rows_copied == plan.stats.rows_copied,
        plan@.bytes_copied == plan.stats.bytes_copied,
        plan@.rows_deduped == plan.stats.rows_deduped,
        plan@.tombstones_dropped == plan.stats.tombstones_dropped,
        plan@.conflicts.len() == plan.conflicts@.len(),
        0 <= i < plan.conflicts@.len() ==> plan@.conflicts[i] == plan.conflicts@[i]@,
        page@.items.len() == page.items@.len(),
        0 <= i < page.items@.len() ==> page@.items[i] == page.items@[i]@,
        page@.next == match page.next {
            Some(cursor) => Some(cursor@),
            None => None,
        },
{
}

/// What an error says is what stands in its fields.
pub proof fn law_what_an_error_says_stands_in_its_fields(
    flatten: FlattenError,
    stack: StackError,
    scan: ScanError,
    i: int,
)
    ensures
        match flatten {
            FlattenError::Stack(e) => flatten@ == Refusal::Stack(e@),
            FlattenError::Clash { layer } => flatten@ == (Refusal::Clash { layer: layer@ }),
            FlattenError::Scan(e) => flatten@ == Refusal::Scan(e@),
            FlattenError::Conflicts(cs) => {
                &&& flatten@ matches Refusal::Conflicts(views)
                &&& views.len() == cs@.len()
                &&& 0 <= i < cs@.len() ==> views[i] == cs@[i]@
            },
        },
        match stack {
            StackError::Empty => stack@ == StackFault::Empty,
            StackError::UnknownLayer { name } => stack@ == (StackFault::UnknownLayer {
                name: name@,
            }),
        },
        match scan {
            ScanError::Plain { relation } => scan@ == (Failure::Plain { relation: relation@ }),
            ScanError::Unversioned { relation } => scan@ == (Failure::Unversioned {
                relation: relation@,
            }),
        },
{
}

/// What a visitor is shown, and what a relation, a row or a resolved identity says, is what stands in
/// its fields.
pub proof fn law_what_is_shown_stands_in_the_fields(
    effect: RowEffect<'_>,
    rel: RelInfo,
    row: Row,
    done: Resolved,
    batch: Seq<Row>,
    i: int,
)
    ensures
        match effect {
            RowEffect::Effective { key, val, asserts } => effect@ == (Effect::Effective {
                key: key@,
                val: val@,
                asserts,
            }),
            RowEffect::Redundant { key } => effect@ == (Effect::Redundant { key: key@ }),
            RowEffect::Inert { key } => effect@ == (Effect::Inert { key: key@ }),
            RowEffect::Divergent { key, existing, incoming, kind } => effect@
                == (Effect::Divergent {
                key: key@,
                existing: existing@,
                incoming: incoming@,
                kind,
            }),
        },
        rel@.id == rel.id.0,
        rel@.name == rel.name@,
        rel@.n_keys == rel.n_keys,
        rel@.stackable == rel.stackable,
        rel@.is_index == rel.is_index,
        row@ == (row.key@, row.val@),
        done.resolution().key == done.key@,
        done.resolution().val == done.val@,
        done.resolution().asserts == done.asserts,
        done.resolution().asserted is Some <==> done.asserted is Some,
        done.asserted is Some ==> done.resolution().asserted == Some(done.asserted.unwrap()@),
        done.resolution().divergent is Some <==> done.divergent is Some,
        done.divergent is Some ==> done.resolution().divergent == Some(
            done.divergent.unwrap()@,
        ),
        row_views(batch).len() == batch.len(),
        0 <= i < batch.len() ==> row_views(batch)[i] == (batch[i].key@, batch[i].val@),
{
}

/// Optional bytes say what they hold.
pub proof fn law_optional_bytes_say_what_they_hold(
    cursor: FlattenCursor,
    bytes: Vec<u8>,
    slice: &[u8],
)
    ensures
        cursor_view(None) is None,
        cursor_view(Some(&cursor)) == Some(cursor@),
        opt_view(None) is None,
        opt_view(Some(bytes)) == Some(bytes@),
        slice_view(None) is None,
        slice_view(Some(slice)) == Some(slice@),
        upper_view(None) is None,
        upper_view(Some(slice)) == Some(slice@),
{
}

/// A visitor is shown the rows of a scan in order, each once, up to the first at which it stops or
/// fails, and including that one. If it is shown all of them the scan ends as it would have: at its
/// end, or in its failure.
pub proof fn law_a_visitor_is_shown_the_rows_in_order<V: Visitor>(
    s: V::State,
    rows: Seq<(RelView, Effect)>,
    failure: Option<Failure>,
    n: int,
)
    requires
        0 <= n <= rows.len(),
        forall|i: int|
            #![trigger rows.take(i)]
            0 <= i < n ==> {
                let t = rows.take(i).fold_left(
                    s,
                    |t: V::State, r: (RelView, Effect)| V::visited(t, r.0, r.1),
                );
                V::refuses(t, rows[i].0, rows[i].1) is None && !V::stops(t, rows[i].0, rows[i].1)
            },
    ensures
        ({
            let t = rows.take(n).fold_left(
                s,
                |t: V::State, r: (RelView, Effect)| V::visited(t, r.0, r.1),
            );
            if n == rows.len() {
                feed::<V>(s, rows, failure) == (
                    t,
                    if failure is Some {
                        Outcome::<V::Fault>::Failed { failure: failure.unwrap() }
                    } else {
                        Outcome::<V::Fault>::Done
                    },
                )
            } else {
                &&& V::refuses(t, rows[n].0, rows[n].1) matches Some(fault) ==> feed::<V>(
                    s,
                    rows,
                    failure,
                ) == (
                    V::visited(t, rows[n].0, rows[n].1),
                    Outcome::<V::Fault>::Refused { fault },
                )
                &&& V::refuses(t, rows[n].0, rows[n].1) is None && V::stops(
                    t,
                    rows[n].0,
                    rows[n].1,
                ) ==> feed::<V>(s, rows, failure) == (
                    V::visited(t, rows[n].0, rows[n].1),
                    Outcome::<V::Fault>::Stopped { key: rows[n].1.key() },
                )
            }
        }),
{
    lemma_shown_so_far::<V>(s, rows, failure, n);
    if n == rows.len() {
        assert(rows.skip(n) =~= Seq::<(RelView, Effect)>::empty());
    } else {
        assert(rows.skip(n)[0] == rows[n]);
    }
}

proof fn lemma_shown_so_far<V: Visitor>(
    s: V::State,
    rows: Seq<(RelView, Effect)>,
    failure: Option<Failure>,
    n: int,
)
    requires
        0 <= n <= rows.len(),
        forall|i: int|
            #![trigger rows.take(i)]
            0 <= i < n ==> {
                let t = rows.take(i).fold_left(
                    s,
                    |t: V::State, r: (RelView, Effect)| V::visited(t, r.0, r.1),
                );
                V::refuses(t, rows[i].0, rows[i].1) is None && !V::stops(t, rows[i].0, rows[i].1)
            },
    ensures
        feed::<V>(s, rows, failure) == feed::<V>(
            rows.take(n).fold_left(
                s,
                |t: V::State, r: (RelView, Effect)| V::visited(t, r.0, r.1),
            ),
            rows.skip(n),
            failure,
        ),
    decreases n,
{
    reveal_with_fuel(Seq::fold_left, 2);
    let f = |t: V::State, r: (RelView, Effect)| V::visited(t, r.0, r.1);
    if n == 0 {
        assert(rows.take(0) =~= Seq::<(RelView, Effect)>::empty());
        assert(rows.skip(0) =~= rows);
    } else {
        lemma_shown_so_far::<V>(s, rows, failure, n - 1);
        let t = rows.take(n - 1).fold_left(s, f);
        assert(rows.take(n).drop_last() =~= rows.take(n - 1));
        assert(rows.take(n).last() == rows[n - 1]);
        assert(rows.skip(n - 1)[0] == rows[n - 1]);
        assert(rows.skip(n - 1).drop_first() =~= rows.skip(n));
    }
}

/// How a scan says that it ended: that it ran to the end, the key at which it was stopped, why it
/// could not go on, or the visitor's error.
pub proof fn law_a_result_says_how_the_scan_ended<V: Visitor>(
    key: Vec<u8>,
    scan: ScanError,
    error: V::Error,
)
    ensures
        ending::<V>(Ok(None)) == Outcome::<V::Fault>::Done,
        ending::<V>(Ok(Some(key))) == (Outcome::<V::Fault>::Stopped { key: key@ }),
        ending::<V>(Err(Halt::Scan(scan))) == (Outcome::<V::Fault>::Failed { failure: scan@ }),
        ending::<V>(Err(Halt::Visitor(error))) == (Outcome::<V::Fault>::Refused {
            fault: V::fault(error),
        }),
{
}

} // verus!
