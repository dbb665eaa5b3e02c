//! What is promised of stacks, scans, plans and pages, said outright of layers, rows and windows.

use vstd::prelude::*;

use crate::aftermath::lemma_writes_are_rows;
use crate::catalog::{
    catalog_of, describes, law_the_last_row_of_an_id_describes_its_relation, relation_under,
    CatalogRow, ColType,
};
use crate::codec::{
    be_bytes, identity_of, lemma_key_is_version, validity_of, version_key, Stamp, Validity,
};
use crate::flatten::{page_of, plan_of, writes_of, ConflictView, ItemView};
use crate::laws::deciding::{
    law_a_scan_fails_only_for_cause, law_a_scan_shows_rows_of_the_view, names_a_row, obstructs,
};
use crate::laws::reading::{
    law_a_place_shows_its_layer_through_its_own_window, law_a_stack_shows_what_its_places_show,
    law_the_asserted_value_is_that_of_the_latest_assertion, shown_at,
};
use crate::laws::reporting::{
    is_a_conflict, law_a_page_names_rows_of_the_view,
    law_a_reported_conflict_says_what_the_views_hold,
    law_what_is_written_is_what_is_shown_as_copied,
};
use crate::order::lex_lt;
use crate::scan::{asserted_value, ConflictKind, Failure};
use crate::stack::{Db, LayerRef};

verus! {

/// A stack shows a key exactly if one of its places names a layer, the first of that name in the
/// store, with a row under the key that is stamped inside that place's own window or not at all.
pub proof fn law_a_key_is_in_a_view_through_the_window_of_a_place(
    db: Db,
    stack: Seq<LayerRef>,
    k: Seq<u8>,
)
    requires
        db.wf(),
        db.fault(stack) is None,
    ensures
        db.view_of(stack).contains_key(k) <==> exists|i: int, l: int, j: int|
            #![trigger stack[i], db.layers@[l].rows@[j]]
            {
                &&& 0 <= i < stack.len()
                &&& 0 <= l < db.layers@.len()
                &&& db.layers@[l].name@ == stack[i].name@
                &&& forall|h: int|
                    0 <= h < l ==> (#[trigger] db.layers@[h]).name@ != stack[i].name@
                &&& 0 <= j < db.layers@[l].rows@.len()
                &&& db.layers@[l].rows@[j].key@ == k
                &&& validity_of(k) is Some && stack[i].window.since is Some
                    ==> stack[i].window.since.unwrap() < validity_of(k).unwrap().timestamp
                &&& validity_of(k) is Some && stack[i].window.bound is Some ==> validity_of(
                    k,
                ).unwrap().timestamp <= stack[i].window.bound.unwrap()
            },
{
    law_a_stack_shows_what_its_places_show(db, stack, k);
    if db.view_of(stack).contains_key(k) {
        let (i, l, j) = choose|i: int, l: int, j: int| shown_at(db, stack, k, i, l, j);
        assert(shown_at(db, stack, k, i, l, j));
        assert(stack[i].name@ == db.layers@[l].name@ && db.layers@[l].rows@[j].key@ == k);
    }
    if exists|i: int, l: int, j: int|
        #![trigger stack[i], db.layers@[l].rows@[j]]
        {
            &&& 0 <= i < stack.len()
            &&& 0 <= l < db.layers@.len()
            &&& db.layers@[l].name@ == stack[i].name@
            &&& forall|h: int| 0 <= h < l ==> (#[trigger] db.layers@[h]).name@ != stack[i].name@
            &&& 0 <= j < db.layers@[l].rows@.len()
            &&& db.layers@[l].rows@[j].key@ == k
            &&& validity_of(k) is Some && stack[i].window.since is Some
                ==> stack[i].window.since.unwrap() < validity_of(k).unwrap().timestamp
            &&& validity_of(k) is Some && stack[i].window.bound is Some ==> validity_of(
                k,
            ).unwrap().timestamp <= stack[i].window.bound.unwrap()
        } {
        let (i, l, j) = choose|i: int, l: int, j: int|
            #![trigger stack[i], db.layers@[l].rows@[j]]
            {
                &&& 0 <= i < stack.len()
                &&& 0 <= l < db.layers@.len()
                &&& db.layers@[l].name@ == stack[i].name@
                &&& forall|h: int|
                    0 <= h < l ==> (#[trigger] db.layers@[h]).name@ != stack[i].name@
                &&& 0 <= j < db.layers@[l].rows@.len()
                &&& db.layers@[l].rows@[j].key@ == k
                &&& validity_of(k) is Some && stack[i].window.since is Some
                    ==> stack[i].window.since.unwrap() < validity_of(k).unwrap().timestamp
                &&& validity_of(k) is Some && stack[i].window.bound is Some ==> validity_of(
                    k,
                ).unwrap().timestamp <= stack[i].window.bound.unwrap()
            };
        assert(shown_at(db, stack, k, i, l, j));
    }
}

/// A version that no place of the stack shows, because every place whose layer has it has a floor
/// that is not below its stamp or a ceiling that is, is not in the view. One that a place shows is.
pub proof fn law_a_window_hides_and_shows_wherever_its_place_stands(
    db: Db,
    stack: Seq<LayerRef>,
    i: int,
    l: int,
    j: int,
)
    requires
        db.wf(),
        db.fault(stack) is None,
        0 <= i < stack.len(),
        0 <= l < db.layers@.len(),
        db.layers@[l].name@ == stack[i].name@,
        forall|h: int| 0 <= h < l ==> (#[trigger] db.layers@[h]).name@ != stack[i].name@,
        0 <= j < db.layers@[l].rows@.len(),
    ensures
        ({
            let key = db.layers@[l].rows@[j].key@;
            let inside = match validity_of(key) {
                None => true,
                Some(v) => {
                    &&& stack[i].window.since is None || stack[i].window.since.unwrap()
                        < v.timestamp
                    &&& stack[i].window.bound is None || v.timestamp
                        <= stack[i].window.bound.unwrap()
                },
            };
            &&& inside ==> db.view_of(stack).contains_key(key)
            &&& inside <==> db.layer_view(stack, i).contains_key(key)
            &&& !inside && (forall|o: int, h: int, r: int|
                #![trigger stack[o], db.layers@[h].rows@[r]]
                0 <= o < stack.len() && o != i && 0 <= h < db.layers@.len() && 0 <= r
                    < db.layers@[h].rows@.len() && db.layers@[h].name@ == stack[o].name@
                    ==> db.layers@[h].rows@[r].key@ != key) ==> !db.view_of(stack).contains_key(key)
        }),
{
    let key = db.layers@[l].rows@[j].key@;
    law_a_stack_shows_what_its_places_show(db, stack, key);
    law_a_place_shows_its_layer_through_its_own_window(db, stack, key, i);
    let inside = match validity_of(key) {
        None => true,
        Some(v) => {
            &&& stack[i].window.since is None || stack[i].window.since.unwrap() < v.timestamp
            &&& stack[i].window.bound is None || v.timestamp <= stack[i].window.bound.unwrap()
        },
    };
    if inside {
        assert(shown_at(db, stack, key, i, l, j));
    } else if db.view_of(stack).contains_key(key) {
        let (o, h, r) = choose|o: int, h: int, r: int| shown_at(db, stack, key, o, h, r);
        assert(shown_at(db, stack, key, o, h, r));
        assert(stack[o].name@ == db.layers@[h].name@ && db.layers@[h].rows@[r].key@ == key);
    }
    if db.layer_view(stack, i).contains_key(key) {
        let (h, r) = choose|h: int, r: int| shown_at(db, stack, key, i, h, r);
        assert(shown_at(db, stack, key, i, h, r));
    }
}

/// A scan fails over a relation without a validity only if the layer at the top of the source has a
/// row of that very relation, stamped inside the window that the source sees it through; and over a
/// row without a validity only if some layer of the source shows such a row of that very relation.
pub proof fn law_a_scan_fails_over_a_row_of_the_relation_it_names(
    db: Db,
    src: Seq<LayerRef>,
    dst: Seq<LayerRef>,
)
    requires
        db.wf(),
        db.fault(src) is None,
    ensures
        db.trace(src, dst, None).failure matches Some(Failure::Plain { relation }) ==> exists|
            id: u64,
            l: int,
            j: int,
        |
            #![trigger db.relations@.contains_key(id), db.layers@[l].rows@[j]]
            {
                let key = db.layers@[l].rows@[j].key@;
                &&& db.relations@.contains_key(id)
                &&& db.relations@[id].name@ == relation
                &&& !db.relations@[id].is_index
                &&& !db.relations@[id].stackable
                &&& 0 <= l < db.layers@.len()
                &&& db.layers@[l].name@ == src[0].name@
                &&& 0 <= j < db.layers@[l].rows@.len()
                &&& validity_of(key) is Some && src[0].window.since is Some
                    ==> src[0].window.since.unwrap() < validity_of(key).unwrap().timestamp
                &&& validity_of(key) is Some && src[0].window.bound is Some ==> validity_of(
                    key,
                ).unwrap().timestamp <= src[0].window.bound.unwrap()
                &&& !lex_lt(key, be_bytes(id as nat, 8))
                &&& lex_lt(key, be_bytes((id + 1) as nat, 8))
                &&& key.len() >= 8 ==> relation_under(key) == Some(id)
            },
        db.trace(src, dst, None).failure matches Some(Failure::Unversioned { relation }) ==> exists|
            id: u64,
            i: int,
            l: int,
            j: int,
        |
            #![trigger db.relations@.contains_key(id), src[i], db.layers@[l].rows@[j]]
            {
                let key = db.layers@[l].rows@[j].key@;
                &&& db.relations@.contains_key(id)
                &&& db.relations@[id].name@ == relation
                &&& !db.relations@[id].is_index
                &&& db.relations@[id].stackable
                &&& 0 <= i < src.len()
                &&& 0 <= l < db.layers@.len()
                &&& db.layers@[l].name@ == src[i].name@
                &&& 0 <= j < db.layers@[l].rows@.len()
                &&& validity_of(key) is None
                &&& !lex_lt(key, be_bytes(id as nat, 8))
                &&& lex_lt(key, be_bytes((id + 1) as nat, 8))
                &&& key.len() >= 8 ==> relation_under(key) == Some(id)
            },
{
    law_a_scan_fails_only_for_cause(db, src, dst);
    if let Some(f) = db.trace(src, dst, None).failure {
        let (id, key) = choose|id: u64, key: Seq<u8>|
            {
                &&& #[trigger] obstructs(db, src, id, key)
                &&& forall|other: u64, k: Seq<u8>| #[trigger]
                    obstructs(db, src, other, k) ==> id <= other
                &&& f == if db.relations@[id].stackable {
                    Failure::Unversioned { relation: db.relations@[id].name@ }
                } else {
                    Failure::Plain { relation: db.relations@[id].name@ }
                }
            };
        if db.relations@[id].stackable {
            law_a_stack_shows_what_its_places_show(db, src, key);
            let (i, l, j) = choose|i: int, l: int, j: int| shown_at(db, src, key, i, l, j);
            assert(shown_at(db, src, key, i, l, j));
            assert(src[i].name@ == db.layers@[l].name@ && db.layers@[l].rows@[j].key@ == key);
        } else {
            law_a_place_shows_its_layer_through_its_own_window(db, src, key, 0);
            let (l, j) = choose|l: int, j: int| shown_at(db, src, key, 0, l, j);
            assert(shown_at(db, src, key, 0, l, j));
            assert(db.layers@[l].rows@[j].key@ == key);
        }
    }
}

/// A scan does not fail where the layers that the source names have no row of a relation without a
/// validity that is no index, and no row without a validity of one that has one and is no index.
pub proof fn law_a_scan_does_not_fail_without_cause(db: Db, src: Seq<LayerRef>, dst: Seq<LayerRef>)
    requires
        db.wf(),
        db.fault(src) is None,
        forall|id: u64, i: int, l: int, j: int|
            #![trigger db.relations@.contains_key(id), src[i], db.layers@[l].rows@[j]]
            db.relations@.contains_key(id) && !db.relations@[id].is_index && 0 <= i < src.len() && 0
                <= l < db.layers@.len() && db.layers@[l].name@ == src[i].name@ && 0 <= j
                < db.layers@[l].rows@.len() && !lex_lt(
                db.layers@[l].rows@[j].key@,
                be_bytes(id as nat, 8),
            ) && lex_lt(db.layers@[l].rows@[j].key@, be_bytes((id + 1) as nat, 8)) ==> {
                &&& db.relations@[id].stackable ==> validity_of(db.layers@[l].rows@[j].key@) is Some
                &&& !db.relations@[id].stackable ==> i > 0
            },
    ensures
        db.trace(src, dst, None).failure is None,
{
    law_a_scan_fails_only_for_cause(db, src, dst);
    assert forall|id: u64, key: Seq<u8>| !obstructs(db, src, id, key) by {
        if obstructs(db, src, id, key) {
            if db.relations@[id].stackable {
                law_a_stack_shows_what_its_places_show(db, src, key);
                let (i, l, j) = choose|i: int, l: int, j: int| shown_at(db, src, key, i, l, j);
                assert(shown_at(db, src, key, i, l, j));
                assert(src[i].name@ == db.layers@[l].name@ && db.layers@[l].rows@[j].key@ == key);
            } else {
                law_a_place_shows_its_layer_through_its_own_window(db, src, key, 0);
                let (l, j) = choose|l: int, j: int| shown_at(db, src, key, 0, l, j);
                assert(shown_at(db, src, key, 0, l, j));
                assert(src[0].name@ == db.layers@[l].name@ && db.layers@[l].rows@[j].key@ == key);
            }
        }
    }
}

/// A reported conflict has coming in what the source view's latest assertion of its identity carries.
/// If its kind is that of the source, what is there is what another assertion in the view carries,
/// the latest that carries something else; and if it is that of the destination, it is what the
/// latest assertion in the destination carries. Its key is that of the identity's latest version in
/// the view, and its relation the one that the key opens with the id of.
pub proof fn law_which_value_of_a_reported_conflict_is_which(
    db: Db,
    src: Seq<LayerRef>,
    dst: Seq<LayerRef>,
    n: int,
)
    requires
        db.wf(),
        db.reads_regular(src),
        0 <= n < plan_of(db.trace(src, dst, None).rows).conflicts.len(),
    ensures
        ({
            let c = plan_of(db.trace(src, dst, None).rows).conflicts[n];
            let m = db.view_of(src);
            let held = db.view_of(dst);
            let id = identity_of(c.key);
            &&& m.contains_key(c.key)
            &&& validity_of(c.key) is Some
            &&& forall|w: Validity| #[trigger]
                m.contains_key(version_key(id, w)) ==> w.timestamp <= validity_of(
                    c.key,
                ).unwrap().timestamp
            &&& exists|r: u64| #[trigger]
                db.relations@.contains_key(r) && relation_under(c.key) == Some(r) && c.relation
                    == db.relations@[r].name@
            &&& exists|a: Validity|
                {
                    &&& #[trigger] m.contains_key(version_key(id, a))
                    &&& a.is_assert
                    &&& m[version_key(id, a)] == c.incoming
                    &&& forall|w: Validity| #[trigger]
                        m.contains_key(version_key(id, w)) && w.is_assert ==> w.timestamp
                            <= a.timestamp
                }
            &&& c.existing != c.incoming
            &&& c.kind == ConflictKind::Source ==> exists|b: Validity|
                {
                    &&& #[trigger] m.contains_key(version_key(id, b))
                    &&& b.is_assert
                    &&& m[version_key(id, b)] == c.existing
                    &&& forall|w: Validity| #[trigger]
                        m.contains_key(version_key(id, w)) && w.is_assert && m[version_key(id, w)]
                            != c.incoming ==> w.timestamp <= b.timestamp
                }
            &&& c.kind == ConflictKind::Destination ==> exists|b: Validity|
                {
                    &&& #[trigger] held.contains_key(version_key(id, b))
                    &&& b.is_assert
                    &&& held[version_key(id, b)] == c.existing
                    &&& forall|w: Validity| #[trigger]
                        held.contains_key(version_key(id, w)) && w.is_assert ==> w.timestamp
                            <= b.timestamp
                }
        }),
{
    let c = plan_of(db.trace(src, dst, None).rows).conflicts[n];
    law_a_reported_conflict_says_what_the_views_hold(db, src, dst, n);
    lemma_conflict_outright(db, src, dst, c);
}

proof fn lemma_conflict_outright(db: Db, src: Seq<LayerRef>, dst: Seq<LayerRef>, c: ConflictView)
    requires
        is_a_conflict(db, src, dst, c),
    ensures
        ({
            let m = db.view_of(src);
            let held = db.view_of(dst);
            let id = identity_of(c.key);
            &&& exists|a: Validity|
                {
                    &&& #[trigger] m.contains_key(version_key(id, a))
                    &&& a.is_assert
                    &&& m[version_key(id, a)] == c.incoming
                    &&& forall|w: Validity| #[trigger]
                        m.contains_key(version_key(id, w)) && w.is_assert ==> w.timestamp
                            <= a.timestamp
                }
            &&& c.existing != c.incoming
            &&& c.kind == ConflictKind::Source ==> exists|b: Validity|
                {
                    &&& #[trigger] m.contains_key(version_key(id, b))
                    &&& b.is_assert
                    &&& m[version_key(id, b)] == c.existing
                    &&& forall|w: Validity| #[trigger]
                        m.contains_key(version_key(id, w)) && w.is_assert && m[version_key(id, w)]
                            != c.incoming ==> w.timestamp <= b.timestamp
                }
            &&& c.kind == ConflictKind::Destination ==> exists|b: Validity|
                {
                    &&& #[trigger] held.contains_key(version_key(id, b))
                    &&& b.is_assert
                    &&& held[version_key(id, b)] == c.existing
                    &&& forall|w: Validity| #[trigger]
                        held.contains_key(version_key(id, w)) && w.is_assert ==> w.timestamp
                            <= b.timestamp
                }
        }),
{
    let m = db.view_of(src);
    let held = db.view_of(dst);
    let id = identity_of(c.key);
    db.lemma_view_finite(src);
    db.lemma_view_finite(dst);
    lemma_key_is_version(c.key);
    law_the_asserted_value_is_that_of_the_latest_assertion(m, id);
    law_the_asserted_value_is_that_of_the_latest_assertion(held, id);
    assert(asserted_value(m, id) == Some(c.incoming));
    if c.kind == ConflictKind::Destination {
        assert(asserted_value(held, id) == Some(c.existing));
    }
}

/// A page that is asked for names rows of the source view as they are: a row to copy by its key and
/// its value, with the flag that it has in the view; one to skip, which asserts; and one to drop, which
/// retracts. Each names the relation that its key opens with the id of.
pub proof fn law_an_item_of_a_page_names_a_row_as_it_is(
    db: Db,
    src: Seq<LayerRef>,
    dst: Seq<LayerRef>,
    after: Option<Seq<u8>>,
    limit: nat,
    i: int,
)
    requires
        db.wf(),
        page_of(db.trace(src, dst, after), after, limit) is Some,
        0 <= i < page_of(db.trace(src, dst, after), after, limit).unwrap().items.len(),
    ensures
        match page_of(db.trace(src, dst, after), after, limit).unwrap().items[i] {
            ItemView::Copy { relation, key, value } => {
                &&& db.view_of(src).contains_key(key)
                &&& value == db.view_of(src)[key]
                &&& validity_of(key) is Some
                &&& exists|r: u64| #[trigger]
                    db.relations@.contains_key(r) && relation_under(key) == Some(r) && relation
                        == db.relations@[r].name@
            },
            ItemView::Dedupe { relation, key } => {
                &&& db.view_of(src).contains_key(key)
                &&& validity_of(key) matches Some(v) && v.is_assert
                &&& exists|r: u64| #[trigger]
                    db.relations@.contains_key(r) && relation_under(key) == Some(r) && relation
                        == db.relations@[r].name@
            },
            ItemView::TombstoneDropped { relation, key } => {
                &&& db.view_of(src).contains_key(key)
                &&& validity_of(key) matches Some(v) && !v.is_assert
                &&& exists|r: u64| #[trigger]
                    db.relations@.contains_key(r) && relation_under(key) == Some(r) && relation
                        == db.relations@[r].name@
            },
            ItemView::Conflict(c) => {
                &&& db.view_of(src).contains_key(c.key)
                &&& validity_of(c.key) is Some
                &&& exists|r: u64| #[trigger]
                    db.relations@.contains_key(r) && relation_under(c.key) == Some(r) && c.relation
                        == db.relations@[r].name@
            },
        },
{
    law_a_page_names_rows_of_the_view(db, src, dst, after, limit, i);
}

/// What a page shows as copied is what the flatten writes: on a page of everything, the copies are the
/// rows that a flatten that keeps the stamps writes, in order, and each is a row of the source view.
pub proof fn law_the_copies_on_a_page_are_what_is_written(
    db: Db,
    src: Seq<LayerRef>,
    dst: Seq<LayerRef>,
    limit: nat,
    stamp: Stamp,
    w: int,
)
    requires
        db.wf(),
        db.trace(src, dst, None).failure is None,
        limit > db.trace(src, dst, None).rows.len(),
    ensures
        ({
            let writes = writes_of(db.trace(src, dst, None).rows, false, stamp);
            &&& page_of(db.trace(src, dst, None), None, limit) matches Some(p)
            &&& p.items.filter(|i: ItemView| i is Copy).map_values(
                |i: ItemView| (i->Copy_key, i->value),
            ) == writes
            &&& 0 <= w < writes.len() ==> db.view_of(src).contains_key(writes[w].0)
                && db.view_of(src)[writes[w].0] == writes[w].1
        }),
{
    let rows = db.trace(src, dst, None).rows;
    law_what_is_written_is_what_is_shown_as_copied(rows, stamp);
    let writes = writes_of(rows, false, stamp);
    if 0 <= w < writes.len() {
        let r = lemma_writes_are_rows(rows, false, stamp, w);
        law_a_scan_shows_rows_of_the_view(db, src, dst, None);
        assert(names_a_row(db, src, rows[r]));
    }
}

/// The catalog has a relation under an id exactly if one of its rows, between its bounds, holds one with
/// that id. The last of those says what it is: what it is called, how many key columns it has, that it
/// is stackable if the last of those is a validity, and that it is an index if its name has a colon.
pub proof fn law_the_catalog_goes_by_the_last_row_of_an_id(
    rows: Seq<CatalogRow>,
    lower: Seq<u8>,
    upper: Seq<u8>,
    i: int,
    id: u64,
)
    ensures
        ({
            let m = catalog_of(rows, lower, upper, rows.len() as int);
            &&& m.contains_key(id) <==> exists|j: int|
                {
                    &&& 0 <= j < rows.len()
                    &&& !lex_lt((#[trigger] rows[j]).key@, lower)
                    &&& lex_lt(rows[j].key@, upper)
                    &&& rows[j].handle is Some
                    &&& rows[j].handle.unwrap().id.0 == id
                }
            &&& 0 <= i < rows.len() && !lex_lt(rows[i].key@, lower) && lex_lt(rows[i].key@, upper)
                && rows[i].handle is Some && rows[i].handle.unwrap().id.0 == id && (forall|j: int|
                i < j < rows.len() && !lex_lt((#[trigger] rows[j]).key@, lower) && lex_lt(
                    rows[j].key@,
                    upper,
                ) && rows[j].handle is Some ==> rows[j].handle.unwrap().id.0 != id) ==> {
                let h = rows[i].handle.unwrap();
                &&& m[id].id == id
                &&& m[id].name == h.name@
                &&& m[id].n_keys == h.keys@.len()
                &&& m[id].stackable <==> h.keys@.len() > 0 && h.keys@[h.keys@.len() - 1]
                    == ColType::Validity
                &&& m[id].is_index <==> exists|c: int| 0 <= c < h.name@.len() && h.name@[c] == ':'
            }
        }),
{
    let n = rows.len() as int;
    law_the_last_row_of_an_id_describes_its_relation(rows, lower, upper, n, id);
    if exists|j: int|
        {
            &&& 0 <= j < rows.len()
            &&& !lex_lt((#[trigger] rows[j]).key@, lower)
            &&& lex_lt(rows[j].key@, upper)
            &&& rows[j].handle is Some
            &&& rows[j].handle.unwrap().id.0 == id
        } {
        let j = choose|j: int|
            {
                &&& 0 <= j < rows.len()
                &&& !lex_lt((#[trigger] rows[j]).key@, lower)
                &&& lex_lt(rows[j].key@, upper)
                &&& rows[j].handle is Some
                &&& rows[j].handle.unwrap().id.0 == id
            };
        assert(describes(rows, lower, upper, j, id));
    }
    if exists|j: int| j < n && describes(rows, lower, upper, j, id) {
        let j = choose|j: int| j < n && describes(rows, lower, upper, j, id);
        assert(rows[j].handle is Some);
    }
    if 0 <= i < rows.len() && !lex_lt(rows[i].key@, lower) && lex_lt(rows[i].key@, upper)
        && rows[i].handle is Some && rows[i].handle.unwrap().id.0 == id && (forall|j: int|
        i < j < rows.len() && !lex_lt((#[trigger] rows[j]).key@, lower) && lex_lt(
            rows[j].key@,
            upper,
        ) && rows[j].handle is Some ==> rows[j].handle.unwrap().id.0 != id) {
        assert(describes(rows, lower, upper, i, id));
        assert forall|j: int| i < j < n implies !describes(rows, lower, upper, j, id) by {
            if describes(rows, lower, upper, j, id) {
                assert(rows[j].handle.unwrap().id.0 != id);
            }
        }
    }
}

} // verus!
