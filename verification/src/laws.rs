//! What holds of the store as a whole, over several calls and in every state.

pub mod deciding;
pub mod flattening;
pub mod layout;
pub mod outright;
pub mod reading;
pub mod reporting;
pub mod runs;
pub mod wording;

use vstd::prelude::*;

use crate::aftermath::{
    agree, lemma_destination_at, lemma_destination_elsewhere, lemma_fault_after,
    lemma_flattened_names, lemma_insert_newest, lemma_key_untouched, lemma_net_live,
    lemma_same_versions, lemma_through, lemma_writes_are_rows, lemma_writes_elsewhere,
    lemma_written_elsewhere, lemma_written_key, prevails, through,
};
use crate::catalog::{lemma_id_listed, lemma_listed_by_id, rel_views, relation_under, RelView};
use crate::codec::{
    be_value, identity_of, lemma_be_order, lemma_be_value_word, lemma_be_word,
    lemma_key_is_version, lemma_newest_first, lemma_version_has_prefix, lemma_version_key, newer,
    validity_of, version_key, ID_LEN, Stamp, VALIDITY_TAG, Validity,
};
use crate::content::{
    ascending, below, between, first_holder, lemma_ascending, lemma_ascending_empty,
    lemma_between_finite, lemma_overlay_keys, lemma_overlay_value, overlay,
};
use crate::flatten::{
    clashes, flattened, item_of, items_of, lemma_restamped_len, page_of, plan_of, plan_view,
    reports, writes_of, written, written_key, ConflictView, FlattenPlan, FlattenStats, ItemView,
    PageView, Refusal,
};
use crate::frontier::{in_force, law_a_frontier_scan_shows_what_is_in_force, lemma_in_force_agrees};
use crate::iter::{admitted, frontier_next, shows, stands_at, windowed, Window};
use crate::keys::{lemma_regular_subset, lemma_regular_writes, lemma_view_is_stored, write_keys};
use crate::layer::{Content, Layer};
use crate::net::{
    about, is_newest_dissent, lemma_dissent_found, lemma_relation_keys, lemma_resolution_is_net,
    lemma_resume_below, lemma_scan_all_resume, lemma_scan_all_tells, lemma_tells_order,
    lemma_tells_row, net, newest, of_relations, rels_by_id, taken, takes, tells, told,
    versions_of,
};
use crate::order::{
    lemma_lt_asymmetric, lemma_lt_le, lemma_lt_total, lemma_prefix_range, lex_le, lex_lt,
    splits_at,
};
use crate::scan::{
    asserted_value, decided, feed, has_version, is_newest, is_newest_assertion, lemma_feed_append,
    lemma_newest_unique, lemma_run_len, live, relation_lower, relation_upper, resolution, run_len,
    scan_all, scan_relation, scan_rows, ConflictKind, Effect, Failure, Kv, Outcome, Resolution,
    Trace, Visitor,
};
use crate::stack::{has_layer, is_layer, layer_index, Db, LayerRef};

verus! {

proof fn lemma_rel_views_by_id(db: Db)
    requires
        db.wf(),
    ensures
        rels_by_id(rel_views(db.relations@)),
{
    lemma_listed_by_id(db.relations@);
}

/// What a scan of the source view tells.
proof fn lemma_trace_tells(db: Db, src: Seq<LayerRef>, dst: Seq<LayerRef>)
    requires
        db.wf(),
        db.reads_regular(src),
    ensures
        tells(db.trace(src, dst, None).rows, db.view_of(src), db.view_of(dst)),
        of_relations(db.trace(src, dst, None).rows, rel_views(db.relations@)),
        db.trace(src, dst, None).failure is None ==> forall|k: Seq<u8>|
            db.view_of(src).contains_key(k) && #[trigger] taken(rel_views(db.relations@), k)
                ==> validity_of(k) is Some && told(
                db.trace(src, dst, None).rows,
                identity_of(k),
            ),
{
    let m = db.view_of(src);
    db.lemma_view_finite(src);
    lemma_rel_views_by_id(db);
    lemma_scan_all_tells(
        rel_views(db.relations@),
        m,
        db.layer_view(src, 0),
        db.view_of(dst),
    );
}

/// Each identity of the source view that a flatten takes in is decided once, in key order, under
/// the key of its newest version: by that version, its newest assertion and whether its assertions
/// disagree, against the whole destination stack. Nothing else is decided.
pub proof fn law_each_identity_is_decided_once(db: Db, src: Seq<LayerRef>, dst: Seq<LayerRef>)
    requires
        db.wf(),
        db.reads_regular(src),
    ensures
        forall|i: int|
            0 <= i < db.trace(src, dst, None).rows.len() ==> {
                let row = #[trigger] db.trace(src, dst, None).rows[i];
                let identity = about(row);
                &&& is_newest(db.view_of(src), identity, newest(db.view_of(src), identity))
                &&& row.1.key() == version_key(identity, newest(db.view_of(src), identity))
                &&& row.1 == decided(net(db.view_of(src), identity), db.view_of(dst))
                &&& rel_views(db.relations@).contains(row.0)
                &&& takes(row.0, row.1.key())
            },
        forall|i: int, j: int|
            0 <= i < j < db.trace(src, dst, None).rows.len() ==> {
                &&& lex_lt(
                    (#[trigger] db.trace(src, dst, None).rows[i]).1.key(),
                    (#[trigger] db.trace(src, dst, None).rows[j]).1.key(),
                )
                &&& about(db.trace(src, dst, None).rows[i]) != about(
                    db.trace(src, dst, None).rows[j],
                )
            },
        db.trace(src, dst, None).failure is None ==> forall|k: Seq<u8>|
            db.view_of(src).contains_key(k) && #[trigger] taken(rel_views(db.relations@), k)
                ==> validity_of(k) is Some && told(
                db.trace(src, dst, None).rows,
                identity_of(k),
            ),
{
    let rows = db.trace(src, dst, None).rows;
    lemma_trace_tells(db, src, dst);
    assert forall|i: int| 0 <= i < rows.len() implies {
        let row = #[trigger] rows[i];
        let identity = about(row);
        &&& is_newest(db.view_of(src), identity, newest(db.view_of(src), identity))
        &&& row.1.key() == version_key(identity, newest(db.view_of(src), identity))
        &&& row.1 == decided(net(db.view_of(src), identity), db.view_of(dst))
        &&& rel_views(db.relations@).contains(row.0)
        &&& takes(row.0, row.1.key())
    } by {
        lemma_tells_row(rows, db.view_of(src), db.view_of(dst), i);
    }
    assert forall|i: int, j: int| 0 <= i < j < rows.len() implies {
        &&& lex_lt((#[trigger] rows[i]).1.key(), (#[trigger] rows[j]).1.key())
        &&& about(rows[i]) != about(rows[j])
    } by {
        lemma_tells_order(rows, db.view_of(src), db.view_of(dst), i, j);
    }
}

/// Where a scan that has shown the first `shown` rows resumes.
pub open spec fn resume_point(t: Trace, shown: int) -> Option<Seq<u8>> {
    if shown == 0 {
        None
    } else {
        Some(t.rows[shown - 1].1.key())
    }
}

/// A scan resumed after one of its rows sees exactly the rows after that one, with the same
/// effects, and ends as the scan did: nothing is lost, nothing is repeated, and no identity comes
/// again at an older version.
pub proof fn law_a_scan_resumes_where_it_stopped(
    db: Db,
    src: Seq<LayerRef>,
    dst: Seq<LayerRef>,
    shown: int,
)
    requires
        db.wf(),
        db.reads_regular(src),
        0 <= shown <= db.trace(src, dst, None).rows.len(),
    ensures
        db.trace(src, dst, resume_point(db.trace(src, dst, None), shown)) == (Trace {
            rows: db.trace(src, dst, None).rows.skip(shown),
            failure: db.trace(src, dst, None).failure,
        }),
{
    let t = db.trace(src, dst, None);
    if shown > 0 {
        db.lemma_view_finite(src);
        lemma_rel_views_by_id(db);
        lemma_scan_all_resume(
            rel_views(db.relations@),
            db.view_of(src),
            db.layer_view(src, 0),
            db.view_of(dst),
            shown - 1,
        );
    } else {
        assert(t.rows.skip(0) =~= t.rows);
    }
}

/// A page that asks for no row skips none: what it names to resume from is where it began.
pub proof fn law_a_page_that_asks_for_nothing_skips_nothing(
    db: Db,
    src: Seq<LayerRef>,
    dst: Seq<LayerRef>,
    after: Option<Seq<u8>>,
)
    requires
        db.wf(),
        db.trace(src, dst, after).rows.len() > 0,
    ensures
        page_of(db.trace(src, dst, after), after, 0) matches Some(p) && p.items.len() == 0
            && p.next is Some && db.trace(src, dst, p.next) == db.trace(src, dst, after),
{
    if after is None {
        lemma_empty_cursor(db, src, dst);
    }
}

/// An empty cursor starts at the first key.
proof fn lemma_empty_cursor(db: Db, src: Seq<LayerRef>, dst: Seq<LayerRef>)
    requires
        db.wf(),
    ensures
        db.trace(src, dst, Some(Seq::empty())) == db.trace(src, dst, None),
{
    let rels = rel_views(db.relations@);
    lemma_rel_views_by_id(db);
    assert forall|j: int| 0 <= j < rels.len() implies lex_lt(
        Seq::empty(),
        relation_lower(#[trigger] rels[j]),
    ) by {
        lemma_be_word(rels[j].id as nat);
        assert(splits_at(Seq::empty(), relation_lower(rels[j]), 0));
    }
    lemma_resume_below(
        rels,
        db.view_of(src),
        db.layer_view(src, 0),
        db.view_of(dst),
        Seq::empty(),
    );
}

/// A page resumed where the rows before it ended holds the next rows, as many as it asks for, and
/// names the last of them to resume from; one that asks for none names where it began. A page
/// meets the failure of the scan, if it ends in one, where the scan does.
pub proof fn law_pages_cover_the_scan(
    db: Db,
    src: Seq<LayerRef>,
    dst: Seq<LayerRef>,
    shown: int,
    limit: nat,
)
    requires
        db.wf(),
        db.reads_regular(src),
        0 <= shown <= db.trace(src, dst, None).rows.len(),
    ensures
        ({
            let t = db.trace(src, dst, None);
            let after = resume_point(t, shown);
            page_of(db.trace(src, dst, after), after, limit) == if shown < t.rows.len() && shown
                + limit <= t.rows.len() {
                Some(
                    PageView {
                        items: items_of(t.rows.subrange(shown, shown + limit)),
                        next: if limit > 0 {
                            Some(t.rows[shown + limit - 1].1.key())
                        } else if shown > 0 {
                            after
                        } else {
                            Some(Seq::empty())
                        },
                    },
                )
            } else if t.failure is Some {
                None
            } else {
                Some(
                    PageView {
                        items: items_of(t.rows.subrange(shown, t.rows.len() as int)),
                        next: None,
                    },
                )
            }
        }),
{
    let t = db.trace(src, dst, None);
    let rest = t.rows.skip(shown);
    law_a_scan_resumes_where_it_stopped(db, src, dst, shown);
    if shown < t.rows.len() && shown + limit <= t.rows.len() {
        assert(rest.take(limit as int) =~= t.rows.subrange(shown, shown + limit));
        if limit == 0 {
            assert(items_of(t.rows.subrange(shown, shown + limit)) =~= Seq::<ItemView>::empty());
        }
    } else {
        assert(rest =~= t.rows.subrange(shown, t.rows.len() as int));
    }
}

/// The items of pages taken one after another, each resumed from the one before, until one says
/// that the scan is at its end; `None` if none of them does.
pub open spec fn paged(
    db: Db,
    src: Seq<LayerRef>,
    dst: Seq<LayerRef>,
    after: Option<Seq<u8>>,
    limits: Seq<nat>,
) -> Option<Seq<ItemView>>
    decreases limits.len(),
{
    if limits.len() == 0 {
        None
    } else {
        match page_of(db.trace(src, dst, after), after, limits[0]) {
            None => None,
            Some(page) => match page.next {
                None => Some(page.items),
                Some(next) => match paged(db, src, dst, Some(next), limits.drop_first()) {
                    None => None,
                    Some(items) => Some(page.items + items),
                },
            },
        }
    }
}

/// How many of the pages ask for a row.
pub open spec fn asking(limits: Seq<nat>) -> nat
    decreases limits.len(),
{
    if limits.len() == 0 {
        0
    } else {
        asking(limits.drop_first()) + if limits[0] > 0 {
            1nat
        } else {
            0
        }
    }
}

/// Pages taken from an empty cursor are those taken from none.
proof fn lemma_paged_from_empty(
    db: Db,
    src: Seq<LayerRef>,
    dst: Seq<LayerRef>,
    limits: Seq<nat>,
)
    requires
        db.wf(),
    ensures
        paged(db, src, dst, Some(Seq::empty()), limits) == paged(db, src, dst, None, limits),
{
    lemma_empty_cursor(db, src, dst);
}

/// Whatever the limits of the pages, they come to an end once one more of them has asked for a row
/// than there are rows left, and hold together what one page of everything holds. Pages that ask
/// for nothing in between change nothing.
pub proof fn law_pages_together_are_one_page(
    db: Db,
    src: Seq<LayerRef>,
    dst: Seq<LayerRef>,
    shown: int,
    limits: Seq<nat>,
    all: nat,
)
    requires
        db.wf(),
        db.reads_regular(src),
        db.trace(src, dst, None).failure is None,
        0 <= shown <= db.trace(src, dst, None).rows.len(),
        asking(limits) > db.trace(src, dst, None).rows.len() - shown,
        all > db.trace(src, dst, None).rows.len() - shown,
    ensures
        ({
            let t = db.trace(src, dst, None);
            let after = resume_point(t, shown);
            let page = page_of(db.trace(src, dst, after), after, all);
            &&& paged(db, src, dst, after, limits) == Some(items_of(t.rows.skip(shown)))
            &&& page == Some(PageView { items: items_of(t.rows.skip(shown)), next: None })
        }),
    decreases limits.len(),
{
    let t = db.trace(src, dst, None);
    let n = t.rows.len() as int;
    let limit = limits[0];
    law_pages_cover_the_scan(db, src, dst, shown, all);
    law_pages_cover_the_scan(db, src, dst, shown, limit);
    assert(t.rows.subrange(shown, n) =~= t.rows.skip(shown));
    if shown < n && shown + limit <= n {
        let rest = limits.drop_first();
        lemma_paged_from_empty(db, src, dst, rest);
        law_pages_together_are_one_page(db, src, dst, shown + limit, rest, all);
        assert(items_of(t.rows.subrange(shown, shown + limit)) + items_of(
            t.rows.skip(shown + limit),
        ) =~= items_of(t.rows.skip(shown)));
    }
}

/// How many of the items are copies.
pub open spec fn copies_in(items: Seq<ItemView>) -> nat {
    items.filter(|i: ItemView| i is Copy).len()
}

/// How many of the items are duplicates.
pub open spec fn dedupes_in(items: Seq<ItemView>) -> nat {
    items.filter(|i: ItemView| i is Dedupe).len()
}

/// How many of the items are dropped tombstones.
pub open spec fn drops_in(items: Seq<ItemView>) -> nat {
    items.filter(|i: ItemView| i is TombstoneDropped).len()
}

/// The conflicts among the items, in order.
pub open spec fn conflicts_in(items: Seq<ItemView>) -> Seq<ConflictView> {
    items.filter(|i: ItemView| i is Conflict).map_values(|i: ItemView| i->Conflict_0)
}

/// One page of everything says what the plan says: as many copies, duplicates and dropped
/// tombstones, and the same conflicts.
pub proof fn law_one_page_of_everything_is_the_plan(
    db: Db,
    src: Seq<LayerRef>,
    dst: Seq<LayerRef>,
    limit: nat,
)
    requires
        db.trace(src, dst, None).failure is None,
        limit > db.trace(src, dst, None).rows.len(),
    ensures
        page_of(db.trace(src, dst, None), None, limit) matches Some(p) && p.next is None
            && copies_in(p.items) == plan_of(db.trace(src, dst, None).rows).rows_copied
            && dedupes_in(p.items) == plan_of(db.trace(src, dst, None).rows).rows_deduped
            && drops_in(p.items) == plan_of(db.trace(src, dst, None).rows).tombstones_dropped
            && conflicts_in(p.items) == plan_of(db.trace(src, dst, None).rows).conflicts,
{
    lemma_items_are_the_plan(db.trace(src, dst, None).rows);
}

proof fn lemma_items_are_the_plan(rows: Seq<(RelView, Effect)>)
    ensures
        copies_in(items_of(rows)) == plan_of(rows).rows_copied,
        dedupes_in(items_of(rows)) == plan_of(rows).rows_deduped,
        drops_in(items_of(rows)) == plan_of(rows).tombstones_dropped,
        conflicts_in(items_of(rows)) == plan_of(rows).conflicts,
    decreases rows.len(),
{
    reveal(Seq::filter);
    let items = items_of(rows);
    if rows.len() == 0 {
        assert(conflicts_in(items) =~= plan_of(rows).conflicts);
    } else {
        let front = rows.drop_last();
        lemma_items_are_the_plan(front);
        assert(items.drop_last() =~= items_of(front));
        assert(items.last() == item_of(rows.last().0, rows.last().1));
        assert(conflicts_in(items) =~= plan_of(rows).conflicts);
    }
}

/// A plan foretells the flatten: the flatten goes through exactly if the plan can be made and has
/// no conflict. Otherwise it is refused as the plan is, or reports the plan's conflicts, all of
/// them.
pub proof fn law_a_plan_foretells_the_flatten(db: Db, src: Seq<LayerRef>, dst: Seq<LayerRef>)
    ensures
        db.refusal(src, dst) is None <==> db.unplannable(src, dst) is None && plan_of(
            db.trace(src, dst, None).rows,
        ).conflicts.len() == 0,
        db.unplannable(src, dst) is Some ==> db.refusal(src, dst) == db.unplannable(src, dst),
        db.unplannable(src, dst) is None && db.refusal(src, dst) is Some ==> db.refusal(src, dst)
            == Some(Refusal::Conflicts(plan_of(db.trace(src, dst, None).rows).conflicts)),
{
}

/// A flatten that goes through reports the counts of its plan, and the plan is clean. It names the
/// sequences that it occupies exactly if it stamped its rows anew.
pub proof fn law_a_flatten_reports_what_its_plan_counts(
    db: Db,
    src: Seq<LayerRef>,
    dst: Seq<LayerRef>,
    plan: FlattenPlan,
    stats: FlattenStats,
    restamp: bool,
    stamp: Stamp,
)
    requires
        plan@ == plan_of(db.trace(src, dst, None).rows),
        reports(stats, plan_of(db.trace(src, dst, None).rows), restamp, stamp),
    ensures
        stats.rows_copied == plan.stats.rows_copied,
        stats.bytes_copied == plan.stats.bytes_copied,
        stats.rows_deduped == plan.stats.rows_deduped,
        stats.tombstones_dropped == plan.stats.tombstones_dropped,
        plan.conflicts@.len() == 0,
        stats.seq_range is Some <==> restamp,
{
    assert(plan_view(stats, Seq::empty()) == plan@);
    assert(plan@.conflicts.len() == plan.conflicts@.len());
    assert(plan_view(stats, Seq::empty()).conflicts.len() == 0);
}

/// A window opens just above its floor and closes on its ceiling.
pub proof fn law_a_window_is_open_below_and_closed_above(since: Stamp, bound: Stamp, key: Seq<u8>)
    requires
        validity_of(key) is Some,
    ensures
        admitted(Window { since: Some(since), bound: Some(bound) }, key) <==> since < validity_of(
            key,
        ).unwrap().timestamp <= bound,
{
}

/// What is at or before a fork and what is since the fork part the versions between them: each is
/// on one side, the one at the fork on the parent's.
pub proof fn law_a_fork_parts_the_versions(fork: Stamp, key: Seq<u8>)
    requires
        validity_of(key) is Some,
    ensures
        admitted(Window { since: None, bound: Some(fork) }, key) != admitted(
            Window { since: Some(fork), bound: None },
            key,
        ),
        admitted(Window { since: None, bound: Some(fork) }, key) <==> validity_of(
            key,
        ).unwrap().timestamp <= fork,
{
}

/// No window excludes a row without a validity.
pub proof fn law_no_window_excludes_a_row_without_a_stamp(window: Window, key: Seq<u8>)
    requires
        validity_of(key) is None,
    ensures
        admitted(window, key),
{
}

/// The keys between a relation's prefix and the next one's are the keys that belong to it.
pub proof fn law_a_relation_is_a_range_of_keys(rel: RelView, key: Seq<u8>)
    requires
        rel.id < u64::MAX,
        key.len() >= ID_LEN,
    ensures
        relation_under(key) == Some(rel.id) <==> !lex_lt(key, relation_lower(rel)) && lex_lt(
            key,
            relation_upper(rel),
        ),
{
    let p = key.take(8);
    lemma_relation_keys(rel, key);
    lemma_be_word(rel.id as nat);
    lemma_be_bytes_unique(p, relation_lower(rel));
    lemma_be_value_word(p);
}

/// Two numbers of one width with one value are the same bytes.
proof fn lemma_be_bytes_unique(a: Seq<u8>, b: Seq<u8>)
    requires
        a.len() == b.len(),
    ensures
        be_value(a) == be_value(b) <==> a == b,
{
    lemma_be_order(a, b);
    lemma_be_order(b, a);
    lemma_lt_total(a, b);
}

/// The rows of a stack come newest version first, whichever layer holds them.
pub proof fn law_versions_come_newest_first(
    db: Db,
    stack: Seq<LayerRef>,
    lower: Seq<u8>,
    upper: Option<Seq<u8>>,
    i: int,
    j: int,
)
    requires
        0 <= i < j < ascending(between(db.view_of(stack), lower, upper)).len(),
        validity_of(ascending(between(db.view_of(stack), lower, upper))[i].0) is Some,
        validity_of(ascending(between(db.view_of(stack), lower, upper))[j].0) is Some,
        identity_of(ascending(between(db.view_of(stack), lower, upper))[i].0) == identity_of(
            ascending(between(db.view_of(stack), lower, upper))[j].0,
        ),
    ensures
        newer(
            validity_of(ascending(between(db.view_of(stack), lower, upper))[i].0).unwrap(),
            validity_of(ascending(between(db.view_of(stack), lower, upper))[j].0).unwrap(),
        ),
{
    let part = between(db.view_of(stack), lower, upper);
    let rows = ascending(part);
    db.lemma_view_finite(stack);
    lemma_between_finite(db.view_of(stack), lower, upper);
    lemma_ascending(part);
    let a = validity_of(rows[i].0).unwrap();
    let b = validity_of(rows[j].0).unwrap();
    lemma_key_is_version(rows[i].0);
    lemma_key_is_version(rows[j].0);
    lemma_newest_first(identity_of(rows[i].0), a, b);
    assert(lex_lt(rows[i].0, rows[j].0));
}

/// Where a layer stands in a stack decides only which copy of a key that several hold comes out:
/// layers that agree where they overlap hold the same in any order.
pub proof fn law_position_only_picks_a_copy(maps: Seq<Content>, other: Seq<Content>)
    requires
        forall|i: int| 0 <= i < maps.len() ==> other.contains(#[trigger] maps[i]),
        forall|i: int| 0 <= i < other.len() ==> maps.contains(#[trigger] other[i]),
        forall|i: int, j: int, k: Seq<u8>|
            0 <= i < maps.len() && 0 <= j < maps.len() && #[trigger] maps[i].contains_key(k)
                && #[trigger] maps[j].contains_key(k) ==> maps[i][k] == maps[j][k],
    ensures
        overlay(maps) == overlay(other),
{
    let a = overlay(maps);
    let b = overlay(other);
    lemma_overlay_keys(maps);
    lemma_overlay_keys(other);
    assert forall|k: Seq<u8>| #[trigger] a.dom().contains(k) implies b.dom().contains(k) && a[k]
        == b[k] by {
        assert(a.contains_key(k));
        let i = choose|i: int| first_holder(maps, k, i);
        lemma_overlay_value(maps, k, i);
        assert(other.contains(maps[i]));
        let j = choose|j: int| 0 <= j < other.len() && other[j] == maps[i];
        assert(other[j].contains_key(k));
        assert(b.contains_key(k));
        let h = choose|h: int| first_holder(other, k, h);
        lemma_overlay_value(other, k, h);
        assert(maps.contains(other[h]));
        let g = choose|g: int| 0 <= g < maps.len() && maps[g] == other[h];
        assert(maps[g].contains_key(k) && maps[i].contains_key(k));
    }
    assert forall|k: Seq<u8>| #[trigger] b.dom().contains(k) implies a.dom().contains(k) by {
        assert(b.contains_key(k));
        let j = choose|j: int| 0 <= j < other.len() && (#[trigger] other[j]).contains_key(k);
        assert(maps.contains(other[j]));
        let i = choose|i: int| 0 <= i < maps.len() && maps[i] == other[j];
        assert(maps[i].contains_key(k));
        assert(a.contains_key(k));
    }
    assert(a.dom() =~= b.dom());
    assert(a =~= b);
}

/// Rows can be written as they are decided: no later decision can read one of them. Whatever of
/// the scan has been written, the next row is decided as it was against the destination alone.
pub proof fn law_writes_do_not_disturb_later_decisions(
    db: Db,
    src: Seq<LayerRef>,
    dst: Seq<LayerRef>,
    restamp: bool,
    stamp: Stamp,
    n: int,
)
    requires
        db.wf(),
        db.reads_regular(src),
        0 <= n < db.trace(src, dst, None).rows.len(),
    ensures
        db.trace(src, dst, None).rows[n].1 == decided(
            net(db.view_of(src), about(db.trace(src, dst, None).rows[n])),
            written(
                db.view_of(dst),
                writes_of(db.trace(src, dst, None).rows.take(n), restamp, stamp),
            ),
        ),
{
    let t = db.trace(src, dst, None);
    let view = db.view_of(src);
    let held = db.view_of(dst);
    let first = t.rows.take(n);
    let identity = about(t.rows[n]);
    lemma_trace_tells(db, src, dst);
    lemma_tells_row(t.rows, view, held, n);
    lemma_key_is_version(t.rows[n].1.key());
    assert forall|i: int| 0 <= i < first.len() implies validity_of((#[trigger] first[i]).1.key())
        is Some && (first[i].1 is Effective ==> about(first[i]) != identity) by {
        assert(first[i] == t.rows[i]);
        lemma_tells_row(t.rows, view, held, i);
        lemma_tells_order(t.rows, view, held, i, n);
    }
    lemma_writes_elsewhere(held, first, restamp, stamp, identity);
    lemma_same_versions(written(held, writes_of(first, restamp, stamp)), held, identity);
}

/// A flatten leaves alone every stack that does not read the layer it writes.
pub proof fn law_other_stacks_are_untouched(
    before: Db,
    after: Db,
    name: Seq<char>,
    writes: Seq<Kv>,
    stack: Seq<LayerRef>,
)
    requires
        flattened(before, after, name, writes),
        has_layer(before.layers@, name),
        before.fault(stack) is None,
        forall|i: int| 0 <= i < stack.len() ==> (#[trigger] stack[i]).name@ != name,
    ensures
        after.fault(stack) is None,
        after.view_of(stack) == before.view_of(stack),
        forall|i: int|
            0 <= i < stack.len() ==> #[trigger] after.layer_view(stack, i) == before.layer_view(
                stack,
                i,
            ),
{
    let at = layer_index(before.layers@, name);
    assert(is_layer(before.layers@, name, at));
    assert forall|i: int| 0 <= i < stack.len() implies #[trigger] after.layer_view(stack, i)
        == before.layer_view(stack, i) by {
        before.lemma_known(stack, i);
        lemma_flattened_names(before, after, name, writes, stack[i].name@);
        let p = layer_index(before.layers@, stack[i].name@);
        assert(is_layer(before.layers@, stack[i].name@, p));
        assert(p != at);
        assert(after.layers@[p] == before.layers@[p]);
    }
    assert(Seq::new(stack.len(), |i: int| after.layer_view(stack, i)) =~= Seq::new(
        stack.len(),
        |i: int| before.layer_view(stack, i),
    ));
    lemma_fault_after(before, after, name, writes, stack);
}

/// A plan without conflicts decides no row to be one.
proof fn lemma_clean_plan(rows: Seq<(RelView, Effect)>, i: int)
    requires
        plan_of(rows).conflicts.len() == 0,
        0 <= i < rows.len(),
    ensures
        !(rows[i].1 is Divergent),
    decreases rows.len(),
{
    let front = rows.drop_last();
    assert(plan_of(front).conflicts.len() == 0);
    if i < front.len() {
        lemma_clean_plan(front, i);
        assert(front[i] == rows[i]);
    }
}

/// The source view holds a version of the identity, in a relation that a flatten takes in.
pub open spec fn covers(db: Db, src: Seq<LayerRef>, identity: Seq<u8>) -> bool {
    exists|v: Validity| #[trigger] has_version(db.view_of(src), identity, v) && taken(
        rel_views(db.relations@),
        version_key(identity, v),
    )
}

/// `after` is `before` once `src` has been flattened into `dst`.
pub open spec fn went_through(
    before: Db,
    after: Db,
    src: Seq<LayerRef>,
    dst: Seq<LayerRef>,
    restamp: bool,
    stamp: Stamp,
) -> bool {
    &&& before.wf()
    &&& before.reads_regular(src)
    &&& before.refusal(src, dst) is None
    &&& flattened(
        before,
        after,
        dst[0].name@,
        writes_of(before.trace(src, dst, None).rows, restamp, stamp),
    )
}

/// What a flatten writes of the identity lands on top of what the destination holds of it: the
/// destination shows it, and it is newer than every version there.
pub open spec fn lands(
    db: Db,
    src: Seq<LayerRef>,
    dst: Seq<LayerRef>,
    restamp: bool,
    stamp: Stamp,
    identity: Seq<u8>,
) -> bool {
    let rows = db.trace(src, dst, None).rows;
    forall|i: int|
        0 <= i < rows.len() && (#[trigger] rows[i]).1 is Effective && about(rows[i]) == identity ==> {
            let key = written_key(rows[i].1.key(), restamp, stamp);
            &&& admitted(dst[0].window, key)
            &&& prevails(db.view_of(dst), identity, validity_of(key).unwrap())
        }
}

/// Rows stamped anew land, where the stamp is later than all that the destination holds and the
/// destination shows it.
pub proof fn law_a_later_stamp_lands(
    db: Db,
    src: Seq<LayerRef>,
    dst: Seq<LayerRef>,
    stamp: Stamp,
    identity: Seq<u8>,
)
    requires
        db.wf(),
        db.reads_regular(src),
        shows(dst[0].window, stamp),
        forall|w: Validity| #[trigger]
            has_version(db.view_of(dst), identity, w) ==> w.timestamp < stamp,
    ensures
        lands(db, src, dst, true, stamp, identity),
{
    let t = db.trace(src, dst, None);
    lemma_trace_tells(db, src, dst);
    assert forall|i: int|
        0 <= i < t.rows.len() && (#[trigger] t.rows[i]).1 is Effective && about(t.rows[i])
            == identity implies {
        let key = written_key(t.rows[i].1.key(), true, stamp);
        &&& admitted(dst[0].window, key)
        &&& prevails(db.view_of(dst), identity, validity_of(key).unwrap())
    } by {
        lemma_tells_row(t.rows, db.view_of(src), db.view_of(dst), i);
        lemma_written_key(t.rows[i].1.key(), true, stamp);
    }
}

/// Flattening materializes the net effect of the source view: through the destination stack, a
/// record that the view speaks of is then live exactly if the view holds it live, and with the
/// view's value, and any other record is as it was.
pub proof fn law_a_flatten_materializes_the_net_effect(
    before: Db,
    after: Db,
    src: Seq<LayerRef>,
    dst: Seq<LayerRef>,
    restamp: bool,
    stamp: Stamp,
    identity: Seq<u8>,
)
    requires
        went_through(before, after, src, dst, restamp, stamp),
        identity.len() >= ID_LEN,
        lands(before, src, dst, restamp, stamp, identity),
    ensures
        covers(before, src, identity) ==> {
            &&& live(after.view_of(dst), identity) == live(before.view_of(src), identity)
            &&& live(before.view_of(src), identity) ==> asserted_value(
                after.view_of(dst),
                identity,
            ) == asserted_value(before.view_of(src), identity)
        },
        !covers(before, src, identity) ==> {
            &&& live(after.view_of(dst), identity) == live(before.view_of(dst), identity)
            &&& asserted_value(after.view_of(dst), identity) == asserted_value(
                before.view_of(dst),
                identity,
            )
        },
{
    let t = before.trace(src, dst, None);
    let view = before.view_of(src);
    let held = before.view_of(dst);
    let now = after.view_of(dst);
    let rels = rel_views(before.relations@);
    lemma_trace_tells(before, src, dst);
    assert forall|i: int| 0 <= i < t.rows.len() implies validity_of((#[trigger] t.rows[i]).1.key())
        is Some by {
        lemma_tells_row(t.rows, view, held, i);
    }
    if covers(before, src, identity) {
        let at = lemma_covered_row(before, src, dst, identity);
        lemma_tells_row(t.rows, view, held, at);
        lemma_clean_plan(t.rows, at);
        lemma_net_live(view, identity);
        assert forall|i: int| 0 <= i < t.rows.len() && i != at implies about(#[trigger] t.rows[i])
            != identity by {
            if i < at {
                lemma_tells_order(t.rows, view, held, i, at);
            } else {
                lemma_tells_order(t.rows, view, held, at, i);
            }
        }
        if t.rows[at].1 is Effective {
            lemma_destination_at(before, after, dst, t.rows, restamp, stamp, at);
            let k = written_key(t.rows[at].1.key(), restamp, stamp);
            let val = t.rows[at].1->val;
            lemma_written_key(t.rows[at].1.key(), restamp, stamp);
            lemma_version_key(identity, newest(view, identity));
            lemma_insert_newest(held, identity, validity_of(k).unwrap(), val);
            lemma_same_versions(now, held.insert(k, val), identity);
        } else {
            lemma_destination_elsewhere(before, after, dst, t.rows, restamp, stamp, identity);
            lemma_same_versions(now, held, identity);
        }
    } else {
        assert forall|i: int| 0 <= i < t.rows.len() implies validity_of(
            (#[trigger] t.rows[i]).1.key(),
        ) is Some && (t.rows[i].1 is Effective ==> about(t.rows[i]) != identity) by {
            if about(t.rows[i]) == identity {
                lemma_row_is_covered(before, src, dst, i);
            }
        }
        lemma_destination_elsewhere(before, after, dst, t.rows, restamp, stamp, identity);
        lemma_same_versions(now, held, identity);
    }
}

/// A scan that does not fail decides each identity that it covers.
proof fn lemma_covered_row(
    db: Db,
    src: Seq<LayerRef>,
    dst: Seq<LayerRef>,
    identity: Seq<u8>,
) -> (at: int)
    requires
        db.wf(),
        db.reads_regular(src),
        identity.len() >= ID_LEN,
        db.trace(src, dst, None).failure is None,
        covers(db, src, identity),
    ensures
        0 <= at < db.trace(src, dst, None).rows.len(),
        about(db.trace(src, dst, None).rows[at]) == identity,
{
    let t = db.trace(src, dst, None);
    let view = db.view_of(src);
    let rels = rel_views(db.relations@);
    lemma_trace_tells(db, src, dst);
    let v = choose|v: Validity| #[trigger] has_version(view, identity, v) && taken(
        rels,
        version_key(identity, v),
    );
    lemma_version_key(identity, v);
    assert(view.contains_key(version_key(identity, v)));
    assert(told(t.rows, identity));
    choose|at: int| 0 <= at < t.rows.len() && about(#[trigger] t.rows[at]) == identity
}

/// A scan decides only identities that it covers.
proof fn lemma_row_is_covered(db: Db, src: Seq<LayerRef>, dst: Seq<LayerRef>, i: int)
    requires
        db.wf(),
        db.reads_regular(src),
        0 <= i < db.trace(src, dst, None).rows.len(),
    ensures
        covers(db, src, about(db.trace(src, dst, None).rows[i])),
{
    let t = db.trace(src, dst, None);
    let view = db.view_of(src);
    let rels = rel_views(db.relations@);
    lemma_trace_tells(db, src, dst);
    lemma_tells_row(t.rows, view, db.view_of(dst), i);
    let identity = about(t.rows[i]);
    let v = newest(view, identity);
    assert(has_version(view, identity, v));
    assert(rels.contains(t.rows[i].0));
    let r = choose|r: int| 0 <= r < rels.len() && rels[r] == t.rows[i].0;
    assert(takes(rels[r], version_key(identity, v)));
    assert(taken(rels, version_key(identity, v)));
}

/// Rows that are all redundant or inert come to no copy and no conflict.
proof fn lemma_nothing_to_copy(rows: Seq<(RelView, Effect)>, restamp: bool, stamp: Stamp)
    requires
        forall|i: int|
            0 <= i < rows.len() ==> (#[trigger] rows[i]).1 is Redundant || rows[i].1 is Inert,
    ensures
        plan_of(rows).rows_copied == 0,
        plan_of(rows).bytes_copied == 0,
        plan_of(rows).conflicts.len() == 0,
        plan_of(rows).rows_deduped + plan_of(rows).tombstones_dropped == rows.len(),
        writes_of(rows, restamp, stamp) == Seq::<Kv>::empty(),
    decreases rows.len(),
{
    if rows.len() > 0 {
        let front = rows.drop_last();
        assert(forall|i: int| 0 <= i < front.len() ==> #[trigger] front[i] == rows[i]);
        assert(rows[rows.len() - 1] == rows.last());
        lemma_nothing_to_copy(front, restamp, stamp);
    }
}

/// The two stores have the same layers, and those hold the same.
pub open spec fn same_layers(a: Db, b: Db) -> bool {
    &&& a.layers@.len() == b.layers@.len()
    &&& forall|i: int|
        0 <= i < b.layers@.len() ==> (#[trigger] a.layers@[i]).name == b.layers@[i].name
            && a.layers@[i].content() == b.layers@[i].content()
}

/// The same flatten run again copies nothing: it goes through, finds every record of the view
/// there already or gone already, and changes no row of any layer. What the first run copied,
/// skipped or dropped, the second skips or drops, and no less of either than the first.
pub proof fn law_flattening_again_copies_nothing(
    before: Db,
    after: Db,
    src: Seq<LayerRef>,
    dst: Seq<LayerRef>,
    restamp: bool,
    stamp: Stamp,
    again: Stamp,
)
    requires
        went_through(before, after, src, dst, restamp, stamp),
        forall|identity: Seq<u8>|
            identity.len() >= ID_LEN ==> #[trigger] lands(before, src, dst, restamp, stamp, identity),
    ensures
        after.refusal(src, dst) is None,
        ({
            let first = plan_of(before.trace(src, dst, None).rows);
            let second = plan_of(after.trace(src, dst, None).rows);
            &&& second.rows_copied == 0
            &&& second.bytes_copied == 0
            &&& second.rows_deduped + second.tombstones_dropped == first.rows_copied
                + first.rows_deduped + first.tombstones_dropped
            &&& second.rows_deduped >= first.rows_deduped
            &&& second.tombstones_dropped >= first.tombstones_dropped
        }),
        writes_of(after.trace(src, dst, None).rows, restamp, again) == Seq::<Kv>::empty(),
        forall|later: Db| #[trigger]
            flattened(
                after,
                later,
                dst[0].name@,
                writes_of(after.trace(src, dst, None).rows, restamp, again),
            ) ==> same_layers(later, after),
{
    let t = before.trace(src, dst, None);
    let u = after.trace(src, dst, None);
    let view = before.view_of(src);
    let held = before.view_of(dst);
    let now = after.view_of(dst);
    let rels = rel_views(before.relations@);
    let writes = writes_of(t.rows, restamp, stamp);
    before.lemma_known(dst, 0);
    assert forall|i: int| 0 <= i < src.len() implies (#[trigger] src[i]).name@ != dst[0].name@ by {}
    law_other_stacks_are_untouched(before, after, dst[0].name@, writes, src);
    assert(after.layer_view(src, 0) == before.layer_view(src, 0));
    lemma_fault_after(before, after, dst[0].name@, writes, dst);
    lemma_trace_tells(before, src, dst);
    before.lemma_view_finite(src);
    lemma_rel_views_by_id(before);
    lemma_scan_all_tells(rels, view, before.layer_view(src, 0), now);
    lemma_heads_are_the_sources(rels, view, before.layer_view(src, 0), held, now);
    assert(heads(t.rows).len() == heads(u.rows).len());
    assert forall|i: int| 0 <= i < t.rows.len() implies settled_by(
        #[trigger] t.rows[i].1,
        u.rows[i].1,
    ) by {
        assert(heads(t.rows)[i] == heads(u.rows)[i]);
        lemma_tells_row(u.rows, view, now, i);
        lemma_tells_row(t.rows, view, held, i);
        let identity = about(t.rows[i]);
        lemma_key_is_version(t.rows[i].1.key());
        lemma_row_is_covered(before, src, dst, i);
        lemma_clean_plan(t.rows, i);
        lemma_net_live(view, identity);
        assert(lands(before, src, dst, restamp, stamp, identity));
        law_a_flatten_materializes_the_net_effect(
            before,
            after,
            src,
            dst,
            restamp,
            stamp,
            identity,
        );
    }
    assert forall|i: int| 0 <= i < u.rows.len() implies (#[trigger] u.rows[i]).1 is Redundant
        || u.rows[i].1 is Inert by {
        assert(settled_by(t.rows[i].1, u.rows[i].1));
    }
    lemma_nothing_to_copy(u.rows, restamp, again);
    lemma_settled_counts(t.rows, u.rows);
    law_the_counts_are_of_what_is_written(t.rows, restamp, stamp);
}

/// A flatten that stamps its rows anew, later than all that the destination holds, into a layer that
/// shows them can be run again at no cost: the second run goes through, copies nothing and changes
/// no row of any layer.
pub proof fn law_a_restamped_flatten_is_idempotent(
    before: Db,
    after: Db,
    src: Seq<LayerRef>,
    dst: Seq<LayerRef>,
    stamp: Stamp,
    again: Stamp,
)
    requires
        went_through(before, after, src, dst, true, stamp),
        shows(dst[0].window, stamp),
        forall|k: Seq<u8>| #[trigger]
            before.view_of(dst).contains_key(k) && validity_of(k) is Some ==> validity_of(
                k,
            ).unwrap().timestamp < stamp,
    ensures
        after.refusal(src, dst) is None,
        ({
            let first = plan_of(before.trace(src, dst, None).rows);
            let second = plan_of(after.trace(src, dst, None).rows);
            &&& second.rows_copied == 0
            &&& second.bytes_copied == 0
            &&& second.rows_deduped + second.tombstones_dropped == first.rows_copied
                + first.rows_deduped + first.tombstones_dropped
            &&& second.rows_deduped >= first.rows_deduped
            &&& second.tombstones_dropped >= first.tombstones_dropped
        }),
        writes_of(after.trace(src, dst, None).rows, true, again) == Seq::<Kv>::empty(),
        forall|later: Db| #[trigger]
            flattened(
                after,
                later,
                dst[0].name@,
                writes_of(after.trace(src, dst, None).rows, true, again),
            ) ==> same_layers(later, after),
{
    assert forall|identity: Seq<u8>| identity.len() >= ID_LEN implies #[trigger] lands(
        before,
        src,
        dst,
        true,
        stamp,
        identity,
    ) by {
        assert forall|w: Validity| #[trigger]
            has_version(before.view_of(dst), identity, w) implies w.timestamp < stamp by {
            lemma_version_key(identity, w);
            assert(before.view_of(dst).contains_key(version_key(identity, w)));
        }
        law_a_later_stamp_lands(before, src, dst, stamp, identity);
    }
    law_flattening_again_copies_nothing(before, after, src, dst, true, stamp, again);
}

/// Once a row has been dealt with, the same row is redundant if it asserts and inert if it
/// retracts.
spec fn settled_by(first: Effect, second: Effect) -> bool {
    &&& second is Redundant || second is Inert
    &&& first is Redundant ==> second is Redundant
    &&& first is Inert ==> second is Inert
}

/// Rows that have been dealt with are skipped or dropped no less often than before.
proof fn lemma_settled_counts(t: Seq<(RelView, Effect)>, u: Seq<(RelView, Effect)>)
    requires
        t.len() == u.len(),
        forall|i: int| 0 <= i < t.len() ==> settled_by(#[trigger] t[i].1, u[i].1),
    ensures
        plan_of(u).rows_deduped >= plan_of(t).rows_deduped,
        plan_of(u).tombstones_dropped >= plan_of(t).tombstones_dropped,
    decreases t.len(),
{
    if t.len() > 0 {
        let n = t.len() - 1;
        assert forall|i: int| 0 <= i < n implies settled_by(
            #[trigger] t.drop_last()[i].1,
            u.drop_last()[i].1,
        ) by {
            assert(settled_by(t[i].1, u[i].1));
        }
        lemma_settled_counts(t.drop_last(), u.drop_last());
        assert(settled_by(t[n].1, u[n].1));
    }
}

/// Which rows are decided, whatever is decided of them.
spec fn heads(rows: Seq<(RelView, Effect)>) -> Seq<(RelView, Seq<u8>)> {
    Seq::new(rows.len(), |i: int| (rows[i].0, rows[i].1.key()))
}

/// Which rows a scan decides, and how it fails, does not depend on the destination.
proof fn lemma_heads_are_the_sources(
    rels: Seq<RelView>,
    m: Content,
    top: Content,
    a: Content,
    b: Content,
)
    ensures
        scan_all(rels, m, top, a, None).failure == scan_all(rels, m, top, b, None).failure,
        heads(scan_all(rels, m, top, a, None).rows) == heads(scan_all(rels, m, top, b, None).rows),
    decreases rels.len(),
{
    if rels.len() > 0 {
        let rel = rels[0];
        let rest = rels.drop_first();
        let rows = ascending(between(m, relation_lower(rel), Some(relation_upper(rel))));
        lemma_heads_are_the_sources(rest, m, top, a, b);
        lemma_rows_heads(rel, rows, a, b);
        lemma_heads_append(
            scan_relation(rel, m, top, a, None).rows,
            scan_all(rest, m, top, a, None).rows,
        );
        lemma_heads_append(
            scan_relation(rel, m, top, b, None).rows,
            scan_all(rest, m, top, b, None).rows,
        );
    }
}

proof fn lemma_heads_append(a: Seq<(RelView, Effect)>, b: Seq<(RelView, Effect)>)
    ensures
        heads(a + b) == heads(a) + heads(b),
{
    assert(heads(a + b) =~= heads(a) + heads(b));
}

proof fn lemma_rows_heads(rel: RelView, rows: Seq<Kv>, a: Content, b: Content)
    ensures
        scan_rows(rel, rows, a).failure == scan_rows(rel, rows, b).failure,
        heads(scan_rows(rel, rows, a).rows) == heads(scan_rows(rel, rows, b).rows),
    decreases rows.len(),
{
    if rows.len() > 0 && validity_of(rows[0].0) is Some {
        let n = run_len(rows, identity_of(rows[0].0)) as int;
        lemma_run_len(rows, identity_of(rows[0].0));
        lemma_rows_heads(rel, rows.skip(n), a, b);
        let r = resolution(rows.take(n));
        let one = seq![(rel, decided(r, a))];
        let other = seq![(rel, decided(r, b))];
        lemma_heads_append(one, scan_rows(rel, rows.skip(n), a).rows);
        lemma_heads_append(other, scan_rows(rel, rows.skip(n), b).rows);
        assert(heads(one) =~= heads(other));
    }
}

/// A flatten keeps the store regular.
pub proof fn law_a_flatten_keeps_the_store_regular(
    before: Db,
    after: Db,
    src: Seq<LayerRef>,
    dst: Seq<LayerRef>,
    restamp: bool,
    stamp: Stamp,
)
    requires
        went_through(before, after, src, dst, restamp, stamp),
        before.regular(),
    ensures
        after.regular(),
{
    let t = before.trace(src, dst, None);
    let view = before.view_of(src);
    let writes = writes_of(t.rows, restamp, stamp);
    let at = layer_index(before.layers@, dst[0].name@);
    lemma_trace_tells(before, src, dst);
    lemma_view_is_stored(before, src);
    assert forall|i: int| 0 <= i < t.rows.len() implies validity_of((#[trigger] t.rows[i]).1.key())
        is Some && before.keys().contains(t.rows[i].1.key()) by {
        lemma_tells_row(t.rows, view, before.view_of(dst), i);
        assert(view.dom().contains(t.rows[i].1.key()));
    }
    lemma_regular_writes(before.keys(), t.rows, restamp, stamp);
    assert forall|k: Seq<u8>| after.keys().contains(k) implies before.keys().union(
        write_keys(writes),
    ).contains(k) by {
        let i = choose|i: int|
            0 <= i < after.layers@.len() && (#[trigger] after.layers@[i]).content().contains_key(k);
        if !write_keys(writes).contains(k) {
            if i == at {
                lemma_written_elsewhere(before.layers@[at].content(), writes, k);
                assert(before.layers@[at].content().contains_key(k));
            } else {
                assert(after.layers@[i] == before.layers@[i]);
                assert(before.layers@[i].content().contains_key(k));
            }
        }
    }
    lemma_regular_subset(after.keys(), before.keys().union(write_keys(writes)));
}

/// Stamping rows anew keeps the destination's history true: a read as of any point before the
/// stamp shows exactly what it showed before the flatten.
pub proof fn law_restamping_keeps_history_true(
    before: Db,
    after: Db,
    src: Seq<LayerRef>,
    dst: Seq<LayerRef>,
    stamp: Stamp,
    upper: Option<Seq<u8>>,
    bound: Seq<u8>,
    at: Stamp,
)
    requires
        went_through(before, after, src, dst, true, stamp),
        before.regular(),
        at < stamp,
    ensures
        frontier_next(after.view_of(dst), upper, bound, at) == frontier_next(
            before.view_of(dst),
            upper,
            bound,
            at,
        ),
        forall|k: Seq<u8>| #[trigger]
            stands_at(k, at) ==> agree(after.view_of(dst), before.view_of(dst), k),
{
    let t = before.trace(src, dst, None);
    let writes = writes_of(t.rows, true, stamp);
    let held = before.view_of(dst);
    let now = after.view_of(dst);
    lemma_trace_tells(before, src, dst);
    law_a_flatten_keeps_the_store_regular(before, after, src, dst, true, stamp);
    lemma_fault_after(before, after, dst[0].name@, writes, dst);
    before.lemma_view_finite(dst);
    after.lemma_view_finite(dst);
    lemma_view_is_stored(before, dst);
    lemma_view_is_stored(after, dst);
    lemma_regular_subset(held.dom(), before.keys());
    lemma_regular_subset(now.dom(), after.keys());
    assert forall|k: Seq<u8>|
        (#[trigger] validity_of(k)) is Some && validity_of(k).unwrap().timestamp <= at implies agree(
        now,
        held,
        k,
    ) by {
        if write_keys(writes).contains(k) {
            let i = choose|i: int| 0 <= i < writes.len() && (#[trigger] writes[i]).0 == k;
            let r = lemma_writes_are_rows(t.rows, true, stamp, i);
            lemma_tells_row(t.rows, before.view_of(src), held, r);
            lemma_written_key(t.rows[r].1.key(), true, stamp);
        }
        lemma_key_untouched(before, after, dst, writes, k);
    }
    assert forall|j: Seq<u8>|
        in_force(now, upper, bound, at, j) == in_force(held, upper, bound, at, j) by {
        if in_force(now, upper, bound, at, j) {
            lemma_in_force_agrees(now, held, upper, bound, at, j);
        }
        if in_force(held, upper, bound, at, j) {
            lemma_in_force_agrees(held, now, upper, bound, at, j);
        }
    }
    law_a_frontier_scan_shows_what_is_in_force(now, upper, bound, at);
    law_a_frontier_scan_shows_what_is_in_force(held, upper, bound, at);
    match (frontier_next(now, upper, bound, at), frontier_next(held, upper, bound, at)) {
        (Some(a), Some(b)) => {
            assert(in_force(now, upper, bound, at, b) && in_force(held, upper, bound, at, a));
            if a != b {
                lemma_lt_asymmetric(a, b);
            }
        },
        (Some(a), None) => {
            assert(in_force(held, upper, bound, at, a));
        },
        (None, Some(b)) => {
            assert(in_force(now, upper, bound, at, b));
        },
        (None, None) => {},
    }
}

/// An empty view writes nothing and has nothing to report.
pub proof fn law_an_empty_view_is_a_no_op(
    db: Db,
    src: Seq<LayerRef>,
    dst: Seq<LayerRef>,
    restamp: bool,
    stamp: Stamp,
)
    requires
        db.context_fault(src, dst) is None,
        !clashes(src, dst),
        db.view_of(src).dom() == Set::<Seq<u8>>::empty(),
    ensures
        db.refusal(src, dst) is None,
        db.trace(src, dst, None).rows == Seq::<(RelView, Effect)>::empty(),
        writes_of(db.trace(src, dst, None).rows, restamp, stamp) == Seq::<Kv>::empty(),
{
    let maps = Seq::new(src.len(), |i: int| db.layer_view(src, i));
    let top = db.layer_view(src, 0);
    lemma_overlay_keys(maps);
    assert forall|k: Seq<u8>| !top.dom().contains(k) by {
        if top.dom().contains(k) {
            assert(maps[0].contains_key(k));
            assert(overlay(maps).contains_key(k));
            assert(db.view_of(src).dom().contains(k));
        }
    }
    assert(top.dom() =~= Set::empty());
    lemma_scan_nothing(rel_views(db.relations@), db.view_of(src), top, db.view_of(dst));
}

/// A scan of nothing decides nothing and does not fail.
proof fn lemma_scan_nothing(rels: Seq<RelView>, m: Content, top: Content, dst: Content)
    requires
        m.dom() == Set::<Seq<u8>>::empty(),
        top.dom() == Set::<Seq<u8>>::empty(),
    ensures
        scan_all(rels, m, top, dst, None) == (Trace {
            rows: Seq::<(RelView, Effect)>::empty(),
            failure: None,
        }),
    decreases rels.len(),
{
    if rels.len() > 0 {
        let rel = rels[0];
        let lower = relation_lower(rel);
        let upper = Some(relation_upper(rel));
        lemma_scan_nothing(rels.drop_first(), m, top, dst);
        assert(between(top, lower, upper).dom() =~= Set::empty());
        assert(between(m, lower, upper).dom() =~= Set::empty());
        lemma_ascending_empty(between(m, lower, upper));
        assert(Seq::<(RelView, Effect)>::empty() + Seq::<(RelView, Effect)>::empty() =~= Seq::<
            (RelView, Effect),
        >::empty());
    }
}

/// A bounded view is immutable: what is written to a layer later than a window's ceiling, the
/// window does not show. Pages of a bounded source are therefore repeatable.
pub proof fn law_a_bounded_view_is_immutable(
    before: Layer,
    after: Layer,
    window: Window,
    writes: Seq<Kv>,
)
    requires
        after.content() == written(before.content(), writes),
        window.bound is Some,
        forall|i: int|
            0 <= i < writes.len() ==> validity_of((#[trigger] writes[i]).0) is Some && validity_of(
                writes[i].0,
            ).unwrap().timestamp > window.bound.unwrap(),
    ensures
        windowed(after.rows@, window) == windowed(before.rows@, window),
{
    lemma_through(after.rows@, window);
    lemma_through(before.rows@, window);
    let a = through(after.content(), window);
    let b = through(before.content(), window);
    assert forall|k: Seq<u8>| agree(a, b, k) by {
        if admitted(window, k) {
            if write_keys(writes).contains(k) {
                let i = choose|i: int| 0 <= i < writes.len() && (#[trigger] writes[i]).0 == k;
                assert(validity_of(writes[i].0) is Some);
            }
            lemma_written_elsewhere(before.content(), writes, k);
        }
    }
    assert forall|k: Seq<u8>| a.dom().contains(k) == b.dom().contains(k) by {
        assert(agree(a, b, k));
    }
    assert(a.dom() =~= b.dom());
    assert forall|k: Seq<u8>| a.dom().contains(k) implies a[k] == b[k] by {
        assert(agree(a, b, k));
    }
    assert(a =~= b);
}

/// The rows that hold the versions of an identity.
spec fn versions_in(m: Content, identity: Seq<u8>) -> Content {
    Map::new(
        |k: Seq<u8>| m.contains_key(k) && validity_of(k) is Some && identity_of(k) == identity,
        |k: Seq<u8>| m[k],
    )
}

/// The versions of an identity that has any can be listed newest first.
proof fn lemma_versions_listed(m: Content, identity: Seq<u8>, v: Validity)
    requires
        m.dom().finite(),
        identity.len() >= ID_LEN,
        has_version(m, identity, v),
    ensures
        versions_of(m, identity, ascending(versions_in(m, identity))),
{
    let part = versions_in(m, identity);
    let rows = ascending(part);
    assert(part.dom().subset_of(m.dom()));
    vstd::set_lib::lemma_set_subset_finite(m.dom(), part.dom());
    lemma_ascending(part);
    lemma_version_key(identity, v);
    assert(part.contains_key(version_key(identity, v)));
    assert forall|i: int| 0 <= i < rows.len() implies validity_of((#[trigger] rows[i]).0) is Some
        && identity_of(rows[i].0) == identity && m.contains_key(rows[i].0) && m[rows[i].0]
        == rows[i].1 by {
        assert(part.contains_key(rows[i].0));
    }
    assert forall|w: Validity| #[trigger] has_version(m, identity, w) implies exists|i: int|
        0 <= i < rows.len() && (#[trigger] rows[i]).0 == version_key(identity, w) by {
        lemma_version_key(identity, w);
        assert(part.contains_key(version_key(identity, w)));
    }
}

/// Two layers of a view are in conflict about an identity exactly if two of its assertions there
/// carry different values. A retraction, whatever it follows, is no conflict.
pub proof fn law_a_source_conflict_is_two_values(m: Content, identity: Seq<u8>, v: Validity)
    requires
        m.dom().finite(),
        identity.len() >= ID_LEN,
        has_version(m, identity, v),
    ensures
        net(m, identity).divergent is Some <==> exists|a: Validity, b: Validity|
            #![trigger has_version(m, identity, a), has_version(m, identity, b)]
            has_version(m, identity, a) && a.is_assert && has_version(m, identity, b) && b.is_assert
                && m[version_key(identity, a)] != m[version_key(identity, b)],
        net(m, identity).divergent is Some ==> net(m, identity).asserted is Some,
{
    let rows = ascending(versions_in(m, identity));
    lemma_versions_listed(m, identity, v);
    lemma_resolution_is_net(m, identity, rows);
    let disagree = exists|a: Validity, b: Validity|
        #![trigger has_version(m, identity, a), has_version(m, identity, b)]
        has_version(m, identity, a) && a.is_assert && has_version(m, identity, b) && b.is_assert
            && m[version_key(identity, a)] != m[version_key(identity, b)];
    let r = net(m, identity);
    if r.divergent is Some {
        let a = choose|a: Validity| is_newest_assertion(m, identity, a);
        let val = r.asserted.unwrap();
        let d = choose|d: Validity| is_newest_dissent(m, identity, val, d);
        assert(is_newest_assertion(m, identity, a));
        assert(is_newest_dissent(m, identity, val, d));
        assert(has_version(m, identity, a) && has_version(m, identity, d));
    }
    if disagree {
        let (a, b) = choose|a: Validity, b: Validity|
            #![trigger has_version(m, identity, a), has_version(m, identity, b)]
            has_version(m, identity, a) && a.is_assert && has_version(m, identity, b) && b.is_assert
                && m[version_key(identity, a)] != m[version_key(identity, b)];
        lemma_dissent_found(m, identity, rows, a, b);
    }
}

/// A conflict with the destination is two values as well: the newest version in the view asserts
/// one, and the destination's newest assertion carries another.
pub proof fn law_a_destination_conflict_is_two_values(m: Content, dst: Content, identity: Seq<u8>)
    requires
        net(m, identity).divergent is None,
        identity_of(net(m, identity).key) == identity,
    ensures
        decided(net(m, identity), dst) is Divergent <==> {
            &&& net(m, identity).asserts
            &&& asserted_value(dst, identity) matches Some(held)
            &&& held != net(m, identity).val
        },
        decided(net(m, identity), dst) is Divergent ==> decided(net(m, identity), dst)->kind
            == ConflictKind::Destination,
{
}

/// A net tombstone is copied exactly where it bites: where the destination holds the record live.
pub proof fn law_a_tombstone_is_copied_only_where_it_bites(
    m: Content,
    dst: Content,
    identity: Seq<u8>,
)
    requires
        net(m, identity).divergent is None,
        !net(m, identity).asserts,
        identity_of(net(m, identity).key) == identity,
    ensures
        decided(net(m, identity), dst) == if live(dst, identity) {
            Effect::Effective {
                key: net(m, identity).key,
                val: net(m, identity).val,
                asserts: false,
            }
        } else {
            Effect::Inert { key: net(m, identity).key }
        },
{
}

/// A record that the destination has with the same value is skipped where it is live, and revived
/// where it has been retracted.
pub proof fn law_a_known_record_is_skipped_or_revived(m: Content, dst: Content, identity: Seq<u8>)
    requires
        net(m, identity).divergent is None,
        net(m, identity).asserts,
        asserted_value(dst, identity) == Some(net(m, identity).val),
        identity_of(net(m, identity).key) == identity,
    ensures
        decided(net(m, identity), dst) == if live(dst, identity) {
            Effect::Redundant { key: net(m, identity).key }
        } else {
            Effect::Effective {
                key: net(m, identity).key,
                val: net(m, identity).val,
                asserts: true,
            }
        },
{
}

/// Where a key's value never changes there is no conflict: if all assertions under an identity,
/// in the view and in the destination, carry one value, the row is not divergent.
pub proof fn law_one_value_is_no_conflict(
    m: Content,
    dst: Content,
    identity: Seq<u8>,
    v: Validity,
    val: Seq<u8>,
)
    requires
        m.dom().finite(),
        identity.len() >= ID_LEN,
        has_version(m, identity, v),
        forall|a: Validity| #[trigger]
            has_version(m, identity, a) && a.is_assert ==> m[version_key(identity, a)] == val,
        forall|a: Validity| #[trigger]
            has_version(dst, identity, a) && a.is_assert ==> dst[version_key(identity, a)] == val,
    ensures
        !(decided(net(m, identity), dst) is Divergent),
{
    law_a_source_conflict_is_two_values(m, identity, v);
    lemma_versions_listed(m, identity, v);
    lemma_resolution_is_net(m, identity, ascending(versions_in(m, identity)));
    let n = newest(m, identity);
    assert(has_version(m, identity, n));
    lemma_version_key(identity, n);
    if exists|a: Validity| is_newest_assertion(dst, identity, a) {
        let a = choose|a: Validity| is_newest_assertion(dst, identity, a);
        assert(has_version(dst, identity, a));
    }
}

/// A scan that does not fail leaves no row behind that it could not take in: the source's top
/// layer has none of a relation without a validity.
pub proof fn law_no_row_without_a_validity_is_left_behind(
    db: Db,
    src: Seq<LayerRef>,
    dst: Seq<LayerRef>,
    id: u64,
)
    requires
        db.trace(src, dst, None).failure is None,
        db.relations@.contains_key(id),
        !db.relations@[id].is_index,
        !db.relations@[id].stackable,
    ensures
        between(
            db.layer_view(src, 0),
            relation_lower(db.relations@[id]@),
            Some(relation_upper(db.relations@[id]@)),
        ).dom() == Set::<Seq<u8>>::empty(),
{
    let r = lemma_id_listed(db.relations@, id);
    lemma_nothing_left(
        rel_views(db.relations@),
        db.view_of(src),
        db.layer_view(src, 0),
        db.view_of(dst),
        r,
    );
}

proof fn lemma_nothing_left(rels: Seq<RelView>, m: Content, top: Content, dst: Content, r: int)
    requires
        scan_all(rels, m, top, dst, None).failure is None,
        0 <= r < rels.len(),
        !rels[r].is_index,
        !rels[r].stackable,
    ensures
        between(top, relation_lower(rels[r]), Some(relation_upper(rels[r]))).dom() == Set::<
            Seq<u8>,
        >::empty(),
    decreases rels.len(),
{
    if r > 0 {
        assert(rels.drop_first()[r - 1] == rels[r]);
        lemma_nothing_left(rels.drop_first(), m, top, dst, r - 1);
    }
}

/// The bytes of key and value in the rows.
pub open spec fn write_bytes(writes: Seq<Kv>) -> nat
    decreases writes.len(),
{
    if writes.len() == 0 {
        0
    } else {
        write_bytes(writes.drop_last()) + writes.last().0.len() + writes.last().1.len()
    }
}

/// The counts are of what is written, and every decided row is counted once: as a copy, as a
/// duplicate, as a dropped tombstone or as a conflict.
pub proof fn law_the_counts_are_of_what_is_written(
    rows: Seq<(RelView, Effect)>,
    restamp: bool,
    stamp: Stamp,
)
    ensures
        plan_of(rows).rows_copied == writes_of(rows, restamp, stamp).len(),
        plan_of(rows).bytes_copied == write_bytes(writes_of(rows, restamp, stamp)),
        plan_of(rows).rows_copied + plan_of(rows).rows_deduped + plan_of(rows).tombstones_dropped
            + plan_of(rows).conflicts.len() == rows.len(),
    decreases rows.len(),
{
    if rows.len() > 0 {
        let front = rows.drop_last();
        let before = writes_of(front, restamp, stamp);
        law_the_counts_are_of_what_is_written(front, restamp, stamp);
        if let Effect::Effective { key, val, .. } = rows.last().1 {
            lemma_restamped_len(key, stamp);
            assert(before.push((written_key(key, restamp, stamp), val)).drop_last() =~= before);
        }
    }
}

/// A record is live exactly if a frontier scan as of now, from below all its versions, shows it:
/// by its newest version.
pub proof fn law_what_is_live_is_what_a_scan_shows(
    m: Content,
    upper: Option<Seq<u8>>,
    bound: Seq<u8>,
    identity: Seq<u8>,
    v: Validity,
)
    requires
        identity.len() >= ID_LEN,
        lex_le(bound, identity.push(VALIDITY_TAG)),
        below(version_key(identity, v), upper),
    ensures
        in_force(m, upper, bound, Stamp::MAX, version_key(identity, v)) <==> is_newest(
            m,
            identity,
            v,
        ) && v.is_assert,
{
    let key = version_key(identity, v);
    let lower = identity.push(VALIDITY_TAG);
    lemma_version_key(identity, v);
    assert forall|w: Validity| !lex_lt(#[trigger] version_key(identity, w), bound) by {
        let k = version_key(identity, w);
        lemma_version_has_prefix(identity, w);
        lemma_prefix_range(identity, VALIDITY_TAG, k);
        if lex_lt(k, bound) {
            lemma_lt_le(k, bound, lower);
        }
    }
    if in_force(m, upper, bound, Stamp::MAX, key) {
        assert(has_version(m, identity, v));
        assert forall|w: Validity| #[trigger] has_version(m, identity, w) implies !newer(w, v) by {
            assert(!lex_lt(version_key(identity, w), bound));
        }
    }
    if is_newest(m, identity, v) && v.is_assert {
        assert(between(m, bound, upper).contains_key(key));
    }
}

/// A view that holds one version of an identity and nothing else.
pub open spec fn alone(m: Content, identity: Seq<u8>, v: Validity) -> Content {
    Map::empty().insert(version_key(identity, v), m[version_key(identity, v)])
}

/// Where all assertions under an identity agree, in whatever order retractions come between them
/// and whichever layers hold them, it is no source conflict, and its effect is the one that its
/// newest version would have alone.
pub proof fn law_one_value_has_the_effect_of_its_newest_version(
    m: Content,
    dst: Content,
    identity: Seq<u8>,
    v: Validity,
    val: Seq<u8>,
)
    requires
        m.dom().finite(),
        identity.len() >= ID_LEN,
        has_version(m, identity, v),
        forall|a: Validity| #[trigger]
            has_version(m, identity, a) && a.is_assert ==> m[version_key(identity, a)] == val,
    ensures
        decided(net(m, identity), dst) == decided(
            net(alone(m, identity, newest(m, identity)), identity),
            dst,
        ),
        decided(net(m, identity), dst) matches Effect::Divergent { kind, .. } ==> kind
            == ConflictKind::Destination,
{
    let n = newest(m, identity);
    let one = alone(m, identity, n);
    law_a_source_conflict_is_two_values(m, identity, v);
    lemma_versions_listed(m, identity, v);
    lemma_resolution_is_net(m, identity, ascending(versions_in(m, identity)));
    assert forall|w: Validity| #[trigger] has_version(one, identity, w) implies w == n by {
        lemma_version_key(identity, w);
        lemma_version_key(identity, n);
    }
    assert(has_version(one, identity, n));
    assert(is_newest(one, identity, n));
    lemma_newest_unique(one, identity, n, newest(one, identity));
    assert(one.dom() =~= Set::empty().insert(version_key(identity, n)));
    law_a_source_conflict_is_two_values(one, identity, n);
}

/// A scan shows an identity of the source view whose assertions all carry one value as its newest
/// version alone would have it shown, and never as a conflict within the source.
pub proof fn law_a_scan_shows_one_value_by_its_newest_version(
    db: Db,
    src: Seq<LayerRef>,
    dst: Seq<LayerRef>,
    i: int,
    val: Seq<u8>,
)
    requires
        db.wf(),
        db.reads_regular(src),
        0 <= i < db.trace(src, dst, None).rows.len(),
        forall|a: Validity| #[trigger]
            has_version(db.view_of(src), about(db.trace(src, dst, None).rows[i]), a) && a.is_assert
                ==> db.view_of(src)[version_key(about(db.trace(src, dst, None).rows[i]), a)] == val,
    ensures
        ({
            let m = db.view_of(src);
            let row = db.trace(src, dst, None).rows[i];
            let identity = about(row);
            &&& row.1 == decided(
                net(alone(m, identity, newest(m, identity)), identity),
                db.view_of(dst),
            )
            &&& row.1 matches Effect::Divergent { kind, .. } ==> kind == ConflictKind::Destination
        }),
{
    let m = db.view_of(src);
    let t = db.trace(src, dst, None);
    let identity = about(t.rows[i]);
    lemma_trace_tells(db, src, dst);
    lemma_tells_row(t.rows, m, db.view_of(dst), i);
    lemma_key_is_version(t.rows[i].1.key());
    db.lemma_view_finite(src);
    law_one_value_has_the_effect_of_its_newest_version(
        m,
        db.view_of(dst),
        identity,
        newest(m, identity),
        val,
    );
}

/// Two layers of the source that disagree are reported as that whatever the destination holds,
/// and whether or not the newest version asserts.
pub proof fn law_a_source_conflict_does_not_ask_the_destination(r: Resolution, dst: Content)
    requires
        r.divergent is Some,
        r.asserted is Some,
    ensures
        decided(r, dst) == (Effect::Divergent {
            key: r.key,
            existing: r.divergent.unwrap(),
            incoming: r.asserted.unwrap(),
            kind: ConflictKind::Source,
        }),
{
}

/// A visitor that fails at a row ends the scan with its error, and is shown no further row.
pub proof fn law_a_visitors_error_is_handed_on<V: Visitor>(
    s: V::State,
    rows: Seq<(RelView, Effect)>,
    failure: Option<Failure>,
    n: int,
)
    requires
        0 <= n < rows.len(),
        feed::<V>(s, rows.take(n), None).1 is Done,
        V::refuses(feed::<V>(s, rows.take(n), None).0, rows[n].0, rows[n].1) is Some,
    ensures
        ({
            let t = feed::<V>(s, rows.take(n), None).0;
            feed::<V>(s, rows, failure) == (
                V::visited(t, rows[n].0, rows[n].1),
                Outcome::<V::Fault>::Refused {
                    fault: V::refuses(t, rows[n].0, rows[n].1).unwrap(),
                },
            )
        }),
{
    lemma_feed_append::<V>(s, rows.take(n), rows.skip(n), failure);
    assert(rows.take(n) + rows.skip(n) =~= rows);
}

/// What a stack of a regular store reads is regular.
pub proof fn law_a_regular_store_reads_regular(db: Db, stack: Seq<LayerRef>)
    requires
        db.regular(),
        db.fault(stack) is None,
    ensures
        db.reads_regular(stack),
{
    lemma_view_is_stored(db, stack);
    lemma_regular_subset(db.view_of(stack).dom(), db.keys());
}

} // verus!
