//! What a flatten changes, what it can count, and what the catalog that it goes by says.

use vstd::prelude::*;

use crate::aftermath::{lemma_writes_are_rows, lemma_written_key};
use crate::catalog::{ids_of, lemma_id_listed, lemma_ids, lemma_listed_by_id, rel_views, RelView};
use crate::codec::{identity_of, restamped, validity_of, version_key, Stamp, Validity};
use crate::flatten::{flattened, plan_of, writes_of, written, written_key};
use crate::laws::{lemma_trace_tells, went_through};
use crate::laws::reporting::law_the_last_write_to_a_key_counts;
use crate::layer::{lemma_row_is_unique, row_at, rows_bytes, rows_content, Content, Row};
use crate::net::{about, lemma_tells_order, lemma_tells_row, tells};
use crate::scan::{admissible, Effect, Kv, Visitor};
use crate::stack::{has_layer, is_layer, layer_index, lemma_layer_index, Db, LayerRef};

verus! {

/// Row `n` of the scan is copied under this key: its own, or with the stamp moved if the rows are
/// stamped anew.
pub open spec fn copied_under(
    rows: Seq<(RelView, Effect)>,
    restamp: bool,
    stamp: Stamp,
    n: int,
    k: Seq<u8>,
) -> bool {
    &&& 0 <= n < rows.len()
    &&& rows[n].1 matches Effect::Effective { key, .. }
    &&& validity_of(key) matches Some(v)
    &&& k == if restamp {
        version_key(identity_of(key), Validity { timestamp: stamp, is_assert: v.is_assert })
    } else {
        key
    }
}

/// Some row has this key.
pub open spec fn has_row(rows: Seq<Row>, k: Seq<u8>) -> bool {
    exists|j: int| 0 <= j < rows.len() && (#[trigger] rows[j]).key@ == k
}

/// A flatten that goes through changes the first layer of the name of the destination's top place,
/// and nothing else: no other layer, no name, no relation. There it puts the effective rows of the
/// scan, each under its key or with its stamp moved and with its value, and leaves every other row as
/// it was.
pub proof fn law_a_flatten_writes_its_rows_and_nothing_else(
    before: Db,
    after: Db,
    src: Seq<LayerRef>,
    dst: Seq<LayerRef>,
    restamp: bool,
    stamp: Stamp,
    at: int,
    k: Seq<u8>,
)
    requires
        went_through(before, after, src, dst, restamp, stamp),
        after.wf(),
        0 <= at < before.layers@.len(),
        before.layers@[at].name@ == dst[0].name@,
        forall|l: int| 0 <= l < at ==> (#[trigger] before.layers@[l]).name@ != dst[0].name@,
    ensures
        after.relations == before.relations,
        after.layers@.len() == before.layers@.len(),
        forall|l: int|
            0 <= l < before.layers@.len() && l != at ==> #[trigger] after.layers@[l]
                == before.layers@[l],
        after.layers@[at].name == before.layers@[at].name,
        ({
            let rows = before.trace(src, dst, None).rows;
            let was = before.layers@[at].rows@;
            let now = after.layers@[at].rows@;
            &&& has_row(now, k) <==> has_row(was, k) || exists|n: int|
                copied_under(rows, restamp, stamp, n, k)
            &&& forall|n: int, j: int|
                copied_under(rows, restamp, stamp, n, k) && 0 <= j < now.len() && now[j].key@ == k
                    ==> #[trigger] now[j].val@ == (#[trigger] rows[n]).1->val
            &&& forall|i: int, j: int|
                0 <= i < was.len() && was[i].key@ == k && 0 <= j < now.len() && now[j].key@ == k && (
                forall|n: int| !copied_under(rows, restamp, stamp, n, k)) ==> (#[trigger] now[j]).val@
                    == (#[trigger] was[i]).val@
        }),
{
    let rows = before.trace(src, dst, None).rows;
    let was = before.layers@[at].rows@;
    let now = after.layers@[at].rows@;
    assert(is_layer(before.layers@, dst[0].name@, at));
    lemma_layer_index(before.layers@, dst[0].name@, at);
    assert(before.layers@[at].wf() && after.layers@[at].wf());
    lemma_trace_tells(before, src, dst);
    lemma_rows_written(
        rows_content(was),
        rows,
        before.view_of(src),
        before.view_of(dst),
        restamp,
        stamp,
        k,
    );
    assert(rows_content(now) == written(rows_content(was), writes_of(rows, restamp, stamp)));
    lemma_has_row(was, k);
    lemma_has_row(now, k);
    assert forall|n: int, j: int|
        copied_under(rows, restamp, stamp, n, k) && 0 <= j < now.len() && now[j].key@
            == k implies #[trigger] now[j].val@ == (#[trigger] rows[n]).1->val by {
        lemma_row_is_unique(now, j);
    }
    assert forall|i: int, j: int|
        0 <= i < was.len() && was[i].key@ == k && 0 <= j < now.len() && now[j].key@ == k && (forall|
            n: int,
        |
            !copied_under(rows, restamp, stamp, n, k)) implies (#[trigger] now[j]).val@ == (
    #[trigger] was[i]).val@ by {
        lemma_row_is_unique(now, j);
        lemma_row_is_unique(was, i);
    }
}

/// What writing the effective rows of a scan does to a content.
proof fn lemma_rows_written(
    m: Content,
    rows: Seq<(RelView, Effect)>,
    view: Content,
    held: Content,
    restamp: bool,
    stamp: Stamp,
    k: Seq<u8>,
)
    requires
        tells(rows, view, held),
    ensures
        ({
            let now = written(m, writes_of(rows, restamp, stamp));
            &&& now.contains_key(k) <==> m.contains_key(k) || exists|n: int|
                copied_under(rows, restamp, stamp, n, k)
            &&& forall|n: int| #[trigger]
                copied_under(rows, restamp, stamp, n, k) ==> now[k] == rows[n].1->val
            &&& (forall|n: int| !copied_under(rows, restamp, stamp, n, k)) && m.contains_key(k)
                ==> now[k] == m[k]
        }),
{
    let writes = writes_of(rows, restamp, stamp);
    let now = written(m, writes);
    law_the_last_write_to_a_key_counts(m, writes, k);
    assert forall|n: int| 0 <= n < rows.len() implies validity_of((#[trigger] rows[n]).1.key())
        is Some by {
        lemma_tells_row(rows, view, held, n);
    }
    assert forall|n: int| #[trigger] copied_under(rows, restamp, stamp, n, k) implies now.contains_key(
        k,
    ) && now[k] == rows[n].1->val by {
        lemma_row_is_the_last_written(rows, view, held, restamp, stamp, n);
        let w = writes_of(rows.take(n), restamp, stamp).len() as int;
        assert(writes[w].0 == k);
    }
    if exists|i: int| 0 <= i < writes.len() && (#[trigger] writes[i]).0 == k {
        let i = choose|i: int| 0 <= i < writes.len() && (#[trigger] writes[i]).0 == k;
        let n = lemma_writes_are_rows(rows, restamp, stamp, i);
        assert(copied_under(rows, restamp, stamp, n, k));
    }
}

/// An effective row is written, and nothing written after it goes under the same key.
proof fn lemma_row_is_the_last_written(
    rows: Seq<(RelView, Effect)>,
    view: Content,
    held: Content,
    restamp: bool,
    stamp: Stamp,
    n: int,
)
    requires
        tells(rows, view, held),
        0 <= n < rows.len(),
        rows[n].1 is Effective,
        forall|i: int| 0 <= i < rows.len() ==> validity_of((#[trigger] rows[i]).1.key()) is Some,
    ensures
        ({
            let writes = writes_of(rows, restamp, stamp);
            let w = writes_of(rows.take(n), restamp, stamp).len() as int;
            &&& 0 <= w < writes.len()
            &&& writes[w] == (written_key(rows[n].1.key(), restamp, stamp), rows[n].1->val)
            &&& forall|j: int| w < j < writes.len() ==> (#[trigger] writes[j]).0 != writes[w].0
        }),
{
    let writes = writes_of(rows, restamp, stamp);
    let w = lemma_row_is_written(rows, restamp, stamp, n);
    assert forall|i: int| 0 <= i < rows.len() && i != n implies about(#[trigger] rows[i]) != about(
        rows[n],
    ) by {
        if i < n {
            lemma_tells_order(rows, view, held, i, n);
        } else {
            lemma_tells_order(rows, view, held, n, i);
        }
    }
    assert forall|j: int| w < j < writes.len() implies (#[trigger] writes[j]).0 != writes[w].0 by {
        lemma_written_once(rows, restamp, stamp, w, j, n);
    }
}

proof fn lemma_has_row(rows: Seq<Row>, k: Seq<u8>)
    ensures
        has_row(rows, k) <==> rows_content(rows).contains_key(k),
{
    if has_row(rows, k) {
        let j = choose|j: int| 0 <= j < rows.len() && (#[trigger] rows[j]).key@ == k;
        assert(row_at(rows, k, j));
    }
    if rows_content(rows).contains_key(k) {
        let j = choose|j: int| row_at(rows, k, j);
        assert(rows[j].key@ == k);
    }
}

/// Every effective row is written.
proof fn lemma_row_is_written(
    rows: Seq<(RelView, Effect)>,
    restamp: bool,
    stamp: Stamp,
    n: int,
) -> (w: int)
    requires
        0 <= n < rows.len(),
        rows[n].1 is Effective,
    ensures
        0 <= w < writes_of(rows, restamp, stamp).len(),
        writes_of(rows, restamp, stamp)[w] == (
            written_key(rows[n].1.key(), restamp, stamp),
            rows[n].1->val,
        ),
        w == writes_of(rows.take(n), restamp, stamp).len(),
    decreases rows.len(),
{
    let front = rows.drop_last();
    if n == rows.len() - 1 {
        assert(rows.take(n) =~= front);
        writes_of(front, restamp, stamp).len() as int
    } else {
        assert(front[n] == rows[n]);
        assert(front.take(n) =~= rows.take(n));
        lemma_row_is_written(front, restamp, stamp, n)
    }
}

/// A row that no other row shares its identity with is written once.
proof fn lemma_written_once(
    rows: Seq<(RelView, Effect)>,
    restamp: bool,
    stamp: Stamp,
    w: int,
    j: int,
    n: int,
)
    requires
        0 <= n < rows.len(),
        rows[n].1 is Effective,
        forall|i: int| 0 <= i < rows.len() ==> validity_of((#[trigger] rows[i]).1.key()) is Some,
        forall|i: int|
            0 <= i < rows.len() && i != n ==> about(#[trigger] rows[i]) != about(rows[n]),
        0 <= w < j < writes_of(rows, restamp, stamp).len(),
        w == writes_of(rows.take(n), restamp, stamp).len(),
    ensures
        writes_of(rows, restamp, stamp)[j].0 != written_key(rows[n].1.key(), restamp, stamp),
    decreases rows.len(),
{
    let front = rows.drop_last();
    let before = writes_of(front, restamp, stamp);
    let last = rows.len() - 1;
    if n == last {
        assert(rows.take(n) =~= front);
    } else {
        assert(front[n] == rows[n]);
        assert(front.take(n) =~= rows.take(n));
        if j < before.len() {
            assert(forall|i: int| 0 <= i < front.len() ==> #[trigger] front[i] == rows[i]);
            lemma_written_once(front, restamp, stamp, w, j, n);
        } else {
            assert(about(rows[last]) != about(rows[n]));
            lemma_written_key(rows[last].1.key(), restamp, stamp);
            lemma_written_key(rows[n].1.key(), restamp, stamp);
        }
    }
}

/// A row is written under its own key, or under the key with its stamp moved.
pub proof fn law_a_row_is_written_under_its_key(key: Seq<u8>, restamp: bool, stamp: Stamp)
    ensures
        !restamp ==> written_key(key, restamp, stamp) == key,
        restamp ==> written_key(key, restamp, stamp) == restamped(key, stamp),
{
}

/// What `flattened` says of two stores: the rows have been written, in order, to the first layer of
/// the name, and all else is as it was.
pub proof fn law_one_layer_is_written(before: Db, after: Db, name: Seq<char>, writes: Seq<Kv>, at: int)
    requires
        0 <= at < before.layers@.len(),
        before.layers@[at].name@ == name,
        forall|l: int| 0 <= l < at ==> (#[trigger] before.layers@[l]).name@ != name,
    ensures
        has_layer(before.layers@, name),
        layer_index(before.layers@, name) == at,
        flattened(before, after, name, writes) <==> {
            &&& after.relations == before.relations
            &&& after.layers@.len() == before.layers@.len()
            &&& forall|l: int|
                0 <= l < before.layers@.len() && l != at ==> #[trigger] after.layers@[l]
                    == before.layers@[l]
            &&& after.layers@[at].name == before.layers@[at].name
            &&& after.layers@[at].content() == written(before.layers@[at].content(), writes)
        },
{
    assert(is_layer(before.layers@, name, at));
    lemma_layer_index(before.layers@, name, at);
}

/// A flatten can be counted exactly if what it comes to fits machine words, and rows hold as many
/// bytes as their keys and values do.
pub proof fn law_what_fits_can_be_counted(
    db: Db,
    src: Seq<LayerRef>,
    dst: Seq<LayerRef>,
    rows: Seq<Row>,
)
    requires
        db.fault(src) is None,
        db.fault(dst) is None,
    ensures
        ({
            let plan = plan_of(db.trace(src, dst, None).rows);
            db.counted(src, dst) <==> {
                &&& plan.rows_copied <= u64::MAX
                &&& plan.bytes_copied <= u64::MAX
                &&& plan.rows_deduped <= u64::MAX
                &&& plan.tombstones_dropped <= u64::MAX
            }
        }),
        rows_bytes(rows) == rows.fold_left(
            0int,
            |n: int, r: Row| n + r.key@.len() + r.val@.len(),
        ),
    decreases rows.len(),
{
    reveal_with_fuel(Seq::fold_left, 2);
    if rows.len() > 0 {
        law_what_fits_can_be_counted(db, src, dst, rows.drop_last());
    }
}

/// A stack is countable exactly if the layers that its places name hold no more bytes, all places
/// taken together, than a machine word counts.
pub proof fn law_a_stack_is_countable_if_its_bytes_are(db: Db, stack: Seq<LayerRef>)
    ensures
        db.countable(stack) <==> stack.fold_left(
            0int,
            |n: int, p: LayerRef|
                n + if has_layer(db.layers@, p.name@) {
                    rows_bytes(db.layers@[layer_index(db.layers@, p.name@)].rows@) as int
                } else {
                    0int
                },
        ) <= u64::MAX,
{
    lemma_stack_bytes(db, stack, stack.len() as int);
    assert(stack.take(stack.len() as int) =~= stack);
}

proof fn lemma_stack_bytes(db: Db, stack: Seq<LayerRef>, n: int)
    requires
        0 <= n <= stack.len(),
    ensures
        db.stack_bytes(stack, n) == stack.take(n).fold_left(
            0int,
            |n: int, p: LayerRef|
                n + if has_layer(db.layers@, p.name@) {
                    rows_bytes(db.layers@[layer_index(db.layers@, p.name@)].rows@) as int
                } else {
                    0int
                },
        ),
    decreases n,
{
    reveal_with_fuel(Seq::fold_left, 2);
    if n > 0 {
        lemma_stack_bytes(db, stack, n - 1);
        assert(stack.take(n).drop_last() =~= stack.take(n - 1));
        assert(stack.take(n).last() == stack[n - 1]);
    }
}

/// A visitor can be shown the rows of a scan if it can take in each of them when it comes to it.
pub proof fn law_a_visitor_that_can_take_in_each_row_can_be_shown_them<V: Visitor>(
    s: V::State,
    rows: Seq<(RelView, Effect)>,
)
    requires
        forall|t: V::State, i: int|
            0 <= i < rows.len() ==> #[trigger] V::ready(t, rows[i].0, rows[i].1),
    ensures
        admissible::<V>(s, rows),
    decreases rows.len(),
{
    if rows.len() > 0 {
        let rest = rows.drop_first();
        assert forall|t: V::State, i: int| 0 <= i < rest.len() implies #[trigger] V::ready(
            t,
            rest[i].0,
            rest[i].1,
        ) by {
            assert(rest[i] == rows[i + 1]);
            assert(V::ready(t, rows[i + 1].0, rows[i + 1].1));
        }
        law_a_visitor_that_can_take_in_each_row_can_be_shown_them::<V>(
            V::visited(s, rows[0].0, rows[0].1),
            rest,
        );
        assert(V::ready(s, rows[0].0, rows[0].1));
    }
}

/// The relations are scanned in order of id, each once.
pub proof fn law_relations_come_in_order_of_id(db: Db, id: u64, i: int)
    requires
        db.wf(),
    ensures
        rel_views(db.relations@).len() == db.relations@.dom().len(),
        db.relations@.contains_key(id) <==> exists|r: int|
            0 <= r < rel_views(db.relations@).len() && (#[trigger] rel_views(db.relations@)[r]).id
                == id,
        0 <= i < rel_views(db.relations@).len() ==> {
            let rel = rel_views(db.relations@)[i];
            db.relations@.contains_key(rel.id) && rel == db.relations@[rel.id]@
        },
        0 < i < rel_views(db.relations@).len() ==> rel_views(db.relations@)[i - 1].id < rel_views(
            db.relations@,
        )[i].id,
{
    let rels = rel_views(db.relations@);
    let ids = ids_of(db.relations@);
    lemma_ids(db.relations@);
    lemma_listed_by_id(db.relations@);
    assert forall|r: int| 0 <= r < rels.len() implies db.relations@.contains_key(#[trigger] ids[r])
        && rels[r].id == ids[r] by {
        assert(ids.to_set().contains(ids[r]));
    }
    if db.relations@.contains_key(id) {
        let r = lemma_id_listed(db.relations@, id);
        assert(rels[r].id == id);
    }
    if exists|r: int| 0 <= r < rels.len() && (#[trigger] rels[r]).id == id {
        let r = choose|r: int| 0 <= r < rels.len() && (#[trigger] rels[r]).id == id;
        assert(db.relations@.contains_key(ids[r]));
    }
    if 0 <= i < rels.len() {
        assert(db.relations@.contains_key(ids[i]));
    }
    assert(ids.no_duplicates());
    ids.unique_seq_to_set();
}

} // verus!
