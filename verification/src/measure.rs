//! Bounds on what a scan can report: no more bytes than the layers it reads hold.

use vstd::prelude::*;

use crate::catalog::{lemma_listed_by_id, rel_views, RelView};
use crate::codec::{identity_of, lemma_versions_upper, validity_of};
use crate::content::{
    ascending, between, first_holder, lemma_ascending, lemma_between_finite, overlay,
};
use crate::flatten::plan_of;
use crate::iter::{windowed, Window};
use crate::layer::{row_at, rows_bytes, Content, Row};
use crate::order::{
    lemma_le_lt, lemma_lt_irreflexive, lemma_lt_le, lemma_lt_transitive, lemma_not_lt, lex_le,
    lex_lt,
};
use crate::scan::{
    decided, lemma_relation_range, lemma_relations_apart, lemma_run_len, relation_lower,
    relation_upper, resolution, run_len, scan_all, scan_relation, scan_rows, scan_start, Effect,
    Kv,
};
use crate::stack::{layer_index, Db, LayerRef};

verus! {

/// The bytes of a stream of rows.
spec fn stream_bytes(s: Seq<Kv>) -> nat
    decreases s.len(),
{
    if s.len() == 0 {
        0
    } else {
        stream_bytes(s.drop_last()) + s.last().0.len() + s.last().1.len()
    }
}

proof fn lemma_stream_bytes_append(a: Seq<Kv>, b: Seq<Kv>)
    ensures
        stream_bytes(a + b) == stream_bytes(a) + stream_bytes(b),
    decreases b.len(),
{
    if b.len() == 0 {
        assert(a + b =~= a);
    } else {
        assert((a + b).drop_last() =~= a + b.drop_last());
        lemma_stream_bytes_append(a, b.drop_last());
    }
}

proof fn lemma_stream_bytes_first(s: Seq<Kv>)
    requires
        s.len() > 0,
    ensures
        stream_bytes(s) >= s[0].0.len() + s[0].1.len(),
    decreases s.len(),
{
    if s.len() > 1 {
        lemma_stream_bytes_first(s.drop_last());
        assert(s.drop_last()[0] == s[0]);
    }
}

/// The bytes of the rows of a layer whose keys sort before `x`.
spec fn bytes_below(rows: Seq<Row>, x: Seq<u8>) -> nat
    decreases rows.len(),
{
    if rows.len() == 0 {
        0
    } else {
        bytes_below(rows.drop_last(), x) + if lex_lt(rows.last().key@, x) {
            rows.last().key@.len() + rows.last().val@.len()
        } else {
            0
        }
    }
}

proof fn lemma_bytes_below_monotonic(rows: Seq<Row>, x: Seq<u8>, y: Seq<u8>)
    requires
        lex_le(x, y),
    ensures
        bytes_below(rows, x) <= bytes_below(rows, y) <= rows_bytes(rows),
    decreases rows.len(),
{
    if rows.len() > 0 {
        lemma_bytes_below_monotonic(rows.drop_last(), x, y);
        if lex_lt(rows.last().key@, x) {
            lemma_lt_le(rows.last().key@, x, y);
        }
    }
}

proof fn lemma_bytes_below_row(rows: Seq<Row>, i: int, y: Seq<u8>)
    requires
        0 <= i < rows.len(),
        lex_lt(rows[i].key@, y),
    ensures
        bytes_below(rows, rows[i].key@) + rows[i].key@.len() + rows[i].val@.len() <= bytes_below(
            rows,
            y,
        ),
    decreases rows.len(),
{
    let k = rows[i].key@;
    if i < rows.len() - 1 {
        lemma_bytes_below_row(rows.drop_last(), i, y);
        assert(rows.drop_last()[i] == rows[i]);
        if lex_lt(rows.last().key@, k) {
            lemma_lt_transitive(rows.last().key@, k, y);
        }
    } else {
        lemma_lt_irreflexive(k);
        lemma_bytes_below_monotonic(rows.drop_last(), k, y);
    }
}

/// The bytes of the rows of several layers whose keys sort before `x`.
spec fn all_below(layers: Seq<Seq<Row>>, x: Seq<u8>) -> nat
    decreases layers.len(),
{
    if layers.len() == 0 {
        0
    } else {
        all_below(layers.drop_last(), x) + bytes_below(layers.last(), x)
    }
}

proof fn lemma_all_below_monotonic(layers: Seq<Seq<Row>>, x: Seq<u8>, y: Seq<u8>)
    requires
        lex_le(x, y),
    ensures
        all_below(layers, x) <= all_below(layers, y),
    decreases layers.len(),
{
    if layers.len() > 0 {
        lemma_all_below_monotonic(layers.drop_last(), x, y);
        lemma_bytes_below_monotonic(layers.last(), x, y);
    }
}

proof fn lemma_all_below_row(layers: Seq<Seq<Row>>, l: int, i: int, y: Seq<u8>)
    requires
        0 <= l < layers.len(),
        0 <= i < layers[l].len(),
        lex_lt(layers[l][i].key@, y),
    ensures
        all_below(layers, layers[l][i].key@) + layers[l][i].key@.len() + layers[l][i].val@.len()
            <= all_below(layers, y),
    decreases layers.len(),
{
    let k = layers[l][i].key@;
    if l < layers.len() - 1 {
        lemma_all_below_row(layers.drop_last(), l, i, y);
        lemma_bytes_below_monotonic(layers.last(), k, y);
    } else {
        lemma_bytes_below_row(layers.last(), i, y);
        lemma_all_below_monotonic(layers.drop_last(), k, y);
    }
}

/// `row` stands in one of the layers.
spec fn in_layers(layers: Seq<Seq<Row>>, row: Kv) -> bool {
    exists|l: int, i: int|
        0 <= l < layers.len() && 0 <= i < layers[l].len() && #[trigger] layers[l][i]@ == row
}

/// An ascending stream of rows of some layers, within a range, is no larger than what the layers
/// hold in that range.
proof fn lemma_stream_in_range(layers: Seq<Seq<Row>>, s: Seq<Kv>, lower: Seq<u8>, upper: Seq<u8>)
    requires
        lex_le(lower, upper),
        forall|i: int, j: int| 0 <= i < j < s.len() ==> lex_lt((#[trigger] s[i]).0, (#[trigger] s[j]).0),
        forall|i: int| 0 <= i < s.len() ==> lex_le(lower, (#[trigger] s[i]).0) && lex_lt(s[i].0, upper),
        forall|i: int| 0 <= i < s.len() ==> in_layers(layers, #[trigger] s[i]),
    ensures
        stream_bytes(s) + all_below(layers, lower) <= all_below(layers, upper),
    decreases s.len(),
{
    if s.len() == 0 {
        lemma_all_below_monotonic(layers, lower, upper);
    } else {
        let row = s.last();
        let front = s.drop_last();
        assert(in_layers(layers, s[s.len() - 1]));
        let (l, i) = choose|l: int, i: int|
            0 <= l < layers.len() && 0 <= i < layers[l].len() && #[trigger] layers[l][i]@ == row;
        assert forall|j: int| 0 <= j < front.len() implies lex_le(lower, (#[trigger] front[j]).0) && lex_lt(
            front[j].0,
            row.0,
        ) by {
            assert(front[j] == s[j]);
            assert(s[s.len() - 1] == row);
        }
        assert forall|j: int| 0 <= j < front.len() implies in_layers(layers, #[trigger] front[j]) by {
            assert(front[j] == s[j]);
        }
        lemma_stream_in_range(layers, front, lower, row.0);
        lemma_all_below_row(layers, l, i, upper);
    }
}

/// The bytes that decided rows stand for.
spec fn weight(rows: Seq<(RelView, Effect)>) -> nat
    decreases rows.len(),
{
    if rows.len() == 0 {
        0
    } else {
        weight(rows.drop_last()) + rows.last().1.key().len() + match rows.last().1 {
            Effect::Effective { val, .. } => val.len(),
            _ => 0,
        }
    }
}

proof fn lemma_weight_append(a: Seq<(RelView, Effect)>, b: Seq<(RelView, Effect)>)
    ensures
        weight(a + b) == weight(a) + weight(b),
    decreases b.len(),
{
    if b.len() == 0 {
        assert(a + b =~= a);
    } else {
        assert((a + b).drop_last() =~= a + b.drop_last());
        lemma_weight_append(a, b.drop_last());
    }
}

spec fn keys_not_empty(rows: Seq<(RelView, Effect)>) -> bool {
    forall|i: int| 0 <= i < rows.len() ==> (#[trigger] rows[i]).1.key().len() > 0
}

proof fn lemma_plan_weight(rows: Seq<(RelView, Effect)>)
    requires
        keys_not_empty(rows),
    ensures
        plan_of(rows).rows_copied <= weight(rows),
        plan_of(rows).bytes_copied <= weight(rows),
        plan_of(rows).rows_deduped <= weight(rows),
        plan_of(rows).tombstones_dropped <= weight(rows),
    decreases rows.len(),
{
    if rows.len() > 0 {
        assert forall|i: int| 0 <= i < rows.len() - 1 implies (
        #[trigger] rows.drop_last()[i]).1.key().len() > 0 by {
            assert(rows.drop_last()[i] == rows[i]);
        }
        lemma_plan_weight(rows.drop_last());
        assert(rows[rows.len() - 1].1.key().len() > 0);
    }
}

/// The rows that a scan decides weigh no more than the rows it reads.
proof fn lemma_scan_rows_weight(rel: RelView, rows: Seq<Kv>, dst: Content)
    ensures
        weight(scan_rows(rel, rows, dst).rows) <= stream_bytes(rows),
        keys_not_empty(scan_rows(rel, rows, dst).rows),
    decreases rows.len(),
{
    if rows.len() > 0 && validity_of(rows[0].0) is Some {
        let id = identity_of(rows[0].0);
        let n = run_len(rows, id) as int;
        lemma_run_len(rows, id);
        if !(n < rows.len() && validity_of(rows[n].0) is None) {
            let run = rows.take(n);
            let rest = rows.skip(n);
            lemma_scan_rows_weight(rel, rest, dst);
            assert(run + rest =~= rows);
            lemma_stream_bytes_append(run, rest);
            lemma_stream_bytes_first(run);
            assert(run[0] == rows[0]);
            let one = seq![(rel, decided(resolution(run), dst))];
            let later = scan_rows(rel, rest, dst).rows;
            lemma_weight_append(one, later);
            assert(one.drop_last() =~= Seq::<(RelView, Effect)>::empty());
            reveal_with_fuel(weight, 2);
            assert(weight(one) <= stream_bytes(run));
            assert forall|i: int| 0 <= i < (one + later).len() implies (
            #[trigger] (one + later)[i]).1.key().len() > 0 by {
                if i > 0 {
                    assert((one + later)[i] == later[i - 1]);
                }
            }
        }
    }
}

/// What a view holds stands in the layers it reads.
proof fn lemma_content_in_layers(layers: Seq<Seq<Row>>, windows: Seq<Window>, m: Content, k: Seq<u8>)
    requires
        layers.len() == windows.len(),
        m == overlay(Seq::new(layers.len(), |i: int| windowed(layers[i], windows[i]))),
        m.contains_key(k),
    ensures
        in_layers(layers, (k, m[k])),
{
    let maps = Seq::new(layers.len(), |i: int| windowed(layers[i], windows[i]));
    let l = choose|l: int| first_holder(maps, k, l);
    assert(first_holder(maps, k, l));
    let i = choose|i: int| row_at(layers[l], k, i);
    assert(row_at(layers[l], k, i));
    assert(m[k] == maps[l][k]);
    assert(layers[l][i]@ == (k, m[k]));
}

/// The rows that a scan of one relation decides weigh no more than what the layers hold of it.
proof fn lemma_scan_relation_weight(
    layers: Seq<Seq<Row>>,
    windows: Seq<Window>,
    rel: RelView,
    src: Content,
    top: Content,
    dst: Content,
    after: Option<Seq<u8>>,
)
    requires
        layers.len() == windows.len(),
        src == overlay(Seq::new(layers.len(), |i: int| windowed(layers[i], windows[i]))),
        src.dom().finite(),
        rel.id < u64::MAX,
    ensures
        weight(scan_relation(rel, src, top, dst, after).rows) + all_below(
            layers,
            relation_lower(rel),
        ) <= all_below(layers, relation_upper(rel)),
        keys_not_empty(scan_relation(rel, src, top, dst, after).rows),
{
    let lower = relation_lower(rel);
    let upper = relation_upper(rel);
    let t = scan_relation(rel, src, top, dst, after);
    lemma_relation_range(rel);
    lemma_all_below_monotonic(layers, lower, upper);
    let scanned = !rel.is_index && !(after matches Some(a) && !lex_lt(a, upper)) && rel.stackable;
    if scanned {
        let start = scan_start(rel, after);
        let m = between(src, start, Some(upper));
        let s = ascending(m);
        lemma_between_finite(src, start, Some(upper));
        lemma_ascending(m);
        lemma_scan_rows_weight(rel, s, dst);
        assert(lex_le(lower, start)) by {
            if let Some(a) = after {
                if lex_lt(lower, a) {
                    lemma_versions_upper(a);
                    lemma_lt_transitive(lower, a, start);
                }
            }
        }
        assert forall|i: int| 0 <= i < s.len() implies lex_le(lower, (#[trigger] s[i]).0) && lex_lt(
            s[i].0,
            upper,
        ) by {
            assert(m.contains_key(s[i].0));
            lemma_not_lt(s[i].0, start);
            if lower != start && start != s[i].0 {
                lemma_lt_transitive(lower, start, s[i].0);
            }
        }
        assert forall|i: int| 0 <= i < s.len() implies in_layers(layers, #[trigger] s[i]) by {
            assert(m.contains_key(s[i].0));
            lemma_content_in_layers(layers, windows, src, s[i].0);
        }
        lemma_stream_in_range(layers, s, lower, upper);
    } else {
        assert(t.rows =~= Seq::<(RelView, Effect)>::empty());
    }
}

proof fn lemma_scan_all_weight(
    layers: Seq<Seq<Row>>,
    windows: Seq<Window>,
    rels: Seq<RelView>,
    src: Content,
    top: Content,
    dst: Content,
    after: Option<Seq<u8>>,
)
    requires
        layers.len() == windows.len(),
        src == overlay(Seq::new(layers.len(), |i: int| windowed(layers[i], windows[i]))),
        src.dom().finite(),
        rels.len() > 0,
        forall|i: int, j: int| 0 <= i < j < rels.len() ==> (#[trigger] rels[i]).id < (#[trigger] rels[j]).id,
        forall|i: int| 0 <= i < rels.len() ==> (#[trigger] rels[i]).id < u64::MAX,
    ensures
        weight(scan_all(rels, src, top, dst, after).rows) + all_below(
            layers,
            relation_lower(rels[0]),
        ) <= all_below(layers, relation_upper(rels.last())),
        keys_not_empty(scan_all(rels, src, top, dst, after).rows),
    decreases rels.len(),
{
    let here = scan_relation(rels[0], src, top, dst, after);
    let rest = rels.drop_first();
    let later = scan_all(rest, src, top, dst, after);
    lemma_scan_relation_weight(layers, windows, rels[0], src, top, dst, after);
    lemma_weight_append(here.rows, later.rows);
    if rest.len() > 0 {
        assert forall|i: int, j: int| 0 <= i < j < rest.len() implies (#[trigger] rest[i]).id < (
        #[trigger] rest[j]).id by {
            assert(rest[i] == rels[i + 1] && rest[j] == rels[j + 1]);
        }
        lemma_scan_all_weight(layers, windows, rest, src, top, dst, after);
        assert(rest[0] == rels[1]);
        lemma_relations_apart(rels[0], rels[1]);
        lemma_all_below_monotonic(layers, relation_upper(rels[0]), relation_lower(rels[1]));
        assert(rest.last() == rels.last());
    } else {
        assert(later.rows =~= Seq::<(RelView, Effect)>::empty());
        assert(here.rows + later.rows =~= here.rows);
        assert(rels[0] == rels.last());
    }
    let all = here.rows + later.rows;
    assert forall|i: int| 0 <= i < all.len() implies (#[trigger] all[i]).1.key().len() > 0 by {
        if i < here.rows.len() {
            assert(all[i] == here.rows[i]);
        } else {
            assert(all[i] == later.rows[i - here.rows.len()]);
        }
    }
    if here.failure is Some && rest.len() > 0 {
        lemma_relation_chain(rels);
        lemma_all_below_monotonic(layers, relation_upper(rels[0]), relation_upper(rels.last()));
    }
}

/// The rows of the layers that a stack names.
spec fn stack_rows(db: Db, stack: Seq<LayerRef>) -> Seq<Seq<Row>> {
    Seq::new(
        stack.len(),
        |i: int| db.layers@[layer_index(db.layers@, stack[i].name@)].rows@,
    )
}

proof fn lemma_all_below_total(db: Db, stack: Seq<LayerRef>, n: int, x: Seq<u8>)
    requires
        db.fault(stack) is None,
        0 <= n <= stack.len(),
    ensures
        all_below(stack_rows(db, stack).take(n), x) <= db.stack_bytes(stack, n),
    decreases n,
{
    let part = stack_rows(db, stack).take(n);
    if n > 0 {
        lemma_all_below_total(db, stack, n - 1, x);
        assert(part.drop_last() =~= stack_rows(db, stack).take(n - 1));
        db.lemma_known(stack, n - 1);
        lemma_bytes_below_monotonic(part.last(), x, x);
    }
}

/// What a scan of a countable view comes to fits the machine's counters.
pub proof fn lemma_countable(db: Db, src: Seq<LayerRef>, top: Content, dst: Content, after: Option<Seq<u8>>)
    requires
        db.wf(),
        db.fault(src) is None,
        db.countable(src),
    ensures
        plan_of(scan_all(rel_views(db.relations@), db.view_of(src), top, dst, after).rows).fits(),
{
    let rels = rel_views(db.relations@);
    let layers = stack_rows(db, src);
    let windows = Seq::new(src.len(), |i: int| src[i].window);
    let view = db.view_of(src);
    let t = scan_all(rels, view, top, dst, after);
    assert(Seq::new(layers.len(), |i: int| windowed(layers[i], windows[i])) =~= Seq::new(
        src.len(),
        |i: int| db.layer_view(src, i),
    ));
    db.lemma_view_finite(src);
    if rels.len() > 0 {
        lemma_listed_by_id(db.relations@);
        lemma_scan_all_weight(layers, windows, rels, view, top, dst, after);
        lemma_all_below_total(db, src, src.len() as int, relation_upper(rels.last()));
        assert(layers.take(src.len() as int) =~= layers);
        lemma_plan_weight(t.rows);
    }
}

/// The first of several relations ends no later than the last.
proof fn lemma_relation_chain(rels: Seq<RelView>)
    requires
        rels.len() > 1,
        forall|i: int, j: int| 0 <= i < j < rels.len() ==> (#[trigger] rels[i]).id < (#[trigger] rels[j]).id,
        forall|i: int| 0 <= i < rels.len() ==> (#[trigger] rels[i]).id < u64::MAX,
    ensures
        lex_le(relation_upper(rels[0]), relation_upper(rels.last())),
{
    let n = rels.len() - 1;
    assert(rels[0].id < rels[n].id);
    lemma_relations_apart(rels[0], rels[n]);
    lemma_relation_range(rels[n]);
    lemma_le_lt(relation_upper(rels[0]), relation_lower(rels[n]), relation_upper(rels[n]));
}

} // verus!
