//! What is read: a layer through its window, a stack of layers as one view, a range of a view, and
//! what a view says of an identity.

use vstd::prelude::*;

use crate::codec::{
    identity_of, lemma_key_is_version, lemma_version_key, validity_of, version_key, Stamp,
    VALIDITY_TAG, Validity,
};
use crate::content::{
    ascending, below, between, first_holder, is_least, lemma_ascending, lemma_least_exists,
    lemma_overlay_keys, lemma_overlay_value, overlay,
};
use crate::iter::{
    admitted, frontier_rows, shows, stack_content, windowed, LayerIter, RawIter, StackMerge,
    StackRawIter, StackSkipIter, Window,
};
use crate::laws::{lemma_versions_listed, versions_in};
use crate::layer::{lemma_row_is_unique, row_at, rows_content, rows_sorted, Content, Layer, Row};
use crate::net::{lemma_first_assertion, lemma_resolution_is_net, regular};
use crate::order::{
    has_prefix, lemma_lt_asymmetric, lemma_lt_irreflexive, lemma_not_lt, lex_le, lex_lt,
};
use crate::scan::{
    asserted_value, asserts, first_assertion, has_version, is_newest, is_newest_assertion,
    lemma_newest_unique, live,
};
use crate::stack::{
    bound_content, bound_wf, is_layer, layer_index, lemma_layer_index, BoundLayer, Db, LayerRef,
};

verus! {

/// A window shows a row exactly if the row's stamp is above its floor and not above its ceiling,
/// each where it has one. A row without a stamp is shown by every window.
pub proof fn law_a_window_shows_what_is_stamped_inside_it(w: Window, key: Seq<u8>)
    ensures
        admitted(w, key) <==> match validity_of(key) {
            None => true,
            Some(v) => (w.since is None || w.since.unwrap() < v.timestamp) && (w.bound is None
                || v.timestamp <= w.bound.unwrap()),
        },
        forall|t: Stamp|
            shows(w, t) <==> (w.since is None || w.since.unwrap() < t) && (w.bound is None || t
                <= w.bound.unwrap()),
{
}

/// Rows hold a key exactly if one of them has it, and rows in order hold under it that row's value.
pub proof fn law_rows_hold_what_is_in_them(rows: Seq<Row>, k: Seq<u8>, j: int)
    requires
        rows_sorted(rows),
    ensures
        rows_content(rows).contains_key(k) <==> exists|i: int|
            0 <= i < rows.len() && (#[trigger] rows[i]).key@ == k,
        0 <= j < rows.len() && rows[j].key@ == k ==> rows_content(rows)[k] == rows[j].val@,
{
    if 0 <= j < rows.len() && rows[j].key@ == k {
        lemma_row_is_unique(rows, j);
    }
    if exists|i: int| 0 <= i < rows.len() && (#[trigger] rows[i]).key@ == k {
        let i = choose|i: int| 0 <= i < rows.len() && (#[trigger] rows[i]).key@ == k;
        assert(row_at(rows, k, i));
    }
    if rows_content(rows).contains_key(k) {
        let i = choose|i: int| row_at(rows, k, i);
        assert(rows[i].key@ == k);
    }
}

/// A layer holds what its rows hold, and shows through a window what the window shows of them.
pub proof fn law_a_window_on_rows_shows_the_rows_inside_it(
    layer: Layer,
    w: Window,
    k: Seq<u8>,
    j: int,
)
    requires
        rows_sorted(layer.rows@),
    ensures
        layer.content() == rows_content(layer.rows@),
        windowed(layer.rows@, w).contains_key(k) <==> admitted(w, k) && exists|i: int|
            0 <= i < layer.rows@.len() && (#[trigger] layer.rows@[i]).key@ == k,
        windowed(layer.rows@, w).contains_key(k) && 0 <= j < layer.rows@.len()
            && layer.rows@[j].key@ == k ==> windowed(layer.rows@, w)[k] == layer.rows@[j].val@,
{
    law_rows_hold_what_is_in_them(layer.rows@, k, j);
}

/// Place `i` of the stack names layer `l`, the first of its name, and the place's own window shows
/// row `j` of that layer, which has this key.
pub open spec fn shown_at(
    db: Db,
    stack: Seq<LayerRef>,
    k: Seq<u8>,
    i: int,
    l: int,
    j: int,
) -> bool {
    &&& 0 <= i < stack.len()
    &&& 0 <= l < db.layers@.len()
    &&& db.layers@[l].name@ == stack[i].name@
    &&& forall|m: int| 0 <= m < l ==> (#[trigger] db.layers@[m]).name@ != stack[i].name@
    &&& 0 <= j < db.layers@[l].rows@.len()
    &&& db.layers@[l].rows@[j].key@ == k
    &&& validity_of(k) matches Some(v) ==> {
        &&& stack[i].window.since is None || stack[i].window.since.unwrap() < v.timestamp
        &&& stack[i].window.bound is None || v.timestamp <= stack[i].window.bound.unwrap()
    }
}

/// A place of a stack shows a row of its layer exactly if its own window does.
pub proof fn law_a_place_shows_its_layer_through_its_own_window(
    db: Db,
    stack: Seq<LayerRef>,
    k: Seq<u8>,
    i: int,
)
    requires
        db.wf(),
        db.fault(stack) is None,
        0 <= i < stack.len(),
    ensures
        db.layer_view(stack, i).contains_key(k) <==> exists|l: int, j: int|
            shown_at(db, stack, k, i, l, j),
        forall|l: int, j: int| #[trigger]
            shown_at(db, stack, k, i, l, j) ==> db.layer_view(stack, i)[k]
                == db.layers@[l].rows@[j].val@,
{
    let at = layer_index(db.layers@, stack[i].name@);
    db.lemma_known(stack, i);
    assert(is_layer(db.layers@, stack[i].name@, at));
    let rows = db.layers@[at].rows@;
    assert(db.layers@[at].wf());
    assert forall|l: int, j: int| #[trigger] shown_at(db, stack, k, i, l, j) implies db.layer_view(
        stack,
        i,
    ).contains_key(k) && db.layer_view(stack, i)[k] == db.layers@[l].rows@[j].val@ by {
        lemma_layer_index(db.layers@, stack[i].name@, l);
        lemma_row_is_unique(rows, j);
    }
    if db.layer_view(stack, i).contains_key(k) {
        let j = choose|j: int| row_at(rows, k, j);
        assert(shown_at(db, stack, k, i, at, j));
    }
}

/// A stack shows a key exactly if one of its places does through that place's own window, and the
/// topmost of those says what is under it.
pub proof fn law_a_stack_shows_what_its_places_show(db: Db, stack: Seq<LayerRef>, k: Seq<u8>)
    requires
        db.wf(),
        db.fault(stack) is None,
    ensures
        db.view_of(stack).contains_key(k) <==> exists|i: int, l: int, j: int|
            shown_at(db, stack, k, i, l, j),
        forall|i: int, l: int, j: int| #[trigger]
            shown_at(db, stack, k, i, l, j) && (forall|h: int, a: int, b: int|
                shown_at(db, stack, k, h, a, b) ==> i <= h) ==> db.view_of(stack)[k]
                == db.layers@[l].rows@[j].val@,
{
    let maps = Seq::new(stack.len(), |i: int| db.layer_view(stack, i));
    lemma_overlay_keys(maps);
    if db.view_of(stack).contains_key(k) {
        let i = choose|i: int| 0 <= i < maps.len() && (#[trigger] maps[i]).contains_key(k);
        law_a_place_shows_its_layer_through_its_own_window(db, stack, k, i);
        let (l, j) = choose|l: int, j: int| shown_at(db, stack, k, i, l, j);
        assert(shown_at(db, stack, k, i, l, j));
    }
    assert forall|i: int, l: int, j: int| #[trigger] shown_at(db, stack, k, i, l, j) implies db.view_of(
        stack,
    ).contains_key(k) by {
        law_a_place_shows_its_layer_through_its_own_window(db, stack, k, i);
        assert(maps[i].contains_key(k));
    }
    assert forall|i: int, l: int, j: int| #[trigger]
        shown_at(db, stack, k, i, l, j) && (forall|h: int, a: int, b: int|
            shown_at(db, stack, k, h, a, b) ==> i <= h) implies db.view_of(stack)[k]
        == db.layers@[l].rows@[j].val@ by {
        law_a_place_shows_its_layer_through_its_own_window(db, stack, k, i);
        assert(maps[i].contains_key(k));
        assert forall|h: int| 0 <= h < i implies !(#[trigger] maps[h]).contains_key(k) by {
            if maps[h].contains_key(k) {
                law_a_place_shows_its_layer_through_its_own_window(db, stack, k, h);
                let (a, b) = choose|a: int, b: int| shown_at(db, stack, k, h, a, b);
                assert(shown_at(db, stack, k, h, a, b));
            }
        }
        assert(first_holder(maps, k, i));
        lemma_overlay_value(maps, k, i);
    }
}

/// Row `j` of the `i`th layer has this key, and the layer's window shows it.
pub open spec fn bound_shows(layers: Seq<BoundLayer>, k: Seq<u8>, i: int, j: int) -> bool {
    &&& 0 <= i < layers.len()
    &&& 0 <= j < layers[i].rows@.len()
    &&& layers[i].rows@[j].key@ == k
    &&& validity_of(k) matches Some(v) ==> {
        &&& layers[i].window.since is None || layers[i].window.since.unwrap() < v.timestamp
        &&& layers[i].window.bound is None || v.timestamp <= layers[i].window.bound.unwrap()
    }
}

/// Bound layers hold a key between them exactly if one of them shows it through its window, and
/// the topmost of those says what is under it.
pub proof fn law_bound_layers_hold_what_each_shows(layers: Seq<BoundLayer>, k: Seq<u8>)
    requires
        bound_wf(layers),
    ensures
        bound_content(layers).contains_key(k) <==> exists|i: int, j: int|
            bound_shows(layers, k, i, j),
        forall|i: int, j: int| #[trigger]
            bound_shows(layers, k, i, j) ==> layers[i].content().contains_key(k)
                && layers[i].content()[k] == layers[i].rows@[j].val@,
        forall|i: int, j: int| #[trigger]
            bound_shows(layers, k, i, j) && (forall|h: int, b: int|
                bound_shows(layers, k, h, b) ==> i <= h) ==> bound_content(layers)[k]
                == layers[i].rows@[j].val@,
        forall|i: int|
            0 <= i < layers.len() && (#[trigger] layers[i]).content().contains_key(k)
                ==> exists|j: int| bound_shows(layers, k, i, j),
{
    let maps = Seq::new(layers.len(), |i: int| layers[i].content());
    lemma_overlay_keys(maps);
    assert forall|i: int|
        0 <= i < layers.len() && (#[trigger] layers[i]).content().contains_key(k) implies exists|
        j: int,
    |
        bound_shows(layers, k, i, j) by {
        let j = choose|j: int| row_at(layers[i].rows@, k, j);
        assert(bound_shows(layers, k, i, j));
    }
    if bound_content(layers).contains_key(k) {
        let i = choose|i: int| 0 <= i < maps.len() && (#[trigger] maps[i]).contains_key(k);
        assert(layers[i].content().contains_key(k));
    }
    assert forall|i: int, j: int| #[trigger] bound_shows(layers, k, i, j) implies layers[i].content().contains_key(
        k,
    ) && layers[i].content()[k] == layers[i].rows@[j].val@ && bound_content(layers).contains_key(
        k,
    ) by {
        assert(rows_sorted(layers[i].rows@));
        lemma_row_is_unique(layers[i].rows@, j);
        assert(maps[i].contains_key(k));
    }
    assert forall|i: int, j: int| #[trigger]
        bound_shows(layers, k, i, j) && (forall|h: int, b: int|
            bound_shows(layers, k, h, b) ==> i <= h) implies bound_content(layers)[k]
        == layers[i].rows@[j].val@ by {
        assert(maps[i].contains_key(k));
        assert forall|h: int| 0 <= h < i implies !(#[trigger] maps[h]).contains_key(k) by {
            if maps[h].contains_key(k) {
                assert(layers[h].content().contains_key(k));
                let b = choose|b: int| bound_shows(layers, k, h, b);
                assert(bound_shows(layers, k, h, b));
            }
        }
        assert(first_holder(maps, k, i));
        lemma_overlay_value(maps, k, i);
    }
}

/// Maps laid over each other hold what any of them holds, and of a key that several hold, what the
/// topmost has.
pub proof fn law_the_topmost_copy_comes_out(maps: Seq<Content>, k: Seq<u8>)
    ensures
        overlay(maps).contains_key(k) <==> exists|i: int|
            0 <= i < maps.len() && (#[trigger] maps[i]).contains_key(k),
        forall|i: int|
            0 <= i < maps.len() && (#[trigger] maps[i]).contains_key(k) && (forall|h: int|
                0 <= h < maps.len() && (#[trigger] maps[h]).contains_key(k) ==> i <= h) ==> overlay(
                maps,
            )[k] == maps[i][k],
{
    lemma_overlay_keys(maps);
    assert forall|i: int|
        0 <= i < maps.len() && (#[trigger] maps[i]).contains_key(k) && (forall|h: int|
            0 <= h < maps.len() && (#[trigger] maps[h]).contains_key(k) ==> i <= h) implies overlay(
        maps,
    )[k] == maps[i][k] by {
        assert(first_holder(maps, k, i));
        lemma_overlay_value(maps, k, i);
    }
}

/// A merge of cursors over rows holds what the rows hold through their windows, the topmost first.
pub proof fn law_a_merge_holds_what_its_cursors_show(
    iters: Seq<(RawIter, Window)>,
    k: Seq<u8>,
)
    requires
        forall|i: int| 0 <= i < iters.len() ==> rows_sorted((#[trigger] iters[i]).0.rows@),
    ensures
        stack_content(iters).contains_key(k) <==> exists|i: int, j: int|
            0 <= i < iters.len() && 0 <= j < iters[i].0.rows@.len() && (
            #[trigger] iters[i].0.rows@[j]).key@ == k && admitted(iters[i].1, k),
        forall|i: int, j: int|
            0 <= i < iters.len() && 0 <= j < iters[i].0.rows@.len() && (
            #[trigger] iters[i].0.rows@[j]).key@ == k && admitted(iters[i].1, k) && (forall|
                h: int,
                b: int,
            |
                0 <= h < iters.len() && 0 <= b < iters[h].0.rows@.len() && (
                #[trigger] iters[h].0.rows@[b]).key@ == k && admitted(iters[h].1, k) ==> i <= h)
                ==> stack_content(iters)[k] == iters[i].0.rows@[j].val@,
{
    let maps = Seq::new(iters.len(), |i: int| windowed(iters[i].0.rows@, iters[i].1));
    law_the_topmost_copy_comes_out(maps, k);
    if stack_content(iters).contains_key(k) {
        let i = choose|i: int| 0 <= i < maps.len() && (#[trigger] maps[i]).contains_key(k);
        let j = choose|j: int| row_at(iters[i].0.rows@, k, j);
        assert(iters[i].0.rows@[j].key@ == k);
    }
    assert forall|i: int, j: int|
        0 <= i < iters.len() && 0 <= j < iters[i].0.rows@.len() && (
        #[trigger] iters[i].0.rows@[j]).key@ == k && admitted(
            iters[i].1,
            k,
        ) implies maps[i].contains_key(k) && maps[i][k] == iters[i].0.rows@[j].val@ by {
        lemma_row_is_unique(iters[i].0.rows@, j);
    }
    assert forall|i: int, j: int|
        0 <= i < iters.len() && 0 <= j < iters[i].0.rows@.len() && (
        #[trigger] iters[i].0.rows@[j]).key@ == k && admitted(iters[i].1, k) && (forall|
            h: int,
            b: int,
        |
            0 <= h < iters.len() && 0 <= b < iters[h].0.rows@.len() && (
            #[trigger] iters[h].0.rows@[b]).key@ == k && admitted(iters[h].1, k) ==> i
                <= h) implies stack_content(iters)[k] == iters[i].0.rows@[j].val@ by {
        assert(maps[i].contains_key(k));
        assert forall|h: int| 0 <= h < maps.len() && (#[trigger] maps[h]).contains_key(
            k,
        ) implies i <= h by {
            let b = choose|b: int| row_at(iters[h].0.rows@, k, b);
            assert(iters[h].0.rows@[b].key@ == k);
        }
    }
}

/// A layer's iterator still has to come what its window shows of the rows from the cursor on, below
/// the upper bound, unless it is exhausted. It is in order if its rows are, and the cursor, where it
/// is on a row, is on one that is still to come.
pub proof fn law_a_layer_still_has_the_rows_in_sight(
    it: LayerIter<'_>,
    upper: Option<Seq<u8>>,
    k: Seq<u8>,
)
    ensures
        it.inner.inv() <==> rows_sorted(it.inner.rows@) && it.inner.pos <= it.inner.rows@.len(),
        it.inner.fresh() <==> it.inner.inv() && it.inner.pos == it.inner.rows@.len(),
        it.content() == windowed(it.inner.rows@, it.window),
        it.pending(upper).contains_key(k) <==> !it.exhausted && admitted(it.window, k) && below(
            k,
            upper,
        ) && exists|i: int|
            it.inner.pos <= i < it.inner.rows@.len() && (#[trigger] it.inner.rows@[i]).key@ == k,
        it.inner.inv() ==> forall|i: int|
            0 <= i < it.inner.rows@.len() && (#[trigger] it.inner.rows@[i]).key@ == k
                && it.pending(upper).contains_key(k) ==> it.pending(upper)[k]
                == it.inner.rows@[i].val@,
        it.inv(upper) <==> it.inner.inv() && (it.exhausted || it.inner.pos
            == it.inner.rows@.len() || admitted(
            it.window,
            it.inner.rows@[it.inner.pos as int].key@,
        ) && below(it.inner.rows@[it.inner.pos as int].key@, upper)),
{
    if it.pending(upper).contains_key(k) {
        let i = choose|i: int| it.ahead(upper, k, i);
        assert(it.inner.rows@[i].key@ == k);
    }
    if !it.exhausted && admitted(it.window, k) && below(k, upper) && exists|i: int|
        it.inner.pos <= i < it.inner.rows@.len() && (#[trigger] it.inner.rows@[i]).key@ == k {
        let i = choose|i: int|
            it.inner.pos <= i < it.inner.rows@.len() && (#[trigger] it.inner.rows@[i]).key@ == k;
        assert(it.ahead(upper, k, i));
    }
    if it.inner.inv() {
        assert forall|i: int|
            0 <= i < it.inner.rows@.len() && (#[trigger] it.inner.rows@[i]).key@ == k && it.pending(
                upper,
            ).contains_key(k) implies it.pending(upper)[k] == it.inner.rows@[i].val@ by {
            lemma_row_is_unique(it.inner.rows@, i);
        }
    }
}

/// Layers bound for a stack are its places in order: each has the rows of the first layer of the
/// place's name, and the place's own window.
pub proof fn law_bound_layers_are_the_places_of_the_stack(
    db: Db,
    stack: Seq<LayerRef>,
    layers: Seq<BoundLayer>,
    i: int,
    l: int,
)
    requires
        db.binds(stack, layers),
        0 <= i < stack.len(),
        0 <= l < db.layers@.len(),
        db.layers@[l].name@ == stack[i].name@,
        forall|m: int| 0 <= m < l ==> (#[trigger] db.layers@[m]).name@ != stack[i].name@,
    ensures
        layers.len() == stack.len(),
        layers[i].name@ == stack[i].name@,
        layers[i].window.since == stack[i].window.since,
        layers[i].window.bound == stack[i].window.bound,
        layers[i].rows@ == db.layers@[l].rows@,
        bound_wf(layers),
{
    assert(is_layer(db.layers@, stack[i].name@, l));
    lemma_layer_index(db.layers@, stack[i].name@, l);
    assert(db.binds_at(stack, layers[i], i));
}

/// Bound layers are in order exactly if the rows of each are.
pub proof fn law_bound_layers_are_in_order_if_their_rows_are(layers: Seq<BoundLayer>)
    ensures
        bound_wf(layers) <==> forall|i: int, a: int, b: int|
            0 <= i < layers.len() && 0 <= a < b < layers[i].rows@.len() ==> lex_lt(
                (#[trigger] layers[i].rows@[a]).key@,
                (#[trigger] layers[i].rows@[b]).key@,
            ),
{
    if bound_wf(layers) {
        assert forall|i: int, a: int, b: int|
            0 <= i < layers.len() && 0 <= a < b < layers[i].rows@.len() implies lex_lt(
            (#[trigger] layers[i].rows@[a]).key@,
            (#[trigger] layers[i].rows@[b]).key@,
        ) by {
            assert(rows_sorted(layers[i].rows@));
        }
    }
    if forall|i: int, a: int, b: int|
        0 <= i < layers.len() && 0 <= a < b < layers[i].rows@.len() ==> lex_lt(
            (#[trigger] layers[i].rows@[a]).key@,
            (#[trigger] layers[i].rows@[b]).key@,
        ) {
        assert forall|i: int| 0 <= i < layers.len() implies rows_sorted(
            (#[trigger] layers[i]).rows@,
        ) by {
            assert forall|a: int, b: int| 0 <= a < b < layers[i].rows@.len() implies lex_lt(
                #[trigger] layers[i].rows@[a].key@,
                #[trigger] layers[i].rows@[b].key@,
            ) by {}
        }
    }
}

/// A range of a view is what the view holds from its lower bound on and below its upper bound,
/// where it has one.
pub proof fn law_a_range_holds_what_lies_in_it(
    m: Content,
    lower: Seq<u8>,
    upper: Option<Seq<u8>>,
    k: Seq<u8>,
)
    ensures
        between(m, lower, upper).contains_key(k) <==> m.contains_key(k) && !lex_lt(k, lower) && (
        upper is None || lex_lt(k, upper.unwrap())),
        between(m, lower, upper).contains_key(k) ==> between(m, lower, upper)[k] == m[k],
        below(k, upper) <==> upper is None || lex_lt(k, upper.unwrap()),
        is_least(m, k) <==> m.contains_key(k) && forall|j: Seq<u8>| #[trigger]
            m.contains_key(j) ==> !lex_lt(j, k),
{
    if is_least(m, k) {
        assert forall|j: Seq<u8>| #[trigger] m.contains_key(j) implies !lex_lt(j, k) by {
            lemma_not_lt(j, k);
            if j != k {
                lemma_lt_asymmetric(k, j);
            } else {
                lemma_lt_irreflexive(k);
            }
        }
    }
    if m.contains_key(k) && forall|j: Seq<u8>| #[trigger] m.contains_key(j) ==> !lex_lt(j, k) {
        assert forall|j: Seq<u8>| #[trigger] m.contains_key(j) implies lex_le(k, j) by {
            lemma_not_lt(j, k);
        }
    }
}

/// A merge holds and still has what its layers do, laid over each other. A raw scan still has to come
/// what its merge has, once it has begun, and before that all that the merge holds from its lower bound
/// on and below the upper one; a frontier scan, what stands from its next bound on.
pub proof fn law_a_scan_still_has_what_its_merge_does(
    merge: StackMerge<'_>,
    raw: StackRawIter<'_>,
    skip: StackSkipIter<'_>,
    k: Seq<u8>,
)
    ensures
        merge.content() == overlay(merge.contents()),
        merge.pending() == overlay(merge.pendings()),
        raw.started ==> raw.remaining() == raw.merge.pending(),
        !raw.started ==> (raw.remaining().contains_key(k) <==> {
            &&& raw.merge.content().contains_key(k)
            &&& !lex_lt(k, raw.lower@)
            &&& raw.merge.upper_bound() is None || lex_lt(k, raw.merge.upper_bound().unwrap())
        }),
        raw.remaining().contains_key(k) && !raw.started ==> raw.remaining()[k]
            == raw.merge.content()[k],
        skip.remaining() == frontier_rows(
            skip.merge.content(),
            skip.merge.upper_bound(),
            skip.next_bound@,
            skip.valid_at,
        ),
{
}

/// The rows of a view in key order are all of its rows, each once.
pub proof fn law_rows_in_order_are_all_rows_once(m: Content, k: Seq<u8>)
    requires
        m.dom().finite(),
    ensures
        ascending(m).len() == m.dom().len(),
        m.contains_key(k) <==> ascending(m).contains((k, m[k])),
        forall|i: int|
            0 <= i < ascending(m).len() ==> m.contains_key((#[trigger] ascending(m)[i]).0)
                && ascending(m)[i].1 == m[ascending(m)[i].0],
        forall|i: int, j: int|
            0 <= i < j < ascending(m).len() ==> lex_lt(
                (#[trigger] ascending(m)[i]).0,
                (#[trigger] ascending(m)[j]).0,
            ),
{
    lemma_ascending(m);
    lemma_ascending_len(m);
    let rows = ascending(m);
    if m.contains_key(k) {
        let i = choose|i: int| 0 <= i < rows.len() && (#[trigger] rows[i]).0 == k;
        assert(rows[i] == (k, m[k]));
    }
    if rows.contains((k, m[k])) {
        let i = choose|i: int| 0 <= i < rows.len() && rows[i] == (k, m[k]);
        assert(m.contains_key(rows[i].0));
    }
}

proof fn lemma_ascending_len(m: Content)
    requires
        m.dom().finite(),
    ensures
        ascending(m).len() == m.dom().len(),
    decreases m.dom().len(),
{
    if m.dom().len() > 0 {
        lemma_least_exists(m);
        let k = choose|k: Seq<u8>| is_least(m, k);
        assert(m.dom().contains(k));
        assert(m.remove(k).dom() =~= m.dom().remove(k));
        lemma_ascending_len(m.remove(k));
    }
}

/// A record is live exactly if the latest of its versions asserts. A stamp at which it was both
/// asserted and retracted counts as asserted.
pub proof fn law_a_record_is_live_if_its_latest_version_asserts(m: Content, identity: Seq<u8>)
    ensures
        live(m, identity) <==> exists|v: Validity|
            {
                &&& #[trigger] m.contains_key(version_key(identity, v))
                &&& v.is_assert
                &&& forall|w: Validity| #[trigger]
                    m.contains_key(version_key(identity, w)) ==> w.timestamp <= v.timestamp
            },
{
    if live(m, identity) {
        let v = choose|v: Validity| #[trigger] is_newest(m, identity, v) && v.is_assert;
        assert forall|w: Validity| #[trigger]
            m.contains_key(version_key(identity, w)) implies w.timestamp <= v.timestamp by {
            assert(has_version(m, identity, w));
        }
        assert(m.contains_key(version_key(identity, v)));
    }
    if exists|v: Validity|
        {
            &&& #[trigger] m.contains_key(version_key(identity, v))
            &&& v.is_assert
            &&& forall|w: Validity| #[trigger]
                m.contains_key(version_key(identity, w)) ==> w.timestamp <= v.timestamp
        } {
        let v = choose|v: Validity|
            {
                &&& #[trigger] m.contains_key(version_key(identity, v))
                &&& v.is_assert
                &&& forall|w: Validity| #[trigger]
                    m.contains_key(version_key(identity, w)) ==> w.timestamp <= v.timestamp
            };
        assert(is_newest(m, identity, v));
    }
}

/// What a view last asserted of an identity is the value of its latest assertion, retracted since or
/// not; there is none exactly if the view holds no assertion of it.
pub proof fn law_the_asserted_value_is_that_of_the_latest_assertion(m: Content, identity: Seq<u8>)
    requires
        m.dom().finite(),
        identity.len() >= 8,
    ensures
        forall|val: Seq<u8>|
            asserted_value(m, identity) == Some(val) <==> exists|v: Validity|
                {
                    &&& #[trigger] m.contains_key(version_key(identity, v))
                    &&& v.is_assert
                    &&& m[version_key(identity, v)] == val
                    &&& forall|w: Validity| #[trigger]
                        m.contains_key(version_key(identity, w)) && w.is_assert ==> w.timestamp
                            <= v.timestamp
                },
        asserted_value(m, identity) is None <==> forall|w: Validity| #[trigger]
            m.contains_key(version_key(identity, w)) ==> !w.is_assert,
{
    assert forall|val: Seq<u8>|
        asserted_value(m, identity) == Some(val) <==> exists|v: Validity|
            {
                &&& #[trigger] m.contains_key(version_key(identity, v))
                &&& v.is_assert
                &&& m[version_key(identity, v)] == val
                &&& forall|w: Validity| #[trigger]
                    m.contains_key(version_key(identity, w)) && w.is_assert ==> w.timestamp
                        <= v.timestamp
            } by {
        if asserted_value(m, identity) == Some(val) {
            let v = choose|v: Validity| is_newest_assertion(m, identity, v);
            assert forall|w: Validity| #[trigger]
                m.contains_key(version_key(identity, w)) && w.is_assert implies w.timestamp
                <= v.timestamp by {
                assert(has_version(m, identity, w));
            }
            assert(m.contains_key(version_key(identity, v)));
        }
        if exists|v: Validity|
            {
                &&& #[trigger] m.contains_key(version_key(identity, v))
                &&& v.is_assert
                &&& m[version_key(identity, v)] == val
                &&& forall|w: Validity| #[trigger]
                    m.contains_key(version_key(identity, w)) && w.is_assert ==> w.timestamp
                        <= v.timestamp
            } {
            let v = choose|v: Validity|
                {
                    &&& #[trigger] m.contains_key(version_key(identity, v))
                    &&& v.is_assert
                    &&& m[version_key(identity, v)] == val
                    &&& forall|w: Validity| #[trigger]
                        m.contains_key(version_key(identity, w)) && w.is_assert ==> w.timestamp
                            <= v.timestamp
                };
            assert(is_newest_assertion(m, identity, v));
            let c = choose|c: Validity| is_newest_assertion(m, identity, c);
            lemma_newest_unique(m, identity, v, c);
        }
    }
    if exists|w: Validity| #[trigger] m.contains_key(version_key(identity, w)) && w.is_assert {
        let w = choose|w: Validity| #[trigger]
            m.contains_key(version_key(identity, w)) && w.is_assert;
        assert(has_version(m, identity, w));
        lemma_versions_listed(m, identity, w);
        let rows = ascending(versions_in(m, identity));
        lemma_resolution_is_net(m, identity, rows);
        let at = lemma_first_assertion(rows);
        let i = choose|i: int| 0 <= i < rows.len() && (#[trigger] rows[i]).0 == version_key(
            identity,
            w,
        );
        lemma_version_key(identity, w);
        assert(asserts(rows[i].0));
        assert(first_assertion(rows) is Some);
    } else if asserted_value(m, identity) is Some {
        let v = choose|v: Validity| is_newest_assertion(m, identity, v);
        assert(m.contains_key(version_key(identity, v)));
    }
}

/// A store is well formed exactly if the rows of each layer are in key order, no key twice, and
/// each relation is filed under its own id, with an id free above it.
pub proof fn law_a_store_in_order_is_well_formed(db: Db)
    ensures
        db.wf() <==> {
            &&& forall|l: int, i: int, j: int|
                0 <= l < db.layers@.len() && 0 <= i < j < db.layers@[l].rows@.len() ==> lex_lt(
                    (#[trigger] db.layers@[l].rows@[i]).key@,
                    (#[trigger] db.layers@[l].rows@[j]).key@,
                )
            &&& forall|id: u64| #[trigger]
                db.relations@.contains_key(id) ==> db.relations@[id].id.0 == id && id != u64::MAX
        },
{
    if db.wf() {
        assert forall|l: int, i: int, j: int|
            0 <= l < db.layers@.len() && 0 <= i < j < db.layers@[l].rows@.len() implies lex_lt(
            (#[trigger] db.layers@[l].rows@[i]).key@,
            (#[trigger] db.layers@[l].rows@[j]).key@,
        ) by {
            assert(db.layers@[l].wf());
        }
    }
    if forall|l: int, i: int, j: int|
        0 <= l < db.layers@.len() && 0 <= i < j < db.layers@[l].rows@.len() ==> lex_lt(
            (#[trigger] db.layers@[l].rows@[i]).key@,
            (#[trigger] db.layers@[l].rows@[j]).key@,
        ) {
        assert forall|l: int| 0 <= l < db.layers@.len() implies (
        #[trigger] db.layers@[l]).wf() by {
            assert forall|i: int, j: int| 0 <= i < j < db.layers@[l].rows@.len() implies lex_lt(
                #[trigger] db.layers@[l].rows@[i].key@,
                #[trigger] db.layers@[l].rows@[j].key@,
            ) by {}
        }
    }
}

/// Keys are regular exactly if nothing that begins with the identity of a versioned key and the tag
/// of a validity is anything but a version of that identity.
pub proof fn law_regular_keys_are_told_apart(keys: Set<Seq<u8>>)
    ensures
        regular(keys) <==> forall|identity: Seq<u8>, v: Validity, rest: Seq<u8>|
            identity.len() >= 8 && #[trigger] keys.contains(version_key(identity, v))
                && #[trigger] keys.contains(identity.push(12) + rest) ==> exists|w: Validity|
                identity.push(12) + rest == version_key(identity, w),
{
    if regular(keys) {
        assert forall|identity: Seq<u8>, v: Validity, rest: Seq<u8>|
            identity.len() >= 8 && #[trigger] keys.contains(version_key(identity, v))
                && #[trigger] keys.contains(identity.push(12) + rest) implies exists|w: Validity|
            identity.push(12) + rest == version_key(identity, w) by {
            let k = identity.push(12) + rest;
            lemma_version_key(identity, v);
            assert(k.take(identity.len() as int + 1) =~= identity.push(12));
            assert(has_prefix(k, identity.push(VALIDITY_TAG)));
            lemma_key_is_version(k);
            assert(k == version_key(identity, validity_of(k).unwrap()));
        }
    }
    if forall|identity: Seq<u8>, v: Validity, rest: Seq<u8>|
        identity.len() >= 8 && #[trigger] keys.contains(version_key(identity, v))
            && #[trigger] keys.contains(identity.push(12) + rest) ==> exists|w: Validity|
            identity.push(12) + rest == version_key(identity, w) {
        assert forall|j: Seq<u8>, k: Seq<u8>| #[trigger]
            keys.contains(j) && #[trigger] keys.contains(k) && validity_of(j) is Some && has_prefix(
                k,
                identity_of(j).push(VALIDITY_TAG),
            ) implies validity_of(k) is Some && identity_of(k) == identity_of(j) by {
            let id = identity_of(j);
            lemma_key_is_version(j);
            let rest = k.skip(id.len() as int + 1);
            assert(k =~= id.push(12) + rest);
            assert(keys.contains(version_key(id, validity_of(j).unwrap())));
            let w = choose|w: Validity| id.push(12) + rest == version_key(id, w);
            lemma_version_key(id, w);
        }
    }
}

/// A stack reads regular exactly if the keys that it shows are regular, and a store is regular
/// exactly if the keys of all its rows are.
pub proof fn law_regular_is_said_of_the_keys_there_are(db: Db, stack: Seq<LayerRef>)
    ensures
        db.reads_regular(stack) <==> regular(db.view_of(stack).dom()),
        db.regular() <==> regular(db.keys()),
        forall|k: Seq<u8>| #[trigger]
            db.keys().contains(k) <==> exists|l: int, j: int|
                0 <= l < db.layers@.len() && 0 <= j < db.layers@[l].rows@.len() && (
                #[trigger] db.layers@[l].rows@[j]).key@ == k,
{
    assert forall|k: Seq<u8>| #[trigger] db.keys().contains(k) <==> exists|l: int, j: int|
        0 <= l < db.layers@.len() && 0 <= j < db.layers@[l].rows@.len() && (
        #[trigger] db.layers@[l].rows@[j]).key@ == k by {
        if db.keys().contains(k) {
            let l = choose|l: int|
                0 <= l < db.layers@.len() && (#[trigger] db.layers@[l]).content().contains_key(k);
            let j = choose|j: int| row_at(db.layers@[l].rows@, k, j);
            assert(db.layers@[l].rows@[j].key@ == k);
        }
        if exists|l: int, j: int|
            0 <= l < db.layers@.len() && 0 <= j < db.layers@[l].rows@.len() && (
            #[trigger] db.layers@[l].rows@[j]).key@ == k {
            let (l, j) = choose|l: int, j: int|
                0 <= l < db.layers@.len() && 0 <= j < db.layers@[l].rows@.len() && (
                #[trigger] db.layers@[l].rows@[j]).key@ == k;
            assert(row_at(db.layers@[l].rows@, k, j));
            assert(db.layers@[l].content().contains_key(k));
        }
    }
}

} // verus!
