//! What a flatten leaves behind, identity by identity.

use vstd::prelude::*;

use crate::catalog::RelView;
use crate::codec::{
    identity_of, lemma_key_is_version, lemma_version_key, newer, validity_of, version_key, ID_LEN,
    Stamp, Validity,
};
use crate::content::{first_holder, lemma_first_holder_exists, lemma_overlay_value, overlay};
use crate::flatten::{flattened, writes_of, written, written_key};
use crate::iter::{admitted, windowed, Window};
use crate::keys::write_keys;
use crate::layer::{rows_content, Content, Row};
use crate::net::{about, net, newest};
use crate::scan::{
    asserted_value, has_version, is_newest, is_newest_assertion, lemma_newest_unique, live,
    Effect, Kv,
};
use crate::stack::{has_layer, is_layer, layer_index, lemma_layer_index, Db, LayerRef};

verus! {

/// The contents say the same about the key.
pub open spec fn agree(a: Content, b: Content, k: Seq<u8>) -> bool {
    a.contains_key(k) == b.contains_key(k) && (a.contains_key(k) ==> a[k] == b[k])
}

/// Layers that say the same about a key say so between them.
pub proof fn lemma_overlay_agrees(maps: Seq<Content>, more: Seq<Content>, k: Seq<u8>)
    requires
        more.len() == maps.len(),
        forall|i: int| 0 <= i < maps.len() ==> agree(#[trigger] more[i], maps[i], k),
    ensures
        agree(overlay(more), overlay(maps), k),
{
    if overlay(more).contains_key(k) {
        let i = choose|i: int| first_holder(more, k, i);
        lemma_overlay_value(more, k, i);
        assert(more[i].contains_key(k));
        assert forall|j: int| 0 <= j < i implies !(#[trigger] maps[j]).contains_key(k) by {
            assert(!more[j].contains_key(k));
        }
        assert(first_holder(maps, k, i));
        lemma_overlay_value(maps, k, i);
    }
    if overlay(maps).contains_key(k) {
        let i = choose|i: int| first_holder(maps, k, i);
        assert(agree(more[i], maps[i], k));
        lemma_first_holder_exists(more, k, i);
    }
}

/// Two views hold the same versions of an identity.
pub open spec fn same_versions(a: Content, b: Content, identity: Seq<u8>) -> bool {
    forall|v: Validity|
        #![trigger has_version(a, identity, v)]
        #![trigger has_version(b, identity, v)]
        has_version(a, identity, v) == has_version(b, identity, v) && (has_version(a, identity, v)
            ==> a[version_key(identity, v)] == b[version_key(identity, v)])
}

/// Views with the same versions of an identity say the same about it.
pub proof fn lemma_same_versions(a: Content, b: Content, identity: Seq<u8>)
    requires
        same_versions(a, b, identity),
    ensures
        live(a, identity) == live(b, identity),
        asserted_value(a, identity) == asserted_value(b, identity),
{
    assert forall|v: Validity| is_newest(a, identity, v) == is_newest(b, identity, v) by {
        assert(has_version(a, identity, v) == has_version(b, identity, v));
    }
    assert forall|v: Validity|
        is_newest_assertion(a, identity, v) == is_newest_assertion(b, identity, v) by {
        assert(has_version(a, identity, v) == has_version(b, identity, v));
    }
    if live(a, identity) {
        let v = choose|v: Validity| #[trigger] is_newest(a, identity, v) && v.is_assert;
        assert(is_newest(b, identity, v));
    }
    if live(b, identity) {
        let v = choose|v: Validity| #[trigger] is_newest(b, identity, v) && v.is_assert;
        assert(is_newest(a, identity, v));
    }
    if exists|v: Validity| is_newest_assertion(a, identity, v) {
        let v = choose|v: Validity| is_newest_assertion(a, identity, v);
        assert(is_newest_assertion(b, identity, v));
        let w = choose|w: Validity| is_newest_assertion(b, identity, w);
        lemma_newest_unique(b, identity, v, w);
        assert(has_version(a, identity, v));
    }
    if exists|v: Validity| is_newest_assertion(b, identity, v) {
        let v = choose|v: Validity| is_newest_assertion(b, identity, v);
        assert(is_newest_assertion(a, identity, v));
    }
}

pub proof fn lemma_same_versions_chain(a: Content, b: Content, c: Content, identity: Seq<u8>)
    requires
        same_versions(a, b, identity),
        same_versions(b, c, identity),
    ensures
        same_versions(a, c, identity),
{
    assert forall|v: Validity|
        #![trigger has_version(a, identity, v)]
        #![trigger has_version(c, identity, v)]
        has_version(a, identity, v) == has_version(c, identity, v) && (has_version(a, identity, v)
            ==> a[version_key(identity, v)] == c[version_key(identity, v)]) by {
        assert(has_version(b, identity, v) == has_version(a, identity, v));
    }
}

/// Layers that hold the same versions of an identity hold them between them.
pub proof fn lemma_overlay_versions(maps: Seq<Content>, more: Seq<Content>, identity: Seq<u8>)
    requires
        more.len() == maps.len(),
        forall|i: int| 0 <= i < maps.len() ==> same_versions(#[trigger] more[i], maps[i], identity),
    ensures
        same_versions(overlay(more), overlay(maps), identity),
{
    assert forall|v: Validity|
        #![trigger has_version(overlay(more), identity, v)]
        #![trigger has_version(overlay(maps), identity, v)]
        has_version(overlay(more), identity, v) == has_version(overlay(maps), identity, v) && (
        has_version(overlay(more), identity, v) ==> overlay(more)[version_key(identity, v)]
            == overlay(maps)[version_key(identity, v)]) by {
        let k = version_key(identity, v);
        assert forall|i: int| 0 <= i < maps.len() implies agree(#[trigger] more[i], maps[i], k) by {
            assert(has_version(more[i], identity, v) == has_version(maps[i], identity, v));
        }
        lemma_overlay_agrees(maps, more, k);
    }
}

/// The key that a version is written under is a version of the same identity.
pub proof fn lemma_written_key(key: Seq<u8>, restamp: bool, stamp: Stamp)
    requires
        validity_of(key) is Some,
    ensures
        identity_of(written_key(key, restamp, stamp)) == identity_of(key),
        validity_of(written_key(key, restamp, stamp)) == Some(
            Validity {
                timestamp: if restamp {
                    stamp
                } else {
                    validity_of(key).unwrap().timestamp
                },
                is_assert: validity_of(key).unwrap().is_assert,
            },
        ),
        written_key(key, restamp, stamp) == version_key(
            identity_of(key),
            validity_of(written_key(key, restamp, stamp)).unwrap(),
        ),
{
    lemma_key_is_version(key);
    let v = validity_of(key).unwrap();
    lemma_version_key(identity_of(key), Validity { timestamp: stamp, is_assert: v.is_assert });
}

/// Writing a version of one identity leaves the others alone.
pub proof fn lemma_insert_elsewhere(m: Content, key: Seq<u8>, val: Seq<u8>, identity: Seq<u8>)
    requires
        identity.len() >= ID_LEN,
        identity_of(key) != identity,
    ensures
        same_versions(m.insert(key, val), m, identity),
{
    assert forall|v: Validity| version_key(identity, v) != key by {
        lemma_version_key(identity, v);
    }
    assert forall|v: Validity|
        #![trigger has_version(m, identity, v)]
        #![trigger has_version(m.insert(key, val), identity, v)]
        has_version(m.insert(key, val), identity, v) == has_version(m, identity, v) && (has_version(
            m.insert(key, val),
            identity,
            v,
        ) ==> m.insert(key, val)[version_key(identity, v)] == m[version_key(identity, v)]) by {
        assert(version_key(identity, v) != key);
    }
}

/// Decided rows about other identities write nothing of this one.
pub proof fn lemma_writes_elsewhere(
    m: Content,
    rows: Seq<(RelView, Effect)>,
    restamp: bool,
    stamp: Stamp,
    identity: Seq<u8>,
)
    requires
        identity.len() >= ID_LEN,
        forall|i: int|
            0 <= i < rows.len() ==> validity_of((#[trigger] rows[i]).1.key()) is Some && (
            rows[i].1 is Effective ==> about(rows[i]) != identity),
    ensures
        same_versions(written(m, writes_of(rows, restamp, stamp)), m, identity),
    decreases rows.len(),
{
    if rows.len() > 0 {
        let front = rows.drop_last();
        assert(forall|i: int| 0 <= i < front.len() ==> #[trigger] front[i] == rows[i]);
        lemma_writes_elsewhere(m, front, restamp, stamp, identity);
        let last = rows[rows.len() - 1];
        if let Effect::Effective { key, val, .. } = last.1 {
            let before = writes_of(front, restamp, stamp);
            let k = written_key(key, restamp, stamp);
            lemma_written_key(key, restamp, stamp);
            assert(before.push((k, val)).drop_last() =~= before);
            lemma_insert_elsewhere(written(m, before), k, val, identity);
            lemma_same_versions_chain(
                written(m, before).insert(k, val),
                written(m, before),
                m,
                identity,
            );
        }
    }
}

/// Of an identity that one effective row is about, a flatten writes that row and no other.
pub proof fn lemma_writes_at(
    m: Content,
    rows: Seq<(RelView, Effect)>,
    restamp: bool,
    stamp: Stamp,
    at: int,
)
    requires
        0 <= at < rows.len(),
        rows[at].1 is Effective,
        forall|i: int| 0 <= i < rows.len() ==> validity_of((#[trigger] rows[i]).1.key()) is Some,
        forall|i: int|
            0 <= i < rows.len() && i != at ==> about(#[trigger] rows[i]) != about(rows[at]),
    ensures
        same_versions(
            written(m, writes_of(rows, restamp, stamp)),
            m.insert(written_key(rows[at].1.key(), restamp, stamp), rows[at].1->val),
            about(rows[at]),
        ),
    decreases rows.len(),
{
    let identity = about(rows[at]);
    let front = rows.drop_last();
    let n = rows.len() - 1;
    let before = writes_of(front, restamp, stamp);
    let mine = written_key(rows[at].1.key(), restamp, stamp);
    let goal = m.insert(mine, rows[at].1->val);
    assert(forall|i: int| 0 <= i < front.len() ==> #[trigger] front[i] == rows[i]);
    lemma_key_is_version(rows[at].1.key());
    if at == n {
        lemma_writes_elsewhere(m, front, restamp, stamp, identity);
        let a = written(m, before);
        assert(before.push((mine, rows[at].1->val)).drop_last() =~= before);
        assert(same_versions(a.insert(mine, rows[at].1->val), goal, identity)) by {
            assert forall|v: Validity|
                #![trigger has_version(a.insert(mine, rows[at].1->val), identity, v)]
                #![trigger has_version(goal, identity, v)]
                has_version(a.insert(mine, rows[at].1->val), identity, v) == has_version(
                    goal,
                    identity,
                    v,
                ) && (has_version(goal, identity, v) ==> a.insert(mine, rows[at].1->val)[version_key(
                    identity,
                    v,
                )] == goal[version_key(identity, v)]) by {
                assert(has_version(a, identity, v) == has_version(m, identity, v));
            }
        }
    } else {
        lemma_writes_at(m, front, restamp, stamp, at);
        let last = rows[n];
        if let Effect::Effective { key, val, .. } = last.1 {
            let k = written_key(key, restamp, stamp);
            lemma_written_key(key, restamp, stamp);
            assert(before.push((k, val)).drop_last() =~= before);
            lemma_insert_elsewhere(written(m, before), k, val, identity);
            lemma_same_versions_chain(
                written(m, before).insert(k, val),
                written(m, before),
                goal,
                identity,
            );
        }
    }
}

/// The row at `r` is what `w` writes.
pub open spec fn writes_row(
    rows: Seq<(RelView, Effect)>,
    restamp: bool,
    stamp: Stamp,
    w: Kv,
    r: int,
) -> bool {
    &&& 0 <= r < rows.len()
    &&& rows[r].1 is Effective
    &&& w == (written_key(rows[r].1.key(), restamp, stamp), rows[r].1->val)
}

/// Every write is of some effective row.
pub proof fn lemma_writes_are_rows(
    rows: Seq<(RelView, Effect)>,
    restamp: bool,
    stamp: Stamp,
    i: int,
) -> (r: int)
    requires
        0 <= i < writes_of(rows, restamp, stamp).len(),
    ensures
        writes_row(rows, restamp, stamp, writes_of(rows, restamp, stamp)[i], r),
    decreases rows.len(),
{
    let front = rows.drop_last();
    let before = writes_of(front, restamp, stamp);
    if i < before.len() {
        let r = lemma_writes_are_rows(front, restamp, stamp, i);
        assert(rows[r] == front[r]);
        r
    } else {
        rows.len() - 1
    }
}

/// Writing touches only the keys that are written.
pub proof fn lemma_written_elsewhere(m: Content, writes: Seq<Kv>, k: Seq<u8>)
    requires
        !write_keys(writes).contains(k),
    ensures
        agree(written(m, writes), m, k),
    decreases writes.len(),
{
    if writes.len() > 0 {
        let front = writes.drop_last();
        assert(forall|i: int| 0 <= i < front.len() ==> #[trigger] front[i] == writes[i]);
        assert(writes[writes.len() - 1].0 != k);
        if write_keys(front).contains(k) {
            let i = choose|i: int| 0 <= i < front.len() && (#[trigger] front[i]).0 == k;
            assert(writes[i].0 == k);
        }
        lemma_written_elsewhere(m, front, k);
    }
}

/// What a window shows of a content.
pub open spec fn through(m: Content, w: Window) -> Content {
    Map::new(|k: Seq<u8>| m.contains_key(k) && admitted(w, k), |k: Seq<u8>| m[k])
}

pub proof fn lemma_through(rows: Seq<Row>, w: Window)
    ensures
        windowed(rows, w) == through(rows_content(rows), w),
{
    assert(windowed(rows, w).dom() =~= through(rows_content(rows), w).dom());
    assert(windowed(rows, w) =~= through(rows_content(rows), w));
}

/// A window shows a write whose key it admits, and no other.
pub proof fn lemma_through_insert(m: Content, w: Window, k: Seq<u8>, v: Seq<u8>)
    ensures
        through(m.insert(k, v), w) == if admitted(w, k) {
            through(m, w).insert(k, v)
        } else {
            through(m, w)
        },
{
    let a = through(m.insert(k, v), w);
    let b = if admitted(w, k) {
        through(m, w).insert(k, v)
    } else {
        through(m, w)
    };
    assert(a.dom() =~= b.dom());
    assert(a =~= b);
}

/// A window shows the same of contents that hold the same versions of an identity.
pub proof fn lemma_through_versions(a: Content, b: Content, w: Window, identity: Seq<u8>)
    requires
        same_versions(a, b, identity),
    ensures
        same_versions(through(a, w), through(b, w), identity),
{
    assert forall|v: Validity|
        #![trigger has_version(through(a, w), identity, v)]
        #![trigger has_version(through(b, w), identity, v)]
        has_version(through(a, w), identity, v) == has_version(through(b, w), identity, v) && (
        has_version(through(a, w), identity, v) ==> through(a, w)[version_key(identity, v)]
            == through(b, w)[version_key(identity, v)]) by {
        assert(has_version(a, identity, v) == has_version(b, identity, v));
    }
}

/// Writing a row to the topmost map, and perhaps to others, writes it to the overlay.
pub proof fn lemma_overlay_insert(maps: Seq<Content>, more: Seq<Content>, k: Seq<u8>, v: Seq<u8>)
    requires
        maps.len() > 0,
        more.len() == maps.len(),
        more[0] == maps[0].insert(k, v),
        forall|i: int|
            0 <= i < maps.len() ==> #[trigger] more[i] == maps[i] || more[i] == maps[i].insert(k, v),
    ensures
        overlay(more) == overlay(maps).insert(k, v),
{
    let a = overlay(more);
    let b = overlay(maps).insert(k, v);
    assert(first_holder(more, k, 0));
    lemma_overlay_value(more, k, 0);
    assert forall|j: Seq<u8>| #[trigger] a.dom().contains(j) implies b.dom().contains(j) && a[j]
        == b[j] by {
        if j != k {
            let i = choose|i: int| first_holder(more, j, i);
            lemma_overlay_value(more, j, i);
            assert(more[i].contains_key(j));
            assert forall|h: int| 0 <= h < i implies !(#[trigger] maps[h]).contains_key(j) by {
                assert(!more[h].contains_key(j));
            }
            assert(first_holder(maps, j, i));
            lemma_overlay_value(maps, j, i);
        }
    }
    assert forall|j: Seq<u8>| #[trigger] b.dom().contains(j) implies a.dom().contains(j) by {
        if j != k {
            assert(overlay(maps).contains_key(j));
            let i = choose|i: int| first_holder(maps, j, i);
            assert(more[i].contains_key(j));
            lemma_first_holder_exists(more, j, i);
        }
    }
    assert(a.dom() =~= b.dom());
    assert(a =~= b);
}

/// A flatten leaves the names of the layers alone, so stacks find the same ones.
pub proof fn lemma_flattened_names(
    before: Db,
    after: Db,
    name: Seq<char>,
    writes: Seq<Kv>,
    other: Seq<char>,
)
    requires
        flattened(before, after, name, writes),
    ensures
        has_layer(after.layers@, other) == has_layer(before.layers@, other),
        has_layer(before.layers@, other) ==> layer_index(after.layers@, other) == layer_index(
            before.layers@,
            other,
        ),
{
    let at = layer_index(before.layers@, name);
    assert forall|i: int| 0 <= i < before.layers@.len() implies (#[trigger] after.layers@[i]).name
        == before.layers@[i].name by {
        if i != at {
            assert(after.layers@[i] == before.layers@[i]);
        }
    }
    if has_layer(before.layers@, other) {
        let i = layer_index(before.layers@, other);
        assert(is_layer(before.layers@, other, i));
        assert(is_layer(after.layers@, other, i)) by {
            assert forall|j: int| 0 <= j < i implies (#[trigger] after.layers@[j]).name@ != other by {
                assert(before.layers@[j].name@ != other);
            }
        }
        lemma_layer_index(after.layers@, other, i);
    }
    if has_layer(after.layers@, other) {
        let i = layer_index(after.layers@, other);
        assert(is_layer(after.layers@, other, i));
        assert(is_layer(before.layers@, other, i)) by {
            assert forall|j: int| 0 <= j < i implies (#[trigger] before.layers@[j]).name@ != other by {
                assert(after.layers@[j].name@ != other);
            }
        }
    }
}

/// A flatten changes nothing about which stacks can be read.
pub proof fn lemma_fault_after(
    before: Db,
    after: Db,
    name: Seq<char>,
    writes: Seq<Kv>,
    stack: Seq<LayerRef>,
)
    requires
        flattened(before, after, name, writes),
        before.fault(stack) is None,
    ensures
        after.fault(stack) is None,
{
    if exists|i: int| after.first_unknown(stack, i) {
        let i = choose|i: int| after.first_unknown(stack, i);
        before.lemma_known(stack, i);
        lemma_flattened_names(before, after, name, writes, stack[i].name@);
    }
}

/// What the places of a stack see after a flatten.
pub proof fn lemma_places_after(before: Db, after: Db, dst: Seq<LayerRef>, writes: Seq<Kv>, i: int)
    requires
        before.fault(dst) is None,
        flattened(before, after, dst[0].name@, writes),
        0 <= i < dst.len(),
    ensures
        after.layer_view(dst, i) == if layer_index(before.layers@, dst[i].name@) == layer_index(
            before.layers@,
            dst[0].name@,
        ) {
            through(
                written(
                    before.layers@[layer_index(before.layers@, dst[0].name@)].content(),
                    writes,
                ),
                dst[i].window,
            )
        } else {
            before.layer_view(dst, i)
        },
        layer_index(before.layers@, dst[i].name@) == layer_index(before.layers@, dst[0].name@)
            ==> before.layer_view(dst, i) == through(
            before.layers@[layer_index(before.layers@, dst[0].name@)].content(),
            dst[i].window,
        ),
{
    let at = layer_index(before.layers@, dst[0].name@);
    before.lemma_known(dst, i);
    lemma_flattened_names(before, after, dst[0].name@, writes, dst[i].name@);
    let p = layer_index(before.layers@, dst[i].name@);
    assert(is_layer(before.layers@, dst[i].name@, p));
    lemma_through(after.layers@[at].rows@, dst[i].window);
    lemma_through(before.layers@[at].rows@, dst[i].window);
    if p != at {
        assert(after.layers@[p] == before.layers@[p]);
    }
}

/// A flatten whose rows are about other identities leaves this one as it was.
pub proof fn lemma_destination_elsewhere(
    before: Db,
    after: Db,
    dst: Seq<LayerRef>,
    rows: Seq<(RelView, Effect)>,
    restamp: bool,
    stamp: Stamp,
    identity: Seq<u8>,
)
    requires
        before.fault(dst) is None,
        flattened(before, after, dst[0].name@, writes_of(rows, restamp, stamp)),
        identity.len() >= ID_LEN,
        forall|i: int|
            0 <= i < rows.len() ==> validity_of((#[trigger] rows[i]).1.key()) is Some && (
            rows[i].1 is Effective ==> about(rows[i]) != identity),
    ensures
        same_versions(after.view_of(dst), before.view_of(dst), identity),
{
    let writes = writes_of(rows, restamp, stamp);
    let at = layer_index(before.layers@, dst[0].name@);
    let m = before.layers@[at].content();
    let maps = Seq::new(dst.len(), |i: int| before.layer_view(dst, i));
    let more = Seq::new(dst.len(), |i: int| after.layer_view(dst, i));
    lemma_writes_elsewhere(m, rows, restamp, stamp, identity);
    assert forall|i: int| 0 <= i < maps.len() implies same_versions(
        #[trigger] more[i],
        maps[i],
        identity,
    ) by {
        lemma_places_after(before, after, dst, writes, i);
        lemma_through_versions(written(m, writes), m, dst[i].window, identity);
    }
    lemma_overlay_versions(maps, more, identity);
}

/// Of an identity that one effective row is about, a flatten adds that row to what the
/// destination holds, if the top window shows it.
pub proof fn lemma_destination_at(
    before: Db,
    after: Db,
    dst: Seq<LayerRef>,
    rows: Seq<(RelView, Effect)>,
    restamp: bool,
    stamp: Stamp,
    at: int,
)
    requires
        before.fault(dst) is None,
        flattened(before, after, dst[0].name@, writes_of(rows, restamp, stamp)),
        0 <= at < rows.len(),
        rows[at].1 is Effective,
        forall|i: int| 0 <= i < rows.len() ==> validity_of((#[trigger] rows[i]).1.key()) is Some,
        forall|i: int|
            0 <= i < rows.len() && i != at ==> about(#[trigger] rows[i]) != about(rows[at]),
        admitted(dst[0].window, written_key(rows[at].1.key(), restamp, stamp)),
    ensures
        same_versions(
            after.view_of(dst),
            before.view_of(dst).insert(
                written_key(rows[at].1.key(), restamp, stamp),
                rows[at].1->val,
            ),
            about(rows[at]),
        ),
{
    let writes = writes_of(rows, restamp, stamp);
    let top = layer_index(before.layers@, dst[0].name@);
    let m = before.layers@[top].content();
    let k = written_key(rows[at].1.key(), restamp, stamp);
    let v = rows[at].1->val;
    let identity = about(rows[at]);
    let maps = Seq::new(dst.len(), |i: int| before.layer_view(dst, i));
    let more = Seq::new(dst.len(), |i: int| after.layer_view(dst, i));
    let mid = Seq::new(
        dst.len(),
        |i: int|
            if layer_index(before.layers@, dst[i].name@) == top && admitted(dst[i].window, k) {
                maps[i].insert(k, v)
            } else {
                maps[i]
            },
    );
    lemma_writes_at(m, rows, restamp, stamp, at);
    assert forall|i: int| 0 <= i < mid.len() implies same_versions(
        #[trigger] more[i],
        mid[i],
        identity,
    ) by {
        lemma_places_after(before, after, dst, writes, i);
        lemma_through_versions(written(m, writes), m.insert(k, v), dst[i].window, identity);
        lemma_through_insert(m, dst[i].window, k, v);
    }
    lemma_overlay_versions(mid, more, identity);
    lemma_overlay_insert(maps, mid, k, v);
}

/// What a stack sees under a key that is not written stays as it was.
pub proof fn lemma_key_untouched(
    before: Db,
    after: Db,
    dst: Seq<LayerRef>,
    writes: Seq<Kv>,
    k: Seq<u8>,
)
    requires
        before.fault(dst) is None,
        flattened(before, after, dst[0].name@, writes),
        !write_keys(writes).contains(k),
    ensures
        agree(after.view_of(dst), before.view_of(dst), k),
{
    let at = layer_index(before.layers@, dst[0].name@);
    let m = before.layers@[at].content();
    let maps = Seq::new(dst.len(), |i: int| before.layer_view(dst, i));
    let more = Seq::new(dst.len(), |i: int| after.layer_view(dst, i));
    lemma_written_elsewhere(m, writes, k);
    assert forall|i: int| 0 <= i < maps.len() implies agree(#[trigger] more[i], maps[i], k) by {
        lemma_places_after(before, after, dst, writes, i);
    }
    lemma_overlay_agrees(maps, more, k);
}

/// The version comes before every version of the identity that the view holds.
pub open spec fn prevails(m: Content, identity: Seq<u8>, v: Validity) -> bool {
    forall|w: Validity| #[trigger] has_version(m, identity, w) ==> newer(v, w)
}

/// A version newer than all others settles its identity.
pub proof fn lemma_insert_newest(m: Content, identity: Seq<u8>, v: Validity, val: Seq<u8>)
    requires
        identity.len() >= ID_LEN,
        prevails(m, identity, v),
    ensures
        live(m.insert(version_key(identity, v), val), identity) == v.is_assert,
        v.is_assert ==> asserted_value(m.insert(version_key(identity, v), val), identity) == Some(
            val,
        ),
{
    let more = m.insert(version_key(identity, v), val);
    assert forall|w: Validity| #[trigger] has_version(more, identity, w) implies w == v || (
    has_version(m, identity, w)) by {
        lemma_version_key(identity, w);
        lemma_version_key(identity, v);
    }
    assert(has_version(more, identity, v));
    assert(is_newest(more, identity, v));
    if live(more, identity) {
        let l = choose|l: Validity| #[trigger] is_newest(more, identity, l) && l.is_assert;
        lemma_newest_unique(more, identity, l, v);
    }
    if v.is_assert {
        assert(is_newest_assertion(more, identity, v));
        let c = choose|c: Validity| is_newest_assertion(more, identity, c);
        lemma_newest_unique(more, identity, c, v);
    }
}

/// A view holds a record exactly if its newest version asserts, and then with that value.
pub proof fn lemma_net_live(m: Content, identity: Seq<u8>)
    requires
        is_newest(m, identity, newest(m, identity)),
    ensures
        live(m, identity) == net(m, identity).asserts,
        net(m, identity).asserts ==> asserted_value(m, identity) == Some(net(m, identity).val),
{
    let v = newest(m, identity);
    if live(m, identity) {
        let l = choose|l: Validity| #[trigger] is_newest(m, identity, l) && l.is_assert;
        lemma_newest_unique(m, identity, l, v);
    }
    if v.is_assert {
        assert(is_newest(m, identity, v));
        assert(is_newest_assertion(m, identity, v));
        let c = choose|c: Validity| is_newest_assertion(m, identity, c);
        lemma_newest_unique(m, identity, c, v);
    }
}

} // verus!
