//! Merges of stacks, and scans over them.

use layered::codec::{encode_version, Stamp, Validity};
use layered::iter::{
    check_key_for_validity, LayerIter, RawIter, StackMerge, StackRawIter, StackSkipIter, Window,
};
use layered::layer::{Layer, Row};

fn key(name: u8, timestamp: Stamp, is_assert: bool) -> Vec<u8> {
    encode_version(&[0, 0, 0, 0, 0, 0, 0, 1, name], Validity { timestamp, is_assert })
}

fn layer(rows: Vec<(Vec<u8>, u8)>) -> Layer {
    let mut l = Layer::from_rows("layer".to_string(), vec![]).unwrap();
    for (key, val) in rows {
        l.put(Row { key, val: vec![val] });
    }
    l
}

fn merge<'a>(layers: &[(&'a Layer, Window)], upper: Option<Vec<u8>>) -> StackMerge<'a> {
    let iters = layers.iter().map(|(l, w)| (RawIter::new(&l.rows), *w)).collect();
    StackMerge::new(iters, upper)
}

fn raw(layers: &[(&Layer, Window)], lower: Vec<u8>, upper: Option<Vec<u8>>) -> Vec<(Vec<u8>, u8)> {
    let mut it = StackRawIter { merge: merge(layers, upper), started: false, lower };
    let mut out = vec![];
    while let Some((k, v)) = it.next() {
        out.push((k, v[0]));
    }
    assert_eq!(it.next(), None);
    out
}

fn as_of(layers: &[(&Layer, Window)], at: Stamp) -> Vec<(Vec<u8>, u8)> {
    let mut it = StackSkipIter { merge: merge(layers, None), valid_at: at, next_bound: vec![] };
    let mut out = vec![];
    while let Some((k, v)) = it.next() {
        out.push((k, v[0]));
    }
    out
}

#[test]
fn rows_come_in_key_order_newest_version_first_whichever_layer_holds_them() {
    let top = layer(vec![(key(1, 5, true), 10), (key(2, 9, true), 11)]);
    let low = layer(vec![(key(1, 7, false), 12), (key(1, 3, true), 13)]);
    let open = Window::open();
    let all = raw(&[(&top, open), (&low, open)], vec![], None);
    assert_eq!(
        all,
        vec![
            (key(1, 7, false), 12),
            (key(1, 5, true), 10),
            (key(1, 3, true), 13),
            (key(2, 9, true), 11),
        ]
    );
    assert_eq!(raw(&[(&low, open), (&top, open)], vec![], None), all);
}

#[test]
fn a_row_in_several_layers_comes_once_out_of_the_topmost() {
    let a = layer(vec![(key(1, 5, true), 1)]);
    let b = layer(vec![(key(1, 5, true), 2), (key(3, 5, true), 3)]);
    let open = Window::open();
    assert_eq!(
        raw(&[(&a, open), (&b, open)], vec![], None),
        vec![(key(1, 5, true), 1), (key(3, 5, true), 3)]
    );
    assert_eq!(raw(&[(&b, open), (&a, open)], vec![], None)[0], (key(1, 5, true), 2));
}

#[test]
fn a_scan_keeps_to_its_bounds_and_windows() {
    let l = layer(vec![
        (key(1, 5, true), 1),
        (key(2, 5, true), 2),
        (key(2, 4, true), 3),
        (key(3, 5, true), 4),
    ]);
    let shut = Window { since: Some(4), bound: Some(9) };
    let rows = raw(&[(&l, shut)], key(2, Stamp::MAX, true), Some(key(3, Stamp::MAX, true)));
    assert_eq!(rows, vec![(key(2, 5, true), 2)]);
    assert_eq!(raw(&[], vec![], None), vec![]);
}

#[test]
fn a_merge_can_be_sought_again() {
    let l = layer(vec![(key(1, 5, true), 1), (key(2, 5, true), 2)]);
    let mut m = merge(&[(&l, Window::open())], None);
    assert_eq!(m.next_kv(), None);
    m.seek(&key(2, Stamp::MAX, true));
    assert_eq!(m.next_kv(), Some((key(2, 5, true), vec![2])));
    assert_eq!(m.next_kv(), None);
    m.seek(&[]);
    assert_eq!(m.next_kv(), Some((key(1, 5, true), vec![1])));
}

#[test]
fn a_frontier_scan_shows_the_newest_version_unless_it_retracts() {
    let top = layer(vec![(key(1, 7, false), 1), (key(2, 6, true), 2)]);
    let low = layer(vec![
        (key(1, 5, true), 3),
        (key(2, 3, true), 4),
        (key(3, 4, false), 5),
        (key(3, 2, true), 6),
    ]);
    let stack = [(&top, Window::open()), (&low, Window::open())];
    assert_eq!(as_of(&stack, Stamp::MAX), vec![(key(2, 6, true), 2)]);
    assert_eq!(as_of(&stack, 6), vec![(key(1, 5, true), 3), (key(2, 6, true), 2)]);
    assert_eq!(as_of(&stack, 5), vec![(key(1, 5, true), 3), (key(2, 3, true), 4)]);
    assert_eq!(as_of(&stack, 3), vec![(key(2, 3, true), 4), (key(3, 2, true), 6)]);
    assert_eq!(as_of(&stack, 1), vec![]);
}

#[test]
fn a_key_says_whether_it_stands_and_where_to_go_on() {
    let (stands, next) = check_key_for_validity(&key(1, 9, true), 5);
    assert_eq!((stands, next), (false, key(1, 5, true)));
    let past = vec![0, 0, 0, 0, 0, 0, 0, 1, 1, 13];
    assert_eq!(check_key_for_validity(&key(1, 5, true), 5), (true, past.clone()));
    assert_eq!(check_key_for_validity(&key(1, 5, false), 5), (false, past));
}

#[test]
fn putting_a_row_replaces_the_one_under_its_key() {
    let mut l = layer(vec![(key(2, 5, true), 1), (key(1, 5, true), 2)]);
    l.put(Row { key: key(2, 5, true), val: vec![9] });
    let vals: Vec<u8> = l.rows.iter().map(|r| r.val[0]).collect();
    assert_eq!(vals, vec![2, 9]);
}

#[test]
fn a_sought_layer_rests_on_its_first_row_in_sight() {
    let l = layer(vec![
        (key(1, 5, true), 1),
        (key(2, 9, true), 2),
        (key(2, 5, true), 3),
        (key(3, 5, true), 4),
    ]);
    let mut it = LayerIter::new(RawIter::new(&l.rows), Window { since: None, bound: Some(7) });
    assert_eq!(it.key(), None);
    let upper = key(3, Stamp::MAX, true);
    let second = key(2, Stamp::MAX, true);
    // Whatever came before, exhaustion included, a seek starts anew.
    for _ in 0..2 {
        it.seek(&second, Some(&upper));
        assert_eq!(it.key(), Some(&key(2, 5, true)[..]));
        assert_eq!(it.value(), Some(&[3u8][..]));
        it.advance(Some(&upper));
        assert_eq!(it.key(), None);
        it.advance(Some(&upper));
        assert_eq!((it.key(), it.value()), (None, None));
    }
    it.seek(&second, None);
    it.advance(None);
    assert_eq!(it.key(), Some(&key(3, 5, true)[..]));
    it.seek(&[], Some(&[]));
    assert_eq!(it.key(), None);
}

#[test]
fn a_row_without_a_validity_never_stands() {
    let plain = vec![0, 0, 0, 0, 0, 0, 0, 1, 2];
    let l = layer(vec![(key(1, 5, true), 1), (plain, 2), (key(3, 5, true), 3)]);
    assert_eq!(
        as_of(&[(&l, Window::open())], 9),
        vec![(key(1, 5, true), 1), (key(3, 5, true), 3)]
    );
}

#[test]
fn a_drained_frontier_scan_shows_each_identity_in_force_once() {
    let top = layer(vec![
        (key(1, 8, true), 1),
        (key(2, 6, false), 2),
        (key(3, 9, true), 3),
        (key(5, 4, true), 4),
    ]);
    let low = layer(vec![
        (key(1, 3, true), 5),
        (key(2, 5, true), 6),
        (key(3, 2, false), 7),
        (key(4, 6, true), 8),
        (key(4, 1, true), 9),
        (key(5, 5, false), 10),
    ]);
    let open = Window::open();
    let stacks = [[(&top, open), (&low, open)], [(&low, open), (&top, open)]];
    for stack in stacks {
        // 1: its newest version by then; 2: retracted; 3: retracted, revived later only.
        assert_eq!(as_of(&stack, 6), vec![(key(1, 3, true), 5), (key(4, 6, true), 8)]);
        assert_eq!(
            as_of(&stack, 9),
            vec![(key(1, 8, true), 1), (key(3, 9, true), 3), (key(4, 6, true), 8)]
        );
        assert_eq!(
            as_of(&stack, 4),
            vec![(key(1, 3, true), 5), (key(4, 1, true), 9), (key(5, 4, true), 4)]
        );
        assert_eq!(as_of(&stack, 0), vec![]);
    }
}

#[test]
fn only_the_layers_that_stand_on_a_row_move_past_it() {
    let a = layer(vec![(key(2, 5, true), 1), (key(4, 5, true), 2)]);
    let b = layer(vec![(key(1, 5, true), 3), (key(2, 5, true), 4), (key(3, 5, true), 5)]);
    let open = Window::open();
    let mut m = merge(&[(&a, open), (&b, open)], None);
    m.seek(&[]);
    for (k, v) in [(key(1, 5, true), 3), (key(2, 5, true), 1), (key(3, 5, true), 5)] {
        assert_eq!(m.next_kv(), Some((k, vec![v])));
    }
    assert_eq!(m.next_kv(), Some((key(4, 5, true), vec![2])));
    assert_eq!(m.next_kv(), None);
    assert_eq!(m.next_kv(), None);
}
