//! Keys, validities, relations and the catalog.

use layered::catalog::{
    catalog_relations, relation_of, CatalogError, CatalogRow, ColType, RelationHandle, RelationId,
};
use layered::codec::{
    encode_version, restamp_tail_validity, tail_validity, validity_version_range, Stamp, Validity,
};
use layered::iter::Window;
use layered::order::{bytes_eq, bytes_lt};

fn version(timestamp: Stamp, is_assert: bool) -> Validity {
    Validity { timestamp, is_assert }
}

const ID: [u8; 9] = [0, 0, 0, 0, 0, 0, 0, 7, 65];

#[test]
fn a_version_is_its_identity_a_tag_a_falling_timestamp_and_a_flag() {
    let key = encode_version(&ID, version(0, true));
    let tail: [u8; 10] = [12, 0x7f, 255, 255, 255, 255, 255, 255, 255, 0];
    assert_eq!(key, [&ID[..], &tail[..]].concat());
    let key = encode_version(&ID, version(1, false));
    let tail: [u8; 10] = [12, 0x7f, 255, 255, 255, 255, 255, 255, 254, 1];
    assert_eq!(key, [&ID[..], &tail[..]].concat());
    let key = encode_version(&ID, version(Stamp::MAX, true));
    assert_eq!(key[9..], [12, 0, 0, 0, 0, 0, 0, 0, 0, 0]);
    let key = encode_version(&ID, version(Stamp::MIN, true));
    assert_eq!(key[9..], [12, 255, 255, 255, 255, 255, 255, 255, 255, 0]);
}

#[test]
fn a_version_reads_back_as_it_was_written() {
    for t in [Stamp::MIN, -1, 0, 1, 1 << 40, Stamp::MAX] {
        for is_assert in [true, false] {
            let key = encode_version(&ID, version(t, is_assert));
            assert_eq!(tail_validity(&key), Some(version(t, is_assert)));
        }
    }
}

#[test]
fn a_key_that_does_not_close_with_a_validity_has_none() {
    assert_eq!(tail_validity(&[]), None);
    assert_eq!(tail_validity(&ID), None);
    let mut key = encode_version(&ID, version(5, true));
    *key.last_mut().unwrap() = 2;
    assert_eq!(tail_validity(&key), None);
    let mut key = encode_version(&ID, version(5, true));
    key[9] = 13;
    assert_eq!(tail_validity(&key), None);
    // The relation alone leaves no room for an id in front of the validity.
    assert_eq!(tail_validity(&encode_version(&ID[..7], version(5, true))), None);
    assert!(tail_validity(&encode_version(&ID[..8], version(5, true))).is_some());
}

#[test]
fn of_two_versions_the_newer_sorts_first() {
    let key = |t, a| encode_version(&ID, version(t, a));
    assert!(bytes_lt(&key(6, true), &key(5, true)));
    assert!(bytes_lt(&key(0, false), &key(-1, true)));
    assert!(bytes_lt(&key(5, true), &key(5, false)));
    assert!(!bytes_lt(&key(5, false), &key(5, false)));
}

#[test]
fn keys_compare_bytewise_with_a_prefix_first() {
    assert!(bytes_lt(&[], &[0]));
    assert!(bytes_lt(&[1], &[1, 0]));
    assert!(bytes_lt(&[1, 255], &[2]));
    assert!(!bytes_lt(&[2], &[1, 255]));
    assert!(bytes_eq(&[1, 2], &[1, 2]));
    assert!(!bytes_eq(&[1, 2], &[1, 2, 0]));
}

#[test]
fn stamping_anew_moves_the_validity_and_nothing_else() {
    let mut key = encode_version(&ID, version(5, false));
    restamp_tail_validity(&mut key, 900);
    assert_eq!(key, encode_version(&ID, version(900, false)));
    let mut plain = ID.to_vec();
    restamp_tail_validity(&mut plain, 900);
    assert_eq!(plain, ID.to_vec());
}

#[test]
fn the_versions_of_a_key_lie_in_one_range() {
    let key = encode_version(&ID, version(5, true));
    let (identity, lower, upper) = validity_version_range(&key);
    assert_eq!(identity, &ID[..]);
    assert_eq!(lower, [&ID[..], &[12]].concat());
    assert_eq!(upper, [&ID[..], &[13]].concat());
    for t in [Stamp::MIN, 0, Stamp::MAX] {
        let other = encode_version(&ID, version(t, false));
        assert!(!bytes_lt(&other, &lower) && bytes_lt(&other, &upper));
    }
    let (identity, lower, upper) = validity_version_range(&ID);
    assert_eq!((identity, lower), (&ID[..], ID.to_vec()));
    assert_eq!(upper, [&ID[..], &[0]].concat());
}

#[test]
fn a_window_is_open_below_and_closed_above() {
    let key = |t| encode_version(&ID, version(t, true));
    let w = Window { since: Some(10), bound: Some(20) };
    assert!(!w.admits(&key(10)));
    assert!(w.admits(&key(11)));
    assert!(w.admits(&key(20)));
    assert!(!w.admits(&key(21)));
    let parent = Window { since: None, bound: Some(15) };
    let child = Window { since: Some(15), bound: None };
    for t in 10..20 {
        assert!(parent.admits(&key(t)) != child.admits(&key(t)));
    }
    assert!(parent.admits(&key(15)));
}

#[test]
fn no_window_excludes_a_row_without_a_stamp() {
    let narrow = Window { since: Some(5), bound: Some(5) };
    assert!(narrow.admits(&ID));
    assert!(narrow.admits(&[]));
    assert_eq!(Window::open(), Window::default());
    assert!(Window::open().admits(&encode_version(&ID, version(Stamp::MIN, false))));
}

#[test]
fn the_relation_of_a_key_is_its_first_eight_bytes() {
    assert_eq!(relation_of(&[0; 7]), None);
    assert_eq!(relation_of(&[]), None);
    assert_eq!(relation_of(&ID), Some(7));
    assert_eq!(relation_of(&[1, 2, 3, 4, 5, 6, 7, 8, 9]), Some(0x0102_0304_0506_0708));
    assert_eq!(relation_of(&[255; 8]), Some(u64::MAX));
}

#[test]
fn a_relation_is_the_range_up_to_the_next_id() {
    let rel = RelationId(255);
    let (lower, upper) = (rel.raw_encode(), rel.next().raw_encode());
    assert_eq!(lower, vec![0, 0, 0, 0, 0, 0, 0, 255]);
    assert_eq!(upper, vec![0, 0, 0, 0, 0, 0, 1, 0]);
    for key in [vec![0, 0, 0, 0, 0, 0, 0, 255, 9], vec![0, 0, 0, 0, 0, 0, 1, 0, 9], vec![0; 9]] {
        let inside = !bytes_lt(&key, &lower) && bytes_lt(&key, &upper);
        assert_eq!(inside, relation_of(&key) == Some(255));
    }
}

fn row(key: u8, handle: Option<RelationHandle>) -> CatalogRow {
    CatalogRow { key: vec![key], handle }
}

fn handle(id: u64, name: &str, keys: Vec<ColType>) -> Option<RelationHandle> {
    Some(RelationHandle { id: RelationId(id), name: name.to_string(), keys })
}

#[test]
fn the_catalog_describes_each_relation_in_order_of_id() {
    let rows = vec![
        row(1, None),
        row(2, handle(9, "rec", vec![ColType::Data, ColType::Validity])),
        row(3, handle(4, "plain", vec![ColType::Validity, ColType::Data])),
        row(4, handle(6, "rec:by_name", vec![ColType::Data])),
        row(5, handle(5, "bare", vec![])),
        row(8, None),
    ];
    let rels = catalog_relations(&rows, &[2], &[8]).unwrap();
    let seen: Vec<_> = rels
        .values()
        .map(|r| (r.id.0, r.name.as_str(), r.n_keys, r.stackable, r.is_index))
        .collect();
    assert_eq!(
        seen,
        vec![
            (4, "plain", 2, false, false),
            (5, "bare", 0, false, false),
            (6, "rec:by_name", 1, false, true),
            (9, "rec", 2, true, false),
        ]
    );
}

#[test]
fn the_later_of_two_catalog_rows_with_one_id_counts() {
    let rows = vec![
        row(1, handle(9, "old", vec![])),
        row(2, handle(9, "new", vec![ColType::Validity])),
    ];
    let rels = catalog_relations(&rows, &[], &[255]).unwrap();
    assert_eq!(rels.len(), 1);
    assert_eq!(rels[&9].name, "new");
    assert!(rels[&9].stackable);
}

#[test]
fn a_catalog_row_that_holds_no_relation_is_an_error() {
    let rows = vec![row(2, handle(9, "rec", vec![])), row(3, None), row(4, None)];
    let err = catalog_relations(&rows, &[2], &[8]).unwrap_err();
    assert_eq!(err, CatalogError::Undecodable { key: vec![3] });
}
