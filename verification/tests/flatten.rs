//! Net effect through a view, then dedupe and tombstone liveness against the destination.

use std::collections::BTreeMap;
use std::ops::ControlFlow;

use layered::catalog::{RelInfo, RelView, RelationId};
use layered::codec::{encode_version, tail_validity, Stamp, Validity};
use layered::flatten::{
    conflict_at, FlattenConflict, FlattenCursor, FlattenError, FlattenItem, FlattenPlan, FlattenStats,
};
use layered::iter::{StackRawIter, StackSkipIter, Window};
use layered::layer::{Layer, Row};
use layered::scan::{
    emit, scan, ConflictKind, Effect, Halt, Resolved, RowEffect, ScanError, Visitor,
};
use layered::stack::{merge_over, Db, LayerRef, Stack, StackError};

const REL: u64 = 7;

/// One version of a record, as a raw scan shows it.
#[derive(Clone, Debug, PartialEq, Eq)]
struct Version {
    key: String,
    val: String,
    seq: Stamp,
    asserts: bool,
}

/// The bytes of a record's key without its validity: the relation, then the name, delimited.
fn identity(name: &str) -> Vec<u8> {
    let mut key = RelationId(REL).raw_encode();
    key.push(7);
    key.extend_from_slice(name.as_bytes());
    key.push(0);
    key
}

fn name_in(key: &[u8]) -> String {
    String::from_utf8(key[9..key.len() - 11].to_vec()).unwrap()
}

fn relation(id: u64, name: &str, stackable: bool, is_index: bool) -> RelInfo {
    RelInfo { id: RelationId(id), name: name.to_string(), n_keys: 2, stackable, is_index }
}

/// The relations by id.
fn by_id(rels: Vec<RelInfo>) -> BTreeMap<u64, RelInfo> {
    rels.into_iter().map(|r| (r.id.0, r)).collect()
}

/// A store with one relation of records, and a clock that stamps commits.
struct Fixture {
    db: Db,
    clock: Stamp,
}

impl Fixture {
    fn new() -> Fixture {
        let base = Layer::from_rows("default".to_string(), vec![]).unwrap();
        let db = Db::new(vec![base], by_id(vec![relation(REL, "rec", true, false)])).unwrap();
        Fixture { db, clock: 100 }
    }

    fn seq(&self) -> Stamp {
        self.clock
    }

    fn create_layer(&mut self, name: &str) {
        self.db.layers.push(Layer::from_rows(name.to_string(), vec![]).unwrap());
    }

    fn put(&mut self, layer: &str, key: Vec<u8>, val: &[u8]) {
        let at = self.db.layers.iter().position(|l| l.name == layer).unwrap();
        self.db.layers[at].put(Row { key, val: val.to_vec() });
    }

    fn write(&mut self, stack: &Stack, name: &str, val: &str, is_assert: bool) -> Stamp {
        self.clock += 1;
        let timestamp = self.clock;
        let key = encode_version(&identity(name), Validity { timestamp, is_assert });
        self.put(&stack[0].name, key, val.as_bytes());
        timestamp
    }

    fn assert_rec(&mut self, stack: &Stack, name: &str, val: &str) -> Stamp {
        self.write(stack, name, val, true)
    }

    fn retract_rec(&mut self, stack: &Stack, name: &str) -> Stamp {
        self.write(stack, name, "", false)
    }

    fn flatten(
        &mut self,
        src: &Stack,
        dst: &Stack,
        restamp: bool,
    ) -> Result<FlattenStats, FlattenError> {
        assert!(self.db.fits_counters(src));
        self.clock += 1;
        self.db.flatten(src, dst, restamp, self.clock)
    }

    /// The records that stand as of `at`, or now.
    fn live(&self, stack: &Stack, at: Option<Stamp>) -> Vec<(String, String)> {
        let layers = self.db.bind_layers(stack).unwrap();
        let upper = RelationId(REL).next().raw_encode();
        let mut it = StackSkipIter {
            merge: merge_over(&layers, Some(upper)),
            valid_at: at.unwrap_or(Stamp::MAX),
            next_bound: RelationId(REL).raw_encode(),
        };
        let mut out = vec![];
        while let Some((k, v)) = it.next() {
            out.push((name_in(&k), String::from_utf8(v).unwrap()));
        }
        out.sort();
        out
    }

    /// Every version of every record.
    fn versions(&self, stack: &Stack) -> Vec<Version> {
        let layers = self.db.bind_layers(stack).unwrap();
        let upper = RelationId(REL).next().raw_encode();
        let mut it = StackRawIter {
            merge: merge_over(&layers, Some(upper)),
            started: false,
            lower: RelationId(REL).raw_encode(),
        };
        let mut out = vec![];
        while let Some((k, v)) = it.next() {
            let vld = tail_validity(&k).unwrap();
            out.push(Version {
                key: name_in(&k),
                val: String::from_utf8(v).unwrap(),
                seq: vld.timestamp,
                asserts: vld.is_assert,
            });
        }
        out
    }
}

/// The unwindowed default layer.
fn base() -> Stack {
    vec![LayerRef::new("default")]
}

/// What a frontier scan is expected to show.
fn frontier(records: &[(&str, &str)]) -> Vec<(String, String)> {
    let mut out: Vec<_> = records.iter().map(|(k, v)| (k.to_string(), v.to_string())).collect();
    out.sort();
    out
}

/// A branch over the base at the current sequence, plus the whole-layer view of it.
fn branch(f: &mut Fixture, name: &str) -> (Stack, Stack) {
    f.create_layer(name);
    let fork = f.seq();
    let stack = vec![LayerRef::new(name), LayerRef::bounded("default", fork)];
    let view = vec![LayerRef::new(name)];
    (stack, view)
}

/// A record created and retracted inside the window contributes nothing: its net effect is a
/// tombstone, and a tombstone for a record the destination never saw is dropped.
#[test]
fn a_record_born_and_died_inside_the_view_contributes_nothing() {
    let mut f = Fixture::new();
    let (work, view) = branch(&mut f, "work");
    f.assert_rec(&work, "ephemeral", "v1");
    f.retract_rec(&work, "ephemeral");

    let stats = f.flatten(&view, &base(), true).unwrap();
    assert_eq!(stats.rows_copied, 0);
    assert_eq!(stats.tombstones_dropped, 1);
    assert_eq!(f.live(&base(), None), frontier(&[]));
}

/// A retraction stamped above the view's ceiling is not in the view, so the live row is what
/// gets written: a view cannot see its own future.
#[test]
fn a_retraction_above_the_ceiling_is_not_in_the_view() {
    let mut f = Fixture::new();
    let (work, _) = branch(&mut f, "work");
    f.assert_rec(&work, "k", "v1");
    let head = f.seq();
    f.retract_rec(&work, "k");

    let view: Stack = vec![LayerRef::bounded("work", head)];
    let stats = f.flatten(&view, &base(), true).unwrap();
    assert_eq!(stats.rows_copied, 1);
    assert_eq!(f.live(&base(), None), frontier(&[("k", "v1")]));
}

/// A record created below the floor and retracted inside the window nets to a tombstone, which
/// is copied exactly when the destination holds the record live.
#[test]
fn a_net_tombstone_is_copied_only_where_it_bites() {
    let mut f = Fixture::new();
    f.assert_rec(&base(), "k", "v1");
    let (work, view) = branch(&mut f, "work");
    f.retract_rec(&work, "k");

    let stats = f.flatten(&view, &base(), true).unwrap();
    assert_eq!(stats.rows_copied, 1);
    assert_eq!(stats.tombstones_dropped, 0);
    assert_eq!(f.live(&base(), None), frontier(&[]));
}

/// A record the destination already holds live, cherry-picked again: skipped, counted, and the
/// destination is unchanged.
#[test]
fn an_identical_record_dedupes() {
    let mut f = Fixture::new();
    f.assert_rec(&base(), "k", "v1");
    let (work, view) = branch(&mut f, "work");
    f.assert_rec(&work, "k", "v1");

    let before = f.versions(&base());
    let stats = f.flatten(&view, &base(), true).unwrap();
    assert_eq!(stats.rows_copied, 0);
    assert_eq!(stats.rows_deduped, 1);
    assert_eq!(f.versions(&base()), before);
}

/// The view's net assertion over a key the destination has tombstoned: the record returns.
#[test]
fn a_re_introduction_revives_a_retracted_record() {
    let mut f = Fixture::new();
    f.assert_rec(&base(), "k", "v1");
    let (work, view) = branch(&mut f, "work");
    // The base retracts it after the fork; the branch, which cannot see that, still holds it.
    f.retract_rec(&base(), "k");
    f.assert_rec(&work, "k", "v1");
    assert_eq!(f.live(&base(), None), frontier(&[]));

    let stats = f.flatten(&view, &base(), true).unwrap();
    assert_eq!(stats.rows_copied, 1);
    assert_eq!(f.live(&base(), None), frontier(&[("k", "v1")]));
}

/// The liveness check reads the destination *stack*, not its top layer: a tombstone whose key is
/// live further down the destination's lineage is still copied.
#[test]
fn liveness_is_checked_through_the_whole_destination_stack() {
    let mut f = Fixture::new();
    f.assert_rec(&base(), "k", "v1");
    let fork = f.seq();

    // `dst` is a branch whose own layer is empty: `k` lives one layer down.
    f.create_layer("dst");
    let dst: Stack = vec![LayerRef::new("dst"), LayerRef::bounded("default", fork)];

    f.create_layer("src");
    let src_stack: Stack = vec![LayerRef::new("src"), LayerRef::bounded("default", fork)];
    f.retract_rec(&src_stack, "k");

    let stats = f.flatten(&vec![LayerRef::new("src")], &dst, true).unwrap();
    assert_eq!(stats.rows_copied, 1);
    assert_eq!(stats.tombstones_dropped, 0);
    assert_eq!(f.live(&dst, None), frontier(&[]));
    // The base still holds it: the tombstone landed in `dst`'s own layer.
    assert_eq!(f.live(&base(), None), frontier(&[("k", "v1")]));
}

/// Both sides deleted the same record: the second tombstone bites nothing and is dropped.
#[test]
fn a_second_tombstone_is_dropped() {
    let mut f = Fixture::new();
    f.assert_rec(&base(), "k", "v1");
    let (work, view) = branch(&mut f, "work");
    f.retract_rec(&work, "k");
    f.retract_rec(&base(), "k");

    let stats = f.flatten(&view, &base(), true).unwrap();
    assert_eq!(stats.rows_copied, 0);
    assert_eq!(stats.tombstones_dropped, 1);
    assert_eq!(f.live(&base(), None), frontier(&[]));
}

/// With restamping, the destination's history stays true: a read at a sequence captured before
/// the flatten shows nothing the flatten brought in.
#[test]
fn restamping_keeps_the_destination_history_true() {
    let mut f = Fixture::new();
    let (work, view) = branch(&mut f, "work");
    let authored = f.assert_rec(&work, "k", "v1");
    let before_flatten = f.seq();

    let stats = f.flatten(&view, &base(), true).unwrap();
    let (lo, hi) = stats.seq_range.expect("restamping assigns a sequence range");
    assert!(lo > before_flatten && hi >= lo);

    assert_eq!(f.live(&base(), Some(before_flatten)), frontier(&[]));
    assert_eq!(f.live(&base(), None), frontier(&[("k", "v1")]));

    // The row is in the base at the flatten's sequence, not the one it was authored at.
    let stamps: Vec<_> = f.versions(&base()).into_iter().map(|v| v.seq).collect();
    assert_eq!(stamps, vec![lo]);
    assert!(lo != authored);
}

/// Without restamping, rows keep their authoring stamps and interleave into the destination's
/// history where they were written.
#[test]
fn without_restamping_the_authoring_stamps_survive() {
    let mut f = Fixture::new();
    let (work, view) = branch(&mut f, "work");
    let authored = f.assert_rec(&work, "k", "v1");

    let stats = f.flatten(&view, &base(), false).unwrap();
    assert_eq!(stats.seq_range, None);

    let stamps: Vec<_> = f.versions(&base()).into_iter().map(|v| v.seq).collect();
    assert_eq!(stamps, vec![authored]);
    // A read of the base as of the authoring sequence now shows the row, which is exactly the
    // historical inaccuracy restamping exists to avoid.
    assert_eq!(f.live(&base(), Some(authored)), frontier(&[("k", "v1")]));
}

/// The identical flatten run twice copies nothing the second time. This is also the
/// crash-recovery story: recovery is rerunning it.
#[test]
fn flatten_is_idempotent() {
    let mut f = Fixture::new();
    f.assert_rec(&base(), "kept", "v0");
    let (work, view) = branch(&mut f, "work");
    f.assert_rec(&work, "added", "v1");
    f.retract_rec(&work, "kept");

    let first = f.flatten(&view, &base(), true).unwrap();
    assert_eq!(first.rows_copied, 2);
    let after_first = f.live(&base(), None);

    let second = f.flatten(&view, &base(), true).unwrap();
    assert_eq!(second.rows_copied, 0);
    assert_eq!(second.rows_deduped, 1);
    assert_eq!(second.tombstones_dropped, 1);
    assert_eq!(f.live(&base(), None), after_first);
}

/// An empty view writes nothing and leaves the destination alone.
#[test]
fn an_empty_view_is_a_no_op() {
    let mut f = Fixture::new();
    f.assert_rec(&base(), "k", "v1");
    let (_work, view) = branch(&mut f, "work");

    let before = f.versions(&base());
    let stats = f.flatten(&view, &base(), true).unwrap();
    assert_eq!(stats.rows_copied, 0);
    assert_eq!(stats.rows_deduped, 0);
    assert_eq!(stats.tombstones_dropped, 0);
    assert_eq!(f.versions(&base()), before);
}

/// Flattening into a destination whose top layer already holds unmerged work, a cherry-pick into
/// an active branch, leaves that work alone, and checks against the whole destination stack.
#[test]
fn flattening_into_a_dirty_head_leaves_its_work_alone() {
    let mut f = Fixture::new();
    f.assert_rec(&base(), "root", "v0");
    let fork = f.seq();

    f.create_layer("target");
    let target: Stack = vec![LayerRef::new("target"), LayerRef::bounded("default", fork)];
    f.assert_rec(&target, "target-work", "v1");

    f.create_layer("source");
    let source: Stack = vec![LayerRef::new("source"), LayerRef::bounded("default", fork)];
    f.assert_rec(&source, "picked", "v2");

    let stats = f.flatten(&vec![LayerRef::new("source")], &target, true).unwrap();
    assert_eq!(stats.rows_copied, 1);
    assert_eq!(
        f.live(&target, None),
        frontier(&[("root", "v0"), ("target-work", "v1"), ("picked", "v2")])
    );
}

/// The key of the version of a record that was written at `seq`.
fn key_at(name: &str, seq: Stamp, is_assert: bool) -> Vec<u8> {
    encode_version(&identity(name), Validity { timestamp: seq, is_assert })
}

#[test]
fn a_plan_reports_what_the_flatten_then_does() {
    let mut f = Fixture::new();
    f.assert_rec(&base(), "gone", "v0");
    f.assert_rec(&base(), "same", "v1");
    let (work, view) = branch(&mut f, "work");
    f.retract_rec(&work, "gone");
    f.assert_rec(&work, "same", "v1");
    f.assert_rec(&work, "new", "value");
    f.retract_rec(&work, "never");

    let plan = f.db.flatten_plan(&view, &base()).unwrap();
    assert!(plan.is_clean());
    // A key is the relation, the delimited name and the validity; the tombstone has no value.
    let bytes = (8 + 2 + 3 + 10 + 5) + (8 + 2 + 4 + 10);
    let expected = FlattenStats {
        rows_copied: 2,
        bytes_copied: bytes,
        rows_deduped: 1,
        tombstones_dropped: 1,
        seq_range: None,
    };
    assert_eq!(plan.stats, expected);

    let stats = f.flatten(&view, &base(), true).unwrap();
    let at = f.seq();
    assert_eq!(stats, FlattenStats { seq_range: Some((at, at)), ..expected });
}

#[test]
fn a_destination_conflict_is_reported_and_refused() {
    let mut f = Fixture::new();
    let (work, view) = branch(&mut f, "work");
    let mine = f.assert_rec(&work, "k", "mine");
    f.assert_rec(&work, "other", "fine");
    f.assert_rec(&base(), "k", "theirs");
    let before = f.versions(&base());

    let expected = vec![FlattenConflict {
        kind: ConflictKind::Destination,
        relation: "rec".to_string(),
        key: key_at("k", mine, true),
        existing: b"theirs".to_vec(),
        incoming: b"mine".to_vec(),
    }];
    let plan = f.db.flatten_plan(&view, &base()).unwrap();
    assert!(!plan.is_clean());
    assert_eq!(plan.conflicts, expected);
    assert_eq!(plan.stats.rows_copied, 1);

    assert_eq!(f.flatten(&view, &base(), true), Err(FlattenError::Conflicts(expected)));
    assert_eq!(f.versions(&base()), before);
}

#[test]
fn a_retracted_value_still_conflicts() {
    let mut f = Fixture::new();
    let (work, view) = branch(&mut f, "work");
    f.assert_rec(&work, "k", "mine");
    f.assert_rec(&base(), "k", "theirs");
    f.retract_rec(&base(), "k");

    let plan = f.db.flatten_plan(&view, &base()).unwrap();
    assert_eq!(plan.conflicts.len(), 1);
    assert_eq!(plan.conflicts[0].existing, b"theirs".to_vec());
}

#[test]
fn two_branches_of_a_view_that_disagree_are_a_source_conflict() {
    let mut f = Fixture::new();
    let (left, _) = branch(&mut f, "left");
    let (right, _) = branch(&mut f, "right");
    f.assert_rec(&left, "k", "older");
    f.assert_rec(&right, "k", "newer");
    let dead = f.retract_rec(&right, "k");

    let view = vec![LayerRef::new("left"), LayerRef::new("right")];
    let plan = f.db.flatten_plan(&view, &base()).unwrap();
    assert_eq!(
        plan.conflicts,
        vec![FlattenConflict {
            kind: ConflictKind::Source,
            relation: "rec".to_string(),
            key: key_at("k", dead, false),
            existing: b"older".to_vec(),
            incoming: b"newer".to_vec(),
        }]
    );
}

#[test]
fn a_retraction_in_one_branch_and_an_assertion_in_another_are_no_conflict() {
    let mut f = Fixture::new();
    f.assert_rec(&base(), "k", "v1");
    let (left, _) = branch(&mut f, "left");
    let (right, _) = branch(&mut f, "right");
    f.retract_rec(&left, "k");
    f.assert_rec(&right, "k", "v1");

    let view = vec![LayerRef::new("left"), LayerRef::new("right")];
    let plan = f.db.flatten_plan(&view, &base()).unwrap();
    assert!(plan.is_clean());
    assert_eq!(plan.stats.rows_deduped, 1);
}

#[test]
fn one_value_in_every_lineage_is_no_conflict() {
    let mut f = Fixture::new();
    f.assert_rec(&base(), "k", "v1");
    let (left, _) = branch(&mut f, "left");
    let (right, _) = branch(&mut f, "right");
    f.assert_rec(&left, "k", "v1");
    f.assert_rec(&right, "k", "v1");
    f.retract_rec(&base(), "k");

    let view = vec![LayerRef::new("left"), LayerRef::new("right")];
    let stats = f.flatten(&view, &base(), true).unwrap();
    assert_eq!(stats.rows_copied, 1);
    assert_eq!(f.live(&base(), None), frontier(&[("k", "v1")]));
}

#[test]
fn a_layer_on_both_sides_is_refused() {
    let mut f = Fixture::new();
    let (work, _) = branch(&mut f, "work");
    f.assert_rec(&work, "k", "v1");
    let before = f.versions(&work);
    let src = vec![LayerRef::new("default"), LayerRef::new("work")];

    let clash = FlattenError::Clash { layer: "work".to_string() };
    assert_eq!(f.flatten(&src, &work, true), Err(clash));
    assert_eq!(f.versions(&work), before);
    let clash = FlattenError::Clash { layer: "work".to_string() };
    assert_eq!(f.db.flatten_plan(&src, &work), Err(clash));
}

#[test]
fn stacks_that_cannot_be_read_are_refused() {
    let mut f = Fixture::new();
    let unknown = |name: &str| {
        FlattenError::Stack(StackError::UnknownLayer { name: name.to_string() })
    };
    let ghost = vec![LayerRef::new("default"), LayerRef::new("ghost"), LayerRef::new("spook")];
    let shade = vec![LayerRef::new("shade")];

    assert_eq!(f.flatten(&ghost, &shade, true), Err(unknown("ghost")));
    assert_eq!(f.flatten(&base(), &shade, true), Err(unknown("shade")));
    assert_eq!(f.db.flatten_plan(&ghost, &base()), Err(unknown("ghost")));
    assert_eq!(f.db.flatten_page(&base(), &ghost, None, 5), Err(unknown("ghost")));
    let empty = FlattenError::Stack(StackError::Empty);
    assert_eq!(f.db.flatten_plan(&vec![], &shade), Err(empty));
}

#[test]
fn a_relation_without_a_validity_stops_a_flatten_that_would_leave_its_rows_behind() {
    let mut f = Fixture::new();
    f.db.relations =
        by_id(vec![relation(REL, "rec", true, false), relation(3, "plain", false, false)]);
    let (work, view) = branch(&mut f, "work");
    f.assert_rec(&work, "k", "v1");
    assert_eq!(f.db.flatten_plan(&view, &base()).unwrap().stats.rows_copied, 1);

    let mut key = RelationId(3).raw_encode();
    key.push(9);
    f.put("work", key, b"row");
    let plain = ScanError::Plain { relation: "plain".to_string() };
    assert_eq!(f.flatten(&view, &base(), true), Err(FlattenError::Scan(plain)));
    assert_eq!(f.versions(&base()), vec![]);
}

#[test]
fn a_row_without_a_validity_in_a_versioned_relation_stops_a_flatten() {
    let mut f = Fixture::new();
    let (work, view) = branch(&mut f, "work");
    f.assert_rec(&work, "a", "v1");
    f.put("work", identity("b"), b"row");
    let odd = ScanError::Unversioned { relation: "rec".to_string() };
    assert_eq!(f.flatten(&view, &base(), true), Err(FlattenError::Scan(odd)));
    assert_eq!(f.versions(&base()), vec![]);
}

#[test]
fn index_relations_are_passed_over() {
    let mut f = Fixture::new();
    f.db.relations =
        by_id(vec![relation(3, "rec:by_name", false, true), relation(REL, "rec", true, false)]);
    let (work, view) = branch(&mut f, "work");
    let mut key = RelationId(3).raw_encode();
    key.push(9);
    f.put("work", key, b"edge");
    f.assert_rec(&work, "k", "v1");
    let stats = f.flatten(&view, &base(), true).unwrap();
    assert_eq!(stats.rows_copied, 1);
    assert_eq!(f.db.layers[0].rows.len(), 1);
}

#[test]
fn a_window_since_the_fork_picks_what_came_after_it() {
    let mut f = Fixture::new();
    let (work, _) = branch(&mut f, "work");
    f.assert_rec(&work, "early", "v1");
    let fork = f.seq();
    f.assert_rec(&work, "late", "v2");

    let window = Window { since: Some(fork), bound: None };
    let view = vec![LayerRef { name: "work".to_string(), window }];
    let stats = f.flatten(&view, &base(), true).unwrap();
    assert_eq!(stats.rows_copied, 1);
    assert_eq!(f.live(&base(), None), frontier(&[("late", "v2")]));
}

/// A view whose rows are one of each sort, in key order.
fn assorted(f: &mut Fixture) -> Stack {
    f.assert_rec(&base(), "b", "same");
    let (work, view) = branch(f, "work");
    f.assert_rec(&work, "a", "new");
    f.assert_rec(&work, "b", "same");
    f.retract_rec(&work, "c");
    f.assert_rec(&work, "d", "mine");
    f.assert_rec(&base(), "d", "theirs");
    f.assert_rec(&work, "e", "old");
    f.retract_rec(&work, "e");
    f.assert_rec(&work, "e", "old");
    view
}

fn key_of(item: &FlattenItem) -> Vec<u8> {
    match item {
        FlattenItem::Copy { key, .. } => key.clone(),
        FlattenItem::Dedupe { key, .. } => key.clone(),
        FlattenItem::TombstoneDropped { key, .. } => key.clone(),
        FlattenItem::Conflict(c) => c.key.clone(),
    }
}

#[test]
fn a_page_shows_each_sort_of_row() {
    let mut f = Fixture::new();
    let view = assorted(&mut f);
    let page = f.db.flatten_page(&view, &base(), None, 100).unwrap();
    let relation = || "rec".to_string();
    assert_eq!(page.next, None);
    assert_eq!(
        page.items,
        vec![
            FlattenItem::Copy {
                relation: relation(),
                key: key_at("a", 102, true),
                value: b"new".to_vec(),
            },
            FlattenItem::Dedupe { relation: relation(), key: key_at("b", 103, true) },
            FlattenItem::TombstoneDropped { relation: relation(), key: key_at("c", 104, false) },
            FlattenItem::Conflict(FlattenConflict {
                kind: ConflictKind::Destination,
                relation: relation(),
                key: key_at("d", 105, true),
                existing: b"theirs".to_vec(),
                incoming: b"mine".to_vec(),
            }),
            FlattenItem::Copy {
                relation: relation(),
                key: key_at("e", 109, true),
                value: b"old".to_vec(),
            },
        ]
    );
}

#[test]
fn pages_resumed_one_after_another_cover_the_scan() {
    let mut f = Fixture::new();
    let view = assorted(&mut f);
    let whole = f.db.flatten_page(&view, &base(), None, 100).unwrap().items;
    for limit in 1..=6 {
        let mut items = vec![];
        let mut after: Option<FlattenCursor> = None;
        loop {
            let page = f.db.flatten_page(&view, &base(), after.as_ref(), limit).unwrap();
            assert!(page.items.len() <= limit);
            if page.next.is_some() {
                assert_eq!(page.items.len(), limit);
                let last = key_of(page.items.last().unwrap());
                assert_eq!(page.next.as_ref().unwrap().as_bytes(), &last[..]);
            }
            items.extend(page.items);
            match page.next {
                // The cursor is carried as bytes.
                Some(c) => after = Some(FlattenCursor::from_bytes(c.as_bytes().to_vec())),
                None => break,
            }
        }
        assert_eq!(items, whole);
    }
}

#[test]
fn a_page_that_asks_for_nothing_skips_nothing() {
    let mut f = Fixture::new();
    let view = assorted(&mut f);
    let mut after: Option<FlattenCursor> = None;
    for _ in 0..5 {
        let page = f.db.flatten_page(&view, &base(), after.as_ref(), 0).unwrap();
        assert_eq!(page.items, vec![]);
        let next = page.next.unwrap();
        for limit in 1..=6 {
            assert_eq!(
                f.db.flatten_page(&view, &base(), Some(&next), limit).unwrap(),
                f.db.flatten_page(&view, &base(), after.as_ref(), limit).unwrap()
            );
        }
        after = f.db.flatten_page(&view, &base(), Some(&next), 1).unwrap().next;
    }
    // Nothing is left after the last row.
    let end = f.db.flatten_page(&view, &base(), after.as_ref(), 0).unwrap();
    assert_eq!((end.items, end.next), (vec![], None));
    let first = f.db.flatten_page(&view, &base(), None, 0).unwrap().next.unwrap();
    assert_eq!(first.as_bytes(), &[] as &[u8]);
}

#[test]
fn one_page_of_everything_says_what_the_plan_says() {
    let mut f = Fixture::new();
    let view = assorted(&mut f);
    let plan = f.db.flatten_plan(&view, &base()).unwrap();
    let page = f.db.flatten_page(&view, &base(), None, usize::MAX).unwrap();
    assert_eq!(page.next, None);
    let count = |f: fn(&FlattenItem) -> bool| page.items.iter().filter(|i| f(i)).count() as u64;
    assert_eq!(count(|i| matches!(i, FlattenItem::Copy { .. })), plan.stats.rows_copied);
    assert_eq!(count(|i| matches!(i, FlattenItem::Dedupe { .. })), plan.stats.rows_deduped);
    let dropped = count(|i| matches!(i, FlattenItem::TombstoneDropped { .. }));
    assert_eq!(dropped, plan.stats.tombstones_dropped);
    let conflicts: Vec<FlattenConflict> = page
        .items
        .iter()
        .filter_map(|i| match i {
            FlattenItem::Conflict(c) => Some(c.clone()),
            _ => None,
        })
        .collect();
    assert_eq!(conflicts, plan.conflicts);
    assert_eq!((plan.stats.rows_copied, conflicts.len()), (2, 1));
}

#[test]
fn a_full_page_comes_before_a_failure() {
    let mut f = Fixture::new();
    let (work, view) = branch(&mut f, "work");
    f.assert_rec(&work, "a", "v1");
    f.assert_rec(&work, "b", "v1");
    f.put("work", identity("c"), b"row");
    assert_eq!(f.db.flatten_page(&view, &base(), None, 1).unwrap().items.len(), 1);
    // The run before the odd row is not decided.
    let odd = ScanError::Unversioned { relation: "rec".to_string() };
    assert_eq!(f.db.flatten_page(&view, &base(), None, 2), Err(FlattenError::Scan(odd)));
}

#[test]
fn a_bounded_view_pages_the_same_while_its_layer_grows() {
    let mut f = Fixture::new();
    let (work, _) = branch(&mut f, "work");
    f.assert_rec(&work, "a", "v1");
    f.assert_rec(&work, "c", "v1");
    let view = vec![LayerRef::bounded("work", f.seq())];
    let before = f.db.flatten_page(&view, &base(), None, 10).unwrap();
    f.assert_rec(&work, "b", "v1");
    f.retract_rec(&work, "c");
    assert_eq!(f.db.flatten_page(&view, &base(), None, 10).unwrap(), before);
}

#[test]
fn a_flatten_touches_only_the_top_layer_of_its_destination() {
    let mut f = Fixture::new();
    f.assert_rec(&base(), "k", "v1");
    let (dst, _) = branch(&mut f, "dst");
    let (src, view) = branch(&mut f, "src");
    f.retract_rec(&src, "k");
    let kept_base = f.versions(&base());
    let kept_src = f.versions(&view);
    f.flatten(&view, &dst, true).unwrap();
    assert_eq!(f.versions(&base()), kept_base);
    assert_eq!(f.versions(&view), kept_src);
    assert_eq!(f.versions(&vec![LayerRef::new("dst")]).len(), 1);
}

#[test]
fn rows_kept_at_their_stamps_can_fail_to_land_and_are_copied_again() {
    let mut f = Fixture::new();
    let (work, view) = branch(&mut f, "work");
    f.assert_rec(&work, "k", "v1");
    f.assert_rec(&base(), "k", "v1");
    f.retract_rec(&base(), "k");
    assert_eq!(f.flatten(&view, &base(), false).unwrap().rows_copied, 1);
    assert_eq!(f.live(&base(), None), frontier(&[]));
    let held = f.versions(&base());
    assert_eq!(f.flatten(&view, &base(), false).unwrap().rows_copied, 1);
    assert_eq!(f.versions(&base()), held);
}

#[test]
fn reads_of_the_past_are_not_changed_by_a_restamped_flatten() {
    let mut f = Fixture::new();
    f.assert_rec(&base(), "kept", "v0");
    f.assert_rec(&base(), "gone", "v0");
    let (work, view) = branch(&mut f, "work");
    f.retract_rec(&work, "gone");
    f.assert_rec(&work, "added", "v1");
    let now = f.seq();
    let past: Vec<_> = (99..=now).map(|at| f.live(&base(), Some(at))).collect();
    f.flatten(&view, &base(), true).unwrap();
    let again: Vec<_> = (99..=now).map(|at| f.live(&base(), Some(at))).collect();
    assert_eq!(again, past);
    assert_eq!(f.live(&base(), None), frontier(&[("kept", "v0"), ("added", "v1")]));
}

#[test]
fn an_empty_plan_is_clean() {
    let plan = FlattenPlan::default();
    assert!(plan.is_clean());
    assert_eq!(plan.stats, FlattenStats::default());
    assert_eq!(FlattenStats::default().seq_range, None);
}

#[test]
fn a_store_that_is_out_of_order_is_refused() {
    let astray = BTreeMap::from([(1, relation(2, "b", true, false))]);
    assert!(Db::new(vec![], astray).is_none());
    assert!(Db::new(vec![], by_id(vec![relation(u64::MAX, "last", true, false)])).is_none());
    let row = |k: u8| Row { key: vec![k], val: vec![] };
    assert!(Layer::from_rows("l".to_string(), vec![row(2), row(1)]).is_none());
    assert!(Layer::from_rows("l".to_string(), vec![row(1), row(1)]).is_none());
    let bad = Layer { name: "l".to_string(), rows: vec![row(2), row(1)] };
    assert!(Db::new(vec![bad], BTreeMap::new()).is_none());
    let good = Layer::from_rows("l".to_string(), vec![row(1), row(2)]).unwrap();
    assert!(Db::new(vec![good], by_id(vec![relation(1, "a", true, false)])).is_some());
}

#[test]
fn what_a_batch_writes_is_what_the_flatten_writes() {
    let mut f = Fixture::new();
    f.assert_rec(&base(), "gone", "v0");
    let (work, view) = branch(&mut f, "work");
    f.retract_rec(&work, "gone");
    f.assert_rec(&work, "new", "v1");
    let batch = f.db.flatten_batch(&view, &base(), true, 500).unwrap();
    assert_eq!(
        batch.rows,
        vec![
            Row { key: key_at("gone", 500, false), val: vec![] },
            Row { key: key_at("new", 500, true), val: b"v1".to_vec() },
        ]
    );
    assert_eq!(batch.stats.seq_range, Some((500, 500)));
    let kept = f.db.flatten_batch(&view, &base(), false, 500).unwrap();
    assert_eq!(kept.rows[1].key, key_at("new", 103, true));
    assert_eq!(kept.stats.seq_range, None);
}

#[test]
fn rows_written_early_do_not_change_later_decisions() {
    let mut f = Fixture::new();
    f.assert_rec(&base(), "b", "v0");
    let (work, view) = branch(&mut f, "work");
    f.assert_rec(&work, "a", "v1");
    f.retract_rec(&work, "b");
    f.assert_rec(&work, "c", "v1");
    let stamp = 500;
    let rows = f.db.flatten_batch(&view, &base(), true, stamp).unwrap().rows;
    assert_eq!(rows.len(), 3);
    for (n, row) in rows.iter().enumerate() {
        // What is still to be written is decided as it was before the rows so far were written.
        let left = f.db.flatten_batch(&view, &base(), true, stamp).unwrap().rows;
        assert_eq!(left, rows[n..]);
        f.put("default", row.key.clone(), &row.val);
    }
    assert_eq!(f.db.flatten_batch(&view, &base(), true, stamp).unwrap().rows, vec![]);
}

#[test]
fn what_was_flattened_can_be_flattened_on() {
    let mut f = Fixture::new();
    let (work, view) = branch(&mut f, "work");
    f.assert_rec(&work, "a", "v1");
    f.assert_rec(&work, "ab", "v2");
    f.assert_rec(&work, "b", "v3");
    f.retract_rec(&work, "b");
    f.flatten(&view, &base(), true).unwrap();
    f.create_layer("copy");
    let copy = vec![LayerRef::new("copy")];
    let stats = f.flatten(&base(), &copy, true).unwrap();
    assert_eq!(stats.rows_copied, 2);
    assert_eq!(f.live(&copy, None), frontier(&[("a", "v1"), ("ab", "v2")]));
}

/// Keeps the keys it is shown, and fails at one of them.
struct FailsAt {
    seen: Vec<Vec<u8>>,
    at: usize,
}

impl Visitor for FailsAt {
    type State = (usize, usize);
    type Error = String;
    type Fault = ();

    fn state(&self) -> (usize, usize) {
        (self.seen.len(), self.at)
    }

    fn fault(_: String) {}

    fn ready(_: (usize, usize), _: RelView, _: Effect) -> bool {
        true
    }

    fn visited((seen, at): (usize, usize), _: RelView, _: Effect) -> (usize, usize) {
        (seen + 1, at)
    }

    fn stops(_: (usize, usize), _: RelView, _: Effect) -> bool {
        false
    }

    fn refuses((seen, at): (usize, usize), _: RelView, _: Effect) -> Option<()> {
        (seen + 1 == at).then_some(())
    }

    fn visit(&mut self, _: &RelInfo, effect: RowEffect<'_>) -> Result<ControlFlow<()>, String> {
        let key = match effect {
            RowEffect::Effective { key, .. } => key,
            RowEffect::Redundant { key } => key,
            RowEffect::Inert { key } => key,
            RowEffect::Divergent { key, .. } => key,
        };
        self.seen.push(key.to_vec());
        if self.seen.len() == self.at {
            return Err("enough".to_string());
        }
        Ok(ControlFlow::Continue(()))
    }
}

#[test]
fn an_error_of_the_visitor_ends_the_scan() {
    let mut f = Fixture::new();
    let view = assorted(&mut f);
    let ctx = f.db.scan_context(&view, &base()).unwrap();
    let mut visit = FailsAt { seen: vec![], at: 3 };
    let r = scan(&ctx.src_layers, &ctx.dst_layers, ctx.relations, None, &mut visit);
    assert_eq!(r, Err(Halt::Visitor("enough".to_string())));
    assert_eq!(
        visit.seen,
        vec![key_at("a", 102, true), key_at("b", 103, true), key_at("c", 104, false)]
    );
    let mut visit = FailsAt { seen: vec![], at: 6 };
    let r = scan(&ctx.src_layers, &ctx.dst_layers, ctx.relations, None, &mut visit);
    assert_eq!(r, Ok(None));
    assert_eq!(visit.seen.len(), 5);
}

#[test]
fn a_scan_resumed_after_a_key_sees_the_keys_after_it() {
    let mut f = Fixture::new();
    let view = assorted(&mut f);
    let ctx = f.db.scan_context(&view, &base()).unwrap();
    let keys = |after: Option<&[u8]>| {
        let mut visit = FailsAt { seen: vec![], at: usize::MAX };
        let r = scan(&ctx.src_layers, &ctx.dst_layers, ctx.relations, after, &mut visit);
        assert_eq!(r, Ok(None));
        visit.seen
    };
    let all = keys(None);
    assert_eq!(keys(Some(&[])), all);
    for n in 0..all.len() {
        assert_eq!(keys(Some(&all[n])), all[n + 1..]);
    }
}

#[test]
fn a_context_names_the_layers_of_both_stacks_in_order() {
    let mut f = Fixture::new();
    let (work, view) = branch(&mut f, "work");
    let fork = f.seq();
    let ctx = f.db.scan_context(&view, &work).unwrap();
    let seen: Vec<_> = ctx.dst_layers.iter().map(|l| (l.name.as_str(), l.window)).collect();
    assert_eq!(
        seen,
        vec![
            ("work", Window::open()),
            ("default", Window { since: None, bound: Some(fork) }),
        ]
    );
    assert_eq!(ctx.src_layers.len(), 1);
    assert_eq!(ctx.relations.len(), 1);
    assert!(f.db.scan_context(&view, &vec![]).is_err());
}

/// Keeps the conflicts it is shown.
struct Conflicts(Vec<(Vec<u8>, Vec<u8>, ConflictKind)>);

impl Visitor for Conflicts {
    type State = ();
    type Error = ();
    type Fault = ();

    fn state(&self) {}

    fn fault(_: ()) {}

    fn ready(_: (), _: RelView, _: Effect) -> bool {
        true
    }

    fn visited(_: (), _: RelView, _: Effect) {}

    fn stops(_: (), _: RelView, _: Effect) -> bool {
        true
    }

    fn refuses(_: (), _: RelView, _: Effect) -> Option<()> {
        None
    }

    fn visit(&mut self, _: &RelInfo, effect: RowEffect<'_>) -> Result<ControlFlow<()>, ()> {
        if let RowEffect::Divergent { existing, incoming, kind, .. } = effect {
            self.0.push((existing.to_vec(), incoming.to_vec(), kind));
        }
        Ok(ControlFlow::Break(()))
    }
}

#[test]
fn a_source_conflict_is_one_whatever_the_destination_holds() {
    for held in [None, Some(("x", true)), Some(("new", true)), Some(("new", false))] {
        for asserts in [true, false] {
            let mut f = Fixture::new();
            if let Some((val, live)) = held {
                f.assert_rec(&base(), "k", val);
                if !live {
                    f.retract_rec(&base(), "k");
                }
            }
            let ctx = f.db.scan_context(&base(), &base()).unwrap();
            let key = key_at("k", 900, asserts);
            let done = Resolved {
                identity: identity("k"),
                key: key.clone(),
                val: b"new".to_vec(),
                asserts,
                asserted: Some(b"new".to_vec()),
                divergent: Some(b"old".to_vec()),
            };
            let mut visit = Conflicts(vec![]);
            let r = emit(&ctx.dst_layers, &ctx.relations[&REL], done, &mut visit);
            assert_eq!(r, Ok(ControlFlow::Break(key)));
            assert_eq!(
                visit.0,
                vec![(b"old".to_vec(), b"new".to_vec(), ConflictKind::Source)]
            );
        }
    }
}

#[test]
fn agreeing_assertions_have_the_effect_of_the_newest_version() {
    for (alone, newest_asserts) in [(false, true), (true, true), (false, false), (true, false)] {
        let mut f = Fixture::new();
        f.assert_rec(&base(), "k", "v1");
        let (left, _) = branch(&mut f, "left");
        let (right, _) = branch(&mut f, "right");
        if !alone {
            f.assert_rec(&left, "k", "v1");
            f.retract_rec(&right, "k");
            f.assert_rec(&right, "k", "v1");
            f.retract_rec(&left, "k");
        }
        f.write(&left, "k", "v1", newest_asserts);
        let view = vec![LayerRef::new("right"), LayerRef::new("left")];
        let plan = f.db.flatten_plan(&view, &base()).unwrap();
        assert!(plan.is_clean());
        assert_eq!(plan.stats.rows_deduped, newest_asserts as u64);
        assert_eq!(plan.stats.rows_copied, !newest_asserts as u64);
    }
}

#[test]
fn a_second_run_skips_and_drops_what_the_first_dealt_with() {
    let mut f = Fixture::new();
    f.assert_rec(&base(), "same", "v0");
    f.assert_rec(&base(), "gone", "v0");
    let (work, view) = branch(&mut f, "work");
    f.assert_rec(&work, "same", "v0");
    f.retract_rec(&work, "gone");
    f.retract_rec(&work, "never");
    f.assert_rec(&work, "new", "v1");
    let a = f.flatten(&view, &base(), true).unwrap();
    assert_eq!((a.rows_copied, a.rows_deduped, a.tombstones_dropped), (2, 1, 1));
    let held = f.versions(&base());
    let b = f.flatten(&view, &base(), true).unwrap();
    assert_eq!((b.rows_copied, b.rows_deduped, b.tombstones_dropped), (0, 2, 2));
    assert_eq!(b.bytes_copied, 0);
    assert_eq!(f.versions(&base()), held);
}

#[test]
fn a_key_that_looks_like_a_version_of_another_is_irregular() {
    let mut f = Fixture::new();
    let (work, _) = branch(&mut f, "work");
    f.assert_rec(&work, "k", "v1");
    f.assert_rec(&base(), "k", "v1");
    f.assert_rec(&base(), "kk", "v1");
    assert!(f.db.is_regular());
    // The identity of this key begins with that of `k` and the tag of a validity.
    let mut odd = identity("k");
    odd.extend_from_slice(&[12, 1, 2, 3]);
    let key = encode_version(&odd, Validity { timestamp: 5, is_assert: true });
    f.put("default", key, b"odd");
    assert!(!f.db.is_regular());
}

#[test]
fn pages_of_any_limits_hold_together_one_page_of_everything() {
    let mut f = Fixture::new();
    let view = assorted(&mut f);
    let all = f.db.flatten_page(&view, &base(), None, usize::MAX).unwrap().items;
    assert_eq!(all.len(), 5);
    for limits in [[0, 1, 0, 2, 2, 1, 0], [3, 0, 0, 1, 9, 0, 0], [1, 1, 1, 1, 1, 0, 0]] {
        let mut items = vec![];
        let mut after: Option<FlattenCursor> = None;
        let mut ended = false;
        for limit in limits {
            let page = f.db.flatten_page(&view, &base(), after.as_ref(), limit).unwrap();
            items.extend(page.items);
            match page.next {
                Some(next) => after = Some(next),
                None => {
                    ended = true;
                    break;
                }
            }
        }
        assert!(ended);
        assert_eq!(items, all);
    }
}

#[test]
fn exchanging_the_values_of_a_collision_exchanges_only_them() {
    let rel = relation(REL, "rec", true, false);
    let key = key_at("k", 5, true);
    let c = conflict_at(&rel, &key, b"old", b"new", ConflictKind::Source);
    assert_eq!((c.kind, c.relation.as_str(), &c.key), (ConflictKind::Source, "rec", &key));
    assert_eq!((&c.existing[..], &c.incoming[..]), (&b"old"[..], &b"new"[..]));
    let d = conflict_at(&rel, &key, b"new", b"old", ConflictKind::Source);
    let swapped = FlattenConflict { existing: d.incoming.clone(), incoming: d.existing.clone(), ..d };
    assert_eq!(swapped, c);
}

#[test]
fn relations_are_scanned_in_order_of_id() {
    let mut f = Fixture::new();
    f.db.relations = by_id(vec![relation(REL, "rec", true, false), relation(3, "low", true, false)]);
    let (work, view) = branch(&mut f, "work");
    f.assert_rec(&work, "k", "v1");
    let mut low = RelationId(3).raw_encode();
    low.push(9);
    f.put("work", encode_version(&low, Validity { timestamp: 101, is_assert: true }), b"row");
    let items = f.db.flatten_page(&view, &base(), None, 9).unwrap().items;
    let names: Vec<_> = items
        .iter()
        .map(|i| match i {
            FlattenItem::Copy { relation, .. } => relation.as_str(),
            _ => "",
        })
        .collect();
    assert_eq!(names, vec!["low", "rec"]);
}
