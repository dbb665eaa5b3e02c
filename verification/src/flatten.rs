//! Flatten: materialize the net effect of a windowed view into a stack's top layer.
//!
//! One primitive covers merge-down, changeset extraction and cherry-pick; they differ only in
//! the windows of the source view.

use core::ops::ControlFlow;
use std::collections::BTreeMap;

use vstd::prelude::*;

use crate::catalog::{rel_views, RelInfo, RelView};
use crate::codec::{lemma_tail_len, restamp_tail_validity, restamped, validity_of, Stamp, Validity};
use crate::layer::{Content, Layer, Row};
use crate::measure::lemma_countable;
use crate::order::to_vec;
use crate::scan::{
    admissible, feed, scan, scan_all, ConflictKind, Effect, Failure, Halt, Kv, Outcome, RowEffect,
    ScanError, Trace, Visitor,
};
use crate::stack::{
    bound_content, layer_index, BoundLayer, Db, LayerRef, Stack, StackError, StackFault,
};

verus! {

/// What a flatten did. A consumer recording a merge needs to know which sequences the copied
/// rows occupy, hence `seq_range`.
#[derive(Clone, Copy, Debug, PartialEq, Eq)]
pub struct FlattenStats {
    /// Rows written into the destination's top layer.
    pub rows_copied: u64,
    /// Bytes of key and value written.
    pub bytes_copied: u64,
    /// Identical re-introductions of a record the destination already holds live.
    pub rows_deduped: u64,
    /// Retractions that bit nothing in the destination and were therefore dropped.
    pub tombstones_dropped: u64,
    /// The sequences the copied rows occupy. `None` exactly when the rows kept their stamps.
    pub seq_range: Option<(Stamp, Stamp)>,
}

impl Default for FlattenStats {
    fn default() -> (s: FlattenStats)
        ensures
            s == (FlattenStats {
                rows_copied: 0,
                bytes_copied: 0,
                rows_deduped: 0,
                tombstones_dropped: 0,
                seq_range: None,
            }),
    {
        FlattenStats {
            rows_copied: 0,
            bytes_copied: 0,
            rows_deduped: 0,
            tombstones_dropped: 0,
            seq_range: None,
        }
    }
}

/// One key given two different values by two lineages that could not see each other.
///
/// Under value immutability a key's value never changes, so this never arises within one
/// lineage. It arises between them: each branch's window predates the other's write, so both
/// writes were legal where they were made, and neither the destination's version nor the larger
/// stamp is entitled to win. No merge can choose without a policy the storage layer does not
/// have, so it reports and refuses.
#[derive(Clone, Debug, PartialEq, Eq)]
pub struct FlattenConflict {
    /// Which two sides disagree.
    pub kind: ConflictKind,
    /// The relation the key belongs to.
    pub relation: String,
    /// The key, as stored. It closes with the validity the view holds the row at.
    pub key: Vec<u8>,
    /// For [`ConflictKind::Destination`], the value the destination already holds. For
    /// [`ConflictKind::Source`], the value carried by the older of the two disagreeing
    /// assertions.
    pub existing: Vec<u8>,
    /// The value the view would write: its newest assertion under this key.
    pub incoming: Vec<u8>,
}

/// What a conflict says.
#[verifier::ext_equal]
pub struct ConflictView {
    pub kind: ConflictKind,
    pub relation: Seq<char>,
    pub key: Seq<u8>,
    pub existing: Seq<u8>,
    pub incoming: Seq<u8>,
}

impl View for FlattenConflict {
    type V = ConflictView;

    open spec fn view(&self) -> ConflictView {
        ConflictView {
            kind: self.kind,
            relation: self.relation@,
            key: self.key@,
            existing: self.existing@,
            incoming: self.incoming@,
        }
    }
}

/// What the conflicts say, in order.
pub open spec fn conflict_views(cs: Seq<FlattenConflict>) -> Seq<ConflictView> {
    Seq::new(cs.len(), |i: int| cs[i]@)
}

/// What a flatten *would* do, computed without writing anything.
///
/// A plan is not a lock: nothing here is atomic against concurrent writers on either stack, so a
/// plan can be made stale by a write that lands between planning and acting.
#[derive(Clone, Debug, PartialEq, Eq)]
pub struct FlattenPlan {
    /// What the flatten would report, had it run. `seq_range` is always `None`: a plan occupies
    /// no sequence because it commits nothing.
    pub stats: FlattenStats,
    /// Every collision, not merely the first. Empty exactly when the flatten would succeed.
    pub conflicts: Vec<FlattenConflict>,
}

/// What a flatten comes to.
#[verifier::ext_equal]
pub struct PlanView {
    pub rows_copied: nat,
    pub bytes_copied: nat,
    pub rows_deduped: nat,
    pub tombstones_dropped: nat,
    pub conflicts: Seq<ConflictView>,
}

impl PlanView {
    /// The plan that also takes in one more row.
    pub open spec fn with(self, rel: RelView, e: Effect) -> PlanView {
        match e {
            Effect::Effective { key, val, .. } => PlanView {
                rows_copied: self.rows_copied + 1,
                bytes_copied: self.bytes_copied + key.len() + val.len(),
                ..self
            },
            Effect::Redundant { .. } => PlanView { rows_deduped: self.rows_deduped + 1, ..self },
            Effect::Inert { .. } => PlanView {
                tombstones_dropped: self.tombstones_dropped + 1,
                ..self
            },
            Effect::Divergent { key, existing, incoming, kind } => PlanView {
                conflicts: self.conflicts.push(
                    ConflictView { kind, relation: rel.name, key, existing, incoming },
                ),
                ..self
            },
        }
    }

    /// Every count fits the machine's.
    pub open spec fn fits(self) -> bool {
        &&& self.rows_copied <= u64::MAX
        &&& self.bytes_copied <= u64::MAX
        &&& self.rows_deduped <= u64::MAX
        &&& self.tombstones_dropped <= u64::MAX
    }
}

/// What the rows that a scan decides come to.
pub open spec fn plan_of(rows: Seq<(RelView, Effect)>) -> PlanView
    decreases rows.len(),
{
    if rows.len() == 0 {
        PlanView {
            rows_copied: 0,
            bytes_copied: 0,
            rows_deduped: 0,
            tombstones_dropped: 0,
            conflicts: Seq::empty(),
        }
    } else {
        plan_of(rows.drop_last()).with(rows.last().0, rows.last().1)
    }
}

/// What counts and conflicts say together.
pub open spec fn plan_view(stats: FlattenStats, conflicts: Seq<FlattenConflict>) -> PlanView {
    PlanView {
        rows_copied: stats.rows_copied as nat,
        bytes_copied: stats.bytes_copied as nat,
        rows_deduped: stats.rows_deduped as nat,
        tombstones_dropped: stats.tombstones_dropped as nat,
        conflicts: conflict_views(conflicts),
    }
}

impl View for FlattenPlan {
    type V = PlanView;

    open spec fn view(&self) -> PlanView {
        plan_view(self.stats, self.conflicts@)
    }
}

impl Default for FlattenPlan {
    fn default() -> (p: FlattenPlan)
        ensures
            p@ == plan_of(Seq::empty()),
            p.stats.seq_range is None,
    {
        let p = FlattenPlan { stats: FlattenStats::default(), conflicts: Vec::new() };
        assert(p@ =~= plan_of(Seq::empty()));
        p
    }
}

impl FlattenPlan {
    /// Whether the flatten this plans would succeed.
    pub fn is_clean(&self) -> (r: bool)
        ensures
            r == (self.conflicts@.len() == 0),
            r == (self@.conflicts.len() == 0),
    {
        self.conflicts.is_empty()
    }
}

/// A row of a paginated preview.
#[derive(Clone, Debug, PartialEq, Eq)]
pub enum FlattenItem {
    /// A row the flatten would write into the destination's top layer.
    Copy {
        /// The relation the row belongs to.
        relation: String,
        /// The key, as stored. It closes with the validity the view holds the row at.
        key: Vec<u8>,
        /// The value.
        value: Vec<u8>,
    },
    /// A record the destination already holds live, identically.
    Dedupe {
        /// The relation the row belongs to.
        relation: String,
        /// The key, as stored.
        key: Vec<u8>,
    },
    /// A retraction that bites nothing in the destination.
    TombstoneDropped {
        /// The relation the row belongs to.
        relation: String,
        /// The key, as stored.
        key: Vec<u8>,
    },
    /// A key the two lineages gave different values.
    Conflict(FlattenConflict),
}

/// What an item says.
#[verifier::ext_equal]
pub enum ItemView {
    Copy { relation: Seq<char>, key: Seq<u8>, value: Seq<u8> },
    Dedupe { relation: Seq<char>, key: Seq<u8> },
    TombstoneDropped { relation: Seq<char>, key: Seq<u8> },
    Conflict(ConflictView),
}

impl View for FlattenItem {
    type V = ItemView;

    open spec fn view(&self) -> ItemView {
        match self {
            FlattenItem::Copy { relation, key, value } => ItemView::Copy {
                relation: relation@,
                key: key@,
                value: value@,
            },
            FlattenItem::Dedupe { relation, key } => ItemView::Dedupe {
                relation: relation@,
                key: key@,
            },
            FlattenItem::TombstoneDropped { relation, key } => ItemView::TombstoneDropped {
                relation: relation@,
                key: key@,
            },
            FlattenItem::Conflict(c) => ItemView::Conflict(c@),
        }
    }
}

/// The item that shows a decided row.
pub open spec fn item_of(rel: RelView, e: Effect) -> ItemView {
    match e {
        Effect::Effective { key, val, .. } => ItemView::Copy { relation: rel.name, key, value: val },
        Effect::Redundant { key } => ItemView::Dedupe { relation: rel.name, key },
        Effect::Inert { key } => ItemView::TombstoneDropped { relation: rel.name, key },
        Effect::Divergent { key, existing, incoming, kind } => ItemView::Conflict(
            ConflictView { kind, relation: rel.name, key, existing, incoming },
        ),
    }
}

/// The items that show decided rows, in order.
pub open spec fn items_of(rows: Seq<(RelView, Effect)>) -> Seq<ItemView> {
    Seq::new(rows.len(), |i: int| item_of(rows[i].0, rows[i].1))
}

/// What the items say, in order.
pub open spec fn item_views(items: Seq<FlattenItem>) -> Seq<ItemView> {
    Seq::new(items.len(), |i: int| items[i]@)
}

/// Where a paginated scan left off. Opaque, and meaningful only to the same pair of stacks.
#[derive(Clone, Debug, PartialEq, Eq)]
pub struct FlattenCursor(Vec<u8>);

impl View for FlattenCursor {
    type V = Seq<u8>;

    closed spec fn view(&self) -> Seq<u8> {
        self.0@
    }
}

impl FlattenCursor {
    /// The token's bytes, for a caller that needs to carry it across a process boundary.
    pub fn as_bytes(&self) -> (r: &[u8])
        ensures
            r@ == self@,
    {
        self.0.as_slice()
    }

    /// Rebuilds a cursor from [`FlattenCursor::as_bytes`].
    pub fn from_bytes(bytes: Vec<u8>) -> (r: FlattenCursor)
        ensures
            r@ == bytes@,
    {
        FlattenCursor(bytes)
    }
}

/// One page of a preview.
#[derive(Clone, Debug, PartialEq, Eq)]
pub struct FlattenPage {
    /// The items in this page, in key order.
    pub items: Vec<FlattenItem>,
    /// Where to resume, or `None` at the end of the scan.
    pub next: Option<FlattenCursor>,
}

/// What a page shows.
#[verifier::ext_equal]
pub struct PageView {
    pub items: Seq<ItemView>,
    pub next: Option<Seq<u8>>,
}

impl View for FlattenPage {
    type V = PageView;

    open spec fn view(&self) -> PageView {
        PageView {
            items: item_views(self.items@),
            next: match self.next {
                Some(c) => Some(c@),
                None => None,
            },
        }
    }
}

/// The page of at most `limit` items that a scan fills: as many of its rows as fit, and the key
/// of the last one if there were as many as the page asks for. A page that asks for nothing
/// while rows are left resumes where it began, at `after` or before the first key. There is no
/// page where the scan fails before the page is full.
pub open spec fn page_of(t: Trace, after: Option<Seq<u8>>, limit: nat) -> Option<PageView> {
    if limit == 0 && t.rows.len() > 0 {
        Some(
            PageView {
                items: Seq::empty(),
                next: Some(
                    match after {
                        Some(a) => a,
                        None => Seq::empty(),
                    },
                ),
            },
        )
    } else if limit > 0 && t.rows.len() >= limit {
        Some(
            PageView {
                items: items_of(t.rows.take(limit as int)),
                next: Some(t.rows[limit - 1].1.key()),
            },
        )
    } else if t.failure is Some {
        None
    } else {
        Some(PageView { items: items_of(t.rows), next: None })
    }
}

/// Why a flatten did not run.
#[derive(Debug, PartialEq, Eq)]
pub enum FlattenError {
    /// One of the two stacks cannot be read.
    Stack(StackError),
    /// A layer is both part of the source and the destination's top layer: it would be read as
    /// it is written.
    Clash { layer: String },
    /// The source view cannot be resolved.
    Scan(ScanError),
    /// The view and the destination, or two layers of the view, disagree.
    Conflicts(Vec<FlattenConflict>),
}

/// Why a flatten is refused.
#[verifier::ext_equal]
pub enum Refusal {
    Stack(StackFault),
    Clash { layer: Seq<char> },
    Scan(Failure),
    Conflicts(Seq<ConflictView>),
}

impl View for FlattenError {
    type V = Refusal;

    open spec fn view(&self) -> Refusal {
        match self {
            FlattenError::Stack(e) => Refusal::Stack(e@),
            FlattenError::Clash { layer } => Refusal::Clash { layer: layer@ },
            FlattenError::Scan(e) => Refusal::Scan(e@),
            FlattenError::Conflicts(cs) => Refusal::Conflicts(conflict_views(cs@)),
        }
    }
}

/// The rows a flatten writes into the destination's top layer, and what it reports.
pub struct FlattenBatch {
    pub stats: FlattenStats,
    pub rows: Vec<Row>,
}

/// What the rows say, in order.
pub open spec fn row_views(rows: Seq<Row>) -> Seq<Kv> {
    Seq::new(rows.len(), |i: int| rows[i]@)
}

/// The key a row is written under.
pub open spec fn written_key(key: Seq<u8>, restamp: bool, stamp: Stamp) -> Seq<u8> {
    if restamp {
        restamped(key, stamp)
    } else {
        key
    }
}

/// What a flatten writes: each effective row, in order, stamped anew if asked.
pub open spec fn writes_of(
    rows: Seq<(RelView, Effect)>,
    restamp: bool,
    stamp: Stamp,
) -> Seq<Kv>
    decreases rows.len(),
{
    if rows.len() == 0 {
        Seq::empty()
    } else {
        let before = writes_of(rows.drop_last(), restamp, stamp);
        match rows.last().1 {
            Effect::Effective { key, val, .. } => before.push(
                (written_key(key, restamp, stamp), val),
            ),
            _ => before,
        }
    }
}

/// What a layer holds once the rows have been written to it.
pub open spec fn written(m: Content, rows: Seq<Kv>) -> Content
    decreases rows.len(),
{
    if rows.len() == 0 {
        m
    } else {
        written(m, rows.drop_last()).insert(rows.last().0, rows.last().1)
    }
}

/// Describes one collision.
pub fn conflict_at(
    rel: &RelInfo,
    key: &[u8],
    existing: &[u8],
    incoming: &[u8],
    kind: ConflictKind,
) -> (c: FlattenConflict)
    ensures
        c@ == (ConflictView {
            kind,
            relation: rel@.name,
            key: key@,
            existing: existing@,
            incoming: incoming@,
        }),
{
    FlattenConflict {
        kind,
        relation: rel.name.clone(),
        key: to_vec(key),
        existing: to_vec(existing),
        incoming: to_vec(incoming),
    }
}

/// Counts rows as they stream past, and keeps the conflicts.
struct PlanVisitor {
    plan: FlattenPlan,
}

#[verifier::ext_equal]
struct PlanState {
    plan: PlanView,
    seq_range: Option<(Stamp, Stamp)>,
}

impl Visitor for PlanVisitor {
    type State = PlanState;

    type Error = FlattenError;

    type Fault = Refusal;

    closed spec fn state(&self) -> PlanState {
        PlanState { plan: self.plan@, seq_range: self.plan.stats.seq_range }
    }

    closed spec fn ready(s: PlanState, rel: RelView, e: Effect) -> bool {
        s.plan.with(rel, e).fits()
    }

    closed spec fn visited(s: PlanState, rel: RelView, e: Effect) -> PlanState {
        PlanState { plan: s.plan.with(rel, e), ..s }
    }

    closed spec fn stops(s: PlanState, rel: RelView, e: Effect) -> bool {
        false
    }

    closed spec fn fault(error: FlattenError) -> Refusal {
        error@
    }

    closed spec fn refuses(s: PlanState, rel: RelView, e: Effect) -> Option<Refusal> {
        None
    }

    fn visit(&mut self, rel: &RelInfo, effect: RowEffect<'_>) -> (r: Result<
        ControlFlow<()>,
        FlattenError,
    >)
    {
        let ghost e = effect@;
        match effect {
            RowEffect::Effective { key, val, .. } => {
                self.plan.stats.rows_copied = self.plan.stats.rows_copied + 1;
                let size: u64 = key.len() as u64 + val.len() as u64;
                self.plan.stats.bytes_copied = self.plan.stats.bytes_copied + size;
            },
            RowEffect::Redundant { .. } => {
                self.plan.stats.rows_deduped = self.plan.stats.rows_deduped + 1;
            },
            RowEffect::Inert { .. } => {
                self.plan.stats.tombstones_dropped = self.plan.stats.tombstones_dropped + 1;
            },
            RowEffect::Divergent { key, existing, incoming, kind } => {
                self.plan.conflicts.push(conflict_at(rel, key, existing, incoming, kind));
            },
        }
        proof {
            assert(self.plan@ =~= old(self).plan@.with(rel@, e));
        }
        Ok(ControlFlow::Continue(()))
    }
}

/// How a scan that no visitor stops ends.
spec fn unstopped(failure: Option<Failure>) -> Outcome<Refusal> {
    match failure {
        Some(f) => Outcome::Failed { failure: f },
        None => Outcome::Done,
    }
}

/// Taking in a row more never lowers a count.
proof fn lemma_plan_grows(rows: Seq<(RelView, Effect)>, n: int)
    requires
        0 <= n <= rows.len(),
    ensures
        plan_of(rows).fits() ==> plan_of(rows.take(n)).fits(),
    decreases rows.len(),
{
    if n == rows.len() {
        assert(rows.take(n) =~= rows);
    } else {
        lemma_plan_grows(rows.drop_last(), n);
        assert(rows.drop_last().take(n) =~= rows.take(n));
    }
}

proof fn lemma_feed_plan(
    a: Seq<(RelView, Effect)>,
    b: Seq<(RelView, Effect)>,
    failure: Option<Failure>,
)
    ensures
        feed::<PlanVisitor>(PlanState { plan: plan_of(a), seq_range: None }, b, failure) == (
            PlanState { plan: plan_of(a + b), seq_range: None },
            unstopped(failure),
        ),
        plan_of(a + b).fits() ==> admissible::<PlanVisitor>(
            PlanState { plan: plan_of(a), seq_range: None },
            b,
        ),
    decreases b.len(),
{
    if b.len() == 0 {
        assert(a + b =~= a);
    } else {
        let more = a.push(b[0]);
        assert(more.drop_last() =~= a);
        assert(more + b.drop_first() =~= a + b);
        lemma_feed_plan(more, b.drop_first(), failure);
        lemma_plan_grows(a + b, more.len() as int);
        assert((a + b).take(more.len() as int) =~= more);
    }
}

/// Gathers the rows to write, and the conflicts that stand in their way.
struct BatchVisitor {
    restamp: bool,
    stamp: Stamp,
    stats: FlattenStats,
    conflicts: Vec<FlattenConflict>,
    rows: Vec<Row>,
}

#[verifier::ext_equal]
struct BatchState {
    restamp: bool,
    stamp: Stamp,
    plan: PlanView,
    seq_range: Option<(Stamp, Stamp)>,
    writes: Seq<Kv>,
}

spec fn batch_of(rows: Seq<(RelView, Effect)>, restamp: bool, stamp: Stamp) -> BatchState {
    BatchState {
        restamp,
        stamp,
        plan: plan_of(rows),
        seq_range: None,
        writes: writes_of(rows, restamp, stamp),
    }
}

impl Visitor for BatchVisitor {
    type State = BatchState;

    type Error = FlattenError;

    type Fault = Refusal;

    closed spec fn state(&self) -> BatchState {
        BatchState {
            restamp: self.restamp,
            stamp: self.stamp,
            plan: plan_view(self.stats, self.conflicts@),
            seq_range: self.stats.seq_range,
            writes: row_views(self.rows@),
        }
    }

    closed spec fn ready(s: BatchState, rel: RelView, e: Effect) -> bool {
        s.plan.with(rel, e).fits()
    }

    closed spec fn visited(s: BatchState, rel: RelView, e: Effect) -> BatchState {
        BatchState {
            plan: s.plan.with(rel, e),
            writes: match e {
                Effect::Effective { key, val, .. } => s.writes.push(
                    (written_key(key, s.restamp, s.stamp), val),
                ),
                _ => s.writes,
            },
            ..s
        }
    }

    closed spec fn stops(s: BatchState, rel: RelView, e: Effect) -> bool {
        false
    }

    closed spec fn fault(error: FlattenError) -> Refusal {
        error@
    }

    closed spec fn refuses(s: BatchState, rel: RelView, e: Effect) -> Option<Refusal> {
        None
    }

    fn visit(&mut self, rel: &RelInfo, effect: RowEffect<'_>) -> (r: Result<
        ControlFlow<()>,
        FlattenError,
    >)
    {
        let ghost e = effect@;
        match effect {
            RowEffect::Effective { key, val, .. } => {
                let mut key = to_vec(key);
                proof {
                    lemma_restamped_len(key@, self.stamp);
                }
                if self.restamp {
                    // Without this, a later read of the destination as of an earlier sequence
                    // would report the rows as present when they were not.
                    restamp_tail_validity(&mut key, self.stamp);
                }
                self.stats.rows_copied = self.stats.rows_copied + 1;
                let size: u64 = key.len() as u64 + val.len() as u64;
                self.stats.bytes_copied = self.stats.bytes_copied + size;
                self.rows.push(Row { key, val: to_vec(val) });
            },
            RowEffect::Redundant { .. } => {
                self.stats.rows_deduped = self.stats.rows_deduped + 1;
            },
            RowEffect::Inert { .. } => {
                self.stats.tombstones_dropped = self.stats.tombstones_dropped + 1;
            },
            RowEffect::Divergent { key, existing, incoming, kind } => {
                self.conflicts.push(conflict_at(rel, key, existing, incoming, kind));
            },
        }
        proof {
            assert(self.state().plan =~= old(self).state().plan.with(rel@, e));
            assert(self.state() =~= BatchVisitor::visited(old(self).state(), rel@, e));
        }
        Ok(ControlFlow::Continue(()))
    }
}

/// A key keeps its length when it is stamped anew.
pub proof fn lemma_restamped_len(key: Seq<u8>, stamp: Stamp)
    ensures
        restamped(key, stamp).len() == key.len(),
{
    if let Some(v) = validity_of(key) {
        lemma_tail_len(Validity { timestamp: stamp, is_assert: v.is_assert });
    }
}

proof fn lemma_feed_batch(
    a: Seq<(RelView, Effect)>,
    b: Seq<(RelView, Effect)>,
    failure: Option<Failure>,
    restamp: bool,
    stamp: Stamp,
)
    ensures
        feed::<BatchVisitor>(batch_of(a, restamp, stamp), b, failure) == (
            batch_of(a + b, restamp, stamp),
            unstopped(failure),
        ),
        plan_of(a + b).fits() ==> admissible::<BatchVisitor>(batch_of(a, restamp, stamp), b),
    decreases b.len(),
{
    if b.len() == 0 {
        assert(a + b =~= a);
    } else {
        let more = a.push(b[0]);
        assert(more.drop_last() =~= a);
        assert(more + b.drop_first() =~= a + b);
        lemma_feed_batch(more, b.drop_first(), failure, restamp, stamp);
        lemma_plan_grows(a + b, more.len() as int);
        assert((a + b).take(more.len() as int) =~= more);
        assert(BatchVisitor::visited(batch_of(a, restamp, stamp), b[0].0, b[0].1) =~= batch_of(
            more,
            restamp,
            stamp,
        ));
    }
}

/// Gathers the items of one page.
struct PageVisitor {
    limit: usize,
    items: Vec<FlattenItem>,
}

#[verifier::ext_equal]
struct PageState {
    limit: nat,
    items: Seq<ItemView>,
}

impl Visitor for PageVisitor {
    type State = PageState;

    type Error = FlattenError;

    type Fault = Refusal;

    closed spec fn state(&self) -> PageState {
        PageState { limit: self.limit as nat, items: item_views(self.items@) }
    }

    closed spec fn ready(s: PageState, rel: RelView, e: Effect) -> bool {
        true
    }

    closed spec fn visited(s: PageState, rel: RelView, e: Effect) -> PageState {
        if s.limit == 0 {
            s
        } else {
            PageState { items: s.items.push(item_of(rel, e)), ..s }
        }
    }

    closed spec fn stops(s: PageState, rel: RelView, e: Effect) -> bool {
        s.limit == 0 || s.items.len() + 1 >= s.limit
    }

    closed spec fn fault(error: FlattenError) -> Refusal {
        error@
    }

    closed spec fn refuses(s: PageState, rel: RelView, e: Effect) -> Option<Refusal> {
        None
    }

    fn visit(&mut self, rel: &RelInfo, effect: RowEffect<'_>) -> (r: Result<
        ControlFlow<()>,
        FlattenError,
    >)
    {
        let ghost e = effect@;
        if self.limit == 0 {
            return Ok(ControlFlow::Break(()));
        }
        let relation = rel.name.clone();
        let item = match effect {
            RowEffect::Effective { key, val, .. } => FlattenItem::Copy {
                relation,
                key: to_vec(key),
                value: to_vec(val),
            },
            RowEffect::Redundant { key } => FlattenItem::Dedupe { relation, key: to_vec(key) },
            RowEffect::Inert { key } => FlattenItem::TombstoneDropped {
                relation,
                key: to_vec(key),
            },
            RowEffect::Divergent { key, existing, incoming, kind } => FlattenItem::Conflict(
                conflict_at(rel, key, existing, incoming, kind),
            ),
        };
        self.items.push(item);
        proof {
            assert(item@ =~= item_of(rel@, e));
            assert(self.state() =~= PageVisitor::visited(old(self).state(), rel@, e));
        }
        if self.items.len() >= self.limit {
            Ok(ControlFlow::Break(()))
        } else {
            Ok(ControlFlow::Continue(()))
        }
    }
}

proof fn lemma_feed_page(
    a: Seq<(RelView, Effect)>,
    b: Seq<(RelView, Effect)>,
    failure: Option<Failure>,
    limit: nat,
)
    requires
        a.len() < limit || a.len() == 0,
    ensures
        feed::<PageVisitor>(PageState { limit, items: items_of(a) }, b, failure) == (if limit == 0
            && b.len() > 0 {
            (
                PageState { limit, items: Seq::empty() },
                Outcome::Stopped { key: b[0].1.key() },
            )
        } else if limit > 0 && (a + b).len() >= limit {
            (
                PageState { limit, items: items_of((a + b).take(limit as int)) },
                Outcome::Stopped { key: (a + b)[limit - 1].1.key() },
            )
        } else {
            (PageState { limit, items: items_of(a + b) }, unstopped(failure))
        }),
        admissible::<PageVisitor>(PageState { limit, items: items_of(a) }, b),
    decreases b.len(),
{
    if b.len() == 0 {
        assert(a + b =~= a);
    } else if limit == 0 {
        assert(items_of(a) =~= Seq::<ItemView>::empty());
    } else {
        let more = a.push(b[0]);
        assert(more + b.drop_first() =~= a + b);
        assert(items_of(a).push(item_of(b[0].0, b[0].1)) =~= items_of(more));
        if more.len() < limit {
            lemma_feed_page(more, b.drop_first(), failure, limit);
        } else {
            assert((a + b).take(limit as int) =~= more);
            assert((a + b)[limit - 1] == b[0]);
        }
    }
}

/// A layer of the source is the destination's top layer.
pub open spec fn clashes(src: Seq<LayerRef>, dst: Seq<LayerRef>) -> bool {
    exists|i: int| 0 <= i < src.len() && (#[trigger] src[i]).name@ == dst[0].name@
}

/// Whether a layer of the source is the destination's top layer.
pub fn is_clash(src: &Stack, dst: &Stack) -> (r: bool)
    requires
        dst@.len() > 0,
    ensures
        r == clashes(src@, dst@),
{
    let mut i: usize = 0;
    while i < src.len()
        invariant
            i <= src@.len(),
            dst@.len() > 0,
            forall|j: int| 0 <= j < i ==> (#[trigger] src@[j]).name@ != dst@[0].name@,
        decreases src@.len() - i,
    {
        if src[i].name == dst[0].name {
            return true;
        }
        i += 1;
    }
    false
}

/// Everything a scan needs, bound for the life of one call.
pub struct ScanContext<'a> {
    pub src_layers: Vec<BoundLayer<'a>>,
    pub dst_layers: Vec<BoundLayer<'a>>,
    pub relations: &'a BTreeMap<u64, RelInfo>,
}

/// What a flatten that went through reports.
pub open spec fn reports(
    stats: FlattenStats,
    plan: PlanView,
    restamp: bool,
    stamp: Stamp,
) -> bool {
    &&& plan_view(stats, Seq::empty()) == plan
    &&& stats.seq_range == if restamp {
        Some((stamp, stamp))
    } else {
        None
    }
}

impl Db {
    /// What is wrong with the two stacks, the source's fault first.
    pub open spec fn context_fault(
        &self,
        src: Seq<LayerRef>,
        dst: Seq<LayerRef>,
    ) -> Option<StackFault> {
        match self.fault(src) {
            Some(f) => Some(f),
            None => self.fault(dst),
        }
    }

    /// What a scan of the source view against the destination reports.
    pub open spec fn trace(
        &self,
        src: Seq<LayerRef>,
        dst: Seq<LayerRef>,
        after: Option<Seq<u8>>,
    ) -> Trace {
        scan_all(
            rel_views(self.relations@),
            self.view_of(src),
            self.layer_view(src, 0),
            self.view_of(dst),
            after,
        )
    }

    /// What a flatten comes to fits the machine's counters.
    pub open spec fn counted(&self, src: Seq<LayerRef>, dst: Seq<LayerRef>) -> bool {
        self.context_fault(src, dst) is None ==> plan_of(self.trace(src, dst, None).rows).fits()
    }

    /// Why there is no telling what a flatten of the source view into the destination would do: a
    /// stack cannot be read, a layer is on both sides, or the view cannot be resolved.
    pub open spec fn unplannable(&self, src: Seq<LayerRef>, dst: Seq<LayerRef>) -> Option<Refusal> {
        match self.context_fault(src, dst) {
            Some(f) => Some(Refusal::Stack(f)),
            None => if clashes(src, dst) {
                Some(Refusal::Clash { layer: dst[0].name@ })
            } else {
                match self.trace(src, dst, None).failure {
                    Some(f) => Some(Refusal::Scan(f)),
                    None => None,
                }
            },
        }
    }

    /// Why the source view cannot be flattened into the destination: what is looked at first is
    /// what is reported.
    pub open spec fn refusal(&self, src: Seq<LayerRef>, dst: Seq<LayerRef>) -> Option<Refusal> {
        let plan = plan_of(self.trace(src, dst, None).rows);
        if self.unplannable(src, dst) is Some {
            self.unplannable(src, dst)
        } else if plan.conflicts.len() > 0 {
            Some(Refusal::Conflicts(plan.conflicts))
        } else {
            None
        }
    }

    /// Whether the counters can hold what a flatten of `src` comes to, whatever the destination.
    pub fn fits_counters(&self, src: &Stack) -> (r: bool)
        requires
            self.wf(),
        ensures
            r == self.countable(src@),
            r ==> forall|dst: Seq<LayerRef>| #[trigger] self.counted(src@, dst),
    {
        let r = self.is_countable(src);
        proof {
            if r {
                assert forall|dst: Seq<LayerRef>| #[trigger] self.counted(src@, dst) by {
                    if self.context_fault(src@, dst) is None {
                        lemma_countable(
                            *self,
                            src@,
                            self.layer_view(src@, 0),
                            self.view_of(dst),
                            None,
                        );
                    }
                }
            }
        }
        r
    }

    /// Finds the layers of both stacks, in stack order, and the relations to scan.
    pub fn scan_context<'a>(&'a self, src: &Stack, dst: &Stack) -> (r: Result<
        ScanContext<'a>,
        FlattenError,
    >)
        requires
            self.wf(),
        ensures
            match self.context_fault(src@, dst@) {
                Some(f) => r matches Err(e) && e@ == Refusal::Stack(f),
                None => {
                    &&& r matches Ok(c)
                    &&& c.relations@ == self.relations@
                    &&& self.binds(src@, c.src_layers@)
                    &&& self.binds(dst@, c.dst_layers@)
                    &&& c.src_layers@.len() > 0
                    &&& c.dst_layers@.len() > 0
                    &&& bound_content(c.src_layers@) == self.view_of(src@)
                    &&& bound_content(c.dst_layers@) == self.view_of(dst@)
                },
            },
    {
        let src_layers = match self.bind_layers(src) {
            Ok(l) => l,
            Err(e) => {
                return Err(FlattenError::Stack(e));
            },
        };
        let dst_layers = match self.bind_layers(dst) {
            Ok(l) => l,
            Err(e) => {
                return Err(FlattenError::Stack(e));
            },
        };
        Ok(ScanContext { src_layers, dst_layers, relations: &self.relations })
    }

    /// What [`Db::flatten`] would do, without doing it.
    ///
    /// Every check a flatten makes runs here: that no layer is on both sides, the view's net
    /// effect, dedupe, tombstone liveness against the whole destination stack. A merge can so be
    /// previewed, and its conflicts reported in full.
    ///
    /// What is kept is proportional to the number of conflicts, not to the size of the view: rows
    /// are counted as they stream past. Use [`Db::flatten_page`] to see the rows themselves.
    ///
    /// A clean plan is not a promise: see [`FlattenPlan`] on staleness.
    pub fn flatten_plan(&self, src: &Stack, dst: &Stack) -> (r: Result<FlattenPlan, FlattenError>)
        requires
            self.wf(),
            self.counted(src@, dst@),
        ensures
            match self.unplannable(src@, dst@) {
                Some(x) => r matches Err(e) && e@ == x,
                None => {
                    &&& r matches Ok(plan)
                    &&& plan@ == plan_of(self.trace(src@, dst@, None).rows)
                    &&& plan.stats.seq_range is None
                },
            },
    {
        let ctx = match self.scan_context(src, dst) {
            Ok(c) => c,
            Err(e) => {
                return Err(e);
            },
        };
        if is_clash(src, dst) {
            return Err(FlattenError::Clash { layer: dst[0].name.clone() });
        }
        let ghost t = self.trace(src@, dst@, None);
        let mut visit = PlanVisitor { plan: FlattenPlan::default() };
        proof {
            assert(visit.state() =~= PlanState { plan: plan_of(Seq::empty()), seq_range: None });
            lemma_feed_plan(Seq::empty(), t.rows, t.failure);
            assert(Seq::<(RelView, Effect)>::empty() + t.rows =~= t.rows);
        }
        match scan(&ctx.src_layers, &ctx.dst_layers, ctx.relations, None, &mut visit) {
            Err(Halt::Scan(e)) => Err(FlattenError::Scan(e)),
            Err(Halt::Visitor(e)) => Err(e),
            Ok(_) => Ok(visit.plan),
        }
    }

    /// One page of what [`Db::flatten`] would do.
    ///
    /// Pass `None` for the first page and the previous page's `next` thereafter. A page that asks
    /// for no row skips none: its `next` is where it began.
    ///
    /// Each call is self-contained, so consecutive pages are *not* one snapshot: a write landing
    /// between them is visible to the later page. Bounding the source stack's layers makes the
    /// view immutable and the paging repeatable.
    pub fn flatten_page(
        &self,
        src: &Stack,
        dst: &Stack,
        after: Option<&FlattenCursor>,
        limit: usize,
    ) -> (r: Result<FlattenPage, FlattenError>)
        requires
            self.wf(),
        ensures
            match self.context_fault(src@, dst@) {
                Some(f) => r matches Err(e) && e@ == Refusal::Stack(f),
                None => {
                    let t = self.trace(src@, dst@, cursor_view(after));
                    match page_of(t, cursor_view(after), limit as nat) {
                        Some(p) => r matches Ok(page) && page@ == p,
                        None => r matches Err(e) && e@ == Refusal::Scan(t.failure.unwrap()),
                    }
                },
            },
    {
        let ctx = match self.scan_context(src, dst) {
            Ok(c) => c,
            Err(e) => {
                return Err(e);
            },
        };
        let ghost t = self.trace(src@, dst@, cursor_view(after));
        let mut visit = PageVisitor { limit, items: Vec::new() };
        proof {
            assert(visit.state() =~= PageState {
                limit: limit as nat,
                items: items_of(Seq::empty()),
            });
            lemma_feed_page(Seq::empty(), t.rows, t.failure, limit as nat);
            assert(Seq::<(RelView, Effect)>::empty() + t.rows =~= t.rows);
        }
        let from: Option<&[u8]> = match after {
            Some(c) => Some(c.as_bytes()),
            None => None,
        };
        match scan(&ctx.src_layers, &ctx.dst_layers, ctx.relations, from, &mut visit) {
            Err(Halt::Scan(e)) => Err(FlattenError::Scan(e)),
            Err(Halt::Visitor(e)) => Err(e),
            Ok(next) => {
                let next = match next {
                    Some(key) => Some(
                        FlattenCursor(
                            if limit > 0 {
                                key
                            } else {
                                match from {
                                    Some(a) => to_vec(a),
                                    None => Vec::new(),
                                }
                            },
                        ),
                    ),
                    None => None,
                };
                let page = FlattenPage { items: visit.items, next };
                proof {
                    if let Some(p) = page_of(t, cursor_view(after), limit as nat) {
                        assert(page@ =~= p);
                    }
                }
                Ok(page)
            },
        }
    }

    /// What a flatten writes, and what it reports, computed without writing: the rows go to the
    /// top layer of `dst`.
    ///
    /// A collision does not stop the scan: every one is collected, and none of the rows is then
    /// handed out. The rows are held until the scan is over, as it is only then known that they
    /// may be written.
    pub fn flatten_batch(
        &self,
        src: &Stack,
        dst: &Stack,
        restamp: bool,
        stamp: Stamp,
    ) -> (r: Result<FlattenBatch, FlattenError>)
        requires
            self.wf(),
            self.counted(src@, dst@),
        ensures
            match self.refusal(src@, dst@) {
                Some(x) => r matches Err(e) && e@ == x,
                None => {
                    let rows = self.trace(src@, dst@, None).rows;
                    &&& r matches Ok(batch)
                    &&& row_views(batch.rows@) == writes_of(rows, restamp, stamp)
                    &&& reports(batch.stats, plan_of(rows), restamp, stamp)
                },
            },
    {
        let ctx = match self.scan_context(src, dst) {
            Ok(c) => c,
            Err(e) => {
                return Err(e);
            },
        };
        if is_clash(src, dst) {
            return Err(FlattenError::Clash { layer: dst[0].name.clone() });
        }
        let ghost t = self.trace(src@, dst@, None);
        let mut visit = BatchVisitor {
            restamp,
            stamp,
            stats: FlattenStats::default(),
            conflicts: Vec::new(),
            rows: Vec::new(),
        };
        proof {
            assert(visit.state() =~= batch_of(Seq::empty(), restamp, stamp));
            lemma_feed_batch(Seq::empty(), t.rows, t.failure, restamp, stamp);
            assert(Seq::<(RelView, Effect)>::empty() + t.rows =~= t.rows);
        }
        match scan(&ctx.src_layers, &ctx.dst_layers, ctx.relations, None, &mut visit) {
            Err(Halt::Scan(e)) => Err(FlattenError::Scan(e)),
            Err(Halt::Visitor(e)) => Err(e),
            Ok(_) => {
                let BatchVisitor { stats, conflicts, rows, .. } = visit;
                if conflicts.len() > 0 {
                    return Err(FlattenError::Conflicts(conflicts));
                }
                let mut stats = stats;
                if restamp {
                    // A flatten is one transaction, so it is one point in commit order.
                    stats.seq_range = Some((stamp, stamp));
                }
                proof {
                    assert(conflict_views(conflicts@) =~= conflict_views(Seq::empty()));
                }
                Ok(FlattenBatch { stats, rows })
            },
        }
    }

    /// Materializes the net effect of `src` into `dst`'s top layer.
    ///
    /// `src` is any windowed sub-stack: an unwindowed single layer is a merge-down, a windowed
    /// one a cherry-pick. `dst`'s lower layers are read for the liveness and identity checks and
    /// never written. A flatten that is refused leaves the store as it was; [`Db::flatten_plan`]
    /// reports the same conflicts without attempting the write at all.
    ///
    /// `dst`'s top layer may not appear in `src`: a layer that is both would be read as it is
    /// written. With `restamp` the rows are stamped `stamp`, the flatten's place in commit order;
    /// without, they keep the stamps they were written at.
    pub fn flatten(
        &mut self,
        src: &Stack,
        dst: &Stack,
        restamp: bool,
        stamp: Stamp,
    ) -> (r: Result<FlattenStats, FlattenError>)
        requires
            old(self).wf(),
            old(self).counted(src@, dst@),
        ensures
            final(self).wf(),
            match old(self).refusal(src@, dst@) {
                Some(x) => {
                    &&& r matches Err(e)
                    &&& e@ == x
                    &&& *final(self) == *old(self)
                },
                None => {
                    let rows = old(self).trace(src@, dst@, None).rows;
                    &&& r matches Ok(stats)
                    &&& reports(stats, plan_of(rows), restamp, stamp)
                    &&& flattened(
                        *old(self),
                        *final(self),
                        dst@[0].name@,
                        writes_of(rows, restamp, stamp),
                    )
                },
            },
    {
        let batch = match self.flatten_batch(src, dst, restamp, stamp) {
            Ok(b) => b,
            Err(e) => {
                return Err(e);
            },
        };
        proof {
            self.lemma_known(dst@, 0);
        }
        if let Some(at) = self.find(&dst[0].name) {
            assert(self.layers@[at as int].wf());
            write_rows(&mut self.layers[at], batch.rows);
        }
        Ok(batch.stats)
    }
}

/// The rows have been written to the layer with this name, and nothing else has changed.
pub open spec fn flattened(before: Db, after: Db, name: Seq<char>, writes: Seq<Kv>) -> bool {
    let at = layer_index(before.layers@, name);
    &&& after.relations == before.relations
    &&& after.layers@.len() == before.layers@.len()
    &&& 0 <= at < before.layers@.len()
    &&& forall|i: int|
        0 <= i < before.layers@.len() && i != at ==> #[trigger] after.layers@[i]
            == before.layers@[i]
    &&& after.layers@[at].name == before.layers@[at].name
    &&& after.layers@[at].content() == written(before.layers@[at].content(), writes)
}

/// Writes the rows to a layer, in order.
fn write_rows(layer: &mut Layer, rows: Vec<Row>)
    requires
        old(layer).wf(),
    ensures
        final(layer).wf(),
        final(layer).name == old(layer).name,
        final(layer).content() == written(old(layer).content(), row_views(rows@)),
{
    let ghost all = rows@;
    assert(row_views(all).take(0) =~= Seq::<Kv>::empty());
    for row in it: rows
        invariant
            it.seq() == all,
            layer.wf(),
            layer.name == old(layer).name,
            layer.content() == written(
                old(layer).content(),
                row_views(all).take(it.index() as int),
            ),
    {
        proof {
            let n = it.index() as int;
            assert(row_views(all).take(n + 1).drop_last() =~= row_views(all).take(n));
            assert(row_views(all).take(n + 1).last() == all[n]@);
        }
        layer.put(row);
    }
    assert(row_views(all).take(all.len() as int) =~= row_views(all));
}

/// The view of an optional cursor.
pub open spec fn cursor_view(c: Option<&FlattenCursor>) -> Option<Seq<u8>> {
    match c {
        Some(c) => Some(c@),
        None => None,
    }
}

} // verus!
