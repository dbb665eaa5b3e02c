//! Resolving a source view and deciding each of its rows against a destination.

use core::ops::ControlFlow;
use std::collections::BTreeMap;

use vstd::prelude::*;
use vstd::std_specs::btree::increasing_seq;
use vstd::std_specs::iter::IteratorSpec;

use crate::catalog::{
    lemma_ids_are, lemma_increasing_ascends, lists_ids, rel_views, RelInfo, RelView,
};
use crate::codec::{
    be_bytes, identity_of, lemma_be_order, lemma_be_word, lemma_key_is_version,
    lemma_newest_first, lemma_version_has_prefix, lemma_version_key, newer, tail_validity,
    validity_of, validity_version_range, version_key, versions_upper, ID_LEN, VALIDITY_TAG,
    Validity,
};
use crate::content::{
    ascending, between, lemma_ascending_empty, lemma_ascending_step, lemma_between_finite,
};
use crate::iter::RawIter;
use crate::layer::{row_at, rows_sorted, Content};
use crate::order::{
    bytes_eq, bytes_lt, lemma_lt_transitive, lemma_not_lt, lemma_prefix_range, lex_le, lex_lt,
    to_vec,
};
use crate::stack::{bound_content, bound_wf, lemma_bound_finite, merge_over, BoundLayer};

verus! {

/// A key and its value.
pub type Kv = (Seq<u8>, Seq<u8>);

/// Which two sides of a flatten disagree about a key.
#[derive(Clone, Copy, Debug, PartialEq, Eq, Structural)]
pub enum ConflictKind {
    /// The source view asserts a value the destination disagrees with.
    Destination,
    /// Two layers of the source view assert different values for one key. Reachable when the
    /// source spans branches that forked from a common base and never saw one another's
    /// writes, so each write was legal where it was made.
    ///
    /// This detects disagreement about a *value*, and only that: one branch retracting a key
    /// while another asserts it is not reported, because a retraction followed by an assertion
    /// is also what ordinary undeleting looks like within a single lineage.
    Source,
}

/// The view holds this version of the identity.
pub open spec fn has_version(m: Content, identity: Seq<u8>, v: Validity) -> bool {
    m.contains_key(version_key(identity, v))
}

/// `v` is the newest version of the identity in the view.
pub open spec fn is_newest(m: Content, identity: Seq<u8>, v: Validity) -> bool {
    &&& has_version(m, identity, v)
    &&& forall|w: Validity| #[trigger] has_version(m, identity, w) ==> !newer(w, v)
}

/// `v` is the newest version of the identity that asserts.
pub open spec fn is_newest_assertion(m: Content, identity: Seq<u8>, v: Validity) -> bool {
    &&& v.is_assert
    &&& has_version(m, identity, v)
    &&& forall|w: Validity| #[trigger]
        has_version(m, identity, w) && w.is_assert ==> w.timestamp <= v.timestamp
}

/// The view holds the record: its newest version asserts.
pub open spec fn live(m: Content, identity: Seq<u8>) -> bool {
    exists|v: Validity| #[trigger] is_newest(m, identity, v) && v.is_assert
}

/// The value of the newest assertion under the identity, whether or not it has been retracted.
pub open spec fn asserted_value(m: Content, identity: Seq<u8>) -> Option<Seq<u8>> {
    if exists|v: Validity| is_newest_assertion(m, identity, v) {
        Some(m[version_key(identity, choose|v: Validity| is_newest_assertion(m, identity, v))])
    } else {
        None
    }
}

/// An identity has at most one newest version and one newest assertion.
pub proof fn lemma_newest_unique(m: Content, identity: Seq<u8>, a: Validity, b: Validity)
    ensures
        is_newest(m, identity, a) && is_newest(m, identity, b) ==> a == b,
        is_newest_assertion(m, identity, a) && is_newest_assertion(m, identity, b) ==> a == b,
{
    if is_newest(m, identity, a) && is_newest(m, identity, b) {
        assert(has_version(m, identity, a) && has_version(m, identity, b));
    }
    if is_newest_assertion(m, identity, a) && is_newest_assertion(m, identity, b) {
        assert(has_version(m, identity, a) && has_version(m, identity, b));
    }
}

/// What the destination says about a key.
pub struct KeyState {
    /// Its newest version asserts.
    pub live: bool,
    /// The value of its newest assertion.
    pub asserted: Option<Vec<u8>>,
}

/// The view of an optional byte string.
pub open spec fn opt_view(v: Option<Vec<u8>>) -> Option<Seq<u8>> {
    match v {
        Some(b) => Some(b@),
        None => None,
    }
}

/// What a stack says about a key, read through all its layers.
pub fn key_state(layers: &Vec<BoundLayer<'_>>, key: &[u8]) -> (r: KeyState)
    requires
        bound_wf(layers@),
        validity_of(key@) is Some,
    ensures
        r.live == live(bound_content(layers@), identity_of(key@)),
        opt_view(r.asserted) == asserted_value(bound_content(layers@), identity_of(key@)),
{
    let (identity, lower, upper) = validity_version_range(key);
    let ghost m = bound_content(layers@);
    let ghost id = identity_of(key@);
    let ghost lo = lower@;
    let ghost up = Some(upper@);
    let mut merge = merge_over(layers, Some(upper));
    merge.seek(lower.as_slice());
    let mut live_now: bool = false;
    let mut found: bool = false;
    let ghost mut newest: Option<Validity> = None;
    proof {
        lemma_key_is_version(key@);
        lemma_bound_finite(layers@);
        lemma_between_finite(m, lo, up);
        assert forall|w: Validity| #[trigger] has_version(m, id, w) implies merge.pending().contains_key(
            version_key(id, w),
        ) by {
            lemma_version_has_prefix(id, w);
            lemma_prefix_range(id, VALIDITY_TAG, version_key(id, w));
        }
    }
    loop
        invariant
            merge.inv(),
            merge.pending().dom().finite(),
            id.len() >= ID_LEN,
            identity@ == id,
            m == bound_content(layers@),
            id == identity_of(key@),
            forall|k: Seq<u8>| #[trigger]
                merge.pending().contains_key(k) ==> m.contains_key(k) && m[k] == merge.pending()[k],
            forall|w: Validity|
                has_version(m, id, w) && !(#[trigger] merge.pending().contains_key(
                    version_key(id, w),
                )) ==> found && !w.is_assert,
            found ==> newest is Some && is_newest(m, id, newest.unwrap()) && live_now
                == newest.unwrap().is_assert && !live_now,
            !found ==> newest is None && !live_now,
        decreases merge.pending().dom().len(),
    {
        let ghost pend = merge.pending();
        match merge.next_kv() {
            None => {
                proof {
                    assert forall|w: Validity| #[trigger]
                        has_version(m, id, w) implies found && !w.is_assert by {
                        assert(!pend.contains_key(version_key(id, w)));
                    }
                    if live(m, id) {
                        let v = choose|v: Validity| #[trigger] is_newest(m, id, v) && v.is_assert;
                        assert(has_version(m, id, v));
                    }
                    if exists|v: Validity| is_newest_assertion(m, id, v) {
                        let v = choose|v: Validity| is_newest_assertion(m, id, v);
                        assert(has_version(m, id, v));
                    }
                }
                return KeyState { live: false, asserted: None };
            },
            Some((k, val)) => {
                proof {
                    assert(pend.contains_key(k@));
                    assert(pend.dom().contains(k@));
                }
                let (other, _, _) = validity_version_range(k.as_slice());
                if let Some(v) = tail_validity(k.as_slice()) {
                    if bytes_eq(other, identity) {
                        proof {
                            lemma_key_is_version(k@);
                            assert(k@ == version_key(id, v));
                            assert(has_version(m, id, v));
                            // What is still to come sorts after this version.
                            assert forall|w: Validity|
                                has_version(m, id, w) && #[trigger] pend.contains_key(
                                    version_key(id, w),
                                ) implies !newer(w, v) by {
                                lemma_newest_first(id, w, v);
                                lemma_not_lt(version_key(id, w), k@);
                            }
                        }
                        if !found {
                            found = true;
                            live_now = v.is_assert;
                            proof {
                                newest = Some(v);
                                assert forall|w: Validity| #[trigger]
                                    has_version(m, id, w) implies !newer(w, v) by {
                                    assert(pend.contains_key(version_key(id, w)));
                                }
                                assert(is_newest(m, id, v));
                            }
                        }
                        if v.is_assert {
                            proof {
                                assert forall|w: Validity| #[trigger] has_version(m, id, w)
                                    && w.is_assert implies w.timestamp <= v.timestamp by {
                                    assert(pend.contains_key(version_key(id, w)));
                                }
                                assert(is_newest_assertion(m, id, v));
                                let c = choose|c: Validity| is_newest_assertion(m, id, c);
                                lemma_newest_unique(m, id, v, c);
                                if live(m, id) {
                                    let l = choose|l: Validity| #[trigger]
                                        is_newest(m, id, l) && l.is_assert;
                                    lemma_newest_unique(m, id, l, newest.unwrap());
                                }
                                if live_now {
                                    assert(is_newest(m, id, newest.unwrap()));
                                }
                            }
                            return KeyState { live: live_now, asserted: Some(val) };
                        }
                    }
                }
                proof {
                    assert forall|w: Validity|
                        has_version(m, id, w) && !(#[trigger] merge.pending().contains_key(
                            version_key(id, w),
                        )) implies found && !w.is_assert by {
                        if pend.contains_key(version_key(id, w)) {
                            assert(version_key(id, w) == k@);
                            lemma_version_key(id, w);
                        }
                    }
                }
            },
        }
    }
}

/// The row under this key asserts.
pub open spec fn asserts(key: Seq<u8>) -> bool {
    validity_of(key) matches Some(v) && v.is_assert
}

/// The value of the first of the rows that asserts.
pub open spec fn first_assertion(rows: Seq<Kv>) -> Option<Seq<u8>>
    decreases rows.len(),
{
    if rows.len() == 0 {
        None
    } else {
        match first_assertion(rows.drop_last()) {
            Some(v) => Some(v),
            None => if asserts(rows.last().0) {
                Some(rows.last().1)
            } else {
                None
            },
        }
    }
}

/// The value of the first of the rows that asserts something other than `val`.
pub open spec fn first_dissent(rows: Seq<Kv>, val: Seq<u8>) -> Option<Seq<u8>>
    decreases rows.len(),
{
    if rows.len() == 0 {
        None
    } else {
        match first_dissent(rows.drop_last(), val) {
            Some(v) => Some(v),
            None => if asserts(rows.last().0) && rows.last().1 != val {
                Some(rows.last().1)
            } else {
                None
            },
        }
    }
}

/// What the versions of one identity, newest first, come to.
#[verifier::ext_equal]
pub struct Resolution {
    /// The newest version.
    pub key: Seq<u8>,
    pub val: Seq<u8>,
    pub asserts: bool,
    /// The value of the newest assertion.
    pub asserted: Option<Seq<u8>>,
    /// The value of the newest assertion that disagrees with it.
    pub divergent: Option<Seq<u8>>,
}

/// What the versions of one identity, newest first, come to.
pub open spec fn resolution(rows: Seq<Kv>) -> Resolution {
    let asserted = first_assertion(rows);
    Resolution {
        key: rows[0].0,
        val: rows[0].1,
        asserts: asserts(rows[0].0),
        asserted,
        divergent: match asserted {
            Some(a) => first_dissent(rows, a),
            None => None,
        },
    }
}

/// What one resolved row means against the destination.
#[verifier::ext_equal]
pub enum Effect {
    /// Applying the row would change the destination.
    Effective { key: Seq<u8>, val: Seq<u8>, asserts: bool },
    /// The destination already holds this record, identically and live.
    Redundant { key: Seq<u8> },
    /// A retraction of a record the destination does not hold live.
    Inert { key: Seq<u8> },
    /// One key, two values.
    Divergent { key: Seq<u8>, existing: Seq<u8>, incoming: Seq<u8>, kind: ConflictKind },
}

impl Effect {
    /// The key of the row.
    pub open spec fn key(self) -> Seq<u8> {
        match self {
            Effect::Effective { key, .. } => key,
            Effect::Redundant { key } => key,
            Effect::Inert { key } => key,
            Effect::Divergent { key, .. } => key,
        }
    }
}

/// What a resolved row means against a destination in which its identity is live or not, and
/// was last asserted with a value or never.
///
/// Two source layers that disagree are reported before the destination is consulted: the view
/// is not self-consistent, so what the destination holds cannot settle it.
pub open spec fn effect_of(r: Resolution, is_live: bool, held: Option<Seq<u8>>) -> Effect {
    match (r.divergent, r.asserted) {
        (Some(other), Some(newest)) => Effect::Divergent {
            key: r.key,
            existing: other,
            incoming: newest,
            kind: ConflictKind::Source,
        },
        _ => if r.asserts {
            match held {
                Some(existing) if existing != r.val => Effect::Divergent {
                    key: r.key,
                    existing,
                    incoming: r.val,
                    kind: ConflictKind::Destination,
                },
                Some(_) if is_live => Effect::Redundant { key: r.key },
                _ => Effect::Effective { key: r.key, val: r.val, asserts: true },
            }
        } else if is_live {
            Effect::Effective { key: r.key, val: r.val, asserts: false }
        } else {
            Effect::Inert { key: r.key }
        },
    }
}

/// What a resolved row means against the destination view `dst`.
pub open spec fn decided(r: Resolution, dst: Content) -> Effect {
    effect_of(r, live(dst, identity_of(r.key)), asserted_value(dst, identity_of(r.key)))
}

/// How many of the leading rows are versions of `identity`.
pub open spec fn run_len(rows: Seq<Kv>, identity: Seq<u8>) -> nat
    decreases rows.len(),
{
    if rows.len() == 0 || validity_of(rows[0].0) is None || identity_of(rows[0].0) != identity {
        0
    } else {
        1 + run_len(rows.drop_first(), identity)
    }
}

/// A run is no longer than the rows it is in.
pub proof fn lemma_run_len(rows: Seq<Kv>, identity: Seq<u8>)
    ensures
        run_len(rows, identity) <= rows.len(),
        forall|i: int|
            0 <= i < run_len(rows, identity) ==> validity_of((#[trigger] rows[i]).0) is Some
                && identity_of(rows[i].0) == identity,
        run_len(rows, identity) < rows.len() ==> validity_of(
            rows[run_len(rows, identity) as int].0,
        ) is None || identity_of(rows[run_len(rows, identity) as int].0) != identity,
    decreases rows.len(),
{
    if run_len(rows, identity) > 0 {
        lemma_run_len(rows.drop_first(), identity);
        assert forall|i: int| 0 <= i < run_len(rows, identity) implies validity_of(
            (#[trigger] rows[i]).0,
        ) is Some && identity_of(rows[i].0) == identity by {
            if i > 0 {
                assert(rows.drop_first()[i - 1] == rows[i]);
            }
        }
    }
}

/// Rows that are all versions of `identity`, before a row that is not or the end, are a run.
pub proof fn lemma_run_is(rows: Seq<Kv>, identity: Seq<u8>, n: nat)
    requires
        n <= rows.len(),
        forall|i: int|
            0 <= i < n ==> validity_of((#[trigger] rows[i]).0) is Some && identity_of(rows[i].0)
                == identity,
        n < rows.len() ==> validity_of(rows[n as int].0) is None || identity_of(rows[n as int].0)
            != identity,
    ensures
        run_len(rows, identity) == n,
    decreases rows.len(),
{
    if n > 0 {
        assert forall|i: int| 0 <= i < n - 1 implies validity_of(
            (#[trigger] rows.drop_first()[i]).0,
        ) is Some && identity_of(rows.drop_first()[i].0) == identity by {
            assert(rows.drop_first()[i] == rows[i + 1]);
        }
        lemma_run_is(rows.drop_first(), identity, (n - 1) as nat);
    }
}

/// Why a scan cannot go on.
#[verifier::ext_equal]
pub enum Failure {
    /// The relation has no validity column, and the source's top layer holds rows of it.
    Plain { relation: Seq<char> },
    /// The relation holds a row without a validity.
    Unversioned { relation: Seq<char> },
}

/// What a scan reports: the rows it decides, in order, and the failure it ends in, if any.
#[verifier::ext_equal]
pub struct Trace {
    pub rows: Seq<(RelView, Effect)>,
    pub failure: Option<Failure>,
}

/// One scan after another: the second runs only if the first did not fail.
pub open spec fn chain(a: Trace, b: Trace) -> Trace {
    if a.failure is Some {
        a
    } else {
        Trace { rows: a.rows + b.rows, failure: b.failure }
    }
}

/// The scan of one relation's rows: each maximal run of versions of one identity is resolved and
/// decided. A row without a validity ends the scan, before the run that it follows is decided.
pub open spec fn scan_rows(rel: RelView, rows: Seq<Kv>, dst: Content) -> Trace
    decreases rows.len(),
{
    let unversioned = Trace {
        rows: Seq::empty(),
        failure: Some(Failure::Unversioned { relation: rel.name }),
    };
    if rows.len() == 0 {
        Trace { rows: Seq::empty(), failure: None }
    } else if validity_of(rows[0].0) is None {
        unversioned
    } else {
        let n = run_len(rows, identity_of(rows[0].0));
        proof {
            lemma_run_len(rows, identity_of(rows[0].0));
        }
        if n < rows.len() && validity_of(rows[n as int].0) is None {
            unversioned
        } else {
            chain(
                Trace {
                    rows: seq![(rel, decided(resolution(rows.take(n as int)), dst))],
                    failure: None,
                },
                scan_rows(rel, rows.skip(n as int), dst),
            )
        }
    }
}

/// The least key of a relation.
pub open spec fn relation_lower(rel: RelView) -> Seq<u8> {
    be_bytes(rel.id as nat, 8)
}

/// The least key above a relation.
pub open spec fn relation_upper(rel: RelView) -> Seq<u8> {
    be_bytes((rel.id + 1) as nat, 8)
}

/// One relation ends before the next begins.
pub proof fn lemma_relations_apart(a: RelView, b: RelView)
    requires
        a.id < b.id,
    ensures
        lex_le(relation_upper(a), relation_lower(b)),
        lex_lt(relation_lower(a), relation_upper(a)),
{
    lemma_be_word(a.id as nat);
    lemma_be_word((a.id + 1) as nat);
    lemma_be_word(b.id as nat);
    lemma_be_order(relation_upper(a), relation_lower(b));
    lemma_be_order(relation_lower(a), relation_upper(a));
}

/// A relation's range is not empty.
pub proof fn lemma_relation_range(a: RelView)
    requires
        a.id < u64::MAX,
    ensures
        lex_lt(relation_lower(a), relation_upper(a)),
{
    lemma_be_word(a.id as nat);
    lemma_be_word((a.id + 1) as nat);
    lemma_be_order(relation_lower(a), relation_upper(a));
}

/// Where the scan of a relation starts: past every version of the key that the scan is to resume
/// after, or at the relation's first key.
pub open spec fn scan_start(rel: RelView, after: Option<Seq<u8>>) -> Seq<u8> {
    match after {
        Some(a) if lex_lt(relation_lower(rel), a) => versions_upper(a),
        _ => relation_lower(rel),
    }
}

/// The scan of one relation. Index relations are passed over, and so is a relation that an
/// earlier page finished. A relation without a validity must have no rows in the top layer.
pub open spec fn scan_relation(
    rel: RelView,
    src: Content,
    top: Content,
    dst: Content,
    after: Option<Seq<u8>>,
) -> Trace {
    let nothing = Trace { rows: Seq::empty(), failure: None };
    if rel.is_index {
        nothing
    } else if after matches Some(a) && !lex_lt(a, relation_upper(rel)) {
        nothing
    } else if !rel.stackable {
        if between(top, relation_lower(rel), Some(relation_upper(rel))).dom() == Set::<Seq<u8>>::empty() {
            nothing
        } else {
            Trace { rows: Seq::empty(), failure: Some(Failure::Plain { relation: rel.name }) }
        }
    } else {
        scan_rows(
            rel,
            ascending(between(src, scan_start(rel, after), Some(relation_upper(rel)))),
            dst,
        )
    }
}

/// The scan of a list of relations, one after another.
pub open spec fn scan_all(
    rels: Seq<RelView>,
    src: Content,
    top: Content,
    dst: Content,
    after: Option<Seq<u8>>,
) -> Trace
    decreases rels.len(),
{
    if rels.len() == 0 {
        Trace { rows: Seq::empty(), failure: None }
    } else {
        chain(
            scan_relation(rels[0], src, top, dst, after),
            scan_all(rels.drop_first(), src, top, dst, after),
        )
    }
}

/// A run followed by a row of another identity, or by nothing, is decided by itself.
proof fn lemma_scan_run(rel: RelView, run: Seq<Kv>, rest: Seq<Kv>, dst: Content)
    requires
        run.len() > 0,
        forall|i: int|
            0 <= i < run.len() ==> validity_of((#[trigger] run[i]).0) is Some && identity_of(
                run[i].0,
            ) == identity_of(run[0].0),
        rest.len() > 0 ==> validity_of(rest[0].0) is Some && identity_of(rest[0].0) != identity_of(
            run[0].0,
        ),
    ensures
        scan_rows(rel, run + rest, dst) == chain(
            Trace { rows: seq![(rel, decided(resolution(run), dst))], failure: None },
            scan_rows(rel, rest, dst),
        ),
{
    let all = run + rest;
    let n = run.len();
    assert forall|i: int| 0 <= i < n implies validity_of((#[trigger] all[i]).0) is Some
        && identity_of(all[i].0) == identity_of(all[0].0) by {
        assert(all[i] == run[i]);
    }
    if rest.len() > 0 {
        assert(all[n as int] == rest[0]);
    }
    lemma_run_is(all, identity_of(all[0].0), n);
    assert(all.take(n as int) =~= run);
    assert(all.skip(n as int) =~= rest);
}

/// A row without a validity ends the scan, and the run before it is not decided.
proof fn lemma_scan_unversioned(rel: RelView, run: Seq<Kv>, rest: Seq<Kv>, dst: Content)
    requires
        forall|i: int|
            0 <= i < run.len() ==> validity_of((#[trigger] run[i]).0) is Some && identity_of(
                run[i].0,
            ) == identity_of(run[0].0),
        rest.len() > 0,
        validity_of(rest[0].0) is None,
    ensures
        scan_rows(rel, run + rest, dst) == (Trace {
            rows: Seq::empty(),
            failure: Some(Failure::Unversioned { relation: rel.name }),
        }),
{
    let all = run + rest;
    let n = run.len();
    assert forall|i: int| 0 <= i < n implies validity_of((#[trigger] all[i]).0) is Some
        && identity_of(all[i].0) == identity_of(all[0].0) by {
        assert(all[i] == run[i]);
    }
    assert(all[n as int] == rest[0]);
    if n > 0 {
        lemma_run_is(all, identity_of(all[0].0), n);
    }
}

/// Why a scan cannot go on.
#[derive(Debug, PartialEq, Eq)]
pub enum ScanError {
    /// A relation has no validity column, and the source layer holds rows for it.
    Plain { relation: String },
    /// A relation being flattened holds a row without a validity.
    Unversioned { relation: String },
}

impl View for ScanError {
    type V = Failure;

    open spec fn view(&self) -> Failure {
        match self {
            ScanError::Plain { relation } => Failure::Plain { relation: relation@ },
            ScanError::Unversioned { relation } => Failure::Unversioned { relation: relation@ },
        }
    }
}

/// What one resolved source row means against the destination, borrowed from the scan.
///
/// Named for what the row *is* rather than for what a flatten does about it, because the scan
/// is not flatten's alone. Nothing here is owned: a visitor that only counts rows allocates
/// nothing.
pub enum RowEffect<'r> {
    /// The destination does not already agree: applying this row would change it.
    Effective {
        key: &'r [u8],
        val: &'r [u8],
        /// Whether the row asserts.
        asserts: bool,
    },
    /// The destination already holds this record, identically and live.
    Redundant { key: &'r [u8] },
    /// A retraction of a record the destination does not hold live.
    Inert { key: &'r [u8] },
    /// One key, two values.
    Divergent { key: &'r [u8], existing: &'r [u8], incoming: &'r [u8], kind: ConflictKind },
}

impl<'r> View for RowEffect<'r> {
    type V = Effect;

    open spec fn view(&self) -> Effect {
        match self {
            RowEffect::Effective { key, val, asserts } => Effect::Effective {
                key: key@,
                val: val@,
                asserts: *asserts,
            },
            RowEffect::Redundant { key } => Effect::Redundant { key: key@ },
            RowEffect::Inert { key } => Effect::Inert { key: key@ },
            RowEffect::Divergent { key, existing, incoming, kind } => Effect::Divergent {
                key: key@,
                existing: existing@,
                incoming: incoming@,
                kind: *kind,
            },
        }
    }
}

/// What a scan is run for: it sees every row in key order, and may stop the scan or fail.
pub trait Visitor {
    /// What the visitor has gathered.
    type State;

    /// An error of the visitor's own.
    type Error;

    /// What such an error says.
    type Fault;

    spec fn state(&self) -> Self::State;

    spec fn fault(error: Self::Error) -> Self::Fault;

    /// The visitor can take in the row: no counter of its would run over.
    spec fn ready(s: Self::State, rel: RelView, e: Effect) -> bool;

    /// What it has gathered once it has seen the row.
    spec fn visited(s: Self::State, rel: RelView, e: Effect) -> Self::State;

    /// It stops the scan at the row.
    spec fn stops(s: Self::State, rel: RelView, e: Effect) -> bool;

    /// It fails at the row, and how.
    spec fn refuses(s: Self::State, rel: RelView, e: Effect) -> Option<Self::Fault>;

    fn visit(&mut self, rel: &RelInfo, effect: RowEffect<'_>) -> (r: Result<
        ControlFlow<()>,
        Self::Error,
    >)
        requires
            Self::ready(old(self).state(), rel@, effect@),
        ensures
            final(self).state() == Self::visited(old(self).state(), rel@, effect@),
            match Self::refuses(old(self).state(), rel@, effect@) {
                Some(f) => r matches Err(x) && Self::fault(x) == f,
                None => r matches Ok(c) && (c is Break <==> Self::stops(
                    old(self).state(),
                    rel@,
                    effect@,
                )),
            },
    ;
}

/// Why a scan was given up.
#[derive(Debug, PartialEq, Eq)]
pub enum Halt<E> {
    /// The source view cannot be resolved.
    Scan(ScanError),
    /// The visitor failed.
    Visitor(E),
}

/// How a scan ended.
#[verifier::ext_equal]
pub enum Outcome<F> {
    /// It ran to the end.
    Done,
    /// The visitor stopped it at this key.
    Stopped { key: Seq<u8> },
    /// It could not go on.
    Failed { failure: Failure },
    /// The visitor failed.
    Refused { fault: F },
}

/// What a visitor has gathered, and how the scan ended, once it has been shown the rows in order
/// up to where it stops the scan or fails.
pub open spec fn feed<V: Visitor>(
    s: V::State,
    rows: Seq<(RelView, Effect)>,
    failure: Option<Failure>,
) -> (V::State, Outcome<V::Fault>)
    decreases rows.len(),
{
    if rows.len() == 0 {
        (
            s,
            match failure {
                Some(f) => Outcome::Failed { failure: f },
                None => Outcome::Done,
            },
        )
    } else {
        let (rel, e) = rows[0];
        let next = V::visited(s, rel, e);
        if let Some(fault) = V::refuses(s, rel, e) {
            (next, Outcome::Refused { fault })
        } else if V::stops(s, rel, e) {
            (next, Outcome::Stopped { key: e.key() })
        } else {
            feed::<V>(next, rows.drop_first(), failure)
        }
    }
}

/// The visitor can take in each row that it is shown.
pub open spec fn admissible<V: Visitor>(s: V::State, rows: Seq<(RelView, Effect)>) -> bool
    decreases rows.len(),
{
    if rows.len() == 0 {
        true
    } else {
        let (rel, e) = rows[0];
        &&& V::ready(s, rel, e)
        &&& V::refuses(s, rel, e) is Some || V::stops(s, rel, e) || admissible::<V>(
            V::visited(s, rel, e),
            rows.drop_first(),
        )
    }
}

/// Showing two stretches of rows is showing the first and, unless that ended the scan, the
/// second.
pub proof fn lemma_feed_append<V: Visitor>(
    s: V::State,
    a: Seq<(RelView, Effect)>,
    b: Seq<(RelView, Effect)>,
    failure: Option<Failure>,
)
    ensures
        feed::<V>(s, a + b, failure) == match feed::<V>(s, a, None) {
            (t, Outcome::Done) => feed::<V>(t, b, failure),
            other => other,
        },
        admissible::<V>(s, a + b) ==> admissible::<V>(s, a) && (feed::<V>(s, a, None).1 is Done
            ==> admissible::<V>(feed::<V>(s, a, None).0, b)),
    decreases a.len(),
{
    if a.len() == 0 {
        assert(a + b =~= b);
    } else {
        let (rel, e) = a[0];
        assert((a + b)[0] == a[0]);
        assert((a + b).drop_first() =~= a.drop_first() + b);
        lemma_feed_append::<V>(V::visited(s, rel, e), a.drop_first(), b, failure);
    }
}

/// The constant-size state one identity accumulates while its versions stream past: the newest
/// version, the newest assertion's value, and one that disagrees with it.
pub struct Resolved {
    pub identity: Vec<u8>,
    /// The newest visible version: what the view resolves the identity to.
    pub key: Vec<u8>,
    pub val: Vec<u8>,
    pub asserts: bool,
    /// The value of the newest assertion.
    pub asserted: Option<Vec<u8>>,
    /// The value of an assertion that disagrees.
    pub divergent: Option<Vec<u8>>,
}

impl Resolved {
    /// What has streamed past so far comes to this.
    pub open spec fn resolution(&self) -> Resolution {
        Resolution {
            key: self.key@,
            val: self.val@,
            asserts: self.asserts,
            asserted: opt_view(self.asserted),
            divergent: opt_view(self.divergent),
        }
    }

    /// The newest version of an identity.
    fn start(identity: Vec<u8>, key: Vec<u8>, val: Vec<u8>, is_assert: bool) -> (r: Resolved)
        requires
            validity_of(key@) is Some,
            is_assert == asserts(key@),
        ensures
            r.identity@ == identity@,
            r.resolution() == resolution(seq![(key@, val@)]),
    {
        let asserted = if is_assert {
            Some(to_vec(val.as_slice()))
        } else {
            None
        };
        let r = Resolved {
            identity,
            key,
            val,
            asserts: is_assert,
            asserted,
            divergent: None,
        };
        proof {
            let rows = seq![(key@, val@)];
            reveal_with_fuel(first_assertion, 2);
            reveal_with_fuel(first_dissent, 2);
            assert(rows.drop_last() =~= Seq::<Kv>::empty());
            assert(r.resolution() =~= resolution(rows));
        }
        r
    }

    /// Takes in an older version of the identity. It does not change what the view resolves to,
    /// but if it asserts a different value than the newest assertion then two layers of the
    /// source disagree, and stamp order is not entitled to pick between them.
    fn absorb(
        &mut self,
        val: Vec<u8>,
        is_assert: bool,
        Ghost(run): Ghost<Seq<Kv>>,
        Ghost(key): Ghost<Seq<u8>>,
    )
        requires
            run.len() > 0,
            old(self).resolution() == resolution(run),
            is_assert == asserts(key),
        ensures
            final(self).identity == old(self).identity,
            final(self).resolution() == resolution(run.push((key, val@))),
    {
        let ghost more = run.push((key, val@));
        proof {
            assert(more.drop_last() =~= run);
            assert(more[0] == run[0]);
            if first_assertion(run) is None {
                lemma_no_dissent(run, val@);
            }
        }
        if is_assert {
            match &self.asserted {
                None => {
                    self.asserted = Some(val);
                },
                Some(newest) => {
                    if !bytes_eq(newest.as_slice(), val.as_slice()) && self.divergent.is_none() {
                        self.divergent = Some(val);
                    }
                },
            }
        }
        assert(self.resolution() =~= resolution(more));
    }
}

/// Rows of which none asserts hold no dissent.
proof fn lemma_no_dissent(rows: Seq<Kv>, val: Seq<u8>)
    requires
        first_assertion(rows) is None,
    ensures
        first_dissent(rows, val) is None,
    decreases rows.len(),
{
    if rows.len() > 0 {
        lemma_no_dissent(rows.drop_last(), val);
    }
}

/// Decides one resolved identity against the destination and hands it to the visitor.
pub fn emit<V: Visitor>(
    dst_layers: &Vec<BoundLayer<'_>>,
    rel: &RelInfo,
    done: Resolved,
    visit: &mut V,
) -> (r: Result<ControlFlow<Vec<u8>>, V::Error>)
    requires
        bound_wf(dst_layers@),
        validity_of(done.key@) is Some,
        V::ready(
            old(visit).state(),
            rel@,
            decided(done.resolution(), bound_content(dst_layers@)),
        ),
    ensures
        final(visit).state() == V::visited(
            old(visit).state(),
            rel@,
            decided(done.resolution(), bound_content(dst_layers@)),
        ),
        ({
            let e = decided(done.resolution(), bound_content(dst_layers@));
            match V::refuses(old(visit).state(), rel@, e) {
                Some(f) => r matches Err(x) && V::fault(x) == f,
                None => match r {
                    Ok(ControlFlow::Break(at)) => V::stops(old(visit).state(), rel@, e) && at@
                        == done.key@,
                    Ok(ControlFlow::Continue(_)) => !V::stops(old(visit).state(), rel@, e),
                    Err(_) => false,
                },
            }
        }),
{
    let state = key_state(dst_layers, done.key.as_slice());
    let key = done.key.as_slice();
    let effect = match (&done.divergent, &done.asserted) {
        (Some(other), Some(newest)) => RowEffect::Divergent {
            key,
            existing: other.as_slice(),
            incoming: newest.as_slice(),
            kind: ConflictKind::Source,
        },
        _ => if done.asserts {
            match &state.asserted {
                Some(existing) => {
                    if !bytes_eq(existing.as_slice(), done.val.as_slice()) {
                        RowEffect::Divergent {
                            key,
                            existing: existing.as_slice(),
                            incoming: done.val.as_slice(),
                            kind: ConflictKind::Destination,
                        }
                    } else if state.live {
                        // Already there, identical: the same record picked into a lineage that
                        // already carries it.
                        RowEffect::Redundant { key }
                    } else {
                        RowEffect::Effective { key, val: done.val.as_slice(), asserts: true }
                    }
                },
                None => RowEffect::Effective { key, val: done.val.as_slice(), asserts: true },
            }
        } else if state.live {
            RowEffect::Effective { key, val: done.val.as_slice(), asserts: false }
        } else {
            // A tombstone for a record this lineage does not hold. Dropping it is what keeps
            // every flatten simpler than the union of its inputs.
            RowEffect::Inert { key }
        },
    };
    assert(effect@ =~= decided(done.resolution(), bound_content(dst_layers@)));
    match visit.visit(rel, effect) {
        Err(x) => Err(x),
        Ok(ControlFlow::Break(_)) => Ok(ControlFlow::Break(done.key)),
        Ok(ControlFlow::Continue(_)) => Ok(ControlFlow::Continue(())),
    }
}

/// Whether one layer holds any row of a relation, window included.
fn holds_rows(layer: &BoundLayer<'_>, rel: &RelInfo) -> (r: bool)
    requires
        rows_sorted(layer.rows@),
        rel.id.0 < u64::MAX,
    ensures
        r <==> between(layer.content(), relation_lower(rel@), Some(relation_upper(rel@))).dom()
            != Set::<Seq<u8>>::empty(),
{
    let lower = rel.id.raw_encode();
    let upper = rel.id.next().raw_encode();
    let ghost found = between(layer.content(), lower@, Some(upper@));
    assert(found == between(layer.content(), relation_lower(rel@), Some(relation_upper(rel@))));
    let mut it = RawIter::new(layer.rows.as_slice());
    it.seek(lower.as_slice());
    loop
        invariant
            it.inv(),
            it.rows@ == layer.rows@,
            found == between(layer.content(), lower@, Some(upper@)),
            found == between(layer.content(), relation_lower(rel@), Some(relation_upper(rel@))),
            forall|j: int|
                0 <= j < it.pos ==> !found.contains_key((#[trigger] layer.rows@[j]).key@),
            forall|j: int|
                it.pos <= j < layer.rows@.len() ==> !lex_lt(
                    (#[trigger] layer.rows@[j]).key@,
                    lower@,
                ),
        ensures
            forall|j: int|
                0 <= j < layer.rows@.len() ==> !found.contains_key(
                    (#[trigger] layer.rows@[j]).key@,
                ),
        decreases layer.rows@.len() - it.pos,
    {
        let key = match it.key() {
            None => {
                break;
            },
            Some(k) => k,
        };
        assert(row_at(layer.rows@, key@, it.pos as int));
        if !bytes_lt(key, upper.as_slice()) {
            proof {
                assert forall|j: int| 0 <= j < layer.rows@.len() implies !found.contains_key(
                    (#[trigger] layer.rows@[j]).key@,
                ) by {
                    if j > it.pos && lex_lt(layer.rows@[j].key@, upper@) {
                        lemma_lt_transitive(key@, layer.rows@[j].key@, upper@);
                    }
                }
            }
            break;
        }
        if layer.window.admits(key) {
            assert(found.dom().contains(key@));
            return true;
        }
        it.next();
    }
    proof {
        assert forall|k: Seq<u8>| !found.dom().contains(k) by {
            if found.dom().contains(k) {
                let j = choose|j: int| row_at(layer.rows@, k, j);
                assert(!found.contains_key(layer.rows@[j].key@));
            }
        }
        assert(found.dom() =~= Set::<Seq<u8>>::empty());
    }
    false
}

/// How a result says that the scan ended.
pub open spec fn ending<V: Visitor>(r: Result<Option<Vec<u8>>, Halt<V::Error>>) -> Outcome<
    V::Fault,
> {
    match r {
        Ok(None) => Outcome::Done,
        Ok(Some(key)) => Outcome::Stopped { key: key@ },
        Err(Halt::Scan(e)) => Outcome::Failed { failure: e@ },
        Err(Halt::Visitor(x)) => Outcome::Refused { fault: V::fault(x) },
    }
}

/// Resolves one relation of the source view and decides each row against the destination.
fn scan_one<V: Visitor>(
    src_layers: &Vec<BoundLayer<'_>>,
    dst_layers: &Vec<BoundLayer<'_>>,
    rel: &RelInfo,
    start: Vec<u8>,
    upper: Vec<u8>,
    visit: &mut V,
) -> (r: Result<Option<Vec<u8>>, Halt<V::Error>>)
    requires
        bound_wf(src_layers@),
        bound_wf(dst_layers@),
        admissible::<V>(
            old(visit).state(),
            scan_rows(
                rel@,
                ascending(between(bound_content(src_layers@), start@, Some(upper@))),
                bound_content(dst_layers@),
            ).rows,
        ),
    ensures
        ({
            let t = scan_rows(
                rel@,
                ascending(between(bound_content(src_layers@), start@, Some(upper@))),
                bound_content(dst_layers@),
            );
            feed::<V>(old(visit).state(), t.rows, t.failure) == (
                final(visit).state(),
                ending::<V>(r),
            )
        }),
{
    let ghost m = between(bound_content(src_layers@), start@, Some(upper@));
    let ghost dst = bound_content(dst_layers@);
    let ghost whole = scan_rows(rel@, ascending(m), dst);
    let ghost end = feed::<V>(visit.state(), whole.rows, whole.failure);
    proof {
        lemma_bound_finite(src_layers@);
        lemma_between_finite(bound_content(src_layers@), start@, Some(upper@));
    }
    let mut merge = merge_over(src_layers, Some(upper));
    merge.seek(start.as_slice());
    let mut cur: Option<Resolved> = None;
    let ghost mut run: Seq<Kv> = Seq::empty();
    assert(run + ascending(m) =~= ascending(m));
    loop
        invariant
            merge.inv(),
            merge.pending().dom().finite(),
            bound_wf(dst_layers@),
            dst == bound_content(dst_layers@),
            cur is Some <==> run.len() > 0,
            forall|i: int|
                0 <= i < run.len() ==> validity_of((#[trigger] run[i]).0) is Some && identity_of(
                    run[i].0,
                ) == identity_of(run[0].0),
            cur matches Some(c) ==> c.identity@ == identity_of(run[0].0) && c.resolution()
                == resolution(run),
            ({
                let t = scan_rows(rel@, run + ascending(merge.pending()), dst);
                &&& end == feed::<V>(visit.state(), t.rows, t.failure)
                &&& admissible::<V>(visit.state(), t.rows)
            }),
            end == feed::<V>(old(visit).state(), whole.rows, whole.failure),
            whole == scan_rows(rel@, ascending(m), dst),
            m == between(bound_content(src_layers@), start@, Some(upper@)),
        ensures
            merge.pending() == Map::<Seq<u8>, Seq<u8>>::empty(),
        decreases merge.pending().dom().len(),
    {
        let ghost pend = merge.pending();
        let ghost t = scan_rows(rel@, run + ascending(pend), dst);
        let (key, val) = match merge.next_kv() {
            None => {
                break;
            },
            Some(row) => row,
        };
        let ghost row = (key@, val@);
        let ghost rest = ascending(merge.pending());
        proof {
            assert(pend.dom().contains(key@));
            lemma_ascending_step(pend, key@);
            assert(ascending(pend) == seq![row] + rest);
            assert((seq![row] + rest)[0] == row);
        }
        let vld = match tail_validity(key.as_slice()) {
            None => {
                proof {
                    lemma_scan_unversioned(rel@, run, seq![row] + rest, dst);
                }
                return Err(Halt::Scan(ScanError::Unversioned { relation: rel.name.clone() }));
            },
            Some(v) => v,
        };
        let (identity, _, _) = validity_version_range(key.as_slice());
        let same: bool = match &cur {
            Some(c) => bytes_eq(c.identity.as_slice(), identity),
            None => false,
        };
        if same {
            if let Some(c) = &mut cur {
                c.absorb(val, vld.is_assert, Ghost(run), Ghost(key@));
            }
            proof {
                let more = run.push(row);
                assert(more + rest =~= run + (seq![row] + rest));
                assert forall|i: int| 0 <= i < more.len() implies validity_of(
                    (#[trigger] more[i]).0,
                ) is Some && identity_of(more[i].0) == identity_of(more[0].0) by {
                    if i < run.len() {
                        assert(more[i] == run[i]);
                    }
                }
                run = more;
            }
        } else {
            let done = cur.take();
            if let Some(d) = done {
                proof {
                    lemma_scan_run(rel@, run, seq![row] + rest, dst);
                    let one = seq![(rel@, decided(resolution(run), dst))];
                    let later = scan_rows(rel@, seq![row] + rest, dst);
                    assert(t.rows == one + later.rows);
                    assert(t.rows[0] == one[0]);
                    assert(t.rows.drop_first() =~= later.rows);
                }
                match emit(dst_layers, rel, d, visit) {
                    Err(x) => {
                        return Err(Halt::Visitor(x));
                    },
                    Ok(ControlFlow::Break(at)) => {
                        return Ok(Some(at));
                    },
                    Ok(ControlFlow::Continue(_)) => {},
                }
            } else {
                assert(run + (seq![row] + rest) =~= seq![row] + rest);
            }
            proof {
                run = seq![row];
                assert(run + rest == seq![row] + rest);
            }
            let owned = to_vec(identity);
            cur = Some(Resolved::start(owned, key, val, vld.is_assert));
        }
    }
    proof {
        lemma_ascending_empty(merge.pending());
        assert(run + ascending(merge.pending()) =~= run);
    }
    if let Some(d) = cur {
        proof {
            lemma_scan_run(rel@, run, Seq::empty(), dst);
            assert(run + Seq::<Kv>::empty() =~= run);
            let one = seq![(rel@, decided(resolution(run), dst))];
            let last = scan_rows(rel@, run, dst);
            assert(last.rows =~= one);
            assert(last.rows.drop_first() =~= Seq::<(RelView, Effect)>::empty());
            reveal_with_fuel(feed, 2);
        }
        match emit(dst_layers, rel, d, visit) {
            Err(x) => {
                return Err(Halt::Visitor(x));
            },
            Ok(ControlFlow::Break(at)) => {
                return Ok(Some(at));
            },
            Ok(ControlFlow::Continue(_)) => {},
        }
    }
    Ok(None)
}

/// Scans one relation: passes it over if it is an index or an earlier page finished it, and
/// otherwise decides its rows from where the scan resumes.
fn visit_relation<V: Visitor>(
    src_layers: &Vec<BoundLayer<'_>>,
    dst_layers: &Vec<BoundLayer<'_>>,
    rel: &RelInfo,
    after: Option<&[u8]>,
    visit: &mut V,
) -> (r: Result<Option<Vec<u8>>, Halt<V::Error>>)
    requires
        bound_wf(src_layers@),
        bound_wf(dst_layers@),
        src_layers@.len() > 0,
        rel.id.0 < u64::MAX,
        admissible::<V>(
            old(visit).state(),
            scan_relation(
                rel@,
                bound_content(src_layers@),
                src_layers@[0].content(),
                bound_content(dst_layers@),
                slice_view(after),
            ).rows,
        ),
    ensures
        ({
            let t = scan_relation(
                rel@,
                bound_content(src_layers@),
                src_layers@[0].content(),
                bound_content(dst_layers@),
                slice_view(after),
            );
            feed::<V>(old(visit).state(), t.rows, t.failure) == (
                final(visit).state(),
                ending::<V>(r),
            )
        }),
{
    let ghost aft = slice_view(after);
    if rel.is_index {
        // Copying index rows would splice two independently evolved graphs into something
        // structurally invalid. The destination's indexes are dropped and rebuilt instead.
        return Ok(None);
    }
    let lower = rel.id.raw_encode();
    let upper = rel.id.next().raw_encode();
    assert(lower@ == relation_lower(rel@));
    assert(upper@ == relation_upper(rel@));
    if let Some(a) = after {
        if !bytes_lt(a, upper.as_slice()) {
            // A relation an earlier page already finished.
            return Ok(None);
        }
    }
    if !rel.stackable {
        // A relation with no validity has no retraction mechanism and no stamp, so there is
        // no net effect to compute. Leaving its rows behind silently would be the worst
        // outcome, so check that there are none rather than assume it.
        assert(rows_sorted(src_layers@[0].rows@));
        if holds_rows(&src_layers[0], rel) {
            return Err(Halt::Scan(ScanError::Plain { relation: rel.name.clone() }));
        }
        return Ok(None);
    }
    // Resume past every version of the last key reported, not merely past that key: older
    // versions of one identity sort *after* the newest, so seeking to the key itself would
    // resolve the identity again, to a stale version.
    let start = match after {
        Some(a) => if bytes_lt(lower.as_slice(), a) {
            let (_, _, past) = validity_version_range(a);
            past
        } else {
            lower
        },
        None => lower,
    };
    assert(start@ == scan_start(rel@, aft));
    scan_one(src_layers, dst_layers, rel, start, upper, visit)
}

/// Resolves the source view and decides each row against the destination, one row at a time.
///
/// This is the whole of a flatten except the writing. The visitor sees every row in key order
/// and may stop early; the returned key is where a later call should resume from, and is `None`
/// when the scan ran to the end. Where the visitor fails, its error is handed on.
///
/// Resolution happens *within the view first*: a record created and retracted inside the window
/// contributes its tombstone and only that, which is why the merge is drained per identity
/// rather than per row.
pub fn scan<V: Visitor>(
    src_layers: &Vec<BoundLayer<'_>>,
    dst_layers: &Vec<BoundLayer<'_>>,
    relations: &BTreeMap<u64, RelInfo>,
    after: Option<&[u8]>,
    visit: &mut V,
) -> (r: Result<Option<Vec<u8>>, Halt<V::Error>>)
    requires
        bound_wf(src_layers@),
        bound_wf(dst_layers@),
        src_layers@.len() > 0,
        forall|id: u64| #[trigger]
            relations@.contains_key(id) ==> relations@[id].id.0 < u64::MAX,
        admissible::<V>(
            old(visit).state(),
            scan_all(
                rel_views(relations@),
                bound_content(src_layers@),
                src_layers@[0].content(),
                bound_content(dst_layers@),
                slice_view(after),
            ).rows,
        ),
    ensures
        ({
            let t = scan_all(
                rel_views(relations@),
                bound_content(src_layers@),
                src_layers@[0].content(),
                bound_content(dst_layers@),
                slice_view(after),
            );
            feed::<V>(old(visit).state(), t.rows, t.failure) == (
                final(visit).state(),
                ending::<V>(r),
            )
        }),
{
    let ghost src = bound_content(src_layers@);
    let ghost top = src_layers@[0].content();
    let ghost dst = bound_content(dst_layers@);
    let ghost aft = slice_view(after);
    let ghost all = rel_views(relations@);
    let ghost whole = scan_all(all, src, top, dst, aft);
    let ghost end = feed::<V>(visit.state(), whole.rows, whole.failure);
    let values = relations.values();
    let ghost listed = values.remaining();
    proof {
        let ids = choose|ids: Seq<u64>|
            {
                &&& increasing_seq(ids)
                &&& ids.to_set() == relations@.dom()
                &&& ids.no_duplicates()
                &&& listed == ids.map(|i: int, k: u64| &relations@[k])
            };
        lemma_increasing_ascends(ids);
        assert(lists_ids(relations@, ids));
        lemma_ids_are(relations@, ids);
        assert forall|j: int| 0 <= j < listed.len() implies (#[trigger] listed[j])@ == all[j]
            && listed[j].id.0 < u64::MAX by {
            assert(ids.to_set().contains(ids[j]));
            assert(relations@.contains_key(ids[j]));
        }
    }
    assert(all.skip(0) =~= all);
    for rel in it: values
        invariant
            it.seq() == listed,
            listed.len() == all.len(),
            forall|j: int|
                0 <= j < listed.len() ==> (#[trigger] listed[j])@ == all[j] && listed[j].id.0
                    < u64::MAX,
            bound_wf(src_layers@),
            bound_wf(dst_layers@),
            src_layers@.len() > 0,
            src == bound_content(src_layers@),
            top == src_layers@[0].content(),
            dst == bound_content(dst_layers@),
            aft == slice_view(after),
            all == rel_views(relations@),
            whole == scan_all(all, src, top, dst, aft),
            end == feed::<V>(old(visit).state(), whole.rows, whole.failure),
            ({
                let t = scan_all(all.skip(it.index() as int), src, top, dst, aft);
                &&& end == feed::<V>(visit.state(), t.rows, t.failure)
                &&& admissible::<V>(visit.state(), t.rows)
            }),
    {
        let ghost i = it.index() as int;
        let ghost here = scan_relation(rel@, src, top, dst, aft);
        let ghost later = scan_all(all.skip(i + 1), src, top, dst, aft);
        proof {
            assert(*rel == *listed[i]);
            assert(all.skip(i)[0] == rel@);
            assert(all.skip(i).drop_first() =~= all.skip(i + 1));
            lemma_feed_append::<V>(visit.state(), here.rows, later.rows, later.failure);
        }
        let ghost before = visit.state();
        let end_here = visit_relation(src_layers, dst_layers, rel, after, visit);
        proof {
            lemma_feed_failure::<V>(before, here.rows, here.failure);
        }
        match end_here {
            Err(e) => {
                return Err(e);
            },
            Ok(Some(at)) => {
                return Ok(Some(at));
            },
            Ok(None) => {},
        }
    }
    Ok(None)
}

/// A scan that fails ends in its failure unless the visitor stops it first.
proof fn lemma_feed_failure<V: Visitor>(
    s: V::State,
    rows: Seq<(RelView, Effect)>,
    failure: Option<Failure>,
)
    ensures
        match failure {
            None => true,
            Some(f) => feed::<V>(s, rows, failure) == match feed::<V>(s, rows, None) {
                (t, Outcome::Done) => (t, Outcome::Failed { failure: f }),
                other => other,
            },
        },
        feed::<V>(s, rows, None).1 !is Failed,
    decreases rows.len(),
{
    if rows.len() > 0 {
        let (rel, e) = rows[0];
        lemma_feed_failure::<V>(V::visited(s, rel, e), rows.drop_first(), failure);
    }
}

/// The view of an optional slice.
pub open spec fn slice_view(s: Option<&[u8]>) -> Option<Seq<u8>> {
    match s {
        Some(b) => Some(b@),
        None => None,
    }
}

} // verus!
