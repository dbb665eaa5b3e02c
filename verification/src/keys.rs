//! The keys that a store holds, and what is regular about them.

use vstd::prelude::*;

use crate::aftermath::lemma_written_key;
use crate::catalog::RelView;
use crate::codec::{
    identity_of, lemma_key_is_version, lemma_version_has_prefix, lemma_version_key, tail_validity,
    validity_of, validity_version_range, version_key, versions_lower, versions_upper, Stamp,
    VALIDITY_TAG, Validity,
};
use crate::content::{lemma_overlay_keys, overlay};
use crate::flatten::{writes_of, written_key};
use crate::iter::RawIter;
use crate::layer::{row_at, rows_sorted, Row};
use crate::net::regular;
use crate::order::{bytes_eq, bytes_lt, has_prefix, lemma_lt_transitive, lemma_prefix_range, lex_lt};
use crate::scan::{Effect, Kv};
use crate::stack::{is_layer, layer_index, Db, LayerRef};

verus! {

impl Db {
    /// Some layer holds a row under the key.
    pub open spec fn stores(&self, key: Seq<u8>) -> bool {
        exists|i: int|
            0 <= i < self.layers@.len() && (#[trigger] self.layers@[i]).content().contains_key(key)
    }

    /// The keys that the layers hold between them.
    pub open spec fn keys(&self) -> Set<Seq<u8>> {
        Set::new(|k: Seq<u8>| self.stores(k))
    }

    /// No stored key looks like a version of an identity that it is not a version of.
    pub open spec fn regular(&self) -> bool {
        regular(self.keys())
    }

    /// No key that the stack sees looks like a version of an identity that it is not a version of.
    pub open spec fn reads_regular(&self, stack: Seq<LayerRef>) -> bool {
        regular(self.view_of(stack).dom())
    }
}

/// What a stack sees is stored.
pub proof fn lemma_view_is_stored(db: Db, stack: Seq<LayerRef>)
    requires
        db.fault(stack) is None,
    ensures
        db.view_of(stack).dom().subset_of(db.keys()),
{
    let maps = Seq::new(stack.len(), |i: int| db.layer_view(stack, i));
    lemma_overlay_keys(maps);
    assert forall|k: Seq<u8>| db.view_of(stack).dom().contains(k) implies db.keys().contains(k) by {
        assert(overlay(maps).contains_key(k));
        let i = choose|i: int| 0 <= i < maps.len() && (#[trigger] maps[i]).contains_key(k);
        db.lemma_known(stack, i);
        let at = layer_index(db.layers@, stack[i].name@);
        assert(is_layer(db.layers@, stack[i].name@, at));
        assert(db.layers@[at].content().contains_key(k));
    }
}

/// Fewer keys are no less regular.
pub proof fn lemma_regular_subset(a: Set<Seq<u8>>, b: Set<Seq<u8>>)
    requires
        a.subset_of(b),
        regular(b),
    ensures
        regular(a),
{
    assert forall|j: Seq<u8>, k: Seq<u8>| #[trigger]
        a.contains(j) && #[trigger] a.contains(k) && validity_of(j) is Some && has_prefix(
            k,
            identity_of(j).push(VALIDITY_TAG),
        ) implies validity_of(k) is Some && identity_of(k) == identity_of(j) by {
        assert(b.contains(j) && b.contains(k));
    }
}

/// Another version of a stored identity is as regular as the stored one.
pub proof fn lemma_regular_insert(keys: Set<Seq<u8>>, k: Seq<u8>, v: Validity)
    requires
        regular(keys),
        keys.contains(k),
        validity_of(k) is Some,
    ensures
        regular(keys.insert(version_key(identity_of(k), v))),
{
    let id = identity_of(k);
    let other = version_key(id, v);
    let more = keys.insert(other);
    lemma_key_is_version(k);
    lemma_version_key(id, v);
    lemma_version_has_prefix(id, v);
    lemma_version_has_prefix(id, validity_of(k).unwrap());
    let n = id.len() as int;
    assert forall|i: int| 0 <= i <= n implies #[trigger] other[i] == k[i] by {
        assert(other.take(n + 1)[i] == k.take(n + 1)[i]);
    }
    assert forall|a: Seq<u8>, b: Seq<u8>| #[trigger]
        more.contains(a) && #[trigger] more.contains(b) && validity_of(a) is Some && has_prefix(
            b,
            identity_of(a).push(VALIDITY_TAG),
        ) implies validity_of(b) is Some && identity_of(b) == identity_of(a) by {
        // Where the new version stands, the stored one does as well.
        let sa = if a == other {
            k
        } else {
            a
        };
        assert(keys.contains(sa));
        if b == other {
            let p = identity_of(a).push(VALIDITY_TAG);
            if p.len() <= n + 1 {
                assert(k.take(p.len() as int) =~= other.take(p.len() as int));
                assert(has_prefix(k, p));
                assert(keys.contains(k));
            } else {
                // The other identity would itself look like a version of this one.
                lemma_key_is_version(a);
                assert(a.take(n + 1) =~= id.push(VALIDITY_TAG)) by {
                    assert forall|i: int| 0 <= i < n + 1 implies a.take(n + 1)[i] == id.push(
                        VALIDITY_TAG,
                    )[i] by {
                        assert(other.take(p.len() as int)[i] == p[i]);
                        assert(p[i] == identity_of(a)[i]);
                        assert(other.take(n + 1)[i] == id.push(VALIDITY_TAG)[i]);
                    }
                }
                assert(has_prefix(a, id.push(VALIDITY_TAG)));
            }
        } else {
            assert(keys.contains(b));
        }
    }
}

/// The keys that are written.
pub open spec fn write_keys(writes: Seq<Kv>) -> Set<Seq<u8>> {
    Set::new(|k: Seq<u8>| exists|i: int| 0 <= i < writes.len() && (#[trigger] writes[i]).0 == k)
}

/// Writing rows under keys that are versions of stored identities keeps the keys regular.
pub proof fn lemma_regular_writes(
    keys: Set<Seq<u8>>,
    rows: Seq<(RelView, Effect)>,
    restamp: bool,
    stamp: Stamp,
)
    requires
        regular(keys),
        forall|i: int|
            0 <= i < rows.len() ==> validity_of((#[trigger] rows[i]).1.key()) is Some && keys.contains(
                rows[i].1.key(),
            ),
    ensures
        regular(keys.union(write_keys(writes_of(rows, restamp, stamp)))),
    decreases rows.len(),
{
    let writes = writes_of(rows, restamp, stamp);
    if rows.len() == 0 {
        assert(keys.union(write_keys(writes)) =~= keys);
    } else {
        let front = rows.drop_last();
        let before = writes_of(front, restamp, stamp);
        let last = rows[rows.len() - 1];
        assert(forall|i: int| 0 <= i < front.len() ==> #[trigger] front[i] == rows[i]);
        lemma_regular_writes(keys, front, restamp, stamp);
        if let Effect::Effective { key, val, .. } = last.1 {
            let k = written_key(key, restamp, stamp);
            let all = keys.union(write_keys(before));
            lemma_written_key(key, restamp, stamp);
            lemma_regular_insert(all, key, validity_of(k).unwrap());
            assert(writes == before.push((k, val)));
            assert(keys.union(write_keys(writes)) =~= all.insert(k)) by {
                assert forall|x: Seq<u8>| keys.union(write_keys(writes)).contains(x) implies all.insert(
                    k,
                ).contains(x) by {
                    if !keys.contains(x) {
                        let i = choose|i: int| 0 <= i < writes.len() && (#[trigger] writes[i]).0 == x;
                        if i < before.len() {
                            assert(before[i].0 == x);
                        }
                    }
                }
                assert forall|x: Seq<u8>| all.insert(k).contains(x) implies keys.union(
                    write_keys(writes),
                ).contains(x) by {
                    if x == k {
                        assert(writes[before.len() as int].0 == x);
                    } else if !keys.contains(x) {
                        let i = choose|i: int| 0 <= i < before.len() && (#[trigger] before[i]).0 == x;
                        assert(writes[i].0 == x);
                    }
                }
            }
        }
    }
}

/// `k` is a version of the identity of `key`, or does not look like one.
pub open spec fn told_apart(key: Seq<u8>, k: Seq<u8>) -> bool {
    has_prefix(k, identity_of(key).push(VALIDITY_TAG)) ==> validity_of(k) is Some && identity_of(k)
        == identity_of(key)
}

/// Whether every row that looks like a version of the identity of `key` is one.
fn all_told_apart(rows: &Vec<Row>, key: &[u8]) -> (r: bool)
    requires
        rows_sorted(rows@),
        validity_of(key@) is Some,
    ensures
        r == (forall|i: int| 0 <= i < rows@.len() ==> told_apart(key@, (#[trigger] rows@[i]).key@)),
{
    let (identity, lower, upper) = validity_version_range(key);
    let ghost id = identity_of(key@);
    let mut it = RawIter::new(rows.as_slice());
    it.seek(lower.as_slice());
    proof {
        assert forall|i: int| 0 <= i < it.pos implies told_apart(
            key@,
            (#[trigger] rows@[i]).key@,
        ) by {
            lemma_prefix_range(id, VALIDITY_TAG, rows@[i].key@);
        }
    }
    loop
        invariant
            it.inv(),
            it.rows@ == rows@,
            validity_of(key@) is Some,
            id == identity_of(key@),
            identity@ == id,
            lower@ == versions_lower(key@),
            upper@ == versions_upper(key@),
            forall|i: int|
                it.pos <= i < rows@.len() ==> !lex_lt((#[trigger] rows@[i]).key@, lower@),
            forall|i: int| 0 <= i < it.pos ==> told_apart(key@, (#[trigger] rows@[i]).key@),
        decreases rows@.len() - it.pos,
    {
        let k = match it.key() {
            None => {
                return true;
            },
            Some(k) => k,
        };
        if !bytes_lt(k, upper.as_slice()) {
            proof {
                assert forall|i: int| 0 <= i < rows@.len() implies told_apart(
                    key@,
                    (#[trigger] rows@[i]).key@,
                ) by {
                    if i >= it.pos {
                        lemma_prefix_range(id, VALIDITY_TAG, rows@[i].key@);
                        if i > it.pos && lex_lt(rows@[i].key@, upper@) {
                            lemma_lt_transitive(k@, rows@[i].key@, upper@);
                        }
                    }
                }
            }
            return true;
        }
        let (other, _, _) = validity_version_range(k);
        if tail_validity(k).is_none() || !bytes_eq(other, identity) {
            proof {
                lemma_prefix_range(id, VALIDITY_TAG, k@);
                assert(!told_apart(key@, rows@[it.pos as int].key@));
            }
            return false;
        }
        it.next();
    }
}

impl Db {
    /// Whether no stored key looks like a version of an identity that it is not a version of.
    pub fn is_regular(&self) -> (r: bool)
        requires
            self.wf(),
        ensures
            r == self.regular(),
    {
        let mut i: usize = 0;
        while i < self.layers.len()
            invariant
                i <= self.layers@.len(),
                self.wf(),
                forall|a: int, b: int, c: int, d: int|
                    0 <= a < i && 0 <= b < self.layers@.len() ==> #[trigger] self.apart(a, c, b, d),
            decreases self.layers@.len() - i,
        {
            let mut j: usize = 0;
            while j < self.layers[i as usize].rows.len()
                invariant
                    i < self.layers@.len(),
                    j <= self.layers@[i as int].rows@.len(),
                    self.wf(),
                    forall|a: int, b: int, c: int, d: int|
                        0 <= a < i && 0 <= b < self.layers@.len() ==> #[trigger] self.apart(
                            a,
                            c,
                            b,
                            d,
                        ),
                    forall|b: int, c: int, d: int|
                        c < j && 0 <= b < self.layers@.len() ==> #[trigger] self.apart(
                            i as int,
                            c,
                            b,
                            d,
                        ),
                decreases self.layers@[i as int].rows@.len() - j,
            {
                let key = self.layers[i].rows[j].key.as_slice();
                if tail_validity(key).is_some() {
                    let mut l: usize = 0;
                    while l < self.layers.len()
                        invariant
                            i < self.layers@.len(),
                            j < self.layers@[i as int].rows@.len(),
                            l <= self.layers@.len(),
                            self.wf(),
                            key@ == self.layers@[i as int].rows@[j as int].key@,
                            validity_of(key@) is Some,
                            forall|b: int, d: int|
                                0 <= b < l ==> #[trigger] self.apart(i as int, j as int, b, d),
                        decreases self.layers@.len() - l,
                    {
                        assert(self.layers@[l as int].wf());
                        if !all_told_apart(&self.layers[l].rows, key) {
                            proof {
                                let rows = self.layers@[l as int].rows@;
                                let d = choose|d: int|
                                    0 <= d < rows.len() && !told_apart(
                                        key@,
                                        (#[trigger] rows[d]).key@,
                                    );
                                self.lemma_stored(i as int, j as int);
                                self.lemma_stored(l as int, d);
                                assert(self.keys().contains(key@));
                                assert(self.keys().contains(rows[d].key@));
                            }
                            return false;
                        }
                        l += 1;
                    }
                }
                j += 1;
            }
            i += 1;
        }
        proof {
            assert forall|x: Seq<u8>, y: Seq<u8>| #[trigger]
                self.keys().contains(x) && #[trigger] self.keys().contains(y) && validity_of(x)
                    is Some && has_prefix(y, identity_of(x).push(VALIDITY_TAG)) implies validity_of(
                y,
            ) is Some && identity_of(y) == identity_of(x) by {
                let a = choose|a: int|
                    0 <= a < self.layers@.len() && (
                    #[trigger] self.layers@[a]).content().contains_key(x);
                let b = choose|b: int|
                    0 <= b < self.layers@.len() && (
                    #[trigger] self.layers@[b]).content().contains_key(y);
                let c = choose|c: int| row_at(self.layers@[a].rows@, x, c);
                let d = choose|d: int| row_at(self.layers@[b].rows@, y, d);
                assert(self.apart(a, c, b, d));
            }
        }
        true
    }

    /// The row at `d` of the layer at `b` is told apart from the versions of the row at `c` of
    /// the layer at `a`.
    spec fn apart(&self, a: int, c: int, b: int, d: int) -> bool {
        let x = self.layers@[a].rows@;
        let y = self.layers@[b].rows@;
        0 <= c < x.len() && 0 <= d < y.len() && validity_of(x[c].key@) is Some ==> told_apart(
            x[c].key@,
            y[d].key@,
        )
    }

    /// A row of a layer is stored.
    proof fn lemma_stored(&self, a: int, c: int)
        requires
            0 <= a < self.layers@.len(),
            0 <= c < self.layers@[a].rows@.len(),
        ensures
            self.stores(self.layers@[a].rows@[c].key@),
    {
        let k = self.layers@[a].rows@[c].key@;
        assert(row_at(self.layers@[a].rows@, k, c));
        assert(self.layers@[a].content().contains_key(k));
    }
}

} // verus!
