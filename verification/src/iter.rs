//! Windowed iterators over layers, and the merge of a stack of them.

use vstd::prelude::*;

use crate::codec::{
    encode_version, identity_of, lemma_key_is_version, lemma_newest_first, lemma_versions_upper,
    tail_validity, validity_of, validity_version_range, version_key, versions_upper, Stamp,
    Validity,
};
use crate::content::{
    below, between, first_holder, is_least, lemma_between_finite, lemma_least_exists,
    lemma_least_unique, lemma_overlay_between, lemma_overlay_finite, lemma_overlay_keys,
    lemma_overlay_remove, lemma_overlay_value, overlay,
};
use crate::layer::{
    holds_key, lemma_row_is_unique, lemma_rows_finite, row_at, rows_content, rows_sorted,
    value_under, Content, Row,
};
use crate::order::{
    bytes_eq, bytes_lt, lemma_lt_asymmetric, lemma_lt_irreflexive, lemma_lt_le,
    lemma_lt_transitive, lemma_not_lt, lex_le, lex_lt, to_vec,
};

verus! {

/// The visibility window of one layer within one stack.
///
/// `since` is an exclusive floor and `bound` an inclusive ceiling, so the window `(fork, head]`
/// is exactly "everything since the fork", with the row at the fork belonging to the parent.
#[derive(Clone, Copy, Debug, PartialEq, Eq, Structural)]
pub struct Window {
    /// Rows stamped at or below this are invisible. `None` is an unbounded floor.
    pub since: Option<Stamp>,
    /// Rows stamped above this are invisible. `None` is an unbounded ceiling.
    pub bound: Option<Stamp>,
}

/// The window shows a version stamped `t`.
pub open spec fn shows(w: Window, t: Stamp) -> bool {
    &&& w.since matches Some(s) ==> t > s
    &&& w.bound matches Some(b) ==> t <= b
}

/// The window shows the row under `key`: its stamp lies inside, or it carries none.
pub open spec fn admitted(w: Window, key: Seq<u8>) -> bool {
    match validity_of(key) {
        None => true,
        Some(v) => shows(w, v.timestamp),
    }
}

/// What the window shows of the rows.
pub open spec fn windowed(rows: Seq<Row>, w: Window) -> Content {
    Map::new(
        |k: Seq<u8>| holds_key(rows, k) && admitted(w, k),
        |k: Seq<u8>| value_under(rows, k),
    )
}

/// A window shows finitely many rows.
pub proof fn lemma_windowed_finite(rows: Seq<Row>, w: Window)
    ensures
        windowed(rows, w).dom().finite(),
{
    lemma_rows_finite(rows);
    assert(windowed(rows, w).dom().subset_of(rows_content(rows).dom()));
    vstd::set_lib::lemma_set_subset_finite(rows_content(rows).dom(), windowed(rows, w).dom());
}

impl Default for Window {
    fn default() -> (w: Window)
        ensures
            w == (Window { since: None, bound: None }),
    {
        Window::open()
    }
}

impl Window {
    /// The window that shows everything.
    pub fn open() -> (w: Window)
        ensures
            w == (Window { since: None, bound: None }),
            forall|k: Seq<u8>| admitted(w, k),
    {
        Window { since: None, bound: None }
    }

    /// Whether a row's key falls inside this window.
    ///
    /// A row with no validity carries no stamp, so no window excludes it: a window selects by
    /// *when*, and such a row has no when. That is what lets an index compose through a stack: a
    /// bounded base layer keeps contributing its edges.
    pub fn admits(&self, key: &[u8]) -> (r: bool)
        ensures
            r == admitted(*self, key@),
    {
        match tail_validity(key) {
            None => true,
            Some(v) => {
                if let Some(since) = self.since {
                    if v.timestamp <= since {
                        return false;
                    }
                }
                if let Some(bound) = self.bound {
                    if v.timestamp > bound {
                        return false;
                    }
                }
                true
            },
        }
    }
}

/// A cursor over the rows of one layer.
#[derive(Clone, Copy)]
pub struct RawIter<'a> {
    pub rows: &'a [Row],
    pub pos: usize,
}

impl<'a> RawIter<'a> {
    /// The rows are in key order and the cursor is on one of them or past the last.
    pub open spec fn inv(&self) -> bool {
        rows_sorted(self.rows@) && self.pos <= self.rows@.len()
    }

    /// The cursor has not been moved to a row yet.
    pub open spec fn fresh(&self) -> bool {
        self.inv() && self.pos == self.rows@.len()
    }

    /// A cursor that rests on no row until it is moved to one.
    pub fn new(rows: &'a [Row]) -> (it: RawIter<'a>)
        requires
            rows_sorted(rows@),
        ensures
            it.fresh(),
            it.rows@ == rows@,
    {
        RawIter { rows, pos: rows.len() }
    }

    /// Moves to the first row at or above `from`.
    pub(crate) fn seek(&mut self, from: &[u8])
        requires
            old(self).inv(),
        ensures
            final(self).inv(),
            final(self).rows@ == old(self).rows@,
            forall|i: int|
                0 <= i < final(self).pos ==> lex_lt(#[trigger] old(self).rows@[i].key@, from@),
            forall|i: int|
                final(self).pos <= i < old(self).rows@.len() ==> !lex_lt(
                    #[trigger] old(self).rows@[i].key@,
                    from@,
                ),
    {
        let mut lo: usize = 0;
        let mut hi: usize = self.rows.len();
        while lo < hi
            invariant
                lo <= hi <= self.rows@.len(),
                self.rows@ == old(self).rows@,
                rows_sorted(self.rows@),
                forall|i: int| 0 <= i < lo ==> lex_lt(#[trigger] self.rows@[i].key@, from@),
                forall|i: int|
                    hi <= i < self.rows@.len() ==> !lex_lt(#[trigger] self.rows@[i].key@, from@),
            decreases hi - lo,
        {
            let mid: usize = lo + (hi - lo) / 2;
            if bytes_lt(self.rows[mid].key.as_slice(), from) {
                proof {
                    assert forall|i: int| 0 <= i < mid + 1 implies lex_lt(
                        #[trigger] self.rows@[i].key@,
                        from@,
                    ) by {
                        if i < mid {
                            lemma_lt_transitive(
                                self.rows@[i].key@,
                                self.rows@[mid as int].key@,
                                from@,
                            );
                        }
                    }
                }
                lo = mid + 1;
            } else {
                proof {
                    assert forall|i: int| mid <= i < self.rows@.len() implies !lex_lt(
                        #[trigger] self.rows@[i].key@,
                        from@,
                    ) by {
                        if i > mid && lex_lt(self.rows@[i].key@, from@) {
                            lemma_lt_transitive(
                                self.rows@[mid as int].key@,
                                self.rows@[i].key@,
                                from@,
                            );
                        }
                    }
                }
                hi = mid;
            }
        }
        self.pos = lo;
    }

    /// The key of the row under the cursor.
    pub(crate) fn key(&self) -> (r: Option<&'a [u8]>)
        requires
            self.inv(),
        ensures
            r is Some <==> self.pos < self.rows@.len(),
            r matches Some(k) ==> k@ == self.rows@[self.pos as int].key@,
    {
        if self.pos < self.rows.len() {
            Some(self.rows[self.pos].key.as_slice())
        } else {
            None
        }
    }

    /// The value of the row under the cursor.
    fn value(&self) -> (r: Option<&'a [u8]>)
        requires
            self.inv(),
        ensures
            r is Some <==> self.pos < self.rows@.len(),
            r matches Some(v) ==> v@ == self.rows@[self.pos as int].val@,
    {
        if self.pos < self.rows.len() {
            Some(self.rows[self.pos].val.as_slice())
        } else {
            None
        }
    }

    /// Moves to the next row; past the last there is nowhere to go.
    pub(crate) fn next(&mut self)
        requires
            old(self).inv(),
        ensures
            final(self).inv(),
            final(self).rows@ == old(self).rows@,
            final(self).pos == if old(self).pos < old(self).rows@.len() {
                old(self).pos + 1
            } else {
                old(self).pos as int
            },
    {
        if self.pos < self.rows.len() {
            self.pos = self.pos + 1;
        }
    }
}

/// One layer's contribution to a scan: a cursor that only ever rests on a row inside the
/// layer's window and below the scan's upper bound.
pub struct LayerIter<'a> {
    pub inner: RawIter<'a>,
    pub window: Window,
    pub exhausted: bool,
}

/// The view of an optional upper bound.
pub open spec fn upper_view(upper: Option<&[u8]>) -> Option<Seq<u8>> {
    match upper {
        Some(u) => Some(u@),
        None => None,
    }
}

impl<'a> LayerIter<'a> {
    /// What the window shows of the layer.
    pub open spec fn content(&self) -> Content {
        windowed(self.inner.rows@, self.window)
    }

    /// The row at `i` is still to come, and in sight.
    pub open spec fn ahead(&self, upper: Option<Seq<u8>>, k: Seq<u8>, i: int) -> bool {
        &&& !self.exhausted
        &&& self.inner.pos <= i
        &&& row_at(self.inner.rows@, k, i)
        &&& admitted(self.window, k)
        &&& below(k, upper)
    }

    /// What is still to come.
    pub open spec fn pending(&self, upper: Option<Seq<u8>>) -> Content {
        Map::new(
            |k: Seq<u8>| exists|i: int| self.ahead(upper, k, i),
            |k: Seq<u8>| value_under(self.inner.rows@, k),
        )
    }

    /// The cursor rests on a row in sight, if on any.
    pub open spec fn inv(&self, upper: Option<Seq<u8>>) -> bool {
        &&& self.inner.inv()
        &&& !self.exhausted && self.inner.pos < self.inner.rows@.len() ==> self.ahead(
            upper,
            self.inner.rows@[self.inner.pos as int].key@,
            self.inner.pos as int,
        )
    }

    /// The row under the cursor is the first of those to come.
    pub proof fn lemma_front(&self, upper: Option<Seq<u8>>)
        requires
            self.inv(upper),
        ensures
            !self.exhausted && self.inner.pos < self.inner.rows@.len() ==> is_least(
                self.pending(upper),
                self.inner.rows@[self.inner.pos as int].key@,
            ) && self.pending(upper)[self.inner.rows@[self.inner.pos as int].key@]
                == self.inner.rows@[self.inner.pos as int].val@,
            self.exhausted || self.inner.pos >= self.inner.rows@.len() ==> self.pending(upper)
                =~= Map::<Seq<u8>, Seq<u8>>::empty(),
    {
        let rows = self.inner.rows@;
        if !self.exhausted && self.inner.pos < rows.len() {
            let k = rows[self.inner.pos as int].key@;
            assert(self.ahead(upper, k, self.inner.pos as int));
            assert forall|j: Seq<u8>| #[trigger] self.pending(upper).contains_key(j) implies lex_le(
                k,
                j,
            ) by {
                let i = choose|i: int| self.ahead(upper, j, i);
                assert(rows[i].key@ == j);
            }
            lemma_row_is_unique(rows, self.inner.pos as int);
        }
    }

    /// An iterator that rests on no row until it is sought.
    pub fn new(inner: RawIter<'a>, window: Window) -> (it: LayerIter<'a>)
        requires
            inner.fresh(),
        ensures
            it.inner == inner,
            it.window == window,
            !it.exhausted,
            forall|upper: Option<Seq<u8>>| it.inv(upper),
    {
        LayerIter { inner, window, exhausted: false }
    }

    /// Moves to the first row in sight at or above `from`, whatever came before.
    pub fn seek(&mut self, from: &[u8], upper: Option<&[u8]>)
        requires
            old(self).inner.inv(),
        ensures
            final(self).inner.rows@ == old(self).inner.rows@,
            final(self).window == old(self).window,
            final(self).inv(upper_view(upper)),
            final(self).pending(upper_view(upper)) == between(
                old(self).content(),
                from@,
                upper_view(upper),
            ),
            !final(self).exhausted && final(self).inner.pos < final(self).inner.rows@.len()
                ==> is_least(
                between(old(self).content(), from@, upper_view(upper)),
                final(self).inner.rows@[final(self).inner.pos as int].key@,
            ),
            final(self).exhausted || final(self).inner.pos >= final(self).inner.rows@.len()
                ==> between(old(self).content(), from@, upper_view(upper)) == Map::<
                Seq<u8>,
                Seq<u8>,
            >::empty(),
    {
        self.exhausted = false;
        self.inner.seek(from);
        proof {
            let u = upper_view(upper);
            let a = self.pending(u);
            let b = between(self.content(), from@, u);
            assert forall|k: Seq<u8>| #[trigger] a.dom().contains(k) implies b.dom().contains(k) by {
                let i = choose|i: int| self.ahead(u, k, i);
                assert(row_at(self.inner.rows@, k, i));
            }
            assert forall|k: Seq<u8>| #[trigger] b.dom().contains(k) implies a.dom().contains(k) by {
                let i = choose|i: int| row_at(self.inner.rows@, k, i);
                assert(self.ahead(u, k, i));
            }
            assert(a.dom() =~= b.dom());
            assert(a =~= b);
        }
        self.settle(upper);
        proof {
            self.lemma_front(upper_view(upper));
        }
    }

    /// Advances past rows that this stack cannot see: those beyond the scan's upper bound, and
    /// those outside the layer's window.
    pub fn settle(&mut self, upper: Option<&[u8]>)
        requires
            old(self).inner.inv(),
        ensures
            final(self).inner.rows@ == old(self).inner.rows@,
            final(self).window == old(self).window,
            final(self).inv(upper_view(upper)),
            final(self).pending(upper_view(upper)) == old(self).pending(upper_view(upper)),
    {
        let ghost u = upper_view(upper);
        loop
            invariant
                u == upper_view(upper),
                self.inner.inv(),
                self.inner.rows@ == old(self).inner.rows@,
                self.window == old(self).window,
                self.pending(u) == old(self).pending(u),
            decreases self.inner.rows@.len() - self.inner.pos,
        {
            if self.exhausted {
                return;
            }
            let ghost before = *self;
            match self.inner.key() {
                None => {
                    self.exhausted = true;
                    assert(self.pending(u) =~= before.pending(u));
                    return;
                },
                Some(key) => {
                    if let Some(bound) = upper {
                        if !bytes_lt(key, bound) {
                            self.exhausted = true;
                            proof {
                                let rows = self.inner.rows@;
                                assert forall|k: Seq<u8>| !before.pending(u).contains_key(k) by {
                                    if before.pending(u).contains_key(k) {
                                        let i = choose|i: int| before.ahead(u, k, i);
                                        assert(before.ahead(u, k, i));
                                        if i > before.inner.pos {
                                            lemma_lt_transitive(
                                                rows[before.inner.pos as int].key@,
                                                k,
                                                bound@,
                                            );
                                        }
                                    }
                                }
                                assert(self.pending(u) =~= before.pending(u));
                            }
                            return;
                        }
                    }
                    if self.window.admits(key) {
                        assert(self.ahead(
                            u,
                            self.inner.rows@[self.inner.pos as int].key@,
                            self.inner.pos as int,
                        ));
                        return;
                    }
                    self.inner.next();
                    proof {
                        let a = self.pending(u);
                        let b = before.pending(u);
                        assert forall|k: Seq<u8>| #[trigger] a.dom().contains(k) implies b.dom().contains(k) by {
                            let i = choose|i: int| self.ahead(u, k, i);
                            assert(before.ahead(u, k, i));
                        }
                        assert forall|k: Seq<u8>| #[trigger] b.dom().contains(k) implies a.dom().contains(k) by {
                            let i = choose|i: int| before.ahead(u, k, i);
                            assert(i != before.inner.pos);
                            assert(self.ahead(u, k, i));
                        }
                        assert(a.dom() =~= b.dom());
                        assert(a =~= b);
                    }
                },
            }
        }
    }

    /// The key of the row under the cursor: the first of those to come.
    pub fn key(&self) -> (r: Option<&'a [u8]>)
        requires
            self.inner.inv(),
        ensures
            r is Some <==> !self.exhausted && self.inner.pos < self.inner.rows@.len(),
            r matches Some(k) ==> k@ == self.inner.rows@[self.inner.pos as int].key@,
            forall|upper: Option<Seq<u8>>| #[trigger]
                self.inv(upper) ==> match r {
                    Some(k) => is_least(self.pending(upper), k@),
                    None => self.pending(upper) == Map::<Seq<u8>, Seq<u8>>::empty(),
                },
    {
        proof {
            assert forall|upper: Option<Seq<u8>>| #[trigger] self.inv(upper) implies match (
            !self.exhausted && self.inner.pos < self.inner.rows@.len()) {
                true => is_least(
                    self.pending(upper),
                    self.inner.rows@[self.inner.pos as int].key@,
                ),
                false => self.pending(upper) == Map::<Seq<u8>, Seq<u8>>::empty(),
            } by {
                self.lemma_front(upper);
            }
        }
        if self.exhausted {
            None
        } else {
            self.inner.key()
        }
    }

    /// The value of the row under the cursor.
    pub fn value(&self) -> (r: Option<&'a [u8]>)
        requires
            self.inner.inv(),
        ensures
            r is Some <==> !self.exhausted && self.inner.pos < self.inner.rows@.len(),
            r matches Some(v) ==> v@ == self.inner.rows@[self.inner.pos as int].val@,
    {
        if self.exhausted {
            None
        } else {
            self.inner.value()
        }
    }

    /// Moves past the row under the cursor, to the next one in sight.
    pub fn advance(&mut self, upper: Option<&[u8]>)
        requires
            old(self).inv(upper_view(upper)),
        ensures
            final(self).inner.rows@ == old(self).inner.rows@,
            final(self).window == old(self).window,
            final(self).inv(upper_view(upper)),
            !old(self).exhausted && old(self).inner.pos < old(self).inner.rows@.len()
                ==> final(self).pending(upper_view(upper)) == old(self).pending(
                upper_view(upper),
            ).remove(old(self).inner.rows@[old(self).inner.pos as int].key@),
            old(self).exhausted || old(self).inner.pos >= old(self).inner.rows@.len()
                ==> final(self).pending(upper_view(upper)) == old(self).pending(upper_view(upper)),
    {
        if self.exhausted {
            return;
        }
        let ghost u = upper_view(upper);
        let ghost before = *self;
        self.inner.next();
        proof {
            let rows = self.inner.rows@;
            if before.inner.pos < rows.len() {
                let front = rows[before.inner.pos as int].key@;
                let a = self.pending(u);
                let b = before.pending(u).remove(front);
                assert forall|k: Seq<u8>| #[trigger] a.dom().contains(k) implies b.dom().contains(k) by {
                    let i = choose|i: int| self.ahead(u, k, i);
                    assert(before.ahead(u, k, i));
                    lemma_lt_irreflexive(k);
                    assert(lex_lt(rows[before.inner.pos as int].key@, rows[i].key@));
                }
                assert forall|k: Seq<u8>| #[trigger] b.dom().contains(k) implies a.dom().contains(k) by {
                    let i = choose|i: int| before.ahead(u, k, i);
                    assert(self.ahead(u, k, i));
                }
                assert(a.dom() =~= b.dom());
                assert(a =~= b);
            }
        }
        self.settle(upper);
    }
}

/// The merge across a stack of layers, topmost first.
///
/// Rows come in full-key order. For a relation whose key embeds the validity, which sorts
/// descending, every version of a key therefore arrives newest first across the whole stack,
/// whichever layer holds it. Shadowing between layers is not positional: position decides only
/// which copy of a byte-identical key comes out.
pub struct StackMerge<'a> {
    pub(crate) layers: Vec<LayerIter<'a>>,
    pub(crate) upper: Option<Vec<u8>>,
}

/// What a stack of windowed layers holds.
pub open spec fn stack_content(iters: Seq<(RawIter, Window)>) -> Content {
    overlay(Seq::new(iters.len(), |i: int| windowed(iters[i].0.rows@, iters[i].1)))
}

impl<'a> StackMerge<'a> {
    /// What each layer holds, topmost first.
    pub closed spec fn contents(&self) -> Seq<Content> {
        Seq::new(self.layers@.len(), |i: int| self.layers@[i].content())
    }

    /// What is still to come of each layer, topmost first.
    pub closed spec fn pendings(&self) -> Seq<Content> {
        Seq::new(self.layers@.len(), |i: int| self.layers@[i].pending(self.upper_bound()))
    }

    /// The upper bound of the scan.
    pub closed spec fn upper_bound(&self) -> Option<Seq<u8>> {
        match self.upper {
            Some(u) => Some(u@),
            None => None,
        }
    }

    /// What the stack holds.
    pub open spec fn content(&self) -> Content {
        overlay(self.contents())
    }

    /// What is still to come.
    pub open spec fn pending(&self) -> Content {
        overlay(self.pendings())
    }

    /// Every layer's cursor rests on a row in sight, if on any.
    pub closed spec fn inv(&self) -> bool {
        forall|i: int|
            0 <= i < self.layers@.len() ==> (#[trigger] self.layers@[i]).inv(self.upper_bound())
    }

    /// A stack holds finitely many keys.
    pub proof fn lemma_finite(&self)
        ensures
            self.content().dom().finite(),
            self.pending().dom().finite(),
    {
        assert forall|i: int| 0 <= i < self.layers@.len() implies (
        #[trigger] self.contents()[i]).dom().finite() by {
            lemma_windowed_finite(self.layers@[i].inner.rows@, self.layers@[i].window);
        }
        lemma_overlay_finite(self.contents());
        assert forall|i: int| 0 <= i < self.layers@.len() implies (
        #[trigger] self.pendings()[i]).dom().finite() by {
            let rows = self.layers@[i].inner.rows@;
            let part = self.pendings()[i];
            lemma_rows_finite(rows);
            assert forall|k: Seq<u8>| #[trigger] part.dom().contains(k) implies rows_content(
                rows,
            ).dom().contains(k) by {
                let j = choose|j: int| self.layers@[i].ahead(self.upper_bound(), k, j);
                assert(row_at(rows, k, j));
            }
            assert(part.dom().subset_of(rows_content(rows).dom()));
            vstd::set_lib::lemma_set_subset_finite(rows_content(rows).dom(), part.dom());
        }
        lemma_overlay_finite(self.pendings());
    }

    /// A merge of fresh cursors; no row comes until it is sought.
    pub fn new(iters: Vec<(RawIter<'a>, Window)>, upper: Option<Vec<u8>>) -> (m: StackMerge<'a>)
        requires
            forall|i: int| 0 <= i < iters@.len() ==> (#[trigger] iters@[i]).0.fresh(),
        ensures
            m.inv(),
            m.contents() == Seq::new(
                iters@.len(),
                |i: int| windowed(iters@[i].0.rows@, iters@[i].1),
            ),
            m.content() == stack_content(iters@),
            m.upper_bound() == match upper {
                Some(u) => Some(u@),
                None => None,
            },
            m.pending() == Map::<Seq<u8>, Seq<u8>>::empty(),
    {
        let mut layers: Vec<LayerIter<'a>> = Vec::new();
        let mut i: usize = 0;
        while i < iters.len()
            invariant
                i <= iters@.len(),
                layers@.len() == i,
                forall|j: int| 0 <= j < iters@.len() ==> (#[trigger] iters@[j]).0.fresh(),
                forall|j: int|
                    0 <= j < i ==> (#[trigger] layers@[j]).inner == iters@[j].0 && layers@[j].window
                        == iters@[j].1 && !layers@[j].exhausted && (forall|u: Option<Seq<u8>>|
                        layers@[j].inv(u)),
            decreases iters@.len() - i,
        {
            let inner: RawIter<'a> = iters[i].0;
            let window: Window = iters[i].1;
            layers.push(LayerIter::new(inner, window));
            i += 1;
        }
        let m = StackMerge { layers, upper };
        proof {
            assert(m.contents() =~= Seq::new(
                iters@.len(),
                |i: int| windowed(iters@[i].0.rows@, iters@[i].1),
            ));
            lemma_overlay_keys(m.pendings());
            assert forall|k: Seq<u8>| !m.pending().contains_key(k) by {
                if m.pending().contains_key(k) {
                    let j = choose|j: int|
                        0 <= j < m.pendings().len() && (#[trigger] m.pendings()[j]).contains_key(k);
                    assert(iters@[j].0.fresh());
                    let r = choose|r: int| m.layers@[j].ahead(m.upper_bound(), k, r);
                    assert(m.layers@[j].ahead(m.upper_bound(), k, r));
                }
            }
            assert(m.pending() =~= Map::<Seq<u8>, Seq<u8>>::empty());
        }
        m
    }

    /// Moves every layer to its first row in sight at or above `from`.
    pub fn seek(&mut self, from: &[u8])
        requires
            old(self).inv(),
        ensures
            final(self).inv(),
            final(self).contents() == old(self).contents(),
            final(self).upper_bound() == old(self).upper_bound(),
            final(self).pendings().len() == old(self).contents().len(),
            forall|i: int|
                0 <= i < old(self).contents().len() ==> #[trigger] final(self).pendings()[i]
                    == between(old(self).contents()[i], from@, old(self).upper_bound()),
            final(self).pending() == between(
                old(self).content(),
                from@,
                old(self).upper_bound(),
            ),
    {
        let ghost u = self.upper_bound();
        let upper: Option<&[u8]> = match &self.upper {
            Some(b) => Some(b.as_slice()),
            None => None,
        };
        let n: usize = self.layers.len();
        let mut i: usize = 0;
        while i < n
            invariant
                i <= n,
                n == self.layers@.len(),
                n == old(self).layers@.len(),
                u == upper_view(upper),
                self.upper == old(self).upper,
                old(self).inv(),
                u == old(self).upper_bound(),
                forall|j: int|
                    0 <= j < i ==> (#[trigger] self.layers@[j]).inv(u) && self.layers@[j].pending(u)
                        == between(old(self).layers@[j].content(), from@, u)
                        && self.layers@[j].content() == old(self).layers@[j].content(),
                forall|j: int| i <= j < n ==> #[trigger] self.layers@[j] == old(self).layers@[j],
            decreases n - i,
        {
            assert(old(self).layers@[i as int].inv(u));
            self.layers[i].seek(from, upper);
            i += 1;
        }
        proof {
            assert(self.contents() =~= old(self).contents());
            lemma_overlay_between(old(self).contents(), self.pendings(), from@, u);
        }
    }

    /// The index of the layer holding the smallest key, preferring the topmost on a tie.
    fn front(&self) -> (r: Option<usize>)
        requires
            self.inv(),
        ensures
            r is None <==> self.pending() == Map::<Seq<u8>, Seq<u8>>::empty(),
            r matches Some(b) ==> {
                &&& b < self.layers@.len()
                &&& !self.layers@[b as int].exhausted
                &&& self.layers@[b as int].inner.pos < self.layers@[b as int].inner.rows@.len()
                &&& is_least(
                    self.pending(),
                    self.layers@[b as int].inner.rows@[self.layers@[b as int].inner.pos as int].key@,
                )
                &&& first_holder(
                    self.pendings(),
                    self.layers@[b as int].inner.rows@[self.layers@[b as int].inner.pos as int].key@,
                    b as int,
                )
            },
    {
        let ghost u = self.upper_bound();
        let mut best: Option<usize> = None;
        let mut i: usize = 0;
        while i < self.layers.len()
            invariant
                i <= self.layers@.len(),
                self.inv(),
                u == self.upper_bound(),
                best is None ==> forall|j: int|
                    0 <= j < i ==> (#[trigger] self.pendings()[j]) == Map::<
                        Seq<u8>,
                        Seq<u8>,
                    >::empty(),
                best matches Some(b) ==> {
                    let l = self.layers@[b as int];
                    &&& b < i
                    &&& !l.exhausted
                    &&& l.inner.pos < l.inner.rows@.len()
                    &&& forall|j: int, k: Seq<u8>|
                        0 <= j < i && #[trigger] self.pendings()[j].contains_key(k) ==> lex_le(
                            l.inner.rows@[l.inner.pos as int].key@,
                            k,
                        )
                    &&& forall|j: int|
                        0 <= j < b ==> !(#[trigger] self.pendings()[j]).contains_key(
                            l.inner.rows@[l.inner.pos as int].key@,
                        )
                },
            decreases self.layers@.len() - i,
        {
            proof {
                self.layers@[i as int].lemma_front(u);
                assert(self.layers@[i as int].inv(u));
                assert(self.pendings()[i as int] == self.layers@[i as int].pending(u));
            }
            if let Some(key) = self.layers[i].key() {
                match best {
                    None => {
                        best = Some(i);
                    },
                    // Strictly less, so a tie leaves the slot with the higher layer. A tie is
                    // byte-identical keys, so this only chooses which copy of one row comes out.
                    Some(b) => {
                        assert(self.layers@[b as int].inv(u));
                        if let Some(least) = self.layers[b].key() {
                            if bytes_lt(key, least) {
                                proof {
                                    assert forall|j: int, k: Seq<u8>|
                                        0 <= j < i + 1 && #[trigger] self.pendings()[j].contains_key(
                                            k,
                                        ) implies lex_le(key@, k) by {
                                        if j < i {
                                            lemma_lt_le(key@, least@, k);
                                        }
                                    }
                                    assert forall|j: int| 0 <= j < i implies !(
                                    #[trigger] self.pendings()[j]).contains_key(key@) by {
                                        if self.pendings()[j].contains_key(key@) {
                                            lemma_lt_asymmetric(key@, least@);
                                            lemma_not_lt(key@, least@);
                                        }
                                    }
                                }
                                best = Some(i);
                            } else {
                                proof {
                                    lemma_not_lt(key@, least@);
                                    assert forall|j: int, k: Seq<u8>|
                                        0 <= j < i + 1 && #[trigger] self.pendings()[j].contains_key(
                                            k,
                                        ) implies lex_le(least@, k) by {
                                        if j == i && least@ != key@ {
                                            lemma_lt_le(least@, key@, k);
                                        }
                                    }
                                }
                            }
                        }
                    },
                }
            }
            i += 1;
        }
        proof {
            lemma_overlay_keys(self.pendings());
            match best {
                None => {
                    assert forall|k: Seq<u8>| !self.pending().contains_key(k) by {
                        if self.pending().contains_key(k) {
                            let j = choose|j: int|
                                0 <= j < self.pendings().len() && (
                                #[trigger] self.pendings()[j]).contains_key(k);
                            assert(self.pendings()[j] == Map::<Seq<u8>, Seq<u8>>::empty());
                        }
                    }
                    assert(self.pending() =~= Map::<Seq<u8>, Seq<u8>>::empty());
                },
                Some(b) => {
                    let l = self.layers@[b as int];
                    let k = l.inner.rows@[l.inner.pos as int].key@;
                    assert(l.inv(u));
                    l.lemma_front(u);
                    assert(self.pendings()[b as int] == l.pending(u));
                    assert(self.pendings()[b as int].contains_key(k));
                    assert(first_holder(self.pendings(), k, b as int));
                    assert forall|j: Seq<u8>| #[trigger] self.pending().contains_key(j) implies lex_le(
                        k,
                        j,
                    ) by {
                        let h = choose|h: int|
                            0 <= h < self.pendings().len() && (
                            #[trigger] self.pendings()[h]).contains_key(j);
                        assert(self.pendings()[h].contains_key(j));
                    }
                    assert(is_least(self.pending(), k));
                },
            }
        }
        best
    }

    /// The next row, if any is to come: the least key, as the topmost layer that stands on it has
    /// it. Every layer that stood on that key moves on past it, and no other layer moves.
    pub fn next_kv(&mut self) -> (r: Option<(Vec<u8>, Vec<u8>)>)
        requires
            old(self).inv(),
        ensures
            final(self).inv(),
            final(self).contents() == old(self).contents(),
            final(self).upper_bound() == old(self).upper_bound(),
            final(self).pendings().len() == old(self).pendings().len(),
            match r {
                None => old(self).pending() == Map::<Seq<u8>, Seq<u8>>::empty()
                    && final(self).pendings() == old(self).pendings(),
                Some((k, v)) => {
                    &&& is_least(old(self).pending(), k@)
                    &&& v@ == old(self).pending()[k@]
                    &&& forall|b: int| #[trigger]
                        first_holder(old(self).pendings(), k@, b) ==> v@
                            == old(self).pendings()[b][k@]
                    &&& forall|i: int|
                        0 <= i < old(self).pendings().len()
                            ==> #[trigger] final(self).pendings()[i]
                            == old(self).pendings()[i].remove(k@)
                    &&& final(self).pending() == old(self).pending().remove(k@)
                },
            },
    {
        let ghost u = self.upper_bound();
        let front: usize = match self.front() {
            None => {
                return None;
            },
            Some(f) => f,
        };
        assert(self.layers@[front as int].inv(u));
        let key = match self.layers[front].key() {
            Some(k) => to_vec(k),
            None => Vec::new(),
        };
        let val = match self.layers[front].value() {
            Some(v) => to_vec(v),
            None => Vec::new(),
        };
        proof {
            self.layers@[front as int].lemma_front(u);
            assert(self.pendings()[front as int] == self.layers@[front as int].pending(u));
            lemma_overlay_value(self.pendings(), key@, front as int);
        }
        let upper_bytes: Option<Vec<u8>> = match &self.upper {
            Some(b) => Some(to_vec(b.as_slice())),
            None => None,
        };
        let upper: Option<&[u8]> = match &upper_bytes {
            Some(b) => Some(b.as_slice()),
            None => None,
        };
        let n: usize = self.layers.len();
        let mut i: usize = 0;
        // Every layer sitting on this exact key moves on, not just the front one: that is what
        // collapses a row present identically in several layers into one.
        while i < n
            invariant
                i <= n,
                n == self.layers@.len(),
                n == old(self).layers@.len(),
                u == upper_view(upper),
                self.upper == old(self).upper,
                u == old(self).upper_bound(),
                old(self).inv(),
                is_least(old(self).pending(), key@),
                forall|j: int|
                    0 <= j < i ==> (#[trigger] self.layers@[j]).inv(u) && self.layers@[j].pending(u)
                        == old(self).layers@[j].pending(u).remove(key@) && self.layers@[j].content()
                        == old(self).layers@[j].content(),
                forall|j: int| i <= j < n ==> #[trigger] self.layers@[j] == old(self).layers@[j],
            decreases n - i,
        {
            let ghost was = self.layers@[i as int];
            proof {
                assert(was == old(self).layers@[i as int]);
                assert(was.inv(u));
                was.lemma_front(u);
                lemma_overlay_keys(old(self).pendings());
                assert(old(self).pendings()[i as int] == was.pending(u));
            }
            let here: bool = match self.layers[i].key() {
                Some(k) => bytes_eq(k, key.as_slice()),
                None => false,
            };
            if here {
                self.layers[i].advance(upper);
            } else {
                proof {
                    if was.pending(u).contains_key(key@) {
                        // The layer's own first key is at most `key`, and no key to come is less.
                        let k = was.inner.rows@[was.inner.pos as int].key@;
                        assert(was.pending(u).contains_key(k));
                        assert(old(self).pendings()[i as int].contains_key(k));
                        assert(old(self).pending().contains_key(k));
                        if k != key@ {
                            lemma_lt_asymmetric(k, key@);
                        }
                    }
                    assert(was.pending(u).remove(key@) =~= was.pending(u));
                }
            }
            i += 1;
        }
        proof {
            assert(self.contents() =~= old(self).contents());
            lemma_overlay_remove(old(self).pendings(), self.pendings(), key@);
        }
        Some((key, val))
    }
}

/// Raw `(key, value)` scan across a stack, from `lower` up.
pub struct StackRawIter<'a> {
    pub merge: StackMerge<'a>,
    pub started: bool,
    pub lower: Vec<u8>,
}

impl<'a> StackRawIter<'a> {
    /// What is still to come.
    pub open spec fn remaining(&self) -> Content {
        if self.started {
            self.merge.pending()
        } else {
            between(self.merge.content(), self.lower@, self.merge.upper_bound())
        }
    }

    /// The next row of the scan.
    pub fn next(&mut self) -> (r: Option<(Vec<u8>, Vec<u8>)>)
        requires
            old(self).merge.inv(),
        ensures
            final(self).merge.inv(),
            final(self).merge.content() == old(self).merge.content(),
            final(self).merge.upper_bound() == old(self).merge.upper_bound(),
            final(self).lower == old(self).lower,
            final(self).started,
            match r {
                None => old(self).remaining() == Map::<Seq<u8>, Seq<u8>>::empty()
                    && final(self).remaining() == old(self).remaining(),
                Some((k, v)) => {
                    &&& is_least(old(self).remaining(), k@)
                    &&& v@ == old(self).remaining()[k@]
                    &&& final(self).remaining() == old(self).remaining().remove(k@)
                },
            },
    {
        if !self.started {
            self.started = true;
            self.merge.seek(self.lower.as_slice());
        }
        self.merge.next_kv()
    }
}

/// At `at`, this version is in force and it asserts.
pub open spec fn stands_at(key: Seq<u8>, at: Stamp) -> bool {
    validity_of(key) matches Some(v) && v.timestamp <= at && v.is_assert
}

/// Where a scan as of `at` goes on after meeting `key`: a version later than `at` is passed over
/// to the first one that is not; any other settles its identity.
pub open spec fn next_seek(key: Seq<u8>, at: Stamp) -> Seq<u8> {
    match validity_of(key) {
        Some(v) if v.timestamp > at => version_key(
            identity_of(key),
            Validity { timestamp: at, is_assert: true },
        ),
        _ => versions_upper(key),
    }
}

/// A scan always moves on.
pub proof fn lemma_next_seek(key: Seq<u8>, at: Stamp)
    ensures
        lex_lt(key, next_seek(key, at)),
{
    match validity_of(key) {
        Some(v) => {
            lemma_key_is_version(key);
            if v.timestamp > at {
                lemma_newest_first(
                    identity_of(key),
                    v,
                    Validity { timestamp: at, is_assert: true },
                );
            } else {
                lemma_versions_upper(key);
            }
        },
        None => {
            lemma_versions_upper(key);
        },
    }
}

/// The key of the first row at or above `bound` that stands as of `at`, found by walking up
/// from `bound` and skipping what `next_seek` skips.
pub open spec fn frontier_next(
    m: Content,
    upper: Option<Seq<u8>>,
    bound: Seq<u8>,
    at: Stamp,
) -> Option<Seq<u8>>
    decreases between(m, bound, upper).dom().len(),
    when m.dom().finite()
{
    let rest = between(m, bound, upper);
    if rest.dom().len() == 0 {
        None
    } else {
        let k = choose|k: Seq<u8>| is_least(rest, k);
        proof {
            lemma_between_finite(m, bound, upper);
            lemma_least_exists(rest);
            lemma_next_seek_shrinks(m, upper, bound, k, at);
        }
        if stands_at(k, at) {
            Some(k)
        } else {
            frontier_next(m, upper, next_seek(k, at), at)
        }
    }
}

/// Going on after a key leaves less to walk over.
pub proof fn lemma_next_seek_shrinks(
    m: Content,
    upper: Option<Seq<u8>>,
    bound: Seq<u8>,
    k: Seq<u8>,
    at: Stamp,
)
    requires
        m.dom().finite(),
        between(m, bound, upper).contains_key(k),
    ensures
        between(m, next_seek(k, at), upper).dom().len() < between(m, bound, upper).dom().len(),
        between(m, next_seek(k, at), upper).dom().subset_of(between(m, bound, upper).dom()),
{
    let rest = between(m, bound, upper).dom();
    let less = between(m, next_seek(k, at), upper).dom();
    lemma_between_finite(m, bound, upper);
    lemma_next_seek(k, at);
    assert forall|j: Seq<u8>| less.contains(j) implies rest.remove(k).contains(j) by {
        lemma_not_lt(j, next_seek(k, at));
        lemma_lt_le(k, next_seek(k, at), j);
        lemma_not_lt(k, bound);
        lemma_not_lt(j, bound);
        if lex_lt(j, bound) {
            lemma_lt_transitive(k, j, bound);
        }
        lemma_lt_irreflexive(k);
    }
    vstd::set_lib::lemma_len_subset(less, rest.remove(k));
    assert(rest.contains(k));
}

/// What a scan stops at stands, and is in its range.
pub proof fn lemma_frontier_next(m: Content, upper: Option<Seq<u8>>, bound: Seq<u8>, at: Stamp)
    requires
        m.dom().finite(),
    ensures
        frontier_next(m, upper, bound, at) matches Some(k) ==> stands_at(k, at) && between(
            m,
            bound,
            upper,
        ).contains_key(k),
    decreases between(m, bound, upper).dom().len(),
{
    let rest = between(m, bound, upper);
    lemma_between_finite(m, bound, upper);
    if rest.dom().len() > 0 {
        lemma_least_exists(rest);
        let k = choose|k: Seq<u8>| is_least(rest, k);
        if !stands_at(k, at) {
            lemma_next_seek_shrinks(m, upper, bound, k, at);
            lemma_frontier_next(m, upper, next_seek(k, at), at);
            if let Some(j) = frontier_next(m, upper, next_seek(k, at), at) {
                assert(between(m, next_seek(k, at), upper).dom().contains(j));
            }
        }
    }
}

/// The rows of a scan as of `at` that runs from `bound` to its end, in the order they come.
pub open spec fn frontier_rows(
    m: Content,
    upper: Option<Seq<u8>>,
    bound: Seq<u8>,
    at: Stamp,
) -> Seq<(Seq<u8>, Seq<u8>)>
    decreases between(m, bound, upper).dom().len(),
    when m.dom().finite()
{
    match frontier_next(m, upper, bound, at) {
        None => Seq::empty(),
        Some(k) => {
            proof {
                lemma_frontier_next(m, upper, bound, at);
                lemma_next_seek_shrinks(m, upper, bound, k, at);
            }
            seq![(k, m[k])] + frontier_rows(m, upper, versions_upper(k), at)
        },
    }
}

/// Frontier scan across a stack: for each key, the newest version at or before `valid_at`,
/// skipped entirely when that version is a retraction. A row without a validity never stands.
///
/// The merge below it presents each key's versions newest first across all layers, so
/// shadowing and retraction between layers both fall out of one rule over the merged rows.
pub struct StackSkipIter<'a> {
    pub merge: StackMerge<'a>,
    pub valid_at: Stamp,
    pub next_bound: Vec<u8>,
}

impl<'a> StackSkipIter<'a> {
    /// The rows still to come, in order.
    pub open spec fn remaining(&self) -> Seq<(Seq<u8>, Seq<u8>)> {
        frontier_rows(
            self.merge.content(),
            self.merge.upper_bound(),
            self.next_bound@,
            self.valid_at,
        )
    }

    /// The next row that stands.
    pub fn next(&mut self) -> (r: Option<(Vec<u8>, Vec<u8>)>)
        requires
            old(self).merge.inv(),
        ensures
            final(self).merge.inv(),
            final(self).merge.content() == old(self).merge.content(),
            final(self).merge.upper_bound() == old(self).merge.upper_bound(),
            final(self).valid_at == old(self).valid_at,
            match r {
                None => old(self).remaining().len() == 0 && final(self).remaining().len() == 0,
                Some((k, v)) => old(self).remaining() == seq![(k@, v@)] + final(self).remaining(),
            },
            match (
                r,
                frontier_next(
                    old(self).merge.content(),
                    old(self).merge.upper_bound(),
                    old(self).next_bound@,
                    old(self).valid_at,
                ),
            ) {
                (None, None) => between(
                    old(self).merge.content(),
                    final(self).next_bound@,
                    old(self).merge.upper_bound(),
                ) == Map::<Seq<u8>, Seq<u8>>::empty(),
                (Some((k, v)), Some(key)) => {
                    &&& k@ == key
                    &&& v@ == old(self).merge.content()[key]
                    &&& final(self).next_bound@ == versions_upper(key)
                },
                _ => false,
            },
    {
        let ghost m = self.merge.content();
        let ghost upper = self.merge.upper_bound();
        let ghost at = self.valid_at;
        proof {
            self.merge.lemma_finite();
        }
        loop
            invariant
                self.merge.inv(),
                self.merge.content() == m,
                self.merge.upper_bound() == upper,
                self.valid_at == at,
                m == old(self).merge.content(),
                upper == old(self).merge.upper_bound(),
                at == old(self).valid_at,
                m.dom().finite(),
                frontier_next(m, upper, self.next_bound@, at) == frontier_next(
                    m,
                    upper,
                    old(self).next_bound@,
                    at,
                ),
            decreases between(m, self.next_bound@, upper).dom().len(),
        {
            let ghost rest = between(m, self.next_bound@, upper);
            proof {
                lemma_between_finite(m, self.next_bound@, upper);
            }
            self.merge.seek(self.next_bound.as_slice());
            match self.merge.next_kv() {
                None => {
                    assert(rest.dom() =~= Set::empty());
                    return None;
                },
                Some((k, v)) => {
                    proof {
                        assert(rest.contains_key(k@));
                        assert(rest.dom().contains(k@));
                        if rest.dom().len() == 0 {
                            assert(rest.dom() =~= Set::empty());
                        }
                        let c = choose|c: Seq<u8>| is_least(rest, c);
                        lemma_least_unique(rest, k@, c);
                        lemma_next_seek_shrinks(m, upper, self.next_bound@, k@, at);
                    }
                    let (stands, bound) = check_key_for_validity(k.as_slice(), self.valid_at);
                    self.next_bound = bound;
                    if stands {
                        return Some((k, v));
                    }
                },
            }
        }
    }
}

/// Whether the version under `key` stands as of `at`, and where the scan goes on.
pub fn check_key_for_validity(key: &[u8], at: Stamp) -> (r: (bool, Vec<u8>))
    ensures
        r.0 == stands_at(key@, at),
        r.1@ == next_seek(key@, at),
{
    let (identity, _, upper) = validity_version_range(key);
    match tail_validity(key) {
        None => (false, upper),
        Some(v) => {
            if v.timestamp > at {
                (false, encode_version(identity, Validity { timestamp: at, is_assert: true }))
            } else {
                (v.is_assert, upper)
            }
        },
    }
}

} // verus!
