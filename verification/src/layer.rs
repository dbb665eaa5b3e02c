//! One layer: rows in key order, and the map they stand for.

use vstd::prelude::*;

use crate::order::{
    bytes_eq, bytes_lt, lemma_lt_irreflexive, lemma_lt_total, lemma_lt_transitive, lex_lt,
};

verus! {

/// A stored row.
#[derive(Debug, PartialEq, Eq)]
pub struct Row {
    pub key: Vec<u8>,
    pub val: Vec<u8>,
}

impl View for Row {
    type V = (Seq<u8>, Seq<u8>);

    open spec fn view(&self) -> (Seq<u8>, Seq<u8>) {
        (self.key@, self.val@)
    }
}

/// What a set of rows holds: a value for each key.
pub type Content = Map<Seq<u8>, Seq<u8>>;

/// The rows are in key order, and no key occurs twice.
pub open spec fn rows_sorted(rows: Seq<Row>) -> bool {
    forall|i: int, j: int|
        0 <= i < j < rows.len() ==> lex_lt(#[trigger] rows[i].key@, #[trigger] rows[j].key@)
}

/// The row at `i` has this key.
pub open spec fn row_at(rows: Seq<Row>, key: Seq<u8>, i: int) -> bool {
    0 <= i < rows.len() && rows[i].key@ == key
}

/// Some row has this key.
pub open spec fn holds_key(rows: Seq<Row>, key: Seq<u8>) -> bool {
    exists|i: int| row_at(rows, key, i)
}

/// The value under a key that some row has.
pub open spec fn value_under(rows: Seq<Row>, key: Seq<u8>) -> Seq<u8> {
    rows[choose|i: int| row_at(rows, key, i)].val@
}

/// What the rows hold.
pub open spec fn rows_content(rows: Seq<Row>) -> Content {
    Map::new(|k: Seq<u8>| holds_key(rows, k), |k: Seq<u8>| value_under(rows, k))
}

/// The bytes of key and value that the rows hold.
pub open spec fn rows_bytes(rows: Seq<Row>) -> nat
    decreases rows.len(),
{
    if rows.len() == 0 {
        0
    } else {
        rows_bytes(rows.drop_last()) + rows.last().key@.len() + rows.last().val@.len()
    }
}

/// Fewer rows never hold more bytes.
pub proof fn lemma_rows_bytes_take(rows: Seq<Row>, n: int)
    requires
        0 <= n <= rows.len(),
    ensures
        rows_bytes(rows.take(n)) <= rows_bytes(rows),
    decreases rows.len(),
{
    if n == rows.len() {
        assert(rows.take(n) =~= rows);
    } else {
        lemma_rows_bytes_take(rows.drop_last(), n);
        assert(rows.drop_last().take(n) =~= rows.take(n));
    }
}

/// In sorted rows a key has one row, so the value under it is that row's.
pub proof fn lemma_row_is_unique(rows: Seq<Row>, i: int)
    requires
        rows_sorted(rows),
        0 <= i < rows.len(),
    ensures
        holds_key(rows, rows[i].key@),
        value_under(rows, rows[i].key@) == rows[i].val@,
        forall|j: int| row_at(rows, rows[i].key@, j) ==> i == j,
{
    let k = rows[i].key@;
    assert(row_at(rows, k, i));
    assert forall|j: int| row_at(rows, k, j) implies i == j by {
        if i < j {
            lemma_lt_irreflexive(k);
            assert(lex_lt(rows[i].key@, rows[j].key@));
        } else if j < i {
            lemma_lt_irreflexive(k);
            assert(lex_lt(rows[j].key@, rows[i].key@));
        }
    }
}

/// Rows hold finitely many keys.
pub proof fn lemma_rows_finite(rows: Seq<Row>)
    ensures
        rows_content(rows).dom().finite(),
{
    let keys = rows.map_values(|r: Row| r.key@);
    vstd::seq_lib::seq_to_set_is_finite(keys);
    assert(rows_content(rows).dom() =~= keys.to_set()) by {
        assert forall|k: Seq<u8>| rows_content(rows).dom().contains(k) implies keys.to_set().contains(
            k,
        ) by {
            let i = choose|i: int| row_at(rows, k, i);
            assert(keys[i] == k);
        }
        assert forall|k: Seq<u8>| keys.to_set().contains(k) implies rows_content(rows).dom().contains(
            k,
        ) by {
            let i = choose|i: int| 0 <= i < keys.len() && keys[i] == k;
            assert(row_at(rows, k, i));
        }
    }
}

/// Whether the rows are in key order, no key twice.
pub fn in_order(rows: &Vec<Row>) -> (r: bool)
    ensures
        r == rows_sorted(rows@),
{
    let mut i: usize = 1;
    while i < rows.len()
        invariant
            1 <= i,
            i <= rows@.len() || (i == 1 && rows@.len() == 0),
            forall|a: int, b: int|
                0 <= a < b < i && b < rows@.len() ==> lex_lt(
                    #[trigger] rows@[a].key@,
                    #[trigger] rows@[b].key@,
                ),
        decreases rows@.len() - i,
    {
        if !bytes_lt(rows[i - 1].key.as_slice(), rows[i].key.as_slice()) {
            assert(!lex_lt(rows@[i - 1].key@, rows@[i as int].key@));
            return false;
        }
        proof {
            assert forall|a: int, b: int| 0 <= a < b < i + 1 && b < rows@.len() implies lex_lt(
                #[trigger] rows@[a].key@,
                #[trigger] rows@[b].key@,
            ) by {
                if b == i && a < i - 1 {
                    lemma_lt_transitive(rows@[a].key@, rows@[i - 1].key@, rows@[i as int].key@);
                }
            }
        }
        i += 1;
    }
    true
}

/// A named layer.
pub struct Layer {
    pub name: String,
    pub rows: Vec<Row>,
}

impl Layer {
    /// The rows are in order.
    pub open spec fn wf(&self) -> bool {
        rows_sorted(self.rows@)
    }

    /// What the layer holds.
    pub open spec fn content(&self) -> Content {
        rows_content(self.rows@)
    }

    /// A layer over rows read from storage; `None` if they are not in key order.
    pub fn from_rows(name: String, rows: Vec<Row>) -> (r: Option<Layer>)
        ensures
            r is Some <==> rows_sorted(rows@),
            r matches Some(l) ==> l.wf() && l.name == name && l.rows == rows,
    {
        if in_order(&rows) {
            Some(Layer { name, rows })
        } else {
            None
        }
    }

    /// Writes a row, replacing the one under its key if there is one.
    pub fn put(&mut self, row: Row)
        requires
            old(self).wf(),
        ensures
            final(self).wf(),
            final(self).name == old(self).name,
            final(self).content() == old(self).content().insert(row.key@, row.val@),
    {
        let ghost before = self.rows@;
        let ghost key = row.key@;
        let ghost val = row.val@;
        let mut at: usize = 0;
        while at < self.rows.len() && bytes_lt(self.rows[at].key.as_slice(), row.key.as_slice())
            invariant
                at <= self.rows@.len(),
                self.rows@ == before,
                self.name == old(self).name,
                key == row.key@,
                forall|i: int| 0 <= i < at ==> lex_lt(#[trigger] before[i].key@, key),
            ensures
                at == before.len() || !lex_lt(before[at as int].key@, key),
            decreases self.rows@.len() - at,
        {
            at += 1;
        }
        if at < self.rows.len() && bytes_eq(self.rows[at].key.as_slice(), row.key.as_slice()) {
            self.rows[at] = row;
            proof {
                let after = self.rows@;
                assert(after =~= before.update(at as int, row));
                assert(rows_sorted(after)) by {
                    assert forall|i: int, j: int| 0 <= i < j < after.len() implies lex_lt(
                        #[trigger] after[i].key@,
                        #[trigger] after[j].key@,
                    ) by {
                        assert(after[i].key@ == before[i].key@);
                        assert(after[j].key@ == before[j].key@);
                    }
                }
                lemma_put(before, after, at as int, key, val, |i: int| i, |j: int| j);
            }
        } else {
            proof {
                if at < before.len() {
                    lemma_lt_total(before[at as int].key@, key);
                }
            }
            self.rows.insert(at, row);
            proof {
                let after = self.rows@;
                assert(after =~= before.insert(at as int, row));
                assert(rows_sorted(after)) by {
                    assert forall|i: int, j: int| 0 <= i < j < after.len() implies lex_lt(
                        #[trigger] after[i].key@,
                        #[trigger] after[j].key@,
                    ) by {
                        let bi = if i < at {
                            i
                        } else {
                            i - 1
                        };
                        let bj = if j < at {
                            j
                        } else {
                            j - 1
                        };
                        if i == at {
                            assert(after[j] == before[bj]);
                            assert(after[i].key@ == key);
                            assert(lex_lt(key, before[at as int].key@));
                            if bj > at {
                                lemma_lt_transitive(key, before[at as int].key@, before[bj].key@);
                            }
                        } else if j == at {
                            assert(after[i] == before[i]);
                            assert(after[j].key@ == key);
                        } else {
                            assert(after[i] == before[bi]);
                            assert(after[j] == before[bj]);
                            assert(lex_lt(before[bi].key@, before[bj].key@));
                        }
                    }
                }
                lemma_put(
                    before,
                    after,
                    at as int,
                    key,
                    val,
                    |i: int|
                        if i < at {
                            i
                        } else {
                            i + 1
                        },
                    |j: int|
                        if j < at {
                            j
                        } else {
                            j - 1
                        },
                );
            }
        }
    }
}

/// Rows that gained one key, or a new value under it, and kept the others hold the old content
/// with that key set. `to` takes an old position to its new one, and `from`
/// takes it back.
proof fn lemma_put(
    before: Seq<Row>,
    after: Seq<Row>,
    at: int,
    key: Seq<u8>,
    val: Seq<u8>,
    to: spec_fn(int) -> int,
    from: spec_fn(int) -> int,
)
    requires
        rows_sorted(before),
        rows_sorted(after),
        0 <= at < after.len(),
        after[at].key@ == key,
        after[at].val@ == val,
        forall|i: int|
            0 <= i < before.len() && before[i].key@ != key ==> 0 <= #[trigger] to(i) < after.len()
                && after[to(i)] == before[i],
        forall|j: int|
            0 <= j < after.len() && j != at ==> 0 <= #[trigger] from(j) < before.len()
                && before[from(j)] == after[j],
    ensures
        rows_content(after) == rows_content(before).insert(key, val),
{
    let a = rows_content(after);
    let b = rows_content(before).insert(key, val);
    assert forall|k: Seq<u8>| a.dom().contains(k) <==> b.dom().contains(k) by {
        if a.dom().contains(k) && k != key {
            let j = choose|j: int| row_at(after, k, j);
            assert(j != at);
            assert(row_at(before, k, from(j)));
        }
        if b.dom().contains(k) {
            if k == key {
                assert(row_at(after, k, at));
            } else {
                let i = choose|i: int| row_at(before, k, i);
                assert(row_at(after, k, to(i)));
            }
        }
    }
    assert forall|k: Seq<u8>| a.dom().contains(k) implies a[k] == b[k] by {
        if k == key {
            lemma_row_is_unique(after, at);
        } else {
            let i = choose|i: int| row_at(before, k, i);
            assert(holds_key(before, k));
            lemma_row_is_unique(before, i);
            assert(after[to(i)] == before[i]);
            lemma_row_is_unique(after, to(i));
        }
    }
    assert(a =~= b);
}

} // verus!
