//! The order of stored keys: bytewise, a proper prefix before what extends it.

use vstd::prelude::*;

verus! {

/// `a` and `b` agree before position `i`, and at `i` either `a` has ended or its byte is smaller.
pub open spec fn splits_at(a: Seq<u8>, b: Seq<u8>, i: int) -> bool {
    &&& 0 <= i <= a.len()
    &&& i < b.len()
    &&& forall|k: int| 0 <= k < i ==> #[trigger] a[k] == b[k]
    &&& i == a.len() || a[i] < b[i]
}

/// `a` sorts strictly before `b`.
pub open spec fn lex_lt(a: Seq<u8>, b: Seq<u8>) -> bool {
    exists|i: int| splits_at(a, b, i)
}

/// `a` sorts before `b` or is `b`.
pub open spec fn lex_le(a: Seq<u8>, b: Seq<u8>) -> bool {
    a == b || lex_lt(a, b)
}

/// `p` begins `s`.
pub open spec fn has_prefix(s: Seq<u8>, p: Seq<u8>) -> bool {
    &&& p.len() <= s.len()
    &&& s.take(p.len() as int) == p
}

/// No key sorts before itself.
pub proof fn lemma_lt_irreflexive(a: Seq<u8>)
    ensures
        !lex_lt(a, a),
{
    if lex_lt(a, a) {
        let i = choose|i: int| splits_at(a, a, i);
        assert(splits_at(a, a, i));
    }
}

/// The order is transitive.
pub proof fn lemma_lt_transitive(a: Seq<u8>, b: Seq<u8>, c: Seq<u8>)
    requires
        lex_lt(a, b),
        lex_lt(b, c),
    ensures
        lex_lt(a, c),
{
    let i = choose|i: int| splits_at(a, b, i);
    let j = choose|j: int| splits_at(b, c, j);
    assert(splits_at(a, b, i) && splits_at(b, c, j));
    let m = if i <= j {
        i
    } else {
        j
    };
    assert forall|k: int| 0 <= k < m implies #[trigger] a[k] == c[k] by {
        assert(a[k] == b[k]);
        assert(b[k] == c[k]);
    }
    if i < j {
        assert(b[i] == c[i]);
    } else if j < i {
        assert(a[j] == b[j]);
    }
    assert(splits_at(a, c, m));
}

proof fn lemma_lt_total_from(a: Seq<u8>, b: Seq<u8>, n: int)
    requires
        0 <= n <= a.len(),
        n <= b.len(),
        forall|k: int| 0 <= k < n ==> #[trigger] a[k] == b[k],
    ensures
        a == b || lex_lt(a, b) || lex_lt(b, a),
    decreases a.len() - n,
{
    if n == a.len() {
        if n == b.len() {
            assert(a =~= b);
        } else {
            assert(splits_at(a, b, n));
        }
    } else if n == b.len() {
        assert(splits_at(b, a, n));
    } else if a[n] < b[n] {
        assert(splits_at(a, b, n));
    } else if b[n] < a[n] {
        assert(splits_at(b, a, n));
    } else {
        lemma_lt_total_from(a, b, n + 1);
    }
}

/// Any two keys are equal or ordered.
pub proof fn lemma_lt_total(a: Seq<u8>, b: Seq<u8>)
    ensures
        a == b || lex_lt(a, b) || lex_lt(b, a),
{
    lemma_lt_total_from(a, b, 0);
}

/// At most one of `a < b`, `a == b` and `b < a` holds.
pub proof fn lemma_lt_asymmetric(a: Seq<u8>, b: Seq<u8>)
    requires
        lex_lt(a, b),
    ensures
        a != b,
        !lex_lt(b, a),
{
    lemma_lt_irreflexive(a);
    if lex_lt(b, a) {
        lemma_lt_transitive(a, b, a);
    }
}

/// A key that is not below `b` is `b` or above it.
pub proof fn lemma_not_lt(a: Seq<u8>, b: Seq<u8>)
    ensures
        !lex_lt(a, b) <==> lex_le(b, a),
{
    lemma_lt_total(a, b);
    if lex_lt(a, b) {
        lemma_lt_asymmetric(a, b);
    }
    lemma_lt_irreflexive(a);
}

/// `a <= b < c` puts `a` before `c`.
pub proof fn lemma_le_lt(a: Seq<u8>, b: Seq<u8>, c: Seq<u8>)
    requires
        lex_le(a, b),
        lex_lt(b, c),
    ensures
        lex_lt(a, c),
{
    if a != b {
        lemma_lt_transitive(a, b, c);
    }
}

/// `a < b <= c` puts `a` before `c`.
pub proof fn lemma_lt_le(a: Seq<u8>, b: Seq<u8>, c: Seq<u8>)
    requires
        lex_lt(a, b),
        lex_le(b, c),
    ensures
        lex_lt(a, c),
{
    if b != c {
        lemma_lt_transitive(a, b, c);
    }
}

/// Putting the same bytes in front of two keys does not change how they compare.
pub proof fn lemma_lt_common_prefix(p: Seq<u8>, a: Seq<u8>, b: Seq<u8>)
    ensures
        lex_lt(p + a, p + b) <==> lex_lt(a, b),
{
    let n = p.len() as int;
    if lex_lt(a, b) {
        let i = choose|i: int| splits_at(a, b, i);
        assert(splits_at(a, b, i));
        assert forall|k: int| 0 <= k < n + i implies #[trigger] (p + a)[k] == (p + b)[k] by {
            if k >= n {
                assert(a[k - n] == b[k - n]);
            }
        }
        assert(splits_at(p + a, p + b, n + i));
    }
    if lex_lt(p + a, p + b) {
        let j = choose|j: int| splits_at(p + a, p + b, j);
        assert(splits_at(p + a, p + b, j));
        if j < n {
            assert((p + a)[j] == p[j] && (p + b)[j] == p[j]);
        }
        let i = j - n;
        assert forall|k: int| 0 <= k < i implies #[trigger] a[k] == b[k] by {
            assert((p + a)[k + n] == (p + b)[k + n]);
        }
        if i < a.len() {
            assert((p + a)[j] == a[i]);
            assert((p + b)[j] == b[i]);
        }
        assert(splits_at(a, b, i));
    }
}

/// What extends `p ++ [t]` lies at or above it and below `p ++ [t + 1]`, and nothing else does.
pub proof fn lemma_prefix_range(p: Seq<u8>, t: u8, k: Seq<u8>)
    requires
        t < 255,
    ensures
        has_prefix(k, p.push(t)) <==> !lex_lt(k, p.push(t)) && lex_lt(k, p.push((t + 1) as u8)),
{
    let lo = p.push(t);
    let hi = p.push((t + 1) as u8);
    let n = p.len() as int;
    if has_prefix(k, lo) {
        assert forall|j: int| 0 <= j <= n implies #[trigger] k[j] == lo[j] by {
            assert(k.take(n + 1)[j] == k[j]);
        }
        if lex_lt(k, lo) {
            let i = choose|i: int| splits_at(k, lo, i);
            assert(splits_at(k, lo, i));
            assert(k[i] == lo[i]);
        }
        assert(k[n] == lo[n]);
        assert forall|j: int| 0 <= j < n implies #[trigger] k[j] == hi[j] by {
            assert(k[j] == lo[j]);
        }
        assert(splits_at(k, hi, n));
    }
    if !lex_lt(k, lo) && lex_lt(k, hi) {
        let i = choose|i: int| splits_at(k, hi, i);
        assert(splits_at(k, hi, i));
        if i < n {
            assert forall|j: int| 0 <= j < i implies #[trigger] k[j] == lo[j] by {
                assert(k[j] == hi[j]);
            }
            assert(hi[i] == lo[i]);
            assert(splits_at(k, lo, i));
        } else {
            assert(i == n);
            assert forall|j: int| 0 <= j < n implies #[trigger] k[j] == lo[j] by {
                assert(k[j] == hi[j]);
            }
            if k.len() == n {
                assert(splits_at(k, lo, n));
            } else {
                if k[n] < t {
                    assert(splits_at(k, lo, n));
                }
                assert(k[n] == t);
                assert(k.take(n + 1) =~= lo);
            }
        }
    }
}

/// Whether `a` sorts strictly before `b`.
pub fn bytes_lt(a: &[u8], b: &[u8]) -> (r: bool)
    ensures
        r == lex_lt(a@, b@),
{
    let n: usize = if a.len() <= b.len() {
        a.len()
    } else {
        b.len()
    };
    let mut i: usize = 0;
    while i < n
        invariant
            i <= n,
            n <= a@.len(),
            n <= b@.len(),
            forall|k: int| 0 <= k < i ==> #[trigger] a@[k] == b@[k],
        decreases n - i,
    {
        if a[i] < b[i] {
            assert(splits_at(a@, b@, i as int));
            return true;
        }
        if b[i] < a[i] {
            proof {
                assert(splits_at(b@, a@, i as int));
                lemma_lt_asymmetric(b@, a@);
            }
            return false;
        }
        i += 1;
    }
    proof {
        if a@.len() < b@.len() {
            assert(splits_at(a@, b@, n as int));
        } else if b@.len() < a@.len() {
            assert(splits_at(b@, a@, n as int));
            lemma_lt_asymmetric(b@, a@);
        } else {
            assert(a@ =~= b@);
            lemma_lt_irreflexive(a@);
        }
    }
    a.len() < b.len()
}

/// Whether two byte strings are the same.
pub fn bytes_eq(a: &[u8], b: &[u8]) -> (r: bool)
    ensures
        r == (a@ == b@),
{
    if a.len() != b.len() {
        return false;
    }
    let mut i: usize = 0;
    while i < a.len()
        invariant
            i <= a@.len(),
            a@.len() == b@.len(),
            forall|k: int| 0 <= k < i ==> #[trigger] a@[k] == b@[k],
        decreases a@.len() - i,
    {
        if a[i] != b[i] {
            return false;
        }
        i += 1;
    }
    assert(a@ =~= b@);
    true
}

/// An owned copy.
pub fn to_vec(a: &[u8]) -> (r: Vec<u8>)
    ensures
        r@ == a@,
{
    vstd::slice::slice_to_vec(a)
}

} // verus!
