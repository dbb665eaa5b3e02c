//! What stacks of layers hold, as maps from keys to values, and the order their rows come in.

use vstd::prelude::*;

use crate::layer::Content;
use crate::order::{
    lemma_lt_asymmetric, lemma_lt_irreflexive, lemma_lt_le, lemma_lt_total, lemma_not_lt, lex_le,
    lex_lt,
};

verus! {

/// `k` lies under the upper bound of a scan.
pub open spec fn below(k: Seq<u8>, upper: Option<Seq<u8>>) -> bool {
    match upper {
        Some(u) => lex_lt(k, u),
        None => true,
    }
}

/// The part of `m` at or above `lower` and below `upper`.
pub open spec fn between(m: Content, lower: Seq<u8>, upper: Option<Seq<u8>>) -> Content {
    Map::new(
        |k: Seq<u8>| m.contains_key(k) && !lex_lt(k, lower) && below(k, upper),
        |k: Seq<u8>| m[k],
    )
}

/// `i` is the topmost of the maps that hold `k`.
pub open spec fn first_holder(maps: Seq<Content>, k: Seq<u8>, i: int) -> bool {
    &&& 0 <= i < maps.len()
    &&& maps[i].contains_key(k)
    &&& forall|j: int| 0 <= j < i ==> !(#[trigger] maps[j]).contains_key(k)
}

/// The maps laid over each other, the first on top: a key that several hold has the value of
/// the topmost.
pub open spec fn overlay(maps: Seq<Content>) -> Content {
    Map::new(
        |k: Seq<u8>| exists|i: int| first_holder(maps, k, i),
        |k: Seq<u8>| maps[choose|i: int| first_holder(maps, k, i)][k],
    )
}

/// `k` is the first key of `m`.
pub open spec fn is_least(m: Content, k: Seq<u8>) -> bool {
    &&& m.contains_key(k)
    &&& forall|j: Seq<u8>| #[trigger] m.contains_key(j) ==> lex_le(k, j)
}

/// The rows of `m` in key order.
pub open spec fn ascending(m: Content) -> Seq<(Seq<u8>, Seq<u8>)>
    decreases m.dom().len(),
    when m.dom().finite()
{
    if m.dom().len() == 0 {
        Seq::empty()
    } else {
        let k = choose|k: Seq<u8>| is_least(m, k);
        proof {
            lemma_least_exists(m);
        }
        seq![(k, m[k])] + ascending(m.remove(k))
    }
}

/// A map with finitely many keys, and at least one, has a first key.
pub proof fn lemma_least_exists(m: Content)
    requires
        m.dom().finite(),
        m.dom().len() > 0,
    ensures
        exists|k: Seq<u8>| is_least(m, k),
    decreases m.dom().len(),
{
    let a = m.dom().choose();
    let rest = m.remove(a);
    assert(m.dom().contains(a));
    if rest.dom().len() == 0 {
        assert(is_least(m, a)) by {
            assert forall|j: Seq<u8>| #[trigger] m.contains_key(j) implies lex_le(a, j) by {
                if j != a {
                    assert(rest.dom().contains(j));
                }
            }
        }
    } else {
        lemma_least_exists(rest);
        let b = choose|k: Seq<u8>| is_least(rest, k);
        lemma_lt_total(a, b);
        if lex_lt(a, b) {
            assert forall|j: Seq<u8>| #[trigger] m.contains_key(j) implies lex_le(a, j) by {
                if j != a {
                    assert(rest.contains_key(j));
                    lemma_lt_le(a, b, j);
                }
            }
            assert(is_least(m, a));
        } else {
            assert(rest.contains_key(b));
            assert forall|j: Seq<u8>| #[trigger] m.contains_key(j) implies lex_le(b, j) by {
                if j != a {
                    assert(rest.contains_key(j));
                }
            }
            assert(is_least(m, b));
        }
    }
}

/// A map has at most one first key.
pub proof fn lemma_least_unique(m: Content, a: Seq<u8>, b: Seq<u8>)
    requires
        is_least(m, a),
        is_least(m, b),
    ensures
        a == b,
{
    if a != b {
        lemma_lt_asymmetric(a, b);
    }
}

/// The rows in order are the first row and then the rest in order.
pub proof fn lemma_ascending_step(m: Content, k: Seq<u8>)
    requires
        m.dom().finite(),
        is_least(m, k),
    ensures
        ascending(m) == seq![(k, m[k])] + ascending(m.remove(k)),
        m.dom().len() > 0,
{
    assert(m.dom().contains(k));
    if m.dom().len() == 0 {
        assert(m.dom() =~= Set::empty());
    }
    let c = choose|c: Seq<u8>| is_least(m, c);
    lemma_least_unique(m, k, c);
}

/// An empty map has no rows.
pub proof fn lemma_ascending_empty(m: Content)
    requires
        m.dom() == Set::<Seq<u8>>::empty(),
    ensures
        m.dom().finite(),
        ascending(m) == Seq::<(Seq<u8>, Seq<u8>)>::empty(),
{
}

/// The rows come in key order, and they are exactly what the map holds.
pub proof fn lemma_ascending(m: Content)
    requires
        m.dom().finite(),
    ensures
        forall|i: int, j: int|
            0 <= i < j < ascending(m).len() ==> lex_lt(
                (#[trigger] ascending(m)[i]).0,
                (#[trigger] ascending(m)[j]).0,
            ),
        forall|i: int|
            0 <= i < ascending(m).len() ==> m.contains_key((#[trigger] ascending(m)[i]).0)
                && m[ascending(m)[i].0] == ascending(m)[i].1,
        forall|k: Seq<u8>| #[trigger]
            m.contains_key(k) ==> exists|i: int|
                0 <= i < ascending(m).len() && (#[trigger] ascending(m)[i]).0 == k,
    decreases m.dom().len(),
{
    let s = ascending(m);
    if m.dom().len() == 0 {
        assert(m.dom() =~= Set::empty());
    } else {
        lemma_least_exists(m);
        let k = choose|k: Seq<u8>| is_least(m, k);
        let rest = m.remove(k);
        lemma_ascending(rest);
        let t = ascending(rest);
        assert(s == seq![(k, m[k])] + t);
        assert forall|i: int, j: int| 0 <= i < j < s.len() implies lex_lt(
            (#[trigger] s[i]).0,
            (#[trigger] s[j]).0,
        ) by {
            assert(s[j] == t[j - 1]);
            if i == 0 {
                assert(rest.contains_key(t[j - 1].0));
                assert(m.contains_key(t[j - 1].0));
            } else {
                assert(s[i] == t[i - 1]);
            }
        }
        assert forall|i: int| 0 <= i < s.len() implies m.contains_key((#[trigger] s[i]).0)
            && m[s[i].0] == s[i].1 by {
            if i > 0 {
                assert(s[i] == t[i - 1]);
                assert(rest.contains_key(t[i - 1].0));
            }
        }
        assert forall|j: Seq<u8>| #[trigger] m.contains_key(j) implies exists|i: int|
            0 <= i < s.len() && (#[trigger] s[i]).0 == j by {
            if j == k {
                assert(s[0].0 == j);
            } else {
                assert(rest.contains_key(j));
                let i = choose|i: int| 0 <= i < t.len() && (#[trigger] t[i]).0 == j;
                assert(s[i + 1] == t[i]);
            }
        }
    }
}

/// A key that some map holds has a topmost holder.
pub proof fn lemma_first_holder_exists(maps: Seq<Content>, k: Seq<u8>, i: int)
    requires
        0 <= i < maps.len(),
        maps[i].contains_key(k),
    ensures
        exists|j: int| first_holder(maps, k, j) && j <= i,
    decreases i,
{
    if exists|j: int| 0 <= j < i && (#[trigger] maps[j]).contains_key(k) {
        let j = choose|j: int| 0 <= j < i && (#[trigger] maps[j]).contains_key(k);
        lemma_first_holder_exists(maps, k, j);
        let h = choose|h: int| first_holder(maps, k, h) && h <= j;
        assert(first_holder(maps, k, h) && h <= i);
    } else {
        assert(first_holder(maps, k, i));
    }
}

/// The value of a key in an overlay is its value in the topmost holder.
pub proof fn lemma_overlay_value(maps: Seq<Content>, k: Seq<u8>, i: int)
    requires
        first_holder(maps, k, i),
    ensures
        overlay(maps).contains_key(k),
        overlay(maps)[k] == maps[i][k],
{
    let c = choose|c: int| first_holder(maps, k, c);
    assert(first_holder(maps, k, c));
    if c < i {
        assert(!maps[c].contains_key(k));
    } else if i < c {
        assert(!maps[i].contains_key(k));
    }
}

/// An overlay holds exactly the keys that some map holds.
pub proof fn lemma_overlay_keys(maps: Seq<Content>)
    ensures
        forall|k: Seq<u8>, i: int|
            0 <= i < maps.len() && (#[trigger] maps[i]).contains_key(k) ==> #[trigger] overlay(
                maps,
            ).contains_key(k),
        forall|k: Seq<u8>| #[trigger]
            overlay(maps).contains_key(k) ==> exists|i: int|
                0 <= i < maps.len() && (#[trigger] maps[i]).contains_key(k),
{
    assert forall|k: Seq<u8>, i: int|
        0 <= i < maps.len() && (#[trigger] maps[i]).contains_key(k) implies #[trigger] overlay(
        maps,
    ).contains_key(k) by {
        lemma_first_holder_exists(maps, k, i);
    }
    assert forall|k: Seq<u8>| #[trigger] overlay(maps).contains_key(k) implies exists|i: int|
        0 <= i < maps.len() && (#[trigger] maps[i]).contains_key(k) by {
        let i = choose|i: int| first_holder(maps, k, i);
        assert(maps[i].contains_key(k));
    }
}

/// Finite maps have a finite overlay.
pub proof fn lemma_overlay_finite(maps: Seq<Content>)
    requires
        forall|i: int| 0 <= i < maps.len() ==> (#[trigger] maps[i]).dom().finite(),
    ensures
        overlay(maps).dom().finite(),
    decreases maps.len(),
{
    lemma_overlay_keys(maps);
    if maps.len() == 0 {
        assert(overlay(maps).dom() =~= Set::empty());
    } else {
        let front = maps.drop_last();
        lemma_overlay_finite(front);
        lemma_overlay_keys(front);
        let n = maps.len() - 1;
        assert(overlay(maps).dom() =~= overlay(front).dom().union(maps[n].dom())) by {
            assert forall|k: Seq<u8>| overlay(maps).dom().contains(k) implies overlay(
                front,
            ).dom().union(maps[n].dom()).contains(k) by {
                assert(overlay(maps).contains_key(k));
                let i = choose|i: int| 0 <= i < maps.len() && (#[trigger] maps[i]).contains_key(k);
                if i < n {
                    assert(front[i].contains_key(k));
                    assert(overlay(front).contains_key(k));
                }
            }
            assert forall|k: Seq<u8>|
                overlay(front).dom().union(maps[n].dom()).contains(k) implies overlay(
                maps,
            ).dom().contains(k) by {
                if overlay(front).contains_key(k) {
                    let i = choose|i: int|
                        0 <= i < front.len() && (#[trigger] front[i]).contains_key(k);
                    assert(maps[i].contains_key(k));
                } else {
                    assert(maps[n].contains_key(k));
                }
                assert(overlay(maps).contains_key(k));
            }
        }
    }
}

/// Cutting each map to a range cuts the overlay to it.
pub proof fn lemma_overlay_between(
    maps: Seq<Content>,
    cut: Seq<Content>,
    lower: Seq<u8>,
    upper: Option<Seq<u8>>,
)
    requires
        cut.len() == maps.len(),
        forall|i: int|
            0 <= i < maps.len() ==> #[trigger] cut[i] == between(maps[i], lower, upper),
    ensures
        overlay(cut) == between(overlay(maps), lower, upper),
{
    let a = overlay(cut);
    let b = between(overlay(maps), lower, upper);
    assert forall|k: Seq<u8>| #[trigger] a.dom().contains(k) implies b.dom().contains(k) && a[k]
        == b[k] by {
        let i = choose|i: int| first_holder(cut, k, i);
        lemma_overlay_value(cut, k, i);
        assert(cut[i].contains_key(k));
        assert forall|j: int| 0 <= j < i implies !(#[trigger] maps[j]).contains_key(k) by {
            assert(!cut[j].contains_key(k));
        }
        assert(first_holder(maps, k, i));
        lemma_overlay_value(maps, k, i);
    }
    assert forall|k: Seq<u8>| #[trigger] b.dom().contains(k) implies a.dom().contains(k) by {
        assert(overlay(maps).contains_key(k));
        let i = choose|i: int| first_holder(maps, k, i);
        assert(cut[i].contains_key(k));
        lemma_first_holder_exists(cut, k, i);
    }
    assert(a.dom() =~= b.dom());
    assert(a =~= b);
}

/// Removing a key from each map removes it from the overlay.
pub proof fn lemma_overlay_remove(maps: Seq<Content>, cut: Seq<Content>, key: Seq<u8>)
    requires
        cut.len() == maps.len(),
        forall|i: int| 0 <= i < maps.len() ==> #[trigger] cut[i] == maps[i].remove(key),
    ensures
        overlay(cut) == overlay(maps).remove(key),
{
    let a = overlay(cut);
    let b = overlay(maps).remove(key);
    assert forall|k: Seq<u8>| #[trigger] a.dom().contains(k) implies b.dom().contains(k) && a[k]
        == b[k] by {
        let i = choose|i: int| first_holder(cut, k, i);
        lemma_overlay_value(cut, k, i);
        assert(cut[i].contains_key(k));
        assert forall|j: int| 0 <= j < i implies !(#[trigger] maps[j]).contains_key(k) by {
            assert(!cut[j].contains_key(k));
        }
        assert(first_holder(maps, k, i));
        lemma_overlay_value(maps, k, i);
    }
    assert forall|k: Seq<u8>| #[trigger] b.dom().contains(k) implies a.dom().contains(k) by {
        assert(overlay(maps).contains_key(k));
        let i = choose|i: int| first_holder(maps, k, i);
        assert(cut[i].contains_key(k));
        lemma_first_holder_exists(cut, k, i);
    }
    assert(a.dom() =~= b.dom());
    assert(a =~= b);
}

/// Cutting a range out of a finite map leaves a finite map.
pub proof fn lemma_between_finite(m: Content, lower: Seq<u8>, upper: Option<Seq<u8>>)
    requires
        m.dom().finite(),
    ensures
        between(m, lower, upper).dom().finite(),
{
    assert(between(m, lower, upper).dom().subset_of(m.dom()));
    vstd::set_lib::lemma_set_subset_finite(m.dom(), between(m, lower, upper).dom());
}

/// Rows in key order that are exactly what the map holds are the map's rows in order.
pub proof fn lemma_ascending_unique(m: Content, s: Seq<(Seq<u8>, Seq<u8>)>)
    requires
        m.dom().finite(),
        forall|i: int, j: int|
            0 <= i < j < s.len() ==> lex_lt((#[trigger] s[i]).0, (#[trigger] s[j]).0),
        forall|i: int|
            0 <= i < s.len() ==> m.contains_key((#[trigger] s[i]).0) && m[s[i].0] == s[i].1,
        forall|k: Seq<u8>| #[trigger]
            m.contains_key(k) ==> exists|i: int| 0 <= i < s.len() && (#[trigger] s[i]).0 == k,
    ensures
        s == ascending(m),
    decreases s.len(),
{
    if s.len() == 0 {
        assert forall|k: Seq<u8>| !m.dom().contains(k) by {
            if m.dom().contains(k) {
                assert(m.contains_key(k));
            }
        }
        assert(m.dom() =~= Set::empty());
        assert(s =~= ascending(m));
    } else {
        let k = s[0].0;
        assert(is_least(m, k)) by {
            assert forall|j: Seq<u8>| #[trigger] m.contains_key(j) implies lex_le(k, j) by {
                let i = choose|i: int| 0 <= i < s.len() && (#[trigger] s[i]).0 == j;
                if i > 0 {
                    assert(lex_lt(s[0].0, s[i].0));
                }
            }
        }
        lemma_ascending_step(m, k);
        let rest = m.remove(k);
        let t = s.drop_first();
        assert forall|i: int| 0 <= i < t.len() implies rest.contains_key((#[trigger] t[i]).0)
            && rest[t[i].0] == t[i].1 by {
            assert(t[i] == s[i + 1]);
            assert(lex_lt(s[0].0, s[i + 1].0));
            lemma_lt_irreflexive(k);
        }
        assert forall|j: Seq<u8>| #[trigger] rest.contains_key(j) implies exists|i: int|
            0 <= i < t.len() && (#[trigger] t[i]).0 == j by {
            assert(m.contains_key(j));
            let i = choose|i: int| 0 <= i < s.len() && (#[trigger] s[i]).0 == j;
            assert(t[i - 1] == s[i]);
        }
        lemma_ascending_unique(rest, t);
        assert(s =~= seq![(k, m[k])] + ascending(rest));
    }
}

/// The rows from some row on are those of the part of the map from a key on.
pub proof fn lemma_ascending_skip(
    m: Content,
    lower: Seq<u8>,
    upper: Option<Seq<u8>>,
    from: Seq<u8>,
    p: int,
)
    requires
        m.dom().finite(),
        lex_le(lower, from),
        0 <= p <= ascending(between(m, lower, upper)).len(),
        forall|r: int|
            0 <= r < p ==> lex_lt((#[trigger] ascending(between(m, lower, upper))[r]).0, from),
        forall|r: int|
            p <= r < ascending(between(m, lower, upper)).len() ==> !lex_lt(
                (#[trigger] ascending(between(m, lower, upper))[r]).0,
                from,
            ),
    ensures
        ascending(between(m, lower, upper)).skip(p) == ascending(between(m, from, upper)),
{
    let whole = between(m, lower, upper);
    let part = between(m, from, upper);
    let rows = ascending(whole);
    let tail = rows.skip(p);
    lemma_between_finite(m, lower, upper);
    lemma_between_finite(m, from, upper);
    lemma_ascending(whole);
    assert forall|i: int, j: int| 0 <= i < j < tail.len() implies lex_lt(
        (#[trigger] tail[i]).0,
        (#[trigger] tail[j]).0,
    ) by {
        assert(tail[i] == rows[i + p] && tail[j] == rows[j + p]);
    }
    assert forall|i: int| 0 <= i < tail.len() implies part.contains_key((#[trigger] tail[i]).0)
        && part[tail[i].0] == tail[i].1 by {
        assert(tail[i] == rows[i + p]);
        assert(whole.contains_key(rows[i + p].0));
    }
    assert forall|k: Seq<u8>| #[trigger] part.contains_key(k) implies exists|i: int|
        0 <= i < tail.len() && (#[trigger] tail[i]).0 == k by {
        lemma_not_lt(k, from);
        lemma_not_lt(k, lower);
        if lex_lt(k, lower) {
            lemma_lt_le(k, lower, from);
        }
        assert(whole.contains_key(k));
        let r = choose|r: int| 0 <= r < rows.len() && (#[trigger] rows[r]).0 == k;
        assert(r >= p);
        assert(tail[r - p] == rows[r]);
    }
    lemma_ascending_unique(part, tail);
}

} // verus!
