//! What messages say.

use vstd::prelude::*;

use crate::report::{
    conflict_line, conflict_lines, description, digit, digits, failure_text, RenderedConflict,
};
use crate::scan::Failure;

verus! {

/// A number in decimal is made of digits, reads as the number, and has no zero in front.
pub proof fn law_decimal_digits_read_as_the_number(n: nat)
    ensures
        digits(n).len() > 0,
        forall|i: int| 0 <= i < digits(n).len() ==> '0' <= #[trigger] digits(n)[i] <= '9',
        digits(n).fold_left(0int, |a: int, c: char| 10 * a + (c as int - '0' as int)) == n,
        digits(n).len() > 1 ==> digits(n)[0] != '0',
    decreases n,
{
    reveal_with_fuel(Seq::fold_left, 2);
    let f = |a: int, c: char| 10 * a + (c as int - '0' as int);
    if n < 10 {
        lemma_digit(n);
        assert(digits(n).drop_last() =~= Seq::<char>::empty());
        assert(Seq::<char>::empty().fold_left(0int, f) == 0);
    } else {
        law_decimal_digits_read_as_the_number(n / 10);
        lemma_digit(n % 10);
        assert(digits(n).drop_last() =~= digits(n / 10));
        if digits(n / 10).len() == 1 {
            lemma_one_digit(n / 10);
        }
    }
}

proof fn lemma_digit(d: nat)
    requires
        d < 10,
    ensures
        digit(d) as int == '0' as int + d,
{
}

/// A number of one digit is below ten.
proof fn lemma_one_digit(n: nat)
    requires
        digits(n).len() == 1,
    ensures
        n < 10,
        n > 0 ==> digits(n)[0] != '0',
{
    if n >= 10 {
        lemma_some_digits(n / 10);
    } else {
        lemma_digit(n);
    }
}

proof fn lemma_some_digits(n: nat)
    ensures
        digits(n).len() > 0,
    decreases n,
{
    if n >= 10 {
        lemma_some_digits(n / 10);
    }
}

/// The message of a refused flatten says how many keys collide, names the first five of them or all
/// if there are no more, each by relation, key and both values on a line of its own, in order, and
/// says how many it leaves out.
pub proof fn law_a_refusal_names_the_first_few_collisions(cs: Seq<RenderedConflict>)
    ensures
        ({
            let lines = cs.take(
                if cs.len() < 5 {
                    cs.len() as int
                } else {
                    5int
                },
            ).map_values(
                |c: RenderedConflict|
                    "\n  "@ + c.relation@ + " "@ + c.key@ + ": destination "@ + c.existing@
                        + ", view "@ + c.incoming@,
            );
            description(cs) == "flatten aborted: "@ + digits(cs.len())
                + " key(s) collide — the destination already holds a different value under a key the view asserts"@
                + lines.fold_left(Seq::<char>::empty(), |a: Seq<char>, l: Seq<char>| a + l) + if cs.len()
                > 5 {
                "\n  ... and "@ + digits((cs.len() - 5) as nat)
                    + " more; `flatten_plan` reports every one"@
            } else {
                Seq::<char>::empty()
            }
        }),
{
    let n = if cs.len() < 5 {
        cs.len() as int
    } else {
        5int
    };
    lemma_lines(cs, n);
    let lines = cs.take(n).map_values(
        |c: RenderedConflict|
            "\n  "@ + c.relation@ + " "@ + c.key@ + ": destination "@ + c.existing@ + ", view "@
                + c.incoming@,
    );
    let text = "flatten aborted: "@ + digits(cs.len())
        + " key(s) collide — the destination already holds a different value under a key the view asserts"@
        + lines.fold_left(Seq::<char>::empty(), |a: Seq<char>, l: Seq<char>| a + l);
    if cs.len() > 5 {
        assert(description(cs) =~= text + ("\n  ... and "@ + digits((cs.len() - 5) as nat)
            + " more; `flatten_plan` reports every one"@));
    } else {
        assert(description(cs) =~= text + Seq::<char>::empty());
    }
}

proof fn lemma_lines(cs: Seq<RenderedConflict>, n: int)
    requires
        0 <= n <= cs.len(),
    ensures
        conflict_lines(cs, n) == cs.take(n).map_values(
            |c: RenderedConflict|
                "\n  "@ + c.relation@ + " "@ + c.key@ + ": destination "@ + c.existing@ + ", view "@
                    + c.incoming@,
        ).fold_left(Seq::<char>::empty(), |a: Seq<char>, l: Seq<char>| a + l),
    decreases n,
{
    reveal_with_fuel(Seq::fold_left, 2);
    let f = |c: RenderedConflict|
        "\n  "@ + c.relation@ + " "@ + c.key@ + ": destination "@ + c.existing@ + ", view "@
            + c.incoming@;
    let lines = cs.take(n).map_values(f);
    if n > 0 {
        lemma_lines(cs, n - 1);
        assert(lines.drop_last() =~= cs.take(n - 1).map_values(f));
        assert(lines.last() == conflict_line(cs[n - 1]));
    } else {
        assert(lines =~= Seq::<Seq<char>>::empty());
    }
}

/// The message of a scan that cannot go on names the relation that it failed at, and says whether
/// its rows would be left behind or one of them has no validity.
pub proof fn law_a_failed_scan_names_the_relation(relation: Seq<char>)
    ensures
        failure_text(Failure::Plain { relation }) == "cannot flatten: relation '"@ + relation
            + "' has no validity column, and the source layer holds rows for it"@,
        failure_text(Failure::Unversioned { relation }) == "relation '"@ + relation
            + "' has no validity but holds rows in a view being flattened; a relation without one cannot express a cross-layer retraction"@,
{
}

} // verus!
