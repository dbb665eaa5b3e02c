//! What a refused flatten says.

use vstd::prelude::*;

use crate::scan::{Failure, ScanError};

verus! {

/// How many collisions an error names.
pub const SHOWN: usize = 5;

/// A decimal digit.
pub open spec fn digit(d: nat) -> char {
    seq!['0', '1', '2', '3', '4', '5', '6', '7', '8', '9'][d as int]
}

/// A number in decimal digits, without leading zeros.
pub open spec fn digits(n: nat) -> Seq<char>
    decreases n,
{
    if n < 10 {
        seq![digit(n)]
    } else {
        digits(n / 10).push(digit(n % 10))
    }
}

fn digit_str(d: usize) -> (s: &'static str)
    requires
        d < 10,
    ensures
        s@ == seq![digit(d as nat)],
{
    proof {
        reveal_strlit("0");
        reveal_strlit("1");
        reveal_strlit("2");
        reveal_strlit("3");
        reveal_strlit("4");
        reveal_strlit("5");
        reveal_strlit("6");
        reveal_strlit("7");
        reveal_strlit("8");
        reveal_strlit("9");
    }
    let s: &'static str = match d {
        0 => "0",
        1 => "1",
        2 => "2",
        3 => "3",
        4 => "4",
        5 => "5",
        6 => "6",
        7 => "7",
        8 => "8",
        _ => "9",
    };
    assert(s@ =~= seq![digit(d as nat)]);
    s
}

/// A number in decimal digits.
pub fn decimal(n: usize) -> (s: String)
    ensures
        s@ == digits(n as nat),
    decreases n,
{
    if n < 10 {
        digit_str(n).to_owned()
    } else {
        let mut s = decimal(n / 10);
        s.append(digit_str(n % 10));
        assert(s@ =~= digits(n as nat));
        s
    }
}

/// A collision in readable form: its key and its two values, decoded and written out.
#[derive(Clone, Debug, PartialEq, Eq)]
pub struct RenderedConflict {
    pub relation: String,
    pub key: String,
    pub existing: String,
    pub incoming: String,
}

/// The line that names a collision.
pub open spec fn conflict_line(c: RenderedConflict) -> Seq<char> {
    "\n  "@ + c.relation@ + " "@ + c.key@ + ": destination "@ + c.existing@ + ", view "@
        + c.incoming@
}

/// The lines that name the first `n` collisions.
pub open spec fn conflict_lines(cs: Seq<RenderedConflict>, n: int) -> Seq<char>
    decreases n,
{
    if n <= 0 {
        Seq::empty()
    } else {
        conflict_lines(cs, n - 1) + conflict_line(cs[n - 1])
    }
}

/// What an aborted flatten says: how many keys collide, the first few of them, and how many more
/// there are.
pub open spec fn description(cs: Seq<RenderedConflict>) -> Seq<char> {
    let shown = if cs.len() > SHOWN {
        SHOWN as int
    } else {
        cs.len() as int
    };
    let head = "flatten aborted: "@ + digits(cs.len())
        + " key(s) collide — the destination already holds a different value under a key the view asserts"@;
    let named = head + conflict_lines(cs, shown);
    if cs.len() > SHOWN {
        named + "\n  ... and "@ + digits((cs.len() - SHOWN) as nat)
            + " more; `flatten_plan` reports every one"@
    } else {
        named
    }
}

/// Names every collision in an error, capped so that a merge of a large divergent branch does
/// not produce an unreadable message. The full list is what a plan is for.
pub fn describe_conflicts(conflicts: &[RenderedConflict]) -> (msg: String)
    ensures
        msg@ == description(conflicts@),
{
    let total: usize = conflicts.len();
    let mut msg = "flatten aborted: ".to_owned();
    msg.append(decimal(total).as_str());
    msg.append(
        " key(s) collide — the destination already holds a different value under a key the view asserts",
    );
    let ghost head = msg@;
    let shown: usize = if total > SHOWN {
        SHOWN
    } else {
        total
    };
    let mut i: usize = 0;
    assert(head + conflict_lines(conflicts@, 0) =~= head);
    while i < shown
        invariant
            i <= shown,
            shown <= conflicts@.len(),
            msg@ == head + conflict_lines(conflicts@, i as int),
        decreases shown - i,
    {
        let c = &conflicts[i];
        let ghost before = msg@;
        msg.append("\n  ");
        msg.append(c.relation.as_str());
        msg.append(" ");
        msg.append(c.key.as_str());
        msg.append(": destination ");
        msg.append(c.existing.as_str());
        msg.append(", view ");
        msg.append(c.incoming.as_str());
        assert(msg@ =~= before + conflict_line(conflicts@[i as int]));
        assert(msg@ =~= head + conflict_lines(conflicts@, i + 1));
        i += 1;
    }
    if total > SHOWN {
        msg.append("\n  ... and ");
        msg.append(decimal(total - SHOWN).as_str());
        msg.append(" more; `flatten_plan` reports every one");
    }
    msg
}

/// What a scan that cannot go on says.
pub open spec fn failure_text(f: Failure) -> Seq<char> {
    match f {
        Failure::Plain { relation } => "cannot flatten: relation '"@ + relation
            + "' has no validity column, and the source layer holds rows for it"@,
        Failure::Unversioned { relation } => "relation '"@ + relation
            + "' has no validity but holds rows in a view being flattened; a relation without one cannot express a cross-layer retraction"@,
    }
}

impl ScanError {
    /// What went wrong, in words.
    pub fn message(&self) -> (msg: String)
        ensures
            msg@ == failure_text(self@),
    {
        match self {
            ScanError::Plain { relation } => {
                let mut msg = "cannot flatten: relation '".to_owned();
                msg.append(relation.as_str());
                msg.append("' has no validity column, and the source layer holds rows for it");
                msg
            },
            ScanError::Unversioned { relation } => {
                let mut msg = "relation '".to_owned();
                msg.append(relation.as_str());
                msg.append(
                    "' has no validity but holds rows in a view being flattened; a relation without one cannot express a cross-layer retraction",
                );
                msg
            },
        }
    }
}

/// What a flatten says of a layer that is on both sides of it.
pub fn clash_message(layer: &str) -> (msg: String)
    ensures
        msg@ == "cannot flatten: layer '"@ + layer@
            + "' is both the source of this flatten and the destination's top layer"@,
{
    let mut msg = "cannot flatten: layer '".to_owned();
    msg.append(layer);
    msg.append("' is both the source of this flatten and the destination's top layer");
    msg
}

} // verus!
