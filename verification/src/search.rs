//! Query analysis: turning a parsed search expression into trigram
//! operations.
//!
//! A query expression mirrors what the regular-expression front end hands
//! over: groups, repeats, concatenations, alternations and literals.  The
//! analysis maps it onto a boolean combination of trigram lookups.  A
//! case-insensitive literal cannot be expressed in the trigram alphabet
//! and is rejected rather than silently degraded, as is any construct the
//! alphabet has no reading for.

use vstd::prelude::*;
use vstd::string::StrSliceExecFns;
use vstd::string::StringExecFns;

use crate::tri::{explain_packed, spec_tri_seq, trigrams_full, MAX_TRI};
use crate::Error;

verus! {

/// A boolean combination of trigram lookups.
#[derive(PartialEq, Eq, Hash, Debug)]
pub enum Op {
    And(Vec<Op>),
    Or(Vec<Op>),
    Any,
    Lit(u32),
}

/// A parsed search expression, as the regular-expression front end shapes
/// it: the analysis reads nothing else of the query.
pub enum Query {
    /// A parenthesised group.
    Group(Box<Query>),
    /// A repetition; `min_zero` says whether zero repetitions match.
    Repeat { min_zero: bool, inner: Box<Query> },
    /// A concatenation of sub-expressions.
    Concat(Vec<Query>),
    /// A set of alternatives.
    Alternate(Vec<Query>),
    /// A literal string, possibly marked case-insensitive.
    Literal { lit: String, casei: bool },
    /// Anything the front end can parse but this analysis has no reading
    /// for.
    Other,
}

/// The query holds a construct the trigram alphabet cannot express: a
/// case-insensitive literal, or a construct with no reading.
pub open spec fn spec_unsupported(q: Query) -> bool
    decreases q,
{
    match q {
        Query::Group(inner) => spec_unsupported(*inner),
        Query::Repeat { min_zero, inner } => !min_zero && spec_unsupported(*inner),
        Query::Concat(v) => exists|i: int| 0 <= i < v@.len() && spec_unsupported(#[trigger] v@[i]),
        Query::Alternate(v) => exists|i: int|
            0 <= i < v@.len() && spec_unsupported(#[trigger] v@[i]),
        Query::Literal { lit, casei } => casei,
        Query::Other => true,
    }
}

/// The operation `analyze` owes for a supported query: groups are
/// transparent, a repetition admitting zero occurrences matches anything
/// while any other repetition reads its body, a concatenation is the
/// conjunction of its parts' operations, an alternation the disjunction,
/// and a case-sensitive literal the conjunction of one lookup per code of
/// its trigram set, in ascending order.
pub open spec fn spec_op_of(q: Query, op: Op) -> bool
    decreases q,
{
    match q {
        Query::Group(inner) => spec_op_of(*inner, op),
        Query::Repeat { min_zero, inner } => if min_zero {
            op == Op::Any
        } else {
            spec_op_of(*inner, op)
        },
        Query::Concat(v) => (op matches Op::And(parts) && parts@.len() == v@.len() && (forall|
            i: int|
            0 <= i < v@.len() ==> spec_op_of(#[trigger] v@[i], parts@[i]))),
        Query::Alternate(v) => (op matches Op::Or(parts) && parts@.len() == v@.len() && (forall|
            i: int|
            0 <= i < v@.len() ==> spec_op_of(#[trigger] v@[i], parts@[i]))),
        Query::Literal { lit, casei } => {
            let codes = spec_tri_seq(vstd::utf8::encode_utf8(lit@));
            !casei && (op matches Op::And(parts) && parts@.len() == codes.len() && (forall|i: int|
                0 <= i < codes.len() ==> #[trigger] parts@[i] == Op::Lit(codes[i])))
        },
        Query::Other => false,
    }
}

/// Maps a query onto trigram operations: groups unwrap, a repetition that
/// admits zero occurrences matches anything, concatenations become
/// conjunctions, alternations disjunctions, and a case-sensitive literal
/// the conjunction of its trigrams.  Fails exactly on the constructs the
/// alphabet cannot express.
pub fn analyze(e: &Query) -> (r: Result<Op, Error>)
    ensures
        r is Ok <==> !spec_unsupported(*e),
        r matches Ok(op) ==> spec_op_of(*e, op),
        r matches Err(err) ==> err == Error::Unsupported,
    decreases *e,
{
    match e {
        Query::Group(inner) => analyze(inner),
        Query::Repeat { min_zero, inner } => {
            if *min_zero {
                Ok(Op::Any)
            } else {
                analyze(inner)
            }
        },
        Query::Concat(exprs) => {
            let mut parts: Vec<Op> = Vec::new();
            let mut i: usize = 0;
            while i < exprs.len()
                invariant
                    *e matches Query::Concat(v) && v == *exprs,
                    i <= exprs@.len(),
                    parts@.len() == i,
                    forall|j: int| 0 <= j < i ==> !spec_unsupported(#[trigger] exprs@[j]),
                    forall|j: int| 0 <= j < i ==> spec_op_of(#[trigger] exprs@[j], parts@[j]),
                decreases exprs@.len() - i,
            {
                proof {
                    assert(decreases_to!(*e => *exprs));
                    assert(decreases_to!(*exprs => exprs@[i as int]));
                    assert(decreases_to!(*e => exprs@[i as int]));
                }
                match analyze(&exprs[i]) {
                    Ok(op) => {
                        parts.push(op);
                    },
                    Err(err) => {
                        return Err(err);
                    },
                }
                i = i + 1;
            }
            Ok(Op::And(parts))
        },
        Query::Alternate(exprs) => {
            let mut parts: Vec<Op> = Vec::new();
            let mut i: usize = 0;
            while i < exprs.len()
                invariant
                    *e matches Query::Alternate(v) && v == *exprs,
                    i <= exprs@.len(),
                    parts@.len() == i,
                    forall|j: int| 0 <= j < i ==> !spec_unsupported(#[trigger] exprs@[j]),
                    forall|j: int| 0 <= j < i ==> spec_op_of(#[trigger] exprs@[j], parts@[j]),
                decreases exprs@.len() - i,
            {
                proof {
                    assert(decreases_to!(*e => *exprs));
                    assert(decreases_to!(*exprs => exprs@[i as int]));
                    assert(decreases_to!(*e => exprs@[i as int]));
                }
                match analyze(&exprs[i]) {
                    Ok(op) => {
                        parts.push(op);
                    },
                    Err(err) => {
                        return Err(err);
                    },
                }
                i = i + 1;
            }
            Ok(Op::Or(parts))
        },
        Query::Literal { lit, casei } => {
            if *casei {
                Err(Error::Unsupported)
            } else {
                let grams: Vec<u32> = trigrams_full(lit.as_str().as_bytes());
                let mut parts: Vec<Op> = Vec::new();
                let mut i: usize = 0;
                while i < grams.len()
                    invariant
                        grams@ == spec_tri_seq(vstd::utf8::encode_utf8(lit@)),
                        i <= grams@.len(),
                        parts@.len() == i,
                        forall|j: int| 0 <= j < i ==> #[trigger] parts@[j] == Op::Lit(grams@[j]),
                    decreases grams@.len() - i,
                {
                    parts.push(Op::Lit(grams[i]));
                    i = i + 1;
                }
                Ok(Op::And(parts))
            }
        },
        Query::Other => Err(Error::Unsupported),
    }
}

/// Spells out a list of operations, one per word, separated by spaces.
pub fn render_grams_in(vec: &Vec<Op>) -> (r: String)
    decreases vec@.len(),
{
    let mut ret = String::new();
    let mut i: usize = 0;
    while i < vec.len()
        invariant
            i <= vec@.len(),
        decreases vec@.len() - i,
    {
        proof {
            assert(decreases_to!(vec@ => vec@[i as int]));
        }
        let piece = render_op(&vec[i]);
        ret.append(piece.as_str());
        if i + 1 < vec.len() {
            ret.append(" ");
        }
        i = i + 1;
    }
    ret
}

/// Spells out one operation for diagnostics: a trigram prints its three
/// symbols, a conjunction or disjunction its members.
pub fn render_op(op: &Op) -> (r: String)
    decreases *op,
{
    match op {
        Op::Lit(tri) => {
            if *tri < MAX_TRI {
                explain_packed(*tri as usize)
            } else {
                String::from_str("???")
            }
        },
        Op::And(v) => {
            let mut r = String::from_str("and(");
            let inner = render_grams_in_from(v);
            r.append(inner.as_str());
            r.append(")");
            r
        },
        Op::Or(v) => {
            let mut r = String::from_str("or(");
            let inner = render_grams_in_from(v);
            r.append(inner.as_str());
            r.append(")");
            r
        },
        Op::Any => String::from_str("any"),
    }
}

/// Spells out the members of a nested operation list.
fn render_grams_in_from(vec: &Vec<Op>) -> (r: String)
    decreases *vec,
{
    let mut ret = String::new();
    let mut i: usize = 0;
    while i < vec.len()
        invariant
            i <= vec@.len(),
        decreases vec@.len() - i,
    {
        proof {
            assert(decreases_to!(vec@ => vec@[i as int]));
        }
        let piece = render_op(&vec[i]);
        ret.append(piece.as_str());
        if i + 1 < vec.len() {
            ret.append(" ");
        }
        i = i + 1;
    }
    ret
}

} // verus!
