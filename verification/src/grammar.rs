//! The grammar, as functions from a text and a position to what matches
//! there.
//!
//! ```text
//! equation    = expr, end of input
//! expr        = atom, (bin_op, atom)*
//! atom        = unary_minus?, primary
//! primary     = number | "(", expr, ")"
//! number      = digit+, (".", digit+)?
//! unary_minus = "-"
//! bin_op      = add | subtract | multiply | divide
//! ```
//!
//! Blanks may stand between any two tokens but those of a number. A choice
//! takes its first alternative that matches, and a repetition takes as many
//! rounds as match: a round that starts to match and then fails is given
//! back, and the failure is remembered in case nothing else can go on from
//! there either.

use vstd::prelude::*;
use crate::rule::{Expected, Rule};
use crate::text::{blanks_end, number_end, CLOSE, MINUS, OPEN, PLUS, SLASH, STAR};

verus! {

/// How deep parentheses may nest. A parenthesis inside `MAX_DEPTH` others
/// matches nothing, so the work on a text is bounded by its length, and
/// the depth of every tree of parse nodes by this constant.
pub const MAX_DEPTH: usize = 128;

/// A parse node: the rule that matched, the bytes it covers, and the nodes
/// matched inside it.
pub ghost struct Node {
    pub rule: Rule,
    pub start: int,
    pub end: int,
    pub inner: Seq<Node>,
}

/// Where matching gave up, and what it was looking for there.
pub ghost struct Failure {
    pub position: int,
    pub expected: Expected,
}

/// A node without inner nodes.
pub open spec fn leaf(rule: Rule, start: int, end: int) -> Node {
    Node { rule, start, end, inner: Seq::empty() }
}

/// The rule of the binary operator that `b` writes, if it writes one.
pub open spec fn operator_rule(b: u8) -> Option<Rule> {
    if b == PLUS {
        Some(Rule::add)
    } else if b == MINUS {
        Some(Rule::subtract)
    } else if b == STAR {
        Some(Rule::multiply)
    } else if b == SLASH {
        Some(Rule::divide)
    } else {
        None
    }
}

/// `primary` at `i`, with `depth` further levels of parentheses allowed:
/// the node of the number or of the expression between the parentheses,
/// and where the primary ends.
pub open spec fn primary_at(s: Seq<u8>, i: int, depth: nat) -> Result<(Node, int), Failure>
    decreases depth, 0int, s.len() - i,
{
    if number_end(s, i) > i {
        Ok((leaf(Rule::number, i, number_end(s, i)), number_end(s, i)))
    } else if depth > 0 && 0 <= i < s.len() && s[i] == OPEN {
        match expr_at(s, blanks_end(s, i + 1), (depth - 1) as nat) {
            Ok((node, _, stop)) => {
                let k = blanks_end(s, node.end);
                if 0 <= k < s.len() && s[k] == CLOSE {
                    Ok((node, k + 1))
                } else {
                    Err(stop)
                }
            },
            Err(failure) => Err(failure),
        }
    } else {
        Err(Failure { position: i, expected: Expected::One(Rule::number) })
    }
}

/// `atom` at `i`: the node of the minus sign, if one stands there, and the
/// node of the primary, before which blanks may stand in either case.
pub open spec fn atom_at(s: Seq<u8>, i: int, depth: nat) -> Result<(Seq<Node>, int), Failure>
    decreases depth, 1int, s.len() - i,
{
    if 0 <= i < s.len() && s[i] == MINUS {
        match primary_at(s, blanks_end(s, i + 1), depth) {
            Ok((node, end)) => Ok((seq![leaf(Rule::unary_minus, i, i + 1), node], end)),
            Err(failure) => Err(failure),
        }
    } else {
        match primary_at(s, blanks_end(s, i), depth) {
            Ok((node, end)) => Ok((seq![node], end)),
            Err(failure) => Err(
                if failure.position == i {
                    Failure { position: i, expected: Expected::Atom }
                } else {
                    failure
                },
            ),
        }
    }
}

/// The rounds of `(bin_op, atom)*` after an atom that ended at `i`: their
/// nodes, where the last round ended, and why no further round matched.
/// (An atom is never empty; the test on `end` says so where the definition
/// needs it.)
pub open spec fn tail_at(s: Seq<u8>, i: int, depth: nat) -> (Seq<Node>, int, Failure)
    decreases depth, 2int, s.len() - i,
{
    let k = blanks_end(s, i);
    if 0 <= k < s.len() && operator_rule(s[k]) is Some {
        match atom_at(s, blanks_end(s, k + 1), depth) {
            Ok((nodes, end)) => {
                if i < end <= s.len() {
                    let (more, last, stop) = tail_at(s, end, depth);
                    (seq![leaf(operator_rule(s[k])->0, k, k + 1)] + nodes + more, last, stop)
                } else {
                    (Seq::empty(), i, Failure { position: k, expected: Expected::Operator })
                }
            },
            Err(failure) => (Seq::empty(), i, failure),
        }
    } else {
        (Seq::empty(), i, Failure { position: k, expected: Expected::Operator })
    }
}

/// `expr` at `i`: its node, where it ends, and why it ended there. An
/// expression of one atom alone extends over the blanks after the atom.
pub open spec fn expr_at(s: Seq<u8>, i: int, depth: nat) -> Result<(Node, int, Failure), Failure>
    decreases depth, 3int, s.len() - i,
{
    match atom_at(s, i, depth) {
        Ok((first, end)) => {
            let (more, last, stop) = tail_at(s, end, depth);
            let end = if more.len() == 0 {
                blanks_end(s, last)
            } else {
                last
            };
            Ok((Node { rule: Rule::expr, start: i, end, inner: first + more }, end, stop))
        },
        Err(failure) => Err(
            if failure.position == i {
                Failure { position: i, expected: Expected::One(Rule::expr) }
            } else {
                failure
            },
        ),
    }
}

/// `equation` on the whole of `s`: the node of the expression and the node
/// of the end of the input.
pub open spec fn equation_of(s: Seq<u8>) -> Result<Seq<Node>, Failure> {
    match expr_at(s, blanks_end(s, 0), MAX_DEPTH as nat) {
        Ok((node, end, stop)) => {
            let k = blanks_end(s, end);
            if k == s.len() {
                Ok(seq![node, leaf(Rule::EOI, k, k)])
            } else if stop.position == k {
                Err(Failure { position: k, expected: Expected::OperatorOrEnd })
            } else {
                Err(stop)
            }
        },
        Err(failure) => Err(failure),
    }
}

/// One byte `b` at the start of `s`, as a node of `rule`.
pub open spec fn byte_of(s: Seq<u8>, b: u8, rule: Rule) -> Result<Seq<Node>, Failure> {
    if s.len() > 0 && s[0] == b {
        Ok(seq![leaf(rule, 0, 1)])
    } else {
        Err(Failure { position: 0, expected: Expected::One(rule) })
    }
}

/// What `rule` matches at the start of `s`: the nodes, outermost first and
/// in the order of the text, or the failure. Only `equation` asks that the
/// match reaches the end of `s`, and only it lets blanks come first.
pub open spec fn matched(rule: Rule, s: Seq<u8>) -> Result<Seq<Node>, Failure> {
    match rule {
        Rule::EOI => if s.len() == 0 {
            Ok(seq![leaf(Rule::EOI, 0, 0)])
        } else {
            Err(Failure { position: 0, expected: Expected::One(Rule::EOI) })
        },
        Rule::equation => equation_of(s),
        Rule::expr => match expr_at(s, 0, MAX_DEPTH as nat) {
            Ok((node, _, _)) => Ok(seq![node]),
            Err(failure) => Err(failure),
        },
        Rule::atom => match atom_at(s, 0, MAX_DEPTH as nat) {
            Ok((nodes, _)) => Ok(nodes),
            Err(failure) => Err(failure),
        },
        Rule::primary => match primary_at(s, 0, MAX_DEPTH as nat) {
            Ok((node, _)) => Ok(seq![node]),
            Err(failure) => Err(failure),
        },
        Rule::number => if number_end(s, 0) > 0 {
            Ok(seq![leaf(Rule::number, 0, number_end(s, 0))])
        } else {
            Err(Failure { position: 0, expected: Expected::One(Rule::number) })
        },
        Rule::unary_minus => byte_of(s, MINUS, Rule::unary_minus),
        Rule::bin_op => if s.len() > 0 && operator_rule(s[0]) is Some {
            Ok(seq![leaf(operator_rule(s[0])->0, 0, 1)])
        } else {
            Err(Failure { position: 0, expected: Expected::Operator })
        },
        Rule::add => byte_of(s, PLUS, Rule::add),
        Rule::subtract => byte_of(s, MINUS, Rule::subtract),
        Rule::multiply => byte_of(s, STAR, Rule::multiply),
        Rule::divide => byte_of(s, SLASH, Rule::divide),
    }
}

} // verus!
