//! The tags of the grammar's rules.

use vstd::prelude::*;

verus! {

/// The rules of the grammar. A parse node carries the tag of the rule that
/// matched it; the order of the variants is the order in which a syntax
/// error lists the rules it expected.
#[allow(non_camel_case_types)]
#[derive(Clone, Copy, Debug, PartialEq, Eq, PartialOrd, Ord, Hash, Structural)]
pub enum Rule {
    /// The end of the input.
    EOI,
    /// A whole line: an expression and nothing after it.
    equation,
    /// Atoms separated by binary operators.
    expr,
    /// A primary with an optional minus sign before it.
    atom,
    /// A number, or an expression in parentheses.
    primary,
    /// Digits, optionally followed by a point and more digits.
    number,
    /// The minus sign before a primary.
    unary_minus,
    /// Any of the four binary operators.
    bin_op,
    /// `+`
    add,
    /// `-` between two atoms.
    subtract,
    /// `*`
    multiply,
    /// `/`
    divide,
}

/// What the grammar engine was looking for where it gave up.
#[derive(Clone, Copy, Debug, PartialEq, Eq, Structural)]
pub enum Expected {
    /// One rule.
    One(Rule),
    /// The start of an atom: a minus sign or a number.
    Atom,
    /// A binary operator.
    Operator,
    /// A binary operator or the end of the input.
    OperatorOrEnd,
}

impl Expected {
    /// The expected rules, in the order of `Rule`.
    pub open spec fn spec_rules(self) -> Seq<Rule> {
        match self {
            Expected::One(rule) => seq![rule],
            Expected::Atom => seq![Rule::number, Rule::unary_minus],
            Expected::Operator => seq![Rule::add, Rule::subtract, Rule::multiply, Rule::divide],
            Expected::OperatorOrEnd => seq![
                Rule::EOI,
                Rule::add,
                Rule::subtract,
                Rule::multiply,
                Rule::divide,
            ],
        }
    }

    /// The expected rules, in the order of `Rule`.
    pub fn rules(&self) -> (list: Vec<Rule>)
        ensures
            list@ == self.spec_rules(),
    {
        match self {
            Expected::One(rule) => vec![*rule],
            Expected::Atom => vec![Rule::number, Rule::unary_minus],
            Expected::Operator => vec![Rule::add, Rule::subtract, Rule::multiply, Rule::divide],
            Expected::OperatorOrEnd => vec![
                Rule::EOI,
                Rule::add,
                Rule::subtract,
                Rule::multiply,
                Rule::divide,
            ],
        }
    }
}

} // verus!
