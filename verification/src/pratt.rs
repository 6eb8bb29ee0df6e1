//! Operator precedence, resolved by pest's Pratt parser.
//!
//! The parser and its table of operators are pest's; what this file states
//! of them is taken on trust. A run of tokens goes in, the tree that groups
//! them comes out, and the rest of the crate reasons from the two
//! properties that `climb` states of that tree.

use vstd::prelude::*;
use vstd::string::StringSliceAdditionalSpecFns;
use vstd::utf8::is_char_boundary;
use crate::rule::Rule;

verus! {

/// How an operator stands to its operands.
#[derive(Clone, Copy, Debug, PartialEq, Eq, Structural)]
pub enum Fixity {
    /// Before its one operand.
    Prefix,
    /// Between its two operands, grouping to the left.
    InfixLeft,
}

/// A token of an expression: a rule and the bytes it covers.
#[derive(Clone, Copy, Debug, PartialEq, Eq, Structural)]
pub struct Token {
    pub rule: Rule,
    pub start: usize,
    pub end: usize,
}

/// How the tokens of an expression group.
#[derive(Debug)]
pub enum Tree {
    /// An operand.
    Primary(Token),
    /// A prefix operator and its operand.
    Prefix(Token, Box<Tree>),
    /// An infix operator between its operands.
    Infix(Box<Tree>, Token, Box<Tree>),
}

/// The operators of a table: for each rule that is one, its fixity and its
/// level. A higher level binds tighter.
pub type Operators = Map<Rule, (Fixity, nat)>;

/// The table that holds no operator.
pub open spec fn no_operators() -> Operators {
    Map::empty()
}

/// The rule is a prefix operator's.
pub open spec fn is_prefix(ops: Operators, rule: Rule) -> bool {
    ops.contains_key(rule) && ops[rule].0 == Fixity::Prefix
}

/// The rule is an infix operator's.
pub open spec fn is_infix(ops: Operators, rule: Rule) -> bool {
    ops.contains_key(rule) && ops[rule].0 == Fixity::InfixLeft
}

/// A rule that is no operator stands for an operand.
pub open spec fn is_primary(ops: Operators, rule: Rule) -> bool {
    !ops.contains_key(rule)
}

/// Every prefix operator binds tighter than every infix operator.
pub open spec fn prefix_binds_tightest(ops: Operators) -> bool {
    forall|p: Rule, i: Rule| is_prefix(ops, p) && is_infix(ops, i) ==> ops[p].1 > ops[i].1
}

/// From `k` on the tokens come as an expression's do: prefix operators and
/// an operand, then any number of times an infix operator, prefix
/// operators and an operand. `operand` tells whether an operand is due at
/// `k`, or an infix operator.
pub open spec fn alternates_from(ops: Operators, tokens: Seq<Token>, k: int, operand: bool) -> bool
    decreases tokens.len() - k,
{
    if k < 0 || k >= tokens.len() {
        !operand
    } else if operand {
        if is_prefix(ops, tokens[k].rule) {
            alternates_from(ops, tokens, k + 1, true)
        } else {
            is_primary(ops, tokens[k].rule) && alternates_from(ops, tokens, k + 1, false)
        }
    } else {
        is_infix(ops, tokens[k].rule) && alternates_from(ops, tokens, k + 1, true)
    }
}

/// The tokens form an expression.
pub open spec fn alternates(ops: Operators, tokens: Seq<Token>) -> bool {
    alternates_from(ops, tokens, 0, true)
}

/// Each token covers a slice of the text.
pub open spec fn spans_fit(text: Seq<u8>, tokens: Seq<Token>) -> bool {
    forall|k: int|
        0 <= k < tokens.len() ==> {
            &&& (#[trigger] tokens[k]).start <= tokens[k].end
            &&& is_char_boundary(text, tokens[k].start as int)
            &&& is_char_boundary(text, tokens[k].end as int)
        }
}

impl Tree {
    /// The tokens of the tree, from left to right.
    pub open spec fn flatten(self) -> Seq<Token>
        decreases self,
    {
        match self {
            Tree::Primary(token) => seq![token],
            Tree::Prefix(token, rhs) => seq![token] + rhs.flatten(),
            Tree::Infix(lhs, token, rhs) => lhs.flatten() + seq![token] + rhs.flatten(),
        }
    }

    /// The level of the infix operator at the root, where there is one.
    pub open spec fn root_level(self, ops: Operators) -> Option<nat> {
        match self {
            Tree::Infix(_, token, _) => Some(ops[token.rule].1),
            _ => None,
        }
    }

    /// The tree groups by the levels of `ops`. The operand of a prefix
    /// operator holds no infix operator at its root. Of an infix operator,
    /// the left operand holds none of a lower level at its root, and the
    /// right operand none of a lower or the same level: operators of one
    /// level group to the left.
    pub open spec fn grouped(self, ops: Operators) -> bool
        decreases self,
    {
        match self {
            Tree::Primary(token) => is_primary(ops, token.rule),
            Tree::Prefix(token, rhs) => {
                &&& is_prefix(ops, token.rule)
                &&& rhs.root_level(ops) is None
                &&& rhs.grouped(ops)
            },
            Tree::Infix(lhs, token, rhs) => {
                &&& is_infix(ops, token.rule)
                &&& lhs.grouped(ops)
                &&& rhs.grouped(ops)
                &&& (lhs.root_level(ops) matches Some(level) ==> level >= ops[token.rule].1)
                &&& (rhs.root_level(ops) matches Some(level) ==> level > ops[token.rule].1)
            },
        }
    }

    /// An operand.
    pub fn primary(rule: Rule, start: usize, end: usize) -> (tree: Tree)
        ensures
            tree == Tree::Primary(Token { rule, start, end }),
    {
        Tree::Primary(Token { rule, start, end })
    }

    /// A prefix operator before `rhs`.
    pub fn prefix(rule: Rule, start: usize, end: usize, rhs: Tree) -> (tree: Tree)
        ensures
            tree == Tree::Prefix(Token { rule, start, end }, Box::new(rhs)),
    {
        Tree::Prefix(Token { rule, start, end }, Box::new(rhs))
    }

    /// An infix operator between `lhs` and `rhs`.
    pub fn infix(lhs: Tree, rule: Rule, start: usize, end: usize, rhs: Tree) -> (tree: Tree)
        ensures
            tree == Tree::Infix(Box::new(lhs), Token { rule, start, end }, Box::new(rhs)),
    {
        Tree::Infix(Box::new(lhs), Token { rule, start, end }, Box::new(rhs))
    }
}

/// A table of operators: pest's `PrattParser`, which Verus does not look
/// into. What it holds is known by `table_ops` and `table_height` alone.
#[verifier::external_body]
pub struct PrecedenceTable {
    inner: pest::pratt_parser::PrattParser<Rule>,
}

/// The operators that a table holds.
pub uninterp spec fn table_ops(table: PrecedenceTable) -> Operators;

/// How many levels a table holds.
pub uninterp spec fn table_height(table: PrecedenceTable) -> nat;

/// `PrattParser::new`: a table without operators and without levels.
#[verifier::external_body]
pub(crate) fn table_new() -> (table: PrecedenceTable)
    ensures
        table_ops(table) == no_operators(),
        table_height(table) == 0,
{
    PrecedenceTable { inner: pest::pratt_parser::PrattParser::new() }
}

/// `PrattParser::op` with two left-associative infix operators, built by
/// `Op::infix` and joined by `|`: the table gets one level more, above
/// those it had, and on it `a` and `b`. A rule that the table held before
/// moves to the new level. (pest counts the levels in a `u32`, ten to a
/// level, which the bound on the height keeps from running over.)
#[verifier::external_body]
pub(crate) fn table_infix_left(table: PrecedenceTable, a: Rule, b: Rule) -> (grown: PrecedenceTable)
    requires
        table_height(table) < 1000,
    ensures
        table_height(grown) == table_height(table) + 1,
        table_ops(grown) == table_ops(table).insert(
            a,
            (Fixity::InfixLeft, table_height(grown)),
        ).insert(b, (Fixity::InfixLeft, table_height(grown))),
{
    let ops = pest::pratt_parser::Op::infix(a, pest::pratt_parser::Assoc::Left)
        | pest::pratt_parser::Op::infix(b, pest::pratt_parser::Assoc::Left);
    PrecedenceTable { inner: table.inner.op(ops) }
}

/// `PrattParser::op` with one prefix operator, built by `Op::prefix`: the
/// table gets one level more, above those it had, and on it `a`.
#[verifier::external_body]
pub(crate) fn table_prefix(table: PrecedenceTable, a: Rule) -> (grown: PrecedenceTable)
    requires
        table_height(table) < 1000,
    ensures
        table_height(grown) == table_height(table) + 1,
        table_ops(grown) == table_ops(table).insert(a, (Fixity::Prefix, table_height(grown))),
{
    PrecedenceTable { inner: table.inner.op(pest::pratt_parser::Op::prefix(a)) }
}

/// `PrattParserMap::parse` on the pairs that `PairsBuilder` makes of
/// `tokens`, one pair for each token and none inside another; the three
/// `map_` closures hand each pair's rule and span to the constructors of
/// `Tree`. The tree holds the tokens in their order and groups them by the
/// levels of the table. pest panics on pairs that do not alternate, and
/// `PairsBuilder` on a span that is no slice of the text: neither comes in.
#[verifier::external_body]
pub(crate) fn climb(table: &PrecedenceTable, text: &str, tokens: &Vec<Token>) -> (tree: Tree)
    requires
        alternates(table_ops(*table), tokens@),
        prefix_binds_tightest(table_ops(*table)),
        spans_fit(text.spec_bytes(), tokens@),
    ensures
        tree.flatten() == tokens@,
        tree.grouped(table_ops(*table)),
{
    let pairs = tokens.iter()
        .fold(pest::iterators::PairsBuilder::new(text), |b, t| b.rule(t.rule, t.start, t.end))
        .build();
    table.inner
        .map_primary(|p| Tree::primary(p.as_rule(), p.as_span().start(), p.as_span().end()))
        .map_prefix(|p, r| Tree::prefix(p.as_rule(), p.as_span().start(), p.as_span().end(), r))
        .map_infix(|l, p, r| Tree::infix(l, p.as_rule(), p.as_span().start(), p.as_span().end(), r))
        .parse(pairs)
}

} // verus!
