//! The expression tree, and the builder that makes it of parse nodes.

use vstd::prelude::*;
use vstd::string::StringSliceAdditionalSpecFns;
use vstd::utf8::{decode_utf8, encode_utf8_decode_utf8};
use crate::error::MyError;
use crate::grammar::Node;
use crate::pairs::{nodes_of, Pair, Pairs};
use crate::pratt::{
    alternates,
    alternates_from,
    climb,
    is_infix,
    is_prefix,
    is_primary,
    no_operators,
    prefix_binds_tightest,
    spans_fit,
    table_infix_left,
    table_new,
    table_ops,
    table_prefix,
    Fixity,
    Operators,
    PrecedenceTable,
    Token,
    Tree,
};
use crate::rule::Rule;

verus! {

/// Op describes a mathematical operation.
#[derive(Clone, Copy, Debug, PartialEq, Eq, Structural)]
pub enum Op {
    Add,
    Subtract,
    Multiply,
    Divide,
}

/// An expression. A number holds its literal as it was written.
#[derive(Debug)]
pub enum Expr {
    Number(String),
    UnaryMinus(Box<Expr>),
    BinOp { lhs: Box<Expr>, op: Op, rhs: Box<Expr> },
}

/// An expression as a value of mathematics.
pub ghost enum Ast {
    Number(Seq<char>),
    UnaryMinus(Box<Ast>),
    BinOp(Box<Ast>, Op, Box<Ast>),
}

impl Expr {
    /// The expression as a value of mathematics.
    pub open spec fn ast(self) -> Ast
        decreases self,
    {
        match self {
            Expr::Number(literal) => Ast::Number(literal@),
            Expr::UnaryMinus(operand) => Ast::UnaryMinus(Box::new(operand.ast())),
            Expr::BinOp { lhs, op, rhs } => Ast::BinOp(
                Box::new(lhs.ast()),
                op,
                Box::new(rhs.ast()),
            ),
        }
    }
}

impl View for Expr {
    type V = Ast;

    open spec fn view(&self) -> Ast {
        self.ast()
    }
}

/// The operators of the calculator, lowest level first: addition and
/// subtraction; multiplication and division; the minus sign before a
/// primary.
pub open spec fn levels() -> Operators {
    no_operators().insert(Rule::add, (Fixity::InfixLeft, 1)).insert(
        Rule::subtract,
        (Fixity::InfixLeft, 1),
    ).insert(Rule::multiply, (Fixity::InfixLeft, 2)).insert(
        Rule::divide,
        (Fixity::InfixLeft, 2),
    ).insert(Rule::unary_minus, (Fixity::Prefix, 3))
}

/// The level of a binary operator: 1 for addition and subtraction, 2 for
/// multiplication and division.
pub open spec fn binary_level(rule: Rule) -> Option<nat> {
    match rule {
        Rule::add | Rule::subtract => Some(1),
        Rule::multiply | Rule::divide => Some(2),
        _ => None,
    }
}

/// The operation that a binary operator's rule stands for.
pub open spec fn spec_op_of(rule: Rule) -> Op {
    match rule {
        Rule::add => Op::Add,
        Rule::subtract => Op::Subtract,
        Rule::multiply => Op::Multiply,
        _ => Op::Divide,
    }
}

/// What the table of the calculator holds, rule by rule.
pub proof fn lemma_levels()
    ensures
        prefix_binds_tightest(levels()),
        forall|rule: Rule| is_prefix(levels(), rule) <==> rule == Rule::unary_minus,
        forall|rule: Rule| is_infix(levels(), rule) <==> binary_level(rule) is Some,
        forall|rule: Rule|
            binary_level(rule) is Some ==> levels()[rule].1 == binary_level(rule)->0,
        forall|rule: Rule|
            is_primary(levels(), rule) <==> rule != Rule::unary_minus && binary_level(rule) is None,
{
}

/// The table of the calculator's operators.
pub fn precedence() -> (table: PrecedenceTable)
    ensures
        table_ops(table) == levels(),
{
    let table = table_new();
    let table = table_infix_left(table, Rule::add, Rule::subtract);
    let table = table_infix_left(table, Rule::multiply, Rule::divide);
    let table = table_prefix(table, Rule::unary_minus);
    assert(table_ops(table) =~= levels());
    table
}

/// A node as a token.
pub open spec fn token_of(node: Node) -> Token {
    Token { rule: node.rule, start: node.start as usize, end: node.end as usize }
}

/// The nodes as tokens.
pub open spec fn tokens_of(nodes: Seq<Node>) -> Seq<Token> {
    Seq::new(nodes.len(), |k: int| token_of(nodes[k]))
}

/// The nodes come as an expression's do, and each operand among them is a
/// number or an expression.
pub open spec fn level_ok(nodes: Seq<Node>) -> bool {
    &&& alternates(levels(), tokens_of(nodes))
    &&& forall|k: int|
        0 <= k < nodes.len() && is_primary(levels(), (#[trigger] nodes[k]).rule) ==> nodes[k].rule
            == Rule::number || nodes[k].rule == Rule::expr
}

/// The nodes are what the grammar leaves inside an expression, here and
/// inside every expression among them: the builder makes an expression of
/// such nodes, and of no others.
pub open spec fn buildable(nodes: Seq<Node>) -> bool
    decreases nodes,
{
    &&& level_ok(nodes)
    &&& forall|k: int|
        0 <= k < nodes.len() && (#[trigger] nodes[k]).rule == Rule::expr ==> buildable(
            nodes[k].inner,
        )
}

/// The expressions among `nodes[lo..hi]` hold buildable nodes.
pub open spec fn operands_ok(nodes: Seq<Node>, lo: int, hi: int) -> bool {
    forall|k: int|
        lo <= k < hi && 0 <= k < nodes.len() && (#[trigger] nodes[k]).rule == Rule::expr
            ==> buildable(nodes[k].inner)
}

/// `nodes[lo..hi]` splits at `k`: a binary operator stands there, no
/// operator before it is of a lower level, and every operator after it is
/// of a higher one. It is the operator applied last: of the operators of
/// the lowest level, the rightmost.
pub open spec fn splits_at(nodes: Seq<Node>, lo: int, hi: int, k: int) -> bool {
    &&& lo <= k < hi
    &&& binary_level(nodes[k].rule) is Some
    &&& forall|j: int|
        lo <= j < k && binary_level(#[trigger] nodes[j].rule) is Some ==> binary_level(
            nodes[j].rule,
        )->0 >= binary_level(nodes[k].rule)->0
    &&& forall|j: int|
        k < j < hi && binary_level(#[trigger] nodes[j].rule) is Some ==> binary_level(
            nodes[j].rule,
        )->0 > binary_level(nodes[k].rule)->0
}

/// The literal that a number's node covers.
pub open spec fn literal(s: Seq<u8>, node: Node) -> Seq<char> {
    decode_utf8(s.subrange(node.start, node.end))
}

/// The expression that `nodes[lo..hi]` write, in the text `s`. Where the
/// nodes hold a binary operator, the one at which they split is applied to
/// what stands on its two sides. Else a minus sign is applied to what
/// follows it, an expression in parentheses is what its own nodes write,
/// and a number is its literal.
pub open spec fn ast_of(s: Seq<u8>, nodes: Seq<Node>, lo: int, hi: int) -> Ast
    decreases nodes, hi - lo,
{
    if 0 <= lo < hi <= nodes.len() {
        if exists|k: int| splits_at(nodes, lo, hi, k) {
            let k = choose|k: int| splits_at(nodes, lo, hi, k);
            Ast::BinOp(
                Box::new(ast_of(s, nodes, lo, k)),
                spec_op_of(nodes[k].rule),
                Box::new(ast_of(s, nodes, k + 1, hi)),
            )
        } else if nodes[lo].rule == Rule::unary_minus {
            Ast::UnaryMinus(Box::new(ast_of(s, nodes, lo + 1, hi)))
        } else if nodes[lo].rule == Rule::expr {
            ast_of(s, nodes[lo].inner, 0, nodes[lo].inner.len() as int)
        } else {
            Ast::Number(literal(s, nodes[lo]))
        }
    } else {
        Ast::Number(Seq::empty())
    }
}

/// No run of nodes splits at two places.
pub proof fn lemma_split_unique(nodes: Seq<Node>, lo: int, hi: int, k: int)
    requires
        splits_at(nodes, lo, hi, k),
    ensures
        (choose|j: int| splits_at(nodes, lo, hi, j)) == k,
{
    let j = choose|j: int| splits_at(nodes, lo, hi, j);
    assert(splits_at(nodes, lo, hi, j));
    if j < k {
        assert(binary_level(nodes[k].rule) is Some);
    } else if k < j {
        assert(binary_level(nodes[j].rule) is Some);
    }
}

/// Nodes that split are the operation of the operator at which they
/// split, applied to what the nodes on its two sides write.
pub proof fn lemma_split_builds(s: Seq<u8>, nodes: Seq<Node>, lo: int, hi: int, k: int)
    requires
        0 <= lo,
        hi <= nodes.len(),
        splits_at(nodes, lo, hi, k),
    ensures
        ast_of(s, nodes, lo, hi) == Ast::BinOp(
            Box::new(ast_of(s, nodes, lo, k)),
            spec_op_of(nodes[k].rule),
            Box::new(ast_of(s, nodes, k + 1, hi)),
        ),
{
    lemma_split_unique(nodes, lo, hi, k);
}

/// The rule of an operand: of neither a minus sign nor a binary operator.
pub open spec fn stands_alone(rule: Rule) -> bool {
    rule != Rule::unary_minus && binary_level(rule) is None
}

/// `a op b op c` where the second operator is of no higher level than the
/// first is `(a op b) op c`: operators of one level group to the left, and
/// an operator of a higher level is applied before a later one of a lower.
pub proof fn lemma_groups_left(s: Seq<u8>, nodes: Seq<Node>)
    requires
        nodes.len() == 5,
        stands_alone(nodes[0].rule),
        stands_alone(nodes[2].rule),
        stands_alone(nodes[4].rule),
        binary_level(nodes[1].rule) is Some,
        binary_level(nodes[3].rule) is Some,
        binary_level(nodes[1].rule)->0 >= binary_level(nodes[3].rule)->0,
    ensures
        ast_of(s, nodes, 0, 5) == Ast::BinOp(
            Box::new(
                Ast::BinOp(
                    Box::new(ast_of(s, nodes, 0, 1)),
                    spec_op_of(nodes[1].rule),
                    Box::new(ast_of(s, nodes, 2, 3)),
                ),
            ),
            spec_op_of(nodes[3].rule),
            Box::new(ast_of(s, nodes, 4, 5)),
        ),
{
    assert(splits_at(nodes, 0, 5, 3));
    lemma_split_builds(s, nodes, 0, 5, 3);
    assert(splits_at(nodes, 0, 3, 1));
    lemma_split_builds(s, nodes, 0, 3, 1);
}

/// `a op b op c` where the second operator is of a higher level than the
/// first is `a op (b op c)`: the operator of the higher level binds
/// tighter.
pub proof fn lemma_higher_level_binds_tighter(s: Seq<u8>, nodes: Seq<Node>)
    requires
        nodes.len() == 5,
        stands_alone(nodes[0].rule),
        stands_alone(nodes[2].rule),
        stands_alone(nodes[4].rule),
        binary_level(nodes[1].rule) is Some,
        binary_level(nodes[3].rule) is Some,
        binary_level(nodes[1].rule)->0 < binary_level(nodes[3].rule)->0,
    ensures
        ast_of(s, nodes, 0, 5) == Ast::BinOp(
            Box::new(ast_of(s, nodes, 0, 1)),
            spec_op_of(nodes[1].rule),
            Box::new(
                Ast::BinOp(
                    Box::new(ast_of(s, nodes, 2, 3)),
                    spec_op_of(nodes[3].rule),
                    Box::new(ast_of(s, nodes, 4, 5)),
                ),
            ),
        ),
{
    assert(splits_at(nodes, 0, 5, 1));
    lemma_split_builds(s, nodes, 0, 5, 1);
    assert(splits_at(nodes, 2, 5, 3));
    lemma_split_builds(s, nodes, 2, 5, 3);
}

/// `-a op b` is `(-a) op b`: the minus sign before a primary binds tighter
/// than every binary operator.
pub proof fn lemma_minus_binds_tightest(s: Seq<u8>, nodes: Seq<Node>)
    requires
        nodes.len() == 4,
        nodes[0].rule == Rule::unary_minus,
        stands_alone(nodes[1].rule),
        binary_level(nodes[2].rule) is Some,
        stands_alone(nodes[3].rule),
    ensures
        ast_of(s, nodes, 0, 4) == Ast::BinOp(
            Box::new(Ast::UnaryMinus(Box::new(ast_of(s, nodes, 1, 2)))),
            spec_op_of(nodes[2].rule),
            Box::new(ast_of(s, nodes, 3, 4)),
        ),
{
    assert(splits_at(nodes, 0, 4, 2));
    lemma_split_builds(s, nodes, 0, 4, 2);
    assert forall|k: int| !splits_at(nodes, 0, 2, k) by {}
}

/// In a grouped tree whose root is no infix operator of a level below
/// `bound`, no infix operator at all is of a level below `bound`.
pub proof fn lemma_grouped_levels(tree: Tree, bound: nat)
    requires
        tree.grouped(levels()),
        tree.root_level(levels()) matches Some(level) ==> level >= bound,
    ensures
        forall|j: int|
            0 <= j < tree.flatten().len() && binary_level(#[trigger] tree.flatten()[j].rule)
                is Some ==> binary_level(tree.flatten()[j].rule)->0 >= bound,
    decreases tree,
{
    lemma_levels();
    match tree {
        Tree::Primary(token) => {},
        Tree::Prefix(token, rhs) => {
            lemma_grouped_levels(*rhs, bound);
        },
        Tree::Infix(lhs, token, rhs) => {
            let level = binary_level(token.rule)->0;
            lemma_grouped_levels(*lhs, level);
            lemma_grouped_levels(*rhs, level + 1);
        },
    }
}

/// The operation that a binary operator's rule stands for.
fn op_of(rule: Rule) -> (op: Op)
    ensures
        op == spec_op_of(rule),
{
    match rule {
        Rule::add => Op::Add,
        Rule::subtract => Op::Subtract,
        Rule::multiply => Op::Multiply,
        _ => Op::Divide,
    }
}

/// Whether the rule is a binary operator's.
fn is_binary(rule: Rule) -> (yes: bool)
    ensures
        yes == binary_level(rule) is Some,
{
    match rule {
        Rule::add | Rule::subtract | Rule::multiply | Rule::divide => true,
        _ => false,
    }
}

/// The pairs as tokens, where they come as an expression's do and each
/// operand among them is a number or an expression.
fn tokens_checked<'i>(children: &Vec<Pair<'i>>, Ghost(source): Ghost<Seq<u8>>) -> (found: Option<
    Vec<Token>,
>)
    requires
        forall|k: int| 0 <= k < children@.len() ==> (#[trigger] children@[k]).source() == source,
    ensures
        found is Some <==> level_ok(nodes_of(children@)),
        found matches Some(tokens) ==> tokens@ == tokens_of(nodes_of(children@)) && spans_fit(
            source,
            tokens@,
        ),
{
    let ghost nodes = nodes_of(children@);
    let ghost all = tokens_of(nodes);
    let mut tokens: Vec<Token> = Vec::new();
    let mut operand: bool = true;
    let mut k: usize = 0;
    proof {
        lemma_levels();
    }
    while k < children.len()
        invariant
            k <= children@.len(),
            nodes == nodes_of(children@),
            all == tokens_of(nodes),
            tokens@ == all.subrange(0, k as int),
            spans_fit(source, tokens@),
            alternates(levels(), all) == alternates_from(levels(), all, k as int, operand),
            forall|j: int|
                0 <= j < k && is_primary(levels(), (#[trigger] nodes[j]).rule) ==> nodes[j].rule
                    == Rule::number || nodes[j].rule == Rule::expr,
            forall|j: int| 0 <= j < children@.len() ==> (#[trigger] children@[j]).source() == source,
        decreases children@.len() - k,
    {
        let token = children[k].token();
        proof {
            lemma_levels();
            assert(all[k as int] == token);
            assert(nodes[k as int].rule == token.rule);
        }
        if operand {
            if token.rule == Rule::unary_minus {
            } else if is_binary(token.rule) {
                return None;
            } else if token.rule == Rule::number || token.rule == Rule::expr {
                operand = false;
            } else {
                return None;
            }
        } else {
            if is_binary(token.rule) {
                operand = true;
            } else {
                return None;
            }
        }
        tokens.push(token);
        k = k + 1;
        assert(tokens@ =~= all.subrange(0, k as int));
    }
    assert(tokens@ =~= all);
    if operand {
        None
    } else {
        Some(tokens)
    }
}

/// Makes the expression of the tokens of `tree`, which are those of
/// `children` from `lo` on, and says where the tokens end.
fn lower<'i>(
    tree: Tree,
    table: &PrecedenceTable,
    input: &'i str,
    children: &Vec<Pair<'i>>,
    lo: usize,
) -> (r: Result<(Expr, usize), MyError>)
    requires
        table_ops(*table) == levels(),
        tree.grouped(levels()),
        lo + tree.flatten().len() <= children@.len(),
        tree.flatten() == tokens_of(nodes_of(children@)).subrange(
            lo as int,
            lo + tree.flatten().len(),
        ),
        level_ok(nodes_of(children@)),
        forall|k: int|
            0 <= k < children@.len() ==> (#[trigger] children@[k]).source() == input.spec_bytes(),
    ensures
        match r {
            Ok((expr, hi)) => {
                &&& hi == lo + tree.flatten().len()
                &&& operands_ok(nodes_of(children@), lo as int, hi as int)
                &&& expr@ == ast_of(input.spec_bytes(), nodes_of(children@), lo as int, hi as int)
            },
            Err(e) => {
                &&& e is UnreachableError
                &&& !operands_ok(nodes_of(children@), lo as int, lo + tree.flatten().len())
            },
        },
    decreases children, 0int, tree,
{
    let ghost s = input.spec_bytes();
    let ghost nodes = nodes_of(children@);
    let ghost all = tokens_of(nodes);
    let ghost len = tree.flatten().len() as int;
    let ghost end = lo + len;
    let count: usize = children.len();
    proof {
        lemma_levels();
    }
    match tree {
        Tree::Primary(token) => {
            assert(tree.flatten() =~= seq![token]);
            assert(tree.flatten()[0] == all[lo as int]);
            assert(nodes[lo as int].rule == token.rule);
            assert forall|k: int| !splits_at(nodes, lo as int, end, k) by {}
            let pair = &children[lo];
            if pair.as_rule() == Rule::expr {
                match build(table, input, pair.inner()) {
                    Ok(expr) => Ok((expr, lo + 1)),
                    Err(e) => Err(e),
                }
            } else {
                let slice = pair.as_str();
                let text = slice.to_owned();
                proof {
                    encode_utf8_decode_utf8(slice@);
                }
                Ok((Expr::Number(text), lo + 1))
            }
        },
        Tree::Prefix(token, rhs) => {
            proof {
                assert(tree.flatten() =~= seq![token] + rhs.flatten());
                assert(tree.flatten()[0] == all[lo as int]);
                assert(nodes[lo as int].rule == Rule::unary_minus);
                assert(rhs.flatten() =~= all.subrange(lo + 1, lo + len)) by {
                    assert forall|j: int| 0 <= j < rhs.flatten().len() implies rhs.flatten()[j]
                        == all[lo + 1 + j] by {
                        assert(tree.flatten()[1 + j] == all[lo + 1 + j]);
                    }
                }
                lemma_grouped_levels(*rhs, 3);
                assert forall|k: int| !splits_at(nodes, lo as int, end, k) by {
                    if lo < k < lo + len {
                        assert(rhs.flatten()[k - lo - 1].rule == nodes[k].rule);
                    }
                }
            }
            match lower(*rhs, table, input, children, lo + 1) {
                Ok((operand, hi)) => Ok((Expr::UnaryMinus(Box::new(operand)), hi)),
                Err(e) => Err(e),
            }
        },
        Tree::Infix(lhs, token, rhs) => {
            let ghost k = lo + lhs.flatten().len();
            proof {
                let level = binary_level(token.rule)->0;
                assert(tree.flatten() =~= lhs.flatten() + seq![token] + rhs.flatten());
                assert(lhs.flatten() =~= all.subrange(lo as int, k as int)) by {
                    assert forall|j: int| 0 <= j < lhs.flatten().len() implies lhs.flatten()[j]
                        == all[lo + j] by {
                        assert(tree.flatten()[j] == all[lo + j]);
                    }
                }
                assert(tree.flatten()[k - lo] == all[k as int]);
                assert(rhs.flatten() =~= all.subrange(k + 1, lo + len)) by {
                    assert forall|j: int| 0 <= j < rhs.flatten().len() implies rhs.flatten()[j]
                        == all[k + 1 + j] by {
                        assert(tree.flatten()[k - lo + 1 + j] == all[k + 1 + j]);
                    }
                }
                lemma_grouped_levels(*lhs, level);
                lemma_grouped_levels(*rhs, level + 1);
                assert(splits_at(nodes, lo as int, end, k as int)) by {
                    assert forall|j: int|
                        lo <= j < k && binary_level(#[trigger] nodes[j].rule) is Some implies binary_level(
                        nodes[j].rule,
                    )->0 >= level by {
                        assert(lhs.flatten()[j - lo].rule == nodes[j].rule);
                    }
                    assert forall|j: int|
                        k < j < lo + len && binary_level(
                            #[trigger] nodes[j].rule,
                        ) is Some implies binary_level(nodes[j].rule)->0 > level by {
                        assert(rhs.flatten()[j - k - 1].rule == nodes[j].rule);
                    }
                }
                lemma_split_unique(nodes, lo as int, end, k as int);
            }
            match lower(*lhs, table, input, children, lo) {
                Ok((left, at)) => {
                    match lower(*rhs, table, input, children, at + 1) {
                        Ok((right, hi)) => Ok(
                            (
                                Expr::BinOp {
                                    lhs: Box::new(left),
                                    op: op_of(token.rule),
                                    rhs: Box::new(right),
                                },
                                hi,
                            ),
                        ),
                        Err(e) => Err(e),
                    }
                },
                Err(e) => Err(e),
            }
        },
    }
}

/// Makes the expression that the pairs write.
fn build<'i>(table: &PrecedenceTable, input: &'i str, children: &Vec<Pair<'i>>) -> (r: Result<
    Expr,
    MyError,
>)
    requires
        table_ops(*table) == levels(),
        forall|k: int|
            0 <= k < children@.len() ==> (#[trigger] children@[k]).source() == input.spec_bytes(),
    ensures
        match r {
            Ok(expr) => {
                &&& buildable(nodes_of(children@))
                &&& expr@ == ast_of(
                    input.spec_bytes(),
                    nodes_of(children@),
                    0,
                    children@.len() as int,
                )
            },
            Err(e) => e is UnreachableError && !buildable(nodes_of(children@)),
        },
    decreases children, 1int,
{
    match tokens_checked(children, Ghost(input.spec_bytes())) {
        None => Err(MyError::UnreachableError),
        Some(tokens) => {
            proof {
                lemma_levels();
            }
            let tree = climb(table, input, &tokens);
            assert(tree.flatten() =~= tokens_of(nodes_of(children@)).subrange(
                0,
                tree.flatten().len() as int,
            ));
            match lower(tree, table, input, children, 0) {
                Ok((expr, _)) => Ok(expr),
                Err(e) => Err(e),
            }
        },
    }
}

/// `r` is the builder's answer to the nodes over the text `s`: the
/// expression that buildable nodes write, and a refusal of all others.
pub open spec fn builds(s: Seq<u8>, nodes: Seq<Node>, r: Result<Expr, MyError>) -> bool {
    match r {
        Ok(expr) => buildable(nodes) && expr@ == ast_of(s, nodes, 0, nodes.len() as int),
        Err(e) => e is UnreachableError && !buildable(nodes),
    }
}

/// The builder answers the same nodes over the same text in one way:
/// with the same expression, or with a refusal.
pub proof fn lemma_building_is_deterministic(
    s: Seq<u8>,
    nodes: Seq<Node>,
    first: Result<Expr, MyError>,
    second: Result<Expr, MyError>,
)
    requires
        builds(s, nodes, first),
        builds(s, nodes, second),
    ensures
        match (first, second) {
            (Ok(a), Ok(b)) => a@ == b@,
            (Err(a), Err(b)) => a is UnreachableError && b is UnreachableError,
            _ => false,
        },
{
}

/// Parse the pairs left inside an expression into the expression they
/// write: operators of a higher level are applied first, operators of one
/// level from left to right, and the minus sign before a primary before
/// any of them. Pairs of any other shape are refused.
pub fn parse_expr(pairs: Pairs<'_>) -> (r: Result<Expr, MyError>)
    ensures
        builds(pairs.source(), pairs@, r),
{
    let table = precedence();
    let (input, children) = pairs.into_parts();
    build(&table, input, &children)
}

} // verus!
