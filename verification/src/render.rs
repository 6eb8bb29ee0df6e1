//! The canonical text of an expression, and the proof that reading it
//! gives the expression back.

use vstd::prelude::*;
use vstd::string::StringExecFns;
use vstd::utf8::{encode_utf8, encode_utf8_decode_utf8, is_ascii_chars, is_ascii_chars_encode_utf8};
use crate::ast::{
    ast_of,
    binary_level,
    lemma_split_unique,
    literal,
    splits_at,
    Ast,
    Expr,
    Op,
};
use crate::eval::expression_of;
use crate::grammar::{
    atom_at,
    expr_at,
    leaf,
    operator_rule,
    primary_at,
    tail_at,
    Failure,
    Node,
    MAX_DEPTH,
};
use crate::rule::Expected;
use crate::rule::Rule;
use crate::text::{
    blanks_end,
    digits_end,
    is_blank,
    is_digit,
    lemma_digits_end,
    number_end,
    CLOSE,
    MINUS,
    OPEN,
    PLUS,
    POINT,
    SLASH,
    SPACE,
    STAR,
};

verus! {

/// The level of an operation: 1 for addition and subtraction, 2 for
/// multiplication and division.
pub open spec fn op_level(op: Op) -> nat {
    match op {
        Op::Add | Op::Subtract => 1,
        Op::Multiply | Op::Divide => 2,
    }
}

/// The byte that writes an operation.
pub open spec fn op_byte(op: Op) -> u8 {
    match op {
        Op::Add => PLUS,
        Op::Subtract => MINUS,
        Op::Multiply => STAR,
        Op::Divide => SLASH,
    }
}

/// The rule of an operation's operator.
pub open spec fn op_rule(op: Op) -> Rule {
    match op {
        Op::Add => Rule::add,
        Op::Subtract => Rule::subtract,
        Op::Multiply => Rule::multiply,
        Op::Divide => Rule::divide,
    }
}

/// The bytes are a number and nothing else.
pub open spec fn is_number_text(t: Seq<u8>) -> bool {
    t.len() > 0 && number_end(t, 0) == t.len()
}

/// Every literal of the expression is a number.
pub open spec fn writable(ast: Ast) -> bool
    decreases ast,
{
    match ast {
        Ast::Number(literal) => is_number_text(encode_utf8(literal)),
        Ast::UnaryMinus(operand) => writable(*operand),
        Ast::BinOp(lhs, _, rhs) => writable(*lhs) && writable(*rhs),
    }
}

/// The left operand of `op` is written in parentheses: it is an operation
/// of a lower level.
pub open spec fn wrapped_left(lhs: Ast, op: Op) -> bool {
    lhs matches Ast::BinOp(_, inner, _) && op_level(inner) < op_level(op)
}

/// The right operand of `op` is written in parentheses: it is an
/// operation of a lower level or of the same.
pub open spec fn wrapped_right(rhs: Ast, op: Op) -> bool {
    rhs matches Ast::BinOp(_, inner, _) && op_level(inner) <= op_level(op)
}

/// The operand of a minus sign is written in parentheses: it is no number.
pub open spec fn wrapped_operand(operand: Ast) -> bool {
    !(operand is Number)
}

/// The text between parentheses.
pub open spec fn in_parentheses(t: Seq<u8>) -> Seq<u8> {
    seq![OPEN] + t + seq![CLOSE]
}

/// The text, in parentheses where `wrapped` says so.
pub open spec fn side(t: Seq<u8>, wrapped: bool) -> Seq<u8> {
    if wrapped {
        in_parentheses(t)
    } else {
        t
    }
}

/// A binary operator between two spaces.
pub open spec fn spaced(op: Op) -> Seq<u8> {
    seq![SPACE, op_byte(op), SPACE]
}

/// The canonical text of an expression: a number is its literal, a minus
/// sign stands directly before its operand, a binary operator stands
/// between two spaces, and an operand is in parentheses only where the
/// text would be read otherwise without them.
pub open spec fn canonical(ast: Ast) -> Seq<u8>
    decreases ast,
{
    match ast {
        Ast::Number(literal) => encode_utf8(literal),
        Ast::UnaryMinus(operand) => seq![MINUS] + side(
            canonical(*operand),
            wrapped_operand(*operand),
        ),
        Ast::BinOp(lhs, op, rhs) => side(canonical(*lhs), wrapped_left(*lhs, op)) + spaced(op)
            + side(canonical(*rhs), wrapped_right(*rhs, op)),
    }
}

/// How deep the parentheses of the canonical text nest.
pub open spec fn nesting(ast: Ast) -> nat
    decreases ast,
{
    match ast {
        Ast::Number(_) => 0,
        Ast::UnaryMinus(operand) => deepened(nesting(*operand), wrapped_operand(*operand)),
        Ast::BinOp(lhs, op, rhs) => {
            let left = deepened(nesting(*lhs), wrapped_left(*lhs, op));
            let right = deepened(nesting(*rhs), wrapped_right(*rhs, op));
            if left >= right {
                left
            } else {
                right
            }
        },
    }
}

/// The depth of a text, one more where it is in parentheses.
pub open spec fn deepened(depth: nat, wrapped: bool) -> nat {
    if wrapped {
        depth + 1
    } else {
        depth
    }
}

/// The text `s` holds `t` from `i` on.
pub open spec fn holds(s: Seq<u8>, i: int, t: Seq<u8>) -> bool {
    &&& 0 <= i
    &&& i + t.len() <= s.len()
    &&& forall|k: int| 0 <= k < t.len() ==> s[i + k] == #[trigger] t[k]
}

/// The node of the expression `ast` whose text stands in parentheses that
/// open at `at`.
pub open spec fn group(ast: Ast, at: int) -> Node
    decreases ast, 1int,
{
    Node {
        rule: Rule::expr,
        start: at + 1,
        end: at + 1 + canonical(ast).len(),
        inner: items(ast, at + 1),
    }
}

/// The nodes of `ast`, wrapped or not, whose text starts at `at`.
pub open spec fn side_items(ast: Ast, wrapped: bool, at: int) -> Seq<Node>
    decreases ast, 2int,
{
    if wrapped {
        seq![group(ast, at)]
    } else {
        items(ast, at)
    }
}

/// The nodes that the grammar leaves inside the expression whose text is
/// the canonical text of `ast` and starts at `at`.
pub open spec fn items(ast: Ast, at: int) -> Seq<Node>
    decreases ast, 0int,
{
    match ast {
        Ast::Number(literal) => seq![leaf(Rule::number, at, at + encode_utf8(literal).len())],
        Ast::UnaryMinus(operand) => seq![leaf(Rule::unary_minus, at, at + 1)] + side_items(
            *operand,
            wrapped_operand(*operand),
            at + 1,
        ),
        Ast::BinOp(lhs, op, rhs) => {
            let left = side(canonical(*lhs), wrapped_left(*lhs, op)).len();
            side_items(*lhs, wrapped_left(*lhs, op), at) + seq![
                leaf(op_rule(op), at + left + 1, at + left + 2),
            ] + side_items(*rhs, wrapped_right(*rhs, op), at + left + 3)
        },
    }
}

/// A canonical text starts as an atom does: with a digit, a minus sign or
/// a parenthesis.
pub open spec fn starts_atom(t: Seq<u8>) -> bool {
    t.len() > 0 && (is_digit(t[0]) || t[0] == MINUS || t[0] == OPEN)
}

/// A number starts with a digit and holds digits and points only.
pub proof fn lemma_number_text(t: Seq<u8>)
    requires
        is_number_text(t),
    ensures
        is_digit(t[0]),
        forall|k: int| 0 <= k < t.len() ==> is_digit(#[trigger] t[k]) || t[k] == POINT,
{
    lemma_digits_end(t, 0);
    let j = digits_end(t, 0);
    if j < t.len() {
        lemma_digits_end(t, j + 1);
    }
}

/// How the canonical text of an expression starts.
pub proof fn lemma_canonical_starts(ast: Ast)
    requires
        writable(ast),
    ensures
        starts_atom(canonical(ast)),
        ast is Number ==> is_digit(canonical(ast)[0]),
        ast is UnaryMinus ==> canonical(ast)[0] == MINUS,
        ast is BinOp ==> starts_atom(canonical(ast)),
    decreases ast,
{
    match ast {
        Ast::Number(literal) => {
            lemma_number_text(encode_utf8(literal));
        },
        Ast::UnaryMinus(operand) => {},
        Ast::BinOp(lhs, op, rhs) => {
            lemma_canonical_starts(*lhs);
        },
    }
}

/// No number goes on at `e`: the text ends there, or holds neither a
/// digit nor a point there.
pub open spec fn ends_clean(s: Seq<u8>, e: int) -> bool {
    0 <= e <= s.len() && (e < s.len() ==> !is_digit(s[e]) && s[e] != POINT)
}

/// No expression goes on at `e`: the text ends there, or a parenthesis
/// closes there.
pub open spec fn ends_expression(s: Seq<u8>, e: int) -> bool {
    0 <= e <= s.len() && (e < s.len() ==> s[e] == CLOSE)
}

/// Reading an atom at `i` and the rounds after it gives `nodes` and then
/// whatever the rounds from `e` on give.
pub open spec fn reads_as(s: Seq<u8>, i: int, depth: nat, nodes: Seq<Node>, e: int) -> bool {
    &&& atom_at(s, i, depth) matches Ok(first)
    &&& i < first.1 <= e
    &&& first.0 + tail_at(s, first.1, depth).0 == nodes + tail_at(s, e, depth).0
    &&& tail_at(s, first.1, depth).1 == tail_at(s, e, depth).1
    &&& tail_at(s, first.1, depth).2 == tail_at(s, e, depth).2
}

/// A text that holds two texts in a row holds each of them.
proof fn lemma_holds_split(s: Seq<u8>, i: int, a: Seq<u8>, b: Seq<u8>)
    requires
        holds(s, i, a + b),
    ensures
        holds(s, i, a),
        holds(s, i + a.len(), b),
{
    assert forall|k: int| 0 <= k < a.len() implies s[i + k] == #[trigger] a[k] by {
        assert((a + b)[k] == a[k]);
    }
    assert forall|k: int| 0 <= k < b.len() implies s[i + a.len() + k] == #[trigger] b[k] by {
        assert((a + b)[a.len() + k] == b[k]);
    }
}

/// A run of digits inside a text held by `s` runs in `s` as far, or on
/// from where the held text ends.
proof fn lemma_digits_embedded(s: Seq<u8>, i: int, t: Seq<u8>, k: int)
    requires
        holds(s, i, t),
        0 <= k <= t.len(),
    ensures
        digits_end(t, k) < t.len() ==> digits_end(s, i + k) == i + digits_end(t, k),
        digits_end(t, k) >= t.len() ==> digits_end(s, i + k) == digits_end(s, i + t.len()),
    decreases t.len() - k,
{
    lemma_digits_end(t, k);
    if k < t.len() {
        assert(s[i + k] == t[k]);
        if is_digit(t[k]) {
            lemma_digits_embedded(s, i, t, k + 1);
        }
    }
}

/// A number held by `s` is read as a whole where no number goes on
/// after it.
proof fn lemma_number_embedded(s: Seq<u8>, i: int, t: Seq<u8>)
    requires
        holds(s, i, t),
        is_number_text(t),
        ends_clean(s, i + t.len()),
    ensures
        number_end(s, i) == i + t.len(),
{
    let e = i + t.len();
    let j = digits_end(t, 0);
    lemma_digits_end(t, 0);
    lemma_digits_embedded(s, i, t, 0);
    lemma_digits_end(s, e);
    assert(digits_end(s, e) == e);
    if j < t.len() {
        lemma_digits_end(t, j + 1);
        lemma_digits_embedded(s, i, t, j + 1);
        assert(s[i + j] == t[j]);
    }
}

/// A canonical text in parentheses is read as a primary.
proof fn lemma_reads_group(ast: Ast, s: Seq<u8>, p: int, depth: nat)
    requires
        writable(ast),
        holds(s, p, in_parentheses(canonical(ast))),
        nesting(ast) + 1 <= depth,
    ensures
        primary_at(s, p, depth) == Ok::<(Node, int), Failure>(
            (group(ast, p), p + canonical(ast).len() + 2),
        ),
    decreases ast, 5int,
{
    let t = canonical(ast);
    let n = t.len() as int;
    let whole = in_parentheses(t);
    lemma_canonical_starts(ast);
    assert(whole[0] == OPEN);
    assert(whole[n + 1] == CLOSE);
    assert(whole[1] == t[0]);
    assert(s[p] == OPEN);
    assert(s[p + n + 1] == CLOSE);
    lemma_holds_split(s, p, seq![OPEN] + t, seq![CLOSE]);
    lemma_holds_split(s, p, seq![OPEN], t);
    lemma_digits_end(s, p);
    assert(number_end(s, p) == p);
    assert(s[p + 1] == t[0]);
    assert(blanks_end(s, p + 1) == p + 1);
    lemma_reads_expr(ast, s, p + 1, (depth - 1) as nat);
    assert(blanks_end(s, p + 1 + n) == p + 1 + n);
}

/// A canonical text after which a parenthesis closes, or the text ends,
/// is read as an expression, and its nodes are those of `items`.
pub proof fn lemma_reads_expr(ast: Ast, s: Seq<u8>, i: int, depth: nat)
    requires
        writable(ast),
        holds(s, i, canonical(ast)),
        nesting(ast) <= depth,
        ends_expression(s, i + canonical(ast).len()),
    ensures
        expr_at(s, i, depth) == Ok::<(Node, int, Failure), Failure>(
            (
                Node {
                    rule: Rule::expr,
                    start: i,
                    end: i + canonical(ast).len(),
                    inner: items(ast, i),
                },
                i + canonical(ast).len(),
                Failure { position: i + canonical(ast).len(), expected: Expected::Operator },
            ),
        ),
    decreases ast, 4int,
{
    let e = i + canonical(ast).len();
    lemma_reads_atoms(ast, s, i, depth);
    assert(blanks_end(s, e) == e);
    assert(tail_at(s, e, depth) == (
        Seq::<Node>::empty(),
        e,
        Failure { position: e, expected: Expected::Operator },
    ));
    let first = atom_at(s, i, depth)->Ok_0;
    let more = tail_at(s, first.1, depth).0;
    assert(first.0 + more =~= items(ast, i));
}

/// A side of an operation is read as its nodes.
proof fn lemma_reads_side(ast: Ast, wrapped: bool, s: Seq<u8>, p: int, depth: nat)
    requires
        writable(ast),
        holds(s, p, side(canonical(ast), wrapped)),
        deepened(nesting(ast), wrapped) <= depth,
        ends_clean(s, p + side(canonical(ast), wrapped).len()),
    ensures
        reads_as(
            s,
            p,
            depth,
            side_items(ast, wrapped, p),
            p + side(canonical(ast), wrapped).len(),
        ),
    decreases ast, 6int,
{
    if wrapped {
        let e = p + canonical(ast).len() + 2;
        lemma_reads_group(ast, s, p, depth);
        assert(in_parentheses(canonical(ast))[0] == OPEN);
        assert(s[p] == OPEN);
        assert(blanks_end(s, p) == p);
        assert(atom_at(s, p, depth) == Ok::<(Seq<Node>, int), Failure>((seq![group(ast, p)], e)));
    } else {
        lemma_reads_atoms(ast, s, p, depth);
    }
}

/// One round of the rounds after an atom: an operator and an atom.
proof fn lemma_round(s: Seq<u8>, q: int, depth: nat, k: int, p: int)
    requires
        blanks_end(s, q) == k,
        0 <= k < s.len(),
        operator_rule(s[k]) is Some,
        blanks_end(s, k + 1) == p,
        atom_at(s, p, depth) matches Ok(found) && q < found.1 <= s.len(),
    ensures
        ({
            let found = atom_at(s, p, depth)->Ok_0;
            let rest = tail_at(s, found.1, depth);
            tail_at(s, q, depth) == (
                seq![leaf(operator_rule(s[k])->0, k, k + 1)] + found.0 + rest.0,
                rest.1,
                rest.2,
            )
        }),
{
}

/// A number is read as its node.
proof fn lemma_reads_number(ast: Ast, s: Seq<u8>, i: int, depth: nat)
    requires
        ast is Number,
        writable(ast),
        holds(s, i, canonical(ast)),
        ends_clean(s, i + canonical(ast).len()),
    ensures
        reads_as(s, i, depth, items(ast, i), i + canonical(ast).len()),
{
    let t = canonical(ast);
    let e = i + t.len();
    lemma_number_text(t);
    assert(s[i] == t[0]);
    lemma_number_embedded(s, i, t);
    assert(blanks_end(s, i) == i);
    assert(primary_at(s, i, depth) == Ok::<(Node, int), Failure>(
        (leaf(Rule::number, i, e), e),
    ));
    assert(atom_at(s, i, depth) == Ok::<(Seq<Node>, int), Failure>(
        (seq![leaf(Rule::number, i, e)], e),
    ));
    assert(items(ast, i) =~= seq![leaf(Rule::number, i, e)]);
}

/// A minus sign and its operand are read as their nodes.
proof fn lemma_reads_minus(ast: Ast, s: Seq<u8>, i: int, depth: nat)
    requires
        ast is UnaryMinus,
        writable(ast),
        holds(s, i, canonical(ast)),
        nesting(ast) <= depth,
        ends_clean(s, i + canonical(ast).len()),
    ensures
        reads_as(s, i, depth, items(ast, i), i + canonical(ast).len()),
    decreases ast, 1int,
{
    let operand = *ast->UnaryMinus_0;
    let e = i + canonical(ast).len();
    let wrapped = wrapped_operand(operand);
    let inner = side(canonical(operand), wrapped);
    assert(canonical(ast) == seq![MINUS] + inner);
    assert(canonical(ast)[0] == MINUS);
    assert(s[i] == MINUS);
    lemma_holds_split(s, i, seq![MINUS], inner);
    lemma_canonical_starts(operand);
    assert(s[i + 1] == inner[0]);
    assert(blanks_end(s, i + 1) == i + 1);
    let node = if wrapped {
        group(operand, i + 1)
    } else {
        leaf(Rule::number, i + 1, e)
    };
    if wrapped {
        lemma_reads_group(operand, s, i + 1, depth);
    } else {
        assert(operand is Number);
        assert(writable(operand));
        lemma_number_embedded(s, i + 1, inner);
        assert(primary_at(s, i + 1, depth) == Ok::<(Node, int), Failure>((node, e)));
        assert(items(operand, i + 1) =~= seq![node]);
    }
    assert(primary_at(s, i + 1, depth) == Ok::<(Node, int), Failure>((node, e)));
    assert(atom_at(s, i, depth) == Ok::<(Seq<Node>, int), Failure>(
        (seq![leaf(Rule::unary_minus, i, i + 1), node], e),
    ));
    assert(items(ast, i) =~= seq![leaf(Rule::unary_minus, i, i + 1), node]);
}

/// An operator between two spaces, before a text that starts as an atom
/// does.
proof fn lemma_sign_bytes(s: Seq<u8>, q: int, op: Op)
    requires
        holds(s, q, spaced(op)),
        q + 3 < s.len(),
        !is_blank(s[q + 3]),
    ensures
        blanks_end(s, q) == q + 1,
        blanks_end(s, q + 2) == q + 3,
        operator_rule(s[q + 1]) == Some(op_rule(op)),
{
    let sign = spaced(op);
    assert(s[q] == sign[0]);
    assert(s[q + 1] == sign[1]);
    assert(s[q + 2] == sign[2]);
    assert(blanks_end(s, q + 1) == q + 1);
    assert(blanks_end(s, q + 3) == q + 3);
}

/// The text of a side starts as an atom does.
proof fn lemma_side_starts(ast: Ast, wrapped: bool)
    requires
        writable(ast),
    ensures
        starts_atom(side(canonical(ast), wrapped)),
{
    lemma_canonical_starts(ast);
    if wrapped {
        assert(in_parentheses(canonical(ast))[0] == OPEN);
    }
}

/// Where the parts of an operation's text stand.
proof fn lemma_binary_layout(lhs: Ast, op: Op, rhs: Ast, s: Seq<u8>, i: int)
    requires
        writable(lhs),
        writable(rhs),
        holds(s, i, canonical(Ast::BinOp(Box::new(lhs), op, Box::new(rhs)))),
    ensures
        ({
            let lt = side(canonical(lhs), wrapped_left(lhs, op));
            let rt = side(canonical(rhs), wrapped_right(rhs, op));
            let q = i + lt.len();
            &&& holds(s, i, lt)
            &&& holds(s, q, spaced(op))
            &&& holds(s, q + 3, rt)
            &&& canonical(Ast::BinOp(Box::new(lhs), op, Box::new(rhs))).len() == lt.len() + 3
                + rt.len()
            &&& q + 3 < s.len()
            &&& !is_blank(s[q + 3])
            &&& ends_clean(s, q)
        }),
{
    let ast = Ast::BinOp(Box::new(lhs), op, Box::new(rhs));
    let lt = side(canonical(lhs), wrapped_left(lhs, op));
    let rt = side(canonical(rhs), wrapped_right(rhs, op));
    let sign = spaced(op);
    let q = i + lt.len();
    assert(canonical(ast) == lt + sign + rt);
    lemma_holds_split(s, i, lt + sign, rt);
    lemma_holds_split(s, i, lt, sign);
    lemma_side_starts(rhs, wrapped_right(rhs, op));
    assert(s[q + 3] == rt[0]);
    assert(s[q] == sign[0]);
}

/// The nodes of a left side, an operator and the nodes of a right side,
/// read one after the other.
proof fn lemma_compose(
    s: Seq<u8>,
    depth: nat,
    i: int,
    q: int,
    p: int,
    e: int,
    left: Seq<Node>,
    mark: Node,
    right: Seq<Node>,
)
    requires
        reads_as(s, i, depth, left, q),
        reads_as(s, p, depth, right, e),
        ({
            let found = atom_at(s, p, depth)->Ok_0;
            let rest = tail_at(s, found.1, depth);
            tail_at(s, q, depth) == (seq![mark] + found.0 + rest.0, rest.1, rest.2)
        }),
        q <= p,
    ensures
        reads_as(s, i, depth, left + seq![mark] + right, e),
{
    let first = atom_at(s, i, depth)->Ok_0;
    let found = atom_at(s, p, depth)->Ok_0;
    let rest = tail_at(s, e, depth);
    let after = tail_at(s, found.1, depth).0;
    assert(first.0 + tail_at(s, first.1, depth).0 == left + (seq![mark] + found.0 + after));
    assert(found.0 + after == right + rest.0);
    assert(seq![mark] + found.0 + after =~= seq![mark] + (found.0 + after));
    assert(left + (seq![mark] + (right + rest.0)) =~= (left + seq![mark] + right) + rest.0);
}

/// An operation is read as the nodes of its left side, its operator and
/// the nodes of its right side.
proof fn lemma_reads_binary(ast: Ast, s: Seq<u8>, i: int, depth: nat)
    requires
        ast is BinOp,
        writable(ast),
        holds(s, i, canonical(ast)),
        nesting(ast) <= depth,
        ends_clean(s, i + canonical(ast).len()),
    ensures
        reads_as(s, i, depth, items(ast, i), i + canonical(ast).len()),
    decreases ast, 1int,
{
    let lhs = *ast->BinOp_0;
    let op = ast->BinOp_1;
    let rhs = *ast->BinOp_2;
    let wl = wrapped_left(lhs, op);
    let wr = wrapped_right(rhs, op);
    let lt = side(canonical(lhs), wl);
    let e = i + canonical(ast).len();
    let q = i + lt.len();
    let p = q + 3;
    let mark = leaf(op_rule(op), q + 1, q + 2);
    assert(ast == Ast::BinOp(Box::new(lhs), op, Box::new(rhs)));
    lemma_binary_layout(lhs, op, rhs, s, i);
    lemma_sign_bytes(s, q, op);
    lemma_reads_side(lhs, wl, s, i, depth);
    lemma_reads_side(rhs, wr, s, p, depth);
    lemma_round(s, q, depth, q + 1, p);
    lemma_compose(s, depth, i, q, p, e, side_items(lhs, wl, i), mark, side_items(rhs, wr, p));
    assert(items(ast, i) == side_items(lhs, wl, i) + seq![mark] + side_items(rhs, wr, p));
}

/// A canonical text is read as its nodes, and reading goes on after it.
proof fn lemma_reads_atoms(ast: Ast, s: Seq<u8>, i: int, depth: nat)
    requires
        writable(ast),
        holds(s, i, canonical(ast)),
        nesting(ast) <= depth,
        ends_clean(s, i + canonical(ast).len()),
    ensures
        reads_as(s, i, depth, items(ast, i), i + canonical(ast).len()),
    decreases ast, 2int,
{
    match ast {
        Ast::Number(_) => lemma_reads_number(ast, s, i, depth),
        Ast::UnaryMinus(_) => lemma_reads_minus(ast, s, i, depth),
        Ast::BinOp(_, _, _) => lemma_reads_binary(ast, s, i, depth),
    }
}

/// A side has at least one node, and an expression in parentheses or a
/// number has exactly one.
proof fn lemma_items_len(ast: Ast, at: int)
    ensures
        items(ast, at).len() >= 1,
        ast is Number ==> items(ast, at).len() == 1,
    decreases ast,
{
    match ast {
        Ast::Number(_) => {},
        Ast::UnaryMinus(operand) => {},
        Ast::BinOp(lhs, op, rhs) => {},
    }
}

/// Among the nodes of an expression that is no operation of a level
/// below `bound`, no operator is of a level below `bound`.
proof fn lemma_items_levels(ast: Ast, at: int, bound: nat)
    requires
        ast matches Ast::BinOp(_, op, _) ==> op_level(op) >= bound,
    ensures
        forall|j: int|
            0 <= j < items(ast, at).len() && binary_level(#[trigger] items(ast, at)[j].rule)
                is Some ==> binary_level(items(ast, at)[j].rule)->0 >= bound,
    decreases ast,
{
    let all = items(ast, at);
    match ast {
        Ast::Number(text) => {
            assert(all =~= seq![leaf(Rule::number, at, at + encode_utf8(text).len())]);
        },
        Ast::UnaryMinus(operand) => {
            let rest = side_items(*operand, wrapped_operand(*operand), at + 1);
            lemma_items_len(*operand, at + 1);
            assert(rest.len() == 1);
            assert(rest[0].rule == Rule::number || rest[0].rule == Rule::expr);
            assert(all == seq![leaf(Rule::unary_minus, at, at + 1)] + rest);
            assert forall|j: int|
                0 <= j < all.len() implies binary_level(#[trigger] all[j].rule) is None by {
                if j == 1 {
                    assert(all[j] == rest[0]);
                }
            }
        },
        Ast::BinOp(lhs, op, rhs) => {
            let wl = wrapped_left(*lhs, op);
            let wr = wrapped_right(*rhs, op);
            let left = side(canonical(*lhs), wl).len();
            let first = side_items(*lhs, wl, at);
            let mark = leaf(op_rule(op), at + left + 1, at + left + 2);
            let second = side_items(*rhs, wr, at + left + 3);
            if !wl {
                lemma_items_levels(*lhs, at, op_level(op));
            }
            if !wr {
                lemma_items_levels(*rhs, at + left + 3, op_level(op) + 1);
            }
            assert(all == first + seq![mark] + second);
            assert forall|j: int|
                0 <= j < all.len() && binary_level(#[trigger] all[j].rule) is Some implies binary_level(
                all[j].rule,
            )->0 >= bound by {
                if j < first.len() {
                    assert(all[j] == first[j]);
                } else if j == first.len() {
                    assert(all[j] == mark);
                } else {
                    assert(all[j] == second[j - first.len() - 1]);
                }
            }
        },
    }
}

/// The nodes of a side write the side's expression.
proof fn lemma_side_ast(ast: Ast, wrapped: bool, s: Seq<u8>, at: int, nodes: Seq<Node>, lo: int)
    requires
        writable(ast),
        holds(s, at, side(canonical(ast), wrapped)),
        0 <= lo,
        lo + side_items(ast, wrapped, at).len() <= nodes.len(),
        nodes.subrange(lo, lo + side_items(ast, wrapped, at).len()) == side_items(
            ast,
            wrapped,
            at,
        ),
    ensures
        ast_of(s, nodes, lo, lo + side_items(ast, wrapped, at).len()) == ast,
    decreases ast, 1int,
{
    if wrapped {
        let hi = lo + 1;
        let node = group(ast, at);
        assert(nodes[lo] == nodes.subrange(lo, lo + 1)[0]);
        assert(nodes[lo] == node);
        assert forall|k: int| !splits_at(nodes, lo, hi, k) by {}
        lemma_holds_split(s, at, seq![OPEN] + canonical(ast), seq![CLOSE]);
        lemma_holds_split(s, at, seq![OPEN], canonical(ast));
        lemma_items_len(ast, at + 1);
        let inner = items(ast, at + 1);
        assert(inner.subrange(0, inner.len() as int) =~= inner);
        lemma_items_ast(ast, s, at + 1, inner, 0);
    } else {
        lemma_items_ast(ast, s, at, nodes, lo);
    }
}

/// The nodes of an expression's canonical text write the expression.
proof fn lemma_items_ast(ast: Ast, s: Seq<u8>, at: int, nodes: Seq<Node>, lo: int)
    requires
        writable(ast),
        holds(s, at, canonical(ast)),
        0 <= lo,
        lo + items(ast, at).len() <= nodes.len(),
        nodes.subrange(lo, lo + items(ast, at).len()) == items(ast, at),
    ensures
        ast_of(s, nodes, lo, lo + items(ast, at).len()) == ast,
    decreases ast, 0int,
{
    let all = items(ast, at);
    let hi = lo + all.len();
    lemma_items_len(ast, at);
    assert forall|j: int| 0 <= j < all.len() implies nodes[lo + j] == all[j] by {
        assert(nodes.subrange(lo, hi)[j] == nodes[lo + j]);
    }
    match ast {
        Ast::Number(text) => {
            assert(nodes[lo] == all[0]);
            assert forall|k: int| !splits_at(nodes, lo, hi, k) by {}
            assert(s.subrange(at, at + encode_utf8(text).len()) =~= encode_utf8(text));
            encode_utf8_decode_utf8(text);
        },
        Ast::UnaryMinus(operand) => {
            let wrapped = wrapped_operand(*operand);
            let rest = side_items(*operand, wrapped, at + 1);
            lemma_items_len(*operand, at + 1);
            assert(rest.len() == 1);
            assert(nodes[lo] == all[0]);
            assert(nodes[lo + 1] == all[1]);
            assert(all[1] == rest[0]);
            assert forall|k: int| !splits_at(nodes, lo, hi, k) by {}
            lemma_holds_split(s, at, seq![MINUS], side(canonical(*operand), wrapped));
            assert(nodes.subrange(lo + 1, lo + 2) =~= rest);
            lemma_side_ast(*operand, wrapped, s, at + 1, nodes, lo + 1);
        },
        Ast::BinOp(lhs, op, rhs) => {
            let wl = wrapped_left(*lhs, op);
            let wr = wrapped_right(*rhs, op);
            let left = side(canonical(*lhs), wl).len();
            let first = side_items(*lhs, wl, at);
            let mark = leaf(op_rule(op), at + left + 1, at + left + 2);
            let second = side_items(*rhs, wr, at + left + 3);
            let k = lo + first.len();
            assert(all == first + seq![mark] + second);
            lemma_binary_layout(*lhs, op, *rhs, s, at);
            if wl {
            } else {
                lemma_items_levels(*lhs, at, op_level(op));
                lemma_items_len(*lhs, at);
            }
            if wr {
            } else {
                lemma_items_levels(*rhs, at + left + 3, op_level(op) + 1);
                lemma_items_len(*rhs, at + left + 3);
            }
            assert(nodes[k] == all[first.len() as int]);
            assert(nodes[k] == mark);
            assert(splits_at(nodes, lo, hi, k)) by {
                assert forall|j: int|
                    lo <= j < k && binary_level(#[trigger] nodes[j].rule) is Some implies binary_level(
                    nodes[j].rule,
                )->0 >= binary_level(nodes[k].rule)->0 by {
                    assert(nodes[j] == all[j - lo]);
                    assert(all[j - lo] == first[j - lo]);
                }
                assert forall|j: int|
                    k < j < hi && binary_level(#[trigger] nodes[j].rule) is Some implies binary_level(
                    nodes[j].rule,
                )->0 > binary_level(nodes[k].rule)->0 by {
                    assert(nodes[j] == all[j - lo]);
                    assert(all[j - lo] == second[j - k - 1]);
                }
            }
            lemma_split_unique(nodes, lo, hi, k);
            assert(nodes.subrange(lo, k) =~= first);
            assert(nodes.subrange(k + 1, hi) =~= second) by {
                assert(all.len() == first.len() + 1 + second.len());
                assert forall|j: int| 0 <= j < second.len() implies nodes[k + 1 + j]
                    == second[j] by {
                    assert(nodes[lo + (first.len() + 1 + j)] == all[first.len() + 1 + j]);
                }
            }
            lemma_side_ast(*lhs, wl, s, at, nodes, lo);
            lemma_side_ast(*rhs, wr, s, at + left + 3, nodes, k + 1);
        },
    }
}

/// Reading the canonical text of an expression gives the expression
/// back, whatever the expression is, as long as its literals are numbers
/// and its canonical text nests no deeper than the grammar reads.
pub proof fn lemma_canonical_round_trip(ast: Ast)
    requires
        writable(ast),
        nesting(ast) <= MAX_DEPTH,
    ensures
        expression_of(canonical(ast)) == Ok::<Ast, Failure>(ast),
{
    let s = canonical(ast);
    lemma_canonical_starts(ast);
    assert(blanks_end(s, 0) == 0);
    lemma_reads_expr(ast, s, 0, MAX_DEPTH as nat);
    assert(blanks_end(s, s.len() as int) == s.len());
    let all = items(ast, 0);
    assert(all.subrange(0, all.len() as int) =~= all);
    lemma_items_ast(ast, s, 0, all, 0);
}

/// The bytes of two texts in a row are the bytes of the one and then the
/// bytes of the other.
pub proof fn lemma_encode_concat(a: Seq<char>, b: Seq<char>)
    ensures
        encode_utf8(a + b) == encode_utf8(a) + encode_utf8(b),
    decreases a.len(),
{
    if a.len() == 0 {
        assert(a + b =~= b);
        assert(encode_utf8(a) + encode_utf8(b) =~= encode_utf8(b));
    } else {
        assert((a + b).drop_first() =~= a.drop_first() + b);
        lemma_encode_concat(a.drop_first(), b);
        assert(encode_utf8(a + b) =~= encode_utf8(a) + encode_utf8(b));
    }
}

/// The level of an operation.
fn level_of(op: Op) -> (level: u8)
    ensures
        level == op_level(op),
{
    match op {
        Op::Add | Op::Subtract => 1,
        Op::Multiply | Op::Divide => 2,
    }
}

/// The operation between two spaces.
fn spaced_text(op: Op) -> (text: &'static str)
    ensures
        encode_utf8(text@) == spaced(op),
{
    let text = match op {
        Op::Add => " + ",
        Op::Subtract => " - ",
        Op::Multiply => " * ",
        Op::Divide => " / ",
    };
    proof {
        reveal_strlit(" + ");
        reveal_strlit(" - ");
        reveal_strlit(" * ");
        reveal_strlit(" / ");
        assert(is_ascii_chars(text@));
        is_ascii_chars_encode_utf8(text@);
        assert(encode_utf8(text@) =~= spaced(op));
    }
    text
}

/// Puts `piece` at the end of `out`.
fn put(out: &mut String, piece: &str)
    ensures
        encode_utf8(final(out)@) == encode_utf8(old(out)@) + encode_utf8(piece@),
{
    proof {
        lemma_encode_concat(out@, piece@);
    }
    out.append(piece);
}

/// Puts the one ASCII character of `piece` at the end of `out`.
fn put_byte(out: &mut String, piece: &str, Ghost(b): Ghost<u8>)
    requires
        piece@.len() == 1,
        is_ascii_chars(piece@),
        piece@[0] as u8 == b,
    ensures
        encode_utf8(final(out)@) == encode_utf8(old(out)@) + seq![b],
{
    proof {
        is_ascii_chars_encode_utf8(piece@);
        assert(encode_utf8(piece@) =~= seq![b]);
    }
    put(out, piece);
}

/// Puts the canonical text of `expr` at the end of `out`, in parentheses
/// where `wrapped` says so.
fn write_side(expr: &Expr, wrapped: bool, out: &mut String)
    ensures
        encode_utf8(final(out)@) == encode_utf8(old(out)@) + side(canonical(expr@), wrapped),
    decreases expr, 1int,
{
    let ghost before = encode_utf8(out@);
    if wrapped {
        proof {
            reveal_strlit("(");
            reveal_strlit(")");
        }
        put_byte(out, "(", Ghost(OPEN));
        write(expr, out);
        put_byte(out, ")", Ghost(CLOSE));
        assert(encode_utf8(out@) =~= before + in_parentheses(canonical(expr@)));
    } else {
        write(expr, out);
    }
}

/// Puts the canonical text of `expr` at the end of `out`.
fn write(expr: &Expr, out: &mut String)
    ensures
        encode_utf8(final(out)@) == encode_utf8(old(out)@) + canonical(expr@),
    decreases expr, 0int,
{
    let ghost before = encode_utf8(out@);
    match expr {
        Expr::Number(literal) => {
            put(out, literal.as_str());
        },
        Expr::UnaryMinus(operand) => {
            proof {
                reveal_strlit("-");
            }
            put_byte(out, "-", Ghost(MINUS));
            let wrapped = match &**operand {
                Expr::Number(_) => false,
                _ => true,
            };
            write_side(operand, wrapped, out);
            assert(encode_utf8(out@) =~= before + canonical(expr@));
        },
        Expr::BinOp { lhs, op, rhs } => {
            let wrapped_lhs = match &**lhs {
                Expr::BinOp { op: inner, .. } => level_of(*inner) < level_of(*op),
                _ => false,
            };
            let wrapped_rhs = match &**rhs {
                Expr::BinOp { op: inner, .. } => level_of(*inner) <= level_of(*op),
                _ => false,
            };
            write_side(lhs, wrapped_lhs, out);
            put(out, spaced_text(*op));
            write_side(rhs, wrapped_rhs, out);
            assert(encode_utf8(out@) =~= before + canonical(expr@));
        },
    }
}

impl Expr {
    /// The canonical text of the expression.
    pub fn to_text(&self) -> (text: String)
        ensures
            encode_utf8(text@) == canonical(self@),
    {
        let mut text = String::new();
        write(self, &mut text);
        assert(encode_utf8(Seq::<char>::empty()) =~= Seq::<u8>::empty());
        assert(Seq::<u8>::empty() + canonical(self@) =~= canonical(self@));
        text
    }
}

} // verus!
