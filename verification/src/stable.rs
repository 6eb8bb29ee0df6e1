//! The canonical text of what a text writes is read as the same
//! expression: of well shaped nodes the builder makes only expressions
//! that their canonical text gives back.

use vstd::prelude::*;
use vstd::utf8::{
    decode_utf8_encode_utf8,
    is_leading_byte_width_1,
    partial_valid_utf8,
    partial_valid_utf8_extend_ascii_block,
    valid_utf8,
};
use crate::ast::{ast_of, binary_level, lemma_split_unique, spec_op_of, splits_at, Ast};
use crate::eval::expression_of;
use crate::grammar::{expr_at, Failure, Node, MAX_DEPTH};
use crate::render::{
    canonical,
    deepened,
    is_number_text,
    lemma_canonical_round_trip,
    nesting,
    op_level,
    writable,
};
use crate::rule::Rule;
use crate::shape::{
    is_operand,
    lemma_expr_shape,
    lemma_last_operand,
    link_ok,
    starts_operand,
    well_shaped,
};
use crate::text::{blanks_end, digits_end, is_digit, lemma_blanks_end, lemma_digits_end, number_end, POINT};

verus! {

/// Digits from `k` up to `j`, and none at `j`.
proof fn lemma_digits_run(t: Seq<u8>, k: int, j: int)
    requires
        0 <= k <= j <= t.len(),
        forall|m: int| k <= m < j ==> is_digit(#[trigger] t[m]),
        j < t.len() ==> !is_digit(t[j]),
    ensures
        digits_end(t, k) == j,
    decreases j - k,
{
    if k < j {
        assert(is_digit(t[k]));
        lemma_digits_run(t, k + 1, j);
    }
}

/// What a number's node covers is, taken by itself, a number, and its
/// bytes are a text.
proof fn lemma_number_standalone(s: Seq<u8>, start: int, end: int)
    requires
        0 <= start < end <= s.len(),
        number_end(s, start) == end,
    ensures
        is_number_text(s.subrange(start, end)),
        valid_utf8(s.subrange(start, end)),
{
    let t = s.subrange(start, end);
    let j = digits_end(s, start);
    lemma_digits_end(s, start);
    if j < s.len() {
        lemma_digits_end(s, j + 1);
    }
    if j == end {
        lemma_digits_run(t, 0, t.len() as int);
    } else {
        assert(s[j] == POINT);
        assert(t[j - start] == POINT);
        lemma_digits_run(t, 0, j - start);
        lemma_digits_run(t, j - start + 1, t.len() as int);
    }
    assert forall|i: int| 0 <= i < t.len() implies #[trigger] is_leading_byte_width_1(t[i]) by {
        assert(t[i] == s[start + i]);
    }
    assert(t.subrange(0, 0) =~= Seq::<u8>::empty());
    assert(partial_valid_utf8(t, 0));
    partial_valid_utf8_extend_ascii_block(t, 0, t.len() as int);
    assert(t.subrange(0, t.len() as int) =~= t);
}

/// What the builder makes of `nodes[lo..hi]` can be written, and its
/// canonical text nests no deeper than `depth`. Where the nodes split, it
/// is an operation of the level of the operator at which they split;
/// where they do not, it is a number, or a negation, or what stood in
/// parentheses and nests less deep by one.
pub open spec fn fits(s: Seq<u8>, nodes: Seq<Node>, lo: int, hi: int, depth: nat) -> bool {
    let ast = ast_of(s, nodes, lo, hi);
    &&& writable(ast)
    &&& nesting(ast) <= depth
    &&& forall|k: int| #[trigger]
        splits_at(nodes, lo, hi, k) ==> (ast matches Ast::BinOp(_, op, _) && op_level(op)
            == binary_level(nodes[k].rule)->0)
    &&& !(exists|k: int| splits_at(nodes, lo, hi, k)) ==> {
        &&& nodes[lo].rule == Rule::expr ==> nesting(ast) + 1 <= depth
        &&& nodes[lo].rule == Rule::number ==> ast is Number
        &&& nodes[lo].rule == Rule::unary_minus ==> ast is UnaryMinus
    }
}

/// A side that is written in parentheses stood in parentheses.
proof fn lemma_side_fits(
    s: Seq<u8>,
    nodes: Seq<Node>,
    lo: int,
    hi: int,
    depth: nat,
    bound: nat,
    strict: bool,
)
    requires
        0 <= lo < hi <= nodes.len(),
        starts_operand(nodes[lo].rule),
        fits(s, nodes, lo, hi, depth),
        forall|j: int|
            lo <= j < hi && binary_level(#[trigger] nodes[j].rule) is Some ==> if strict {
                binary_level(nodes[j].rule)->0 > bound
            } else {
                binary_level(nodes[j].rule)->0 >= bound
            },
    ensures
        ({
            let side = ast_of(s, nodes, lo, hi);
            let wrapped = side matches Ast::BinOp(_, inner, _) && if strict {
                op_level(inner) <= bound
            } else {
                op_level(inner) < bound
            };
            deepened(nesting(side), wrapped) <= depth
        }),
{
    if exists|j: int| splits_at(nodes, lo, hi, j) {
        let j = choose|j: int| splits_at(nodes, lo, hi, j);
        assert(binary_level(nodes[j].rule) is Some);
    }
}

/// The operation made of nodes that split at `k`.
proof fn lemma_fits_split(s: Seq<u8>, nodes: Seq<Node>, lo: int, hi: int, depth: nat, k: int)
    requires
        0 <= lo < hi <= nodes.len(),
        starts_operand(nodes[lo].rule),
        splits_at(nodes, lo, hi, k),
        lo < k,
        k + 1 < hi,
        starts_operand(nodes[k + 1].rule),
        fits(s, nodes, lo, k, depth),
        fits(s, nodes, k + 1, hi, depth),
    ensures
        fits(s, nodes, lo, hi, depth),
{
    let ast = ast_of(s, nodes, lo, hi);
    let op = spec_op_of(nodes[k].rule);
    let left = ast_of(s, nodes, lo, k);
    let right = ast_of(s, nodes, k + 1, hi);
    let level = binary_level(nodes[k].rule)->0;
    lemma_split_unique(nodes, lo, hi, k);
    assert(ast == Ast::BinOp(Box::new(left), op, Box::new(right)));
    assert(op_level(op) == level);
    lemma_side_fits(s, nodes, lo, k, depth, level, false);
    lemma_side_fits(s, nodes, k + 1, hi, depth, level, true);
    assert forall|j: int| #[trigger] splits_at(nodes, lo, hi, j) implies j == k by {
        lemma_split_unique(nodes, lo, hi, j);
    }
}

/// The negation made of a minus sign and what follows it.
proof fn lemma_fits_minus(s: Seq<u8>, nodes: Seq<Node>, lo: int, hi: int, depth: nat)
    requires
        0 <= lo,
        lo + 1 < hi <= nodes.len(),
        nodes[lo].rule == Rule::unary_minus,
        is_operand(nodes[lo + 1].rule),
        !(exists|k: int| splits_at(nodes, lo, hi, k)),
        fits(s, nodes, lo + 1, hi, depth),
    ensures
        fits(s, nodes, lo, hi, depth),
{
    let after = lo + 1;
    let operand = ast_of(s, nodes, after, hi);
    assert(ast_of(s, nodes, lo, hi) == Ast::UnaryMinus(Box::new(operand)));
    if exists|j: int| splits_at(nodes, after, hi, j) {
        let j = choose|j: int| splits_at(nodes, after, hi, j);
        assert(splits_at(nodes, lo, hi, j));
    }
}

/// What the builder makes of well shaped nodes fits.
proof fn lemma_fits(s: Seq<u8>, nodes: Seq<Node>, lo: int, hi: int, depth: nat)
    requires
        well_shaped(s, nodes, depth),
        0 <= lo < hi <= nodes.len(),
        starts_operand(nodes[lo].rule),
        is_operand(nodes[hi - 1].rule),
    ensures
        fits(s, nodes, lo, hi, depth),
    decreases nodes, hi - lo,
{
    assert(link_ok(s, nodes, lo) && (nodes[lo].rule == Rule::expr ==> depth > 0 && well_shaped(
        s,
        nodes[lo].inner,
        (depth - 1) as nat,
    )));
    if exists|k: int| splits_at(nodes, lo, hi, k) {
        let k = choose|k: int| splits_at(nodes, lo, hi, k);
        assert(link_ok(s, nodes, k));
        assert(link_ok(s, nodes, k - 1));
        lemma_fits(s, nodes, lo, k, depth);
        lemma_fits(s, nodes, k + 1, hi, depth);
        lemma_fits_split(s, nodes, lo, hi, depth, k);
    } else if nodes[lo].rule == Rule::unary_minus {
        lemma_fits(s, nodes, lo + 1, hi, depth);
        lemma_fits_minus(s, nodes, lo, hi, depth);
    } else if nodes[lo].rule == Rule::expr {
        let inner = nodes[lo].inner;
        lemma_last_operand(s, inner, (depth - 1) as nat);
        lemma_fits(s, inner, 0, inner.len() as int, (depth - 1) as nat);
    } else {
        let node = nodes[lo];
        lemma_number_standalone(s, node.start, node.end);
        decode_utf8_encode_utf8(s.subrange(node.start, node.end));
    }
}

/// The canonical text of what a text writes is read as the same
/// expression, and so evaluates to the same result: parentheses and
/// blanks that change nothing are all that the canonical text leaves out.
pub proof fn lemma_reading_is_stable(s: Seq<u8>)
    ensures
        expression_of(s) matches Ok(ast) ==> expression_of(canonical(ast)) == Ok::<Ast, Failure>(
            ast,
        ),
{
    if expression_of(s) is Ok {
        lemma_blanks_end(s, 0);
        let at = blanks_end(s, 0);
        lemma_expr_shape(s, at, MAX_DEPTH as nat);
        let node = expr_at(s, at, MAX_DEPTH as nat)->Ok_0.0;
        lemma_last_operand(s, node.inner, MAX_DEPTH as nat);
        lemma_fits(s, node.inner, 0, node.inner.len() as int, MAX_DEPTH as nat);
        lemma_canonical_round_trip(expression_of(s)->Ok_0);
    }
}

} // verus!
