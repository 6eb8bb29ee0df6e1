//! The shape of what the grammar leaves inside an expression: atoms with
//! operators between them, numbers that cover numbers of the text, and
//! expressions nested no deeper than the grammar reads. Nodes of this
//! shape are what the builder takes.

use vstd::prelude::*;
use crate::ast::{binary_level, buildable, lemma_levels, levels, tokens_of};
use crate::grammar::{atom_at, expr_at, leaf, operator_rule, primary_at, tail_at, Node};
use crate::pratt::{alternates_from, is_primary};
use crate::rule::Rule;
use crate::text::{blanks_end, lemma_blanks_end, lemma_number_end, number_end, MINUS};

verus! {


/// The rule of a number or of an expression in parentheses.
pub open spec fn is_operand(rule: Rule) -> bool {
    rule == Rule::number || rule == Rule::expr
}

/// The rule of what an atom starts with.
pub open spec fn starts_operand(rule: Rule) -> bool {
    rule == Rule::unary_minus || is_operand(rule)
}

/// The node at `k` is one of an expression's, and so is what follows it:
/// an operand after a minus sign, an operator after an operand, and the
/// start of an atom after an operator. A number covers a number of the
/// text.
pub open spec fn link_ok(s: Seq<u8>, nodes: Seq<Node>, k: int) -> bool {
    let rule = nodes[k].rule;
    &&& rule == Rule::unary_minus || is_operand(rule) || binary_level(rule) is Some
    &&& rule == Rule::unary_minus ==> k + 1 < nodes.len() && is_operand(nodes[k + 1].rule)
    &&& is_operand(rule) && k + 1 < nodes.len() ==> binary_level(nodes[k + 1].rule) is Some
    &&& binary_level(rule) is Some ==> k + 1 < nodes.len() && starts_operand(nodes[k + 1].rule)
    &&& rule == Rule::number ==> 0 <= nodes[k].start < nodes[k].end <= s.len() && number_end(
        s,
        nodes[k].start,
    ) == nodes[k].end
}

/// Every node is linked to the next, and an expression among the nodes
/// holds nodes of an expression's shape, one level deeper.
pub open spec fn links_ok(s: Seq<u8>, nodes: Seq<Node>, depth: nat) -> bool
    decreases nodes, 0int,
{
    forall|k: int|
        0 <= k < nodes.len() ==> link_ok(s, nodes, k) && ((#[trigger] nodes[k]).rule == Rule::expr
            ==> depth > 0 && well_shaped(s, nodes[k].inner, (depth - 1) as nat))
}

/// The nodes are those of an expression that nests no deeper than
/// `depth`.
pub open spec fn well_shaped(s: Seq<u8>, nodes: Seq<Node>, depth: nat) -> bool
    decreases nodes, 1int,
{
    &&& nodes.len() > 0
    &&& starts_operand(nodes[0].rule)
    &&& links_ok(s, nodes, depth)
}

/// The nodes of the rounds after an atom: none, or an operator first.
pub open spec fn rounds_ok(s: Seq<u8>, nodes: Seq<Node>, depth: nat) -> bool {
    &&& nodes.len() > 0 ==> binary_level(nodes[0].rule) is Some
    &&& links_ok(s, nodes, depth)
}

/// The node of an operand.
pub open spec fn operand_shaped(s: Seq<u8>, node: Node, depth: nat) -> bool {
    &&& is_operand(node.rule)
    &&& node.rule == Rule::number ==> 0 <= node.start < node.end <= s.len() && number_end(
        s,
        node.start,
    ) == node.end
    &&& node.rule == Rule::expr ==> depth > 0 && well_shaped(s, node.inner, (depth - 1) as nat)
}

/// The nodes of an atom: a minus sign, if any, and an operand.
pub open spec fn atom_shaped(s: Seq<u8>, nodes: Seq<Node>, depth: nat) -> bool {
    &&& nodes.len() == 1 || nodes.len() == 2
    &&& nodes.len() == 2 ==> nodes[0].rule == Rule::unary_minus
    &&& operand_shaped(s, nodes.last(), depth)
}

/// An atom and the rounds after it are an expression's nodes.
proof fn lemma_atom_rounds(s: Seq<u8>, atom: Seq<Node>, rounds: Seq<Node>, depth: nat)
    requires
        atom_shaped(s, atom, depth),
        rounds_ok(s, rounds, depth),
    ensures
        well_shaped(s, atom + rounds, depth),
{
    let all = atom + rounds;
    assert(all[0] == atom[0]);
    assert forall|k: int| 0 <= k < all.len() implies link_ok(s, all, k) && ((
        #[trigger] all[k]).rule == Rule::expr ==> depth > 0 && well_shaped(
        s,
        all[k].inner,
        (depth - 1) as nat,
    )) by {
        if k < atom.len() {
            assert(all[k] == atom[k]);
            if k + 1 < atom.len() {
                assert(all[k + 1] == atom[k + 1]);
            } else if k + 1 < all.len() {
                assert(all[k + 1] == rounds[0]);
            }
        } else {
            let j = k - atom.len();
            assert(all[k] == rounds[j]);
            if j + 1 < rounds.len() {
                assert(all[k + 1] == rounds[j + 1]);
            }
        }
    }
}

/// An operator, an atom and further rounds are rounds.
proof fn lemma_round_rounds(
    s: Seq<u8>,
    sign: Node,
    atom: Seq<Node>,
    rounds: Seq<Node>,
    depth: nat,
)
    requires
        binary_level(sign.rule) is Some,
        atom_shaped(s, atom, depth),
        rounds_ok(s, rounds, depth),
    ensures
        rounds_ok(s, seq![sign] + atom + rounds, depth),
{
    let rest = atom + rounds;
    let all = seq![sign] + atom + rounds;
    lemma_atom_rounds(s, atom, rounds, depth);
    assert(all =~= seq![sign] + rest);
    assert(all[0] == sign);
    assert(all[1] == rest[0]);
    assert forall|k: int| 0 <= k < all.len() implies link_ok(s, all, k) && ((
        #[trigger] all[k]).rule == Rule::expr ==> depth > 0 && well_shaped(
        s,
        all[k].inner,
        (depth - 1) as nat,
    )) by {
        if k >= 1 {
            assert(all[k] == rest[k - 1]);
            if k + 1 < all.len() {
                assert(all[k + 1] == rest[k]);
            }
        }
    }
}

/// What the grammar matches as a primary is shaped as an operand.
proof fn lemma_primary_shape(s: Seq<u8>, i: int, depth: nat)
    requires
        0 <= i <= s.len(),
    ensures
        primary_at(s, i, depth) matches Ok(found) ==> operand_shaped(s, found.0, depth) && i
            < found.1 <= s.len(),
    decreases depth, 0int, s.len() - i,
{
    lemma_number_end(s, i);
    if primary_at(s, i, depth) is Ok && !(number_end(s, i) > i) {
        lemma_blanks_end(s, i + 1);
        let at = blanks_end(s, i + 1);
        lemma_expr_shape(s, at, (depth - 1) as nat);
        let found = expr_at(s, at, (depth - 1) as nat)->Ok_0;
        lemma_blanks_end(s, found.0.end);
    }
}

/// What the grammar matches as an atom is shaped as an atom.
proof fn lemma_atom_shape(s: Seq<u8>, i: int, depth: nat)
    requires
        0 <= i <= s.len(),
    ensures
        atom_at(s, i, depth) matches Ok(found) ==> atom_shaped(s, found.0, depth) && i < found.1
            <= s.len(),
    decreases depth, 1int, s.len() - i,
{
    if i < s.len() && s[i] == MINUS {
        lemma_blanks_end(s, i + 1);
        lemma_primary_shape(s, blanks_end(s, i + 1), depth);
    } else {
        lemma_blanks_end(s, i);
        lemma_primary_shape(s, blanks_end(s, i), depth);
    }
}

/// What the grammar matches after an atom is shaped as rounds.
proof fn lemma_tail_shape(s: Seq<u8>, i: int, depth: nat)
    requires
        0 <= i <= s.len(),
    ensures
        rounds_ok(s, tail_at(s, i, depth).0, depth),
        i <= tail_at(s, i, depth).1 <= s.len(),
    decreases depth, 2int, s.len() - i,
{
    lemma_blanks_end(s, i);
    let k = blanks_end(s, i);
    let more = tail_at(s, i, depth).0;
    if more.len() > 0 {
        lemma_blanks_end(s, k + 1);
        let at = blanks_end(s, k + 1);
        lemma_atom_shape(s, at, depth);
        let (atom, end) = atom_at(s, at, depth)->Ok_0;
        lemma_tail_shape(s, end, depth);
        let rest = tail_at(s, end, depth).0;
        let sign = leaf(operator_rule(s[k])->0, k, k + 1);
        lemma_round_rounds(s, sign, atom, rest, depth);
    }
}

/// The nodes inside an expression that the grammar matched with `depth`
/// levels of parentheses to go are well shaped.
pub proof fn lemma_expr_shape(s: Seq<u8>, i: int, depth: nat)
    requires
        0 <= i <= s.len(),
    ensures
        expr_at(s, i, depth) matches Ok(found) ==> {
            &&& found.0.rule == Rule::expr
            &&& well_shaped(s, found.0.inner, depth)
            &&& found.0.end == found.1
            &&& i < found.1 <= s.len()
        },
    decreases depth, 3int, s.len() - i,
{
    if expr_at(s, i, depth) is Ok {
        lemma_atom_shape(s, i, depth);
        let (first, end) = atom_at(s, i, depth)->Ok_0;
        lemma_tail_shape(s, end, depth);
        lemma_atom_rounds(s, first, tail_at(s, end, depth).0, depth);
        lemma_blanks_end(s, tail_at(s, end, depth).1);
    }
}

/// The last node of an expression is an operand.
pub proof fn lemma_last_operand(s: Seq<u8>, nodes: Seq<Node>, depth: nat)
    requires
        well_shaped(s, nodes, depth),
    ensures
        is_operand(nodes[nodes.len() - 1].rule),
{
    let last = nodes[nodes.len() - 1];
    assert(link_ok(s, nodes, nodes.len() - 1));
}

/// Where an operand is due among well shaped nodes: at the start, and
/// after a minus sign or an operator.
pub open spec fn operand_due(nodes: Seq<Node>, k: int) -> bool {
    k == 0 || nodes[k - 1].rule == Rule::unary_minus || binary_level(nodes[k - 1].rule) is Some
}

/// Well shaped nodes alternate from every place on.
proof fn lemma_shaped_alternates(s: Seq<u8>, nodes: Seq<Node>, depth: nat, k: int)
    requires
        well_shaped(s, nodes, depth),
        0 <= k <= nodes.len(),
    ensures
        alternates_from(levels(), tokens_of(nodes), k, operand_due(nodes, k)),
    decreases nodes.len() - k,
{
    lemma_levels();
    if k == nodes.len() {
        lemma_last_operand(s, nodes, depth);
    } else {
        assert(link_ok(s, nodes, k) && ((#[trigger] nodes[k]).rule == Rule::expr ==> depth > 0));
        if k > 0 {
            assert(link_ok(s, nodes, k - 1) && ((#[trigger] nodes[k - 1]).rule == Rule::expr
                ==> depth > 0));
        }
        assert(tokens_of(nodes)[k].rule == nodes[k].rule);
        lemma_shaped_alternates(s, nodes, depth, k + 1);
    }
}

/// Well shaped nodes are buildable.
pub proof fn lemma_shaped_buildable(s: Seq<u8>, nodes: Seq<Node>, depth: nat)
    requires
        well_shaped(s, nodes, depth),
    ensures
        buildable(nodes),
    decreases nodes,
{
    lemma_levels();
    lemma_shaped_alternates(s, nodes, depth, 0);
    assert forall|k: int|
        0 <= k < nodes.len() && is_primary(levels(), (#[trigger] nodes[k]).rule) implies nodes[k].rule
        == Rule::number || nodes[k].rule == Rule::expr by {
        assert(link_ok(s, nodes, k));
    }
    assert forall|k: int| 0 <= k < nodes.len() && (#[trigger] nodes[k]).rule == Rule::expr implies buildable(
        nodes[k].inner,
    ) by {
        assert(link_ok(s, nodes, k));
        lemma_shaped_buildable(s, nodes[k].inner, (depth - 1) as nat);
    }
}

} // verus!
