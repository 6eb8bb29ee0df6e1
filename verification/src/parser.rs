//! The grammar engine: matches a text against a rule of the grammar and
//! hands out the parse nodes, or says where the text stops matching.

use vstd::prelude::*;
use vstd::string::StringSliceAdditionalSpecFns;
use crate::error::SyntaxError;
use crate::grammar::{
    atom_at,
    byte_of,
    equation_of,
    expr_at,
    leaf,
    matched,
    operator_rule,
    primary_at,
    tail_at,
    Failure,
    Node,
    MAX_DEPTH,
};
use crate::pairs::{nodes_of, Pair, Pairs};
use crate::rule::{Expected, Rule};
use crate::text::{
    ascii_before,
    lemma_blanks_end,
    lemma_number_end,
    scan_number,
    skip_blanks,
    CLOSE,
    MINUS,
    OPEN,
    PLUS,
    SLASH,
    STAR,
};

verus! {

/// The grammar engine.
pub struct MyParser;

/// The rule of the binary operator that `b` writes.
fn operator_at(b: u8) -> (rule: Option<Rule>)
    ensures
        rule == operator_rule(b),
{
    if b == PLUS {
        Some(Rule::add)
    } else if b == MINUS {
        Some(Rule::subtract)
    } else if b == STAR {
        Some(Rule::multiply)
    } else if b == SLASH {
        Some(Rule::divide)
    } else {
        None
    }
}

/// The nodes of a run with one pair more.
proof fn lemma_nodes_push(pairs: Seq<Pair<'_>>, pair: Pair<'_>)
    ensures
        nodes_of(pairs.push(pair)) == nodes_of(pairs).push(pair@),
{
    assert(nodes_of(pairs.push(pair)) =~= nodes_of(pairs).push(pair@));
}

/// The pair of a node without inner nodes.
fn leaf_pair<'i>(input: &'i str, rule: Rule, start: usize, end: usize) -> (pair: Pair<'i>)
    requires
        start <= end <= input.spec_bytes().len(),
        ascii_before(input.spec_bytes(), end as int),
    ensures
        pair@ == leaf(rule, start as int, end as int),
        pair.source() == input.spec_bytes(),
{
    let pair = Pair::new(input, rule, start, end, Vec::new());
    assert(nodes_of(Seq::<Pair<'i>>::empty()) =~= Seq::<Node>::empty());
    pair
}

/// The run of one pair.
fn one_pair<'i>(input: &'i str, pair: Pair<'i>) -> (pairs: Pairs<'i>)
    requires
        pair.source() == input.spec_bytes(),
    ensures
        pairs@ == seq![pair@],
        pairs.source() == input.spec_bytes(),
{
    let mut items: Vec<Pair<'i>> = Vec::new();
    proof {
        lemma_nodes_push(items@, pair);
        assert(nodes_of(items@).push(pair@) =~= seq![pair@]);
    }
    items.push(pair);
    Pairs::new(input, items)
}

/// The error stands at a position of the text up to which the engine has
/// read, so that no byte before it is outside ASCII.
pub open spec fn reached(s: Seq<u8>, e: SyntaxError) -> bool {
    e.position <= s.len() && ascii_before(s, e.position as int)
}

/// Matches `primary` at `i`.
fn scan_primary<'i>(input: &'i str, bytes: &[u8], i: usize, depth: usize) -> (r: Result<
    (Pair<'i>, usize),
    SyntaxError,
>)
    requires
        bytes@ == input.spec_bytes(),
        i <= bytes@.len(),
        ascii_before(bytes@, i as int),
    ensures
        match r {
            Ok((pair, end)) => {
                &&& primary_at(bytes@, i as int, depth as nat) == Ok::<(Node, int), Failure>(
                    (pair@, end as int),
                )
                &&& pair.source() == bytes@
                &&& i < end <= bytes@.len()
                &&& ascii_before(bytes@, end as int)
            },
            Err(e) => {
                &&& primary_at(bytes@, i as int, depth as nat) == Err::<(Node, int), Failure>(e@)
                &&& reached(bytes@, e)
            },
        },
    decreases depth, 0int, bytes@.len() - i,
{
    let n: usize = scan_number(bytes, i);
    proof {
        lemma_number_end(bytes@, i as int);
    }
    if n > i {
        return Ok((leaf_pair(input, Rule::number, i, n), n));
    }
    if depth > 0 && i < bytes.len() && bytes[i] == OPEN {
        let p: usize = skip_blanks(bytes, i + 1);
        proof {
            lemma_blanks_end(bytes@, i + 1);
        }
        match scan_expr(input, bytes, p, depth - 1) {
            Ok((pair, end, stop)) => {
                let k: usize = skip_blanks(bytes, end);
                proof {
                    lemma_blanks_end(bytes@, end as int);
                }
                if k < bytes.len() && bytes[k] == CLOSE {
                    Ok((pair, k + 1))
                } else {
                    Err(stop)
                }
            },
            Err(e) => Err(e),
        }
    } else {
        Err(SyntaxError { position: i, expected: Expected::One(Rule::number) })
    }
}

/// Matches `atom` at `i` and, where it matches, puts its pairs at the end
/// of `out`.
fn scan_atom<'i>(
    input: &'i str,
    bytes: &[u8],
    i: usize,
    depth: usize,
    out: &mut Vec<Pair<'i>>,
) -> (r: Result<usize, SyntaxError>)
    requires
        bytes@ == input.spec_bytes(),
        i <= bytes@.len(),
        ascii_before(bytes@, i as int),
        forall|k: int| 0 <= k < old(out)@.len() ==> (#[trigger] old(out)@[k]).source() == bytes@,
    ensures
        forall|k: int| 0 <= k < final(out)@.len() ==> (#[trigger] final(out)@[k]).source() == bytes@,
        match r {
            Ok(end) => {
                &&& atom_at(bytes@, i as int, depth as nat) matches Ok(found)
                &&& found.1 == end
                &&& nodes_of(final(out)@) == nodes_of(old(out)@) + found.0
                &&& i < end <= bytes@.len()
                &&& ascii_before(bytes@, end as int)
            },
            Err(e) => {
                &&& atom_at(bytes@, i as int, depth as nat) == Err::<(Seq<Node>, int), Failure>(e@)
                &&& final(out)@ == old(out)@
                &&& reached(bytes@, e)
            },
        },
    decreases depth, 1int, bytes@.len() - i,
{
    if i < bytes.len() && bytes[i] == MINUS {
        let p: usize = skip_blanks(bytes, i + 1);
        proof {
            lemma_blanks_end(bytes@, i + 1);
        }
        match scan_primary(input, bytes, p, depth) {
            Ok((pair, end)) => {
                let minus = leaf_pair(input, Rule::unary_minus, i, i + 1);
                proof {
                    lemma_nodes_push(out@, minus);
                    lemma_nodes_push(out@.push(minus), pair);
                    assert(nodes_of(out@).push(minus@).push(pair@) =~= nodes_of(out@) + seq![
                        leaf(Rule::unary_minus, i as int, i + 1),
                        pair@,
                    ]);
                }
                out.push(minus);
                out.push(pair);
                Ok(end)
            },
            Err(e) => Err(e),
        }
    } else {
        let p: usize = skip_blanks(bytes, i);
        proof {
            lemma_blanks_end(bytes@, i as int);
        }
        match scan_primary(input, bytes, p, depth) {
            Ok((pair, end)) => {
                proof {
                    lemma_nodes_push(out@, pair);
                    assert(nodes_of(out@).push(pair@) =~= nodes_of(out@) + seq![pair@]);
                }
                out.push(pair);
                Ok(end)
            },
            Err(e) => Err(
                if e.position == i {
                    SyntaxError { position: i, expected: Expected::Atom }
                } else {
                    e
                },
            ),
        }
    }
}

/// Matches `expr` at `i`: its pair, where it ends, and why it ended there.
fn scan_expr<'i>(input: &'i str, bytes: &[u8], i: usize, depth: usize) -> (r: Result<
    (Pair<'i>, usize, SyntaxError),
    SyntaxError,
>)
    requires
        bytes@ == input.spec_bytes(),
        i <= bytes@.len(),
        ascii_before(bytes@, i as int),
    ensures
        match r {
            Ok((pair, end, stop)) => {
                &&& expr_at(bytes@, i as int, depth as nat) == Ok::<(Node, int, Failure), Failure>(
                    (pair@, end as int, stop@),
                )
                &&& pair.source() == bytes@
                &&& pair@.end == end
                &&& i < end <= bytes@.len()
                &&& ascii_before(bytes@, end as int)
                &&& reached(bytes@, stop)
            },
            Err(e) => {
                &&& expr_at(bytes@, i as int, depth as nat) == Err::<(Node, int, Failure), Failure>(
                    e@,
                )
                &&& reached(bytes@, e)
            },
        },
    decreases depth, 3int, bytes@.len() - i,
{
    let mut children: Vec<Pair<'i>> = Vec::new();
    let first_end: usize = match scan_atom(input, bytes, i, depth, &mut children) {
        Ok(end) => end,
        Err(e) => {
            return Err(
                if e.position == i {
                    SyntaxError { position: i, expected: Expected::One(Rule::expr) }
                } else {
                    e
                },
            );
        },
    };
    let ghost first = nodes_of(children@);
    let ghost mut more = Seq::<Node>::empty();
    let atoms: usize = children.len();
    let mut last: usize = first_end;
    let mut stop = SyntaxError { position: last, expected: Expected::Operator };
    proof {
        assert(nodes_of(Seq::<Pair<'i>>::empty()) =~= Seq::<Node>::empty());
        assert(first =~= atom_at(bytes@, i as int, depth as nat)->Ok_0.0);
        assert(first + more =~= first);
    }
    loop
        invariant_except_break
            tail_at(bytes@, first_end as int, depth as nat) == (
                more + tail_at(bytes@, last as int, depth as nat).0,
                tail_at(bytes@, last as int, depth as nat).1,
                tail_at(bytes@, last as int, depth as nat).2,
            ),
        invariant
            bytes@ == input.spec_bytes(),
            i < first_end <= last <= bytes@.len(),
            ascii_before(bytes@, last as int),
            nodes_of(children@) == first + more,
            reached(bytes@, stop),
            atoms == first.len(),
            atoms <= children@.len(),
            first.len() + more.len() == children@.len(),
            forall|k: int| 0 <= k < children@.len() ==> (#[trigger] children@[k]).source() == bytes@,
        ensures
            tail_at(bytes@, first_end as int, depth as nat) == (more, last as int, stop@),
            reached(bytes@, stop),
        decreases bytes@.len() - last,
    {
        let k: usize = skip_blanks(bytes, last);
        proof {
            lemma_blanks_end(bytes@, last as int);
        }
        let op: Option<Rule> = if k < bytes.len() {
            operator_at(bytes[k])
        } else {
            None
        };
        match op {
            None => {
                stop = SyntaxError { position: k, expected: Expected::Operator };
                assert(more + Seq::<Node>::empty() =~= more);
                break ;
            },
            Some(rule) => {
                let p: usize = skip_blanks(bytes, k + 1);
                proof {
                    lemma_blanks_end(bytes@, k + 1);
                }
                let sign = leaf_pair(input, rule, k, k + 1);
                let ghost before = children@;
                proof {
                    lemma_nodes_push(children@, sign);
                }
                children.push(sign);
                match scan_atom(input, bytes, p, depth, &mut children) {
                    Ok(end) => {
                        proof {
                            let found = atom_at(bytes@, p as int, depth as nat)->Ok_0;
                            let rest = tail_at(bytes@, end as int, depth as nat);
                            let grown = more + seq![leaf(rule, k as int, k + 1)] + found.0;
                            assert(more + (seq![leaf(rule, k as int, k + 1)] + found.0 + rest.0)
                                =~= grown + rest.0);
                            assert(first + grown =~= (first + more).push(sign@) + found.0);
                            more = grown;
                        }
                        last = end;
                    },
                    Err(e) => {
                        children.pop();
                        stop = e;
                        proof {
                            assert(children@ =~= before);
                            assert(more + Seq::<Node>::empty() =~= more);
                        }
                        break ;
                    },
                }
            },
        }
    }
    let end: usize = if children.len() == atoms {
        let e: usize = skip_blanks(bytes, last);
        proof {
            lemma_blanks_end(bytes@, last as int);
        }
        e
    } else {
        last
    };
    let pair = Pair::new(input, Rule::expr, i, end, children);
    Ok((pair, end, stop))
}

/// Matches the one byte `b` at the start of the text as `rule`.
fn scan_byte<'i>(input: &'i str, bytes: &[u8], b: u8, rule: Rule) -> (r: Result<
    Pairs<'i>,
    SyntaxError,
>)
    requires
        bytes@ == input.spec_bytes(),
        b < 0x80,
    ensures
        match r {
            Ok(pairs) => byte_of(bytes@, b, rule) == Ok::<Seq<Node>, Failure>(pairs@)
                && pairs.source() == bytes@,
            Err(e) => byte_of(bytes@, b, rule) == Err::<Seq<Node>, Failure>(e@) && reached(
                bytes@,
                e,
            ),
        },
{
    if bytes.len() > 0 && bytes[0] == b {
        Ok(one_pair(input, leaf_pair(input, rule, 0, 1)))
    } else {
        Err(SyntaxError { position: 0, expected: Expected::One(rule) })
    }
}

/// Matches `equation` on the whole text.
fn scan_equation<'i>(input: &'i str, bytes: &[u8]) -> (r: Result<Pairs<'i>, SyntaxError>)
    requires
        bytes@ == input.spec_bytes(),
    ensures
        match r {
            Ok(pairs) => equation_of(bytes@) == Ok::<Seq<Node>, Failure>(pairs@) && pairs.source()
                == bytes@,
            Err(e) => equation_of(bytes@) == Err::<Seq<Node>, Failure>(e@) && reached(bytes@, e),
        },
{
    let start: usize = skip_blanks(bytes, 0);
    proof {
        lemma_blanks_end(bytes@, 0);
    }
    match scan_expr(input, bytes, start, MAX_DEPTH) {
        Ok((pair, end, stop)) => {
            let k: usize = skip_blanks(bytes, end);
            proof {
                lemma_blanks_end(bytes@, end as int);
            }
            if k == bytes.len() {
                let mut items: Vec<Pair<'i>> = Vec::new();
                let eoi = leaf_pair(input, Rule::EOI, k, k);
                proof {
                    assert(nodes_of(items@) =~= Seq::<Node>::empty());
                    lemma_nodes_push(items@, pair);
                    lemma_nodes_push(items@.push(pair), eoi);
                    assert(Seq::<Node>::empty().push(pair@).push(eoi@) =~= seq![
                        pair@,
                        leaf(Rule::EOI, k as int, k as int),
                    ]);
                }
                items.push(pair);
                items.push(eoi);
                Ok(Pairs::new(input, items))
            } else if stop.position == k {
                Err(SyntaxError { position: k, expected: Expected::OperatorOrEnd })
            } else {
                Err(stop)
            }
        },
        Err(e) => Err(e),
    }
}

/// `r` is the engine's answer to the text `s` and the rule: the pairs of
/// the nodes that the grammar matches, over that text, or the error of
/// the grammar's failure, which stands where the engine has read to.
pub open spec fn parses(rule: Rule, s: Seq<u8>, r: Result<Pairs<'_>, SyntaxError>) -> bool {
    match r {
        Ok(pairs) => matched(rule, s) == Ok::<Seq<Node>, Failure>(pairs@) && pairs.source() == s,
        Err(e) => matched(rule, s) == Err::<Seq<Node>, Failure>(e@) && reached(s, e),
    }
}

/// The engine answers one text and one rule in one way: with the same
/// nodes over the same text, or with the same error.
pub proof fn lemma_parsing_is_deterministic(
    rule: Rule,
    s: Seq<u8>,
    first: Result<Pairs<'_>, SyntaxError>,
    second: Result<Pairs<'_>, SyntaxError>,
)
    requires
        parses(rule, s, first),
        parses(rule, s, second),
    ensures
        match (first, second) {
            (Ok(a), Ok(b)) => a@ == b@ && a.source() == b.source(),
            (Err(a), Err(b)) => a == b,
            _ => false,
        },
{
}

impl MyParser {
    /// Matches `input` against `rule`, from its first byte on. The pairs
    /// come outermost first and in the order of the text; `primary`, `atom`,
    /// `bin_op` and `equation` leave no pair of their own, only those of
    /// the rules they are made of.
    pub fn parse<'i>(rule: Rule, input: &'i str) -> (r: Result<Pairs<'i>, SyntaxError>)
        ensures
            parses(rule, input.spec_bytes(), r),
    {
        let bytes: &[u8] = input.as_bytes();
        match rule {
            Rule::EOI => {
                if bytes.len() == 0 {
                    Ok(one_pair(input, leaf_pair(input, Rule::EOI, 0, 0)))
                } else {
                    Err(SyntaxError { position: 0, expected: Expected::One(Rule::EOI) })
                }
            },
            Rule::equation => scan_equation(input, bytes),
            Rule::expr => match scan_expr(input, bytes, 0, MAX_DEPTH) {
                Ok((pair, _, _)) => Ok(one_pair(input, pair)),
                Err(e) => Err(e),
            },
            Rule::atom => {
                let mut items: Vec<Pair<'i>> = Vec::new();
                proof {
                    assert(nodes_of(Seq::<Pair<'i>>::empty()) =~= Seq::<Node>::empty());
                }
                match scan_atom(input, bytes, 0, MAX_DEPTH, &mut items) {
                    Ok(_) => {
                        proof {
                            let found = atom_at(bytes@, 0, MAX_DEPTH as nat)->Ok_0;
                            assert(Seq::<Node>::empty() + found.0 =~= found.0);
                        }
                        Ok(Pairs::new(input, items))
                    },
                    Err(e) => Err(e),
                }
            },
            Rule::primary => match scan_primary(input, bytes, 0, MAX_DEPTH) {
                Ok((pair, _)) => Ok(one_pair(input, pair)),
                Err(e) => Err(e),
            },
            Rule::number => {
                let n: usize = scan_number(bytes, 0);
                proof {
                    lemma_number_end(bytes@, 0);
                }
                if n > 0 {
                    Ok(one_pair(input, leaf_pair(input, Rule::number, 0, n)))
                } else {
                    Err(SyntaxError { position: 0, expected: Expected::One(Rule::number) })
                }
            },
            Rule::unary_minus => scan_byte(input, bytes, MINUS, Rule::unary_minus),
            Rule::bin_op => {
                let op: Option<Rule> = if bytes.len() > 0 {
                    operator_at(bytes[0])
                } else {
                    None
                };
                match op {
                    Some(found) => Ok(one_pair(input, leaf_pair(input, found, 0, 1))),
                    None => Err(SyntaxError { position: 0, expected: Expected::Operator }),
                }
            },
            Rule::add => scan_byte(input, bytes, PLUS, Rule::add),
            Rule::subtract => scan_byte(input, bytes, MINUS, Rule::subtract),
            Rule::multiply => scan_byte(input, bytes, STAR, Rule::multiply),
            Rule::divide => scan_byte(input, bytes, SLASH, Rule::divide),
        }
    }
}

} // verus!
