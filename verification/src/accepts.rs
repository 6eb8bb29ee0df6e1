//! What a text must look like to be an equation: it holds no byte that
//! the grammar does not know, as many parentheses that open as that
//! close, an operand at its end, and more than blanks.

use vstd::prelude::*;
use crate::grammar::{
    atom_at,
    equation_of,
    expr_at,
    operator_rule,
    primary_at,
    tail_at,
    Failure,
    Node,
    MAX_DEPTH,
};
use crate::rule::{Expected, Rule};
use crate::text::{
    blanks_end,
    digits_end,
    is_blank,
    is_digit,
    lemma_blanks_end,
    lemma_digits_end,
    lemma_number_end,
    number_end,
    CLOSE,
    MINUS,
    OPEN,
    POINT,
};

verus! {

/// A byte that the grammar knows: a digit, the point, an operator, a
/// parenthesis or a blank.
pub open spec fn known(b: u8) -> bool {
    is_digit(b) || b == POINT || operator_rule(b) is Some || b == OPEN || b == CLOSE || is_blank(b)
}

/// Every byte from `lo` up to `hi` is known.
pub open spec fn known_between(s: Seq<u8>, lo: int, hi: int) -> bool {
    forall|k: int| lo <= k < hi ==> known(#[trigger] s[k])
}

/// How often the byte `b` stands between `lo` and `hi`.
pub open spec fn count(s: Seq<u8>, lo: int, hi: int, b: u8) -> nat
    decreases hi - lo,
{
    if lo >= hi {
        0
    } else if s[hi - 1] == b {
        count(s, lo, hi - 1, b) + 1
    } else {
        count(s, lo, hi - 1, b)
    }
}

/// As many parentheses open between `lo` and `hi` as close there.
pub open spec fn balanced(s: Seq<u8>, lo: int, hi: int) -> bool {
    count(s, lo, hi, OPEN) == count(s, lo, hi, CLOSE)
}

/// An operand ends before `e`: a digit or a closing parenthesis stands
/// there.
pub open spec fn operand_ends(s: Seq<u8>, e: int) -> bool {
    0 < e <= s.len() && (is_digit(s[e - 1]) || s[e - 1] == CLOSE)
}

/// What holds of the bytes of a primary, of an atom and of an expression
/// without the blanks after it: they are known, their parentheses are
/// balanced, and an operand ends them.
pub open spec fn sound_text(s: Seq<u8>, lo: int, hi: int) -> bool {
    &&& lo < hi <= s.len()
    &&& known_between(s, lo, hi)
    &&& balanced(s, lo, hi)
    &&& operand_ends(s, hi)
}

/// Counting over two stretches in a row.
proof fn lemma_count_split(s: Seq<u8>, lo: int, mid: int, hi: int, b: u8)
    requires
        lo <= mid <= hi,
    ensures
        count(s, lo, hi, b) == count(s, lo, mid, b) + count(s, mid, hi, b),
    decreases hi - mid,
{
    if mid < hi {
        lemma_count_split(s, lo, mid, hi - 1, b);
    }
}

/// A stretch without the byte counts none.
proof fn lemma_count_none(s: Seq<u8>, lo: int, hi: int, b: u8)
    requires
        forall|k: int| lo <= k < hi ==> #[trigger] s[k] != b,
    ensures
        count(s, lo, hi, b) == 0,
    decreases hi - lo,
{
    if lo < hi {
        lemma_count_none(s, lo, hi - 1, b);
    }
}

/// Blanks are known and hold no parenthesis.
proof fn lemma_blanks_sound(s: Seq<u8>, i: int)
    requires
        0 <= i <= s.len(),
    ensures
        known_between(s, i, blanks_end(s, i)),
        balanced(s, i, blanks_end(s, i)),
        i <= blanks_end(s, i) <= s.len(),
{
    lemma_blanks_end(s, i);
    lemma_count_none(s, i, blanks_end(s, i), OPEN);
    lemma_count_none(s, i, blanks_end(s, i), CLOSE);
}

/// Known and balanced stretches in a row are known and balanced.
proof fn lemma_join(s: Seq<u8>, lo: int, mid: int, hi: int)
    requires
        lo <= mid <= hi,
        known_between(s, lo, mid),
        known_between(s, mid, hi),
        balanced(s, lo, mid),
        balanced(s, mid, hi),
    ensures
        known_between(s, lo, hi),
        balanced(s, lo, hi),
{
    lemma_count_split(s, lo, mid, hi, OPEN);
    lemma_count_split(s, lo, mid, hi, CLOSE);
}

/// One known byte that is no parenthesis, before a stretch.
proof fn lemma_byte_then(s: Seq<u8>, lo: int, hi: int)
    requires
        0 <= lo < hi,
        known(s[lo]),
        s[lo] != OPEN,
        s[lo] != CLOSE,
        known_between(s, lo + 1, hi),
        balanced(s, lo + 1, hi),
    ensures
        known_between(s, lo, hi),
        balanced(s, lo, hi),
{
    lemma_count_none(s, lo, lo + 1, OPEN);
    lemma_count_none(s, lo, lo + 1, CLOSE);
    lemma_join(s, lo, lo + 1, hi);
}

/// An expression between its parentheses.
proof fn lemma_wrap(s: Seq<u8>, lo: int, hi: int)
    requires
        0 <= lo,
        lo + 1 < hi <= s.len(),
        s[lo] == OPEN,
        s[hi - 1] == CLOSE,
        known_between(s, lo + 1, hi - 1),
        balanced(s, lo + 1, hi - 1),
    ensures
        sound_text(s, lo, hi),
{
    lemma_count_split(s, lo, lo + 1, hi, OPEN);
    lemma_count_split(s, lo, lo + 1, hi, CLOSE);
    reveal_with_fuel(count, 2);
    assert(count(s, lo, lo + 1, OPEN) == 1);
    assert(count(s, lo, lo + 1, CLOSE) == 0);
}

/// The bytes of a primary are sound.
proof fn lemma_primary_known(s: Seq<u8>, i: int, depth: nat)
    requires
        0 <= i <= s.len(),
    ensures
        primary_at(s, i, depth) matches Ok(found) ==> sound_text(s, i, found.1),
    decreases depth, 0int, s.len() - i,
{
    lemma_number_end(s, i);
    if primary_at(s, i, depth) is Ok {
        if number_end(s, i) > i {
            let end = number_end(s, i);
            lemma_count_none(s, i, end, OPEN);
            lemma_count_none(s, i, end, CLOSE);
            lemma_number_ends_with_digit(s, i);
        } else {
            lemma_blanks_sound(s, i + 1);
            let at = blanks_end(s, i + 1);
            lemma_expr_known(s, at, (depth - 1) as nat);
            let found = expr_at(s, at, (depth - 1) as nat)->Ok_0;
            lemma_blanks_sound(s, found.1);
            let k = blanks_end(s, found.1);
            lemma_join(s, i + 1, at, found.1);
            lemma_join(s, i + 1, found.1, k);
            lemma_wrap(s, i, k + 1);
        }
    }
}

/// A number ends with a digit.
proof fn lemma_number_ends_with_digit(s: Seq<u8>, i: int)
    requires
        0 <= i <= s.len(),
        number_end(s, i) > i,
    ensures
        is_digit(s[number_end(s, i) - 1]),
{
    lemma_digits_end(s, i);
    let j = digits_end(s, i);
    if j < s.len() {
        lemma_digits_end(s, j + 1);
    }
}

/// The bytes of an atom are sound.
proof fn lemma_atom_known(s: Seq<u8>, i: int, depth: nat)
    requires
        0 <= i <= s.len(),
    ensures
        atom_at(s, i, depth) matches Ok(found) ==> sound_text(s, i, found.1),
    decreases depth, 1int, s.len() - i,
{
    if atom_at(s, i, depth) is Ok {
        if i < s.len() && s[i] == MINUS {
            lemma_blanks_sound(s, i + 1);
            let at = blanks_end(s, i + 1);
            lemma_primary_known(s, at, depth);
            let end = primary_at(s, at, depth)->Ok_0.1;
            lemma_join(s, i + 1, at, end);
            lemma_byte_then(s, i, end);
        } else {
            lemma_blanks_sound(s, i);
            let at = blanks_end(s, i);
            lemma_primary_known(s, at, depth);
            let end = primary_at(s, at, depth)->Ok_0.1;
            lemma_join(s, i, at, end);
        }
    }
}

/// The bytes of the rounds after an atom are known and balanced, and an
/// operand ends them where there are any.
proof fn lemma_tail_known(s: Seq<u8>, i: int, depth: nat)
    requires
        0 <= i <= s.len(),
    ensures
        i <= tail_at(s, i, depth).1 <= s.len(),
        known_between(s, i, tail_at(s, i, depth).1),
        balanced(s, i, tail_at(s, i, depth).1),
        tail_at(s, i, depth).1 > i ==> operand_ends(s, tail_at(s, i, depth).1),
    decreases depth, 2int, s.len() - i,
{
    lemma_blanks_sound(s, i);
    let k = blanks_end(s, i);
    if tail_at(s, i, depth).0.len() > 0 {
        lemma_blanks_sound(s, k + 1);
        let at = blanks_end(s, k + 1);
        lemma_atom_known(s, at, depth);
        let end = atom_at(s, at, depth)->Ok_0.1;
        lemma_tail_known(s, end, depth);
        let last = tail_at(s, end, depth).1;
        lemma_join(s, k + 1, at, end);
        lemma_join(s, k + 1, end, last);
        lemma_byte_then(s, k, last);
        lemma_join(s, i, k, last);
    } else {
        lemma_count_none(s, i, i, OPEN);
        lemma_count_none(s, i, i, CLOSE);
    }
}

/// The bytes of an expression are known and balanced, and end with an
/// operand and the blanks after it.
proof fn lemma_expr_known(s: Seq<u8>, i: int, depth: nat)
    requires
        0 <= i <= s.len(),
    ensures
        expr_at(s, i, depth) matches Ok(found) ==> {
            &&& i < found.1 <= s.len()
            &&& found.0.end == found.1
            &&& known_between(s, i, found.1)
            &&& balanced(s, i, found.1)
            &&& exists|e: int| #[trigger] operand_ends(s, e) && i < e <= found.1 && blanks_end(s, e) >= found.1
        },
    decreases depth, 3int, s.len() - i,
{
    if expr_at(s, i, depth) is Ok {
        lemma_atom_known(s, i, depth);
        let end = atom_at(s, i, depth)->Ok_0.1;
        lemma_tail_known(s, end, depth);
        let last = tail_at(s, end, depth).1;
        lemma_blanks_sound(s, last);
        lemma_join(s, i, end, last);
        lemma_join(s, i, last, blanks_end(s, last));
        assert(operand_ends(s, last));
    }
}

/// A text with a byte that the grammar does not know is no equation.
pub proof fn lemma_equation_holds_known_bytes(s: Seq<u8>)
    ensures
        equation_of(s) is Ok ==> known_between(s, 0, s.len() as int),
{
    if equation_of(s) is Ok {
        lemma_blanks_sound(s, 0);
        let at = blanks_end(s, 0);
        lemma_expr_known(s, at, MAX_DEPTH as nat);
        let end = expr_at(s, at, MAX_DEPTH as nat)->Ok_0.1;
        lemma_blanks_sound(s, end);
    }
}

/// A text in which more parentheses open than close, or more close than
/// open, is no equation.
pub proof fn lemma_equation_is_balanced(s: Seq<u8>)
    ensures
        equation_of(s) is Ok ==> balanced(s, 0, s.len() as int),
{
    if equation_of(s) is Ok {
        lemma_blanks_sound(s, 0);
        let at = blanks_end(s, 0);
        lemma_expr_known(s, at, MAX_DEPTH as nat);
        let end = expr_at(s, at, MAX_DEPTH as nat)->Ok_0.1;
        lemma_blanks_sound(s, end);
        lemma_join(s, 0, at, end);
        lemma_join(s, 0, end, s.len() as int);
    }
}

/// A text whose last byte but for blanks is an operator, or anything but a
/// digit or a closing parenthesis, is no equation: after an equation's
/// last operand only blanks follow.
pub proof fn lemma_equation_ends_with_operand(s: Seq<u8>)
    ensures
        equation_of(s) is Ok ==> exists|e: int| #[trigger]
            operand_ends(s, e) && blanks_end(s, e) == s.len(),
{
    if equation_of(s) is Ok {
        lemma_blanks_sound(s, 0);
        let at = blanks_end(s, 0);
        lemma_expr_known(s, at, MAX_DEPTH as nat);
        let end = expr_at(s, at, MAX_DEPTH as nat)->Ok_0.1;
        let e = choose|e: int| #[trigger]
            operand_ends(s, e) && at < e <= end && blanks_end(s, e) >= end;
        lemma_blanks_end(s, e);
        lemma_blanks_end(s, end);
        lemma_blanks_reach(s, e, end);
    }
}

/// Blanks that reach `to` end where the blanks from `to` on end.
proof fn lemma_blanks_reach(s: Seq<u8>, from: int, to: int)
    requires
        0 <= from <= to <= s.len(),
        blanks_end(s, from) >= to,
    ensures
        blanks_end(s, from) == blanks_end(s, to),
    decreases to - from,
{
    if from < to {
        lemma_blanks_end(s, from);
        assert(is_blank(s[from]));
        lemma_blanks_reach(s, from + 1, to);
    }
}

/// A text of blanks alone, and so the empty text, is no equation: an
/// expression is missing at its end.
pub proof fn lemma_blank_text_is_refused(s: Seq<u8>)
    requires
        forall|k: int| 0 <= k < s.len() ==> is_blank(#[trigger] s[k]),
    ensures
        equation_of(s) == Err::<Seq<Node>, Failure>(
            Failure { position: s.len() as int, expected: Expected::One(Rule::expr) },
        ),
{
    lemma_blanks_end(s, 0);
    let at = blanks_end(s, 0);
    assert(at == s.len());
    lemma_number_end(s, at);
    assert(blanks_end(s, at) == at);
}

} // verus!
