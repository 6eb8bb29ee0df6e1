//! Bytes of the input: the classes the grammar tells apart, runs of blanks
//! and digits, and where a slice of the text may be cut.

use vstd::prelude::*;
use vstd::utf8::*;

verus! {

/// A space.
pub const SPACE: u8 = 0x20;

/// A tab.
pub const TAB: u8 = 0x09;

/// `.`
pub const POINT: u8 = 0x2e;

/// `+`
pub const PLUS: u8 = 0x2b;

/// `-`
pub const MINUS: u8 = 0x2d;

/// `*`
pub const STAR: u8 = 0x2a;

/// `/`
pub const SLASH: u8 = 0x2f;

/// `(`
pub const OPEN: u8 = 0x28;

/// `)`
pub const CLOSE: u8 = 0x29;

/// A space or a tab: what may stand between two tokens.
#[verifier::when_used_as_spec(spec_is_blank)]
pub fn is_blank(b: u8) -> (r: bool)
    ensures
        r == spec_is_blank(b),
{
    b == SPACE || b == TAB
}

/// A space or a tab.
pub open spec fn spec_is_blank(b: u8) -> bool {
    b == SPACE || b == TAB
}

/// A decimal digit.
#[verifier::when_used_as_spec(spec_is_digit)]
pub fn is_digit(b: u8) -> (r: bool)
    ensures
        r == spec_is_digit(b),
{
    0x30 <= b && b <= 0x39
}

/// A decimal digit.
pub open spec fn spec_is_digit(b: u8) -> bool {
    0x30 <= b <= 0x39
}

/// The first position at or after `i` that holds no blank.
pub open spec fn blanks_end(s: Seq<u8>, i: int) -> int
    decreases s.len() - i,
{
    if 0 <= i < s.len() && is_blank(s[i]) {
        blanks_end(s, i + 1)
    } else {
        i
    }
}

/// The first position at or after `i` that holds no digit.
pub open spec fn digits_end(s: Seq<u8>, i: int) -> int
    decreases s.len() - i,
{
    if 0 <= i < s.len() && is_digit(s[i]) {
        digits_end(s, i + 1)
    } else {
        i
    }
}

/// Where the number that starts at `i` ends: after its digits, and after a
/// point and further digits where both follow. It is `i` where no digit
/// stands at `i`.
pub open spec fn number_end(s: Seq<u8>, i: int) -> int {
    let j = digits_end(s, i);
    if i < j && j < s.len() && s[j] == POINT && digits_end(s, j + 1) > j + 1 {
        digits_end(s, j + 1)
    } else {
        j
    }
}

/// Every byte before `n` is ASCII.
pub open spec fn ascii_before(s: Seq<u8>, n: int) -> bool {
    forall|k: int| 0 <= k < n ==> #[trigger] s[k] < 0x80
}

/// Where a run of blanks ends: inside the text, after blanks only, and
/// before a byte that is none.
pub proof fn lemma_blanks_end(s: Seq<u8>, i: int)
    requires
        0 <= i <= s.len(),
    ensures
        i <= blanks_end(s, i) <= s.len(),
        forall|k: int| i <= k < blanks_end(s, i) ==> is_blank(#[trigger] s[k]),
        blanks_end(s, i) < s.len() ==> !is_blank(s[blanks_end(s, i)]),
        blanks_end(s, blanks_end(s, i)) == blanks_end(s, i),
    decreases s.len() - i,
{
    if i < s.len() && is_blank(s[i]) {
        lemma_blanks_end(s, i + 1);
    }
}

/// Where a run of digits ends: inside the text, after digits only, and
/// before a byte that is none.
pub proof fn lemma_digits_end(s: Seq<u8>, i: int)
    requires
        0 <= i <= s.len(),
    ensures
        i <= digits_end(s, i) <= s.len(),
        forall|k: int| i <= k < digits_end(s, i) ==> is_digit(#[trigger] s[k]),
        digits_end(s, i) < s.len() ==> !is_digit(s[digits_end(s, i)]),
    decreases s.len() - i,
{
    if i < s.len() && is_digit(s[i]) {
        lemma_digits_end(s, i + 1);
    }
}

/// Where a number ends: inside the text and after digits and points only;
/// and a number starts exactly where a digit stands.
pub proof fn lemma_number_end(s: Seq<u8>, i: int)
    requires
        0 <= i <= s.len(),
    ensures
        i <= number_end(s, i) <= s.len(),
        forall|k: int| i <= k < number_end(s, i) ==> is_digit(#[trigger] s[k]) || s[k] == POINT,
        forall|k: int| i <= k < number_end(s, i) ==> #[trigger] s[k] < 0x80,
        number_end(s, i) > i <==> (i < s.len() && is_digit(s[i])),
{
    lemma_digits_end(s, i);
    let j = digits_end(s, i);
    if j < s.len() {
        lemma_digits_end(s, j + 1);
    }
}

/// Where every byte before `n` is ASCII, the text may be cut at any
/// position up to `n`.
pub proof fn lemma_ascii_boundary(s: Seq<u8>, n: int, i: int)
    requires
        valid_utf8(s),
        0 <= i <= n <= s.len(),
        ascii_before(s, n),
    ensures
        is_char_boundary(s, i),
    decreases i,
{
    if i > 0 {
        let tail = pop_first_scalar(s);
        assert(s[0] < 0x80);
        assert(length_of_first_scalar(s) == 1);
        assert(valid_utf8(tail));
        assert forall|k: int| 0 <= k < n - 1 implies #[trigger] tail[k] < 0x80 by {
            assert(tail[k] == s[k + 1]);
        }
        lemma_ascii_boundary(tail, n - 1, i - 1);
    }
}

/// Skips the blanks from `i` on.
pub fn skip_blanks(bytes: &[u8], i: usize) -> (j: usize)
    requires
        i <= bytes@.len(),
    ensures
        j == blanks_end(bytes@, i as int),
        i <= j <= bytes@.len(),
{
    let mut j: usize = i;
    while j < bytes.len() && is_blank(bytes[j])
        invariant
            i <= j <= bytes@.len(),
            blanks_end(bytes@, i as int) == blanks_end(bytes@, j as int),
        decreases bytes@.len() - j,
    {
        j = j + 1;
    }
    j
}

/// Skips the digits from `i` on.
pub fn skip_digits(bytes: &[u8], i: usize) -> (j: usize)
    requires
        i <= bytes@.len(),
    ensures
        j == digits_end(bytes@, i as int),
        i <= j <= bytes@.len(),
{
    let mut j: usize = i;
    while j < bytes.len() && is_digit(bytes[j])
        invariant
            i <= j <= bytes@.len(),
            digits_end(bytes@, i as int) == digits_end(bytes@, j as int),
        decreases bytes@.len() - j,
    {
        j = j + 1;
    }
    j
}

/// Matches a number at `i` and returns where it ends; `i` where none
/// starts there.
pub fn scan_number(bytes: &[u8], i: usize) -> (j: usize)
    requires
        i <= bytes@.len(),
    ensures
        j == number_end(bytes@, i as int),
        i <= j <= bytes@.len(),
{
    let j: usize = skip_digits(bytes, i);
    if i < j && j < bytes.len() && bytes[j] == POINT {
        let k: usize = skip_digits(bytes, j + 1);
        if k > j + 1 {
            return k;
        }
    }
    j
}

} // verus!
