//! Words as text: ten base-3 digits, the most significant one first.

use crate::trits::{lemma_pow3_bounds, lemma_trit_range, pow3, trit};
use vstd::prelude::*;

verus! {

/// Why a text is not the numeral of a word.
#[derive(Debug, Clone, Copy, PartialEq, Eq, Structural)]
pub enum ParseWordError {
    /// The text has no characters at all.
    Empty,
    /// The text has no digits, or a character that is not `0`, `1` or `2`
    /// stands where a digit is expected.
    InvalidDigit,
    /// The digits are those of a number that does not fit in ten trits.
    OutOfRange,
}

/// The character that stands for the trit `t`.
pub open spec fn trit_char(t: int) -> char {
    if t == 0 {
        '0'
    } else if t == 1 {
        '1'
    } else {
        '2'
    }
}

/// Whether `c` is a base-3 digit.
pub open spec fn is_trit_char(c: char) -> bool {
    c == '0' || c == '1' || c == '2'
}

/// The trit that the digit `c` stands for.
pub open spec fn trit_char_value(c: char) -> int {
    if c == '1' {
        1
    } else if c == '2' {
        2
    } else {
        0
    }
}

/// The ten digits of `v`, the most significant one first.
pub open spec fn tri_str_spec(v: int) -> Seq<char> {
    Seq::new(10, |j: int| trit_char(trit(v, (9 - j) as nat)))
}

/// The number that a run of base-3 digits denotes, the most significant one
/// first.
pub open spec fn tri_value(s: Seq<char>) -> int
    decreases s.len(),
{
    if s.len() == 0 {
        0
    } else {
        3 * tri_value(s.drop_last()) + trit_char_value(s.last())
    }
}

/// The digits of a numeral: the text without a leading plus sign.
pub open spec fn numeral_digits(s: Seq<char>) -> Seq<char> {
    if s.len() > 0 && s[0] == '+' {
        s.drop_first()
    } else {
        s
    }
}

/// Whether every character of `s` is a base-3 digit.
pub open spec fn all_trit_chars(s: Seq<char>) -> bool {
    forall|i: int| 0 <= i < s.len() ==> is_trit_char(#[trigger] s[i])
}

/// What parsing makes of a text: an optional plus sign followed by at least
/// one base-3 digit denotes a value; the value must fit in ten trits.
pub open spec fn parse_spec(s: Seq<char>) -> Result<int, ParseWordError> {
    let digits = numeral_digits(s);
    if s.len() == 0 {
        Err(ParseWordError::Empty)
    } else if digits.len() == 0 || !all_trit_chars(digits) {
        Err(ParseWordError::InvalidDigit)
    } else if tri_value(digits) >= 59049 {
        Err(ParseWordError::OutOfRange)
    } else {
        Ok(tri_value(digits))
    }
}

/// `v` without its `i` lowest trits.
pub open spec fn drop_trits(v: int, i: nat) -> int
    decreases i,
{
    if i == 0 {
        v
    } else {
        drop_trits(v / 3, (i - 1) as nat)
    }
}

/// Dropping one more trit divides by three once more, and the lowest trit of
/// what is left is trit `i` of the whole.
pub proof fn lemma_drop_trits_step(v: int, i: nat)
    ensures
        drop_trits(v, i + 1) == drop_trits(v, i) / 3,
        trit(v, i) == drop_trits(v, i) % 3,
    decreases i,
{
    assert(drop_trits(v, i + 1) == drop_trits(v / 3, i));
    if i > 0 {
        lemma_drop_trits_step(v / 3, (i - 1) as nat);
    }
}

/// Nothing is left of an `n`-trit numeral once `n` trits are dropped.
proof fn lemma_drop_all_trits(v: int, n: nat)
    requires
        0 <= v < pow3(n),
    ensures
        drop_trits(v, n) == 0,
    decreases n,
{
    if n > 0 {
        lemma_drop_all_trits(v / 3, (n - 1) as nat);
    }
}

/// The first `k` digits of the text of `v` denote `v` without its `10 - k`
/// lowest trits.
proof fn lemma_tri_str_prefix(v: int, k: nat)
    requires
        0 <= v < 59049,
        k <= 10,
    ensures
        tri_value(tri_str_spec(v).take(k as int)) == drop_trits(v, (10 - k) as nat),
    decreases k,
{
    let s = tri_str_spec(v);
    if k == 0 {
        lemma_pow3_bounds(10, 10);
        lemma_drop_all_trits(v, 10);
    } else {
        let p = s.take(k as int);
        lemma_tri_str_prefix(v, (k - 1) as nat);
        assert(p.drop_last() =~= s.take(k - 1));
        assert(p.last() == trit_char(trit(v, (10 - k) as nat)));
        lemma_trit_range(v, (10 - k) as nat);
        lemma_drop_trits_step(v, (10 - k) as nat);
    }
}

/// The text of a word has ten base-3 digits and parses back to the word's
/// value.
pub proof fn lemma_tri_str_round_trip(v: int)
    requires
        0 <= v < 59049,
    ensures
        tri_str_spec(v).len() == 10,
        all_trit_chars(tri_str_spec(v)),
        tri_value(tri_str_spec(v)) == v,
        parse_spec(tri_str_spec(v)) == Ok::<int, ParseWordError>(v),
{
    let s = tri_str_spec(v);
    assert forall|i: int| 0 <= i < s.len() implies is_trit_char(#[trigger] s[i]) by {
        lemma_trit_range(v, (9 - i) as nat);
    }
    lemma_tri_str_prefix(v, 10);
    assert(s.take(10) =~= s);
    assert(numeral_digits(s) == s);
}

/// Reading one more digit triples the value read so far and adds the digit.
pub proof fn lemma_tri_value_step(s: Seq<char>, k: int)
    requires
        0 <= k < s.len(),
    ensures
        tri_value(s.take(k + 1)) == 3 * tri_value(s.take(k)) + trit_char_value(s[k]),
        tri_value(s.take(k)) >= 0,
    decreases k,
{
    assert(s.take(k + 1).drop_last() =~= s.take(k));
    if k > 0 {
        lemma_tri_value_step(s, k - 1);
    }
}

} // verus!
