//! Ten-trit words and the two transforms the machine builds on.

use crate::text::{
    drop_trits, is_trit_char, lemma_drop_trits_step, lemma_tri_value_step, numeral_digits,
    parse_spec, tri_str_spec, tri_value, trit_char, ParseWordError,
};
use crate::trits::{crz_spec, crz_trit, lemma_pow3_bounds, lemma_trit_range, pow3, rot_spec, trit};
use vstd::prelude::*;

verus! {

/// Number of values a word can take: 3^10.
pub const MAX_INT: usize = 59049;

/// The weight of the most significant trit: 3^9.
pub const TOP_TRIT: usize = 19683;

/// Computes the transform for one pair of trits.
pub fn calc_crz(trit_a: usize, trit_b: usize) -> (r: usize)
    requires
        trit_a < 3,
        trit_b < 3,
    ensures
        r == crz_trit(trit_a as int, trit_b as int),
        r < 3,
{
    match (trit_a, trit_b) {
        (0, 0) => 1,
        (1, 0) => 1,
        (2, 0) => 2,
        (0, 1) => 0,
        (1, 1) => 0,
        (2, 1) => 2,
        (0, 2) => 0,
        (1, 2) => 2,
        _ => 1,
    }
}

/// One ternary word.
#[derive(Debug, Clone, Copy, PartialEq, Eq, Structural)]
pub struct Word(usize);

impl View for Word {
    type V = int;

    closed spec fn view(&self) -> int {
        self.0 as int
    }
}

impl Word {
    /// A word is well formed when its value fits in ten trits.
    pub open spec fn wf(&self) -> bool {
        0 <= self@ < 59049
    }

    /// The word with value `v`, if `v` fits in ten trits.
    pub fn new(v: usize) -> (r: Option<Word>)
        ensures
            r is Some <==> v < 59049,
            r matches Some(w) ==> w@ == v && w.wf(),
    {
        if v < MAX_INT {
            Some(Word(v))
        } else {
            None
        }
    }

    /// The word with value `v`, which must fit in ten trits.
    pub(crate) fn from_value(v: usize) -> (r: Word)
        requires
            v < 59049,
        ensures
            r.wf(),
            r@ == v,
    {
        Word(v)
    }

    /// The numeric value of the word.
    pub fn value(&self) -> (v: usize)
        ensures
            v == self@,
    {
        self.0
    }

    /// Adds one, wrapping from the largest word to zero.
    pub fn inc(&mut self)
        requires
            old(self).wf(),
        ensures
            final(self).wf(),
            final(self)@ == (old(self)@ + 1) % 59049,
    {
        self.0 = (self.0 + 1) % MAX_INT
    }

    /// Moves the lowest trit to the top and shifts the others down.
    pub fn rot(self) -> (r: Word)
        requires
            self.wf(),
        ensures
            r.wf(),
            r@ == rot_spec(self@),
    {
        let low: usize = self.0 % 3;
        Word(self.0 / 3 + low * TOP_TRIT)
    }

    /// Combines two words trit by trit through the fixed table; `self` gives
    /// the first trit of each pair and `other` the second.
    pub fn crz(self, other: Word) -> (r: Word)
        requires
            self.wf(),
            other.wf(),
        ensures
            r.wf(),
            r@ == crz_spec(self@, other@, 10),
    {
        let mut a: usize = self.0;
        let mut b: usize = other.0;
        let mut c: usize = 0;
        let mut p: usize = 1;
        for i in 0..10
            invariant
                p == pow3(i as nat),
                0 <= c < p,
                a < 59049,
                b < 59049,
                crz_spec(self@, other@, 10) == c + p * crz_spec(
                    a as int,
                    b as int,
                    (10 - i) as nat,
                ),
        {
            let t: usize = calc_crz(a % 3, b % 3);
            proof {
                lemma_pow3_bounds(i as nat, 9);
                let rest = crz_spec(a as int / 3, b as int / 3, (10 - i - 1) as nat);
                assert(p * (t + 3 * rest) == p * t + (3 * p) * rest) by (nonlinear_arith);
                assert(t * p <= 2 * p) by (nonlinear_arith)
                    requires
                        t <= 2,
                        p >= 0,
                ;
            }
            c = c + t * p;
            p = p * 3;
            a = a / 3;
            b = b / 3;
        }
        proof {
            lemma_pow3_bounds(10, 10);
        }
        Word(c)
    }
}

impl core::ops::Add for Word {
    type Output = Word;

    /// Adds two words, wrapping past the largest word.
    fn add(self, rhs: Word) -> (r: Word)
        ensures
            r.wf(),
            r@ == (self@ + rhs@) % 59049,
    {
        Word((self.0 + rhs.0) % MAX_INT)
    }
}

impl vstd::std_specs::ops::AddSpecImpl for Word {
    open spec fn obeys_add_spec() -> bool {
        true
    }

    open spec fn add_req(self, rhs: Word) -> bool {
        self.wf() && rhs.wf()
    }

    closed spec fn add_spec(self, rhs: Word) -> Word {
        Word(((self.0 + rhs.0) % 59049) as usize)
    }
}

impl Word {
    /// Renders the word as ten base-3 digits, the most significant one first.
    pub fn as_tri_str(&self) -> (s: String)
        requires
            self.wf(),
        ensures
            s@ == tri_str_spec(self@),
    {
        let mut low_first: Vec<usize> = Vec::new();
        let mut a: usize = self.0;
        for i in 0..10
            invariant
                low_first@.len() == i,
                a == drop_trits(self@, i as nat),
                forall|j: int| 0 <= j < i ==> low_first@[j] == trit(self@, j as nat),
        {
            proof {
                lemma_drop_trits_step(self@, i as nat);
            }
            low_first.push(a % 3);
            a = a / 3;
        }
        let mut s = String::new();
        for j in 0..10
            invariant
                low_first@.len() == 10,
                forall|k: int| 0 <= k < 10 ==> low_first@[k] == trit(self@, k as nat),
                s@ == tri_str_spec(self@).take(j as int),
        {
            let t: usize = low_first[9 - j];
            proof {
                reveal_strlit("0");
                reveal_strlit("1");
                reveal_strlit("2");
                lemma_trit_range(self@, (9 - j) as nat);
            }
            let ghost before = s@;
            if t == 0 {
                s.append("0");
            } else if t == 1 {
                s.append("1");
            } else {
                s.append("2");
            }
            assert(s@ =~= before.push(trit_char(t as int)));
            assert(s@ =~= tri_str_spec(self@).take(j + 1));
        }
        assert(tri_str_spec(self@).take(10) =~= tri_str_spec(self@));
        s
    }

    /// Parses a base-3 numeral: an optional plus sign, then one or more of
    /// the digits `0`, `1` and `2`, the most significant one first. The
    /// number must fit in ten trits.
    pub fn from_str(s: &str) -> (r: Result<Word, ParseWordError>)
        ensures
            match r {
                Ok(w) => w.wf() && parse_spec(s@) == Ok::<int, ParseWordError>(w@),
                Err(e) => parse_spec(s@) == Err::<int, ParseWordError>(e),
            },
    {
        let ghost digits = numeral_digits(s@);
        let ghost off: int = if s@.len() > 0 && s@[0] == '+' {
            1
        } else {
            0
        };
        // The value read so far, held at 59049 once it has gone that high.
        let mut acc: usize = 0;
        let mut first: bool = true;
        let mut past_sign: bool = false;
        let mut bad: bool = false;
        let chars = s.chars();
        for c in it: chars
            invariant
                it.seq() == s@,
                digits == numeral_digits(s@),
                off == s@.len() - digits.len(),
                first <==> it.index() == 0,
                past_sign <==> it.index() > off,
                bad <==> exists|i: int| 0 <= i < it.index() - off && !is_trit_char(#[trigger] digits[i]),
                acc <= 59049,
                !bad && past_sign ==> acc == if tri_value(digits.take(it.index() - off)) < 59049 {
                    tri_value(digits.take(it.index() - off))
                } else {
                    59049
                },
                !past_sign ==> acc == 0,
        {
            let ghost k = it.index() - off;
            if !(first && c == '+') {
                proof {
                    assert(c == digits[k]);
                    lemma_tri_value_step(digits, k);
                    assert(tri_value(digits.take(0)) == 0);
                }
                past_sign = true;
                if c == '0' {
                    acc = if acc >= 19683 { MAX_INT } else { 3 * acc };
                } else if c == '1' {
                    acc = if acc >= 19683 { MAX_INT } else { 3 * acc + 1 };
                } else if c == '2' {
                    acc = if acc >= 19683 { MAX_INT } else { 3 * acc + 2 };
                } else {
                    bad = true;
                }
            }
            first = false;
        }
        proof {
            assert(digits.take(digits.len() as int) =~= digits);
        }
        if first {
            Err(ParseWordError::Empty)
        } else if !past_sign || bad {
            Err(ParseWordError::InvalidDigit)
        } else if acc >= MAX_INT {
            Err(ParseWordError::OutOfRange)
        } else {
            Ok(Word(acc))
        }
    }
}

} // verus!
