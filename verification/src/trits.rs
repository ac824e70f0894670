//! The arithmetic of ten-trit numerals: how a value splits into trits, and
//! what the two word transforms do to them.

use vstd::prelude::*;

verus! {

/// Powers of three.
pub open spec fn pow3(n: nat) -> int
    decreases n,
{
    if n == 0 {
        1
    } else {
        3 * pow3((n - 1) as nat)
    }
}

/// Trit `i` of `v`, counted from the least significant one.
pub open spec fn trit(v: int, i: nat) -> int
    decreases i,
{
    if i == 0 {
        v % 3
    } else {
        trit(v / 3, (i - 1) as nat)
    }
}

/// The table of the per-trit transform, `a` taken from the first operand and
/// `b` from the second.
pub open spec fn crz_trit(a: int, b: int) -> int {
    if a == 0 && b == 0 {
        1
    } else if a == 1 && b == 0 {
        1
    } else if a == 2 && b == 0 {
        2
    } else if a == 0 && b == 1 {
        0
    } else if a == 1 && b == 1 {
        0
    } else if a == 2 && b == 1 {
        2
    } else if a == 0 && b == 2 {
        0
    } else if a == 1 && b == 2 {
        2
    } else {
        1
    }
}

/// The transform of the `n` low trits of `a` and `b`, trit by trit.
pub open spec fn crz_spec(a: int, b: int, n: nat) -> int
    decreases n,
{
    if n == 0 {
        0
    } else {
        crz_trit(a % 3, b % 3) + 3 * crz_spec(a / 3, b / 3, (n - 1) as nat)
    }
}

/// The value of a ten-trit numeral after its lowest trit has moved to the top.
pub open spec fn rot_spec(v: int) -> int {
    v / 3 + (v % 3) * 19683
}

/// `rot_spec` applied `k` times.
pub open spec fn rot_iter(v: int, k: nat) -> int
    decreases k,
{
    if k == 0 {
        v
    } else {
        rot_spec(rot_iter(v, (k - 1) as nat))
    }
}

/// Powers of three grow with the exponent; 3^9 and 3^10 are the weight of
/// the top trit and the number of words.
pub proof fn lemma_pow3_bounds(i: nat, j: nat)
    requires
        i <= j,
    ensures
        1 <= pow3(i) <= pow3(j),
        pow3(9) == 19683,
        pow3(10) == 59049,
    decreases j,
{
    reveal_with_fuel(pow3, 11);
    if i < j {
        lemma_pow3_bounds(i, (j - 1) as nat);
    } else if j > 0 {
        lemma_pow3_bounds((i - 1) as nat, (j - 1) as nat);
    }
}

/// Every trit is 0, 1 or 2.
pub proof fn lemma_trit_range(v: int, i: nat)
    ensures
        0 <= trit(v, i) < 3,
    decreases i,
{
    if i > 0 {
        lemma_trit_range(v / 3, (i - 1) as nat);
    }
}

/// The transform is defined for every pair of operands, stays within `n`
/// trits, and each trit of the result is the table entry for the operands'
/// trits at that position.
pub proof fn lemma_crz_trits(a: int, b: int, n: nat, i: nat)
    requires
        i < n,
    ensures
        0 <= crz_spec(a, b, n) < pow3(n),
        trit(crz_spec(a, b, n), i) == crz_trit(trit(a, i), trit(b, i)),
    decreases n,
{
    lemma_crz_range(a, b, n);
    let t = crz_trit(a % 3, b % 3);
    let rest = crz_spec(a / 3, b / 3, (n - 1) as nat);
    assert((t + 3 * rest) % 3 == t);
    assert((t + 3 * rest) / 3 == rest);
    if i > 0 {
        lemma_crz_trits(a / 3, b / 3, (n - 1) as nat, (i - 1) as nat);
    }
}

/// The transform of `n` trits is an `n`-trit numeral.
pub proof fn lemma_crz_range(a: int, b: int, n: nat)
    ensures
        0 <= crz_spec(a, b, n) < pow3(n),
    decreases n,
{
    if n > 0 {
        lemma_crz_range(a / 3, b / 3, (n - 1) as nat);
    }
}

/// Adding a multiple of 3^n leaves the trits below position `n` alone.
proof fn lemma_trit_below(x: int, d: int, n: nat, i: nat)
    requires
        i < n,
    ensures
        trit(x + d * pow3(n), i) == trit(x, i),
    decreases i,
{
    let m = d * pow3((n - 1) as nat);
    assert(d * pow3(n) == 3 * m) by (nonlinear_arith)
        requires
            pow3(n) == 3 * pow3((n - 1) as nat),
            m == d * pow3((n - 1) as nat),
    ;
    assert((x + 3 * m) % 3 == x % 3);
    assert((x + 3 * m) / 3 == x / 3 + m);
    if i > 0 {
        lemma_trit_below(x / 3, d, (n - 1) as nat, (i - 1) as nat);
    }
}

/// Adding `d` times 3^n to an `n`-trit numeral makes `d` its trit `n`.
proof fn lemma_trit_top(x: int, d: int, n: nat)
    requires
        0 <= x < pow3(n),
        0 <= d < 3,
    ensures
        trit(x + d * pow3(n), n) == d,
    decreases n,
{
    if n > 0 {
        let m = d * pow3((n - 1) as nat);
        assert(d * pow3(n) == 3 * m) by (nonlinear_arith)
            requires
                pow3(n) == 3 * pow3((n - 1) as nat),
                m == d * pow3((n - 1) as nat),
        ;
        assert((x + 3 * m) / 3 == x / 3 + m);
        lemma_trit_top(x / 3, d, (n - 1) as nat);
    }
}

/// Rotation keeps a numeral within ten trits and moves every trit one
/// position down, the lowest one to the top.
pub proof fn lemma_rot_trits(v: int, i: nat)
    requires
        0 <= v < 59049,
        i < 10,
    ensures
        0 <= rot_spec(v) < 59049,
        trit(rot_spec(v), i) == trit(v, ((i + 1) % 10) as nat),
{
    lemma_pow3_bounds(9, 10);
    if i < 9 {
        lemma_trit_below(v / 3, v % 3, 9, i);
    } else {
        lemma_trit_top(v / 3, v % 3, 9);
    }
}

/// Two `n`-trit numerals with the same trits are the same numeral.
pub proof fn lemma_trits_determine(a: int, b: int, n: nat)
    requires
        0 <= a < pow3(n),
        0 <= b < pow3(n),
        forall|i: nat| i < n ==> trit(a, i) == trit(b, i),
    ensures
        a == b,
    decreases n,
{
    if n > 0 {
        assert(trit(a, 0) == trit(b, 0));
        let a3 = a / 3;
        let b3 = b / 3;
        assert forall|i: nat| i < n - 1 implies trit(a3, i) == trit(b3, i) by {
            assert(trit(a, i + 1) == trit(b, i + 1));
        }
        lemma_trits_determine(a3, b3, (n - 1) as nat);
    }
}

/// After `k` rotations, trit `i` is the trit that stood `k` positions
/// higher, counted round the ten positions.
pub proof fn lemma_rot_iter_trits(v: int, k: nat, i: nat)
    requires
        0 <= v < 59049,
        i < 10,
    ensures
        0 <= rot_iter(v, k) < 59049,
        trit(rot_iter(v, k), i) == trit(v, ((i + k) % 10) as nat),
    decreases k,
{
    if k > 0 {
        let j = ((i + 1) % 10) as nat;
        lemma_rot_iter_trits(v, (k - 1) as nat, j);
        lemma_rot_trits(rot_iter(v, (k - 1) as nat), i);
        assert((j + (k - 1)) % 10 == (i + k) % 10);
    }
}

/// Ten rotations in a row give back the numeral they started from.
pub proof fn lemma_rot_cycle(v: int)
    requires
        0 <= v < 59049,
    ensures
        rot_iter(v, 10) == v,
{
    assert forall|i: nat| i < 10 implies trit(rot_iter(v, 10), i) == trit(v, i) by {
        lemma_rot_iter_trits(v, 10, i);
    }
    lemma_rot_iter_trits(v, 10, 0);
    lemma_pow3_bounds(10, 10);
    lemma_trits_determine(rot_iter(v, 10), v, 10);
}

} // verus!
