use vstd::prelude::*;

verus! {

/// `a * b` stays inside the box `[-(m * n), m * n]` when `|a| <= m` and `|b| <= n`.
pub proof fn lemma_mul_bound(a: int, b: int, m: int, n: int)
    by (nonlinear_arith)
    requires
        -m <= a <= m,
        -n <= b <= n,
    ensures
        -(m * n) <= a * b <= m * n,
{
}

/// The product of two positive integers is positive.
pub proof fn lemma_mul_pos(a: int, b: int)
    by (nonlinear_arith)
    requires
        a > 0,
        b > 0,
    ensures
        a * b > 0,
{
}

/// A ratio `rn / rd` equal to `p / q` with `0 <= p <= q` lies in the unit
/// interval: `0 <= rn <= rd`.
pub proof fn lemma_ratio_in_unit(rn: int, rd: int, p: int, q: int)
    by (nonlinear_arith)
    requires
        rd > 0,
        q > 0,
        0 <= p <= q,
        rn * q == p * rd,
    ensures
        0 <= rn <= rd,
{
}

/// For nonnegative integers, comparing squares is the same as comparing the roots.
pub proof fn lemma_square_le_implies_le(a: int, b: int)
    by (nonlinear_arith)
    requires
        a >= 0,
        b >= 0,
        a * a <= b * b,
    ensures
        a <= b,
{
}

/// For nonnegative integers, a strict order of the squares gives a strict
/// order of the roots.
pub proof fn lemma_square_lt_implies_lt(a: int, b: int)
    by (nonlinear_arith)
    requires
        a >= 0,
        b >= 0,
        a * a < b * b,
    ensures
        a < b,
{
}

} // verus!
