use vstd::prelude::*;
use vstd::arithmetic::div_mod::lemma_fundamental_div_mod;
use crate::arith::lemma_mul_bound;

verus! {

/// Magnitude cap on the numerator and denominator of values handed to the
/// public mapping operations.  Inside this box every intermediate product of
/// the mapping arithmetic fits in an `i128`.
pub const FRAC_BOUND: i128 = 1_048_576;

/// Looser internal cap (`2^61`): two values inside it can be cross-multiplied
/// in an `i128` without overflow.
pub const MID_BOUND: i128 = 2_305_843_009_213_693_952;

/// An exact rational number: `num / den` with `den > 0`.
///
/// This is the numeric domain of the library.  Domain values, range bounds and
/// normalized values are all `Frac`s, so every mapping step is exact rational
/// arithmetic rather than floating point, and the contracts can pin results
/// down to the exact value.
#[derive(Clone, Copy, Debug, PartialEq, Eq, Structural)]
pub struct Frac {
    pub num: i128,
    pub den: i128,
}

/// `a` and `b` denote the same rational value (cross-multiplication).
/// Meaningful when both denominators are positive.
pub open spec fn veq(a: Frac, b: Frac) -> bool {
    a.num * b.den == b.num * a.den
}

/// The value of `a` is at most the value of `b` (cross-multiplication).
pub open spec fn vle(a: Frac, b: Frac) -> bool {
    a.num * b.den <= b.num * a.den
}

/// The value of `a` is strictly below the value of `b` (cross-multiplication).
pub open spec fn vlt(a: Frac, b: Frac) -> bool {
    a.num * b.den < b.num * a.den
}

/// The integer nearest to `num / den` (for `den > 0`), ties away from zero.
pub open spec fn round_ratio(num: int, den: int) -> int {
    if num >= 0 {
        (2 * num + den) / (2 * den)
    } else {
        -((2 * -num + den) / (2 * den))
    }
}

/// `d` divides `x` exactly.
pub open spec fn divides(d: int, x: int) -> bool {
    exists|k: int| x == #[trigger] (d * k)
}

impl Frac {
    /// Basic well-formedness: a positive denominator.
    pub open spec fn wf(self) -> bool {
        self.den > 0
    }

    /// The value is zero.
    pub open spec fn is_zero(self) -> bool {
        self.num == 0
    }

    /// The value is one.
    pub open spec fn is_one(self) -> bool {
        self.num == self.den
    }

    /// Inside the public input box.
    pub open spec fn bounded(self) -> bool {
        &&& -FRAC_BOUND <= self.num <= FRAC_BOUND
        &&& 0 < self.den <= FRAC_BOUND
    }

    /// Inside the internal box: cross products with another such value fit in
    /// an `i128`.
    pub open spec fn mid(self) -> bool {
        &&& -MID_BOUND <= self.num <= MID_BOUND
        &&& 0 < self.den <= MID_BOUND
    }

    /// Build the rational `num / den`.
    pub fn new(num: i64, den: i64) -> (r: Frac)
        requires
            den > 0,
        ensures
            r.num == num as int,
            r.den == den as int,
            r.wf(),
    {
        Frac { num: num as i128, den: den as i128 }
    }

    /// The integer `i` as a rational.
    pub fn from_int(i: i64) -> (r: Frac)
        ensures
            r.num == i as int,
            r.den == 1,
            r.wf(),
    {
        Frac { num: i as i128, den: 1 }
    }

    /// The rational zero.
    pub fn zero() -> (r: Frac)
        ensures
            r.num == 0,
            r.den == 1,
            r.wf(),
            r.is_zero(),
            r.bounded(),
    {
        Frac { num: 0, den: 1 }
    }

    /// The rational one.
    pub fn one() -> (r: Frac)
        ensures
            r.num == 1,
            r.den == 1,
            r.wf(),
            r.is_one(),
            r.bounded(),
    {
        Frac { num: 1, den: 1 }
    }

    /// Value comparison: `self <= other`.
    pub fn le(&self, other: &Frac) -> (r: bool)
        requires
            self.wf(),
            other.wf(),
            self.mid(),
            other.mid(),
        ensures
            r == vle(*self, *other),
    {
        proof {
            lemma_mul_bound(self.num as int, other.den as int, MID_BOUND as int, MID_BOUND as int);
            lemma_mul_bound(other.num as int, self.den as int, MID_BOUND as int, MID_BOUND as int);
        }
        self.num * other.den <= other.num * self.den
    }

    /// Value comparison: `self < other`.
    pub fn lt(&self, other: &Frac) -> (r: bool)
        requires
            self.wf(),
            other.wf(),
            self.mid(),
            other.mid(),
        ensures
            r == vlt(*self, *other),
    {
        proof {
            lemma_mul_bound(self.num as int, other.den as int, MID_BOUND as int, MID_BOUND as int);
            lemma_mul_bound(other.num as int, self.den as int, MID_BOUND as int, MID_BOUND as int);
        }
        self.num * other.den < other.num * self.den
    }

    /// The reciprocal of a strictly positive value.
    pub fn invert(self) -> (r: Frac)
        requires
            self.wf(),
            self.num > 0,
        ensures
            r.wf(),
            r.num == self.den,
            r.den == self.num,
    {
        Frac { num: self.den, den: self.num }
    }

    /// The exact square of a value.
    pub fn square(self) -> (r: Frac)
        requires
            self.wf(),
            self.mid(),
        ensures
            r.wf(),
            r.num == self.num * self.num,
            r.den == self.den * self.den,
    {
        proof {
            lemma_mul_bound(self.num as int, self.num as int, MID_BOUND as int, MID_BOUND as int);
            lemma_mul_bound(self.den as int, self.den as int, MID_BOUND as int, MID_BOUND as int);
            crate::arith::lemma_mul_pos(self.den as int, self.den as int);
        }
        Frac { num: self.num * self.num, den: self.den * self.den }
    }

    /// Round to the nearest integer, ties away from zero.
    pub open spec fn round_spec(self) -> int {
        round_ratio(self.num as int, self.den as int)
    }

    /// Round the value to the nearest integer, ties away from zero (the same
    /// policy as the usual floating-point rounding).
    pub fn round_nearest(self) -> (r: i128)
        requires
            self.wf(),
            self.mid(),
        ensures
            r == self.round_spec(),
    {
        if self.num >= 0 {
            (2 * self.num + self.den) / (2 * self.den)
        } else {
            -((2 * -self.num + self.den) / (2 * self.den))
        }
    }

    /// Divide numerator and denominator by their greatest common divisor,
    /// keeping the value exactly.  The result is in lowest terms: the only
    /// common divisors of its components are units.
    pub fn reduce(self) -> (r: Frac)
        requires
            self.wf(),
            self.num > i128::MIN,
        ensures
            r.wf(),
            veq(r, self),
            r.den <= self.den,
            self.num >= 0 ==> 0 <= r.num <= self.num,
            self.num < 0 ==> self.num <= r.num < 0,
            forall|d: int| #[trigger] divides(d, r.num as int) && divides(d, r.den as int)
                ==> -1 <= d <= 1,
    {
        let a: i128 = if self.num < 0 { -self.num } else { self.num };
        let g: i128 = gcd_i128(a, self.den);
        let qn: i128 = a / g;
        let qd: i128 = self.den / g;
        proof {
            let ka = choose|k: int| a as int == #[trigger] (g as int * k);
            let kd = choose|k: int| self.den as int == #[trigger] (g as int * k);
            lemma_exact_div(a as int, g as int, ka);
            lemma_exact_div(self.den as int, g as int, kd);
            assert(qn == ka);
            assert(qd == kd);
            assert(kd > 0) by (nonlinear_arith)
                requires
                    self.den as int == g as int * kd,
                    self.den > 0,
                    g > 0,
            ;
            assert(ka >= 0 && (a > 0 ==> ka > 0)) by (nonlinear_arith)
                requires
                    a as int == g as int * ka,
                    a >= 0,
                    g > 0,
            ;
            assert(ka * (self.den as int) == (a as int) * kd) by (nonlinear_arith)
                requires
                    self.den as int == g as int * kd,
                    a as int == g as int * ka,
            ;
            assert(ka <= a && kd <= self.den) by (nonlinear_arith)
                requires
                    a as int == g as int * ka,
                    self.den as int == g as int * kd,
                    g > 0,
                    ka >= 0,
                    kd > 0,
            ;
        }
        if self.num < 0 {
            proof {
                let ka = choose|k: int| a as int == #[trigger] (g as int * k);
                let kd = choose|k: int| self.den as int == #[trigger] (g as int * k);
                assert((-ka) * (self.den as int) == (self.num as int) * kd) by (nonlinear_arith)
                    requires
                        self.den as int == g as int * kd,
                        a as int == g as int * ka,
                        self.num as int == -(a as int),
                ;
                assert forall|d: int| #[trigger] divides(d, -ka) && divides(d, kd)
                    implies -1 <= d <= 1 by {
                    let k0 = choose|k: int| -ka == #[trigger] (d * k);
                    assert(ka == d * (-k0)) by (nonlinear_arith)
                        requires
                            -ka == d * k0,
                    ;
                    assert(divides(d, ka));
                    lemma_reduced_coprime(a as int, self.den as int, g as int, ka, kd, d);
                }
            }
            Frac { num: -qn, den: qd }
        } else {
            proof {
                let ka = choose|k: int| a as int == #[trigger] (g as int * k);
                let kd = choose|k: int| self.den as int == #[trigger] (g as int * k);
                assert forall|d: int| #[trigger] divides(d, ka) && divides(d, kd)
                    implies -1 <= d <= 1 by {
                    lemma_reduced_coprime(a as int, self.den as int, g as int, ka, kd, d);
                }
            }
            Frac { num: qn, den: qd }
        }
    }
}

/// The rounded value is within half a unit of the original:
/// `k - 1/2 <= v <= k + 1/2` for `k == v.round_spec()`.
pub proof fn lemma_round_props(v: Frac)
    requires
        v.wf(),
    ensures
        (2 * v.round_spec() - 1) * v.den <= 2 * v.num,
        2 * v.num <= (2 * v.round_spec() + 1) * v.den,
{
    if v.num >= 0 {
        let k = (2 * v.num + v.den) / (2 * v.den);
        lemma_fundamental_div_mod(2 * v.num + v.den, 2 * v.den);
        let rem = (2 * v.num + v.den) % (2 * v.den);
        assert(0 <= rem < 2 * v.den);
        assert((2 * k - 1) * v.den <= 2 * v.num && 2 * v.num <= (2 * k + 1) * v.den)
            by (nonlinear_arith)
            requires
                2 * v.num + v.den == 2 * v.den * k + rem,
                0 <= rem < 2 * v.den,
                v.den > 0,
        ;
    } else {
        let m = -(v.num as int);
        let k = (2 * m + v.den) / (2 * v.den);
        lemma_fundamental_div_mod(2 * m + v.den, 2 * v.den);
        let rem = (2 * m + v.den) % (2 * v.den);
        assert(0 <= rem < 2 * v.den);
        assert((2 * (-k) - 1) * v.den <= 2 * v.num && 2 * v.num <= (2 * (-k) + 1) * v.den)
            by (nonlinear_arith)
            requires
                2 * m + v.den == 2 * v.den * k + rem,
                0 <= rem < 2 * v.den,
                v.den > 0,
                m == -(v.num as int),
        ;
    }
}

/// Rounding a value strictly between the integers `a` and `b` lands in
/// `[a, b]`.
pub proof fn lemma_round_between(v: Frac, a: int, b: int)
    requires
        v.wf(),
        a * v.den < v.num,
        v.num < b * v.den,
    ensures
        a <= v.round_spec() <= b,
{
    lemma_round_props(v);
    let k = v.round_spec();
    assert(a <= k && k <= b) by (nonlinear_arith)
        requires
            (2 * k - 1) * v.den <= 2 * v.num,
            2 * v.num <= (2 * k + 1) * v.den,
            a * v.den < v.num,
            v.num < b * v.den,
            v.den > 0,
    ;
}

/// Rounding a fraction that denotes the integer `a` gives back `a`.
pub proof fn lemma_round_exact(v: Frac, a: int)
    requires
        v.wf(),
        v.num == a * v.den,
    ensures
        v.round_spec() == a,
{
    lemma_round_props(v);
    let k = v.round_spec();
    assert(k == a) by (nonlinear_arith)
        requires
            (2 * k - 1) * v.den <= 2 * v.num,
            2 * v.num <= (2 * k + 1) * v.den,
            v.num == a * v.den,
            v.den > 0,
    ;
}

/// Strict order on rational values is transitive (stated in cross-multiplied
/// form).
pub proof fn lemma_vlt_trans(a: Frac, b: Frac, c: Frac)
    by (nonlinear_arith)
    requires
        a.den > 0,
        b.den > 0,
        c.den > 0,
        a.num * b.den < b.num * a.den,
        b.num * c.den < c.num * b.den,
    ensures
        a.num * c.den < c.num * a.den,
{
}

/// From an exact factorization `x == d * k` with `d > 0`, division recovers the
/// cofactor: `x / d == k`.
proof fn lemma_exact_div(x: int, d: int, k: int)
    by (nonlinear_arith)
    requires
        d > 0,
        x == d * k,
    ensures
        x / d == k,
{
}

/// Greatest common divisor by Euclid's algorithm: the result divides both
/// arguments, is positive unless both are zero, and is greatest in the sense
/// that every common divisor of the arguments divides it.
pub fn gcd_i128(a: i128, b: i128) -> (g: i128)
    requires
        a >= 0,
        b >= 0,
    ensures
        divides(g as int, a as int),
        divides(g as int, b as int),
        a > 0 || b > 0 ==> g > 0,
        forall|d: int| divides(d, a as int) && divides(d, b as int)
            ==> #[trigger] divides(d, g as int),
    decreases b,
{
    if b == 0 {
        proof {
            assert(a as int == a as int * 1);
            assert(0int == a as int * 0);
        }
        a
    } else {
        let r: i128 = a % b;
        let g = gcd_i128(b, r);
        proof {
            lemma_fundamental_div_mod(a as int, b as int);
            let p = choose|k: int| b as int == #[trigger] (g as int * k);
            let t = choose|k: int| r as int == #[trigger] (g as int * k);
            let q = a as int / b as int;
            assert(a as int == g as int * (p * q + t)) by (nonlinear_arith)
                requires
                    a as int == b as int * q + r as int,
                    b as int == g as int * p,
                    r as int == g as int * t,
            ;
            assert forall|d: int| divides(d, a as int) && divides(d, b as int)
                implies #[trigger] divides(d, g as int) by {
                let x = choose|k: int| a as int == #[trigger] (d * k);
                let y = choose|k: int| b as int == #[trigger] (d * k);
                assert(r as int == d * (x - y * q)) by (nonlinear_arith)
                    requires
                        a as int == b as int * q + r as int,
                        a as int == d * x,
                        b as int == d * y,
                ;
                assert(divides(d, r as int));
            }
        }
        g
    }
}

/// A common divisor of the cofactors left after dividing out the greatest
/// common divisor can only be a unit: the reduced pair is coprime.
proof fn lemma_reduced_coprime(a: int, den: int, g: int, ka: int, kd: int, d: int)
    requires
        den > 0,
        g > 0,
        a == g * ka,
        den == g * kd,
        divides(d, ka),
        divides(d, kd),
        forall|dd: int| divides(dd, a) && divides(dd, den) ==> #[trigger] divides(dd, g),
    ensures
        -1 <= d <= 1,
{
    let u = choose|k: int| ka == #[trigger] (d * k);
    let w = choose|k: int| kd == #[trigger] (d * k);
    assert(a == (g * d) * u) by (nonlinear_arith)
        requires
            a == g * ka,
            ka == d * u,
    ;
    assert(den == (g * d) * w) by (nonlinear_arith)
        requires
            den == g * kd,
            kd == d * w,
    ;
    assert(divides(g * d, a));
    assert(divides(g * d, den));
    assert(divides(g * d, g));
    let z = choose|k: int| g == #[trigger] ((g * d) * k);
    assert(d * z == 1) by (nonlinear_arith)
        requires
            g == (g * d) * z,
            g > 0,
    ;
    assert(-1 <= d <= 1) by (nonlinear_arith)
        requires
            d * z == 1,
    ;
}

} // verus!
