use vstd::prelude::*;
use vstd::math::min;
use vstd::arithmetic::div_mod::lemma_fundamental_div_mod;
use vstd::arithmetic::power::{
    pow, lemma0_pow, lemma_pow0, lemma_pow1, lemma_pow_adds, lemma_pow_distributes,
    lemma_pow_increases, lemma_pow_multiplies, lemma_pow_positive,
};
use vstd::arithmetic::power2::{lemma2_to64, lemma_pow2};
use crate::frac::{Frac, veq, vle, vlt, lemma_vlt_trans, FRAC_BOUND, MID_BOUND};
use crate::linear_base::{
    LinearBase, maps_linearly, maps_linearly_ratio, lin_num, lin_den,
    lemma_interior_unit, lemma_interior_pos, lemma_ratio_of_normalized,
};
use crate::arith::{lemma_mul_bound, lemma_mul_pos, lemma_square_le_implies_le};

verus! {

/// Scale of the fixed-point curve brackets: a square root, or a bracketed
/// power of order three and above, is returned as a multiple of
/// `1 / SQRT_SCALE`, pinned by a two-sided bracket.
pub const SQRT_SCALE: i128 = 1_048_576;

/// Upper end of the integer-square-root bisection (`2^63`); its square still
/// fits in an `i128`.
const SQRT_HI: i128 = 9_223_372_036_854_775_808;

/// `root_scale_spec(n)^n` for every supported root order: `2^60`, the common
/// n-th power of the per-order root scales.
pub const ROOT_SCALE_POW: i128 = 1_152_921_504_606_846_976;

/// Upper end of the general n-th-root bisection (`2^62`).
const ROOT_HI: i128 = 4_611_686_018_427_387_904;

/// Fixed-point scale of the n-th roots of order `n >= 3`: the largest power
/// of two whose n-th power still fits under `2^60`.
pub open spec fn root_scale_spec(n: int) -> int {
    if n <= 3 {
        1_048_576
    } else if n == 4 {
        32_768
    } else if n == 5 {
        4_096
    } else {
        1_024
    }
}

/// `root_scale_spec(n)^n == ROOT_SCALE_POW` for every supported root order.
proof fn lemma_root_scale_pow(n: int)
    requires
        3 <= n <= 6,
    ensures
        pow(root_scale_spec(n), n as nat) == ROOT_SCALE_POW as int,
{
    lemma2_to64();
    vstd::arithmetic::power2::lemma2_to64_rest();
    lemma_pow2(10);
    lemma_pow2(12);
    lemma_pow2(15);
    lemma_pow2(20);
    lemma_pow2(60);
    assert(pow(2, 60) == ROOT_SCALE_POW as int);
    if n == 3 {
        lemma_pow_multiplies(2, 20, 3);
        assert(pow(2, 20) == 1_048_576);
        assert(pow(root_scale_spec(n), n as nat) == pow(pow(2, 20), 3));
        assert(pow(pow(2, 20), 3) == pow(2, 60));
    } else if n == 4 {
        lemma_pow_multiplies(2, 15, 4);
        assert(pow(2, 15) == 32_768);
        assert(pow(root_scale_spec(n), n as nat) == pow(pow(2, 15), 4));
        assert(pow(pow(2, 15), 4) == pow(2, 60));
    } else if n == 5 {
        lemma_pow_multiplies(2, 12, 5);
        assert(pow(2, 12) == 4_096);
        assert(pow(root_scale_spec(n), n as nat) == pow(pow(2, 12), 5));
        assert(pow(pow(2, 12), 5) == pow(2, 60));
    } else {
        lemma_pow_multiplies(2, 10, 6);
        assert(pow(2, 10) == 1_024);
        assert(pow(root_scale_spec(n), n as nat) == pow(pow(2, 10), 6));
        assert(pow(pow(2, 10), 6) == pow(2, 60));
    }
}

/// The exponent of a power mapping: either an integer `n` or its reciprocal
/// `1 / n`.  The curve raises the normalized value to `1 / exponent` when
/// normalizing and to `exponent` when denormalizing.  Supported orders are
/// `-2 <= n <= 6` (nonzero): the machine limit of carrying the curves in
/// exact `i128` rational arithmetic, with irrational roots and deep powers
/// pinned by exact two-sided fixed-point brackets.
#[derive(Clone, Copy, Debug, PartialEq, Eq, Structural)]
pub enum Exponent {
    /// The exponent `n` itself.
    Int(i64),
    /// The exponent `1 / n`.
    Recip(i64),
}

/// Why a mapping could not be constructed.
#[derive(Clone, Copy, Debug, PartialEq, Eq, Structural)]
pub enum MapError {
    /// A power mapping with exponent zero was requested.
    ZeroExponent,
    /// The requested exponent is outside the supported set.
    UnsupportedExponent,
}

/// The integer `n` of either exponent form.
pub open spec fn exp_raw(e: Exponent) -> int {
    match e {
        Exponent::Int(n) => n as int,
        Exponent::Recip(n) => n as int,
    }
}

/// `Recip(1)` and `Recip(-1)` mean the same curve as `Int(1)` and `Int(-1)`;
/// constructors store the `Int` form.
pub open spec fn canonical_exponent(e: Exponent) -> Exponent {
    match e {
        Exponent::Recip(n) => if n == 1 {
            Exponent::Int(1i64)
        } else if n == -1 {
            Exponent::Int(-1i64)
        } else {
            e
        },
        Exponent::Int(n) => e,
    }
}

/// Exponential mapping: the normalized value is the linear image raised to
/// `1 / exponent`; denormalizing raises the normalized value to `exponent`
/// before the linear step.  Clamps happen on the raw value, outside the
/// curve.
///
/// Precision: the identity and reciprocal curves and the squaring directions
/// are exact rationals.  Irrational directions (roots, and powers of order
/// three and above) return fixed-point values pinned by exact two-sided
/// brackets, within one bracket step of the true curve: `1 / SQRT_SCALE`
/// (about `1e-6`) at best, coarser for higher orders.  A round trip through
/// a bracketed direction is therefore exact to one step of the range width
/// (about `1e-6 * (max - min)`), which meets a single-precision tolerance
/// but not a double-precision one; the scales are chosen so that bracketed
/// results stay inside the public input box and can be fed back to
/// `denormalize`.
#[derive(Debug)]
pub struct PowerMap {
    pub base: LinearBase,
    pub exponent: Exponent,
}

impl PowerMap {
    pub open spec fn wf(self) -> bool {
        &&& self.base.wf()
        &&& exp_raw(self.exponent) != 0
        &&& -2 <= exp_raw(self.exponent) <= 6
        &&& self.exponent == canonical_exponent(self.exponent)
    }

    /// What `normalize` returns: clamped exactly to zero or one at the
    /// bounds; strictly inside, with `t = lin_num / lin_den` the exact linear
    /// image, the result is `t` raised to `1 / exponent`: exact for the
    /// rational cases, and for the square roots a fixed-point value over
    /// `SQRT_SCALE` pinned by a two-sided square bracket.
    pub open spec fn normalize_post(self, v: Frac, r: Frac) -> bool {
        &&& r.wf()
        &&& vle(v, self.base.min) ==> r.is_zero()
        &&& !vle(v, self.base.min) && vle(self.base.max, v) ==> r.is_one()
        &&& vlt(self.base.min, v) && vlt(v, self.base.max) ==> {
            let ln = lin_num(self.base.min, self.base.max, v);
            let ld = lin_den(self.base.min, self.base.max, v);
            match self.exponent {
                Exponent::Int(n) => if n == 1 {
                    r.num * ld == ln * r.den && 0 < r.num < r.den
                } else if n == -1 {
                    r.num * ln == ld * r.den && r.num > 0
                } else if n == 2 {
                    &&& r.den == SQRT_SCALE
                    &&& 0 <= r.num
                    &&& (r.num * r.num) * ld <= ln * (SQRT_SCALE * SQRT_SCALE)
                    &&& ln * (SQRT_SCALE * SQRT_SCALE) < ((r.num + 1) * (r.num + 1)) * ld
                } else if n == -2 {
                    &&& r.den == SQRT_SCALE
                    &&& 0 <= r.num
                    &&& (r.num * r.num) * ln <= ld * (SQRT_SCALE * SQRT_SCALE)
                    &&& ld * (SQRT_SCALE * SQRT_SCALE) < ((r.num + 1) * (r.num + 1)) * ln
                } else {
                    &&& r.den == root_scale_spec(n as int)
                    &&& 0 <= r.num
                    &&& pow(r.num as int, n as nat) * ld <= ln * ROOT_SCALE_POW
                    &&& ln * ROOT_SCALE_POW < pow(r.num + 1, n as nat) * ld
                },
                Exponent::Recip(n) => if n == 2 {
                    r.num * (ld * ld) == (ln * ln) * r.den && 0 < r.num < r.den
                } else if n == -2 {
                    r.num * (ln * ln) == (ld * ld) * r.den && r.num > 0
                } else {
                    &&& r.den == SQRT_SCALE
                    &&& 0 <= r.num <= SQRT_SCALE
                    &&& r.num * pow(ld, n as nat) <= SQRT_SCALE * pow(ln, n as nat)
                    &&& SQRT_SCALE * pow(ln, n as nat) < (r.num + n + 1) * pow(ld, n as nat)
                },
            }
        }
    }

    /// What `denormalize` returns: clamped exactly to `min` or `max` at zero
    /// and one; strictly inside, the input is raised to `exponent` (square
    /// roots pinned by a bracket over `SQRT_SCALE`) and the result stands in
    /// the affine relation with that curved ratio.
    pub open spec fn denormalize_post(self, r: Frac, w: Frac) -> bool {
        &&& w.wf()
        &&& r.num <= 0 ==> veq(w, self.base.min)
        &&& r.num > 0 && r.num >= r.den ==> veq(w, self.base.max)
        &&& 0 < r.num < r.den ==> {
            &&& self.base.degenerate() ==> veq(w, self.base.min)
            &&& !self.base.degenerate() ==> match self.exponent {
                Exponent::Int(n) => if n == 1 {
                    maps_linearly_ratio(self.base.min, self.base.max, w, r.num as int, r.den as int)
                } else if n == -1 {
                    maps_linearly_ratio(self.base.min, self.base.max, w, r.den as int, r.num as int)
                } else if n == 2 {
                    maps_linearly_ratio(self.base.min, self.base.max, w, r.num * r.num, r.den * r.den)
                } else if n == -2 {
                    maps_linearly_ratio(self.base.min, self.base.max, w, r.den * r.den, r.num * r.num)
                } else {
                    exists|pp: int| {
                        &&& 0 <= pp <= SQRT_SCALE
                        &&& pp * pow(r.den as int, n as nat) <= SQRT_SCALE * pow(
                            r.num as int, n as nat)
                        &&& SQRT_SCALE * pow(r.num as int, n as nat) < (pp + n + 1) * pow(
                            r.den as int, n as nat)
                        &&& #[trigger] maps_linearly_ratio(
                            self.base.min, self.base.max, w, pp, SQRT_SCALE as int)
                    }
                },
                Exponent::Recip(n) => if n == 2 {
                    exists|m: int| {
                        &&& 0 <= m
                        &&& (m * m) * r.den <= r.num * (SQRT_SCALE * SQRT_SCALE)
                        &&& r.num * (SQRT_SCALE * SQRT_SCALE) < ((m + 1) * (m + 1)) * r.den
                        &&& #[trigger] maps_linearly_ratio(
                            self.base.min, self.base.max, w, m, SQRT_SCALE as int)
                    }
                } else if n == -2 {
                    exists|m: int| {
                        &&& 0 <= m
                        &&& (m * m) * r.num <= r.den * (SQRT_SCALE * SQRT_SCALE)
                        &&& r.den * (SQRT_SCALE * SQRT_SCALE) < ((m + 1) * (m + 1)) * r.num
                        &&& #[trigger] maps_linearly_ratio(
                            self.base.min, self.base.max, w, m, SQRT_SCALE as int)
                    }
                } else {
                    exists|m: int| {
                        &&& 0 <= m
                        &&& pow(m, n as nat) * r.den <= r.num * ROOT_SCALE_POW
                        &&& r.num * ROOT_SCALE_POW < pow(m + 1, n as nat) * r.den
                        &&& #[trigger] maps_linearly_ratio(
                            self.base.min, self.base.max, w, m, root_scale_spec(n as int))
                    }
                },
            }
        }
    }

    /// Create a power mapping over `[min, max]` with the given exponent.
    /// Construction fails loudly on a zero exponent, and on an exponent
    /// outside the supported set.
    pub fn new(min_value: Frac, max_value: Frac, exponent: Exponent) -> (result: Result<
        PowerMap,
        MapError,
    >)
        requires
            min_value.wf(),
            max_value.wf(),
            min_value.bounded(),
            max_value.bounded(),
        ensures
            match result {
                Ok(m) => {
                    &&& exp_raw(exponent) != 0
                    &&& -2 <= exp_raw(exponent) <= 6
                    &&& m.wf()
                    &&& m.base.min == min_value
                    &&& m.base.max == max_value
                    &&& m.exponent == canonical_exponent(exponent)
                },
                Err(MapError::ZeroExponent) => exp_raw(exponent) == 0,
                Err(MapError::UnsupportedExponent) => exp_raw(exponent) != 0
                    && !(-2 <= exp_raw(exponent) <= 6),
            },
    {
        let n: i64 = match exponent {
            Exponent::Int(k) => k,
            Exponent::Recip(k) => k,
        };
        if n == 0 {
            Err(MapError::ZeroExponent)
        } else if n < -2 || n > 6 {
            Err(MapError::UnsupportedExponent)
        } else {
            let canon = match exponent {
                Exponent::Recip(k) => if k == 1 {
                    Exponent::Int(1)
                } else if k == -1 {
                    Exponent::Int(-1)
                } else {
                    exponent
                },
                Exponent::Int(_) => exponent,
            };
            Ok(PowerMap { base: LinearBase::new(min_value, max_value), exponent: canon })
        }
    }

    /// Map a value to the normalized range `[0, 1]` through the power curve.
    pub fn normalize(&self, v: Frac) -> (r: Frac)
        requires
            self.wf(),
            v.wf(),
            v.bounded(),
        ensures
            self.normalize_post(v, r),
    {
        if v.le(&self.base.min) {
            Frac::zero()
        } else if self.base.max.le(&v) {
            Frac::one()
        } else {
            let t = self.base.normalize_raw(v);
            proof {
                lemma_vlt_trans(self.base.min, v, self.base.max);
                assert(!self.base.degenerate());
                lemma_interior_unit(self.base.min, self.base.max, v, t);
                lemma_interior_pos(self.base.min, self.base.max, v);
                lemma_ratio_of_normalized(self.base.min, self.base.max, v, t);
            }
            let ghost ln = lin_num(self.base.min, self.base.max, v);
            let ghost ld = lin_den(self.base.min, self.base.max, v);
            match self.exponent {
                Exponent::Int(n) => if n == 1 {
                    t
                } else if n == -1 {
                    t.invert()
                } else if n == 2 {
                    let m = sqrt_floor(t.num, t.den);
                    proof {
                        lemma_bracket_transfer(
                            m as int, SQRT_SCALE * SQRT_SCALE,
                            t.num as int, t.den as int, ln, ld,
                        );
                    }
                    Frac { num: m, den: SQRT_SCALE }
                } else if n == -2 {
                    let m = sqrt_floor(t.den, t.num);
                    proof {
                        lemma_bracket_transfer(
                            m as int, SQRT_SCALE * SQRT_SCALE,
                            t.den as int, t.num as int, ld, ln,
                        );
                    }
                    Frac { num: m, den: SQRT_SCALE }
                } else {
                    let m = root_floor_n(t.num, t.den, n);
                    let rs: i128 = if n == 3 {
                        1_048_576
                    } else if n == 4 {
                        32_768
                    } else if n == 5 {
                        4_096
                    } else {
                        1_024
                    };
                    proof {
                        lemma_bracket_transfer_gen(
                            pow(m as int, n as nat),
                            pow((m + 1) as int, n as nat),
                            ROOT_SCALE_POW as int,
                            t.num as int, t.den as int, ln, ld,
                        );
                    }
                    Frac { num: m, den: rs }
                },
                Exponent::Recip(n) => if n == 2 {
                    let r = t.square();
                    proof {
                        assert(r.num * (ld * ld) == (ln * ln) * r.den && 0 < r.num < r.den)
                            by (nonlinear_arith)
                            requires
                                r.num == t.num * t.num,
                                r.den == t.den * t.den,
                                t.num * ld == ln * t.den,
                                0 < t.num < t.den,
                        ;
                    }
                    r
                } else if n == -2 {
                    proof {
                        lemma_mul_pos(t.num as int, t.num as int);
                    }
                    let r = t.square().invert();
                    proof {
                        assert(r.num * (ln * ln) == (ld * ld) * r.den && r.num > 0)
                            by (nonlinear_arith)
                            requires
                                r.num == t.den * t.den,
                                r.den == t.num * t.num,
                                t.num * ld == ln * t.den,
                                0 < t.num < t.den,
                        ;
                    }
                    r
                } else {
                    let p = pow_floor_n(t.num, t.den, n);
                    proof {
                        assert(pow(t.num * ld, n as nat) == pow(ln * t.den, n as nat));
                        lemma_pow_distributes(t.num as int, ld, n as nat);
                        lemma_pow_distributes(ln, t.den as int, n as nat);
                        lemma_pow_positive(t.den as int, n as nat);
                        lemma_pow_positive(ld, n as nat);
                        lemma_bracket_transfer_gen(
                            p as int,
                            p + n + 1,
                            SQRT_SCALE as int,
                            pow(t.num as int, n as nat),
                            pow(t.den as int, n as nat),
                            pow(ln, n as nat),
                            pow(ld, n as nat),
                        );
                    }
                    Frac { num: p, den: SQRT_SCALE }
                },
            }
        }
    }

    /// Map a normalized value back through the power curve to the
    /// `[min, max]` range.
    pub fn denormalize(&self, r: Frac) -> (w: Frac)
        requires
            self.wf(),
            r.wf(),
            r.bounded(),
        ensures
            self.denormalize_post(r, w),
    {
        if r.num <= 0 {
            self.base.min
        } else if r.num >= r.den {
            self.base.max
        } else {
            let s: Frac = match self.exponent {
                Exponent::Int(n) => if n == 1 {
                    r
                } else if n == -1 {
                    r.invert()
                } else if n == 2 {
                    r.square()
                } else if n == -2 {
                    proof {
                        lemma_mul_pos(r.num as int, r.num as int);
                    }
                    r.square().invert()
                } else {
                    let p = pow_floor_n(r.num, r.den, n);
                    Frac { num: p, den: SQRT_SCALE }
                },
                Exponent::Recip(n) => if n == 2 {
                    let m = sqrt_floor(r.num, r.den);
                    proof {
                        lemma_sqrt_result_small(m as int, r.num as int, r.den as int);
                    }
                    Frac { num: m, den: SQRT_SCALE }
                } else if n == -2 {
                    let m = sqrt_floor(r.den, r.num);
                    proof {
                        lemma_sqrt_result_small(m as int, r.den as int, r.num as int);
                    }
                    Frac { num: m, den: SQRT_SCALE }
                } else {
                    let m = root_floor_n(r.num, r.den, n);
                    let rs: i128 = if n == 3 {
                        1_048_576
                    } else if n == 4 {
                        32_768
                    } else if n == 5 {
                        4_096
                    } else {
                        1_024
                    };
                    proof {
                        lemma_root_result_small(m as int, r.num as int, r.den as int, n as int);
                    }
                    Frac { num: m, den: rs }
                },
            };
            proof {
                lemma_mul_bound(r.num as int, r.num as int, FRAC_BOUND as int, FRAC_BOUND as int);
                lemma_mul_bound(r.den as int, r.den as int, FRAC_BOUND as int, FRAC_BOUND as int);
            }
            let w = self.base.denormalize_raw(s);
            proof {
                if !self.base.degenerate() {
                    match self.exponent {
                        Exponent::Int(nn) => if nn >= 3 {
                            assert(maps_linearly_ratio(
                                self.base.min, self.base.max, w, s.num as int,
                                SQRT_SCALE as int));
                        },
                        Exponent::Recip(nn) => if nn == 2 || nn == -2 {
                            assert(maps_linearly_ratio(
                                self.base.min, self.base.max, w, s.num as int,
                                SQRT_SCALE as int));
                        } else {
                            assert(maps_linearly_ratio(
                                self.base.min, self.base.max, w, s.num as int,
                                root_scale_spec(nn as int)));
                        },
                    }
                }
            }
            w
        }
    }

    /// Map each value of the overlapping prefix of the two buffers through
    /// the power curve; the shorter length wins and the extra elements of the
    /// longer buffer are left untouched.
    pub fn normalize_array(&self, in_values: &Vec<Frac>, out_normalized: &mut Vec<Frac>)
        requires
            self.wf(),
            forall|i: int| 0 <= i < in_values@.len()
                ==> (#[trigger] in_values@[i]).wf() && in_values@[i].bounded(),
        ensures
            final(out_normalized)@.len() == old(out_normalized)@.len(),
            forall|i: int| 0 <= i < min(in_values@.len() as int, old(out_normalized)@.len() as int)
                ==> self.normalize_post(in_values@[i], #[trigger] final(out_normalized)@[i]),
            forall|i: int|
                min(in_values@.len() as int, old(out_normalized)@.len() as int) <= i
                    < old(out_normalized)@.len()
                ==> #[trigger] final(out_normalized)@[i] == old(out_normalized)@[i],
    {
        let n: usize = if in_values.len() < out_normalized.len() {
            in_values.len()
        } else {
            out_normalized.len()
        };
        let mut i: usize = 0;
        while i < n
            invariant
                self.wf(),
                i <= n,
                n == min(in_values@.len() as int, old(out_normalized)@.len() as int),
                out_normalized@.len() == old(out_normalized)@.len(),
                forall|j: int| 0 <= j < in_values@.len()
                    ==> (#[trigger] in_values@[j]).wf() && in_values@[j].bounded(),
                forall|j: int| 0 <= j < i
                    ==> self.normalize_post(in_values@[j], #[trigger] out_normalized@[j]),
                forall|j: int| i <= j < out_normalized@.len()
                    ==> #[trigger] out_normalized@[j] == old(out_normalized)@[j],
            decreases n - i,
        {
            let val = self.normalize(in_values[i]);
            out_normalized[i] = val;
            i = i + 1;
        }
    }

    /// Un-map each normalized value of the overlapping prefix of the two
    /// buffers through the power curve; the shorter length wins and the extra
    /// elements of the longer buffer are left untouched.
    pub fn denormalize_array(&self, in_normalized: &Vec<Frac>, out_values: &mut Vec<Frac>)
        requires
            self.wf(),
            forall|i: int| 0 <= i < in_normalized@.len()
                ==> (#[trigger] in_normalized@[i]).wf() && in_normalized@[i].bounded(),
        ensures
            final(out_values)@.len() == old(out_values)@.len(),
            forall|i: int| 0 <= i < min(in_normalized@.len() as int, old(out_values)@.len() as int)
                ==> self.denormalize_post(in_normalized@[i], #[trigger] final(out_values)@[i]),
            forall|i: int|
                min(in_normalized@.len() as int, old(out_values)@.len() as int) <= i
                    < old(out_values)@.len()
                ==> #[trigger] final(out_values)@[i] == old(out_values)@[i],
    {
        let n: usize = if in_normalized.len() < out_values.len() {
            in_normalized.len()
        } else {
            out_values.len()
        };
        let mut i: usize = 0;
        while i < n
            invariant
                self.wf(),
                i <= n,
                n == min(in_normalized@.len() as int, old(out_values)@.len() as int),
                out_values@.len() == old(out_values)@.len(),
                forall|j: int| 0 <= j < in_normalized@.len()
                    ==> (#[trigger] in_normalized@[j]).wf() && in_normalized@[j].bounded(),
                forall|j: int| 0 <= j < i
                    ==> self.denormalize_post(in_normalized@[j], #[trigger] out_values@[j]),
                forall|j: int| i <= j < out_values@.len()
                    ==> #[trigger] out_values@[j] == old(out_values)@[j],
            decreases n - i,
        {
            let val = self.denormalize(in_normalized[i]);
            out_values[i] = val;
            i = i + 1;
        }
    }
}

/// Integer square root by bisection: the unique `r` with
/// `r^2 <= x < (r + 1)^2`.
fn isqrt(x: i128) -> (r: i128)
    requires
        0 <= x,
        x < SQRT_HI * SQRT_HI,
    ensures
        0 <= r,
        r * r <= x,
        x < (r + 1) * (r + 1),
{
    let mut lo: i128 = 0;
    let mut hi: i128 = SQRT_HI;
    while lo + 1 < hi
        invariant
            0 <= lo < hi <= SQRT_HI,
            lo * lo <= x,
            x < hi * hi,
        decreases hi - lo,
    {
        let mid: i128 = lo + (hi - lo) / 2;
        proof {
            lemma_mul_bound(mid as int, mid as int, SQRT_HI as int, SQRT_HI as int);
        }
        if mid * mid <= x {
            lo = mid;
        } else {
            hi = mid;
        }
    }
    lo
}

/// Floor of `sqrt(num / den) * SQRT_SCALE`, characterized exactly by a
/// two-sided square bracket against `num / den`.
fn sqrt_floor(num: i128, den: i128) -> (m: i128)
    requires
        0 <= num <= MID_BOUND,
        0 < den,
    ensures
        0 <= m,
        (m * m) * den <= num * (SQRT_SCALE * SQRT_SCALE),
        num * (SQRT_SCALE * SQRT_SCALE) < ((m + 1) * (m + 1)) * den,
{
    proof {
        lemma_mul_bound(
            num as int,
            SQRT_SCALE * SQRT_SCALE,
            MID_BOUND as int,
            SQRT_SCALE * SQRT_SCALE,
        );
    }
    let scaled: i128 = num * (SQRT_SCALE * SQRT_SCALE);
    let q: i128 = scaled / den;
    proof {
        lemma_fundamental_div_mod(scaled as int, den as int);
        assert(0 <= q && q <= scaled) by (nonlinear_arith)
            requires
                scaled as int == den as int * (q as int) + (scaled as int) % (den as int),
                0 <= (scaled as int) % (den as int) < den,
                den >= 1,
                scaled >= 0,
        ;
    }
    let m = isqrt(q);
    proof {
        assert((m * m) * den <= scaled) by (nonlinear_arith)
            requires
                m * m <= q,
                scaled as int == den as int * (q as int) + (scaled as int) % (den as int),
                (scaled as int) % (den as int) >= 0,
                den > 0,
        ;
        assert(scaled < ((m + 1) * (m + 1)) * den) by (nonlinear_arith)
            requires
                q < (m + 1) * (m + 1),
                scaled as int == den as int * (q as int) + (scaled as int) % (den as int),
                (scaled as int) % (den as int) < den,
                den > 0,
        ;
    }
    m
}

/// A square bracket carries over to any equal ratio: if `an / ad == bn / bd`
/// then a bracket against the first is a bracket against the second.
proof fn lemma_bracket_transfer(m: int, s2: int, an: int, ad: int, bn: int, bd: int)
    requires
        ad > 0,
        bd > 0,
        an * bd == bn * ad,
        (m * m) * ad <= an * s2,
        an * s2 < ((m + 1) * (m + 1)) * ad,
    ensures
        (m * m) * bd <= bn * s2,
        bn * s2 < ((m + 1) * (m + 1)) * bd,
{
    let mm = m * m;
    let mm1 = (m + 1) * (m + 1);
    assert(mm * ad * bd <= an * s2 * bd) by (nonlinear_arith)
        requires
            mm * ad <= an * s2,
            bd > 0,
    ;
    assert(an * s2 * bd == bn * s2 * ad) by (nonlinear_arith)
        requires
            an * bd == bn * ad,
    ;
    assert(mm * bd <= bn * s2) by (nonlinear_arith)
        requires
            mm * ad * bd <= bn * s2 * ad,
            ad > 0,
    ;
    assert(an * s2 * bd < mm1 * ad * bd) by (nonlinear_arith)
        requires
            an * s2 < mm1 * ad,
            bd > 0,
    ;
    assert(bn * s2 < mm1 * bd) by (nonlinear_arith)
        requires
            bn * s2 * ad < mm1 * ad * bd,
            ad > 0,
    ;
}

/// The exact linear image `(lin_num, lin_den)` of a value stands in the
/// affine relation with that value (a polynomial identity).
proof fn lemma_affine_self(min_b: Frac, max_b: Frac, v: Frac)
    ensures
        maps_linearly_ratio(min_b, max_b, v, lin_num(min_b, max_b, v), lin_den(min_b, max_b, v)),
{
    let nv = v.num * min_b.den - min_b.num * v.den;
    let n2 = max_b.num * min_b.den - min_b.num * max_b.den;
    assert(nv * ((v.den * n2) * (max_b.den * min_b.den)) == ((nv * max_b.den) * n2) * (v.den
        * min_b.den)) by (nonlinear_arith);
}

/// Scaling both components of the normalized ratio by the same factor keeps
/// the affine relation.
proof fn lemma_affine_scale(min_b: Frac, max_b: Frac, w: Frac, sn: int, sd: int, c: int)
    requires
        maps_linearly_ratio(min_b, max_b, w, sn, sd),
    ensures
        maps_linearly_ratio(min_b, max_b, w, sn * c, sd * c),
{
    let nv = w.num * min_b.den - min_b.num * w.den;
    let n2 = max_b.num * min_b.den - min_b.num * max_b.den;
    let lhs = nv * (sd * (max_b.den * min_b.den));
    let rhs = (sn * n2) * (w.den * min_b.den);
    assert(nv * ((sd * c) * (max_b.den * min_b.den)) == lhs * c) by (nonlinear_arith)
        requires
            lhs == nv * (sd * (max_b.den * min_b.den)),
    ;
    assert(((sn * c) * n2) * (w.den * min_b.den) == rhs * c) by (nonlinear_arith)
        requires
            rhs == (sn * n2) * (w.den * min_b.den),
    ;
    assert(lhs * c == rhs * c);
}

/// Two values in the affine relation with ratios over one common denominator
/// differ by the difference of the numerators, scaled by the range.
proof fn lemma_affine_diff(min_b: Frac, max_b: Frac, v: Frac, w: Frac, p: int, pp: int, q: int)
    requires
        min_b.wf(),
        maps_linearly_ratio(min_b, max_b, v, p, q),
        maps_linearly_ratio(min_b, max_b, w, pp, q),
    ensures
        (v.num * w.den - w.num * v.den) * (q * (max_b.den * min_b.den))
            == (p - pp) * ((max_b.num * min_b.den - min_b.num * max_b.den) * (v.den * w.den)),
{
    let mnd = min_b.den as int;
    let mnn = min_b.num as int;
    let n2 = max_b.num * min_b.den - min_b.num * max_b.den;
    let nvv = v.num * min_b.den - min_b.num * v.den;
    let nvw = w.num * min_b.den - min_b.num * w.den;
    let d = q * (max_b.den * mnd);
    assert(nvv * d * w.den == p * (n2 * (v.den * w.den)) * mnd) by (nonlinear_arith)
        requires
            nvv * d == (p * n2) * (v.den * mnd),
    ;
    assert(nvw * d * v.den == pp * (n2 * (v.den * w.den)) * mnd) by (nonlinear_arith)
        requires
            nvw * d == (pp * n2) * (w.den * mnd),
    ;
    assert((nvv * w.den - nvw * v.den) * d == nvv * d * w.den - nvw * d * v.den)
        by (nonlinear_arith);
    assert(p * (n2 * (v.den * w.den)) * mnd - pp * (n2 * (v.den * w.den)) * mnd == (p - pp) * (n2
        * (v.den * w.den)) * mnd) by (nonlinear_arith);
    assert((nvv * w.den - nvw * v.den) * d == (p - pp) * (n2 * (v.den * w.den)) * mnd);
    let delta = v.num * w.den - w.num * v.den;
    assert(nvv * w.den - nvw * v.den == mnd * delta) by (nonlinear_arith)
        requires
            nvv == v.num * mnd - mnn * v.den,
            nvw == w.num * mnd - mnn * w.den,
            delta == v.num * w.den - w.num * v.den,
    ;
    assert(mnd * (delta * d) == mnd * ((p - pp) * (n2 * (v.den * w.den)))) by (nonlinear_arith)
        requires
            (nvv * w.den - nvw * v.den) * d == (p - pp) * (n2 * (v.den * w.den)) * mnd,
            nvv * w.den - nvw * v.den == mnd * delta,
    ;
    assert(delta * d == (p - pp) * (n2 * (v.den * w.den))) by (nonlinear_arith)
        requires
            mnd * (delta * d) == mnd * ((p - pp) * (n2 * (v.den * w.den))),
            mnd > 0,
    ;
}

/// The square-root bracket of a squared ratio brackets the original ratio:
/// from a bracket of `m` against `(ln / ld)^2` follows
/// `m / SQRT_SCALE <= ln / ld < (m + 1) / SQRT_SCALE`.
proof fn lemma_root_of_square(m: int, ln: int, ld: int)
    requires
        m >= 0,
        ln > 0,
        ld > 0,
        (m * m) * (ld * ld) <= (ln * ln) * (SQRT_SCALE * SQRT_SCALE),
        (ln * ln) * (SQRT_SCALE * SQRT_SCALE) < ((m + 1) * (m + 1)) * (ld * ld),
    ensures
        m * ld <= ln * SQRT_SCALE,
        ln * SQRT_SCALE < (m + 1) * ld,
{
    assert((m * ld) * (m * ld) == (m * m) * (ld * ld)) by (nonlinear_arith);
    assert((ln * (SQRT_SCALE as int)) * (ln * (SQRT_SCALE as int)) == (ln * ln) * (SQRT_SCALE
        * SQRT_SCALE)) by (nonlinear_arith);
    assert(((m + 1) * ld) * ((m + 1) * ld) == ((m + 1) * (m + 1)) * (ld * ld))
        by (nonlinear_arith);
    assert(m * ld >= 0) by (nonlinear_arith)
        requires
            m >= 0,
            ld > 0,
    ;
    assert((m + 1) * ld >= 0) by (nonlinear_arith)
        requires
            m >= 0,
            ld > 0,
    ;
    assert(ln * (SQRT_SCALE as int) >= 0) by (nonlinear_arith)
        requires
            ln > 0,
    ;
    lemma_square_le_implies_le(m * ld, ln * (SQRT_SCALE as int));
    crate::arith::lemma_square_lt_implies_lt(ln * (SQRT_SCALE as int), (m + 1) * ld);
}

/// Round-trip law for the identity exponent: with `exponent == Int(1)` the
/// curve is the identity and denormalizing the normalized image of a value
/// strictly inside the range gives back exactly that value.
pub proof fn lemma_power_round_trip_identity(p: PowerMap, v: Frac, r: Frac, w: Frac)
    requires
        p.wf(),
        p.exponent == Exponent::Int(1i64),
        v.wf(),
        vlt(p.base.min, v),
        vlt(v, p.base.max),
        p.normalize_post(v, r),
        p.denormalize_post(r, w),
    ensures
        veq(w, v),
{
    let min_b = p.base.min;
    let max_b = p.base.max;
    let ln = lin_num(min_b, max_b, v);
    let ld = lin_den(min_b, max_b, v);
    lemma_vlt_trans(min_b, v, max_b);
    assert(!p.base.degenerate());
    lemma_interior_pos(min_b, max_b, v);
    assert(r.num * ld == ln * r.den && 0 < r.num < r.den);
    assert(maps_linearly_ratio(min_b, max_b, w, r.num as int, r.den as int));
    lemma_affine_self(min_b, max_b, v);
    lemma_affine_scale(min_b, max_b, v, ln, ld, r.den as int);
    lemma_affine_scale(min_b, max_b, w, r.num as int, r.den as int, ld);
    assert(r.den * ld == ld * r.den);
    assert(maps_linearly_ratio(min_b, max_b, w, r.num * ld, ld * r.den));
    lemma_affine_diff(min_b, max_b, v, w, ln * r.den, r.num * ld, ld * r.den);
    let n2 = max_b.num * min_b.den - min_b.num * max_b.den;
    let delta = v.num * w.den - w.num * v.den;
    let qq = (ld * r.den) * (max_b.den * min_b.den);
    lemma_mul_pos(max_b.den as int, min_b.den as int);
    lemma_mul_pos(ld, r.den as int);
    lemma_mul_pos(ld * r.den, max_b.den * min_b.den);
    assert(delta * qq == 0) by (nonlinear_arith)
        requires
            delta * qq == (ln * r.den - r.num * ld) * (n2 * (v.den * w.den)),
            ln * r.den == r.num * ld,
    ;
    assert(delta == 0) by (nonlinear_arith)
        requires
            delta * qq == 0,
            qq > 0,
    ;
}

/// Round-trip law for the square-root taper (`exponent == Recip(2)`, the
/// curve `t^2` on normalize and `t^(1/2)` on denormalize): for a value
/// strictly inside the range, denormalizing the normalized image gives back
/// the original value to within one square-root step from below:
/// `w <= v` and `v - w < (max - min) / SQRT_SCALE`, both exact rational
/// statements (the second written out by cross-multiplication).
pub proof fn lemma_power_round_trip_sqrt(p: PowerMap, v: Frac, r: Frac, w: Frac)
    requires
        p.wf(),
        p.exponent == Exponent::Recip(2i64),
        v.wf(),
        vlt(p.base.min, v),
        vlt(v, p.base.max),
        p.normalize_post(v, r),
        p.denormalize_post(r, w),
    ensures
        vle(w, v),
        (v.num * w.den - w.num * v.den) * ((SQRT_SCALE as int) * (p.base.max.den * p.base.min.den))
            < (p.base.max.num * p.base.min.den - p.base.min.num * p.base.max.den) * (v.den * w.den),
{
    let min_b = p.base.min;
    let max_b = p.base.max;
    let ln = lin_num(min_b, max_b, v);
    let ld = lin_den(min_b, max_b, v);
    let sc = SQRT_SCALE as int;
    lemma_vlt_trans(min_b, v, max_b);
    assert(!p.base.degenerate());
    lemma_interior_pos(min_b, max_b, v);
    assert(r.num * (ld * ld) == (ln * ln) * r.den && 0 < r.num < r.den);
    let m = choose|m: int| {
        &&& 0 <= m
        &&& (m * m) * r.den <= r.num * (SQRT_SCALE * SQRT_SCALE)
        &&& r.num * (SQRT_SCALE * SQRT_SCALE) < ((m + 1) * (m + 1)) * r.den
        &&& #[trigger] maps_linearly_ratio(min_b, max_b, w, m, SQRT_SCALE as int)
    };
    lemma_mul_pos(ld, ld);
    lemma_bracket_transfer(m, SQRT_SCALE * SQRT_SCALE, r.num as int, r.den as int, ln * ln, ld * ld);
    lemma_root_of_square(m, ln, ld);
    lemma_affine_self(min_b, max_b, v);
    lemma_affine_scale(min_b, max_b, v, ln, ld, sc);
    lemma_affine_scale(min_b, max_b, w, m, sc, ld);
    assert(sc * ld == ld * sc);
    assert(maps_linearly_ratio(min_b, max_b, w, m * ld, ld * sc));
    lemma_affine_diff(min_b, max_b, v, w, ln * sc, m * ld, ld * sc);
    let n2 = max_b.num * min_b.den - min_b.num * max_b.den;
    let delta = v.num * w.den - w.num * v.den;
    let qq = (ld * sc) * (max_b.den * min_b.den);
    let yy = n2 * (v.den * w.den);
    let pdiff = ln * sc - m * ld;
    assert((m + 1) * ld == m * ld + ld) by (nonlinear_arith);
    assert(0 <= pdiff && pdiff < ld);
    lemma_mul_pos(v.den as int, w.den as int);
    lemma_mul_pos(n2, v.den * w.den);
    lemma_mul_pos(max_b.den as int, min_b.den as int);
    lemma_mul_pos(ld, sc);
    lemma_mul_pos(ld * sc, max_b.den * min_b.den);
    assert(delta * qq == pdiff * yy);
    assert(delta >= 0) by (nonlinear_arith)
        requires
            delta * qq == pdiff * yy,
            pdiff >= 0,
            yy > 0,
            qq > 0,
    ;
    assert(pdiff * yy < ld * yy) by (nonlinear_arith)
        requires
            pdiff < ld,
            yy > 0,
    ;
    assert(ld * (delta * (sc * (max_b.den * min_b.den))) == delta * qq) by (nonlinear_arith)
        requires
            qq == (ld * sc) * (max_b.den * min_b.den),
    ;
    assert(ld * (delta * (sc * (max_b.den * min_b.den))) < ld * yy);
    assert(delta * (sc * (max_b.den * min_b.den)) < yy) by (nonlinear_arith)
        requires
            ld * (delta * (sc * (max_b.den * min_b.den))) < ld * yy,
            ld > 0,
    ;
}

/// Round-trip law for the square exponent (`exponent == Int(2)`, the curve
/// `t^(1/2)` on normalize and `t^2` on denormalize): for a value strictly
/// inside the range whose normalized image is not flushed to zero,
/// denormalizing that image gives back the original value to within
/// `(2 * SQRT_SCALE - 1) / SQRT_SCALE^2` of the range width, from below.
pub proof fn lemma_power_round_trip_square(p: PowerMap, v: Frac, r: Frac, w: Frac)
    requires
        p.wf(),
        p.exponent == Exponent::Int(2i64),
        v.wf(),
        vlt(p.base.min, v),
        vlt(v, p.base.max),
        r.num > 0,
        p.normalize_post(v, r),
        p.denormalize_post(r, w),
    ensures
        vle(w, v),
        (v.num * w.den - w.num * v.den) * ((SQRT_SCALE * SQRT_SCALE) * (p.base.max.den
            * p.base.min.den)) < (2 * SQRT_SCALE - 1) * ((p.base.max.num * p.base.min.den
            - p.base.min.num * p.base.max.den) * (v.den * w.den)),
{
    let min_b = p.base.min;
    let max_b = p.base.max;
    let ln = lin_num(min_b, max_b, v);
    let ld = lin_den(min_b, max_b, v);
    let sc = SQRT_SCALE as int;
    let m = r.num as int;
    lemma_vlt_trans(min_b, v, max_b);
    assert(!p.base.degenerate());
    lemma_interior_pos(min_b, max_b, v);
    assert(r.den == SQRT_SCALE && 0 <= r.num);
    assert((m * m) * ld <= ln * (sc * sc) && ln * (sc * sc) < ((m + 1) * (m + 1)) * ld);
    // strictly inside, the linear image is below one, so the root is below
    // the scale and the denormalize step is not clamped at one
    assert(ld - ln == min_b.den * (max_b.num * v.den - v.num * max_b.den)) by (nonlinear_arith)
        requires
            ln == (v.num * min_b.den - min_b.num * v.den) * max_b.den,
            ld == v.den * (max_b.num * min_b.den - min_b.num * max_b.den),
    ;
    assert(min_b.den * (max_b.num * v.den - v.num * max_b.den) > 0) by (nonlinear_arith)
        requires
            min_b.den > 0,
            max_b.num * v.den - v.num * max_b.den > 0,
    ;
    assert((m * m) * ld < ld * (sc * sc)) by (nonlinear_arith)
        requires
            (m * m) * ld <= ln * (sc * sc),
            ln < ld,
            sc > 0,
    ;
    assert(m * m < sc * sc) by (nonlinear_arith)
        requires
            (m * m) * ld < ld * (sc * sc),
            ld > 0,
    ;
    crate::arith::lemma_square_lt_implies_lt(m, sc);
    assert(0 < r.num < r.den);
    assert(maps_linearly_ratio(min_b, max_b, w, r.num * r.num, r.den * r.den));
    lemma_affine_self(min_b, max_b, v);
    lemma_affine_scale(min_b, max_b, v, ln, ld, sc * sc);
    lemma_affine_scale(min_b, max_b, w, m * m, sc * sc, ld);
    assert((sc * sc) * ld == ld * (sc * sc));
    assert(r.num * r.num == m * m && r.den * r.den == sc * sc);
    assert(maps_linearly_ratio(min_b, max_b, w, (m * m) * ld, ld * (sc * sc)));
    lemma_affine_diff(min_b, max_b, v, w, ln * (sc * sc), (m * m) * ld, ld * (sc * sc));
    let n2 = max_b.num * min_b.den - min_b.num * max_b.den;
    let delta = v.num * w.den - w.num * v.den;
    let qq = (ld * (sc * sc)) * (max_b.den * min_b.den);
    let yy = n2 * (v.den * w.den);
    let pdiff = ln * (sc * sc) - (m * m) * ld;
    assert(((m + 1) * (m + 1)) * ld == (m * m) * ld + (2 * m + 1) * ld) by (nonlinear_arith);
    assert(0 <= pdiff && pdiff < (2 * m + 1) * ld);
    assert((2 * m + 1) * ld <= (2 * sc - 1) * ld) by (nonlinear_arith)
        requires
            m <= sc - 1,
            ld > 0,
    ;
    lemma_mul_pos(v.den as int, w.den as int);
    lemma_mul_pos(n2, v.den * w.den);
    lemma_mul_pos(max_b.den as int, min_b.den as int);
    lemma_mul_pos(sc, sc);
    lemma_mul_pos(ld, sc * sc);
    lemma_mul_pos(ld * (sc * sc), max_b.den * min_b.den);
    assert(delta * qq == pdiff * yy);
    assert(delta >= 0) by (nonlinear_arith)
        requires
            delta * qq == pdiff * yy,
            pdiff >= 0,
            yy > 0,
            qq > 0,
    ;
    assert(pdiff * yy < ((2 * sc - 1) * ld) * yy) by (nonlinear_arith)
        requires
            pdiff < (2 * sc - 1) * ld,
            yy > 0,
    ;
    assert(ld * (delta * ((sc * sc) * (max_b.den * min_b.den))) == delta * qq) by (nonlinear_arith)
        requires
            qq == (ld * (sc * sc)) * (max_b.den * min_b.den),
    ;
    assert(((2 * sc - 1) * ld) * yy == ld * ((2 * sc - 1) * yy)) by (nonlinear_arith);
    assert(ld * (delta * ((sc * sc) * (max_b.den * min_b.den))) < ld * ((2 * sc - 1) * yy));
    assert(delta * ((sc * sc) * (max_b.den * min_b.den)) < (2 * sc - 1) * yy) by (nonlinear_arith)
        requires
            ld * (delta * ((sc * sc) * (max_b.den * min_b.den))) < ld * ((2 * sc - 1) * yy),
            ld > 0,
    ;
}

/// Does `den * m^n` stay at or below `cap`?  Each multiplication is guarded
/// by a division, so no intermediate product can overflow.
fn pow_le(m: i128, n: i64, den: i128, cap: i128) -> (le: bool)
    requires
        0 <= m,
        1 <= n,
        1 <= den,
        0 <= cap,
    ensures
        le == (den * pow(m as int, n as nat) <= cap),
{
    if m == 0 {
        proof {
            lemma0_pow(n as nat);
            assert(den * pow(0, n as nat) == 0) by (nonlinear_arith)
                requires
                    pow(0, n as nat) == 0,
            ;
        }
        true
    } else if den > cap {
        proof {
            lemma_pow_positive(m as int, n as nat);
            assert(den * pow(m as int, n as nat) >= den) by (nonlinear_arith)
                requires
                    pow(m as int, n as nat) >= 1,
                    den >= 1,
            ;
        }
        false
    } else {
        let mut acc: i128 = den;
        let mut i: i64 = 0;
        proof {
            lemma_pow0(m as int);
        }
        while i < n
            invariant
                0 <= i <= n,
                1 <= m,
                1 <= den,
                0 <= cap,
                acc == den * pow(m as int, i as nat),
                acc <= cap,
                1 <= acc,
            decreases n - i,
        {
            proof {
                lemma_fundamental_div_mod(cap as int, m as int);
                lemma_pow_adds(m as int, i as nat, 1);
                lemma_pow1(m as int);
            }
            if acc > cap / m {
                proof {
                    assert(acc * m > cap) by (nonlinear_arith)
                        requires
                            acc >= cap / m + 1,
                            cap == m * (cap / m) + cap % m,
                            cap % m < m,
                            m >= 1,
                    ;
                    assert(den * pow(m as int, (i + 1) as nat) == acc * m) by (nonlinear_arith)
                        requires
                            acc == den * pow(m as int, i as nat),
                            pow(m as int, (i + 1) as nat) == pow(m as int, i as nat) * m,
                    ;
                    lemma_pow_adds(m as int, (i + 1) as nat, (n - i - 1) as nat);
                    lemma_pow_positive(m as int, (n - i - 1) as nat);
                    assert(den * pow(m as int, n as nat) > cap) by (nonlinear_arith)
                        requires
                            pow(m as int, n as nat) == pow(m as int, (i + 1) as nat) * pow(
                                m as int, (n - i - 1) as nat),
                            den * pow(m as int, (i + 1) as nat) > cap,
                            pow(m as int, (n - i - 1) as nat) >= 1,
                            den >= 1,
                            cap >= 0,
                    ;
                }
                return false;
            }
            proof {
                assert(acc * m <= cap) by (nonlinear_arith)
                    requires
                        acc <= cap / m,
                        cap == m * (cap / m) + cap % m,
                        cap % m >= 0,
                        m >= 1,
                ;
                assert(acc * m == den * pow(m as int, (i + 1) as nat)) by (nonlinear_arith)
                    requires
                        acc == den * pow(m as int, i as nat),
                        pow(m as int, (i + 1) as nat) == pow(m as int, i as nat) * m,
                ;
                assert(acc * m >= acc) by (nonlinear_arith)
                    requires
                        m >= 1,
                        acc >= 1,
                ;
            }
            acc = acc * m;
            i = i + 1;
        }
        true
    }
}

/// Floor of `(num / den)^(1/n)` scaled by the order's root scale,
/// characterized by the two-sided n-th-power bracket against `num / den`.
/// `ROOT_SCALE_POW` is the n-th power of that scale for every supported `n`.
fn root_floor_n(num: i128, den: i128, n: i64) -> (m: i128)
    requires
        0 <= num <= MID_BOUND,
        1 <= den,
        2 <= n,
    ensures
        0 <= m < ROOT_HI,
        pow(m as int, n as nat) * den <= num * ROOT_SCALE_POW,
        num * ROOT_SCALE_POW < pow((m + 1) as int, n as nat) * den,
{
    proof {
        lemma_mul_bound(num as int, ROOT_SCALE_POW as int, MID_BOUND as int, ROOT_SCALE_POW as int);
    }
    let cap: i128 = num * ROOT_SCALE_POW;
    let mut lo: i128 = 0;
    let mut hi: i128 = ROOT_HI;
    proof {
        lemma0_pow(n as nat);
        assert(pow(0, n as nat) * den == 0) by (nonlinear_arith)
            requires
                pow(0, n as nat) == 0,
        ;
        lemma_pow_increases(ROOT_HI as nat, 2, n as nat);
        lemma_pow_adds(ROOT_HI as int, 1, 1);
        lemma_pow1(ROOT_HI as int);
        assert(pow(ROOT_HI as int, 2) == ROOT_HI * ROOT_HI);
        assert(pow(ROOT_HI as int, n as nat) * den > cap) by (nonlinear_arith)
            requires
                pow(ROOT_HI as int, n as nat) >= ROOT_HI * ROOT_HI,
                ROOT_HI * ROOT_HI > MID_BOUND * ROOT_SCALE_POW,
                den >= 1,
                cap <= MID_BOUND * ROOT_SCALE_POW,
        ;
    }
    while lo + 1 < hi
        invariant
            0 <= lo < hi <= ROOT_HI,
            1 <= den,
            2 <= n,
            cap == num * ROOT_SCALE_POW,
            cap >= 0,
            pow(lo as int, n as nat) * den <= cap,
            cap < pow(hi as int, n as nat) * den,
        decreases hi - lo,
    {
        let mid: i128 = lo + (hi - lo) / 2;
        proof {
            assert(lo < mid < hi);
        }
        if pow_le(mid, n, den, cap) {
            proof {
                assert(den * pow(mid as int, n as nat) <= cap);
                assert(pow(mid as int, n as nat) * den <= cap);
            }
            lo = mid;
        } else {
            proof {
                assert(!(den * pow(mid as int, n as nat) <= cap));
                assert(cap < pow(mid as int, n as nat) * den);
            }
            hi = mid;
        }
    }
    lo
}

/// Floor-product bracket of `(num / den)^n` at scale `SQRT_SCALE` for a
/// ratio at most one: the result `p` satisfies
/// `p <= (num / den)^n * SQRT_SCALE < p + n + 1`.
fn pow_floor_n(num: i128, den: i128, n: i64) -> (p: i128)
    requires
        1 <= num <= den,
        den <= MID_BOUND,
        1 <= n,
    ensures
        0 <= p <= SQRT_SCALE,
        p * pow(den as int, n as nat) <= SQRT_SCALE * pow(num as int, n as nat),
        SQRT_SCALE * pow(num as int, n as nat) < (p + n + 1) * pow(den as int, n as nat),
{
    let mut p: i128 = SQRT_SCALE;
    let mut i: i64 = 0;
    proof {
        lemma_pow0(num as int);
        lemma_pow0(den as int);
    }
    while i < n
        invariant
            0 <= i <= n,
            1 <= num <= den,
            den <= MID_BOUND,
            0 <= p <= SQRT_SCALE,
            p * pow(den as int, i as nat) <= SQRT_SCALE * pow(num as int, i as nat),
            SQRT_SCALE * pow(num as int, i as nat) < (p + i + 1) * pow(den as int, i as nat),
        decreases n - i,
    {
        proof {
            lemma_mul_bound(p as int, num as int, SQRT_SCALE as int, MID_BOUND as int);
        }
        let next: i128 = (p * num) / den;
        proof {
            lemma_fundamental_div_mod((p * num) as int, den as int);
            lemma_pow_adds(num as int, i as nat, 1);
            lemma_pow_adds(den as int, i as nat, 1);
            lemma_pow1(num as int);
            lemma_pow1(den as int);
            lemma_pow_positive(num as int, i as nat);
            lemma_pow_positive(den as int, i as nat);
            assert(next * den <= p * num && p * num < (next + 1) * den && next >= 0)
                by (nonlinear_arith)
                requires
                    p * num == den * next + (p * num) % (den as int),
                    0 <= (p * num) % (den as int) < den,
                    den >= 1,
                    p >= 0,
                    num >= 1,
            ;
            assert(next <= p) by (nonlinear_arith)
                requires
                    next * den <= p * num,
                    num <= den,
                    den >= 1,
                    p >= 0,
                    next >= 0,
            ;
            assert(next * den * pow(den as int, i as nat) <= p * num * pow(den as int, i as nat))
                by (nonlinear_arith)
                requires
                    next * den <= p * num,
                    pow(den as int, i as nat) >= 1,
            ;
            assert(p * num * pow(den as int, i as nat) <= SQRT_SCALE * pow(num as int, i as nat)
                * num) by (nonlinear_arith)
                requires
                    p * pow(den as int, i as nat) <= SQRT_SCALE * pow(num as int, i as nat),
                    num >= 1,
            ;
            assert(next * pow(den as int, (i + 1) as nat) <= SQRT_SCALE * pow(
                num as int, (i + 1) as nat)) by (nonlinear_arith)
                requires
                    next * den * pow(den as int, i as nat) <= SQRT_SCALE * pow(
                        num as int, i as nat) * num,
                    pow(den as int, (i + 1) as nat) == pow(den as int, i as nat) * den,
                    pow(num as int, (i + 1) as nat) == pow(num as int, i as nat) * num,
            ;
            assert(SQRT_SCALE * pow(num as int, i as nat) * num < (p + i + 1) * pow(
                den as int, i as nat) * num) by (nonlinear_arith)
                requires
                    SQRT_SCALE * pow(num as int, i as nat) < (p + i + 1) * pow(
                        den as int, i as nat),
                    num >= 1,
            ;
            assert((p + i + 1) * num <= (next + i + 2) * den) by (nonlinear_arith)
                requires
                    p * num < (next + 1) * den,
                    num <= den,
                    i >= 0,
                    num >= 1,
            ;
            assert((p + i + 1) * pow(den as int, i as nat) * num <= (next + i + 2) * den * pow(
                den as int, i as nat)) by (nonlinear_arith)
                requires
                    (p + i + 1) * num <= (next + i + 2) * den,
                    pow(den as int, i as nat) >= 1,
            ;
            assert(SQRT_SCALE * pow(num as int, (i + 1) as nat) < ((next + (i + 1)) + 1) * pow(
                den as int, (i + 1) as nat)) by (nonlinear_arith)
                requires
                    SQRT_SCALE * pow(num as int, i as nat) * num < (p + i + 1) * pow(
                        den as int, i as nat) * num,
                    (p + i + 1) * pow(den as int, i as nat) * num <= (next + i + 2) * den * pow(
                        den as int, i as nat),
                    pow(den as int, (i + 1) as nat) == pow(den as int, i as nat) * den,
                    pow(num as int, (i + 1) as nat) == pow(num as int, i as nat) * num,
            ;
        }
        p = next;
        i = i + 1;
    }
    p
}

/// A bracket against one ratio carries over to any equal ratio, for any
/// abstract pair of bracket ends `mm < mm1`.
proof fn lemma_bracket_transfer_gen(mm: int, mm1: int, s2: int, an: int, ad: int, bn: int, bd: int)
    requires
        ad > 0,
        bd > 0,
        an * bd == bn * ad,
        mm * ad <= an * s2,
        an * s2 < mm1 * ad,
    ensures
        mm * bd <= bn * s2,
        bn * s2 < mm1 * bd,
{
    assert(mm * ad * bd <= an * s2 * bd) by (nonlinear_arith)
        requires
            mm * ad <= an * s2,
            bd > 0,
    ;
    assert(an * s2 * bd == bn * s2 * ad) by (nonlinear_arith)
        requires
            an * bd == bn * ad,
    ;
    assert(mm * bd <= bn * s2) by (nonlinear_arith)
        requires
            mm * ad * bd <= bn * s2 * ad,
            ad > 0,
    ;
    assert(an * s2 * bd < mm1 * ad * bd) by (nonlinear_arith)
        requires
            an * s2 < mm1 * ad,
            bd > 0,
    ;
    assert(bn * s2 < mm1 * bd) by (nonlinear_arith)
        requires
            bn * s2 * ad < mm1 * ad * bd,
            ad > 0,
    ;
}

/// An n-th root of a ratio with a numerator inside the public box stays
/// inside the internal box.
proof fn lemma_root_result_small(m: int, num: int, den: int, n: int)
    requires
        0 <= m,
        0 <= num <= FRAC_BOUND,
        den >= 1,
        3 <= n,
        pow(m, n as nat) * den <= num * ROOT_SCALE_POW,
    ensures
        m <= 134_217_728,
{
    if m >= 1 {
        lemma_pow_increases(m as nat, 3, n as nat);
        lemma_pow_adds(m, 1, 2);
        lemma_pow_adds(m, 1, 1);
        lemma_pow1(m);
        assert(pow(m, 3) == m * (m * m));
        assert(pow(m, n as nat) <= num * ROOT_SCALE_POW) by (nonlinear_arith)
            requires
                pow(m, n as nat) * den <= num * ROOT_SCALE_POW,
                den >= 1,
                pow(m, n as nat) >= 0,
        ;
        assert(m * (m * m) <= FRAC_BOUND * ROOT_SCALE_POW) by (nonlinear_arith)
            requires
                m * (m * m) <= pow(m, n as nat),
                pow(m, n as nat) <= num * ROOT_SCALE_POW,
                num <= FRAC_BOUND,
                ROOT_SCALE_POW > 0,
        ;
        assert(m <= 134_217_728) by (nonlinear_arith)
            requires
                m * (m * m) <= FRAC_BOUND * ROOT_SCALE_POW,
                FRAC_BOUND * ROOT_SCALE_POW < 134_217_728 * (134_217_728 * 134_217_728),
                m >= 1,
        ;
    }
}

/// A square root of a ratio with a numerator inside the public box stays
/// inside the internal box.
proof fn lemma_sqrt_result_small(m: int, num: int, den: int)
    requires
        0 <= m,
        0 <= num <= FRAC_BOUND,
        den >= 1,
        (m * m) * den <= num * (SQRT_SCALE * SQRT_SCALE),
    ensures
        m <= 1_073_741_824,
{
    assert(m * m <= (m * m) * den) by (nonlinear_arith)
        requires
            den >= 1,
            m >= 0,
    ;
    assert(num * (SQRT_SCALE * SQRT_SCALE) <= FRAC_BOUND * (SQRT_SCALE * SQRT_SCALE))
        by (nonlinear_arith)
        requires
            num <= FRAC_BOUND,
    ;
    assert(1_073_741_824 * 1_073_741_824 == FRAC_BOUND * (SQRT_SCALE * SQRT_SCALE));
    lemma_square_le_implies_le(m, 1_073_741_824);
}

} // verus!
