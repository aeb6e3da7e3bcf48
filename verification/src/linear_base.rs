use vstd::prelude::*;
use crate::frac::{Frac, veq, vlt, lemma_vlt_trans, FRAC_BOUND, MID_BOUND};
use crate::arith::{lemma_mul_bound, lemma_mul_pos};

verus! {

/// The exact affine relation `v - min == r * (max - min)`, written out by
/// cross-multiplication over the components (denominators are positive, so the
/// cross-multiplied form is equivalent to the rational equation).
///
/// Normalizing pins the result `r` for a given `v`, denormalizing pins the
/// result `v` for a given `r`; both directions are instances of this one
/// relation, which is what makes the exact round-trip law a uniqueness
/// argument.
pub open spec fn maps_linearly(min: Frac, max: Frac, v: Frac, r: Frac) -> bool {
    maps_linearly_ratio(min, max, v, r.num as int, r.den as int)
}

/// The same affine relation with the normalized value given as a ratio of two
/// integers `sn / sd` instead of a `Frac`; this lets a contract speak of a
/// derived normalized value (a square, a reciprocal) without building it.
pub open spec fn maps_linearly_ratio(min: Frac, max: Frac, v: Frac, sn: int, sd: int) -> bool {
    (v.num * min.den - min.num * v.den) * (sd * (max.den * min.den))
        == (sn * (max.num * min.den - min.num * max.den)) * (v.den * min.den)
}

/// Numerator of the exact linear image `(v - min) / (max - min)` over the
/// product denominator (`lin_den` below); together the pair denotes the
/// un-clamped normalized value.
pub open spec fn lin_num(min: Frac, max: Frac, v: Frac) -> int {
    (v.num * min.den - min.num * v.den) * max.den
}

/// Denominator of the exact linear image `(v - min) / (max - min)`.
pub open spec fn lin_den(min: Frac, max: Frac, v: Frac) -> int {
    v.den * (max.num * min.den - min.num * max.den)
}

/// The shared linear core: a range `[min, max]` with its precomputed exact
/// difference `range == max - min`.  No clamping happens here; the mapping
/// types clamp before or after their unit-specific steps.
#[derive(Debug)]
pub struct LinearBase {
    pub min: Frac,
    pub max: Frac,
    pub range: Frac,
}

impl LinearBase {
    /// Well-formed: bounded bounds and a `range` field that really is
    /// `max - min` (over the common denominator, without reduction).
    pub open spec fn wf(self) -> bool {
        &&& self.min.wf()
        &&& self.max.wf()
        &&& self.min.bounded()
        &&& self.max.bounded()
        &&& self.range.num == self.max.num * self.min.den - self.min.num * self.max.den
        &&& self.range.den == self.max.den * self.min.den
    }

    /// The range is empty: `min == max`.  Division by the range is then
    /// replaced by zero, so normalizing yields zero and denormalizing yields
    /// `min`, with no division by zero.
    pub open spec fn degenerate(self) -> bool {
        self.range.num == 0
    }

    /// Precompute `range = max - min` for the given bounds.
    pub fn new(min: Frac, max: Frac) -> (base: LinearBase)
        requires
            min.wf(),
            max.wf(),
            min.bounded(),
            max.bounded(),
        ensures
            base.wf(),
            base.min == min,
            base.max == max,
    {
        proof {
            lemma_mul_bound(max.num as int, min.den as int, FRAC_BOUND as int, FRAC_BOUND as int);
            lemma_mul_bound(min.num as int, max.den as int, FRAC_BOUND as int, FRAC_BOUND as int);
            lemma_mul_bound(max.den as int, min.den as int, FRAC_BOUND as int, FRAC_BOUND as int);
            lemma_mul_pos(max.den as int, min.den as int);
        }
        let range = Frac {
            num: max.num * min.den - min.num * max.den,
            den: max.den * min.den,
        };
        LinearBase { min, max, range }
    }

    /// `(value - min) / range`, exactly; zero when the range is degenerate.
    /// No clamping.
    pub fn normalize_raw(&self, v: Frac) -> (r: Frac)
        requires
            self.wf(),
            v.wf(),
            v.mid(),
        ensures
            r.wf(),
            self.degenerate() ==> r.is_zero(),
            !self.degenerate() ==> maps_linearly(self.min, self.max, v, r),
            v.bounded() ==> r.mid(),
    {
        if self.range.num == 0 {
            Frac::zero()
        } else {
            proof {
                lemma_mul_bound(v.num as int, self.min.den as int, MID_BOUND as int, FRAC_BOUND as int);
                lemma_mul_bound(self.min.num as int, v.den as int, FRAC_BOUND as int, MID_BOUND as int);
                lemma_mul_bound(
                    v.num * self.min.den - self.min.num * v.den,
                    self.max.den as int,
                    2 * MID_BOUND * FRAC_BOUND,
                    FRAC_BOUND as int,
                );
                lemma_mul_bound(self.max.num as int, self.min.den as int, FRAC_BOUND as int, FRAC_BOUND as int);
                lemma_mul_bound(self.min.num as int, self.max.den as int, FRAC_BOUND as int, FRAC_BOUND as int);
                lemma_mul_bound(
                    v.den as int,
                    self.range.num as int,
                    MID_BOUND as int,
                    2 * FRAC_BOUND * FRAC_BOUND,
                );
            }
            let nv: i128 = v.num * self.min.den - self.min.num * v.den;
            let num: i128 = nv * self.max.den;
            let den: i128 = v.den * self.range.num;
            proof {
                let n2 = self.max.num * self.min.den - self.min.num * self.max.den;
                assert(den != 0 && (n2 > 0 ==> den > 0) && (n2 < 0 ==> den < 0)) by (nonlinear_arith)
                    requires
                        v.den > 0,
                        n2 != 0,
                        den == v.den * n2,
                ;
                assert((v.num * self.min.den - self.min.num * v.den)
                    * ((v.den * n2) * (self.max.den * self.min.den))
                    == (((v.num * self.min.den - self.min.num * v.den) * self.max.den) * n2)
                        * (v.den * self.min.den)) by (nonlinear_arith);
                assert((v.num * self.min.den - self.min.num * v.den)
                    * ((-(v.den * n2)) * (self.max.den * self.min.den))
                    == ((-((v.num * self.min.den - self.min.num * v.den) * self.max.den)) * n2)
                        * (v.den * self.min.den)) by (nonlinear_arith);
                if v.bounded() {
                    lemma_mul_bound(v.num as int, self.min.den as int, FRAC_BOUND as int, FRAC_BOUND as int);
                    lemma_mul_bound(self.min.num as int, v.den as int, FRAC_BOUND as int, FRAC_BOUND as int);
                    lemma_mul_bound(
                        v.num * self.min.den - self.min.num * v.den,
                        self.max.den as int,
                        2 * FRAC_BOUND * FRAC_BOUND,
                        FRAC_BOUND as int,
                    );
                    lemma_mul_bound(
                        v.den as int,
                        self.range.num as int,
                        FRAC_BOUND as int,
                        2 * FRAC_BOUND * FRAC_BOUND,
                    );
                }
            }
            if den < 0 {
                Frac { num: -num, den: -den }
            } else {
                Frac { num, den }
            }
        }
    }

    /// `normalized * range + min`, exactly; `min` when the range is
    /// degenerate.  No clamping.
    pub fn denormalize_raw(&self, r: Frac) -> (v: Frac)
        requires
            self.wf(),
            r.wf(),
            r.mid(),
        ensures
            v.wf(),
            self.degenerate() ==> veq(v, self.min),
            !self.degenerate() ==> maps_linearly(self.min, self.max, v, r),
    {
        if self.range.num == 0 {
            self.min
        } else {
            proof {
                lemma_mul_bound(self.max.num as int, self.min.den as int, FRAC_BOUND as int, FRAC_BOUND as int);
                lemma_mul_bound(self.min.num as int, self.max.den as int, FRAC_BOUND as int, FRAC_BOUND as int);
                lemma_mul_bound(self.max.den as int, self.min.den as int, FRAC_BOUND as int, FRAC_BOUND as int);
                lemma_mul_bound(self.range.num as int, self.min.den as int, 2 * FRAC_BOUND * FRAC_BOUND, FRAC_BOUND as int);
                lemma_mul_bound(r.num as int, self.range.num * self.min.den, MID_BOUND as int, 2 * FRAC_BOUND * FRAC_BOUND * FRAC_BOUND);
                lemma_mul_bound(r.den as int, self.range.den as int, MID_BOUND as int, FRAC_BOUND as int * FRAC_BOUND as int);
                lemma_mul_bound(self.min.num as int, r.den * self.range.den, FRAC_BOUND as int, MID_BOUND * FRAC_BOUND * FRAC_BOUND);
                lemma_mul_bound(r.den * self.range.den, self.min.den as int, MID_BOUND * FRAC_BOUND * FRAC_BOUND, FRAC_BOUND as int);
                lemma_mul_pos(self.max.den as int, self.min.den as int);
                lemma_mul_pos(r.den as int, self.range.den as int);
                lemma_mul_pos(r.den * self.range.den, self.min.den as int);
            }
            let num: i128 = r.num * (self.range.num * self.min.den) + self.min.num * (r.den * self.range.den);
            let den: i128 = (r.den * self.range.den) * self.min.den;
            proof {
                let n2 = self.max.num * self.min.den - self.min.num * self.max.den;
                let d2 = self.max.den * self.min.den;
                assert((num * self.min.den - self.min.num * den) * (r.den * (self.max.den * self.min.den))
                    == (r.num * n2) * (den * self.min.den)) by (nonlinear_arith)
                    requires
                        num == r.num * (n2 * self.min.den) + self.min.num * (r.den * d2),
                        den == (r.den * d2) * self.min.den,
                        d2 == self.max.den * self.min.den,
                ;
            }
            Frac { num, den }
        }
    }
}

/// Two values that stand in the affine relation with the same normalized value
/// are equal: the relation pins the denormalized value down (raw form).
proof fn lemma_affine_value_unique_raw(
    mn_n: int, mn_d: int, mx_n: int, mx_d: int,
    v1n: int, v1d: int, v2n: int, v2d: int,
    rn: int, rd: int,
)
    requires
        mn_d > 0,
        mx_d > 0,
        v1d > 0,
        v2d > 0,
        rd > 0,
        (v1n * mn_d - mn_n * v1d) * (rd * (mx_d * mn_d))
            == (rn * (mx_n * mn_d - mn_n * mx_d)) * (v1d * mn_d),
        (v2n * mn_d - mn_n * v2d) * (rd * (mx_d * mn_d))
            == (rn * (mx_n * mn_d - mn_n * mx_d)) * (v2d * mn_d),
    ensures
        v1n * v2d == v2n * v1d,
{
    let nv1 = v1n * mn_d - mn_n * v1d;
    let nv2 = v2n * mn_d - mn_n * v2d;
    let n2 = mx_n * mn_d - mn_n * mx_d;
    let d = rd * (mx_d * mn_d);
    assert(d > 0) by (nonlinear_arith)
        requires
            rd > 0,
            mx_d > 0,
            mn_d > 0,
            d == rd * (mx_d * mn_d),
    ;
    assert(nv1 * d * v2d == nv2 * d * v1d) by (nonlinear_arith)
        requires
            nv1 * d == (rn * n2) * (v1d * mn_d),
            nv2 * d == (rn * n2) * (v2d * mn_d),
    ;
    assert(nv1 * v2d == nv2 * v1d) by (nonlinear_arith)
        requires
            nv1 * d * v2d == nv2 * d * v1d,
            d > 0,
    ;
    assert(v1n * v2d == v2n * v1d) by (nonlinear_arith)
        requires
            nv1 == v1n * mn_d - mn_n * v1d,
            nv2 == v2n * mn_d - mn_n * v2d,
            nv1 * v2d == nv2 * v1d,
            mn_d > 0,
    ;
}

/// Two values that stand in the affine relation with the same normalized value
/// denote the same rational: the relation pins the denormalized value down.
pub proof fn lemma_affine_value_unique(min: Frac, max: Frac, v1: Frac, v2: Frac, r: Frac)
    requires
        min.wf(),
        max.wf(),
        v1.wf(),
        v2.wf(),
        r.wf(),
        maps_linearly(min, max, v1, r),
        maps_linearly(min, max, v2, r),
    ensures
        veq(v1, v2),
{
    lemma_affine_value_unique_raw(
        min.num as int, min.den as int, max.num as int, max.den as int,
        v1.num as int, v1.den as int, v2.num as int, v2.den as int,
        r.num as int, r.den as int,
    );
}

/// Two normalized values that stand in the affine relation with the same
/// value over a non-empty range are equal (raw form).
proof fn lemma_affine_normalized_unique_raw(
    mn_n: int, mn_d: int, mx_n: int, mx_d: int,
    vn: int, vd: int, r1n: int, r1d: int, r2n: int, r2d: int,
)
    requires
        mn_d > 0,
        mx_d > 0,
        vd > 0,
        r1d > 0,
        r2d > 0,
        mx_n * mn_d - mn_n * mx_d != 0,
        (vn * mn_d - mn_n * vd) * (r1d * (mx_d * mn_d))
            == (r1n * (mx_n * mn_d - mn_n * mx_d)) * (vd * mn_d),
        (vn * mn_d - mn_n * vd) * (r2d * (mx_d * mn_d))
            == (r2n * (mx_n * mn_d - mn_n * mx_d)) * (vd * mn_d),
    ensures
        r1n * r2d == r2n * r1d,
{
    let nv = vn * mn_d - mn_n * vd;
    let n2 = mx_n * mn_d - mn_n * mx_d;
    let d = mx_d * mn_d;
    let c = n2 * (vd * mn_d);
    assert(nv * (r1d * d) * r2d == nv * (r2d * d) * r1d) by (nonlinear_arith);
    assert((r1n * n2) * (vd * mn_d) * r2d == (r1n * r2d) * c) by (nonlinear_arith)
        requires
            c == n2 * (vd * mn_d),
    ;
    assert((r2n * n2) * (vd * mn_d) * r1d == (r2n * r1d) * c) by (nonlinear_arith)
        requires
            c == n2 * (vd * mn_d),
    ;
    assert(nv * (r1d * d) * r2d == (r1n * r2d) * c);
    assert(nv * (r2d * d) * r1d == (r2n * r1d) * c);
    assert((r1n * r2d) * c == (r2n * r1d) * c);
    assert(c != 0) by (nonlinear_arith)
        requires
            n2 != 0,
            vd > 0,
            mn_d > 0,
            c == n2 * (vd * mn_d),
    ;
    assert(r1n * r2d == r2n * r1d) by (nonlinear_arith)
        requires
            (r1n * r2d) * c == (r2n * r1d) * c,
            c != 0,
    ;
}

/// Over a non-empty range the affine relation pins the normalized value: two
/// results standing in it with the same value denote the same rational.
pub proof fn lemma_affine_normalized_unique(min: Frac, max: Frac, v: Frac, r1: Frac, r2: Frac)
    requires
        min.wf(),
        max.wf(),
        v.wf(),
        r1.wf(),
        r2.wf(),
        max.num * min.den - min.num * max.den != 0,
        maps_linearly(min, max, v, r1),
        maps_linearly(min, max, v, r2),
    ensures
        veq(r1, r2),
{
    lemma_affine_normalized_unique_raw(
        min.num as int, min.den as int, max.num as int, max.den as int,
        v.num as int, v.den as int,
        r1.num as int, r1.den as int, r2.num as int, r2.den as int,
    );
}

/// A value strictly between the bounds of a non-empty range maps to a
/// normalized value strictly between zero and one (raw form).
proof fn lemma_interior_unit_raw(
    mn_n: int, mn_d: int, mx_n: int, mx_d: int,
    vn: int, vd: int, rn: int, rd: int,
)
    requires
        mn_d > 0,
        mx_d > 0,
        vd > 0,
        rd > 0,
        mn_n * vd < vn * mn_d,
        vn * mx_d < mx_n * vd,
        mn_n * mx_d < mx_n * mn_d,
        (vn * mn_d - mn_n * vd) * (rd * (mx_d * mn_d))
            == (rn * (mx_n * mn_d - mn_n * mx_d)) * (vd * mn_d),
    ensures
        0 < rn,
        rn < rd,
{
    let nv = vn * mn_d - mn_n * vd;
    let n2 = mx_n * mn_d - mn_n * mx_d;
    let d = rd * (mx_d * mn_d);
    assert(nv > 0);
    assert(n2 > 0);
    assert(d > 0) by (nonlinear_arith)
        requires
            rd > 0,
            mx_d > 0,
            mn_d > 0,
            d == rd * (mx_d * mn_d),
    ;
    assert(nv * d > 0) by (nonlinear_arith)
        requires
            nv > 0,
            d > 0,
    ;
    assert(rn > 0) by (nonlinear_arith)
        requires
            (rn * n2) * (vd * mn_d) == nv * d,
            nv * d > 0,
            n2 > 0,
            vd > 0,
            mn_d > 0,
    ;
    assert(n2 * vd - nv * mx_d == mn_d * (mx_n * vd - vn * mx_d)) by (nonlinear_arith)
        requires
            nv == vn * mn_d - mn_n * vd,
            n2 == mx_n * mn_d - mn_n * mx_d,
    ;
    assert(n2 * vd - nv * mx_d > 0) by (nonlinear_arith)
        requires
            n2 * vd - nv * mx_d == mn_d * (mx_n * vd - vn * mx_d),
            mn_d > 0,
            mx_n * vd - vn * mx_d > 0,
    ;
    assert(rn < rd) by (nonlinear_arith)
        requires
            (rn * n2) * (vd * mn_d) == nv * (rd * (mx_d * mn_d)),
            nv * mx_d < n2 * vd,
            nv > 0,
            n2 > 0,
            vd > 0,
            mn_d > 0,
            mx_d > 0,
            rd > 0,
    ;
}

/// A value strictly between the bounds of a non-empty range maps to a
/// normalized value strictly inside the unit interval.
pub proof fn lemma_interior_unit(min: Frac, max: Frac, v: Frac, r: Frac)
    requires
        min.wf(),
        max.wf(),
        v.wf(),
        r.wf(),
        vlt(min, v),
        vlt(v, max),
        maps_linearly(min, max, v, r),
    ensures
        0 < r.num < r.den,
{
    lemma_vlt_trans(min, v, max);
    lemma_interior_unit_raw(
        min.num as int, min.den as int, max.num as int, max.den as int,
        v.num as int, v.den as int, r.num as int, r.den as int,
    );
}

/// Cancellation core for `lemma_ratio_of_normalized`.
proof fn lemma_ratio_raw(nv: int, mxd: int, mnd: int, n2: int, vd: int, tn: int, td: int)
    requires
        mnd > 0,
        nv * (td * (mxd * mnd)) == (tn * n2) * (vd * mnd),
    ensures
        tn * (vd * n2) == (nv * mxd) * td,
{
    let a = tn * (vd * n2);
    let b = (nv * mxd) * td;
    assert(b * mnd == nv * (td * (mxd * mnd))) by (nonlinear_arith)
        requires
            b == (nv * mxd) * td,
    ;
    assert(a * mnd == (tn * n2) * (vd * mnd)) by (nonlinear_arith)
        requires
            a == tn * (vd * n2),
    ;
    assert(a * mnd == b * mnd);
    assert(a == b) by (nonlinear_arith)
        requires
            a * mnd == b * mnd,
            mnd > 0,
    ;
}

/// A normalized value `t` standing in the affine relation equals the exact
/// linear image `lin_num / lin_den` as a rational.
pub proof fn lemma_ratio_of_normalized(min: Frac, max: Frac, v: Frac, t: Frac)
    requires
        min.wf(),
        max.wf(),
        v.wf(),
        t.wf(),
        maps_linearly(min, max, v, t),
    ensures
        t.num * lin_den(min, max, v) == lin_num(min, max, v) * t.den,
{
    lemma_ratio_raw(
        v.num * min.den - min.num * v.den,
        max.den as int,
        min.den as int,
        max.num * min.den - min.num * max.den,
        v.den as int,
        t.num as int,
        t.den as int,
    );
}

/// Strictly inside a range with `min < max`, the exact linear image is a
/// ratio of two positive integers.
pub proof fn lemma_interior_pos(min: Frac, max: Frac, v: Frac)
    requires
        min.wf(),
        max.wf(),
        v.wf(),
        vlt(min, v),
        vlt(v, max),
    ensures
        lin_num(min, max, v) > 0,
        lin_den(min, max, v) > 0,
{
    lemma_vlt_trans(min, v, max);
    lemma_mul_pos(v.num * min.den - min.num * v.den, max.den as int);
    lemma_mul_pos(v.den as int, max.num * min.den - min.num * max.den);
}

} // verus!
