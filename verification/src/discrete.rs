use vstd::prelude::*;
use vstd::math::min;
use crate::frac::{Frac, round_ratio, lemma_round_between, lemma_round_exact, FRAC_BOUND};
use crate::linear_base::{LinearBase, maps_linearly, lemma_interior_unit};
use crate::arith::lemma_ratio_in_unit;

verus! {

/// Discrete integer mapping: normalization over an integer-valued domain
/// `[min, max]`.  A thin wrapper over the linear core on the bounds embedded
/// into the rational domain; denormalizing rounds to the nearest step, and a
/// fractional input snaps to the nearest step before it is normalized.
#[derive(Debug)]
pub struct DiscreteMap {
    pub base: LinearBase,
    pub min: i64,
    pub max: i64,
}

impl DiscreteMap {
    /// Well-formed: the linear core ranges over exactly the integer bounds.
    pub open spec fn wf(self) -> bool {
        &&& self.base.wf()
        &&& self.base.min.num == self.min as int
        &&& self.base.min.den == 1
        &&& self.base.max.num == self.max as int
        &&& self.base.max.den == 1
    }

    /// What `normalize` returns for an integer input: zero at or below `min`,
    /// one at or beyond `max`, else the exact ratio `(v - min) / (max - min)`.
    pub open spec fn normalize_post(self, v: int, r: Frac) -> bool {
        &&& r.wf()
        &&& v <= self.min ==> r.is_zero()
        &&& v > self.min && v >= self.max ==> r.is_one()
        &&& self.min < v < self.max ==> {
            &&& r.num * (self.max - self.min) == (v - self.min) * r.den
            &&& 0 < r.num < r.den
        }
    }

    /// What `normalize_frac` returns for a fractional input: the raw value is
    /// clamped at the bounds, and otherwise rounded to the nearest step
    /// before the linear step, so fractional inputs snap to the normalized
    /// position of the nearest step.
    pub open spec fn normalize_frac_post(self, v: Frac, r: Frac) -> bool {
        &&& r.wf()
        &&& v.num <= self.min * v.den ==> r.is_zero()
        &&& v.num > self.min * v.den && v.num >= self.max * v.den ==> r.is_one()
        &&& self.min * v.den < v.num < self.max * v.den ==> {
            &&& r.num * (self.max - self.min) == (v.round_spec() - self.min) * r.den
            &&& 0 <= r.num <= r.den
        }
    }

    /// What `denormalize` returns: `min` at or below zero, `max` at or beyond
    /// one, else `min + r * (max - min)` rounded to the nearest integer.
    pub open spec fn denormalize_post(self, r: Frac, k: int) -> bool {
        &&& r.num <= 0 ==> k == self.min
        &&& r.num > 0 && r.num >= r.den ==> k == self.max
        &&& 0 < r.num < r.den ==> {
            &&& k == round_ratio(r.num * (self.max - self.min) + self.min * r.den, r.den as int)
            &&& self.min <= self.max ==> self.min <= k <= self.max
            &&& self.min > self.max ==> self.max <= k <= self.min
        }
    }

    /// `denormalize`, with the resulting step returned as a rational.
    pub open spec fn denormalize_frac_post(self, r: Frac, w: Frac) -> bool {
        &&& w.den == 1
        &&& self.denormalize_post(r, w.num as int)
    }

    /// Create a discrete mapping over the integer range `[min, max]`.
    pub fn new(min_value: i64, max_value: i64) -> (m: DiscreteMap)
        requires
            -FRAC_BOUND <= min_value as int <= FRAC_BOUND,
            -FRAC_BOUND <= max_value as int <= FRAC_BOUND,
        ensures
            m.wf(),
            m.min == min_value,
            m.max == max_value,
    {
        let base = LinearBase::new(Frac::from_int(min_value), Frac::from_int(max_value));
        DiscreteMap { base, min: min_value, max: max_value }
    }

    /// Map a discrete integer value to the normalized range `[0, 1]`.
    pub fn normalize(&self, value: i64) -> (r: Frac)
        requires
            self.wf(),
        ensures
            self.normalize_post(value as int, r),
            r.mid(),
    {
        if value <= self.min {
            Frac::zero()
        } else if value >= self.max {
            Frac::one()
        } else {
            let vf = Frac::from_int(value);
            let r = self.base.normalize_raw(vf);
            proof {
                assert(!self.base.degenerate());
                lemma_interior_unit(self.base.min, self.base.max, vf, r);
            }
            r
        }
    }

    /// Map a fractional value to the normalized range `[0, 1]`, snapping to
    /// the nearest discrete step before the linear step.
    pub fn normalize_frac(&self, v: Frac) -> (r: Frac)
        requires
            self.wf(),
            v.wf(),
            v.bounded(),
        ensures
            self.normalize_frac_post(v, r),
            r.mid(),
    {
        proof {
            crate::arith::lemma_mul_bound(self.min as int, v.den as int, FRAC_BOUND as int, FRAC_BOUND as int);
            crate::arith::lemma_mul_bound(self.max as int, v.den as int, FRAC_BOUND as int, FRAC_BOUND as int);
        }
        let lo: i128 = (self.min as i128) * v.den;
        let hi: i128 = (self.max as i128) * v.den;
        if v.num <= lo {
            Frac::zero()
        } else if v.num >= hi {
            Frac::one()
        } else {
            proof {
                assert(self.min < self.max) by (nonlinear_arith)
                    requires
                        (self.min as int) * v.den < v.num,
                        v.num < (self.max as int) * v.den,
                        v.den > 0,
                ;
                lemma_round_between(v, self.min as int, self.max as int);
            }
            let k: i128 = v.round_nearest();
            let kf = Frac { num: k, den: 1 };
            let r = self.base.normalize_raw(kf);
            proof {
                assert(!self.base.degenerate());
                lemma_ratio_in_unit(
                    r.num as int,
                    r.den as int,
                    v.round_spec() - self.min,
                    self.max - self.min,
                );
            }
            r
        }
    }

    /// Un-map a normalized value to the corresponding discrete integer step.
    pub fn denormalize(&self, r: Frac) -> (k: i64)
        requires
            self.wf(),
            r.wf(),
            r.bounded(),
        ensures
            self.denormalize_post(r, k as int),
    {
        if r.num <= 0 {
            self.min
        } else if r.num >= r.den {
            self.max
        } else {
            let span: i128 = (self.max as i128) - (self.min as i128);
            proof {
                crate::arith::lemma_mul_bound(r.num as int, span as int, FRAC_BOUND as int, 2 * FRAC_BOUND);
                crate::arith::lemma_mul_bound(self.min as int, r.den as int, FRAC_BOUND as int, FRAC_BOUND as int);
            }
            let num_t: i128 = r.num * span + (self.min as i128) * r.den;
            let t = Frac { num: num_t, den: r.den };
            proof {
                if self.min < self.max {
                    assert((self.min as int) * r.den < t.num && t.num < (self.max as int) * r.den)
                        by (nonlinear_arith)
                        requires
                            t.num == r.num * (self.max - self.min) + (self.min as int) * r.den,
                            0 < r.num < r.den,
                            self.min < self.max,
                    ;
                    lemma_round_between(t, self.min as int, self.max as int);
                } else if self.min == self.max {
                    assert(r.num * (span as int) == 0) by (nonlinear_arith)
                        requires
                            span == 0,
                    ;
                    assert(t.num == (self.min as int) * r.den);
                    lemma_round_exact(t, self.min as int);
                } else {
                    assert((self.max as int) * r.den < t.num && t.num < (self.min as int) * r.den)
                        by (nonlinear_arith)
                        requires
                            t.num == r.num * (self.max - self.min) + (self.min as int) * r.den,
                            0 < r.num < r.den,
                            self.max < self.min,
                    ;
                    lemma_round_between(t, self.max as int, self.min as int);
                }
            }
            let k: i128 = t.round_nearest();
            k as i64
        }
    }

    /// Un-map a normalized value to the nearest discrete step, returned as a
    /// rational.
    pub fn denormalize_frac(&self, r: Frac) -> (w: Frac)
        requires
            self.wf(),
            r.wf(),
            r.bounded(),
        ensures
            self.denormalize_frac_post(r, w),
            w.wf(),
            w.bounded(),
    {
        let k = self.denormalize(r);
        Frac::from_int(k)
    }

    /// Map each integer of the overlapping prefix of the two buffers; the
    /// shorter length wins and the extra elements of the longer buffer are
    /// left untouched.
    pub fn normalize_array(&self, in_values: &Vec<i64>, out_normalized: &mut Vec<Frac>)
        requires
            self.wf(),
        ensures
            final(out_normalized)@.len() == old(out_normalized)@.len(),
            forall|i: int| 0 <= i < min(in_values@.len() as int, old(out_normalized)@.len() as int)
                ==> self.normalize_post(in_values@[i] as int, #[trigger] final(out_normalized)@[i]),
            forall|i: int|
                min(in_values@.len() as int, old(out_normalized)@.len() as int) <= i
                    < old(out_normalized)@.len()
                ==> #[trigger] final(out_normalized)@[i] == old(out_normalized)@[i],
    {
        let n: usize = if in_values.len() < out_normalized.len() {
            in_values.len()
        } else {
            out_normalized.len()
        };
        let mut i: usize = 0;
        while i < n
            invariant
                self.wf(),
                i <= n,
                n == min(in_values@.len() as int, old(out_normalized)@.len() as int),
                out_normalized@.len() == old(out_normalized)@.len(),
                forall|j: int| 0 <= j < i
                    ==> self.normalize_post(in_values@[j] as int, #[trigger] out_normalized@[j]),
                forall|j: int| i <= j < out_normalized@.len()
                    ==> #[trigger] out_normalized@[j] == old(out_normalized)@[j],
            decreases n - i,
        {
            let val = self.normalize(in_values[i]);
            out_normalized[i] = val;
            i = i + 1;
        }
    }

    /// Map each fractional value of the overlapping prefix of the two
    /// buffers, snapping each to the nearest discrete step; the shorter
    /// length wins and the extra elements of the longer buffer are left
    /// untouched.
    pub fn normalize_array_frac(&self, in_values: &Vec<Frac>, out_normalized: &mut Vec<Frac>)
        requires
            self.wf(),
            forall|i: int| 0 <= i < in_values@.len()
                ==> (#[trigger] in_values@[i]).wf() && in_values@[i].bounded(),
        ensures
            final(out_normalized)@.len() == old(out_normalized)@.len(),
            forall|i: int| 0 <= i < min(in_values@.len() as int, old(out_normalized)@.len() as int)
                ==> self.normalize_frac_post(in_values@[i], #[trigger] final(out_normalized)@[i]),
            forall|i: int|
                min(in_values@.len() as int, old(out_normalized)@.len() as int) <= i
                    < old(out_normalized)@.len()
                ==> #[trigger] final(out_normalized)@[i] == old(out_normalized)@[i],
    {
        let n: usize = if in_values.len() < out_normalized.len() {
            in_values.len()
        } else {
            out_normalized.len()
        };
        let mut i: usize = 0;
        while i < n
            invariant
                self.wf(),
                i <= n,
                n == min(in_values@.len() as int, old(out_normalized)@.len() as int),
                out_normalized@.len() == old(out_normalized)@.len(),
                forall|j: int| 0 <= j < in_values@.len()
                    ==> (#[trigger] in_values@[j]).wf() && in_values@[j].bounded(),
                forall|j: int| 0 <= j < i
                    ==> self.normalize_frac_post(in_values@[j], #[trigger] out_normalized@[j]),
                forall|j: int| i <= j < out_normalized@.len()
                    ==> #[trigger] out_normalized@[j] == old(out_normalized)@[j],
            decreases n - i,
        {
            let val = self.normalize_frac(in_values[i]);
            out_normalized[i] = val;
            i = i + 1;
        }
    }

    /// Un-map each normalized value of the overlapping prefix to its integer
    /// step; the shorter length wins and the extra elements of the longer
    /// buffer are left untouched.
    pub fn denormalize_array(&self, in_normalized: &Vec<Frac>, out_values: &mut Vec<i64>)
        requires
            self.wf(),
            forall|i: int| 0 <= i < in_normalized@.len()
                ==> (#[trigger] in_normalized@[i]).wf() && in_normalized@[i].bounded(),
        ensures
            final(out_values)@.len() == old(out_values)@.len(),
            forall|i: int| 0 <= i < min(in_normalized@.len() as int, old(out_values)@.len() as int)
                ==> self.denormalize_post(in_normalized@[i], #[trigger] final(out_values)@[i] as int),
            forall|i: int|
                min(in_normalized@.len() as int, old(out_values)@.len() as int) <= i
                    < old(out_values)@.len()
                ==> #[trigger] final(out_values)@[i] == old(out_values)@[i],
    {
        let n: usize = if in_normalized.len() < out_values.len() {
            in_normalized.len()
        } else {
            out_values.len()
        };
        let mut i: usize = 0;
        while i < n
            invariant
                self.wf(),
                i <= n,
                n == min(in_normalized@.len() as int, old(out_values)@.len() as int),
                out_values@.len() == old(out_values)@.len(),
                forall|j: int| 0 <= j < in_normalized@.len()
                    ==> (#[trigger] in_normalized@[j]).wf() && in_normalized@[j].bounded(),
                forall|j: int| 0 <= j < i
                    ==> self.denormalize_post(in_normalized@[j], #[trigger] out_values@[j] as int),
                forall|j: int| i <= j < out_values@.len()
                    ==> #[trigger] out_values@[j] == old(out_values)@[j],
            decreases n - i,
        {
            let val = self.denormalize(in_normalized[i]);
            out_values[i] = val;
            i = i + 1;
        }
    }

    /// Un-map each normalized value of the overlapping prefix to the nearest
    /// step as a rational; the shorter length wins and the extra elements of
    /// the longer buffer are left untouched.
    pub fn denormalize_array_frac(&self, in_normalized: &Vec<Frac>, out_values: &mut Vec<Frac>)
        requires
            self.wf(),
            forall|i: int| 0 <= i < in_normalized@.len()
                ==> (#[trigger] in_normalized@[i]).wf() && in_normalized@[i].bounded(),
        ensures
            final(out_values)@.len() == old(out_values)@.len(),
            forall|i: int| 0 <= i < min(in_normalized@.len() as int, old(out_values)@.len() as int)
                ==> self.denormalize_frac_post(in_normalized@[i], #[trigger] final(out_values)@[i]),
            forall|i: int|
                min(in_normalized@.len() as int, old(out_values)@.len() as int) <= i
                    < old(out_values)@.len()
                ==> #[trigger] final(out_values)@[i] == old(out_values)@[i],
    {
        let n: usize = if in_normalized.len() < out_values.len() {
            in_normalized.len()
        } else {
            out_values.len()
        };
        let mut i: usize = 0;
        while i < n
            invariant
                self.wf(),
                i <= n,
                n == min(in_normalized@.len() as int, old(out_values)@.len() as int),
                out_values@.len() == old(out_values)@.len(),
                forall|j: int| 0 <= j < in_normalized@.len()
                    ==> (#[trigger] in_normalized@[j]).wf() && in_normalized@[j].bounded(),
                forall|j: int| 0 <= j < i
                    ==> self.denormalize_frac_post(in_normalized@[j], #[trigger] out_values@[j]),
                forall|j: int| i <= j < out_values@.len()
                    ==> #[trigger] out_values@[j] == old(out_values)@[j],
            decreases n - i,
        {
            let val = self.denormalize_frac(in_normalized[i]);
            out_values[i] = val;
            i = i + 1;
        }
    }
}

/// Round-trip law for the discrete mapping: denormalizing the normalized
/// image of a step strictly inside the integer range gives back exactly that
/// step.  `r` and `k` are the results of `normalize` and `denormalize`,
/// characterized by the two postcondition predicates.
pub proof fn lemma_discrete_round_trip(m: DiscreteMap, v: int, r: Frac, k: int)
    requires
        m.wf(),
        m.min < v < m.max,
        r.mid(),
        m.normalize_post(v, r),
        m.denormalize_post(r, k),
    ensures
        k == v,
{
    let span = m.max - m.min;
    let num_t = r.num * span + m.min * r.den;
    assert(num_t == v * r.den) by (nonlinear_arith)
        requires
            r.num * span == (v - m.min) * r.den,
            num_t == r.num * span + m.min * r.den,
    ;
    crate::arith::lemma_mul_bound(v, r.den as int, FRAC_BOUND as int, crate::frac::MID_BOUND as int);
    let t = Frac { num: num_t as i128, den: r.den };
    assert(t.wf());
    lemma_round_exact(t, v);
    assert(k == round_ratio(num_t, r.den as int));
}

} // verus!
