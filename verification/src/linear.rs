use vstd::prelude::*;
use vstd::math::min;
use crate::frac::{Frac, veq, vle, vlt, lemma_vlt_trans};
use crate::linear_base::{LinearBase, maps_linearly, lemma_interior_unit, lemma_affine_value_unique};

verus! {

/// Linear mapping between `[min, max]` and the normalized interval `[0, 1]`,
/// with saturating inclusive clamps at the bounds.
#[derive(Debug)]
pub struct LinearMap {
    pub base: LinearBase,
}

impl LinearMap {
    pub open spec fn wf(self) -> bool {
        self.base.wf()
    }

    /// What `normalize` returns: exactly zero at or below `min`, exactly one
    /// at or beyond `max`, and otherwise the unique solution of
    /// `v == min + r * (max - min)`, which lies strictly inside `(0, 1)`.
    pub open spec fn normalize_post(self, v: Frac, r: Frac) -> bool {
        &&& r.wf()
        &&& vle(v, self.base.min) ==> r.is_zero()
        &&& !vle(v, self.base.min) && vle(self.base.max, v) ==> r.is_one()
        &&& vlt(self.base.min, v) && vlt(v, self.base.max) ==> {
            &&& maps_linearly(self.base.min, self.base.max, v, r)
            &&& 0 < r.num < r.den
        }
    }

    /// What `denormalize` returns: exactly `min` at or below zero, exactly
    /// `max` at or beyond one, `min` for a degenerate range, and otherwise the
    /// exact value `min + r * (max - min)`.
    pub open spec fn denormalize_post(self, r: Frac, v: Frac) -> bool {
        &&& v.wf()
        &&& r.num <= 0 ==> veq(v, self.base.min)
        &&& r.num > 0 && r.num >= r.den ==> veq(v, self.base.max)
        &&& 0 < r.num < r.den ==> {
            &&& self.base.degenerate() ==> veq(v, self.base.min)
            &&& !self.base.degenerate() ==> maps_linearly(self.base.min, self.base.max, v, r)
        }
    }

    /// Create a linear mapping over `[min, max]`.
    pub fn new(min_value: Frac, max_value: Frac) -> (m: LinearMap)
        requires
            min_value.wf(),
            max_value.wf(),
            min_value.bounded(),
            max_value.bounded(),
        ensures
            m.wf(),
            m.base.min == min_value,
            m.base.max == max_value,
    {
        LinearMap { base: LinearBase::new(min_value, max_value) }
    }

    /// Map a value to the normalized range `[0, 1]`.
    pub fn normalize(&self, v: Frac) -> (r: Frac)
        requires
            self.wf(),
            v.wf(),
            v.bounded(),
        ensures
            self.normalize_post(v, r),
            r.mid(),
    {
        if v.le(&self.base.min) {
            Frac::zero()
        } else if self.base.max.le(&v) {
            Frac::one()
        } else {
            let r = self.base.normalize_raw(v);
            proof {
                lemma_vlt_trans(self.base.min, v, self.base.max);
                assert(!self.base.degenerate());
                lemma_interior_unit(self.base.min, self.base.max, v, r);
            }
            r
        }
    }

    /// Map a normalized value back to the `[min, max]` range.  The input box
    /// is the internal one, so the output of `normalize` can be fed straight
    /// back in.
    pub fn denormalize(&self, r: Frac) -> (v: Frac)
        requires
            self.wf(),
            r.wf(),
            r.mid(),
        ensures
            self.denormalize_post(r, v),
    {
        if r.num <= 0 {
            self.base.min
        } else if r.num >= r.den {
            self.base.max
        } else {
            self.base.denormalize_raw(r)
        }
    }

    /// Map each value of the overlapping prefix of the two buffers; the
    /// shorter length wins and the extra elements of the longer buffer are
    /// left untouched.
    pub fn normalize_array(&self, in_values: &Vec<Frac>, out_normalized: &mut Vec<Frac>)
        requires
            self.wf(),
            forall|i: int| 0 <= i < in_values@.len()
                ==> (#[trigger] in_values@[i]).wf() && in_values@[i].bounded(),
        ensures
            final(out_normalized)@.len() == old(out_normalized)@.len(),
            forall|i: int| 0 <= i < min(in_values@.len() as int, old(out_normalized)@.len() as int)
                ==> self.normalize_post(in_values@[i], #[trigger] final(out_normalized)@[i]),
            forall|i: int|
                min(in_values@.len() as int, old(out_normalized)@.len() as int) <= i
                    < old(out_normalized)@.len()
                ==> #[trigger] final(out_normalized)@[i] == old(out_normalized)@[i],
    {
        let n: usize = if in_values.len() < out_normalized.len() {
            in_values.len()
        } else {
            out_normalized.len()
        };
        let mut i: usize = 0;
        while i < n
            invariant
                self.wf(),
                i <= n,
                n == min(in_values@.len() as int, old(out_normalized)@.len() as int),
                out_normalized@.len() == old(out_normalized)@.len(),
                forall|j: int| 0 <= j < in_values@.len()
                    ==> (#[trigger] in_values@[j]).wf() && in_values@[j].bounded(),
                forall|j: int| 0 <= j < i
                    ==> self.normalize_post(in_values@[j], #[trigger] out_normalized@[j]),
                forall|j: int| i <= j < out_normalized@.len()
                    ==> #[trigger] out_normalized@[j] == old(out_normalized)@[j],
            decreases n - i,
        {
            let val = self.normalize(in_values[i]);
            out_normalized[i] = val;
            i = i + 1;
        }
    }

    /// Un-map each normalized value of the overlapping prefix of the two
    /// buffers; the shorter length wins and the extra elements of the longer
    /// buffer are left untouched.
    pub fn denormalize_array(&self, in_normalized: &Vec<Frac>, out_values: &mut Vec<Frac>)
        requires
            self.wf(),
            forall|i: int| 0 <= i < in_normalized@.len()
                ==> (#[trigger] in_normalized@[i]).wf() && in_normalized@[i].mid(),
        ensures
            final(out_values)@.len() == old(out_values)@.len(),
            forall|i: int| 0 <= i < min(in_normalized@.len() as int, old(out_values)@.len() as int)
                ==> self.denormalize_post(in_normalized@[i], #[trigger] final(out_values)@[i]),
            forall|i: int|
                min(in_normalized@.len() as int, old(out_values)@.len() as int) <= i
                    < old(out_values)@.len()
                ==> #[trigger] final(out_values)@[i] == old(out_values)@[i],
    {
        let n: usize = if in_normalized.len() < out_values.len() {
            in_normalized.len()
        } else {
            out_values.len()
        };
        let mut i: usize = 0;
        while i < n
            invariant
                self.wf(),
                i <= n,
                n == min(in_normalized@.len() as int, old(out_values)@.len() as int),
                out_values@.len() == old(out_values)@.len(),
                forall|j: int| 0 <= j < in_normalized@.len()
                    ==> (#[trigger] in_normalized@[j]).wf() && in_normalized@[j].mid(),
                forall|j: int| 0 <= j < i
                    ==> self.denormalize_post(in_normalized@[j], #[trigger] out_values@[j]),
                forall|j: int| i <= j < out_values@.len()
                    ==> #[trigger] out_values@[j] == old(out_values)@[j],
            decreases n - i,
        {
            let val = self.denormalize(in_normalized[i]);
            out_values[i] = val;
            i = i + 1;
        }
    }
}

/// Round-trip law for the linear mapping: for any value strictly between the
/// bounds, denormalizing the normalized image gives back exactly the original
/// value.  `r` and `w` are the results of `normalize` and `denormalize`,
/// characterized by the two postcondition predicates.
pub proof fn lemma_linear_round_trip(m: LinearMap, v: Frac, r: Frac, w: Frac)
    requires
        m.wf(),
        v.wf(),
        vlt(m.base.min, v),
        vlt(v, m.base.max),
        m.normalize_post(v, r),
        m.denormalize_post(r, w),
    ensures
        veq(w, v),
{
    lemma_vlt_trans(m.base.min, v, m.base.max);
    assert(!m.base.degenerate());
    lemma_affine_value_unique(m.base.min, m.base.max, w, v, r);
}

} // verus!
