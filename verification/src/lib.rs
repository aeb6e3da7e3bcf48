//! Maps values of an application-defined range to the normalized range
//! `[0, 1]` and back, for DSP parameter handling.
//!
//! All numbers are exact rationals ([`Frac`]), so the mapping arithmetic is
//! exact and every operation carries a contract that pins its result down.
//! Mappings that need transcendental arithmetic (base-2 logarithms, decibel
//! conversion) have no exact rational form and live outside this crate.

use vstd::prelude::*;

mod arith;
mod decibel;
mod discrete;
mod frac;
mod linear;
mod linear_base;
mod power;

pub use decibel::apply_db_floor;
pub use discrete::{DiscreteMap, lemma_discrete_round_trip};
pub use frac::{Frac, veq, vle, vlt, FRAC_BOUND, MID_BOUND};
pub use linear::{LinearMap, lemma_linear_round_trip};
pub use linear_base::{LinearBase, maps_linearly, maps_linearly_ratio, lin_num, lin_den,
    lemma_affine_value_unique, lemma_affine_normalized_unique};
pub use power::{canonical_exponent, exp_raw, lemma_power_round_trip_identity,
    lemma_power_round_trip_sqrt, lemma_power_round_trip_square, root_scale_spec, Exponent,
    MapError, PowerMap, ROOT_SCALE_POW, SQRT_SCALE};

verus! {

/// The active mapping kind of a [`NormalMap`].
#[derive(Debug)]
pub enum Mapper {
    /// Linear mapping.
    Lin(LinearMap),
    /// Exponential mapping where the normalized value is raised to the
    /// supplied exponent.
    Pow(PowerMap),
    /// Discrete integer mapping.
    Discrete(DiscreteMap),
}

/// A mapper that maps a range of values to and from the normalized range
/// `[0, 1]`: one uniform interface over the mapping kinds, dispatching every
/// call to the active kind.
#[derive(Debug)]
pub struct NormalMap {
    /// The current mapper in use.
    pub mapper: Mapper,
}

impl NormalMap {
    pub open spec fn wf(self) -> bool {
        match self.mapper {
            Mapper::Lin(m) => m.wf(),
            Mapper::Pow(m) => m.wf(),
            Mapper::Discrete(m) => m.wf(),
        }
    }

    /// What `normalize` returns: the active kind's own exact postcondition.
    pub open spec fn normalize_post(self, v: Frac, r: Frac) -> bool {
        match self.mapper {
            Mapper::Lin(m) => m.normalize_post(v, r),
            Mapper::Pow(m) => m.normalize_post(v, r),
            Mapper::Discrete(m) => m.normalize_frac_post(v, r),
        }
    }

    /// What `denormalize` returns: the active kind's own exact postcondition.
    pub open spec fn denormalize_post(self, r: Frac, w: Frac) -> bool {
        match self.mapper {
            Mapper::Lin(m) => m.denormalize_post(r, w),
            Mapper::Pow(m) => m.denormalize_post(r, w),
            Mapper::Discrete(m) => m.denormalize_frac_post(r, w),
        }
    }

    /// Create a `NormalMap` with linear mapping.
    pub fn linear(min_value: Frac, max_value: Frac) -> (nm: NormalMap)
        requires
            min_value.wf(),
            max_value.wf(),
            min_value.bounded(),
            max_value.bounded(),
        ensures
            nm.wf(),
            nm.mapper matches Mapper::Lin(m) && m.base.min == min_value && m.base.max == max_value,
    {
        NormalMap { mapper: Mapper::Lin(LinearMap::new(min_value, max_value)) }
    }

    /// Create a `NormalMap` with an exponential mapping where the normalized
    /// value is raised to the supplied exponent.  Fails on a zero exponent,
    /// and on an exponent outside the supported set.
    pub fn power(min_value: Frac, max_value: Frac, exponent: Exponent) -> (result: Result<
        NormalMap,
        MapError,
    >)
        requires
            min_value.wf(),
            max_value.wf(),
            min_value.bounded(),
            max_value.bounded(),
        ensures
            match result {
                Ok(nm) => {
                    &&& nm.wf()
                    &&& nm.mapper matches Mapper::Pow(m) && m.base.min == min_value
                        && m.base.max == max_value && m.exponent
                        == canonical_exponent(exponent)
                },
                Err(MapError::ZeroExponent) => exp_raw(exponent) == 0,
                Err(MapError::UnsupportedExponent) => exp_raw(exponent) != 0 && !(-2
                    <= exp_raw(exponent) <= 6),
            },
    {
        match PowerMap::new(min_value, max_value, exponent) {
            Ok(m) => Ok(NormalMap { mapper: Mapper::Pow(m) }),
            Err(e) => Err(e),
        }
    }

    /// Create a `NormalMap` with a discrete integer range.
    pub fn discrete(min_value: i64, max_value: i64) -> (nm: NormalMap)
        requires
            -FRAC_BOUND <= min_value as int <= FRAC_BOUND,
            -FRAC_BOUND <= max_value as int <= FRAC_BOUND,
        ensures
            nm.wf(),
            nm.mapper matches Mapper::Discrete(m) && m.min == min_value && m.max == max_value,
    {
        NormalMap { mapper: Mapper::Discrete(DiscreteMap::new(min_value, max_value)) }
    }

    /// Map a value to the normalized range `[0, 1]`.
    pub fn normalize(&self, v: Frac) -> (r: Frac)
        requires
            self.wf(),
            v.wf(),
            v.bounded(),
        ensures
            self.normalize_post(v, r),
    {
        match &self.mapper {
            Mapper::Lin(m) => m.normalize(v),
            Mapper::Pow(m) => m.normalize(v),
            Mapper::Discrete(m) => m.normalize_frac(v),
        }
    }

    /// Un-map a normalized value to the corresponding value of the range.
    pub fn denormalize(&self, r: Frac) -> (w: Frac)
        requires
            self.wf(),
            r.wf(),
            r.bounded(),
        ensures
            self.denormalize_post(r, w),
    {
        match &self.mapper {
            Mapper::Lin(m) => m.denormalize(r),
            Mapper::Pow(m) => m.denormalize(r),
            Mapper::Discrete(m) => m.denormalize_frac(r),
        }
    }

    /// Map each value of the overlapping prefix of the two buffers; the
    /// shorter length wins and the extra elements of the longer buffer are
    /// left untouched.
    pub fn normalize_array(&self, in_values: &Vec<Frac>, out_normalized: &mut Vec<Frac>)
        requires
            self.wf(),
            forall|i: int| 0 <= i < in_values@.len()
                ==> (#[trigger] in_values@[i]).wf() && in_values@[i].bounded(),
        ensures
            final(out_normalized)@.len() == old(out_normalized)@.len(),
            forall|i: int|
                0 <= i < vstd::math::min(in_values@.len() as int, old(out_normalized)@.len() as int)
                ==> self.normalize_post(in_values@[i], #[trigger] final(out_normalized)@[i]),
            forall|i: int|
                vstd::math::min(in_values@.len() as int, old(out_normalized)@.len() as int) <= i
                    < old(out_normalized)@.len()
                ==> #[trigger] final(out_normalized)@[i] == old(out_normalized)@[i],
    {
        match &self.mapper {
            Mapper::Lin(m) => m.normalize_array(in_values, out_normalized),
            Mapper::Pow(m) => m.normalize_array(in_values, out_normalized),
            Mapper::Discrete(m) => m.normalize_array_frac(in_values, out_normalized),
        }
    }

    /// Un-map each normalized value of the overlapping prefix of the two
    /// buffers; the shorter length wins and the extra elements of the longer
    /// buffer are left untouched.
    pub fn denormalize_array(&self, in_normalized: &Vec<Frac>, out_values: &mut Vec<Frac>)
        requires
            self.wf(),
            forall|i: int| 0 <= i < in_normalized@.len()
                ==> (#[trigger] in_normalized@[i]).wf() && in_normalized@[i].bounded(),
        ensures
            final(out_values)@.len() == old(out_values)@.len(),
            forall|i: int|
                0 <= i < vstd::math::min(in_normalized@.len() as int, old(out_values)@.len() as int)
                ==> self.denormalize_post(in_normalized@[i], #[trigger] final(out_values)@[i]),
            forall|i: int|
                vstd::math::min(in_normalized@.len() as int, old(out_values)@.len() as int) <= i
                    < old(out_values)@.len()
                ==> #[trigger] final(out_values)@[i] == old(out_values)@[i],
    {
        match &self.mapper {
            Mapper::Lin(m) => m.denormalize_array(in_normalized, out_values),
            Mapper::Pow(m) => m.denormalize_array(in_normalized, out_values),
            Mapper::Discrete(m) => m.denormalize_array_frac(in_normalized, out_values),
        }
    }
}

/// Saturation law: whatever the active mapping kind, a value at or beyond the
/// upper bound normalizes to exactly one, and a value at or below the lower
/// bound normalizes to exactly zero.  `r` is the result of `normalize`,
/// characterized by its postcondition; the bounds are each kind's own.
pub proof fn lemma_normalize_saturates(nm: NormalMap, v: Frac, r: Frac)
    requires
        nm.wf(),
        v.wf(),
        nm.normalize_post(v, r),
    ensures
        match nm.mapper {
            Mapper::Lin(m) => {
                &&& vle(v, m.base.min) ==> r.is_zero()
                &&& vlt(m.base.min, v) && vle(m.base.max, v) ==> r.is_one()
            },
            Mapper::Pow(m) => {
                &&& vle(v, m.base.min) ==> r.is_zero()
                &&& vlt(m.base.min, v) && vle(m.base.max, v) ==> r.is_one()
            },
            Mapper::Discrete(m) => {
                &&& v.num <= m.min * v.den ==> r.is_zero()
                &&& m.min * v.den < v.num && v.num >= m.max * v.den ==> r.is_one()
            },
        },
{
}

} // verus!
