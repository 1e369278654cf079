//! The interpolation kinds a key can carry, and the mapping from raw wire
//! codes to kinds.
use vstd::prelude::*;

use crate::fp::fp_mul;
use crate::fp::fp_sub;
use crate::fp::mul_bits;
use crate::fp::sub_bits;

verus! {

/// The bit pattern of the single-precision number 2.0.
pub const TWO_BITS: u32 = 0x4000_0000;

/// The bit pattern of the single-precision number 3.0.
pub const THREE_BITS: u32 = 0x4040_0000;

/// The `Interpolation` type: the shape of the transition from a key to the
/// next higher key of the track.
#[derive(Clone, Copy, PartialEq, Eq, Structural, Debug)]
pub enum Interpolation {
    /// Hold the lower key's value over the whole segment, then jump.
    Step,
    /// Blend factor `t`.
    Linear,
    /// Blend factor `t * t * (3 - 2 * t)` (smoothstep).
    Smooth,
    /// Blend factor `t * t`.
    Ramp,
}

/// The code under which each interpolation kind travels on the wire and in
/// the persistence blob.
pub open spec fn spec_interpolation_code(i: Interpolation) -> u32 {
    match i {
        Interpolation::Step => 0,
        Interpolation::Linear => 1,
        Interpolation::Smooth => 2,
        Interpolation::Ramp => 3,
    }
}

/// The kind a raw code denotes; any code outside the known set falls back to
/// `Step` rather than failing, to tolerate protocol-version skew.
pub open spec fn spec_interpolation_from(raw: u8) -> Interpolation {
    if raw == 1 {
        Interpolation::Linear
    } else if raw == 2 {
        Interpolation::Smooth
    } else if raw == 3 {
        Interpolation::Ramp
    } else {
        Interpolation::Step
    }
}

/// The kind a raw persistence-blob code (a 32-bit field) denotes; any code
/// outside the known set falls back to `Step`.
pub open spec fn spec_interpolation_from_u32(raw: u32) -> Interpolation {
    if raw == 1 {
        Interpolation::Linear
    } else if raw == 2 {
        Interpolation::Smooth
    } else if raw == 3 {
        Interpolation::Ramp
    } else {
        Interpolation::Step
    }
}

/// Map a raw persistence-blob interpolation code to a kind; unknown codes
/// default to `Step`.
pub fn interpolation_from_u32(raw: u32) -> (r: Interpolation)
    ensures
        r == spec_interpolation_from_u32(raw),
{
    if raw == 1 {
        Interpolation::Linear
    } else if raw == 2 {
        Interpolation::Smooth
    } else if raw == 3 {
        Interpolation::Ramp
    } else {
        Interpolation::Step
    }
}

impl From<u8> for Interpolation {
    /// Map a raw interpolation code to a kind; unknown codes default to `Step`.
    fn from(raw: u8) -> (r: Interpolation) {
        if raw == 1 {
            Interpolation::Linear
        } else if raw == 2 {
            Interpolation::Smooth
        } else if raw == 3 {
            Interpolation::Ramp
        } else {
            Interpolation::Step
        }
    }
}

impl vstd::std_specs::convert::FromSpecImpl<u8> for Interpolation {
    open spec fn obeys_from_spec() -> bool {
        true
    }

    open spec fn from_spec(raw: u8) -> Interpolation {
        spec_interpolation_from(raw)
    }
}

/// The blend factor each kind produces from a normalized phase `t` (given
/// and returned as single-precision bit patterns): `Step` is constantly zero,
/// `Linear` is `t` itself, `Smooth` is `t * t * (3 - 2 * t)`, and `Ramp` is
/// `t * t`.
pub open spec fn spec_interpolate(kind: Interpolation, t: u32) -> u32 {
    match kind {
        Interpolation::Step => 0u32,
        Interpolation::Linear => t,
        Interpolation::Smooth => mul_bits(mul_bits(t, t), sub_bits(THREE_BITS, mul_bits(TWO_BITS, t))),
        Interpolation::Ramp => mul_bits(t, t),
    }
}

impl Interpolation {
    /// The wire code of this kind, as an executable value.
    pub fn code(&self) -> (r: u32)
        ensures
            r == spec_interpolation_code(*self),
    {
        match *self {
            Interpolation::Step => 0,
            Interpolation::Linear => 1,
            Interpolation::Smooth => 2,
            Interpolation::Ramp => 3,
        }
    }

    /// Map a normalized phase (as single-precision bits) to this kind's
    /// blend factor (as single-precision bits). Any phase is accepted,
    /// including one outside `[0, 1]`; extrapolation is the caller's affair.
    pub fn interpolate(&self, t: u32) -> (r: u32)
        ensures
            r == spec_interpolate(*self, t),
    {
        match *self {
            Interpolation::Step => 0,
            Interpolation::Linear => t,
            Interpolation::Smooth => fp_mul(fp_mul(t, t), fp_sub(THREE_BITS, fp_mul(TWO_BITS, t))),
            Interpolation::Ramp => fp_mul(t, t),
        }
    }
}

} // verus!
