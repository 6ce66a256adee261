//! Integers that stand for a number at a given binary precision.
use vstd::prelude::*;
use vstd::arithmetic::power2::{pow2, lemma2_to64};
use num::BigInt;
use crate::Precision;
use crate::bigint::{int_value, iabs, bit_len, big_bits, big_is_zero};
use crate::approximate::{scale, spec_scale, ratio, spec_ratio};
use crate::rational::Rational;

verus! {

/// The integer `self.0` standing for the number `self.0 * 2^self.1`.
#[derive(Debug, PartialEq)]
pub struct PrescaledValue(pub BigInt, pub Precision);

impl View for PrescaledValue {
    type V = (int, int);

    /// The pair (integer, precision).
    open spec fn view(&self) -> (int, int) {
        (int_value(self.0), self.1 as int)
    }
}

/// The integer that stands for the value `v` at the coarser precision `np`.
pub open spec fn spec_rescaled(v: (int, int), np: int) -> int {
    spec_scale(v.0, v.1 - np)
}

/// What `rescale` returns for the value `v` and the target precision `np`: nothing when
/// that would make the value more precise than it is.
pub open spec fn spec_rescale(v: (int, int), np: int) -> Option<(int, int)> {
    if np < v.1 {
        None
    } else {
        Some((spec_rescaled(v, np), np))
    }
}

/// The value `v` has at least the precision `rp`.
pub open spec fn spec_meets_precision(v: (int, int), rp: int) -> bool {
    v.1 <= rp
}

/// The view of an optional value.
pub open spec fn opt_view(o: Option<PrescaledValue>) -> Option<(int, int)> {
    match o {
        Some(v) => Some(v@),
        None => None,
    }
}

/// Rescaling to a precision succeeds exactly when the value meets that precision.
pub proof fn lemma_rescale_when_meets_precision(v: (int, int), np: int)
    ensures
        spec_rescale(v, np) is Some <==> spec_meets_precision(v, np),
        spec_rescale(v, np) matches Some(w) ==> w.1 == np,
{
}

/// The precision arithmetic of `rescale` stays within `Precision`.
pub open spec fn rescale_fits(v: (int, int), np: int) -> bool {
    np > v.1 ==> v.1 - np >= i32::MIN
}

/// The most significant bit of `v`: the position of its leading one in `v.0 * 2^v.1`.
pub open spec fn spec_msb(v: (int, int)) -> int {
    bit_len(iabs(v.0) as nat) + v.1 - 1
}

/// The arithmetic of `msb` stays within `Precision`.
pub open spec fn msb_fits(v: (int, int)) -> bool {
    v.0 != 0 ==> {
        &&& bit_len(iabs(v.0) as nat) <= i32::MAX
        &&& bit_len(iabs(v.0) as nat) + v.1 <= i32::MAX
        &&& spec_msb(v) >= i32::MIN
    }
}

impl Clone for PrescaledValue {
    /// A copy that holds the same integer at the same precision.
    fn clone(&self) -> (r: PrescaledValue)
        ensures
            r@ == self@,
    {
        PrescaledValue(self.0.clone(), self.1)
    }
}

impl PrescaledValue {
    /// Rescale this `PrescaledValue` to the new precision, but only if this results in a _decrease_ in precision.
    pub fn rescale(self, new_precision: Precision) -> (r: Option<PrescaledValue>)
        requires
            rescale_fits(self@, new_precision as int),
        ensures
            opt_view(r) == spec_rescale(self@, new_precision as int),
    {
        if new_precision < self.1 {
            None
        } else if new_precision == self.1 {
            proof {
                lemma2_to64();
                assert(spec_scale(int_value(self.0), 0) == int_value(self.0) * pow2(0));
            }
            Some(self)
        } else {
            Some(PrescaledValue(scale(self.0, -new_precision + self.1), new_precision))
        }
    }

    /// Does this `PrescaledValue` have at enough digits stored to meet the required precision?
    pub fn meets_precision(&self, required_precision: Precision) -> (r: bool)
        ensures
            r == spec_meets_precision(self@, required_precision as int),
    {
        self.1 <= required_precision
    }

    /// Whether the arithmetic of `msb` fits in `Precision` for this value.
    pub fn msb_fits_in_precision(&self) -> (r: bool)
        ensures
            r == msb_fits(self@),
    {
        if big_is_zero(&self.0) {
            return true;
        }
        let bits = big_bits(&self.0);
        if bits > 0x7fff_ffff {
            return false;
        }
        let bl = bits as i64;
        let e = self.1 as i64;
        bl + e <= i32::MAX as i64 && bl + e - 1 >= i32::MIN as i64
    }

    /// Get the Most Significant Bit of the stored value, or `None` if there is no such bit.
    pub fn msb(&self) -> (r: Option<Precision>)
        requires
            msb_fits(self@),
        ensures
            r is None <==> int_value(self.0) == 0,
            r matches Some(m) ==> m as int == spec_msb(self@),
    {
        if big_is_zero(&self.0) {
            None
        } else {
            let length = big_bits(&self.0) as Precision;
            Some(length + self.1 - 1)
        }
    }
}

/// Conversion of an exact number into its approximation at a given precision.
pub trait IntoPrescaledValue: Sized {
    /// The integer that stands for the number at precision `p`.
    spec fn prescaled_spec(self, p: int) -> int;

    fn into_prescaled_value(self, p: Precision) -> (r: PrescaledValue)
        requires
            p > i32::MIN,
        ensures
            r.1 == p,
            int_value(r.0) == self.prescaled_spec(p as int),
    ;
}

impl<'a> IntoPrescaledValue for &'a Rational {
    open spec fn prescaled_spec(self, p: int) -> int {
        spec_ratio(self@, p)
    }

    fn into_prescaled_value(self, p: Precision) -> (r: PrescaledValue) {
        PrescaledValue(ratio(&self, p), p)
    }
}

impl<'a> IntoPrescaledValue for &'a BigInt {
    open spec fn prescaled_spec(self, p: int) -> int {
        spec_scale(int_value(*self), -p)
    }

    fn into_prescaled_value(self, p: Precision) -> (r: PrescaledValue) {
        PrescaledValue(scale(self.clone(), -p), p)
    }
}

} // verus!
