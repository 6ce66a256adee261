//! Exact rational numbers, the literals that a computation starts from.
use vstd::prelude::*;
use vstd::arithmetic::power2::pow2;
use num::BigInt;
use crate::bigint::{int_value, trunc_div, big_from_i64, big_from_u64, big_shl, big_div};

verus! {

/// A rational number `numerator / denominator` with a positive denominator.
#[derive(Debug, PartialEq)]
pub struct Rational {
    numerator: BigInt,
    denominator: BigInt,
}

impl View for Rational {
    type V = (int, int);

    /// The pair (numerator, denominator).
    closed spec fn view(&self) -> (int, int) {
        (int_value(self.numerator), int_value(self.denominator))
    }
}

/// `r * 2^shift`, rounded toward zero.
pub open spec fn spec_shifted(r: (int, int), shift: nat) -> int {
    trunc_div(r.0 * pow2(shift), r.1)
}

impl Rational {
    /// The denominator is positive.
    #[verifier::type_invariant]
    pub closed spec fn denominator_positive(self) -> bool {
        int_value(self.denominator) > 0
    }

    /// What the invariant says of the view.
    pub proof fn lemma_denominator_positive(self)
        requires
            self.denominator_positive(),
        ensures
            self@.1 > 0,
    {
    }

    /// The fraction `n / d`, or `None` when `d` is zero.
    pub fn fraction(n: i64, d: u64) -> (r: Option<Rational>)
        ensures
            r is None <==> d == 0,
            r matches Some(q) ==> q@ == (n as int, d as int),
    {
        if d == 0 {
            None
        } else {
            Some(Rational { numerator: big_from_i64(n), denominator: big_from_u64(d) })
        }
    }

    /// The integer part of `self * 2^shift`, rounded toward zero.
    pub fn shifted_big_integer(&self, shift: i32) -> (r: BigInt)
        requires
            shift >= 0,
        ensures
            int_value(r) == spec_shifted(self@, shift as nat),
            self@.1 > 0,
    {
        proof {
            use_type_invariant(self);
        }
        let shifted = big_shl(&self.numerator, shift);
        big_div(&shifted, &self.denominator)
    }
}

impl Clone for Rational {
    /// A copy that holds the same fraction.
    fn clone(&self) -> (r: Rational)
        ensures
            r@ == self@,
    {
        proof {
            use_type_invariant(self);
        }
        Rational { numerator: self.numerator.clone(), denominator: self.denominator.clone() }
    }
}

} // verus!
