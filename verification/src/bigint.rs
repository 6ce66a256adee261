//! The arbitrary-precision integers of the `num` crate, as the library sees them.
//!
//! Every operation that the library performs on a `BigInt` goes through one of the
//! small wrappers below; each states, over the integer that the `BigInt` holds,
//! what the `num-bigint` documentation promises of the operation.
use vstd::prelude::*;
use num::BigInt;
use num::Signed;
use num::Zero;
use num::bigint::Sign;

verus! {

#[verifier::external_type_specification]
#[verifier::external_body]
pub struct ExBigInt(num::BigInt);

/// The mathematical integer that a `BigInt` holds.
pub uninterp spec fn int_value(x: BigInt) -> int;

/// Absolute value of an integer.
pub open spec fn iabs(a: int) -> int {
    if a < 0 { -a } else { a }
}

/// Integer division rounding toward zero, as Rust's `/` does.
pub open spec fn trunc_div(a: int, b: int) -> int {
    let q = iabs(a) / iabs(b);
    if (a < 0) != (b < 0) { -q } else { q }
}

/// The number of bits needed to write `x` in binary (0 for 0).
pub open spec fn bit_len(x: nat) -> nat
    decreases x,
{
    if x == 0 { 0 } else { 1 + bit_len(x / 2) }
}

/// The integer square root: the largest `r` with `r * r <= x`.
pub open spec fn is_isqrt(x: int, r: int) -> bool {
    0 <= r && r * r <= x && x < (r + 1) * (r + 1)
}

/// `bit_len` brackets its argument: `2^(bit_len(m) - 1) <= m < 2^bit_len(m)` for `m >= 1`.
pub proof fn lemma_bit_len_bounds(m: nat)
    ensures
        m < vstd::arithmetic::power2::pow2(bit_len(m)),
        m >= 1 ==> bit_len(m) >= 1 && vstd::arithmetic::power2::pow2((bit_len(m) - 1) as nat) <= m,
    decreases m,
{
    vstd::arithmetic::power2::lemma2_to64();
    if m >= 1 {
        lemma_bit_len_bounds(m / 2);
        vstd::arithmetic::power2::lemma_pow2_unfold(bit_len(m));
        if m / 2 >= 1 {
            vstd::arithmetic::power2::lemma_pow2_unfold(bit_len(m / 2));
        }
    }
}

/// The integer square root is unique.
pub proof fn lemma_isqrt_unique(x: int, r1: int, r2: int)
    requires
        is_isqrt(x, r1),
        is_isqrt(x, r2),
    ensures
        r1 == r2,
{
    if r1 < r2 {
        assert((r1 + 1) * (r1 + 1) <= r2 * r2) by (nonlinear_arith)
            requires
                0 <= r1 < r2,
        ;
    } else if r2 < r1 {
        assert((r2 + 1) * (r2 + 1) <= r1 * r1) by (nonlinear_arith)
            requires
                0 <= r2 < r1,
        ;
    }
}

/// The integer square root of `x`.
pub open spec fn isqrt(x: int) -> int {
    choose|r: int| is_isqrt(x, r)
}

/// `BigInt::from(i64)`: the integer holds exactly `v`.
#[verifier::external_body]
pub(crate) fn big_from_i64(v: i64) -> (r: BigInt)
    ensures
        int_value(r) == v as int,
{
    BigInt::from(v)
}

/// `BigInt::from(u64)`: the integer holds exactly `v`.
#[verifier::external_body]
pub(crate) fn big_from_u64(v: u64) -> (r: BigInt)
    ensures
        int_value(r) == v as int,
{
    BigInt::from(v)
}

/// `<BigInt as Clone>::clone`: the copy holds the same integer.
pub assume_specification[ <num::BigInt as core::clone::Clone>::clone ](x: &BigInt) -> (r: BigInt)
    ensures
        int_value(r) == int_value(*x),
;

/// `&BigInt + &BigInt`: the exact sum.
#[verifier::external_body]
pub(crate) fn big_add(a: &BigInt, b: &BigInt) -> (r: BigInt)
    ensures
        int_value(r) == int_value(*a) + int_value(*b),
{
    a + b
}

/// `&BigInt * &BigInt`: the exact product.
#[verifier::external_body]
pub(crate) fn big_mul(a: &BigInt, b: &BigInt) -> (r: BigInt)
    ensures
        int_value(r) == int_value(*a) * int_value(*b),
{
    a * b
}

/// `-&BigInt`: the negation.
#[verifier::external_body]
pub(crate) fn big_neg(a: &BigInt) -> (r: BigInt)
    ensures
        int_value(r) == -int_value(*a),
{
    -a
}

/// `Signed::abs` on a `BigInt`: the absolute value.
#[verifier::external_body]
pub(crate) fn big_abs(a: &BigInt) -> (r: BigInt)
    ensures
        int_value(r) == iabs(int_value(*a)),
{
    a.abs()
}

/// `&BigInt << i32`: multiplication by `2^k`; `num-bigint` panics on a negative shift.
#[verifier::external_body]
pub(crate) fn big_shl(a: &BigInt, k: i32) -> (r: BigInt)
    requires
        k >= 0,
    ensures
        int_value(r) == int_value(*a) * vstd::arithmetic::power2::pow2(k as nat),
{
    a << k
}

/// `&BigInt >> i32`: division by `2^k` rounding toward negative infinity (the source
/// adds one to the magnitude of a negative value when ones are shifted out);
/// `num-bigint` panics on a negative shift.
#[verifier::external_body]
pub(crate) fn big_shr(a: &BigInt, k: i32) -> (r: BigInt)
    requires
        k >= 0,
    ensures
        int_value(r) == int_value(*a) / (vstd::arithmetic::power2::pow2(k as nat) as int),
{
    a >> k
}

/// `&BigInt / &BigInt`: the quotient of `div_rem`, rounded toward zero; division by zero panics.
#[verifier::external_body]
pub(crate) fn big_div(a: &BigInt, b: &BigInt) -> (r: BigInt)
    requires
        int_value(*b) != 0,
    ensures
        int_value(r) == trunc_div(int_value(*a), int_value(*b)),
{
    a / b
}

/// `BigInt::sqrt`: the truncated square root; the source asserts that the value is not negative.
#[verifier::external_body]
pub(crate) fn big_sqrt(a: &BigInt) -> (r: BigInt)
    requires
        int_value(*a) >= 0,
    ensures
        is_isqrt(int_value(*a), int_value(r)),
{
    a.sqrt()
}

/// `BigInt::bits`: the fewest bits that express the magnitude, sign not included.
#[verifier::external_body]
pub(crate) fn big_bits(a: &BigInt) -> (r: u64)
    ensures
        r as int == bit_len(iabs(int_value(*a)) as nat),
{
    a.bits()
}

/// `BigInt::sign() == Sign::Minus`: whether the value is negative.
#[verifier::external_body]
pub(crate) fn big_is_negative(a: &BigInt) -> (r: bool)
    ensures
        r == (int_value(*a) < 0),
{
    a.sign() == Sign::Minus
}

/// `Zero::is_zero` on a `BigInt`.
#[verifier::external_body]
pub(crate) fn big_is_zero(a: &BigInt) -> (r: bool)
    ensures
        r == (int_value(*a) == 0),
{
    a.is_zero()
}

/// `&BigInt > &BigInt`: the order of the integers.
#[verifier::external_body]
pub(crate) fn big_gt(a: &BigInt, b: &BigInt) -> (r: bool)
    ensures
        r == (int_value(*a) > int_value(*b)),
{
    a > b
}

} // verus!
