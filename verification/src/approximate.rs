//! Scaling of big integers and the approximation of single operators.
use vstd::prelude::*;
use vstd::arithmetic::power2::{pow2, lemma2_to64, lemma_pow2_pos, lemma_pow2_adds, lemma_pow2_unfold};
use vstd::arithmetic::div_mod::lemma_fundamental_div_mod;
use num::BigInt;
use crate::Precision;
use crate::bigint::{
    int_value, iabs, trunc_div, bit_len, isqrt, lemma_bit_len_bounds, lemma_isqrt_unique,
    big_from_i64, big_add, big_mul, big_neg, big_shl, big_shr, big_abs, big_gt, big_div,
    big_sqrt, big_is_negative, big_is_zero, big_bits,
};
use crate::series::{
    cos_term, cos_sum, exp_term, exp_sum, stops_at, first_stop, lemma_first_stop,
    lemma_cos_term_halves, lemma_exp_term_shrinks, ln_power, ln_term, ln_sum,
    lemma_ln_power_halves, lemma_trunc_div_bound,
};
use crate::rational::{Rational, spec_shifted};
use crate::prescaled_value::{PrescaledValue, spec_rescaled, spec_msb, msb_fits, rescale_fits};

verus! {

/// `n * 2^p` rounded toward negative infinity.
pub open spec fn spec_shift(n: int, p: int) -> int {
    if p >= 0 {
        n * pow2(p as nat)
    } else {
        n / (pow2((-p) as nat) as int)
    }
}

/// `n * 2^p`, rounded half up when `p` is negative.
pub open spec fn spec_scale(n: int, p: int) -> int {
    if p >= 0 {
        n * pow2(p as nat)
    } else {
        (spec_shift(n, p + 1) + 1) / 2
    }
}

/// The approximation of the rational `r` at precision `p`.
pub open spec fn spec_ratio(r: (int, int), p: int) -> int {
    if p >= 0 {
        spec_scale(spec_shifted(r, 0), -p)
    } else {
        spec_shifted(r, (-p) as nat)
    }
}

/// The least `k` with `2^k >= m`.
pub open spec fn log2_ceil(m: nat) -> nat
    decreases m,
{
    if m <= 1 {
        0
    } else {
        1 + log2_ceil(((m + 1) / 2) as nat)
    }
}

/// Shift `n` left by `p` bits; a negative `p` shifts right, rounding toward negative infinity.
pub fn shift(n: BigInt, p: Precision) -> (r: BigInt)
    requires
        p > i32::MIN,
    ensures
        int_value(r) == spec_shift(int_value(n), p as int),
{
    if 0 > p {
        big_shr(&n, -p)
    } else if p == 0 {
        proof {
            lemma2_to64();
        }
        n
    } else {
        big_shl(&n, p)
    }
}

/// Scale (left shift) n by p bits, rounding if this makes n smaller.
/// e.g. scale(10, 2) == 40
///      scale(10, -2) == 3
///
/// This is a similar operation to multiplying by 2^(-p)
pub fn scale(n: BigInt, p: Precision) -> (r: BigInt)
    ensures
        int_value(r) == spec_scale(int_value(n), p as int),
{
    if p >= 0 {
        big_shl(&n, p)
    } else {
        let one = big_from_i64(1);
        let adj = big_add(&shift(n, p + 1), &one);
        proof {
            lemma2_to64();
        }
        big_shr(&adj, 1)
    }
}

/// Scaling by a negative `p` rounds to the nearest integer, halves upward:
/// `scale(n, p) == floor((n + 2^(-p-1)) / 2^(-p))`.
pub proof fn lemma_scale_rounds_to_nearest(n: int, p: int)
    requires
        p < 0,
    ensures
        spec_scale(n, p) == (n + pow2((-p - 1) as nat)) / (pow2((-p) as nat) as int),
{
    let k = (-p - 1) as nat;
    lemma2_to64();
    lemma_pow2_pos(k);
    lemma_pow2_unfold((k + 1) as nat);
    if k == 0 {
        assert(pow2(0) == 1);
        assert(spec_shift(n, p + 1) == n * pow2(0));
        assert(spec_shift(n, p + 1) == n);
    } else {
        let d = pow2(k) as int;
        assert(spec_shift(n, p + 1) == n / d);
        assert(n / d + 1 == (n + d) / d) by {
            vstd::arithmetic::div_mod::lemma_div_plus_one(n, d);
        }
        lemma_floor_div_div(n + d, d, 2);
        assert(d * 2 == pow2((k + 1) as nat));
    }
}

/// Dividing (rounding down) by `c` and then by `d` is dividing by `c * d`, for any sign of `x`.
pub proof fn lemma_floor_div_div(x: int, c: int, d: int)
    requires
        0 < c,
        0 < d,
    ensures
        (x / c) / d == x / (c * d),
{
    lemma_fundamental_div_mod(x, c);
    lemma_fundamental_div_mod(x / c, d);
    let q = x / c;
    let r = x % c;
    let q2 = q / d;
    let r2 = q % d;
    assert(0 <= c * r2 + r < c * d && x == (c * d) * q2 + (c * r2 + r)) by (nonlinear_arith)
        requires
            x == c * q + r,
            q == d * q2 + r2,
            0 <= r < c,
            0 <= r2 < d,
    ;
    vstd::arithmetic::div_mod::lemma_fundamental_div_mod_converse_div(x, c * d, q2, c * r2 + r);
}

/// The approximation of `r` at precision `p`: the integer part of `r * 2^(-p)`,
/// rounded toward zero for negative `p` and to nearest otherwise.
pub fn ratio(r: &Rational, p: Precision) -> (res: BigInt)
    requires
        p > i32::MIN,
    ensures
        int_value(res) == spec_ratio(r@, p as int),
{
    if p >= 0 {
        scale(r.shifted_big_integer(0), -p)
    } else {
        r.shifted_big_integer(-p)
    }
}

/// Compute an integer approximation to `log2(1+|n|)`: the least `k` with `2^k >= 1 + |n|`.
pub fn bound_log2(n: i32) -> (r: i32)
    requires
        n > i32::MIN,
    ensures
        r as int == log2_ceil((if n < 0 { -(n as int) } else { n as int }) as nat + 1),
{
    let abs_n: i64 = if n < 0 { -(n as i64) } else { n as i64 };
    let mut m: i64 = abs_n + 1;
    let mut k: i32 = 0;
    proof {
        lemma2_to64();
        lemma_log2_ceil_le(m as nat, 32);
    }
    while m > 1
        invariant
            1 <= m <= abs_n + 1,
            abs_n <= i32::MAX,
            0 <= k,
            k + log2_ceil(m as nat) == log2_ceil(abs_n as nat + 1),
            log2_ceil(abs_n as nat + 1) <= 32,
        decreases m,
    {
        m = (m + 1) / 2;
        k = k + 1;
    }
    k
}

/// `log2_ceil(m)` is at most `j` when `m <= 2^j`.
proof fn lemma_log2_ceil_le(m: nat, j: nat)
    requires
        m <= pow2(j),
    ensures
        log2_ceil(m) <= j,
    decreases j,
{
    lemma2_to64();
    if m > 1 {
        if j == 0 {
            assert(false);
        } else {
            lemma_pow2_unfold(j);
            lemma_log2_ceil_le(((m + 1) / 2) as nat, (j - 1) as nat);
        }
    }
}

/// `bound_log2` is the ceiling of `log2(1 + |n|)`: `2^k` reaches `m`, and `2^(k-1)` does not.
pub proof fn lemma_log2_ceil_bounds(m: nat)
    requires
        m >= 1,
    ensures
        pow2(log2_ceil(m)) >= m,
        m >= 2 ==> pow2((log2_ceil(m) - 1) as nat) < m,
    decreases m,
{
    lemma2_to64();
    if m >= 2 {
        let h = ((m + 1) / 2) as nat;
        lemma_log2_ceil_bounds(h);
        let k = log2_ceil(h);
        lemma_pow2_unfold(k + 1);
        if h >= 2 {
            lemma_pow2_unfold(k);
        }
    }
}


/// An operator with one argument.
#[derive(Clone, Copy, Debug, PartialEq, Eq, Structural)]
pub enum UnaryOp {
    Neg,
    Inverse,
    PrescaledCos,
    PrescaledExp,
    PrescaledLn,
    Sqrt,
}

/// An operator with two arguments.
#[derive(Clone, Copy, Debug, PartialEq, Eq, Structural)]
pub enum BinaryOp {
    Add,
    Mul,
}

/// The outcome of a computation, as integers.
pub enum Attempt {
    Success(int, int),
    NeedMorePrecision(int),
    Failed,
}

/// A computation that was attempted at a required level of precision.
#[derive(Clone, Debug, PartialEq)]
pub enum AttemptedComputation {
    /// The computation succeeded and we return a prescaled integer approximation.
    Success(BigInt, Precision),
    /// The computation failed because more precision was required from the arguments.
    NeedMorePrecision(Precision),
    /// The computation failed because it is impossible.
    Failed,
}

impl View for AttemptedComputation {
    type V = Attempt;

    open spec fn view(&self) -> Attempt {
        match self {
            AttemptedComputation::Success(n, p) => Attempt::Success(int_value(*n), *p as int),
            AttemptedComputation::NeedMorePrecision(p) => Attempt::NeedMorePrecision(*p as int),
            AttemptedComputation::Failed => Attempt::Failed,
        }
    }
}

/// The precision that a unary operator needs from its argument for an output at `out`.
pub open spec fn unary_needed(op: UnaryOp, out: int) -> int {
    match op {
        UnaryOp::Neg => out,
        UnaryOp::Inverse => out,
        UnaryOp::PrescaledCos => out - 3,
        UnaryOp::PrescaledExp => out - 3,
        UnaryOp::Sqrt => out * 2 - 2,
        UnaryOp::PrescaledLn => out - 3,
    }
}

/// `unary_needed` can be computed within `Precision`.
pub open spec fn unary_needed_fits(op: UnaryOp, out: int) -> bool {
    match op {
        UnaryOp::Sqrt => i32::MIN + 2 <= out * 2 <= i32::MAX,
        UnaryOp::PrescaledCos | UnaryOp::PrescaledExp | UnaryOp::PrescaledLn => out - 3 >= i32::MIN,
        _ => true,
    }
}

/// The precision that a binary operator needs from both arguments for an output at `out`.
pub open spec fn binary_needed(op: BinaryOp, out: int) -> int {
    match op {
        BinaryOp::Add => out - 2,
        BinaryOp::Mul => out * 2,
    }
}

/// `binary_needed` can be computed within `Precision`.
pub open spec fn binary_needed_fits(op: BinaryOp, out: int) -> bool {
    match op {
        BinaryOp::Add => out - 2 >= i32::MIN,
        BinaryOp::Mul => i32::MIN <= out * 2 <= i32::MAX,
    }
}

/// What a binary operator computes from its arguments `a1` and `a2` for an output at `p`.
pub open spec fn binary_spec(op: BinaryOp, a1: (int, int), a2: (int, int), p: int) -> Attempt {
    let rp = binary_needed(op, p);
    if a1.1 > rp || a2.1 > rp {
        Attempt::NeedMorePrecision(rp)
    } else {
        let v1 = spec_rescaled(a1, rp);
        let v2 = spec_rescaled(a2, rp);
        match op {
            BinaryOp::Add => Attempt::Success(spec_scale(v1 + v2, rp - p), p),
            BinaryOp::Mul => Attempt::Success(spec_scale(v1 * v2, 2 * rp - p), p),
        }
    }
}

/// The precision arithmetic of a binary operator on `a1` and `a2` for an output at `p` stays
/// within `Precision`: the needed precision, the rescaling of both arguments, and for a product
/// `2 * (2 * p) - p`.
pub open spec fn binary_fits(op: BinaryOp, a1: (int, int), a2: (int, int), p: int) -> bool {
    &&& binary_needed_fits(op, p)
    &&& rescale_fits(a1, binary_needed(op, p))
    &&& rescale_fits(a2, binary_needed(op, p))
    &&& op == BinaryOp::Mul ==> i32::MIN <= 4 * p <= i32::MAX
}

/// `v` at precision `p` is the integer `y` at precision `e` rounded to the nearest unit of
/// precision `p` (exactly `y` shifted when `e >= p`): `|v * 2^p - y * 2^e| <= 2^p / 2`.
pub open spec fn rounded_at(v: int, p: int, y: int, e: int) -> bool {
    if e >= p {
        v == y * pow2((e - p) as nat)
    } else {
        2 * iabs(v * pow2((p - e) as nat) - y) <= pow2((p - e) as nat)
    }
}

/// `y` at precision `e` rounded to `p` by `spec_scale`.
pub proof fn lemma_scale_rounds(y: int, e: int, p: int)
    ensures
        rounded_at(spec_scale(y, e - p), p, y, e),
{
    if e < p {
        crate::accuracy::lemma_round_error(y, (p - e) as nat);
        lemma_pow2_unfold((p - e) as nat);
    }
}

/// A sum gives the sum of its arguments, and a product the product of its arguments, rounded
/// to the nearest unit of the output precision, with its sign: for arguments known at the
/// precision the operator asks for, `a1.0 * 2^e + a2.0 * 2^e` (a sum at `e = p - 2`) and
/// `a1.0 * a2.0 * 2^(2e)` (a product at `e = 2 p`), each rounded to precision `p`.
pub proof fn lemma_binary_rounds(op: BinaryOp, a1: (int, int), a2: (int, int), p: int)
    requires
        a1.1 == binary_needed(op, p),
        a2.1 == binary_needed(op, p),
    ensures
        binary_spec(op, a1, a2, p) is Success,
        binary_spec(op, a1, a2, p)->Success_1 == p,
        op == BinaryOp::Add ==> rounded_at(binary_spec(op, a1, a2, p)->Success_0, p, a1.0 + a2.0, p - 2),
        op == BinaryOp::Mul ==> rounded_at(binary_spec(op, a1, a2, p)->Success_0, p, a1.0 * a2.0, 4 * p),
{
    let rp = binary_needed(op, p);
    crate::accuracy::lemma_scale_zero(a1.0);
    crate::accuracy::lemma_scale_zero(a2.0);
    assert(spec_rescaled(a1, rp) == a1.0);
    assert(spec_rescaled(a2, rp) == a2.0);
    match op {
        BinaryOp::Add => {
            lemma_scale_rounds(a1.0 + a2.0, p - 2, p);
        },
        BinaryOp::Mul => {
            assert(2 * rp - p == 4 * p - p);
            lemma_scale_rounds(a1.0 * a2.0, 4 * p, p);
        },
    }
}

impl BinaryOp {
    /// The sum or the product of two approximations at the output precision `p`: the exact sum
    /// or product of the arguments, rounded to the nearest unit of `p`, with its sign
    /// (`lemma_binary_rounds`).
    pub fn approximate_binary_op(
        &self,
        arg1: &PrescaledValue,
        arg2: &PrescaledValue,
        p: Precision,
    ) -> (r: AttemptedComputation)
        requires
            binary_fits(*self, arg1@, arg2@, p as int),
        ensures
            r@ == binary_spec(*self, arg1@, arg2@, p as int),
    {
        match self {
            BinaryOp::Add => {
                // We need p - 2 precision from both arguments.
                let required_precision = self.precision_needed(p);
                if let (Some(arg1), Some(arg2)) = (
                    arg1.clone().rescale(required_precision),
                    arg2.clone().rescale(required_precision),
                ) {
                    AttemptedComputation::Success(
                        scale(big_add(&arg1.0, &arg2.0), required_precision - p),
                        p,
                    )
                } else {
                    AttemptedComputation::NeedMorePrecision(required_precision)
                }
            },
            BinaryOp::Mul => {
                let required_precision = self.precision_needed(p);
                if let (Some(arg1), Some(arg2)) = (
                    arg1.clone().rescale(required_precision),
                    arg2.clone().rescale(required_precision),
                ) {
                    AttemptedComputation::Success(
                        scale(big_mul(&arg1.0, &arg2.0), 2 * required_precision - p),
                        p,
                    )
                } else {
                    AttemptedComputation::NeedMorePrecision(required_precision)
                }
            },
        }
    }

    /// Given the required out_precision, what precision is needed for the inputs?
    pub fn precision_needed(&self, out_precision: Precision) -> (r: Precision)
        requires
            binary_needed_fits(*self, out_precision as int),
        ensures
            r as int == binary_needed(*self, out_precision as int),
    {
        match self {
            BinaryOp::Add => out_precision - 2,
            BinaryOp::Mul => out_precision * 2,
        }
    }
}

impl UnaryOp {
    /// Given the required out_precision, what precision is needed for the input?
    pub fn precision_needed(&self, out_precision: Precision) -> (r: Precision)
        requires
            unary_needed_fits(*self, out_precision as int),
        ensures
            r as int == unary_needed(*self, out_precision as int),
    {
        match self {
            UnaryOp::Neg => out_precision,
            // This is a lie. We need the MSB of the argument, so we will probably require a recompute.
            UnaryOp::Inverse => out_precision,
            UnaryOp::PrescaledCos => out_precision - 3,
            // The argument is assumed to be < 0.5, which helps to bound our truncation error.
            UnaryOp::PrescaledExp => out_precision - 3,
            // For the bigint sqrt function, we want an even precision so that the result can be immediately returned as having precision p/2
            UnaryOp::Sqrt => out_precision * 2 - 2,
            UnaryOp::PrescaledLn => out_precision - 3,
        }
    }
}

/// `2^i <= 2^j` when `i <= j`.
pub proof fn lemma_pow2_monotone(i: nat, j: nat)
    requires
        i <= j,
    ensures
        pow2(i) <= pow2(j),
{
    if i < j {
        vstd::arithmetic::power2::lemma_pow2_strictly_increases(i, j);
    }
}

/// `bound_log2(2 * iterations)`: the extra bits that a series summed over `iterations`
/// terms works with. A series for an output at `p` works at precision `p - b - 4` and reads
/// its argument at precision `p - 3`; it stops at the first term below `2^b` in magnitude.
pub open spec fn series_bound(iterations: int) -> nat {
    log2_ceil((2 * iterations + 1) as nat)
}

/// The finest output precision at which the cosine series is summed: its term counter, twice
/// the number of terms, stays within `i32`.
pub const COS_PRECISION_BOUND: i32 = -0x3fff_ff00;

/// The finest output precision at which the exponential series is summed: its working
/// precision stays within `i32`.
pub const EXP_PRECISION_BOUND: i32 = -0x7fff_ff00;

/// The finest output precision at which the logarithm series is summed: twice the number of
/// iterations stays within `i32`.
pub const LN_PRECISION_BOUND: i32 = -0x3fff_ff00;

/// What the cosine operator computes for an output at `p` from the argument `arg`.
pub open spec fn cos_spec(arg: (int, int), p: int) -> Attempt {
    if p >= 1 {
        Attempt::Success(1, p)
    } else {
        let b = series_bound((-p) / 2 + 2);
        let calc = p - b - 4;
        let q = p - 3;
        if arg.1 > q {
            Attempt::NeedMorePrecision(q)
        } else {
            let a = spec_rescaled(arg, q);
            if iabs(a) > pow2((-q) as nat) {
                Attempt::Failed
            } else {
                let t0 = pow2((-calc) as nat) as int;
                let terms = |k: nat| cos_term(a, q, t0, k);
                let k = first_stop(terms, pow2(b) as int);
                Attempt::Success(spec_scale(cos_sum(a, q, t0, k), calc - p), p)
            }
        }
    }
}

/// Compute cosine of |c| < 1, using a Taylor series expansion.
/// An argument whose approximation exceeds 1 in magnitude cannot stand for a value in the
/// domain, and gives `Failed`. The result lies within one unit of the range
/// `[1 - x^2 / 2, 1 - x^2 / 2 + x^4 / 24]` that holds `cos x` (`lemma_cos_within_taylor`).
fn approximate_cos(arg: &PrescaledValue, p: Precision) -> (r: AttemptedComputation)
    requires
        p >= 1 || p >= COS_PRECISION_BOUND,
        unary_domain(UnaryOp::PrescaledCos, arg@, p as int),
    ensures
        r@ == cos_spec(arg@, p as int),
{
    if p >= 1 {
        // At a precision of 1 or more the result is 1, unscaled, whatever the argument.
        return AttemptedComputation::Success(big_from_i64(1), p);
    }
    let iterations_needed = -p / 2 + 2;
    let b = bound_log2(2 * iterations_needed);
    proof {
        lemma2_to64();
        lemma_log2_ceil_le((2 * iterations_needed + 1) as nat, 32);
        assert(b as int == series_bound((-p) / 2 + 2));
    }
    //  Claim: each intermediate term is accurate
    //  to 2*2^calc_precision.
    //  Total rounding error in series computation is
    //  2*iterations_needed*2^calc_precision,
    //  exclusive of error in op.
    let calc_precision = p - b - 4; // for error in op, truncation.
    let op_prec = p - 3;
    let one = big_from_i64(1);
    if let Some(PrescaledValue(op_appr, _)) = arg.clone().rescale(op_prec) {
        let ghost a = int_value(op_appr);
        let ghost q = op_prec as int;
        let ghost t0 = pow2((-calc_precision) as nat) as int;
        let ghost max = pow2(b as nat) as int;
        // Error in argument results in error of < 1/4 ulp.
        // Cumulative arithmetic rounding error is < 1/16 ulp.
        // Series truncation error < 1/16 ulp.
        // Final rounding error is <= 1/2 ulp.
        // Thus final error is < 1 ulp.
        let max_trunc_error = big_shl(&one, p - 4 - calc_precision);
        let mut n: i32 = 0;
        let mut current_term = big_shl(&one, -calc_precision);
        let mut current_sum = current_term.clone();
        let ghost mut k: nat = 0;
        proof {
            lemma_pow2_pos(b as nat);
            lemma_pow2_pos(0);
            assert(iabs(t0) * pow2(0) <= t0);
        }
        while big_gt(&big_abs(&current_term), &max_trunc_error)
            invariant
                q < 0,
                q == op_prec,
                iabs(a) <= pow2((-q) as nat),
                int_value(op_appr) == a,
                int_value(max_trunc_error) == max,
                max >= 1,
                t0 == pow2((-calc_precision) as nat),
                -calc_precision <= -COS_PRECISION_BOUND + 40,
                -calc_precision > 0,
                n == 2 * k,
                int_value(current_term) == cos_term(a, q, t0, k),
                int_value(current_sum) == cos_sum(a, q, t0, k),
                forall|j: nat| j < k ==> iabs(#[trigger] cos_term(a, q, t0, j)) > max,
                iabs(cos_term(a, q, t0, k)) * pow2(k) <= t0,
            decreases iabs(int_value(current_term)),
        {
            proof {
                lemma_pow2_pos(k);
                if k >= -calc_precision {
                    lemma_pow2_monotone((-calc_precision) as nat, k);
                    assert(iabs(cos_term(a, q, t0, k)) * pow2(k) >= 2 * pow2(k)) by (nonlinear_arith)
                        requires
                            iabs(cos_term(a, q, t0, k)) >= 2,
                            pow2(k) > 0,
                    ;
                }
                lemma_cos_term_halves(a, q, t0, k);
                lemma_pow2_unfold(k + 1);
                assert(iabs(cos_term(a, q, t0, k + 1)) * pow2(k + 1) <= t0) by (nonlinear_arith)
                    requires
                        2 * iabs(cos_term(a, q, t0, k + 1)) <= iabs(cos_term(a, q, t0, k)),
                        iabs(cos_term(a, q, t0, k)) * pow2(k) <= t0,
                        pow2(k + 1) == 2 * pow2(k),
                        pow2(k) > 0,
                ;
            }
            n += 2;
            /* current_term = - current_term * op * op / n * (n - 1)   */
            current_term = scale(big_mul(&current_term, &op_appr), op_prec);
            current_term = scale(big_mul(&current_term, &op_appr), op_prec);
            let divisor = big_mul(&big_from_i64((-n) as i64), &big_from_i64((n - 1) as i64));
            proof {
                assert(int_value(divisor) == (-(2 * (k + 1))) * (2 * (k + 1) - 1));
                assert((-(2 * (k + 1))) * (2 * (k + 1) - 1) != 0) by (nonlinear_arith)
                    requires
                        k >= 0,
                ;
            }
            current_term = big_div(&current_term, &divisor);
            current_sum = big_add(&current_sum, &current_term);
            proof {
                k = k + 1;
            }
        }
        proof {
            let terms = |j: nat| cos_term(a, q, t0, j);
            assert(stops_at(terms, max, k));
            lemma_first_stop(terms, max, k);
        }
        let result = scale(current_sum, calc_precision - p);
        AttemptedComputation::Success(result, p)
    } else {
        // We need more precision from our argument.
        AttemptedComputation::NeedMorePrecision(op_prec)
    }
}

/// What the exponential operator computes for an output at `p` from the argument `arg`.
pub open spec fn exp_spec(arg: (int, int), p: int) -> Attempt {
    if p >= 1 {
        Attempt::Success(0, p)
    } else {
        let b = series_bound((-p) / 2 + 2);
        let calc = p - b - 4;
        let q = p - 3;
        if arg.1 > q {
            Attempt::NeedMorePrecision(q)
        } else {
            let a = spec_rescaled(arg, q);
            if iabs(a) >= pow2((-q) as nat) {
                Attempt::Failed
            } else {
                let t0 = pow2((-calc) as nat) as int;
                let terms = |k: nat| exp_term(a, q, t0, k);
                let k = first_stop(terms, pow2(b) as int);
                Attempt::Success(spec_scale(exp_sum(a, q, t0, k), calc - p), p)
            }
        }
    }
}

/// Compute exp of an argument assumed < 0.5, using a Taylor series expansion.
/// An argument whose approximation reaches 1 in magnitude is outside the domain
/// on which the series is summed, and gives `Failed`. The result lies within `x^2` and one unit
/// of `1 + x`, as `e^x` does (`lemma_exp_within_taylor`).
fn approximate_exp(arg: &PrescaledValue, p: Precision) -> (r: AttemptedComputation)
    requires
        p >= 1 || p >= EXP_PRECISION_BOUND,
        unary_domain(UnaryOp::PrescaledExp, arg@, p as int),
    ensures
        r@ == exp_spec(arg@, p as int),
{
    // The argument is assumed to be below 0.5 in magnitude; the series is summed for any argument below 1.
    if p >= 1 {
        return AttemptedComputation::Success(big_from_i64(0), p);
    }
    let iterations_needed = -p / 2 + 2;
    let b = bound_log2(2 * iterations_needed);
    proof {
        lemma2_to64();
        lemma_log2_ceil_le((2 * iterations_needed + 1) as nat, 32);
        assert(b as int == series_bound((-p) / 2 + 2));
    }
    //  Claim: each intermediate term is accurate
    //  to 2*2^calc_precision.
    //  Total rounding error in series computation is
    //  2*iterations_needed*2^calc_precision,
    //  exclusive of error in op.
    let calc_precision = p - b - 4; // for error in op, truncation.
    let op_prec = p - 3;
    let one = big_from_i64(1);
    if let Some(PrescaledValue(op_appr, _)) = arg.clone().rescale(op_prec) {
        let ghost a = int_value(op_appr);
        let ghost q = op_prec as int;
        let ghost t0 = pow2((-calc_precision) as nat) as int;
        let ghost max = pow2(b as nat) as int;
        // Error in argument results in error of < 3/8 ulp.
        // Sum of term eval. rounding error is < 1/16 ulp.
        // Series truncation error < 1/16 ulp.
        // Final rounding error is <= 1/2 ulp.
        // Thus final error is < 1 ulp.
        let scaled_1 = big_shl(&one, -calc_precision);
        let max_trunc_error = big_shl(&one, p - 4 - calc_precision);
        let mut current_term = scaled_1.clone();
        let mut sum = scaled_1;
        let mut n = big_from_i64(0);
        let ghost mut k: nat = 0;
        proof {
            lemma_pow2_pos(b as nat);
        }
        while big_gt(&big_abs(&current_term), &max_trunc_error)
            invariant
                q < 0,
                q == op_prec,
                iabs(a) < pow2((-q) as nat),
                int_value(op_appr) == a,
                int_value(max_trunc_error) == max,
                max >= 1,
                int_value(n) == k,
                int_value(one) == 1,
                int_value(current_term) == exp_term(a, q, t0, k),
                int_value(sum) == exp_sum(a, q, t0, k),
                forall|j: nat| j < k ==> iabs(#[trigger] exp_term(a, q, t0, j)) > max,
            decreases 2 * iabs(int_value(current_term)) + (if k == 0 { 1int } else { 0 }),
        {
            proof {
                lemma_exp_term_shrinks(a, q, t0, k);
            }
            n = big_add(&n, &one);
            current_term = big_div(&scale(big_mul(&current_term, &op_appr), op_prec), &n);
            sum = big_add(&sum, &current_term);
            proof {
                k = k + 1;
            }
        }
        proof {
            let terms = |j: nat| exp_term(a, q, t0, j);
            assert(stops_at(terms, max, k));
            lemma_first_stop(terms, max, k);
        }
        let result = scale(sum, calc_precision - p);
        AttemptedComputation::Success(result, p)
    } else {
        // We need more precision from our argument.
        AttemptedComputation::NeedMorePrecision(op_prec)
    }
}

/// What the logarithm operator `ln(1 + x)` computes for an output at `p` from the argument `arg`.
pub open spec fn ln_spec(arg: (int, int), p: int) -> Attempt {
    if p >= 0 {
        Attempt::Success(0, p)
    } else {
        let b = series_bound(-p);
        let calc = p - b - 4;
        let q = p - 3;
        if arg.1 > q {
            Attempt::NeedMorePrecision(q)
        } else {
            let a = spec_rescaled(arg, q);
            if 2 * iabs(a) > pow2((-q) as nat) {
                Attempt::Failed
            } else {
                let x0 = spec_scale(a, q - calc);
                let terms = |k: nat| ln_term(a, q, x0, k);
                let k = first_stop(terms, pow2(b) as int);
                Attempt::Success(spec_scale(ln_sum(a, q, x0, k), calc - p), p)
            }
        }
    }
}

/// Compute an approximation of ln(1+x) to precision p.
/// This assumes |x| < 1/2.
/// It uses a Taylor series expansion.
/// An argument whose approximation exceeds 1/2 in magnitude is outside the domain
/// on which the series is summed, and gives `Failed`. The result lies within `|x|^3` and one
/// unit of `x - x^2 / 2`, as `ln(1 + x)` does (`lemma_ln_within_taylor`).
fn approximate_ln(arg: &PrescaledValue, p: Precision) -> (r: AttemptedComputation)
    requires
        p >= 0 || p >= LN_PRECISION_BOUND,
        unary_domain(UnaryOp::PrescaledLn, arg@, p as int),
    ensures
        r@ == ln_spec(arg@, p as int),
{
    // Unfortunately there appears to be no way to take
    // advantage of old information.
    // Note: this is known to be a bad algorithm for
    // floating point.  Unfortunately, other alternatives
    // appear to require precomputed tabular information.
    if p >= 0 {
        return AttemptedComputation::Success(big_from_i64(0), p);
    }
    let iterations_needed = -p;
    let b = bound_log2(2 * iterations_needed);
    proof {
        lemma2_to64();
        lemma_log2_ceil_le((2 * iterations_needed + 1) as nat, 32);
        assert(b as int == series_bound(-p));
    }
    let calc_precision = p - b - 4;
    let op_prec = p - 3;
    let one = big_from_i64(1);
    if let Some(PrescaledValue(op_appr, _)) = arg.clone().rescale(op_prec) {
        let ghost a = int_value(op_appr);
        let ghost q = op_prec as int;
        let ghost kk = (-op_prec) as nat;
        let ghost max = pow2(b as nat) as int;
        proof {
            lemma_pow2_unfold(kk);
        }
        // Error in argument results in error of < 3/8 ulp.
        let mut x_nth = scale(op_appr.clone(), op_prec - calc_precision);
        let ghost x0 = int_value(x_nth);
        let mut current_term = x_nth.clone();
        let mut sum = current_term.clone();

        let mut n: i32 = 1;
        let mut sign: i32 = 1;

        let max_trunc_error = big_shl(&one, p - 4 - calc_precision);
        let ghost mut k: nat = 0;
        proof {
            lemma_pow2_pos(b as nat);
            lemma_pow2_pos(0);
            let e = (b + 1) as nat;
            lemma_pow2_pos(e);
            assert(x0 == a * pow2(e));
            lemma_pow2_adds((kk - 1) as nat, e);
            assert(iabs(x0) <= pow2((kk + b) as nat)) by (nonlinear_arith)
                requires
                    x0 == a * pow2(e),
                    iabs(a) <= pow2((kk - 1) as nat),
                    pow2((kk + b) as nat) == pow2((kk - 1) as nat) * pow2(e),
                    pow2(e) > 0,
            ;
            assert((iabs(x0) - 1) * pow2(0) <= iabs(x0));
        }
        while big_gt(&big_abs(&current_term), &max_trunc_error)
            invariant
                q < 0,
                q == op_prec,
                kk == -q,
                kk == 3 - p,
                p >= LN_PRECISION_BOUND,
                0 <= b <= 32,
                2 * iabs(a) <= pow2(kk),
                int_value(op_appr) == a,
                int_value(max_trunc_error) == max,
                max >= 1,
                iabs(x0) <= pow2((kk + b) as nat),
                n == k + 1,
                sign == (if k % 2 == 1 { -1int } else { 1int }),
                int_value(x_nth) == ln_power(a, q, x0, k),
                int_value(current_term) == ln_term(a, q, x0, k),
                int_value(sum) == ln_sum(a, q, x0, k),
                forall|j: nat| j < k ==> iabs(#[trigger] ln_term(a, q, x0, j)) > max,
                (iabs(ln_power(a, q, x0, k)) - 1) * pow2(k) <= iabs(x0),
            decreases kk + b + 1 - k,
        {
            proof {
                let xk = ln_power(a, q, x0, k);
                lemma_pow2_pos(k);
                if k > 0 {
                    lemma_trunc_div_bound(xk, (k + 1) * (if k % 2 == 1 { -1int } else { 1int }));
                }
                assert(iabs(xk) >= 2);
                if k > kk + b {
                    vstd::arithmetic::power2::lemma_pow2_strictly_increases((kk + b) as nat, k);
                    assert((iabs(xk) - 1) * pow2(k) >= pow2(k)) by (nonlinear_arith)
                        requires
                            iabs(xk) >= 2,
                            pow2(k) > 0,
                    ;
                }
                assert(k <= kk + b);
                lemma_ln_power_halves(a, q, x0, k);
                lemma_pow2_unfold(k + 1);
                let xk1 = ln_power(a, q, x0, k + 1);
                assert((iabs(xk1) - 1) * pow2(k + 1) <= iabs(x0)) by (nonlinear_arith)
                    requires
                        iabs(xk1) <= (iabs(xk) + 1) / 2,
                        (iabs(xk) - 1) * pow2(k) <= iabs(x0),
                        pow2(k + 1) == 2 * pow2(k),
                        pow2(k) > 0,
                        iabs(xk) >= 2,
                ;
            }
            n += 1;
            sign = -sign;
            x_nth = scale(big_mul(&x_nth, &op_appr), op_prec);
            let divisor = big_from_i64((n * sign) as i64);
            current_term = big_div(&x_nth, &divisor);
            sum = big_add(&sum, &current_term);
            proof {
                k = k + 1;
            }
        }
        proof {
            let terms = |j: nat| ln_term(a, q, x0, j);
            assert(stops_at(terms, max, k));
            lemma_first_stop(terms, max, k);
        }
        let result = scale(sum, calc_precision - p);
        AttemptedComputation::Success(result, p)
    } else {
        // We need more precision from our argument.
        AttemptedComputation::NeedMorePrecision(op_prec)
    }
}

/// `x` is a value of `i32`.
pub open spec fn fits_i32(x: int) -> bool {
    i32::MIN <= x <= i32::MAX
}

/// The precision arithmetic of the inverse of `arg` for an output at `p` stays within
/// `Precision`: for a zero argument the request for more precision, otherwise the most
/// significant bit and the precisions derived from it, and the rescaling of the argument.
pub open spec fn inverse_fits(arg: (int, int), p: int) -> bool {
    if arg.0 == 0 {
        (p < 0 ==> fits_i32(3 * p)) && arg.1 > i32::MIN
    } else {
        let m = spec_msb(arg);
        let pn = 2 * m + p - 4;
        &&& msb_fits(arg)
        &&& fits_i32(1 - m)
        &&& fits_i32(1 - m - p + 3)
        &&& fits_i32(pn)
        &&& p > i32::MIN
        &&& fits_i32(-p - pn)
        &&& rescale_fits(arg, pn)
    }
}

/// What the inverse operator computes for an output at `p` from the argument `arg`.
pub open spec fn inverse_spec(arg: (int, int), p: int) -> Attempt {
    if arg.0 == 0 {
        let h = trunc_div((if p < 0 { p } else { 0 }) * 3, 2) - 16;
        Attempt::NeedMorePrecision(if h < arg.1 { h } else { arg.1 - 1 })
    } else {
        let msb = spec_msb(arg);
        let prec_needed = msb - ((1 - msb) - p + 3);
        let log_scale_factor = -p - prec_needed;
        if log_scale_factor < 0 {
            Attempt::Success(0, p)
        } else if arg.1 > prec_needed {
            Attempt::NeedMorePrecision(prec_needed)
        } else {
            let d = spec_rescaled(arg, prec_needed);
            let res = trunc_div(pow2(log_scale_factor as nat) + iabs(d) / 2, iabs(d));
            Attempt::Success(if d < 0 { -res } else { res }, p)
        }
    }
}

/// A value at least `2^(-s)` in magnitude does not round to zero when scaled by `s <= 0`.
proof fn lemma_scale_nonzero(v: int, s: int)
    requires
        s <= 0,
        iabs(v) >= pow2((-s) as nat),
    ensures
        spec_scale(v, s) != 0,
{
    lemma2_to64();
    if s < 0 {
        let k = (-s) as nat;
        lemma_scale_rounds_to_nearest(v, s);
        lemma_pow2_unfold(k);
        lemma_pow2_pos((k - 1) as nat);
        let d = pow2(k) as int;
        let h = pow2((k - 1) as nat) as int;
        if v > 0 {
            vstd::arithmetic::div_mod::lemma_div_is_ordered(d, v + h, d);
            vstd::arithmetic::div_mod::lemma_div_by_self(d);
        } else {
            assert(v + h < 0);
            vstd::arithmetic::div_mod::lemma_div_is_ordered(v + h, -1, d);
            assert(-1 / d == -1) by {
                vstd::arithmetic::div_mod::lemma_fundamental_div_mod(-1, d);
                vstd::arithmetic::div_mod::lemma_fundamental_div_mod_converse_div(-1, d, -1, d - 1);
            }
        }
    } else {
        assert(spec_scale(v, s) == v * pow2(0));
    }
}

fn approximate_inverse(arg: &PrescaledValue, p: Precision) -> (r: AttemptedComputation)
    requires
        inverse_fits(arg@, p as int),
    ensures
        r@ == inverse_spec(arg@, p as int),
{
    if let Some(msb) = arg.msb() {
        let inv_msd = 1 - msb;
        let digits_needed = inv_msd - p + 3;
        let prec_needed = msb - digits_needed;
        let log_scale_factor = -p - prec_needed;

        if log_scale_factor < 0 {
            return AttemptedComputation::Success(big_from_i64(0), p);
        }

        let one = big_from_i64(1);
        let dividend = big_shl(&one, log_scale_factor);
        if !arg.meets_precision(prec_needed) {
            return AttemptedComputation::NeedMorePrecision(prec_needed);
        }
        // Rescaling succeeds because the argument meets the needed precision.
        if let Some(rescaled) = arg.clone().rescale(prec_needed) {
            let scaled_divisor = rescaled.0;
            let abs_scaled_divisor = big_abs(&scaled_divisor);
            proof {
                let v = int_value(arg.0);
                let bl = bit_len(iabs(v) as nat);
                lemma_bit_len_bounds(iabs(v) as nat);
                lemma_pow2_monotone((prec_needed - arg.1) as nat, (bl - 1) as nat);
                lemma_scale_nonzero(v, arg.1 - prec_needed);
            }
            let adj_dividend = big_add(&dividend, &big_shr(&abs_scaled_divisor, 1));
            let result = big_div(&adj_dividend, &abs_scaled_divisor);
            proof {
                lemma2_to64();
            }
            let result = if big_is_negative(&scaled_divisor) {
                big_neg(&result)
            } else {
                result
            };
            AttemptedComputation::Success(result, p)
        } else {
            AttemptedComputation::NeedMorePrecision(prec_needed)
        }
    } else {
        // We cannot find the Most Significant Bit. Request a higher precision: one that grows
        // with the magnitude of the output precision, and always finer than the argument's.
        let smaller = if p < 0 { p } else { 0 };
        let request = (smaller * 3) / 2 - 16;
        if request < arg.1 {
            AttemptedComputation::NeedMorePrecision(request)
        } else {
            AttemptedComputation::NeedMorePrecision(arg.1 - 1)
        }
    }
}

/// What the square root operator computes for an output at `p` from the argument `arg`.
pub open spec fn sqrt_spec(arg: (int, int), p: int) -> Attempt {
    let rp = p * 2 - 2;
    if arg.1 > rp {
        Attempt::NeedMorePrecision(rp)
    } else {
        let x = spec_rescaled(arg, rp);
        if x < 0 {
            Attempt::Failed
        } else {
            Attempt::Success(spec_scale(isqrt(x), -1), p)
        }
    }
}

/// The square root of `arg`; the root of a negative approximation gives `Failed`. The result is
/// the root rounded to the output precision (`lemma_sqrt_brackets`).
fn approximate_sqrt(op: &UnaryOp, arg: &PrescaledValue, p: Precision) -> (r: AttemptedComputation)
    requires
        *op == UnaryOp::Sqrt,
        unary_needed_fits(UnaryOp::Sqrt, p as int),
        rescale_fits(arg@, 2 * p - 2),
        unary_domain(UnaryOp::Sqrt, arg@, p as int),
    ensures
        r@ == sqrt_spec(arg@, p as int),
{
    // We want to compute the sqrt of arg, which is approximately sqrt(arg.0) * 2^(-arg.1/2).
    // To get a result with precision p, we need to compute sqrt(arg.0) with precision p + arg.1/2.
    let required_arg_precision = op.precision_needed(p);
    if let Some(rescaled_arg) = arg.clone().rescale(required_arg_precision) {
        let approx_sqrt = big_sqrt(&rescaled_arg.0);
        proof {
            let x = int_value(rescaled_arg.0);
            lemma_isqrt_unique(x, int_value(approx_sqrt), isqrt(x));
        }
        AttemptedComputation::Success(scale(approx_sqrt, -1), required_arg_precision / 2 + 1)
    } else {
        AttemptedComputation::NeedMorePrecision(required_arg_precision)
    }
}

/// What a unary operator computes for an output at `p` from its argument `arg`.
pub open spec fn unary_spec(op: UnaryOp, arg: (int, int), p: int) -> Attempt {
    match op {
        UnaryOp::Neg => Attempt::Success(-arg.0, p),
        UnaryOp::Inverse => inverse_spec(arg, p),
        UnaryOp::PrescaledCos => cos_spec(arg, p),
        UnaryOp::PrescaledExp => exp_spec(arg, p),
        UnaryOp::PrescaledLn => ln_spec(arg, p),
        UnaryOp::Sqrt => sqrt_spec(arg, p),
    }
}

/// The preconditions of a unary operator on `arg` for an output at `p`.
pub open spec fn unary_fits(op: UnaryOp, arg: (int, int), p: int) -> bool {
    unary_arith_fits(op, arg, p) && unary_domain(op, arg, p)
}

/// The documented domains of the square root (`x >= 0`), the cosine (`|x| < 1`), the
/// exponential and `ln(1 + x)` (`|x| < 1/2`), read on the argument's approximation at the
/// precision the operator reads it: not negative, at most 1, below 1 and at most 1/2 in
/// magnitude. An argument not yet known at that precision is in the domain: the operator asks
/// for more precision first.
pub open spec fn unary_domain(op: UnaryOp, arg: (int, int), p: int) -> bool {
    match op {
        UnaryOp::Sqrt => arg.1 > p * 2 - 2 || spec_rescaled(arg, p * 2 - 2) >= 0,
        UnaryOp::PrescaledCos => p >= 1 || arg.1 > p - 3 || iabs(spec_rescaled(arg, p - 3)) <= pow2(
            (-(p - 3)) as nat,
        ),
        UnaryOp::PrescaledExp => p >= 1 || arg.1 > p - 3 || iabs(spec_rescaled(arg, p - 3)) < pow2(
            (-(p - 3)) as nat,
        ),
        UnaryOp::PrescaledLn => p >= 0 || arg.1 > p - 3 || 2 * iabs(spec_rescaled(arg, p - 3)) <= pow2(
            (-(p - 3)) as nat,
        ),
        _ => true,
    }
}

/// The precision arithmetic of a unary operator on `arg` for an output at `p` stays within
/// `Precision` (for the series: their counters and working precisions stay within `i32`).
pub open spec fn unary_arith_fits(op: UnaryOp, arg: (int, int), p: int) -> bool {
    match op {
        UnaryOp::Neg => true,
        UnaryOp::Inverse => inverse_fits(arg, p),
        UnaryOp::PrescaledCos => p >= 1 || p >= COS_PRECISION_BOUND,
        UnaryOp::PrescaledExp => p >= 1 || p >= EXP_PRECISION_BOUND,
        UnaryOp::PrescaledLn => p >= 0 || p >= LN_PRECISION_BOUND,
        UnaryOp::Sqrt => unary_needed_fits(op, p) && rescale_fits(arg, 2 * p - 2),
    }
}

impl UnaryOp {
    /// Whether the argument's approximation lies in the documented domain of the operator,
    /// as `unary_domain` reads it.
    pub fn argument_in_domain(&self, arg: &PrescaledValue, p: Precision) -> (r: bool)
        requires
            unary_arith_fits(*self, arg@, p as int),
        ensures
            r == unary_domain(*self, arg@, p as int),
    {
        let one = big_from_i64(1);
        match self {
            UnaryOp::Sqrt => {
                let rp = self.precision_needed(p);
                match arg.clone().rescale(rp) {
                    Some(r) => !big_is_negative(&r.0),
                    None => true,
                }
            },
            UnaryOp::PrescaledCos | UnaryOp::PrescaledExp | UnaryOp::PrescaledLn => {
                if p >= 1 || (*self == UnaryOp::PrescaledLn && p >= 0) {
                    return true;
                }
                let q = p - 3;
                match arg.clone().rescale(q) {
                    Some(r) => {
                        let a = big_abs(&r.0);
                        let domain = big_shl(&one, -q);
                        if *self == UnaryOp::PrescaledCos {
                            !big_gt(&a, &domain)
                        } else if *self == UnaryOp::PrescaledExp {
                            big_gt(&domain, &a)
                        } else {
                            let half = big_shl(&one, -q - 1);
                            proof {
                                lemma_pow2_unfold((-q) as nat);
                            }
                            !big_gt(&a, &half)
                        }
                    },
                    None => true,
                }
            },
            _ => true,
        }
    }

    /// Whether `approximate_unary_op` may be called on `arg` for an output at `p`: its precision
    /// arithmetic fits in `Precision` and the argument lies in the operator's domain.
    pub fn argument_fits(&self, arg: &PrescaledValue, p: Precision) -> (r: bool)
        ensures
            r == unary_fits(*self, arg@, p as int),
    {
        let arith = match self {
            UnaryOp::Neg => true,
            UnaryOp::Inverse => inverse_arg_fits(arg, p),
            UnaryOp::PrescaledCos => p >= 1 || p >= COS_PRECISION_BOUND,
            UnaryOp::PrescaledExp => p >= 1 || p >= EXP_PRECISION_BOUND,
            UnaryOp::PrescaledLn => p >= 0 || p >= LN_PRECISION_BOUND,
            UnaryOp::Sqrt => sqrt_arg_fits(arg, p),
        };
        arith && self.argument_in_domain(arg, p)
    }

    pub fn approximate_unary_op(&self, arg: &PrescaledValue, p: Precision) -> (r: AttemptedComputation)
        requires
            unary_fits(*self, arg@, p as int),
        ensures
            r@ == unary_spec(*self, arg@, p as int),
    {
        match self {
            UnaryOp::Neg => AttemptedComputation::Success(big_neg(&arg.0), p),
            UnaryOp::Inverse => approximate_inverse(arg, p),
            UnaryOp::PrescaledCos => approximate_cos(arg, p),
            UnaryOp::PrescaledExp => approximate_exp(arg, p),
            UnaryOp::PrescaledLn => approximate_ln(arg, p),
            UnaryOp::Sqrt => approximate_sqrt(self, arg, p),
        }
    }
}

/// Whether the inverse of `arg` for an output at `p` keeps its precision arithmetic within
/// `Precision`.
pub fn inverse_arg_fits(arg: &PrescaledValue, p: Precision) -> (r: bool)
    ensures
        r == inverse_fits(arg@, p as int),
{
    let lo = i32::MIN as i64;
    let hi = i32::MAX as i64;
    let pp = p as i64;
    let e = arg.1 as i64;
    if big_is_zero(&arg.0) {
        return (pp >= 0 || 3 * pp >= lo) && e > lo;
    }
    let bits = big_bits(&arg.0);
    if bits > 0x7fff_ffff {
        return false;
    }
    let bl = bits as i64;
    let m = bl + e - 1;
    if !(bl + e <= hi && m >= lo) {
        return false;
    }
    let pn = 2 * m + pp - 4;
    lo <= 1 - m && 1 - m <= hi && lo <= 1 - m - pp + 3 && 1 - m - pp + 3 <= hi && lo <= pn
        && pn <= hi && pp > lo && lo <= -pp - pn && -pp - pn <= hi && (pn <= e || e - pn >= lo)
}

/// Whether a binary operator on `arg1` and `arg2` keeps its precision
/// arithmetic within `Precision` for an output at `p`.
pub fn binary_args_fit(op: BinaryOp, arg1: &PrescaledValue, arg2: &PrescaledValue, p: Precision) -> (r: bool)
    ensures
        r == binary_fits(op, arg1@, arg2@, p as int),
{
    let lo = i32::MIN as i64;
    let hi = i32::MAX as i64;
    let pp = p as i64;
    let rp = match op {
        BinaryOp::Add => pp - 2,
        BinaryOp::Mul => pp * 2,
    };
    let e1 = arg1.1 as i64;
    let e2 = arg2.1 as i64;
    let needed_ok = lo <= rp && rp <= hi;
    let mul_ok = match op {
        BinaryOp::Add => true,
        BinaryOp::Mul => lo <= 4 * pp && 4 * pp <= hi,
    };
    needed_ok && mul_ok && (rp <= e1 || e1 - rp >= lo) && (rp <= e2 || e2 - rp >= lo)
}

/// Whether the square root of `arg` keeps its precision arithmetic within `Precision` for an
/// output at `p`.
pub fn sqrt_arg_fits(arg: &PrescaledValue, p: Precision) -> (r: bool)
    ensures
        r == (unary_needed_fits(UnaryOp::Sqrt, p as int) && rescale_fits(arg@, 2 * p - 2)),
{
    let lo = i32::MIN as i64;
    let hi = i32::MAX as i64;
    let q = 2 * (p as i64);
    let e = arg.1 as i64;
    lo + 2 <= q && q <= hi && (q - 2 <= e || e - (q - 2) >= lo)
}

/// On an argument in its domain, a unary operator never fails.
pub proof fn lemma_no_failure_in_domain(u: UnaryOp, a: (int, int), p: int)
    requires
        unary_domain(u, a, p),
    ensures
        !(unary_spec(u, a, p) is Failed),
{
}

/// Sums and products do not depend on the order of their arguments.
pub proof fn lemma_binary_commutes(b: BinaryOp, a1: (int, int), a2: (int, int), p: int)
    ensures
        binary_spec(b, a1, a2, p) == binary_spec(b, a2, a1, p),
{
    let rp = binary_needed(b, p);
    let v1 = spec_rescaled(a1, rp);
    let v2 = spec_rescaled(a2, rp);
    assert(v1 * v2 == v2 * v1) by (nonlinear_arith);
}

/// A binary operator never fails.
pub proof fn lemma_binary_never_fails(b: BinaryOp, a1: (int, int), a2: (int, int), p: int)
    ensures
        !(binary_spec(b, a1, a2, p) is Failed),
{
}

/// A unary operator that asks for more precision asks for strictly more than its argument has.
pub proof fn lemma_requests_are_finer(u: UnaryOp, a: (int, int), p: int)
    ensures
        unary_spec(u, a, p) matches Attempt::NeedMorePrecision(q) ==> q < a.1,
{
}

/// An operator succeeds only at the precision it was asked for.
pub proof fn lemma_success_at_requested_precision(u: UnaryOp, b: BinaryOp, a1: (int, int), a2: (int, int), p: int)
    ensures
        unary_spec(u, a1, p) matches Attempt::Success(_, q) ==> q == p,
        binary_spec(b, a1, a2, p) matches Attempt::Success(_, q) ==> q == p,
{
}

/// Arguments that meet the precision `precision_needed` asks for are enough: a binary
/// operator then succeeds, and the square root and the series operators do not ask for
/// more precision. (The inverse decides what it needs from the value of its argument.)
pub proof fn lemma_needed_precision_suffices(u: UnaryOp, b: BinaryOp, a1: (int, int), a2: (int, int), p: int)
    ensures
        a1.1 <= binary_needed(b, p) && a2.1 <= binary_needed(b, p) ==> binary_spec(b, a1, a2, p) is Success,
        u != UnaryOp::Inverse && a1.1 <= unary_needed(u, p) ==> !(unary_spec(u, a1, p) is NeedMorePrecision),
{
}

} // verus!
