use num::BigInt;
use stack_computable::approximate::{
    binary_args_fit, inverse_arg_fits, sqrt_arg_fits,
    bound_log2, ratio, scale, shift, AttemptedComputation, BinaryOp, UnaryOp,
};
use stack_computable::prescaled_value::{IntoPrescaledValue, PrescaledValue};
use stack_computable::rational::Rational;
use stack_computable::stack_computable::{ApproximationError, OpStack, StackComputable};

fn big(v: i64) -> BigInt {
    BigInt::from(v)
}

fn pv(v: i64, p: i32) -> PrescaledValue {
    PrescaledValue(big(v), p)
}

fn frac(n: i64, d: u64) -> Rational {
    Rational::fraction(n, d).unwrap()
}

#[test]
fn scale_doc_examples() {
    assert_eq!(scale(big(10), 2), big(40));
    assert_eq!(scale(big(10), -2), big(3));
}

#[test]
fn scale_rounds_half_up() {
    // 5 / 2 = 2.5 rounds to 3; -5 / 2 = -2.5 rounds to -2; -10 / 4 = -2.5 rounds to -2.
    assert_eq!(scale(big(5), -1), big(3));
    assert_eq!(scale(big(-5), -1), big(-2));
    assert_eq!(scale(big(-10), -2), big(-2));
    assert_eq!(scale(big(-11), -2), big(-3));
    assert_eq!(scale(big(7), 0), big(7));
}

#[test]
fn shift_rounds_down() {
    assert_eq!(shift(big(10), -2), big(2));
    assert_eq!(shift(big(-10), -2), big(-3));
    assert_eq!(shift(big(3), 4), big(48));
    assert_eq!(shift(big(7), 0), big(7));
}

#[test]
fn ratio_truncates_toward_zero() {
    // 1/3 * 16 = 5.33.., -1/3 * 16 = -5.33..
    assert_eq!(ratio(&frac(1, 3), -4), big(5));
    assert_eq!(ratio(&frac(-1, 3), -4), big(-5));
    // p >= 0: the integer part 3 of 7/2, scaled by 2^-1 and rounded: 1.5 -> 2.
    assert_eq!(ratio(&frac(7, 2), 1), big(2));
    assert_eq!(ratio(&frac(7, 2), 0), big(3));
}

#[test]
fn fraction_refuses_zero_denominator() {
    assert!(Rational::fraction(1, 0).is_none());
    assert!(Rational::fraction(0, 5).is_some());
}

#[test]
fn rational_and_bigint_prescaled_values() {
    assert_eq!((&frac(3, 4)).into_prescaled_value(-3), pv(6, -3));
    assert_eq!((&big(43)).into_prescaled_value(2), pv(11, 2));
}

#[test]
fn bound_log2_is_ceiling_of_log2_of_successor() {
    assert_eq!(bound_log2(0), 0);
    assert_eq!(bound_log2(1), 1);
    assert_eq!(bound_log2(3), 2);
    assert_eq!(bound_log2(4), 3);
    assert_eq!(bound_log2(-7), 3);
    assert_eq!(bound_log2(8), 4);
    assert_eq!(bound_log2(64), 7);
    assert_eq!(bound_log2(i32::MAX), 31);
}

#[test]
fn precision_needed_values() {
    assert_eq!(UnaryOp::Sqrt.precision_needed(5), 8);
    assert_eq!(UnaryOp::PrescaledCos.precision_needed(-5), -8);
    assert_eq!(UnaryOp::Neg.precision_needed(-5), -5);
    assert_eq!(UnaryOp::Inverse.precision_needed(-5), -5);
    assert_eq!(BinaryOp::Add.precision_needed(-3), -5);
    assert_eq!(BinaryOp::Mul.precision_needed(-3), -6);
    assert_eq!(OpStack::Literal.precision_needed(7), 7);
    assert_eq!(OpStack::UnaryOp(UnaryOp::Sqrt).precision_needed(-3), -8);
    assert_eq!(OpStack::BinaryOp(BinaryOp::Mul).precision_needed(4), 8);
}

#[test]
fn rescale_only_coarsens() {
    assert_eq!(pv(12, -3).rescale(-1), Some(pv(3, -1)));
    assert_eq!(pv(12, -3).rescale(-3), Some(pv(12, -3)));
    assert_eq!(pv(12, -3).rescale(-4), None);
    assert!(pv(12, -3).meets_precision(-1));
    assert!(pv(12, -3).meets_precision(-3));
    assert!(!pv(12, -3).meets_precision(-4));
}

#[test]
fn msb_of_values() {
    assert_eq!(pv(0, 3).msb(), None);
    // 5 = 0b101 at precision -2 is 1.25: its leading one is at position 0.
    assert_eq!(pv(5, -2).msb(), Some(0));
    assert_eq!(pv(-8, 1).msb(), Some(4));
}

#[test]
fn negation_is_exact() {
    let r = UnaryOp::Neg.approximate_unary_op(&pv(7, -4), -4);
    assert_eq!(r, AttemptedComputation::Success(big(-7), -4));
}

#[test]
fn inverse_of_zero_asks_for_more_precision() {
    // (min(p, 0) * 3) / 2 - 16 with p = -5 is -23.
    let r = UnaryOp::Inverse.approximate_unary_op(&pv(0, -5), -5);
    assert_eq!(r, AttemptedComputation::NeedMorePrecision(-23));
}

#[test]
fn inverse_of_negative_value() {
    let a = StackComputable::rational(frac(-5, 3));
    let b = a.inverse();
    assert_eq!(b.approximate(-6).unwrap(), big(-0b100110));
}

#[test]
fn square_root_of_negative_is_outside_the_domain() {
    assert!(!UnaryOp::Sqrt.argument_in_domain(&pv(-16, -4), -1));
    assert!(UnaryOp::Sqrt.argument_in_domain(&pv(16, -4), -1));
    // Not yet known at -4: the operator asks for more precision first.
    assert!(UnaryOp::Sqrt.argument_in_domain(&pv(-1, 0), -1));
    assert_eq!(UnaryOp::Sqrt.approximate_unary_op(&pv(-1, 0), -1), AttemptedComputation::NeedMorePrecision(-4));
}

#[test]
fn series_at_coarse_precision() {
    let arg = pv(1, -2);
    assert_eq!(
        UnaryOp::PrescaledCos.approximate_unary_op(&arg, 1),
        AttemptedComputation::Success(big(1), 1)
    );
    assert_eq!(
        UnaryOp::PrescaledExp.approximate_unary_op(&arg, 1),
        AttemptedComputation::Success(big(0), 1)
    );
    assert_eq!(
        UnaryOp::PrescaledLn.approximate_unary_op(&arg, 0),
        AttemptedComputation::Success(big(0), 0)
    );
}

#[test]
fn series_domains() {
    // 1040/1024 reads as 260/256 at -8, beyond 1.
    assert!(!UnaryOp::PrescaledCos.argument_in_domain(&pv(1040, -10), -5));
    // Approximations that can stand for a value below 1 are summed.
    assert!(UnaryOp::PrescaledCos.argument_in_domain(&pv((1 << 20) - 1, -20), -5));
    assert!(UnaryOp::PrescaledCos.argument_in_domain(&pv(256, -8), -5));
    let r = UnaryOp::PrescaledCos.approximate_unary_op(&pv(256, -8), -5);
    assert!(matches!(r, AttemptedComputation::Success(_, -5)));
    // 1 is outside the exponential's domain, 3/4 and 1/2 are not, -1 is.
    assert!(!UnaryOp::PrescaledExp.argument_in_domain(&pv(-1024, -10), -5));
    assert!(UnaryOp::PrescaledExp.argument_in_domain(&pv(768, -10), -5));
    // 3/4 is outside |x| <= 1/2 for the logarithm, 1/2 is inside.
    assert!(!UnaryOp::PrescaledLn.argument_in_domain(&pv(768, -10), -5));
    assert!(UnaryOp::PrescaledLn.argument_in_domain(&pv(512, -10), -5));
    let r = UnaryOp::PrescaledLn.approximate_unary_op(&pv(512, -10), -5);
    assert!(matches!(r, AttemptedComputation::Success(_, -5)));
}

#[test]
fn operators_ask_for_their_needed_precision() {
    // Arguments coarser than what is needed are refused with the needed precision.
    assert_eq!(
        BinaryOp::Add.approximate_binary_op(&pv(1, -2), &pv(1, -10), -5),
        AttemptedComputation::NeedMorePrecision(-7)
    );
    assert_eq!(
        UnaryOp::Sqrt.approximate_unary_op(&pv(1, -2), -5),
        AttemptedComputation::NeedMorePrecision(-12)
    );
    assert_eq!(
        UnaryOp::PrescaledExp.approximate_unary_op(&pv(1, -2), -5),
        AttemptedComputation::NeedMorePrecision(-8)
    );
}

#[test]
fn needed_precision_suffices_and_results_come_at_the_requested_precision() {
    // 1/2 and 1/3 at precision -7 are 64 and 42; their sum 106 at -5 is 26.5, rounded to 27.
    let r = BinaryOp::Add.approximate_binary_op(&pv(64, -7), &pv(42, -7), -5);
    assert_eq!(r, AttemptedComputation::Success(big(27), -5));
    // 2 and 3 at precision -6 are 128 and 192; their product 24576 scaled by 2^-9 is 48, that is 6 at -3.
    let r = BinaryOp::Mul.approximate_binary_op(&pv(128, -6), &pv(192, -6), -3);
    assert_eq!(r, AttemptedComputation::Success(big(48), -3));
}

#[test]
fn literal_approximation_is_ratio() {
    for p in [-20, -7, -1, 0, 1, 3] {
        let r = frac(22, 7);
        let a = StackComputable::rational(r.clone());
        assert_eq!(a.approximate(p).unwrap(), ratio(&r, p));
    }
    let i = StackComputable::integer(big(-43));
    assert_eq!(i.approximate(2).unwrap(), big(-11));
}

#[test]
fn one_is_scaled_by_two_to_minus_p() {
    let one = StackComputable::one();
    assert_eq!(one.approximate(0).unwrap(), big(1));
    assert_eq!(one.approximate(-2).unwrap(), big(4));
    assert_eq!(one.approximate(-3).unwrap(), big(8));
    // 1/4 rounds to 0, 1/2 rounds up to 1.
    assert_eq!(one.approximate(2).unwrap(), big(0));
    assert_eq!(one.approximate(1).unwrap(), big(1));
    let quarter = StackComputable::rational(frac(1, 4));
    assert_eq!(quarter.approximate(-2).unwrap(), big(1));
    assert_eq!(quarter.approximate(-3).unwrap(), big(2));
}

#[test]
fn sum_is_the_operator_on_the_parts() {
    // The value of 1/2 + 1/3 at -5 is what `Add` makes of the parts at -7.
    let a = StackComputable::rational(frac(1, 2));
    let b = StackComputable::rational(frac(1, 3));
    let c = a.add(&b);
    let expected = BinaryOp::Add.approximate_binary_op(
        &PrescaledValue(ratio(&frac(1, 2), -7), -7),
        &PrescaledValue(ratio(&frac(1, 3), -7), -7),
        -5,
    );
    assert_eq!(AttemptedComputation::Success(c.approximate(-5).unwrap(), -5), expected);
}

#[test]
fn root_arguments_of_composite_stacks() {
    let a = StackComputable::rational(frac(1, 2)).sqrt();
    let b = StackComputable::integer(big(3)).add(&StackComputable::one()).cos();
    assert_eq!(a.operator_argument_indices(1), (Some(0), None));
    let c = a.clone().mul(&b);
    // a has 2 entries, b has 4: the product joins the roots 1 and 5.
    assert_eq!(c.operator_argument_indices(6), (Some(1), Some(5)));
    assert_eq!(c.operator_argument_indices(4), (Some(2), Some(3)));
    assert_eq!(c.operator_argument_indices(0), (None, None));
}

#[test]
fn precision_too_low_is_reported() {
    let a = StackComputable::rational(frac(1, 3));
    assert_eq!(a.approximate(-20000), Err(ApproximationError::PrecisionTooLow(-20000)));
}

#[test]
fn precision_out_of_range_is_reported() {
    // A product at 2^30 needs its factors at 2^31, beyond `i32`.
    let a = StackComputable::rational(frac(1, 3)).mul(&StackComputable::integer(big(3)));
    assert_eq!(a.approximate(0x4000_0000), Err(ApproximationError::PrecisionOutOfRange(0x4000_0000)));
    // A literal at a large precision is approximated.
    let b = StackComputable::rational(frac(1, 3));
    assert_eq!(b.approximate(0x2000_0000), Ok(big(0)));
}

#[test]
fn inverse_of_zero_asks_for_precision_until_too_low() {
    // The first request is for -23, each later one a bit finer, until the stopping precision.
    let a = StackComputable::integer(big(0)).inverse();
    assert_eq!(a.approximate(-5), Err(ApproximationError::PrecisionTooLow(-10001)));
}

#[test]
fn arguments_outside_the_domain_are_reported() {
    let a = StackComputable::integer(big(-4)).sqrt();
    assert_eq!(a.approximate(0), Err(ApproximationError::ArgumentOutOfRange));
    let b = StackComputable::integer(big(2)).cos();
    assert_eq!(b.approximate(-5), Err(ApproximationError::ArgumentOutOfRange));
    let c = StackComputable::integer(big(1)).exp();
    assert_eq!(c.approximate(-5), Err(ApproximationError::ArgumentOutOfRange));
    // 3/4 lies inside |x| < 1, on which the exponential series is summed: e^(3/4) * 32 is 67.7.
    let d = StackComputable::rational(frac(3, 4)).exp();
    assert_eq!(d.approximate(-5), Ok(big(68)));
}

#[test]
fn inverse_of_a_huge_argument_is_zero() {
    // 2^-268435500 is far below one unit at precision 0.
    let huge = BigInt::from(1) << 268_435_500u32;
    let a = StackComputable::integer(huge).inverse();
    assert_eq!(a.approximate(0), Ok(big(0)));
}

#[test]
fn clone_keeps_the_value() {
    let a = pv(-9, 4);
    assert_eq!(a.clone(), a);
    let r = frac(-9, 4);
    assert_eq!(r.clone(), r);
    let s = StackComputable::rational(frac(1, 7)).exp();
    assert_eq!(s.clone(), s);
}

#[test]
fn deep_products_run_out_of_precision() {
    // Each product doubles the precision asked of its factors: six levels at -100 ask the
    // first literal for -6400, seven ask it for -12800, below the stopping precision.
    let mut a = StackComputable::rational(frac(3, 4));
    for _ in 0..6 {
        let b = a.clone();
        a = a.mul(&b);
    }
    // (3/4)^64 is about 1.0e-8, so at -100 the result is about 1.27e22.
    assert!(a.approximate(-100).is_ok());
    let b = a.clone();
    let a = a.mul(&b);
    assert_eq!(a.approximate(-100), Err(ApproximationError::PrecisionTooLow(-12800)));
}

#[test]
fn exact_stacks_give_values() {
    // (1/2) * 3 + 1/4 = 7/4, at -4 the integer 28.
    let a = StackComputable::rational(frac(1, 2));
    let b = a.mul(&StackComputable::integer(big(3))).add(&StackComputable::rational(frac(1, 4)));
    assert_eq!(b.approximate(-4), Ok(big(28)));
}

#[test]
fn sums_stay_within_one_unit() {
    // 1/3 + 2/7 + 5 = 118/21: at -20 the result n has |n * 21 - 118 * 2^20| < 21.
    let a = StackComputable::rational(frac(1, 3))
        .add(&StackComputable::rational(frac(2, 7)))
        .add(&StackComputable::integer(big(5)));
    let n = a.approximate(-20).unwrap();
    let err = n * BigInt::from(21) - BigInt::from(118i64 << 20);
    assert!(err < BigInt::from(21) && err > BigInt::from(-21));
    // At a coarse precision the bound still holds: |n * 2^3 * 21 - 118| < 21 * 2^3.
    let n = a.approximate(3).unwrap();
    let err = n * BigInt::from(21 * 8) - BigInt::from(118);
    assert!(err < BigInt::from(21 * 8) && err > BigInt::from(-21 * 8));
}

#[test]
fn sum_of_sums_is_within_one_unit_of_the_total() {
    // (1/3 + 1/5) + (1/7 + 1/11) = 886/1155.
    let a = StackComputable::rational(frac(1, 3)).add(&StackComputable::rational(frac(1, 5)));
    let b = StackComputable::rational(frac(1, 7)).add(&StackComputable::rational(frac(1, 11)));
    let c = a.add(&b);
    for p in [-30, -12, -1, 0] {
        let n = c.approximate(p).unwrap();
        let (num, scale) = if p < 0 { (BigInt::from(886) << (-p) as usize, BigInt::from(1155)) } else { (BigInt::from(886), BigInt::from(1155) << p as usize) };
        let err = n * &scale - num;
        assert!(err < scale.clone() && err > -scale);
    }
}

#[test]
fn small_products_stay_within_one_unit() {
    // 1/3 * 2/5 + 1/7 = 29/105; the product is asked for -22, its factors are far below 2^22 / 8.
    let a = StackComputable::rational(frac(1, 3))
        .mul(&StackComputable::rational(frac(2, 5)))
        .add(&StackComputable::rational(frac(1, 7)));
    let n = a.approximate(-20).unwrap();
    let err = n * BigInt::from(105) - (BigInt::from(29) << 20usize);
    assert!(err < BigInt::from(105) && err > BigInt::from(-105));
}

#[test]
fn large_products_drift() {
    // 1000.3 * 1000.3 = 1000600.09, at -1 about 2001200; the factors, each read at -2 and
    // multiplied, give 4001 * 4001 / 8 rounded: 2001000.
    let x = StackComputable::rational(frac(10003, 10));
    let y = x.clone().mul(&x);
    assert_eq!(y.approximate(-1), Ok(big(2001000)));
}

#[test]
fn inverse_of_zero_asks_finer_than_the_argument() {
    // The usual request, -23, is no finer than an argument already at -23.
    let r = UnaryOp::Inverse.approximate_unary_op(&pv(0, -23), -5);
    assert_eq!(r, AttemptedComputation::NeedMorePrecision(-24));
}

#[test]
fn square_root_is_within_one_unit() {
    // sqrt(2/3) at -20: 3 (v - 1)^2 < 2 * 2^40 < 3 (v + 1)^2.
    let a = StackComputable::rational(frac(2, 3)).sqrt();
    let v = a.approximate(-20).unwrap();
    let target = BigInt::from(2) << 40usize;
    let lo = (&v - 1) * (&v - 1) * 3;
    let hi = (&v + 1) * (&v + 1) * 3;
    assert!(lo < target && target < hi);
}

#[test]
fn series_of_rationals_in_their_domains_succeed() {
    assert!(StackComputable::rational(frac(-9, 10)).cos().approximate(-30).is_ok());
    assert!(StackComputable::rational(frac(49, 100)).exp().approximate(-30).is_ok());
    assert!(StackComputable::rational(frac(-49, 100)).ln_one_plus_x().approximate(-30).is_ok());
    assert!(StackComputable::rational(frac(0, 1)).sqrt().approximate(-30).is_ok());
}

#[test]
fn binary_operators_at_large_precisions() {
    // 5 * 2^(2^29) + 7 * 2^(2^29) at 2^29 + 2 is 12 / 4 = 3.
    let p: i32 = 0x2000_0000;
    let r = BinaryOp::Add.approximate_binary_op(&pv(5, p), &pv(7, p), p + 2);
    assert_eq!(r, AttemptedComputation::Success(big(3), p + 2));
}

#[test]
fn one_pass_stacks_with_inverses_and_nested_series() {
    // 1 / (3 + 5/2) at -10: |v * 11/2 - 1024| < 11/2, i.e. |11 v - 2048| < 11.
    let a = StackComputable::integer(big(3)).add(&StackComputable::rational(frac(5, 2))).inverse();
    let v = a.approximate(-10).unwrap();
    let err = v * BigInt::from(11) - BigInt::from(2048);
    assert!(err < BigInt::from(11) && err > BigInt::from(-11));
    // exp(cos(1/2)) and 1 / sqrt(2) are computed.
    assert!(StackComputable::rational(frac(1, 2)).cos().exp().approximate(-10).is_ok());
    assert!(StackComputable::integer(big(2)).sqrt().inverse().approximate(-10).is_ok());
}

#[test]
fn inverses_of_expressions_that_ask_again() {
    // 1 / (1/2 + 1/3) = 6/5 at -10: |v - 6144/5| < 1, i.e. |5 v - 6144| < 5.
    let a = StackComputable::rational(frac(1, 2)).add(&StackComputable::rational(frac(1, 3))).inverse();
    let v = a.approximate(-10).unwrap();
    let err = v * BigInt::from(5) - BigInt::from(6144);
    assert!(err < BigInt::from(5) && err > BigInt::from(-5));
    // 1 / (1/1024 + 1/1024) = 512 at -4 reads zero at first and asks again.
    let b = StackComputable::rational(frac(1, 1024)).add(&StackComputable::rational(frac(1, 1024))).inverse();
    let v = b.approximate(-4).unwrap();
    assert!(v >= BigInt::from(8191) && v <= BigInt::from(8193));
    // 1 / sqrt(2) at -20 is 741455.2...
    let c = StackComputable::integer(big(2)).sqrt().inverse();
    let v = c.approximate(-20).unwrap();
    assert!(v >= BigInt::from(741454) && v <= BigInt::from(741456));
    // 1 / exp(1/4) at -10 is 797.5...
    let d = StackComputable::rational(frac(1, 4)).exp().inverse();
    let v = d.approximate(-10).unwrap();
    assert!(v >= BigInt::from(796) && v <= BigInt::from(799));
}

#[test]
fn inverses_lie_within_one_unit() {
    // 7/3 at -12 is 9557.33...: within one unit, 9557 or 9558.
    let v = StackComputable::rational(frac(3, 7)).inverse().approximate(-12).unwrap();
    assert!(v >= BigInt::from(9557) && v <= BigInt::from(9558));
    // 1 / (1/5 * 1/3 + 1) = 15/16 at -8 is 240 exactly: within one unit, 239 to 241.
    let e = StackComputable::rational(frac(1, 5))
        .mul(&StackComputable::rational(frac(1, 3)))
        .add(&StackComputable::one())
        .inverse();
    let v = e.approximate(-8).unwrap();
    assert!(v >= BigInt::from(239) && v <= BigInt::from(241));
    // A large literal: 1 / 1000 at 1 rounds to zero.
    let v = StackComputable::integer(big(1000)).inverse().approximate(1).unwrap();
    assert!(v == BigInt::from(0));
}

#[test]
fn checks_for_the_operator_preconditions() {
    assert!(binary_args_fit(BinaryOp::Mul, &pv(1, 0), &pv(1, 0), 0x1000_0000));
    assert!(!binary_args_fit(BinaryOp::Mul, &pv(1, 0), &pv(1, 0), 0x4000_0000));
    assert!(sqrt_arg_fits(&pv(4, 0), 3));
    assert!(!sqrt_arg_fits(&pv(4, 0), 0x4000_0000));
    assert!(inverse_arg_fits(&pv(3, 0), -5));
    assert!(UnaryOp::Inverse.argument_fits(&pv(3, 0), -5));
    assert!(!UnaryOp::Sqrt.argument_fits(&pv(-3, -4), -1));
    assert!(pv(5, -2).msb_fits_in_precision());
    assert!(!pv(5, i32::MAX).msb_fits_in_precision());
}
