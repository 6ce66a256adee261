//! What the series operators compute, against the functions they stand for: the cosine lies
//! within `x^4 / 24` of `1 - x^2 / 2`, the exponential within `x^2` of `1 + x`, and
//! `ln(1 + x)` within `|x|^3` of `x - x^2 / 2`, each to within one unit of the output precision;
//! and the square root is the root of its argument, rounded.
use vstd::prelude::*;
use vstd::arithmetic::power2::{pow2, lemma2_to64, lemma_pow2_pos, lemma_pow2_adds, lemma_pow2_unfold};
use vstd::arithmetic::div_mod::lemma_fundamental_div_mod;
use crate::bigint::{iabs, trunc_div, isqrt, is_isqrt};
use crate::prescaled_value::spec_rescaled;
use crate::approximate::{spec_scale, series_bound, cos_spec, exp_spec, ln_spec, sqrt_spec, Attempt, rounded_at};
use crate::series::{cos_term, cos_sum, exp_term, exp_sum, ln_power, ln_term, ln_sum, stops_at, first_stop};

verus! {

/// One step of the cosine series from the term `t`: the next term is about
/// `-t x^2 / (n (n - 1))` with `x = a / w`, to within one unit: `|n (n - 1) r w^2 + t a^2| <= c`.
proof fn lemma_cos_step(a: int, q: int, t: int, n: int)
    requires
        q < 0,
        n >= 2,
        iabs(a) <= pow2((-q) as nat),
    ensures
        ({
            let w = pow2((-q) as nat) as int;
            let s2 = spec_scale(spec_scale(t * a, q) * a, q);
            let r = trunc_div(s2, (-n) * (n - 1));
            &&& iabs(s2 * (w * w) - t * (a * a)) <= w * w
            &&& iabs(r) * (n * (n - 1)) <= iabs(s2)
            &&& n == 2 ==> iabs(2 * r + s2) <= 1
        }),
{
    let k = (-q) as nat;
    let w = pow2(k) as int;
    lemma_pow2_unfold(k);
    lemma_pow2_pos((k - 1) as nat);
    let h = pow2((k - 1) as nat) as int;
    let s1 = spec_scale(t * a, q);
    let s2 = spec_scale(s1 * a, q);
    crate::accuracy::lemma_round_error(t * a, k);
    crate::accuracy::lemma_round_error(s1 * a, k);
    assert(-k == q);
    let e1 = s1 * w - t * a;
    let e2 = s2 * w - s1 * a;
    assert(s2 * (w * w) - t * (a * a) == e2 * w + e1 * a) by (nonlinear_arith)
        requires
            e1 == s1 * w - t * a,
            e2 == s2 * w - s1 * a,
    ;
    assert(iabs(e2 * w + e1 * a) <= w * w) by (nonlinear_arith)
        requires
            iabs(e1) <= h,
            iabs(e2) <= h,
            w == 2 * h,
            iabs(a) <= w,
            h > 0,
    ;
    let d = (-n) * (n - 1);
    assert(d < 0 && iabs(d) == n * (n - 1)) by (nonlinear_arith)
        requires
            n >= 2,
            d == (-n) * (n - 1),
    ;
    crate::series::lemma_trunc_div_bound(s2, d);
    if n == 2 {
        lemma_fundamental_div_mod(iabs(s2), 2);
        assert(d == -2);
    }
}

/// `cos x` for `|x| <= 1` lies between `1 - x^2 / 2` and `1 - x^2 / 2 + x^4 / 24`. For an argument
/// `x = a * 2^(p - 3)` known at the precision the cosine reads it at, with `|x| <= 1`, the
/// cosine at a precision `p <= 0` gives `v` with `v * 2^p` in that range, to within one unit:
/// with `u = 2^(-p)` and `w = 2^(3 - p)`,
/// `u (1 - a^2 / (2 w^2)) - 1 <= v <= u (1 - a^2 / (2 w^2) + a^4 / (24 w^4)) + 1`.
pub proof fn lemma_cos_within_taylor(arg: (int, int), p: int)
    requires
        p <= 0,
        arg.1 <= p - 3,
        iabs(spec_rescaled(arg, p - 3)) <= pow2((3 - p) as nat),
    ensures
        rounded_at(spec_rescaled(arg, p - 3), p - 3, arg.0, arg.1),
        cos_spec(arg, p) is Success,
        cos_spec(arg, p)->Success_1 == p,
        ({
            let v = cos_spec(arg, p)->Success_0;
            let u = pow2((-p) as nat) as int;
            let w2 = pow2((6 - 2 * p) as nat) as int;
            let a2 = spec_rescaled(arg, p - 3) * spec_rescaled(arg, p - 3);
            &&& 2 * w2 * v >= 2 * w2 * u - u * a2 - 2 * w2
            &&& 24 * w2 * w2 * v <= 24 * w2 * w2 * u - 12 * w2 * u * a2 + u * a2 * a2 + 24 * w2 * w2
        }),
{
    lemma2_to64();
    let b = series_bound((-p) / 2 + 2);
    let calc = p - b - 4;
    let q = p - 3;
    let kk = (-q) as nat;
    let w = pow2(kk) as int;
    let a = spec_rescaled(arg, q);
    crate::approximate::lemma_scale_rounds(arg.0, arg.1, q);
    let u = pow2((-p) as nat) as int;
    let dd = pow2((b + 4) as nat) as int;
    let t0 = pow2((-calc) as nat) as int;
    lemma_pow2_adds((b + 4) as nat, (-p) as nat);
    assert(((b + 4) as nat + (-p) as nat) as nat == (-calc) as nat);
    assert(t0 == dd * u);
    lemma_pow2_adds(kk, kk);
    assert((kk + kk) as nat == (6 - 2 * p) as nat);
    let w2 = w * w;
    lemma_pow2_pos(kk);
    lemma_pow2_pos((-p) as nat);
    lemma_pow2_adds(4, b);
    assert((4 + b) as nat == (b + 4) as nat);
    lemma_pow2_pos(b);
    assert(dd >= 16);
    // The series stops, and not at its first term.
    let max = pow2(b) as int;
    let terms = |j: nat| cos_term(a, q, t0, j);
    let j0 = (-calc) as nat;
    crate::series::lemma_cos_term_decay(a, q, t0, j0);
    assert(pow2(j0) as int == t0);
    lemma_pow2_pos(j0);
    assert(iabs(cos_term(a, q, t0, j0)) <= 1) by (nonlinear_arith)
        requires
            iabs(cos_term(a, q, t0, j0)) * t0 <= t0,
            t0 > 0,
    ;
    assert(iabs(terms(j0)) <= max);
    crate::series::lemma_stop_exists(terms, max, j0);
    let k = first_stop(terms, max);
    assert(stops_at(terms, max, k));
    vstd::arithmetic::power2::lemma_pow2_strictly_increases(b, (-calc) as nat);
    assert(iabs(terms(0)) > max);
    assert(k >= 1);
    let s = cos_sum(a, q, t0, k);
    crate::series::lemma_cos_sum_bracket(a, q, t0, k);
    let t1 = cos_term(a, q, t0, 1);
    let t2 = cos_term(a, q, t0, 2);
    crate::series::lemma_cos_term_sign(a, q, t0, 1);
    crate::series::lemma_cos_term_sign(a, q, t0, 2);
    assert(cos_sum(a, q, t0, 0) == t0);
    assert(cos_sum(a, q, t0, 1) == t0 + t1);
    // The first two terms after the leading one, against `a`.
    lemma_cos_step(a, q, t0, 2);
    let s2 = spec_scale(spec_scale(t0 * a, q) * a, q);
    assert(t1 == trunc_div(s2, (-2) * (2 - 1)));
    lemma_cos_step(a, q, t1, 4);
    let s2b = spec_scale(spec_scale(t1 * a, q) * a, q);
    assert(t2 == trunc_div(s2b, (-4) * (4 - 1)));
    let a2 = a * a;
    assert(a2 <= w2) by (nonlinear_arith)
        requires
            iabs(a) <= w,
            a2 == a * a,
            w2 == w * w,
    ;
    assert(a2 >= 0) by (nonlinear_arith)
        requires
            a2 == a * a,
    ;
    assert(w2 > 0) by (nonlinear_arith)
        requires
            w > 0,
            w2 == w * w,
    ;
    assert(iabs(s2 * w2 - t0 * a2) <= w2);
    assert(iabs(2 * t1 + s2) <= 1);
    assert(iabs(s2b * w2 - t1 * a2) <= w2);
    assert(iabs(t2) * (4 * (4 - 1)) <= iabs(s2b));
    assert(2 * t1 * w2 >= -t0 * a2 - 2 * w2 && 2 * t1 * w2 <= -t0 * a2 + 2 * w2) by (nonlinear_arith)
        requires
            iabs(s2 * w2 - t0 * a2) <= w2,
            iabs(2 * t1 + s2) <= 1,
            w2 > 0,
    ;
    assert(iabs(s2b) * w2 <= -t1 * a2 + w2) by (nonlinear_arith)
        requires
            iabs(s2b * w2 - t1 * a2) <= w2,
            t1 <= 0,
            a2 >= 0,
            w2 > 0,
    ;
    assert(12 * t2 * w2 <= -t1 * a2 + w2) by (nonlinear_arith)
        requires
            iabs(s2b) * w2 <= -t1 * a2 + w2,
            iabs(t2) * (4 * (4 - 1)) <= iabs(s2b),
            t2 >= 0,
            w2 > 0,
    ;
    // The final rounding.
    let v = spec_scale(s, calc - p);
    assert(calc - p == -((b + 4) as nat));
    crate::accuracy::lemma_round_error(s, (b + 4) as nat);
    assert(2 * iabs(v * dd - s) <= dd) by {
        lemma_pow2_unfold((b + 4) as nat);
    }
    assert(2 * w2 * (v * dd) >= 2 * w2 * s - w2 * dd) by (nonlinear_arith)
        requires
            2 * iabs(v * dd - s) <= dd,
            w2 > 0,
    ;
    assert((2 * w2 * v) * dd >= (2 * w2 * u - u * a2 - 2 * w2) * dd) by (nonlinear_arith)
        requires
            2 * w2 * (v * dd) >= 2 * w2 * s - w2 * dd,
            s >= t0 + t1,
            2 * t1 * w2 >= -t0 * a2 - 2 * w2,
            t0 == dd * u,
            dd >= 16,
            w2 > 0,
    ;
    assert(2 * w2 * v >= 2 * w2 * u - u * a2 - 2 * w2) by (nonlinear_arith)
        requires
            (2 * w2 * v) * dd >= (2 * w2 * u - u * a2 - 2 * w2) * dd,
            dd > 0,
    ;
    let w4 = w2 * w2;
    assert(w4 > 0) by (nonlinear_arith)
        requires
            w2 > 0,
            w4 == w2 * w2,
    ;
    assert(24 * w4 * t1 <= 12 * w2 * (-t0 * a2 + 2 * w2)) by (nonlinear_arith)
        requires
            2 * t1 * w2 <= -t0 * a2 + 2 * w2,
            w4 == w2 * w2,
            w2 > 0,
    ;
    assert(24 * w4 * t2 <= 2 * w2 * (-t1 * a2 + w2)) by (nonlinear_arith)
        requires
            12 * t2 * w2 <= -t1 * a2 + w2,
            w4 == w2 * w2,
            w2 > 0,
    ;
    assert(-2 * w2 * t1 * a2 <= a2 * (t0 * a2 + 2 * w2)) by (nonlinear_arith)
        requires
            2 * t1 * w2 >= -t0 * a2 - 2 * w2,
            a2 >= 0,
    ;
    assert(2 * w2 * a2 <= 2 * w4) by (nonlinear_arith)
        requires
            a2 <= w2,
            w4 == w2 * w2,
            w2 > 0,
    ;
    assert(24 * w4 * s <= 24 * w4 * t0 + 24 * w4 * t1 + 24 * w4 * t2) by (nonlinear_arith)
        requires
            s <= t0 + t1 + t2,
            w4 > 0,
    ;
    assert(12 * w2 * (-t0 * a2 + 2 * w2) == -12 * w2 * t0 * a2 + 24 * w4) by (nonlinear_arith)
        requires
            w4 == w2 * w2,
    ;
    assert(2 * w2 * (-t1 * a2 + w2) == -2 * w2 * t1 * a2 + 2 * w4) by (nonlinear_arith)
        requires
            w4 == w2 * w2,
    ;
    assert(a2 * (t0 * a2 + 2 * w2) == t0 * a2 * a2 + 2 * w2 * a2) by (nonlinear_arith);
    assert(24 * w4 * s <= 24 * w4 * t0 - 12 * w2 * t0 * a2 + t0 * a2 * a2 + 28 * w4) by (nonlinear_arith)
        requires
            24 * w4 * s <= 24 * w4 * t0 + 24 * w4 * t1 + 24 * w4 * t2,
            24 * w4 * t1 <= 12 * w2 * (-t0 * a2 + 2 * w2),
            24 * w4 * t2 <= 2 * w2 * (-t1 * a2 + w2),
            -2 * w2 * t1 * a2 <= a2 * (t0 * a2 + 2 * w2),
            2 * w2 * a2 <= 2 * w4,
            12 * w2 * (-t0 * a2 + 2 * w2) == -12 * w2 * t0 * a2 + 24 * w4,
            2 * w2 * (-t1 * a2 + w2) == -2 * w2 * t1 * a2 + 2 * w4,
            a2 * (t0 * a2 + 2 * w2) == t0 * a2 * a2 + 2 * w2 * a2,
    ;
    assert(2 * (v * dd) <= 2 * s + dd);
    assert(24 * w4 * (v * dd) <= 24 * w4 * s + 12 * w4 * dd) by (nonlinear_arith)
        requires
            2 * (v * dd) <= 2 * s + dd,
            w4 > 0,
    ;
    assert((24 * w4 * v) * dd == 24 * w4 * (v * dd)) by (nonlinear_arith);
    let c1 = 24 * w4 * u;
    let c2 = 12 * w2 * u * a2;
    let c3 = u * a2 * a2;
    let c4 = 24 * w4;
    assert((c1 - c2 + c3 + c4) * dd == c1 * dd - c2 * dd + c3 * dd + c4 * dd) by (nonlinear_arith);
    assert(c1 * dd == 24 * w4 * t0) by (nonlinear_arith)
        requires
            c1 == 24 * w4 * u,
            t0 == dd * u,
    ;
    assert(c2 * dd == 12 * w2 * t0 * a2) by (nonlinear_arith)
        requires
            c2 == 12 * w2 * u * a2,
            t0 == dd * u,
    ;
    assert(c3 * dd == t0 * a2 * a2) by (nonlinear_arith)
        requires
            c3 == u * a2 * a2,
            t0 == dd * u,
    ;
    assert(c4 * dd == 24 * (w4 * dd)) by (nonlinear_arith)
        requires
            c4 == 24 * w4,
    ;
    assert((24 * w4 * u - 12 * w2 * u * a2 + u * a2 * a2 + 24 * w4) * dd == 24 * w4 * t0 - 12 * w2 * t0 * a2 + t0
        * a2 * a2 + 24 * (w4 * dd));
    assert(28 * w4 + 12 * (w4 * dd) <= 24 * (w4 * dd)) by (nonlinear_arith)
        requires
            dd >= 16,
            w4 > 0,
    ;
    assert(12 * w4 * dd == 12 * (w4 * dd)) by (nonlinear_arith);
    assert((24 * w4 * v) * dd <= (24 * w4 * u - 12 * w2 * u * a2 + u * a2 * a2 + 24 * w4) * dd);
    assert(24 * w4 * v <= 24 * w4 * u - 12 * w2 * u * a2 + u * a2 * a2 + 24 * w4) by (nonlinear_arith)
        requires
            (24 * w4 * v) * dd <= (24 * w4 * u - 12 * w2 * u * a2 + u * a2 * a2 + 24 * w4) * dd,
            dd > 0,
    ;
    assert(cos_spec(arg, p) == Attempt::Success(v, p));
    assert(pow2((6 - 2 * p) as nat) as int == w2);
    assert(spec_rescaled(arg, p - 3) * spec_rescaled(arg, p - 3) == a2);
    assert(2 * w2 * v >= 2 * w2 * u - u * a2 - 2 * w2);
    assert(24 * w2 * w2 * v <= 24 * w2 * w2 * u - 12 * w2 * u * a2 + u * a2 * a2 + 24 * w2 * w2) by (nonlinear_arith)
        requires
            24 * w4 * v <= 24 * w4 * u - 12 * w2 * u * a2 + u * a2 * a2 + 24 * w4,
            w4 == w2 * w2,
    ;
}

/// `e^x` for `|x| < 1` lies within `x^2` of `1 + x`. For an argument `x = a * 2^(p - 3)` known at
/// the precision the exponential reads it at, with `|x| < 1`, the exponential at a precision
/// `p <= 0` gives `v` with `|v - u (1 + x)| <= u x^2 + 1`, where `u = 2^(-p)`: with
/// `w = 2^(3 - p)`, `|w^2 v - u w^2 - u w a| <= u a^2 + w^2`.
pub proof fn lemma_exp_within_taylor(arg: (int, int), p: int)
    requires
        p <= 0,
        arg.1 <= p - 3,
        iabs(spec_rescaled(arg, p - 3)) < pow2((3 - p) as nat),
    ensures
        rounded_at(spec_rescaled(arg, p - 3), p - 3, arg.0, arg.1),
        exp_spec(arg, p) is Success,
        exp_spec(arg, p)->Success_1 == p,
        ({
            let v = exp_spec(arg, p)->Success_0;
            let u = pow2((-p) as nat) as int;
            let w = pow2((3 - p) as nat) as int;
            let x = spec_rescaled(arg, p - 3);
            iabs((w * w) * v - u * (w * w) - u * w * x) <= u * (x * x) + w * w
        }),
{
    lemma2_to64();
    let b = series_bound((-p) / 2 + 2);
    let calc = p - b - 4;
    let q = p - 3;
    let kk = (-q) as nat;
    let w = pow2(kk) as int;
    lemma_pow2_pos(kk);
    lemma_pow2_unfold(kk);
    let h = pow2((kk - 1) as nat) as int;
    let a = spec_rescaled(arg, q);
    crate::approximate::lemma_scale_rounds(arg.0, arg.1, q);
    let u = pow2((-p) as nat) as int;
    lemma_pow2_pos((-p) as nat);
    let dd = pow2((b + 4) as nat) as int;
    let t0 = pow2((-calc) as nat) as int;
    lemma_pow2_adds((b + 4) as nat, (-p) as nat);
    assert(((b + 4) as nat + (-p) as nat) as nat == (-calc) as nat);
    assert(t0 == dd * u);
    lemma_pow2_adds(4, b);
    assert((4 + b) as nat == (b + 4) as nat);
    lemma_pow2_pos(b);
    assert(dd >= 16);
    lemma_pow2_pos((-calc) as nat);
    // The series stops, and not at its first term.
    let max = pow2(b) as int;
    let terms = |j: nat| exp_term(a, q, t0, j);
    let j0 = ((-calc) + 1) as nat;
    crate::series::lemma_exp_term_decay(a, q, t0, j0);
    assert(((j0 - 1) as nat) == (-calc) as nat);
    assert(iabs(exp_term(a, q, t0, j0)) <= 1) by (nonlinear_arith)
        requires
            iabs(exp_term(a, q, t0, j0)) * t0 <= iabs(t0),
            t0 > 0,
    ;
    assert(iabs(terms(j0)) <= max);
    crate::series::lemma_stop_exists(terms, max, j0);
    let k = first_stop(terms, max);
    assert(stops_at(terms, max, k));
    vstd::arithmetic::power2::lemma_pow2_strictly_increases(b, (-calc) as nat);
    assert(iabs(terms(0)) > max);
    assert(k >= 1);
    let s = exp_sum(a, q, t0, k);
    let v = spec_scale(s, calc - p);
    assert(calc - p == -((b + 4) as nat));
    crate::accuracy::lemma_round_error(s, (b + 4) as nat);
    lemma_pow2_unfold((b + 4) as nat);
    assert(2 * iabs(v * dd - s) <= dd);
    assert(exp_spec(arg, p) == Attempt::Success(v, p));
    // The first terms after the leading one.
    let t1 = exp_term(a, q, t0, 1);
    let t2 = exp_term(a, q, t0, 2);
    let s1 = spec_scale(t0 * a, q);
    let s1b = spec_scale(t1 * a, q);
    assert(-kk == q);
    crate::accuracy::lemma_round_error(t0 * a, kk);
    crate::accuracy::lemma_round_error(t1 * a, kk);
    assert(exp_term(a, q, t0, 0) == t0);
    assert(t1 == trunc_div(s1, 1));
    lemma_fundamental_div_mod(iabs(s1), 1);
    assert(iabs(s1) / 1 == iabs(s1));
    assert(t1 == s1);
    assert(t2 == trunc_div(s1b, 2));
    crate::series::lemma_trunc_div_bound(s1b, 2);
    assert(iabs(t1 * w - t0 * a) <= h);
    assert(iabs(s1b * w - t1 * a) <= h);
    assert(exp_sum(a, q, t0, 0) == t0);
    assert(exp_sum(a, q, t0, 1) == t0 + t1);
    let r = s - (t0 + t1);
    if k >= 2 {
        crate::series::lemma_exp_tail_bound(a, q, t0, 2, k);
    }
    assert(iabs(r) <= 2 * iabs(t2));
    assert(iabs(t2) * iabs(2int) <= iabs(s1b));
    assert(2 * iabs(t2) <= iabs(s1b)) by (nonlinear_arith)
        requires
            iabs(t2) * iabs(2int) <= iabs(s1b),
            iabs(2int) == 2,
    ;
    let w2 = w * w;
    assert(w2 > 0) by (nonlinear_arith)
        requires
            w > 0,
            w2 == w * w,
    ;
    assert(iabs(t1) * w <= t0 * iabs(a) + h) by (nonlinear_arith)
        requires
            iabs(t1 * w - t0 * a) <= h,
            t0 > 0,
            w > 0,
    ;
    assert(iabs(s1b) * w <= iabs(t1) * iabs(a) + h) by (nonlinear_arith)
        requires
            iabs(s1b * w - t1 * a) <= h,
            w > 0,
    ;
    assert(w2 * iabs(r) <= t0 * (a * a) + w2) by (nonlinear_arith)
        requires
            iabs(r) <= iabs(s1b),
            iabs(s1b) * w <= iabs(t1) * iabs(a) + h,
            iabs(t1) * w <= t0 * iabs(a) + h,
            iabs(a) < w,
            w == 2 * h,
            h > 0,
            t0 > 0,
            w2 == w * w,
    ;
    assert(iabs(w2 * (t0 + t1) - (w2 * t0 + w * t0 * a)) <= w * h) by (nonlinear_arith)
        requires
            iabs(t1 * w - t0 * a) <= h,
            w2 == w * w,
            w > 0,
    ;
    assert(iabs(w2 * (v * dd) - w2 * s) * 2 <= w2 * dd) by (nonlinear_arith)
        requires
            2 * iabs(v * dd - s) <= dd,
            w2 == w * w,
            w > 0,
    ;
    let lhs = w2 * v - u * w2 - u * w * a;
    assert(lhs * dd == w2 * (v * dd) - u * w2 * dd - u * w * a * dd) by (nonlinear_arith)
        requires
            lhs == w2 * v - u * w2 - u * w * a,
    ;
    assert(u * w2 * dd == w2 * t0) by (nonlinear_arith)
        requires
            t0 == dd * u,
    ;
    assert(u * w * a * dd == w * t0 * a) by (nonlinear_arith)
        requires
            t0 == dd * u,
    ;
    assert(lhs * dd == w2 * (v * dd) - (w2 * t0 + w * t0 * a));
    assert((u * (a * a) + w2) * dd == t0 * (a * a) + w2 * dd) by (nonlinear_arith)
        requires
            t0 == dd * u,
    ;
    assert(s == (t0 + t1) + r);
    assert(iabs(w2 * s - (w2 * t0 + w * t0 * a)) <= w * h + t0 * (a * a) + w2) by (nonlinear_arith)
        requires
            iabs(w2 * (t0 + t1) - (w2 * t0 + w * t0 * a)) <= w * h,
            w2 * iabs(r) <= t0 * (a * a) + w2,
            s == (t0 + t1) + r,
            w2 >= 0,
    ;
    assert(2 * (w * h) == w2) by (nonlinear_arith)
        requires
            w == 2 * h,
            w2 == w * w,
    ;
    assert(iabs(lhs * dd) <= (u * (a * a) + w2) * dd) by (nonlinear_arith)
        requires
            lhs * dd == w2 * (v * dd) - (w2 * t0 + w * t0 * a),
            iabs(w2 * (v * dd) - w2 * s) * 2 <= w2 * dd,
            iabs(w2 * s - (w2 * t0 + w * t0 * a)) <= w * h + t0 * (a * a) + w2,
            2 * (w * h) == w2,
            (u * (a * a) + w2) * dd == t0 * (a * a) + w2 * dd,
            dd >= 16,
            w2 > 0,
    ;
    assert(iabs(lhs) <= u * (a * a) + w2) by (nonlinear_arith)
        requires
            iabs(lhs * dd) <= (u * (a * a) + w2) * dd,
            dd > 0,
    ;
}

/// `ln(1 + x)` for `|x| <= 1/2` lies within `|x|^3` of `x - x^2 / 2`. For an argument
/// `x = a * 2^(p - 3)` known at the precision the logarithm reads it at, with `|x| <= 1/2`,
/// the logarithm at a precision `p < 0` gives `v` with `|v - u (x - x^2 / 2)| <= u |x|^3 + 1`,
/// where `u = 2^(-p)`: with `w = 2^(3 - p)`, `|16 w^2 v - 2 w^2 a + w a^2| <= 2 |a|^3 + 16 w^2`.
pub proof fn lemma_ln_within_taylor(arg: (int, int), p: int)
    requires
        p < 0,
        arg.1 <= p - 3,
        2 * iabs(spec_rescaled(arg, p - 3)) <= pow2((3 - p) as nat),
    ensures
        rounded_at(spec_rescaled(arg, p - 3), p - 3, arg.0, arg.1),
        ln_spec(arg, p) is Success,
        ln_spec(arg, p)->Success_1 == p,
        ({
            let v = ln_spec(arg, p)->Success_0;
            let w = pow2((3 - p) as nat) as int;
            let x = spec_rescaled(arg, p - 3);
            iabs(16 * (w * w) * v - 2 * (w * w) * x + w * (x * x)) <= 2 * iabs(x) * (x * x) + 16 * (w * w)
        }),
{
    lemma2_to64();
    let b = series_bound(-p);
    let calc = p - b - 4;
    let q = p - 3;
    let kk = (-q) as nat;
    let w = pow2(kk) as int;
    lemma_pow2_pos(kk);
    lemma_pow2_unfold(kk);
    let a = spec_rescaled(arg, q);
    crate::approximate::lemma_scale_rounds(arg.0, arg.1, q);
    let g = pow2((b + 1) as nat) as int;
    lemma_pow2_pos((b + 1) as nat);
    let x0 = spec_scale(a, q - calc);
    assert(q - calc == b + 1);
    assert(x0 == a * g);
    let dd = pow2((b + 4) as nat) as int;
    lemma_pow2_adds(3, (b + 1) as nat);
    assert((3 + (b + 1) as nat) as nat == (b + 4) as nat);
    assert(dd == 8 * g);
    let max = pow2(b) as int;
    lemma_pow2_pos(b);
    lemma_pow2_unfold((b + 1) as nat);
    assert(g == 2 * max);
    // The series stops.
    let terms = |j: nat| ln_term(a, q, x0, j);
    let k0 = (b + 4 - p) as nat;
    crate::series::lemma_ln_power_decay(a, q, x0, k0);
    lemma_pow2_adds(kk, (b + 1) as nat);
    assert((kk + (b + 1) as nat) as nat == k0);
    assert(2 * iabs(x0) <= pow2(k0)) by (nonlinear_arith)
        requires
            x0 == a * g,
            2 * iabs(a) <= w,
            pow2(k0) == w * g,
            g > 0,
    ;
    lemma_pow2_pos(k0);
    let pk0 = ln_power(a, q, x0, k0);
    assert(iabs(pk0) <= 1) by (nonlinear_arith)
        requires
            pow2(k0) * (iabs(pk0) - 1) <= iabs(x0),
            2 * iabs(x0) <= pow2(k0),
            pow2(k0) > 0,
    ;
    assert(k0 >= 1);
    let d0 = (k0 + 1) * (if k0 % 2 == 1 { -1int } else { 1int });
    assert(iabs(d0) == k0 + 1) by (nonlinear_arith)
        requires
            d0 == (k0 + 1) * (if k0 % 2 == 1 { -1int } else { 1int }),
            k0 >= 1,
    ;
    crate::series::lemma_trunc_div_bound(pk0, d0);
    assert(terms(k0) == trunc_div(pk0, d0));
    assert(iabs(terms(k0)) == 0) by (nonlinear_arith)
        requires
            iabs(terms(k0)) * iabs(d0) <= iabs(pk0),
            iabs(pk0) <= 1,
            iabs(d0) >= 2,
            iabs(terms(k0)) >= 0,
    ;
    crate::series::lemma_stop_exists(terms, max, k0);
    let k = first_stop(terms, max);
    assert(stops_at(terms, max, k));
    let s = ln_sum(a, q, x0, k);
    let v = spec_scale(s, calc - p);
    assert(calc - p == -((b + 4) as nat));
    crate::accuracy::lemma_round_error(s, (b + 4) as nat);
    lemma_pow2_unfold((b + 4) as nat);
    assert(2 * iabs(v * dd - s) <= dd);
    assert(ln_spec(arg, p) == Attempt::Success(v, p));
    let w2 = w * w;
    assert(w2 > 0) by (nonlinear_arith)
        requires
            w > 0,
            w2 == w * w,
    ;
    if k == 0 {
        assert(iabs(x0) <= max);
        assert(a == 0) by (nonlinear_arith)
            requires
                iabs(x0) <= max,
                x0 == a * g,
                g == 2 * max,
                max > 0,
        ;
        assert(s == x0);
        assert(x0 == 0) by (nonlinear_arith)
            requires
                x0 == a * g,
                a == 0,
        ;
        assert(v == 0) by (nonlinear_arith)
            requires
                2 * iabs(v * dd - s) <= dd,
                s == 0,
                dd > 0,
        ;
        assert(iabs(16 * w2 * v - 2 * w2 * a + w * (a * a)) <= 2 * iabs(a) * (a * a) + 16 * w2) by (nonlinear_arith)
            requires
                v == 0,
                a == 0,
                w2 > 0,
        ;
    } else {
        let h = pow2((kk - 1) as nat) as int;
        let p1 = ln_power(a, q, x0, 1);
        let p2 = ln_power(a, q, x0, 2);
        let t1 = ln_term(a, q, x0, 1);
        assert(ln_power(a, q, x0, 0) == x0);
        assert(p1 == spec_scale(x0 * a, q));
        assert(p2 == spec_scale(p1 * a, q));
        assert(-kk == q);
        crate::accuracy::lemma_round_error(x0 * a, kk);
        crate::accuracy::lemma_round_error(p1 * a, kk);
        assert(iabs(p1 * w - x0 * a) <= h);
        assert(iabs(p2 * w - p1 * a) <= h);
        assert(1nat % 2 == 1);
        assert(t1 == trunc_div(p1, (1 + 1) * -1int));
        assert((1 + 1) * -1int == -2) by (nonlinear_arith);
        assert(t1 == trunc_div(p1, -2));
        lemma_fundamental_div_mod(iabs(p1), 2);
        if p1 < 0 {
            assert(t1 == iabs(p1) / 2);
        } else {
            assert(t1 == -(iabs(p1) / 2));
        }
        assert(iabs(2 * t1 + p1) <= 1);
        assert(ln_sum(a, q, x0, 0) == x0);
        assert(ln_sum(a, q, x0, 1) == x0 + t1);
        let r = s - (x0 + t1);
        if k >= 2 {
            crate::series::lemma_ln_tail_bound(a, q, x0, 2, k);
            assert(iabs(r) <= iabs(p2));
        } else {
            assert(r == 0);
        }
        assert(iabs(2 * w * (x0 + t1) - (2 * w * x0 - x0 * a)) <= 2 * w) by (nonlinear_arith)
            requires
                iabs(p1 * w - x0 * a) <= h,
                iabs(2 * t1 + p1) <= 1,
                w == 2 * h,
                h > 0,
        ;
        assert(iabs(p1) * w <= iabs(x0) * iabs(a) + h) by (nonlinear_arith)
            requires
                iabs(p1 * w - x0 * a) <= h,
                w > 0,
        ;
        assert(iabs(p2) * w <= iabs(p1) * iabs(a) + h) by (nonlinear_arith)
            requires
                iabs(p2 * w - p1 * a) <= h,
                w > 0,
        ;
        assert(w2 * iabs(p2) <= iabs(x0) * (a * a) + w2) by (nonlinear_arith)
            requires
                iabs(p2) * w <= iabs(p1) * iabs(a) + h,
                iabs(p1) * w <= iabs(x0) * iabs(a) + h,
                2 * iabs(a) <= w,
                w == 2 * h,
                h > 0,
                w2 == w * w,
        ;
        let e = 2 * w * (x0 + t1) - (2 * w * x0 - x0 * a);
        assert(2 * w2 * s - w * (2 * w * x0 - x0 * a) == w * e + 2 * w2 * r) by (nonlinear_arith)
            requires
                e == 2 * w * (x0 + t1) - (2 * w * x0 - x0 * a),
                s == x0 + t1 + r,
                w2 == w * w,
        ;
        assert(iabs(w * e) <= 2 * w2) by (nonlinear_arith)
            requires
                iabs(e) <= 2 * w,
                w2 == w * w,
                w > 0,
        ;
        assert(iabs(2 * w2 * r) <= 2 * iabs(x0) * (a * a) + 2 * w2) by (nonlinear_arith)
            requires
                iabs(r) <= iabs(p2),
                w2 * iabs(p2) <= iabs(x0) * (a * a) + w2,
                w2 > 0,
        ;
        assert(iabs(2 * w2 * s - w * (2 * w * x0 - x0 * a)) <= 4 * w2 + 2 * iabs(x0) * (a * a));
        assert(iabs(2 * w2 * (v * dd) - 2 * w2 * s) <= w2 * dd) by (nonlinear_arith)
            requires
                2 * iabs(v * dd - s) <= dd,
                w2 > 0,
        ;
        let ll = 16 * w2 * v - 2 * w2 * a + w * (a * a);
        assert(2 * w2 * (v * dd) == 16 * (w2 * v * g)) by (nonlinear_arith)
            requires
                dd == 8 * g,
        ;
        assert(w * (2 * w * x0 - x0 * a) == 2 * (w2 * a * g) - w * (a * a) * g) by (nonlinear_arith)
            requires
                x0 == a * g,
                w2 == w * w,
        ;
        assert(ll * g == 16 * (w2 * v * g) - 2 * (w2 * a * g) + w * (a * a) * g) by (nonlinear_arith)
            requires
                ll == 16 * w2 * v - 2 * w2 * a + w * (a * a),
        ;
        assert(ll * g == 2 * w2 * (v * dd) - w * (2 * w * x0 - x0 * a));
        assert((2 * iabs(a) * (a * a) + 16 * w2) * g == 2 * iabs(x0) * (a * a) + 2 * w2 * dd) by (nonlinear_arith)
            requires
                x0 == a * g,
                dd == 8 * g,
                g > 0,
        ;
        assert(4 * w2 <= w2 * dd) by (nonlinear_arith)
            requires
                dd == 8 * g,
                g >= 2,
                w2 > 0,
        ;
        let x1 = 2 * w2 * (v * dd);
        let x2 = w * (2 * w * x0 - x0 * a);
        let y = 2 * iabs(x0) * (a * a);
        assert(iabs(x1 - 2 * w2 * s) <= w2 * dd);
        assert(iabs(2 * w2 * s - x2) <= 4 * w2 + y);
        assert(iabs(x1 - x2) <= 2 * (w2 * dd) + y);
        assert(ll * g == x1 - x2);
        assert((2 * iabs(a) * (a * a) + 16 * w2) * g == y + 2 * (w2 * dd)) by (nonlinear_arith)
            requires
                (2 * iabs(a) * (a * a) + 16 * w2) * g == 2 * iabs(x0) * (a * a) + 2 * w2 * dd,
                y == 2 * iabs(x0) * (a * a),
        ;
        assert(iabs(ll * g) <= (2 * iabs(a) * (a * a) + 16 * w2) * g);
        assert(iabs(16 * w2 * v - 2 * w2 * a + w * (a * a)) <= 2 * iabs(a) * (a * a) + 16 * w2) by (nonlinear_arith)
            requires
                iabs(ll * g) <= (2 * iabs(a) * (a * a) + 16 * w2) * g,
                ll == 16 * w2 * v - 2 * w2 * a + w * (a * a),
                g > 0,
        ;
    }
}

/// The square root gives the root of its argument rounded to the output precision: for an
/// argument known at precision `2 p - 2` (or finer, rounded to it) with `x = a * 2^(2p - 2) >= 0`,
/// the result `v` at precision `p` is not negative and `v * 2^p` lies within half a unit of
/// `sqrt(x)`: `(2 v - 1)^2 <= a < (2 v + 1)^2`, the first bound where `v >= 1`.
pub proof fn lemma_sqrt_brackets(arg: (int, int), p: int)
    requires
        arg.1 <= 2 * p - 2,
        spec_rescaled(arg, 2 * p - 2) >= 0,
    ensures
        rounded_at(spec_rescaled(arg, 2 * p - 2), 2 * p - 2, arg.0, arg.1),
        sqrt_spec(arg, p) is Success,
        sqrt_spec(arg, p)->Success_1 == p,
        ({
            let v = sqrt_spec(arg, p)->Success_0;
            let a = spec_rescaled(arg, 2 * p - 2);
            &&& v >= 0
            &&& v >= 1 ==> (2 * v - 1) * (2 * v - 1) <= a
            &&& a < (2 * v + 1) * (2 * v + 1)
        }),
{
    lemma2_to64();
    let rp = p * 2 - 2;
    let a = spec_rescaled(arg, rp);
    crate::approximate::lemma_scale_rounds(arg.0, arg.1, rp);
    crate::accuracy::lemma_isqrt_exists(a as nat);
    let r = isqrt(a);
    assert(is_isqrt(a, r));
    let v = spec_scale(r, -1);
    crate::approximate::lemma_scale_rounds_to_nearest(r, -1);
    assert(pow2(0) == 1 && pow2(1) == 2);
    assert(v == (r + 1) / 2);
    assert(sqrt_spec(arg, p) == Attempt::Success(v, p));
    lemma_fundamental_div_mod(r + 1, 2);
    assert(2 * v == r || 2 * v == r + 1);
    assert(v >= 1 ==> (2 * v - 1) * (2 * v - 1) <= a) by (nonlinear_arith)
        requires
            2 * v == r || 2 * v == r + 1,
            0 <= r,
            r * r <= a,
    ;
    assert(a < (2 * v + 1) * (2 * v + 1)) by (nonlinear_arith)
        requires
            2 * v == r || 2 * v == r + 1,
            0 <= r,
            a < (r + 1) * (r + 1),
    ;
}

} // verus!
