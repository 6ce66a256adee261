//! How close an approximation comes to an exact fraction.
//!
//! An integer `n` at precision `p` stands for `n * 2^p`. It approximates the fraction
//! `x.0 / x.1` (with `x.1 > 0`) to within one unit when `|n * 2^p - x.0 / x.1| < 2^p`.
//! Multiplying both sides by `x.1 * 2^m`, for any `m` with `p + m >= 0`, keeps the statement
//! in the integers; the lemmas below show that the choice of `m` does not matter and how
//! rounding, rescaling, negation, addition, multiplication and the square root keep the bound.
use vstd::prelude::*;
use vstd::arithmetic::power2::{pow2, lemma2_to64, lemma_pow2_pos, lemma_pow2_adds, lemma_pow2_unfold};
use vstd::arithmetic::div_mod::lemma_fundamental_div_mod;
use crate::bigint::{iabs, trunc_div, is_isqrt, bit_len, lemma_bit_len_bounds};
use crate::approximate::{spec_scale, spec_ratio, lemma_scale_rounds_to_nearest, inverse_spec, Attempt};
use crate::prescaled_value::{spec_msb, spec_rescaled};
use crate::rational::spec_shifted;

verus! {

/// `|n * 2^p - x.0 / x.1| < 2^p`, both sides multiplied by `x.1 * 2^m`.
pub open spec fn within_one_unit_at(n: int, p: int, x: (int, int), m: nat) -> bool {
    iabs(n * x.1 * pow2((p + m) as nat) - x.0 * pow2(m)) < x.1 * pow2((p + m) as nat)
}

/// `n` at precision `p` approximates the fraction `x.0 / x.1` to within one unit:
/// `|n * 2^p - x.0 / x.1| < 2^p`.
pub open spec fn within_one_unit(n: int, p: int, x: (int, int)) -> bool {
    within_one_unit_at(n, p, x, (if p < 0 { -p } else { 0 }) as nat)
}

/// Multiplying both sides by a further `2^t` does not change the statement.
pub proof fn lemma_within_any_scale(n: int, p: int, x: (int, int), m: nat, t: nat)
    requires
        x.1 > 0,
        p + m >= 0,
    ensures
        within_one_unit_at(n, p, x, m) <==> within_one_unit_at(n, p, x, m + t),
{
    let a = pow2((p + m) as nat);
    let b = pow2(m);
    let c = pow2(t);
    lemma_pow2_adds((p + m) as nat, t);
    lemma_pow2_adds(m, t);
    lemma_pow2_pos(t);
    lemma_pow2_pos((p + m) as nat);
    assert(((p + m + t) as nat) == ((p + m) as nat + t) as nat);
    let e = n * x.1 * a - x.0 * b;
    assert(n * x.1 * (a * c) - x.0 * (b * c) == e * c) by (nonlinear_arith)
        requires
            e == n * x.1 * a - x.0 * b,
    ;
    assert(iabs(e * c) == iabs(e) * c) by (nonlinear_arith)
        requires
            c > 0,
    ;
    assert(iabs(e) * c < x.1 * a * c <==> iabs(e) < x.1 * a) by (nonlinear_arith)
        requires
            c > 0,
    ;
    assert(x.1 * (a * c) == x.1 * a * c) by (nonlinear_arith);
}

/// Scaling down by `k` bits rounds to within half a unit: `|scale(y, -k) * 2^k - y| <= 2^(k-1)`.
pub proof fn lemma_round_error(y: int, k: nat)
    requires
        k >= 1,
    ensures
        iabs(spec_scale(y, -k) * pow2(k) - y) <= pow2((k - 1) as nat),
{
    lemma_scale_rounds_to_nearest(y, -k);
    let h = pow2((k - 1) as nat) as int;
    let d = pow2(k) as int;
    lemma_pow2_unfold(k);
    lemma_pow2_pos((k - 1) as nat);
    lemma_fundamental_div_mod(y + h, d);
    assert(((-(-k) - 1) as nat) == (k - 1) as nat);
    assert(((-(-k)) as nat) == k);
}

/// Scaling by zero bits changes nothing.
pub proof fn lemma_scale_zero(y: int)
    ensures
        spec_scale(y, 0) == y,
{
    lemma2_to64();
    assert(pow2(0) == 1);
    assert(spec_scale(y, 0) == y * pow2(0));
    assert(y * 1 == y);
}

/// A value within one unit at precision `e` stays within one unit when rescaled to the
/// coarser precision `r`.
pub proof fn lemma_rescale_within(a: int, e: int, r: int, x: (int, int), m: nat)
    requires
        x.1 > 0,
        e + m >= 0,
        e <= r,
        within_one_unit_at(a, e, x, m),
    ensures
        within_one_unit_at(spec_scale(a, e - r), r, x, m),
{
    let k = (r - e) as nat;
    if k == 0 {
        lemma_scale_zero(a);
    } else {
        let a2 = spec_scale(a, e - r);
        lemma_round_error(a, k);
        let pe = pow2((e + m) as nat);
        let pk = pow2(k);
        let h = pow2((k - 1) as nat);
        lemma_pow2_adds((e + m) as nat, k);
        assert(((e + m) as nat + k) as nat == (r + m) as nat);
        lemma_pow2_unfold(k);
        lemma_pow2_pos((e + m) as nat);
        lemma_pow2_pos((k - 1) as nat);
        let d = x.1;
        let big_n = x.0 * pow2(m);
        let err_round = a2 * pk - a;
        let err_old = a * d * pe - big_n;
        assert(a2 * d * (pe * pk) - big_n == d * pe * err_round + err_old) by (nonlinear_arith)
            requires
                err_round == a2 * pk - a,
                err_old == a * d * pe - big_n,
        ;
        assert(iabs(d * pe * err_round + err_old) < d * (pe * pk)) by (nonlinear_arith)
            requires
                iabs(err_round) <= h,
                iabs(err_old) < d * pe,
                pk == 2 * h,
                h >= 1,
                d > 0,
                pe > 0,
        ;
    }
}

/// Negating a value and the fraction keeps the bound.
pub proof fn lemma_neg_within(a: int, p: int, x: (int, int), m: nat)
    requires
        within_one_unit_at(a, p, x, m),
    ensures
        within_one_unit_at(-a, p, (-x.0, x.1), m),
{
    let pp = pow2((p + m) as nat);
    let b = pow2(m);
    assert((-a) * x.1 * pp - (-x.0) * b == -(a * x.1 * pp - x.0 * b)) by (nonlinear_arith);
}

/// A value within one unit at a precision `q <= 0` of a fraction whose magnitude is at most
/// `L * 2^q` is itself at most `L` in magnitude.
pub proof fn lemma_magnitude_from_within(a: int, q: int, x: (int, int), m: nat, l: int)
    requires
        x.1 > 0,
        q <= 0,
        q + m >= 0,
        within_one_unit_at(a, q, x, m),
        iabs(x.0) * pow2((-q) as nat) <= x.1 * l,
    ensures
        iabs(a) <= l,
{
    let pp = pow2((q + m) as nat) as int;
    let g = pow2((-q) as nat) as int;
    let b = pow2(m) as int;
    lemma_pow2_adds((q + m) as nat, (-q) as nat);
    assert(((q + m) as nat + (-q) as nat) as nat == m);
    lemma_pow2_pos((q + m) as nat);
    let d = x.1;
    let n = x.0;
    assert(iabs(a) * d * pp < d * pp + iabs(n) * b) by (nonlinear_arith)
        requires
            iabs(a * d * pp - n * b) < d * pp,
            d > 0,
            pp > 0,
            b >= 0,
    ;
    assert(iabs(n) * b <= d * l * pp) by (nonlinear_arith)
        requires
            iabs(n) * g <= d * l,
            b == pp * g,
            pp > 0,
    ;
    assert(iabs(a) < 1 + l) by (nonlinear_arith)
        requires
            iabs(a) * d * pp < d * pp + d * l * pp,
            d > 0,
            pp > 0,
    ;
}

/// A value within one unit of a fraction that is not negative is not negative.
pub proof fn lemma_nonnegative_from_within(a: int, q: int, x: (int, int), m: nat)
    requires
        x.1 > 0,
        x.0 >= 0,
        q + m >= 0,
        within_one_unit_at(a, q, x, m),
    ensures
        a >= 0,
{
    let pp = pow2((q + m) as nat) as int;
    let b = pow2(m) as int;
    lemma_pow2_pos((q + m) as nat);
    lemma_pow2_pos(m);
    assert(a > -1) by (nonlinear_arith)
        requires
            iabs(a * x.1 * pp - x.0 * b) < x.1 * pp,
            x.1 > 0,
            x.0 >= 0,
            pp > 0,
            b > 0,
    ;
}

/// `v` at precision `p` approximates the square root of the fraction `x` to within one unit,
/// `|v * 2^p - sqrt(x.0 / x.1)| < 2^p`: `v >= 0`, `x < ((v + 1) * 2^p)^2`, and
/// `((v - 1) * 2^p)^2 < x` when `v >= 1`; both sides multiplied by `x.1 * 2^m`.
pub open spec fn sqrt_within_one_unit_at(v: int, p: int, x: (int, int), m: nat) -> bool {
    let pp = pow2((2 * p + m) as nat);
    &&& v >= 0
    &&& x.0 * pow2(m) < (v + 1) * (v + 1) * x.1 * pp
    &&& v >= 1 ==> (v - 1) * (v - 1) * x.1 * pp < x.0 * pow2(m)
}

/// `|v * 2^p - sqrt(x.0 / x.1)| < 2^p`.
pub open spec fn sqrt_within_one_unit(v: int, p: int, x: (int, int)) -> bool {
    sqrt_within_one_unit_at(v, p, x, (if p < 0 { -2 * p } else { 0 }) as nat)
}

/// Multiplying both sides by a further `2^t` does not change the square root bound.
pub proof fn lemma_sqrt_within_any_scale(v: int, p: int, x: (int, int), m: nat, t: nat)
    requires
        2 * p + m >= 0,
    ensures
        sqrt_within_one_unit_at(v, p, x, m) <==> sqrt_within_one_unit_at(v, p, x, m + t),
{
    let a = pow2((2 * p + m) as nat);
    let b = pow2(m);
    let c = pow2(t);
    lemma_pow2_adds((2 * p + m) as nat, t);
    lemma_pow2_adds(m, t);
    lemma_pow2_pos(t);
    assert(((2 * p + m + t) as nat) == ((2 * p + m) as nat + t) as nat);
    let u = (v + 1) * (v + 1) * x.1;
    let w = (v - 1) * (v - 1) * x.1;
    assert(x.0 * (b * c) < u * (a * c) <==> x.0 * b < u * a) by (nonlinear_arith)
        requires
            c > 0,
    ;
    assert(w * (a * c) < x.0 * (b * c) <==> w * a < x.0 * b) by (nonlinear_arith)
        requires
            c > 0,
    ;
    assert((v + 1) * (v + 1) * x.1 * (a * c) == u * (a * c));
    assert((v - 1) * (v - 1) * x.1 * (a * c) == w * (a * c));
}

/// Every non-negative integer has an integer square root.
pub proof fn lemma_isqrt_exists(y: nat)
    ensures
        exists|r: int| #[trigger] is_isqrt(y as int, r),
    decreases y,
{
    if y == 0 {
        assert(is_isqrt(0, 0));
    } else {
        lemma_isqrt_exists((y - 1) as nat);
        let r = choose|r: int| #[trigger] is_isqrt((y - 1) as int, r);
        if y < (r + 1) * (r + 1) {
            assert(is_isqrt(y as int, r));
        } else {
            assert((r + 1) * (r + 1) <= y < (r + 2) * (r + 2)) by (nonlinear_arith)
                requires
                    y - 1 < (r + 1) * (r + 1),
                    y >= (r + 1) * (r + 1),
                    r >= 0,
            ;
            assert(is_isqrt(y as int, r + 1));
        }
    }
}

/// The square root of a value within one unit at precision `2p - 2` of a non-negative fraction,
/// taken as the operator takes it (integer square root, halved with rounding), is within one unit
/// of the square root of the fraction at precision `p`.
pub proof fn lemma_sqrt_within(a: int, r: int, p: int, x: (int, int), m: nat)
    requires
        x.1 > 0,
        x.0 >= 0,
        2 * p - 2 + m >= 0,
        within_one_unit_at(a, 2 * p - 2, x, m),
        is_isqrt(a, r),
    ensures
        sqrt_within_one_unit_at(spec_scale(r, -1), p, x, m),
{
    let v = spec_scale(r, -1);
    lemma_round_error(r, 1);
    lemma2_to64();
    let pp = pow2((2 * p - 2 + m) as nat) as int;
    let b = pow2(m) as int;
    lemma_pow2_adds((2 * p - 2 + m) as nat, 2);
    assert(((2 * p - 2 + m) as nat + 2) as nat == (2 * p + m) as nat);
    lemma_pow2_pos((2 * p - 2 + m) as nat);
    let d = x.1;
    let n = x.0;
    // 2v is r or r + 1.
    assert(v * 2 == r || v * 2 == r + 1) by (nonlinear_arith)
        requires
            iabs(v * 2 - r) <= 1,
            v * 2 - r != -1,
    {
        lemma_scale_rounds_to_nearest(r, -1);
    }
    assert(v >= 0);
    assert(n * b < (a + 1) * d * pp) by (nonlinear_arith)
        requires
            iabs(a * d * pp - n * b) < d * pp,
    ;
    assert(a + 1 <= (2 * v + 1) * (2 * v + 1)) by (nonlinear_arith)
        requires
            a < (r + 1) * (r + 1),
            r <= 2 * v,
            r >= 0,
    ;
    assert((a + 1) * d * pp <= (v + 1) * (v + 1) * d * (pp * 4)) by (nonlinear_arith)
        requires
            a + 1 <= (2 * v + 1) * (2 * v + 1),
            v >= 0,
            d > 0,
            pp > 0,
    ;
    if v >= 1 {
        assert(n * b > (a - 1) * d * pp) by (nonlinear_arith)
            requires
                iabs(a * d * pp - n * b) < d * pp,
        ;
        assert((2 * v - 2) * (2 * v - 2) <= a - 1) by (nonlinear_arith)
            requires
                r * r <= a,
                2 * v <= r + 1,
                v >= 1,
                r >= 0,
        ;
        assert((v - 1) * (v - 1) * d * (pp * 4) <= (a - 1) * d * pp) by (nonlinear_arith)
            requires
                (2 * v - 2) * (2 * v - 2) <= a - 1,
                d > 0,
                pp > 0,
        ;
    }
}

/// The sum of two fractions.
pub open spec fn sum_fraction(x1: (int, int), x2: (int, int)) -> (int, int) {
    (x1.0 * x2.1 + x2.0 * x1.1, x1.1 * x2.1)
}

/// Two values within one unit at precision `rp`, added and scaled down by two bits, are within
/// one unit of the sum at precision `rp + 2`.
pub proof fn lemma_add_within(v1: int, v2: int, rp: int, x1: (int, int), x2: (int, int), m: nat)
    requires
        x1.1 > 0,
        x2.1 > 0,
        rp + m >= 0,
        within_one_unit_at(v1, rp, x1, m),
        within_one_unit_at(v2, rp, x2, m),
    ensures
        within_one_unit_at(spec_scale(v1 + v2, -2), rp + 2, sum_fraction(x1, x2), m),
{
    let res = spec_scale(v1 + v2, -2);
    lemma_round_error(v1 + v2, 2);
    lemma2_to64();
    let pp = pow2((rp + m) as nat);
    let b = pow2(m);
    lemma_pow2_adds((rp + m) as nat, 2);
    assert(((rp + m) as nat + 2) as nat == (rp + 2 + m) as nat);
    lemma_pow2_pos((rp + m) as nat);
    let (n1, d1) = x1;
    let (n2, d2) = x2;
    let e1 = v1 * d1 * pp - n1 * b;
    let e2 = v2 * d2 * pp - n2 * b;
    let er = res * 4 - (v1 + v2);
    let dd = d1 * d2;
    assert(dd > 0) by (nonlinear_arith)
        requires
            d1 > 0,
            d2 > 0,
            dd == d1 * d2,
    ;
    let t1 = v1 * dd * pp;
    let t2 = v2 * dd * pp;
    assert(d2 * e1 == t1 - (n1 * d2) * b) by (nonlinear_arith)
        requires
            e1 == v1 * d1 * pp - n1 * b,
            t1 == v1 * dd * pp,
            dd == d1 * d2,
    ;
    assert(d1 * e2 == t2 - (n2 * d1) * b) by (nonlinear_arith)
        requires
            e2 == v2 * d2 * pp - n2 * b,
            t2 == v2 * dd * pp,
            dd == d1 * d2,
    ;
    assert(dd * pp * er == res * dd * (pp * 4) - t1 - t2) by (nonlinear_arith)
        requires
            er == res * 4 - (v1 + v2),
            t1 == v1 * dd * pp,
            t2 == v2 * dd * pp,
    ;
    assert((n1 * d2 + n2 * d1) * b == (n1 * d2) * b + (n2 * d1) * b) by (nonlinear_arith);
    assert(res * dd * (pp * 4) - (n1 * d2 + n2 * d1) * b == dd * pp * er + d2 * e1 + d1 * e2);
    assert(iabs(d2 * e1) < dd * pp) by (nonlinear_arith)
        requires
            iabs(e1) < d1 * pp,
            d2 > 0,
            dd == d1 * d2,
    ;
    assert(iabs(d1 * e2) < dd * pp) by (nonlinear_arith)
        requires
            iabs(e2) < d2 * pp,
            d1 > 0,
            dd == d1 * d2,
    ;
    assert(iabs(dd * pp * er) <= 2 * (dd * pp)) by (nonlinear_arith)
        requires
            iabs(er) <= 2,
            dd > 0,
            pp > 0,
    ;
    assert(dd * (pp * 4) == 4 * (dd * pp)) by (nonlinear_arith);
}

/// The product of two fractions.
pub open spec fn product_fraction(x1: (int, int), x2: (int, int)) -> (int, int) {
    (x1.0 * x2.0, x1.1 * x2.1)
}

/// The fraction `x` is small against the precision `q` of a product: `8 * |x| <= 2^(-q)`.
pub open spec fn small_factor(x: (int, int), q: int) -> bool {
    8 * iabs(x.0) <= x.1 * pow2((-q) as nat)
}

/// Two values within one unit at precision `2q`, multiplied and scaled to the precision
/// `q <= -1`, are within one unit of the product when both factors are small against `q`.
pub proof fn lemma_mul_within(v1: int, v2: int, q: int, x1: (int, int), x2: (int, int), m: nat)
    requires
        x1.1 > 0,
        x2.1 > 0,
        q <= -1,
        2 * q + m >= 0,
        within_one_unit_at(v1, 2 * q, x1, m),
        within_one_unit_at(v2, 2 * q, x2, m),
        small_factor(x1, q),
        small_factor(x2, q),
    ensures
        within_one_unit_at(spec_scale(v1 * v2, 3 * q), q, product_fraction(x1, x2), m),
{
    let g = (-q) as nat;
    let (n1, d1) = x1;
    let (n2, d2) = x2;
    let y = v1 * v2;
    let res = spec_scale(y, 3 * q);
    let gg = pow2(g) as int;
    let pp = pow2((2 * q + m) as nat) as int;
    let b = pow2(m) as int;
    let g3 = pow2((3 * g) as nat) as int;
    let h = pow2((3 * g - 1) as nat) as int;
    // The powers of two involved.
    lemma_pow2_adds((2 * q + m) as nat, g);
    assert(((2 * q + m) as nat + g) as nat == (q + m) as nat);
    lemma_pow2_adds((q + m) as nat, g);
    assert(((q + m) as nat + g) as nat == m);
    let pg = pow2((q + m) as nat) as int;
    assert(pg == pp * gg);
    assert(b == pg * gg);
    lemma_pow2_adds(g, g);
    lemma_pow2_adds((g + g) as nat, g);
    assert(((g + g) as nat + g) as nat == (3 * g) as nat);
    assert(g3 == gg * gg * gg) by (nonlinear_arith)
        requires
            g3 == pow2((g + g) as nat) * gg,
            pow2((g + g) as nat) == gg * gg,
    ;
    lemma_pow2_unfold((3 * g) as nat);
    lemma_pow2_pos((3 * g - 1) as nat);
    lemma_pow2_pos(g);
    lemma_pow2_pos((2 * q + m) as nat);
    lemma_pow2_pos(m);
    lemma_pow2_unfold(g);
    lemma_pow2_pos((g - 1) as nat);
    assert(gg >= 2);
    assert(g3 >= 8) by (nonlinear_arith)
        requires
            g3 == gg * gg * gg,
            gg >= 2,
    ;
    // Rounding the product.
    lemma_round_error(y, (3 * g) as nat);
    assert(3 * q == -((3 * g) as nat));
    let er = res * g3 - y;
    assert(iabs(er) <= h);
    assert(g3 == 2 * h);
    // The errors of the factors.
    let e1 = v1 * d1 * pp - n1 * b;
    let e2 = v2 * d2 * pp - n2 * b;
    assert(iabs(e1) < d1 * pp);
    assert(iabs(e2) < d2 * pp);
    let k = d1 * d2;
    assert(k > 0) by (nonlinear_arith)
        requires
            d1 > 0,
            d2 > 0,
            k == d1 * d2,
    ;
    let t = res * k * pg - (n1 * n2) * b;
    // t * b == k * pp * pp * er + n1 * b * e2 + n2 * b * e1 + e1 * e2
    assert((v1 * d1 * pp) * (v2 * d2 * pp) == y * k * (pp * pp)) by (nonlinear_arith)
        requires
            y == v1 * v2,
            k == d1 * d2,
    ;
    let u1 = n1 * b;
    let u2 = n2 * b;
    assert((u1 + e1) * (u2 + e2) == u1 * u2 + u1 * e2 + u2 * e1 + e1 * e2) by (nonlinear_arith);
    assert(u1 * u2 == (n1 * n2) * (b * b)) by (nonlinear_arith)
        requires
            u1 == n1 * b,
            u2 == n2 * b,
    ;
    assert(u1 * e2 == n1 * b * e2) by (nonlinear_arith)
        requires
            u1 == n1 * b,
    ;
    assert(u2 * e1 == n2 * b * e1) by (nonlinear_arith)
        requires
            u2 == n2 * b,
    ;
    assert(v1 * d1 * pp == n1 * b + e1);
    assert(v2 * d2 * pp == n2 * b + e2);
    assert(res * k * pg * b == k * (pp * pp) * (res * g3)) by (nonlinear_arith)
        requires
            pg == pp * gg,
            b == pg * gg,
            g3 == gg * gg * gg,
    ;
    assert(t * b == res * k * pg * b - (n1 * n2) * (b * b)) by (nonlinear_arith)
        requires
            t == res * k * pg - (n1 * n2) * b,
    ;
    assert(k * (pp * pp) * (res * g3) == k * (pp * pp) * er + y * k * (pp * pp)) by (nonlinear_arith)
        requires
            er == res * g3 - y,
    ;
    let r1 = k * (pp * pp) * er;
    let r2 = n1 * b * e2;
    let r3 = n2 * b * e1;
    let r4 = e1 * e2;
    assert(t * b == r1 + r2 + r3 + r4);
    // Each part is at most an eighth of k * pp^2 * g3, the first four eighths.
    let whole = k * (pp * pp) * g3;
    assert(2 * iabs(r1) <= whole) by (nonlinear_arith)
        requires
            r1 == k * (pp * pp) * er,
            whole == k * (pp * pp) * g3,
            iabs(er) <= h,
            g3 == 2 * h,
            k > 0,
    ;
    assert(8 * iabs(r2) <= whole) by (nonlinear_arith)
        requires
            r2 == n1 * b * e2,
            whole == k * (pp * pp) * g3,
            8 * iabs(n1) <= d1 * gg,
            iabs(e2) < d2 * pp,
            b == pp * gg * gg,
            g3 == gg * gg * gg,
            k == d1 * d2,
            b > 0,
            d1 > 0,
            pp > 0,
            gg > 0,
    ;
    assert(8 * iabs(r3) <= whole) by (nonlinear_arith)
        requires
            r3 == n2 * b * e1,
            whole == k * (pp * pp) * g3,
            8 * iabs(n2) <= d2 * gg,
            iabs(e1) < d1 * pp,
            b == pp * gg * gg,
            g3 == gg * gg * gg,
            k == d1 * d2,
            b > 0,
            d2 > 0,
            pp > 0,
            gg > 0,
    ;
    assert(8 * iabs(r4) < whole) by (nonlinear_arith)
        requires
            r4 == e1 * e2,
            whole == k * (pp * pp) * g3,
            iabs(e1) < d1 * pp,
            iabs(e2) < d2 * pp,
            g3 >= 8,
            k == d1 * d2,
            pp > 0,
    ;
    assert(iabs(t * b) < whole);
    assert(iabs(t) < k * pg) by (nonlinear_arith)
        requires
            iabs(t * b) < whole,
            whole == k * (pp * pp) * g3,
            b == pp * gg * gg,
            pg == pp * gg,
            g3 == gg * gg * gg,
            b > 0,
    ;
}

/// The exact value of a literal as a fraction.
pub open spec fn fraction_of_int(v: int) -> (int, int) {
    (v, 1)
}

/// An integer at precision `p`, as `scale(v, -p)` gives it, is within one unit of `v`.
pub proof fn lemma_int_within(v: int, p: int)
    ensures
        within_one_unit(spec_scale(v, -p), p, fraction_of_int(v)),
{
    let n = spec_scale(v, -p);
    lemma2_to64();
    assert(pow2(0) == 1);
    if p <= 0 {
        let m = (-p) as nat;
        assert(n == v * pow2(m));
        assert((p + m) as nat == 0);
        assert(n * 1 * pow2(0) == n);
    } else {
        let k = p as nat;
        lemma_round_error(v, k);
        lemma_pow2_unfold(k);
        lemma_pow2_pos((k - 1) as nat);
        assert((p + 0) as nat == k);
        assert(v * pow2(0) == v);
        assert(n * 1 * pow2(k) == n * pow2(k));
        assert(1 * pow2(k) == pow2(k));
    }
}

/// Rounding toward zero misses by less than the divisor: `|trunc(y / d) * d - y| < d`.
pub proof fn lemma_trunc_div_error(y: int, d: int)
    requires
        d > 0,
    ensures
        iabs(trunc_div(y, d) * d - y) < d,
{
    lemma_fundamental_div_mod(iabs(y), d);
    let q = iabs(y) / d;
    let r = iabs(y) % d;
    if y < 0 {
        assert(trunc_div(y, d) == -q);
        assert((-q) * d - y == r) by (nonlinear_arith)
            requires
                iabs(y) == d * q + r,
                y < 0,
                iabs(y) == -y,
        ;
    } else {
        assert(trunc_div(y, d) == q);
        assert(q * d - y == -r) by (nonlinear_arith)
            requires
                y == d * q + r,
        ;
    }
}

/// A fraction at precision `p`, as `ratio` gives it, is within one unit of the fraction.
pub proof fn lemma_ratio_within(x: (int, int), p: int)
    requires
        x.1 > 0,
    ensures
        within_one_unit(spec_ratio(x, p), p, x),
{
    lemma2_to64();
    let (nn, d) = x;
    assert(pow2(0) == 1);
    if p < 0 {
        let m = (-p) as nat;
        let n = spec_ratio(x, p);
        assert(n == trunc_div(nn * pow2(m), d));
        lemma_trunc_div_error(nn * pow2(m), d);
        assert((p + m) as nat == 0);
        assert(n * d * pow2(0) == n * d);
        assert(d * pow2(0) == d);
    } else {
        let t = spec_shifted(x, 0);
        assert(t == trunc_div(nn * pow2(0), d));
        assert(nn * pow2(0) == nn);
        lemma_trunc_div_error(nn, d);
        let n = spec_ratio(x, p);
        assert(n == spec_scale(t, -p));
        assert((p + 0) as nat == p as nat);
        assert(nn * pow2(0) == nn);
        if p == 0 {
            lemma_scale_zero(t);
            assert(n * d * pow2(0) == n * d);
            assert(d * pow2(0) == d);
        } else {
            let k = p as nat;
            lemma_round_error(t, k);
            lemma_pow2_unfold(k);
            lemma_pow2_pos((k - 1) as nat);
            let pk = pow2(k);
            let h = pow2((k - 1) as nat);
            let er = n * pk - t;
            let et = t * d - nn;
            assert(n * d * pk - nn * 1 == d * er + et) by (nonlinear_arith)
                requires
                    er == n * pk - t,
                    et == t * d - nn,
            ;
            assert(iabs(d * er + et) < d * pk) by (nonlinear_arith)
                requires
                    iabs(er) <= h,
                    iabs(et) < d,
                    pk == 2 * h,
                    h >= 1,
                    d > 0,
            ;
        }
    }
}

/// The fraction `1 / x` of a nonzero fraction `x`, with a positive denominator.
pub open spec fn inverse_fraction(x: (int, int)) -> (int, int) {
    if x.0 > 0 {
        (x.1, x.0)
    } else {
        (-x.1, -x.0)
    }
}

/// The error bound of the inverse in units of the precision it reads its argument at: `dp`
/// stands for the fraction `xn / xd` to within one unit and is at least `g >= 4` in magnitude,
/// and `r` rounds `l / |dp|` where `16 * l == g * g`; then `r` is within one unit of
/// `l * xd / |xn|`, and `xn` has the sign of `dp`.
proof fn lemma_inverse_core(dp: int, xn: int, xd: int, g: int, l: int, r: int)
    requires
        xd > 0,
        g >= 4,
        16 * l == g * g,
        iabs(dp) >= g,
        iabs(dp * xd - xn) < xd,
        2 * iabs(r * iabs(dp) - l) <= iabs(dp),
    ensures
        iabs(r * iabs(xn) - l * xd) < iabs(xn),
        dp > 0 ==> xn > 0,
        dp < 0 ==> xn < 0,
{
    let ad = iabs(dp);
    let an = iabs(xn);
    assert(iabs(ad * xd - an) < xd && an > (ad - 1) * xd) by (nonlinear_arith)
        requires
            iabs(dp * xd - xn) < xd,
            xd > 0,
            iabs(dp) >= 4,
            ad == iabs(dp),
            an == iabs(xn),
    ;
    assert(dp > 0 ==> xn > 0) by (nonlinear_arith)
        requires
            iabs(dp * xd - xn) < xd,
            xd > 0,
            iabs(dp) >= 4,
    ;
    assert(dp < 0 ==> xn < 0) by (nonlinear_arith)
        requires
            iabs(dp * xd - xn) < xd,
            xd > 0,
            iabs(dp) >= 4,
    ;
    assert(l >= 1) by (nonlinear_arith)
        requires
            16 * l == g * g,
            g >= 4,
    ;
    let e1 = r * ad - l;
    let e2 = an - ad * xd;
    assert(ad * (r * an - l * xd) == e1 * an + l * e2) by (nonlinear_arith)
        requires
            e1 == r * ad - l,
            e2 == an - ad * xd,
    ;
    assert(16 * l * xd <= ad * ad * xd) by (nonlinear_arith)
        requires
            16 * l == g * g,
            ad >= g,
            g >= 4,
            xd > 0,
    ;
    assert(2 * l * xd < ad * an) by (nonlinear_arith)
        requires
            16 * l * xd <= ad * ad * xd,
            an > (ad - 1) * xd,
            ad >= 4,
            xd > 0,
    ;
    assert(iabs(ad * (r * an - l * xd)) < ad * an) by (nonlinear_arith)
        requires
            ad * (r * an - l * xd) == e1 * an + l * e2,
            2 * iabs(e1) <= ad,
            iabs(e2) < xd,
            2 * l * xd < ad * an,
            l >= 1,
            an >= 0,
            ad >= 4,
    ;
    assert(iabs(r * an - l * xd) < an) by (nonlinear_arith)
        requires
            iabs(ad * (r * an - l * xd)) < ad * an,
            ad > 0,
    ;
}

/// When the inverse of an approximation `a`, within one unit of the fraction `x`, takes its
/// main branch (it does not round to zero at once) and gives a value, that value is within one
/// unit of `1 / x`.
pub proof fn lemma_inverse_within(a: (int, int), p: int, x: (int, int), m: nat)
    requires
        x.1 > 0,
        a.1 + m >= 0,
        within_one_unit_at(a.0, a.1, x, m),
        a.0 != 0,
        -p - (2 * spec_msb(a) + p - 4) >= 0,
        inverse_spec(a, p) is Success,
    ensures
        x.0 != 0,
        within_one_unit(inverse_spec(a, p)->Success_0, p, inverse_fraction(x)),
{
    lemma2_to64();
    let d = a.0;
    let e = a.1;
    lemma_bit_len_bounds(iabs(d) as nat);
    let bl = bit_len(iabs(d) as nat);
    let msb = spec_msb(a);
    let pn = 2 * msb + p - 4;
    let lsf = -p - pn;
    assert(e <= pn);
    let k = (pn - e) as nat;
    let gx = (msb - pn) as nat;
    assert(lsf == 2 * gx - 4);
    let g = pow2(gx) as int;
    let l = pow2(lsf as nat) as int;
    lemma_pow2_adds(lsf as nat, 4);
    assert((lsf as nat + 4) as nat == gx + gx);
    lemma_pow2_adds(gx, gx);
    assert(pow2(4) == 16);
    assert(16 * l == g * g);
    lemma_pow2_adds(2, (gx - 2) as nat);
    lemma_pow2_pos((gx - 2) as nat);
    assert(g >= 4);
    let pk = pow2(k) as int;
    lemma_pow2_pos(k);
    lemma_pow2_adds(gx, k);
    assert((bl - 1) as nat == gx + k);
    assert(iabs(d) >= g * pk);
    let dp = spec_rescaled(a, pn);
    let pe = pow2((e + m) as nat) as int;
    lemma_pow2_pos((e + m) as nat);
    lemma_pow2_adds((e + m) as nat, k);
    assert(((e + m) as nat + k) as nat == (pn + m) as nat);
    let bb = pow2(m) as int;
    lemma_pow2_pos(m);
    let xd = x.1 * pow2((pn + m) as nat);
    let xn = x.0 * bb;
    assert(xd == x.1 * pe * pk) by (nonlinear_arith)
        requires
            xd == x.1 * (pe * pk),
    ;
    let e0 = d * x.1 * pe - x.0 * bb;
    assert(iabs(e0) < x.1 * pe);
    if k >= 1 {
        lemma_round_error(d, k);
        lemma_pow2_unfold(k);
        let h = pow2((k - 1) as nat) as int;
        lemma_pow2_pos((k - 1) as nat);
        assert(dp == spec_scale(d, -k));
        assert(iabs(dp) >= g) by (nonlinear_arith)
            requires
                iabs(dp * pk - d) <= h,
                pk == 2 * h,
                h >= 1,
                iabs(d) >= g * pk,
                g >= 4,
        ;
        assert(dp * xd - xn == x.1 * pe * (dp * pk - d) + e0) by (nonlinear_arith)
            requires
                xd == x.1 * pe * pk,
                e0 == d * x.1 * pe - x.0 * bb,
                xn == x.0 * bb,
        ;
        assert(iabs(dp * xd - xn) < xd) by (nonlinear_arith)
            requires
                dp * xd - xn == x.1 * pe * (dp * pk - d) + e0,
                iabs(dp * pk - d) <= h,
                iabs(e0) < x.1 * pe,
                xd == x.1 * pe * pk,
                pk == 2 * h,
                h >= 1,
                x.1 > 0,
                pe > 0,
        ;
    } else {
        assert(pk == 1);
        assert(dp == spec_scale(d, 0));
        assert(pow2(0) == 1);
        assert(dp == d * 1);
        assert(iabs(dp) >= g);
        assert(dp * xd - xn == e0) by (nonlinear_arith)
            requires
                xd == x.1 * pe * pk,
                pk == 1,
                dp == d,
                e0 == d * x.1 * pe - x.0 * bb,
                xn == x.0 * bb,
        ;
    }
    let ad = iabs(dp);
    let num = l + ad / 2;
    let r = trunc_div(num, ad);
    lemma_fundamental_div_mod(num, ad);
    lemma_fundamental_div_mod(ad, 2);
    assert(r == num / ad);
    assert(2 * iabs(r * ad - l) <= ad) by (nonlinear_arith)
        requires
            num == ad * (num / ad) + num % ad,
            0 <= num % ad < ad,
            ad == 2 * (ad / 2) + ad % 2,
            0 <= ad % 2 < 2,
            num == l + ad / 2,
            r == num / ad,
    ;
    lemma_inverse_core(dp, xn, xd, g, l, r);
    assert(inverse_spec(a, p)->Success_0 == if dp < 0 { -r } else { r });
    // Back from the units of the argument's precision to those of `p`.
    lemma_pow2_adds(lsf as nat, (pn + m) as nat);
    assert((lsf as nat + (pn + m) as nat) as nat == (m - p) as nat);
    let c = pow2((m - p) as nat) as int;
    lemma_pow2_pos((m - p) as nat);
    assert(l * xd == x.1 * c) by (nonlinear_arith)
        requires
            xd == x.1 * pow2((pn + m) as nat),
            c == l * pow2((pn + m) as nat),
    ;
    let ax = iabs(x.0);
    assert(iabs(xn) == ax * bb) by (nonlinear_arith)
        requires
            xn == x.0 * bb,
            bb > 0,
            ax == iabs(x.0),
    ;
    assert(xn != 0);
    assert(x.0 != 0) by (nonlinear_arith)
        requires
            xn == x.0 * bb,
            xn != 0,
    ;
    let y = inverse_fraction(x);
    let v = inverse_spec(a, p)->Success_0;
    assert(y.1 == ax);
    assert(xn > 0 <==> x.0 > 0) by (nonlinear_arith)
        requires
            xn == x.0 * bb,
            bb > 0,
    ;
    if dp > 0 {
        assert(v * y.1 == r * ax);
    } else {
        assert(v * y.1 == -(r * ax)) by (nonlinear_arith)
            requires
                v == -r,
                y.1 == ax,
        ;
    }
    assert(v * y.1 == (if x.0 > 0 { r * ax } else { -(r * ax) }));
    if p < 0 {
        let q = (-p) as nat;
        lemma_pow2_adds(m, q);
        assert((m + q) as nat == (m - p) as nat);
        let pq = pow2(q) as int;
        assert(iabs(r * ax * bb - x.1 * (bb * pq)) < ax * bb) by (nonlinear_arith)
            requires
                iabs(r * iabs(xn) - l * xd) < iabs(xn),
                iabs(xn) == ax * bb,
                l * xd == x.1 * c,
                c == bb * pq,
        ;
        assert(iabs(r * ax - x.1 * pq) < ax) by (nonlinear_arith)
            requires
                iabs(r * ax * bb - x.1 * (bb * pq)) < ax * bb,
                bb > 0,
        ;
        assert((p + q) as nat == 0);
        assert(pow2(0) == 1);
        let w = v * y.1 * pow2(0) - y.0 * pow2(q);
        assert(iabs(w) == iabs(r * ax - x.1 * pq)) by (nonlinear_arith)
            requires
                w == v * y.1 * pow2(0) - y.0 * pow2(q),
                pow2(0) == 1,
                pq == pow2(q),
                v * y.1 == (if x.0 > 0 { r * ax } else { -(r * ax) }),
                y.0 == (if x.0 > 0 { x.1 } else { -x.1 }),
        ;
        assert(within_one_unit_at(v, p, y, q));
    } else {
        let pp = p as nat;
        lemma_pow2_adds((m - p) as nat, pp);
        assert(((m - p) as nat + pp) as nat == m);
        let p2 = pow2(pp) as int;
        assert(iabs(r * ax * (c * p2) - x.1 * c) < ax * (c * p2)) by (nonlinear_arith)
            requires
                iabs(r * iabs(xn) - l * xd) < iabs(xn),
                iabs(xn) == ax * bb,
                l * xd == x.1 * c,
                bb == c * p2,
        ;
        assert(iabs(r * ax * p2 - x.1) < ax * p2) by (nonlinear_arith)
            requires
                iabs(r * ax * (c * p2) - x.1 * c) < ax * (c * p2),
                c > 0,
        ;
        assert((p + 0) as nat == pp);
        assert(pow2(0) == 1);
        let w = v * y.1 * pow2(pp) - y.0 * pow2(0);
        assert(iabs(w) == iabs(r * ax * p2 - x.1)) by (nonlinear_arith)
            requires
                w == v * y.1 * pow2(pp) - y.0 * pow2(0),
                pow2(0) == 1,
                p2 == pow2(pp),
                v * y.1 == (if x.0 > 0 { r * ax } else { -(r * ax) }),
                y.0 == (if x.0 > 0 { x.1 } else { -x.1 }),
        ;
        assert(y.1 * pow2(pp) == ax * p2);
        assert(within_one_unit_at(v, p, y, 0));
    }
}

/// When the inverse of an approximation `a` of at least 2 in magnitude, within one unit of the
/// fraction `x`, rounds to zero at once, `x` is large enough for zero to lie within one unit of
/// `1 / x`.
pub proof fn lemma_inverse_zero_within(a: (int, int), p: int, x: (int, int), m: nat)
    requires
        x.1 > 0,
        a.1 + m >= 0,
        within_one_unit_at(a.0, a.1, x, m),
        iabs(a.0) >= 2,
        -p - (2 * spec_msb(a) + p - 4) < 0,
    ensures
        x.0 != 0,
        inverse_spec(a, p) == Attempt::Success(0, p),
        within_one_unit(0, p, inverse_fraction(x)),
{
    lemma2_to64();
    let d = a.0;
    let e = a.1;
    lemma_bit_len_bounds(iabs(d) as nat);
    let bl = bit_len(iabs(d) as nat);
    let msb = spec_msb(a);
    assert(bl >= 2) by {
        if bl < 2 {
            assert(pow2(bl) <= 2) by {
                if bl == 0 {
                } else {
                    assert(bl == 1);
                }
            }
        }
    }
    let hb = pow2((bl - 2) as nat) as int;
    lemma_pow2_pos((bl - 2) as nat);
    lemma_pow2_unfold((bl - 1) as nat);
    assert(iabs(d) - 1 >= hb);
    let pe = pow2((e + m) as nat) as int;
    lemma_pow2_pos((e + m) as nat);
    let bb = pow2(m) as int;
    lemma_pow2_pos(m);
    let e1 = (msb - 1 + m) as nat;
    lemma_pow2_adds((bl - 2) as nat, (e + m) as nat);
    assert(((bl - 2) as nat + (e + m) as nat) as nat == e1);
    let pw = pow2(e1) as int;
    assert(pw == hb * pe);
    let ax = iabs(x.0);
    assert(ax * bb > x.1 * pw) by (nonlinear_arith)
        requires
            iabs(d * x.1 * pe - x.0 * bb) < x.1 * pe,
            iabs(d) - 1 >= hb,
            pw == hb * pe,
            x.1 > 0,
            pe > 0,
            bb > 0,
            ax == iabs(x.0),
    ;
    lemma_pow2_pos(e1);
    assert(x.0 != 0) by (nonlinear_arith)
        requires
            ax * bb > x.1 * pw,
            ax == iabs(x.0),
            x.1 > 0,
            pw > 0,
    ;
    let m0: nat = (if p < 0 { -p } else { 0 }) as nat;
    let s = (msb - 1 + p) as nat;
    let pm0 = pow2((p + m0) as nat) as int;
    lemma_pow2_pos((p + m0) as nat);
    lemma_pow2_adds(e1, (p + m0) as nat);
    assert((e1 + (p + m0) as nat) as nat == ((m + m0) as nat + s) as nat);
    lemma_pow2_adds((m + m0) as nat, s);
    lemma_pow2_pos(s);
    lemma_pow2_adds(m, m0);
    let c0 = pow2(m0) as int;
    lemma_pow2_pos(m0);
    assert(bb * c0 <= pw * pm0) by (nonlinear_arith)
        requires
            pw * pm0 == bb * c0 * pow2(s),
            pow2(s) >= 1,
            bb > 0,
            c0 > 0,
    ;
    assert(x.1 * c0 < ax * pm0) by (nonlinear_arith)
        requires
            ax * bb > x.1 * pw,
            bb * c0 <= pw * pm0,
            x.1 > 0,
            bb > 0,
            pm0 > 0,
            c0 > 0,
    ;
    let y = inverse_fraction(x);
    assert(iabs(0 * y.1 * pm0 - y.0 * c0) == x.1 * c0) by (nonlinear_arith)
        requires
            y.0 == (if x.0 > 0 { x.1 } else { -x.1 }),
            x.1 > 0,
            c0 > 0,
    ;
    assert(within_one_unit_at(0, p, y, m0));
}

} // verus!
