//! The Taylor series that the transcendental operators sum, with the rounding
//! of every step, and the bounds that make each summation finish.
use vstd::prelude::*;
use vstd::arithmetic::power2::{pow2, lemma_pow2_pos, lemma_pow2_unfold};
use vstd::arithmetic::div_mod::lemma_fundamental_div_mod;
use crate::bigint::{iabs, trunc_div};
use crate::approximate::{spec_scale, lemma_scale_rounds_to_nearest};

verus! {

/// The `k`-th term of the cosine series: each term is the previous one times
/// `-x^2 / (n (n - 1))` with `n = 2k`, each multiplication by `x` rounded at precision `q`.
pub open spec fn cos_term(a: int, q: int, t0: int, k: nat) -> int
    decreases k,
{
    if k == 0 {
        t0
    } else {
        let n = 2 * k;
        let t = cos_term(a, q, t0, (k - 1) as nat);
        trunc_div(spec_scale(spec_scale(t * a, q) * a, q), (-n) * (n - 1))
    }
}

/// The sum of the cosine terms `0..=k`.
pub open spec fn cos_sum(a: int, q: int, t0: int, k: nat) -> int
    decreases k,
{
    if k == 0 {
        t0
    } else {
        cos_sum(a, q, t0, (k - 1) as nat) + cos_term(a, q, t0, k)
    }
}

/// The `k`-th term of the exponential series: the previous term times `x / k`.
pub open spec fn exp_term(a: int, q: int, t0: int, k: nat) -> int
    decreases k,
{
    if k == 0 {
        t0
    } else {
        trunc_div(spec_scale(exp_term(a, q, t0, (k - 1) as nat) * a, q), k as int)
    }
}

/// The sum of the exponential terms `0..=k`.
pub open spec fn exp_sum(a: int, q: int, t0: int, k: nat) -> int
    decreases k,
{
    if k == 0 {
        t0
    } else {
        exp_sum(a, q, t0, (k - 1) as nat) + exp_term(a, q, t0, k)
    }
}

/// `x^(k+1)` for the logarithm series, each multiplication rounded at precision `q`.
pub open spec fn ln_power(a: int, q: int, x0: int, k: nat) -> int
    decreases k,
{
    if k == 0 {
        x0
    } else {
        spec_scale(ln_power(a, q, x0, (k - 1) as nat) * a, q)
    }
}

/// The `k`-th term of the series of `ln(1 + x)`: `(-1)^k x^(k+1) / (k + 1)`.
pub open spec fn ln_term(a: int, q: int, x0: int, k: nat) -> int {
    if k == 0 {
        x0
    } else {
        trunc_div(ln_power(a, q, x0, k), (k + 1) * (if k % 2 == 1 { -1int } else { 1int }))
    }
}

/// The sum of the logarithm terms `0..=k`.
pub open spec fn ln_sum(a: int, q: int, x0: int, k: nat) -> int
    decreases k,
{
    if k == 0 {
        x0
    } else {
        ln_sum(a, q, x0, (k - 1) as nat) + ln_term(a, q, x0, k)
    }
}

/// `k` is the first index whose term is at most `max` in magnitude.
pub open spec fn stops_at(terms: spec_fn(nat) -> int, max: int, k: nat) -> bool {
    &&& iabs(terms(k)) <= max
    &&& forall|j: nat| j < k ==> iabs(#[trigger] terms(j)) > max
}

/// The first index whose term is at most `max` in magnitude.
pub open spec fn first_stop(terms: spec_fn(nat) -> int, max: int) -> nat {
    choose|k: nat| stops_at(terms, max, k)
}

/// A series stops at one index only, and `first_stop` names it.
pub proof fn lemma_first_stop(terms: spec_fn(nat) -> int, max: int, k: nat)
    requires
        stops_at(terms, max, k),
    ensures
        first_stop(terms, max) == k,
{
    let c = first_stop(terms, max);
    assert(stops_at(terms, max, c));
    if c < k {
        assert(iabs(terms(c)) > max);
    } else if k < c {
        assert(iabs(terms(k)) > max);
    }
}

/// `lo <= y / d <= hi` when `lo * d <= y < (hi + 1) * d`.
pub proof fn lemma_floor_div_bounds(y: int, d: int, lo: int, hi: int)
    requires
        d > 0,
        lo * d <= y,
        y < (hi + 1) * d,
    ensures
        lo <= y / d <= hi,
{
    lemma_fundamental_div_mod(y, d);
    let q = y / d;
    let r = y % d;
    assert(lo <= q <= hi) by (nonlinear_arith)
        requires
            d > 0,
            y == d * q + r,
            0 <= r < d,
            lo * d <= y,
            y < (hi + 1) * d,
    ;
}

/// Rounding `t * a` at precision `q` does not grow `t` when `|a| <= 2^(-q)`.
pub proof fn lemma_scale_product_bounded(t: int, a: int, q: int)
    requires
        q < 0,
        iabs(a) <= pow2((-q) as nat),
    ensures
        iabs(spec_scale(t * a, q)) <= iabs(t),
{
    let k = (-q) as nat;
    let d = pow2(k) as int;
    let h = pow2((k - 1) as nat) as int;
    lemma_scale_rounds_to_nearest(t * a, q);
    lemma_pow2_unfold(k);
    lemma_pow2_pos((k - 1) as nat);
    let m = iabs(t);
    let x = t * a;
    assert(-m * d <= x <= m * d) by (nonlinear_arith)
        requires
            m == iabs(t),
            x == t * a,
            iabs(a) <= d,
    ;
    assert(-m * d <= x + h && x + h < (m + 1) * d) by (nonlinear_arith)
        requires
            -m * d <= x <= m * d,
            d == 2 * h,
            h > 0,
            m >= 0,
    ;
    lemma_floor_div_bounds(x + h, d, -m, m);
}

/// Rounding `x * a` at precision `q` at least halves `x` (rounding up) when `2 |a| <= 2^(-q)`.
pub proof fn lemma_scale_product_halves(x: int, a: int, q: int)
    requires
        q < 0,
        2 * iabs(a) <= pow2((-q) as nat),
    ensures
        iabs(spec_scale(x * a, q)) <= (iabs(x) + 1) / 2,
{
    let k = (-q) as nat;
    let d = pow2(k) as int;
    let h = pow2((k - 1) as nat) as int;
    lemma_scale_rounds_to_nearest(x * a, q);
    lemma_pow2_unfold(k);
    lemma_pow2_pos((k - 1) as nat);
    let m = iabs(x);
    let c = (m + 1) / 2;
    let y = x * a;
    assert(-m * h <= y <= m * h) by (nonlinear_arith)
        requires
            m == iabs(x),
            y == x * a,
            iabs(a) <= h,
    ;
    assert(-c * d <= y + h && y + h < (c + 1) * d) by (nonlinear_arith)
        requires
            -m * h <= y <= m * h,
            d == 2 * h,
            h > 0,
            c == (m + 1) / 2,
            m >= 0,
    ;
    lemma_floor_div_bounds(y + h, d, -c, c);
}

/// Dividing (toward zero) by `n` divides the magnitude by `|n|`.
pub proof fn lemma_trunc_div_bound(y: int, n: int)
    requires
        n != 0,
    ensures
        iabs(trunc_div(y, n)) == iabs(y) / iabs(n),
        iabs(trunc_div(y, n)) * iabs(n) <= iabs(y),
{
    lemma_fundamental_div_mod(iabs(y), iabs(n));
    assert(iabs(y) / iabs(n) >= 0) by {
        vstd::arithmetic::div_mod::lemma_div_pos_is_pos(iabs(y), iabs(n));
    }
    let qq = iabs(y) / iabs(n);
    assert(qq * iabs(n) <= iabs(y)) by (nonlinear_arith)
        requires
            iabs(y) == iabs(n) * qq + iabs(y) % iabs(n),
            iabs(y) % iabs(n) >= 0,
    ;
}

/// Each cosine term is at most half the previous one when `|a| <= 2^(-q)`.
pub proof fn lemma_cos_term_halves(a: int, q: int, t0: int, k: nat)
    requires
        q < 0,
        iabs(a) <= pow2((-q) as nat),
    ensures
        2 * iabs(cos_term(a, q, t0, k + 1)) <= iabs(cos_term(a, q, t0, k)),
{
    let t = cos_term(a, q, t0, k);
    let n = 2 * (k + 1);
    let s1 = spec_scale(t * a, q);
    let s2 = spec_scale(s1 * a, q);
    lemma_scale_product_bounded(t, a, q);
    lemma_scale_product_bounded(s1, a, q);
    assert(iabs((-n) * (n - 1)) >= 2) by (nonlinear_arith)
        requires
            n >= 2,
    ;
    lemma_trunc_div_bound(s2, (-n) * (n - 1));
    let r = trunc_div(s2, (-n) * (n - 1));
    assert(cos_term(a, q, t0, k + 1) == r);
    assert(2 * iabs(r) <= iabs(s2)) by (nonlinear_arith)
        requires
            iabs(r) * iabs((-n) * (n - 1)) <= iabs(s2),
            iabs((-n) * (n - 1)) >= 2,
            iabs(r) >= 0,
    ;
}

/// Each exponential term is at most the previous one, and at most half of it from the second on,
/// when `|a| < 2^(-q)`.
pub proof fn lemma_exp_term_shrinks(a: int, q: int, t0: int, k: nat)
    requires
        q < 0,
        iabs(a) < pow2((-q) as nat),
    ensures
        iabs(exp_term(a, q, t0, k + 1)) <= iabs(exp_term(a, q, t0, k)),
        k >= 1 ==> 2 * iabs(exp_term(a, q, t0, k + 1)) <= iabs(exp_term(a, q, t0, k)),
{
    let t = exp_term(a, q, t0, k);
    let s = spec_scale(t * a, q);
    lemma_scale_product_bounded(t, a, q);
    lemma_trunc_div_bound(s, (k + 1) as int);
    let r = trunc_div(s, (k + 1) as int);
    assert(exp_term(a, q, t0, k + 1) == r);
    assert(iabs(r) <= iabs(s) && (k >= 1 ==> 2 * iabs(r) <= iabs(s))) by (nonlinear_arith)
        requires
            iabs(r) * (k + 1) <= iabs(s),
            iabs(r) >= 0,
            k >= 0,
    ;
}

/// The powers of the logarithm series halve (rounding up) when `2 |a| <= 2^(-q)`.
pub proof fn lemma_ln_power_halves(a: int, q: int, x0: int, k: nat)
    requires
        q < 0,
        2 * iabs(a) <= pow2((-q) as nat),
    ensures
        iabs(ln_power(a, q, x0, k + 1)) <= (iabs(ln_power(a, q, x0, k)) + 1) / 2,
{
    lemma_scale_product_halves(ln_power(a, q, x0, k), a, q);
}

/// Rounding at a precision `q < 0` keeps the sign: a value of one sign rounds to that sign or
/// to zero.
pub proof fn lemma_scale_keeps_sign(y: int, q: int)
    requires
        q < 0,
    ensures
        y >= 0 ==> spec_scale(y, q) >= 0,
        y <= 0 ==> spec_scale(y, q) <= 0,
{
    let k = (-q) as nat;
    lemma_scale_rounds_to_nearest(y, q);
    lemma_pow2_unfold(k);
    lemma_pow2_pos((k - 1) as nat);
    let d = pow2(k) as int;
    let h = pow2((k - 1) as nat) as int;
    assert(((-q - 1) as nat) == (k - 1) as nat);
    lemma_fundamental_div_mod(y + h, d);
    let qq = (y + h) / d;
    let r = (y + h) % d;
    assert(y >= 0 ==> qq >= 0) by (nonlinear_arith)
        requires
            y + h == d * qq + r,
            0 <= r < d,
            h > 0,
            d > 0,
    ;
    assert(y <= 0 ==> qq <= 0) by (nonlinear_arith)
        requires
            y + h == d * qq + r,
            0 <= r < d,
            d == 2 * h,
            h > 0,
    ;
}

/// Dividing toward zero by a negative number turns the sign.
proof fn lemma_trunc_div_negative(y: int, n: int)
    requires
        n < 0,
    ensures
        y >= 0 ==> trunc_div(y, n) <= 0,
        y <= 0 ==> trunc_div(y, n) >= 0,
{
    vstd::arithmetic::div_mod::lemma_div_pos_is_pos(iabs(y), iabs(n));
}

/// The cosine terms alternate in sign, starting from a term `t0 >= 0`: even terms are not
/// negative, odd terms not positive.
pub proof fn lemma_cos_term_sign(a: int, q: int, t0: int, k: nat)
    requires
        q < 0,
        t0 >= 0,
    ensures
        k % 2 == 0 ==> cos_term(a, q, t0, k) >= 0,
        k % 2 == 1 ==> cos_term(a, q, t0, k) <= 0,
    decreases k,
{
    if k > 0 {
        lemma_cos_term_sign(a, q, t0, (k - 1) as nat);
        let t = cos_term(a, q, t0, (k - 1) as nat);
        let n = 2 * k;
        let s1 = spec_scale(t * a, q);
        let s2 = spec_scale(s1 * a, q);
        lemma_scale_keeps_sign(t * a, q);
        lemma_scale_keeps_sign(s1 * a, q);
        assert(t >= 0 ==> s1 * a >= 0) by (nonlinear_arith)
            requires
                t * a >= 0 ==> s1 >= 0,
                t * a <= 0 ==> s1 <= 0,
        ;
        assert(t <= 0 ==> s1 * a <= 0) by (nonlinear_arith)
            requires
                t * a >= 0 ==> s1 >= 0,
                t * a <= 0 ==> s1 <= 0,
        ;
        assert((-n) * (n - 1) < 0) by (nonlinear_arith)
            requires
                n >= 2,
        ;
        lemma_trunc_div_negative(s2, (-n) * (n - 1));
        assert(cos_term(a, q, t0, k) == trunc_div(s2, (-n) * (n - 1)));
    }
}

/// `|t_k| * 2^k <= t0`: each cosine term is at most half the one before.
pub proof fn lemma_cos_term_decay(a: int, q: int, t0: int, k: nat)
    requires
        q < 0,
        t0 >= 0,
        iabs(a) <= pow2((-q) as nat),
    ensures
        iabs(cos_term(a, q, t0, k)) * pow2(k) <= t0,
    decreases k,
{
    if k == 0 {
        vstd::arithmetic::power2::lemma2_to64();
    } else {
        let j = (k - 1) as nat;
        lemma_cos_term_decay(a, q, t0, j);
        lemma_cos_term_halves(a, q, t0, j);
        lemma_pow2_unfold(k);
        lemma_pow2_pos(j);
        assert(iabs(cos_term(a, q, t0, k)) * pow2(k) <= t0) by (nonlinear_arith)
            requires
                2 * iabs(cos_term(a, q, t0, k)) <= iabs(cos_term(a, q, t0, j)),
                iabs(cos_term(a, q, t0, j)) * pow2(j) <= t0,
                pow2(k) == 2 * pow2(j),
                pow2(j) > 0,
        ;
    }
}

/// The partial sums of the cosine series from the second on lie between the first two:
/// `S_1 <= S_k <= S_2`, since the terms alternate in sign and shrink.
pub proof fn lemma_cos_sum_bracket(a: int, q: int, t0: int, k: nat)
    requires
        q < 0,
        t0 >= 0,
        iabs(a) <= pow2((-q) as nat),
        k >= 1,
    ensures
        cos_sum(a, q, t0, 1) <= cos_sum(a, q, t0, k),
        cos_sum(a, q, t0, k) <= cos_sum(a, q, t0, 1) + cos_term(a, q, t0, 2),
        k % 2 == 1 ==> cos_sum(a, q, t0, k) + cos_term(a, q, t0, k + 1) <= cos_sum(a, q, t0, 1) + cos_term(
            a,
            q,
            t0,
            2,
        ),
        k % 2 == 0 ==> cos_sum(a, q, t0, k) + cos_term(a, q, t0, k + 1) >= cos_sum(a, q, t0, 1),
    decreases k,
{
    lemma_cos_term_sign(a, q, t0, 2);
    lemma_cos_term_sign(a, q, t0, k);
    lemma_cos_term_sign(a, q, t0, k + 1);
    lemma_cos_term_halves(a, q, t0, k);
    if k > 1 {
        lemma_cos_sum_bracket(a, q, t0, (k - 1) as nat);
        assert(cos_sum(a, q, t0, k) == cos_sum(a, q, t0, (k - 1) as nat) + cos_term(a, q, t0, k));
    }
}

/// A series whose term at `j` is at most `max` stops somewhere.
pub proof fn lemma_stop_exists(terms: spec_fn(nat) -> int, max: int, j: nat)
    requires
        iabs(terms(j)) <= max,
    ensures
        exists|k: nat| stops_at(terms, max, k),
    decreases j,
{
    if exists|i: nat| i < j && iabs(#[trigger] terms(i)) <= max {
        let i = choose|i: nat| i < j && iabs(#[trigger] terms(i)) <= max;
        lemma_stop_exists(terms, max, i);
    } else {
        assert(stops_at(terms, max, j));
    }
}

/// The terms of the logarithm series from the `j`-th on add up to at most the `j`-th power
/// in magnitude: the powers halve and each term divides its power by at least 2.
pub proof fn lemma_ln_tail_bound(a: int, q: int, x0: int, j: nat, n: nat)
    requires
        q < 0,
        2 * iabs(a) <= pow2((-q) as nat),
        1 <= j <= n,
    ensures
        iabs(ln_sum(a, q, x0, n) - ln_sum(a, q, x0, (j - 1) as nat)) <= iabs(ln_power(a, q, x0, j)),
    decreases n - j,
{
    let m = iabs(ln_power(a, q, x0, j));
    let t = ln_term(a, q, x0, j);
    let d = (j + 1) * (if j % 2 == 1 { -1int } else { 1int });
    if j % 2 == 1 {
        assert(d == -(j + 1)) by (nonlinear_arith)
            requires
                d == (j + 1) * -1int,
        ;
    } else {
        assert(d == j + 1) by (nonlinear_arith)
            requires
                d == (j + 1) * 1int,
        ;
    }
    assert(iabs(d) == j + 1 && d != 0);
    lemma_trunc_div_bound(ln_power(a, q, x0, j), d);
    assert(t == trunc_div(ln_power(a, q, x0, j), d));
    assert(2 * iabs(t) <= m) by (nonlinear_arith)
        requires
            iabs(t) * iabs(d) <= m,
            iabs(d) >= 2,
            iabs(t) >= 0,
    ;
    assert(ln_sum(a, q, x0, j) == ln_sum(a, q, x0, (j - 1) as nat) + t);
    if j < n {
        lemma_ln_tail_bound(a, q, x0, j + 1, n);
        lemma_ln_power_halves(a, q, x0, j);
        assert(((j + 1) - 1) as nat == j);
        lemma_fundamental_div_mod(m + 1, 2);
        assert(iabs(ln_power(a, q, x0, j + 1)) <= (m + 1) / 2);
    }
}

/// The powers of the logarithm series shrink: `2^k (|x_k| - 1) <= |x0|`.
pub proof fn lemma_ln_power_decay(a: int, q: int, x0: int, k: nat)
    requires
        q < 0,
        2 * iabs(a) <= pow2((-q) as nat),
    ensures
        pow2(k) * (iabs(ln_power(a, q, x0, k)) - 1) <= iabs(x0),
    decreases k,
{
    if k == 0 {
        vstd::arithmetic::power2::lemma2_to64();
    } else {
        let j = (k - 1) as nat;
        lemma_ln_power_decay(a, q, x0, j);
        lemma_ln_power_halves(a, q, x0, j);
        assert(((j + 1) as nat) == k);
        let m = iabs(ln_power(a, q, x0, j));
        lemma_fundamental_div_mod(m + 1, 2);
        lemma_pow2_unfold(k);
        lemma_pow2_pos(j);
        assert(pow2(k) * (iabs(ln_power(a, q, x0, k)) - 1) <= iabs(x0)) by (nonlinear_arith)
            requires
                iabs(ln_power(a, q, x0, k)) <= (m + 1) / 2,
                m + 1 == 2 * ((m + 1) / 2) + (m + 1) % 2,
                0 <= (m + 1) % 2 < 2,
                pow2(j) * (m - 1) <= iabs(x0),
                pow2(k) == 2 * pow2(j),
                pow2(j) > 0,
        ;
    }
}

/// The terms of the exponential series from the `j`-th on (`j >= 1`) add up to at most twice the
/// `j`-th term in magnitude: from the second term on each term is at most half the one before.
pub proof fn lemma_exp_tail_bound(a: int, q: int, t0: int, j: nat, n: nat)
    requires
        q < 0,
        iabs(a) < pow2((-q) as nat),
        1 <= j <= n,
    ensures
        iabs(exp_sum(a, q, t0, n) - exp_sum(a, q, t0, (j - 1) as nat)) <= 2 * iabs(exp_term(a, q, t0, j)),
    decreases n - j,
{
    assert(exp_sum(a, q, t0, j) == exp_sum(a, q, t0, (j - 1) as nat) + exp_term(a, q, t0, j));
    if j < n {
        lemma_exp_tail_bound(a, q, t0, j + 1, n);
        lemma_exp_term_shrinks(a, q, t0, j);
        assert(((j + 1) - 1) as nat == j);
    }
}

/// `|t_k| * 2^(k - 1) <= |t0|` for `k >= 1`: the exponential terms shrink.
pub proof fn lemma_exp_term_decay(a: int, q: int, t0: int, k: nat)
    requires
        q < 0,
        iabs(a) < pow2((-q) as nat),
        k >= 1,
    ensures
        iabs(exp_term(a, q, t0, k)) * pow2((k - 1) as nat) <= iabs(t0),
    decreases k,
{
    vstd::arithmetic::power2::lemma2_to64();
    if k == 1 {
        lemma_exp_term_shrinks(a, q, t0, 0);
        assert(pow2(0) == 1);
        assert(iabs(exp_term(a, q, t0, 1)) * 1 == iabs(exp_term(a, q, t0, 1)));
    } else {
        let j = (k - 1) as nat;
        lemma_exp_term_decay(a, q, t0, j);
        lemma_exp_term_shrinks(a, q, t0, j);
        assert((j + 1) as nat == k);
        lemma_pow2_unfold(j);
        lemma_pow2_pos((j - 1) as nat);
        assert(iabs(exp_term(a, q, t0, k)) * pow2(j) <= iabs(t0)) by (nonlinear_arith)
            requires
                2 * iabs(exp_term(a, q, t0, k)) <= iabs(exp_term(a, q, t0, j)),
                iabs(exp_term(a, q, t0, j)) * pow2((j - 1) as nat) <= iabs(t0),
                pow2(j) == 2 * pow2((j - 1) as nat),
                pow2((j - 1) as nat) > 0,
        ;
    }
}

} // verus!
