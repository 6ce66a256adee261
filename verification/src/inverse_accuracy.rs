//! How close the inverse that `approximate` computes comes to the inverse of the exact value:
//! for a literal, and for an expression of literals, one, sums and small products.
use vstd::prelude::*;
use vstd::arithmetic::power2::{pow2, lemma_pow2_pos, lemma_pow2_unfold};
use crate::bigint::{iabs, bit_len, lemma_bit_len_bounds};
use crate::prescaled_value::spec_msb;
use crate::approximate::{inverse_spec, Attempt, UnaryOp, BinaryOp, lemma_requests_are_finer, lemma_pow2_monotone};
use crate::accuracy::{
    within_one_unit, within_one_unit_at, small_factor, inverse_fraction, lemma_inverse_within,
    lemma_inverse_zero_within, lemma_neg_within, lemma_add_within, lemma_mul_within, lemma_scale_zero,
};
use crate::rpn::{spec_arg_indices, literal_count, lemma_literal_count_le, well_formed, lemma_well_formed_arguments};
use crate::stack_computable::{
    OpStack, LiteralView, STOP_PRECISION, literal_approx, literal_exact, inverse_of_literal,
    inverse_of_expression, inverse_of_plain, computed_value, exact_value, propagated, needs_in_range,
    products_small, rational_expr, denominators_positive, accuracy_scale, op_needed_fits,
    lemma_literal_accurate, lemma_rational_args, lemma_arg_indices_below, lemma_propagated_arguments,
    lemma_propagated_strict, lemma_exact_value_denominator, lemma_root_target, lemma_target_in_range,
};

verus! {

/// Where the inverse of a literal gives a value at a precision `p <= 1` (asking the literal
/// for precision `e <= p` first), the value is within one unit of the inverse of the literal.
pub proof fn lemma_inverse_of_literal_within(l: LiteralView, p: int, e: int)
    requires
        l matches LiteralView::Ratio(_, d) ==> d > 0,
        p <= 1,
        e <= p,
        inverse_of_literal(l, p, e) is Ok,
    ensures
        within_one_unit(inverse_of_literal(l, p, e)->Ok_0, p, inverse_fraction(literal_exact(l))),
    decreases e - STOP_PRECISION,
{
    let a = (literal_approx(l, e), e);
    let x = literal_exact(l);
    lemma_literal_accurate(l, e);
    match inverse_spec(a, p) {
        Attempt::Success(v, _) => {
            assert(a.0 != 0);
            if -p - (2 * spec_msb(a) + p - 4) >= 0 {
                lemma_inverse_within(a, p, x, accuracy_scale());
            } else {
                let bl = bit_len(iabs(a.0) as nat);
                lemma_bit_len_bounds(iabs(a.0) as nat);
                assert(bl >= 2);
                lemma_pow2_unfold((bl - 1) as nat);
                lemma_pow2_pos((bl - 2) as nat);
                lemma_inverse_zero_within(a, p, x, accuracy_scale());
            }
        },
        Attempt::NeedMorePrecision(e2) => {
            lemma_requests_are_finer(UnaryOp::Inverse, a, p);
            lemma_inverse_of_literal_within(l, p, e2);
        },
        Attempt::Failed => {},
    }
}

/// The value that `computed_value` gives a rational entry, at the precision of the walk from the
/// top at `t`, is within one unit of the entry's exact value when the walk's precisions lie in
/// range and its products are small.
pub proof fn lemma_computed_accurate(s: Seq<OpStack>, lits: Seq<LiteralView>, t: int, k: int)
    requires
        well_formed(s, lits.len() as int),
        denominators_positive(lits),
        0 <= k < s.len(),
        rational_expr(s, k),
        needs_in_range(s, t),
        products_small(s, lits, t),
    ensures
        within_one_unit_at(
            computed_value(s, lits, t, k),
            propagated(s, s.len() - 1, t, k)->0,
            exact_value(s, lits, k),
            accuracy_scale(),
        ),
    decreases k,
{
    let n = lits.len() as int;
    let m = accuracy_scale();
    let q = propagated(s, s.len() - 1, t, k)->0;
    assert(propagated(s, s.len() - 1, t, k) is Some);
    lemma_rational_args(s, n, k);
    lemma_well_formed_arguments(s, n, k);
    lemma_arg_indices_below(s, k);
    assert(op_needed_fits(s[k], q));
    lemma_propagated_arguments(s, n, s.len() - 1, t, k, q);
    match s[k] {
        OpStack::Literal => {
            lemma_literal_count_le(s, k);
            let li = literal_count(s, k) as int;
            assert(lits[li] matches LiteralView::Ratio(_, d) ==> d > 0);
            lemma_literal_accurate(lits[li], q);
        },
        OpStack::One => {
            lemma_literal_accurate(LiteralView::Int(1), q);
        },
        OpStack::UnaryOp(_) => {
            let j = k - 1;
            assert(propagated(s, s.len() - 1, t, j) is Some);
            lemma_computed_accurate(s, lits, t, j);
            lemma_neg_within(computed_value(s, lits, t, j), q, exact_value(s, lits, j), m);
        },
        OpStack::BinaryOp(_) => {
            let j1 = spec_arg_indices(s, k).0->0;
            let j2 = spec_arg_indices(s, k).1->0;
            assert(propagated(s, s.len() - 1, t, j1) is Some);
            assert(propagated(s, s.len() - 1, t, j2) is Some);
            lemma_computed_accurate(s, lits, t, j1);
            lemma_computed_accurate(s, lits, t, j2);
            let v1 = computed_value(s, lits, t, j1);
            let v2 = computed_value(s, lits, t, j2);
            lemma_scale_zero(v1);
            lemma_scale_zero(v2);
            lemma_exact_value_denominator(s, lits, j1);
            lemma_exact_value_denominator(s, lits, j2);
            if s[k] == OpStack::BinaryOp(BinaryOp::Add) {
                lemma_add_within(v1, v2, q - 2, exact_value(s, lits, j1), exact_value(s, lits, j2), m);
            } else {
                assert(s[k] == OpStack::BinaryOp(BinaryOp::Mul));
                lemma_mul_within(v1, v2, q, exact_value(s, lits, j1), exact_value(s, lits, j2), m);
            }
        },
        _ => {},
    }
}

/// Products that are small at the precisions of one walk are small at those of a walk with a
/// finer precision.
proof fn lemma_products_small_finer(s: Seq<OpStack>, lits: Seq<LiteralView>, t: int, t2: int)
    requires
        well_formed(s, lits.len() as int),
        denominators_positive(lits),
        t2 <= t,
        needs_in_range(s, t),
        needs_in_range(s, t2),
        products_small(s, lits, t),
    ensures
        products_small(s, lits, t2),
{
    assert forall|k: int|
        0 <= k < s.len() && #[trigger] s[k] == OpStack::BinaryOp(BinaryOp::Mul) && rational_expr(s, k) implies {
        let q = propagated(s, s.len() - 1, t2, k)->0;
        &&& q <= -1
        &&& small_factor(exact_value(s, lits, spec_arg_indices(s, k).0->0), q)
        &&& small_factor(exact_value(s, lits, spec_arg_indices(s, k).1->0), q)
    } by {
        assert(propagated(s, s.len() - 1, t, k) is Some);
        assert(propagated(s, s.len() - 1, t2, k) is Some);
        if t2 < t {
            lemma_propagated_strict(s, s.len() - 1, t2, t, k);
        }
        let q = propagated(s, s.len() - 1, t, k)->0;
        let q2 = propagated(s, s.len() - 1, t2, k)->0;
        lemma_pow2_monotone((-q) as nat, (-q2) as nat);
        let x1 = exact_value(s, lits, spec_arg_indices(s, k).0->0);
        let x2 = exact_value(s, lits, spec_arg_indices(s, k).1->0);
        lemma_exact_value_denominator(s, lits, spec_arg_indices(s, k).0->0);
        lemma_exact_value_denominator(s, lits, spec_arg_indices(s, k).1->0);
        assert(x1.1 * pow2((-q) as nat) <= x1.1 * pow2((-q2) as nat)) by (nonlinear_arith)
            requires
                x1.1 > 0,
                pow2((-q) as nat) <= pow2((-q2) as nat),
        ;
        assert(x2.1 * pow2((-q) as nat) <= x2.1 * pow2((-q2) as nat)) by (nonlinear_arith)
            requires
                x2.1 > 0,
                pow2((-q) as nat) <= pow2((-q2) as nat),
        ;
    }
}

/// Where the inverse of an expression of literals, one, sums and products gives a value at a
/// precision `p <= 1`, and the expression's products are small at the precisions of the walk
/// for the target `t <= p` it starts from, the value is within one unit of the inverse of the
/// expression's exact value.
pub proof fn lemma_inverse_of_expression_within(s: Seq<OpStack>, lits: Seq<LiteralView>, p: int, t: int)
    requires
        well_formed(s, lits.len() as int),
        denominators_positive(lits),
        inverse_of_plain(s),
        rational_expr(s, s.len() - 2),
        p <= 1,
        t <= p,
        products_small(s, lits, t),
        inverse_of_expression(s, lits, p, t) is Some,
    ensures
        within_one_unit(
            inverse_of_expression(s, lits, p, t)->Some_0,
            p,
            inverse_fraction(exact_value(s, lits, s.len() - 2)),
        ),
    decreases t - STOP_PRECISION,
{
    let n = s.len();
    let a = (computed_value(s, lits, t, n - 2), t);
    let x = exact_value(s, lits, n - 2);
    lemma_target_in_range(s, lits, p, inverse_of_expression(s, lits, p, t)->Some_0, t);
    lemma_root_target(s, lits.len() as int, t);
    lemma_computed_accurate(s, lits, t, n - 2);
    lemma_exact_value_denominator(s, lits, n - 2);
    match inverse_spec(a, p) {
        Attempt::Success(v, _) => {
            assert(a.0 != 0);
            if -p - (2 * spec_msb(a) + p - 4) >= 0 {
                lemma_inverse_within(a, p, x, accuracy_scale());
            } else {
                let bl = bit_len(iabs(a.0) as nat);
                lemma_bit_len_bounds(iabs(a.0) as nat);
                assert(bl >= 2);
                lemma_pow2_unfold((bl - 1) as nat);
                lemma_pow2_pos((bl - 2) as nat);
                lemma_inverse_zero_within(a, p, x, accuracy_scale());
            }
        },
        Attempt::NeedMorePrecision(t2) => {
            lemma_target_in_range(s, lits, p, inverse_of_expression(s, lits, p, t2)->Some_0, t2);
            lemma_products_small_finer(s, lits, t, t2);
            lemma_inverse_of_expression_within(s, lits, p, t2);
        },
        Attempt::Failed => {},
    }
}

} // verus!
