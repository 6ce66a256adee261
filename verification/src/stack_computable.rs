//! A computable number held as a stack of operators in reverse Polish notation,
//! and its approximation without recursion.
use vstd::prelude::*;
use num::BigInt;
use crate::Precision;
use vstd::arithmetic::power2::{pow2, lemma_pow2_pos, lemma_pow2_unfold};
use crate::bigint::{int_value, big_from_i64, iabs, is_isqrt, isqrt, bit_len, lemma_bit_len_bounds};
use crate::rational::Rational;
use crate::approximate::{
    binary_fits, binary_args_fit, sqrt_arg_fits, unary_domain, unary_fits, inverse_spec, inverse_fits,
    lemma_no_failure_in_domain, lemma_binary_never_fails,
    lemma_requests_are_finer, exp_spec, cos_spec, ln_spec, sqrt_spec,
    UnaryOp, BinaryOp, Attempt, AttemptedComputation, spec_scale, spec_ratio, scale, unary_spec,
    binary_spec, unary_needed, unary_needed_fits, binary_needed, binary_needed_fits,
    inverse_arg_fits, lemma_pow2_monotone,
};
use crate::prescaled_value::{PrescaledValue, IntoPrescaledValue, spec_rescaled, rescale_fits, spec_msb};
use crate::accuracy::{
    within_one_unit, within_one_unit_at, sum_fraction, product_fraction, small_factor,
    lemma_magnitude_from_within, lemma_nonnegative_from_within, sqrt_within_one_unit,
    lemma_sqrt_within, lemma_sqrt_within_any_scale, lemma_isqrt_exists,
    lemma_within_any_scale, lemma_int_within, lemma_ratio_within, lemma_neg_within, lemma_add_within,
    lemma_mul_within, lemma_scale_zero, inverse_fraction, lemma_inverse_within, lemma_inverse_zero_within,
};
use crate::rpn::{
    num_args, arity_sum, is_split, spec_arg_indices, literal_count, lemma_literal_count_le,
    is_start, expr_start, lemma_start_exists, lemma_expression_ranges,
    well_formed, lemma_well_formed_single, lemma_well_formed_push_unary,
    lemma_well_formed_push_binary, lemma_well_formed_arguments, lemma_arg_indices_prefix,
    lemma_arg_indices_suffix, lemma_literal_count_prefix, lemma_literal_count_shift, lemma_single_consumer,
    lemma_binary_root_arguments,
};

verus! {

/// One entry of the operator stack.
#[derive(Clone, Copy, Debug, PartialEq, Eq, Structural)]
pub enum OpStack {
    /// Placeholder for a number (integer or rational)
    Literal,
    Pi,
    One,
    UnaryOp(UnaryOp),
    BinaryOp(BinaryOp),
}

/// An exact number that a computation starts from.
#[derive(Debug, PartialEq)]
pub enum Literal {
    Int(BigInt),
    Ratio(Rational),
}

/// A literal as numbers: an integer, or a fraction (numerator, denominator).
pub enum LiteralView {
    Int(int),
    Ratio(int, int),
}

impl View for Literal {
    type V = LiteralView;

    open spec fn view(&self) -> LiteralView {
        match self {
            Literal::Int(i) => LiteralView::Int(int_value(*i)),
            Literal::Ratio(r) => LiteralView::Ratio(r@.0, r@.1),
        }
    }
}

impl Clone for Literal {
    /// A copy that holds the same number.
    fn clone(&self) -> (r: Literal)
        ensures
            r@ == self@,
    {
        match self {
            Literal::Int(i) => Literal::Int(i.clone()),
            Literal::Ratio(r) => Literal::Ratio(r.clone()),
        }
    }
}

/// The integer that stands for the literal `l` at precision `p`.
pub open spec fn literal_approx(l: LiteralView, p: int) -> int {
    match l {
        LiteralView::Int(i) => spec_scale(i, -p),
        LiteralView::Ratio(n, d) => spec_ratio((n, d), p),
    }
}

impl<'a> IntoPrescaledValue for &'a Literal {
    open spec fn prescaled_spec(self, p: int) -> int {
        literal_approx(self@, p)
    }

    fn into_prescaled_value(self, p: Precision) -> (r: PrescaledValue) {
        match self {
            Literal::Int(i) => i.into_prescaled_value(p),
            Literal::Ratio(r) => r.into_prescaled_value(p),
        }
    }
}

/// The value computed so far for one entry of the stack.
#[derive(Clone, Debug, PartialEq)]
pub enum Cache {
    Empty,
    Computed(PrescaledValue),
}

/// A computable number: a stack of operators in reverse Polish notation, and the
/// literals that its `Literal` entries stand for, in order.
#[derive(Debug, PartialEq)]
pub struct StackComputable {
    /// Stack of computations to get the number, stored in RPN.
    stack: Vec<OpStack>,
    literals: Vec<Literal>,
}

impl View for StackComputable {
    type V = (Seq<OpStack>, Seq<LiteralView>);

    /// The operators and the literals, as numbers.
    closed spec fn view(&self) -> (Seq<OpStack>, Seq<LiteralView>) {
        (self.stack@, self.literals@.map_values(|l: Literal| l@))
    }
}

/// An index of the stack, as an integer.
pub open spec fn opt_int(o: Option<usize>) -> Option<int> {
    match o {
        Some(x) => Some(x as int),
        None => None,
    }
}

/// The number of arguments an entry of the stack takes.
fn num_args_exec(op: &OpStack) -> (r: usize)
    ensures
        r as int == num_args(*op),
{
    match op {
        OpStack::Literal | OpStack::Pi | OpStack::One => 0,
        OpStack::UnaryOp(_) => 1,
        OpStack::BinaryOp(_) => 2,
    }
}

/// Copies `from` onto the end of `to`, each literal by its value.
fn append_literals(to: &mut Vec<Literal>, from: &Vec<Literal>)
    ensures
        final(to)@.map_values(|l: Literal| l@) == old(to)@.map_values(|l: Literal| l@) + from@.map_values(
            |l: Literal| l@,
        ),
{
    let ghost start = old(to)@.map_values(|l: Literal| l@);
    let mut i: usize = 0;
    while i < from.len()
        invariant
            i <= from.len(),
            to@.map_values(|l: Literal| l@) == start + from@.map_values(|l: Literal| l@).take(i as int),
        decreases from.len() - i,
    {
        let lit = from[i].clone();
        let ghost before = to@;
        to.push(lit);
        proof {
            assert(to@.map_values(|l: Literal| l@) =~= before.map_values(|l: Literal| l@).push(
                from@[i as int]@,
            ));
            assert(from@.map_values(|l: Literal| l@).take(i + 1) == from@.map_values(
                |l: Literal| l@,
            ).take(i as int).push(from@[i as int]@));
        }
        i = i + 1;
    }
    proof {
        assert(from@.map_values(|l: Literal| l@).take(from.len() as int) == from@.map_values(
            |l: Literal| l@,
        ));
    }
}

/// Copies the operators of `from` onto the end of `to`.
fn append_ops(to: &mut Vec<OpStack>, from: &Vec<OpStack>)
    ensures
        final(to)@ == old(to)@ + from@,
{
    let ghost start = old(to)@;
    let mut i: usize = 0;
    while i < from.len()
        invariant
            i <= from.len(),
            to@ == start + from@.take(i as int),
        decreases from.len() - i,
    {
        to.push(from[i]);
        proof {
            assert(from@.take(i + 1) == from@.take(i as int).push(from@[i as int]));
        }
        i = i + 1;
    }
    proof {
        assert(from@.take(from.len() as int) == from@);
    }
}

/// Every fraction among the literals has a positive denominator.
pub open spec fn denominators_positive(lits: Seq<LiteralView>) -> bool {
    forall|k: int| 0 <= k < lits.len() ==> (#[trigger] lits[k] matches LiteralView::Ratio(_, d) ==> d > 0)
}

impl StackComputable {
    /// The stack holds exactly one well-formed expression over its literals, whose
    /// fractions have positive denominators.
    #[verifier::type_invariant]
    spec fn holds_one_expression(self) -> bool {
        &&& well_formed(self.stack@, self.literals@.len() as int)
        &&& denominators_positive(self.literals@.map_values(|l: Literal| l@))
    }
}

impl Clone for StackComputable {
    /// A copy with the same operators and literals.
    fn clone(&self) -> (r: StackComputable)
        ensures
            r@ == self@,
            well_formed(r@.0, r@.1.len() as int),
    {
        proof {
            use_type_invariant(self);
        }
        let mut stack: Vec<OpStack> = Vec::new();
        append_ops(&mut stack, &self.stack);
        let mut literals: Vec<Literal> = Vec::new();
        append_literals(&mut literals, &self.literals);
        proof {
            assert(stack@ == self.stack@);
            assert(literals@.map_values(|l: Literal| l@) == self.literals@.map_values(|l: Literal| l@));
        }
        StackComputable { stack, literals }
    }
}

impl StackComputable {
    pub fn one() -> (r: Self)
        ensures
            r@ == (seq![OpStack::One], Seq::<LiteralView>::empty()),
            well_formed(r@.0, r@.1.len() as int),
    {
        proof {
            lemma_well_formed_single(OpStack::One);
        }
        let mut stack = Vec::new();
        stack.push(OpStack::One);
        proof {
            assert(stack@ == seq![OpStack::One]);
        }
        let r = StackComputable { stack, literals: Vec::new() };
        proof {
            assert(r.literals@.map_values(|l: Literal| l@) == Seq::<LiteralView>::empty());
        }
        r
    }

    pub fn rational(r: Rational) -> (res: Self)
        ensures
            res@ == (seq![OpStack::Literal], seq![LiteralView::Ratio(r@.0, r@.1)]),
            well_formed(res@.0, res@.1.len() as int),
    {
        proof {
            lemma_well_formed_single(OpStack::Literal);
            use_type_invariant(&r);
            r.lemma_denominator_positive();
        }
        let mut stack = Vec::new();
        stack.push(OpStack::Literal);
        let mut literals = Vec::new();
        literals.push(Literal::Ratio(r));
        proof {
            assert(stack@ == seq![OpStack::Literal]);
        }
        let res = StackComputable { stack, literals };
        proof {
            assert(res.literals@.map_values(|l: Literal| l@) == seq![LiteralView::Ratio(r@.0, r@.1)]);
        }
        res
    }

    pub fn integer(i: BigInt) -> (res: Self)
        ensures
            res@ == (seq![OpStack::Literal], seq![LiteralView::Int(int_value(i))]),
            well_formed(res@.0, res@.1.len() as int),
    {
        proof {
            lemma_well_formed_single(OpStack::Literal);
        }
        let mut stack = Vec::new();
        stack.push(OpStack::Literal);
        let mut literals = Vec::new();
        literals.push(Literal::Int(i));
        proof {
            assert(stack@ == seq![OpStack::Literal]);
        }
        let res = StackComputable { stack, literals };
        proof {
            assert(res.literals@.map_values(|l: Literal| l@) == seq![LiteralView::Int(int_value(i))]);
        }
        res
    }

    /// The computation `other` followed by the binary operator `op`.
    fn push_binary(self, other: &Self, op: BinaryOp) -> (r: Self)
        ensures
            r@ == (self@.0 + other@.0 + seq![OpStack::BinaryOp(op)], self@.1 + other@.1),
            well_formed(r@.0, r@.1.len() as int),
    {
        proof {
            use_type_invariant(&self);
            use_type_invariant(other);
        }
        let StackComputable { mut stack, mut literals } = self;
        let ghost s1 = stack@;
        let ghost n1 = literals@.len() as int;
        append_ops(&mut stack, &other.stack);
        stack.push(OpStack::BinaryOp(op));
        append_literals(&mut literals, &other.literals);
        proof {
            lemma_well_formed_push_binary(s1, n1, other.stack@, other.literals@.len() as int, OpStack::BinaryOp(op));
            assert(stack@ == s1 + other.stack@ + seq![OpStack::BinaryOp(op)]);
            assert(literals@.len() == literals@.map_values(|l: Literal| l@).len());
            let lv = literals@.map_values(|l: Literal| l@);
            assert(lv == self@.1 + other@.1);
            assert forall|k: int| 0 <= k < lv.len() implies (#[trigger] lv[k] matches LiteralView::Ratio(_, d) ==> d > 0) by {
                if k < self@.1.len() {
                    assert(lv[k] == self@.1[k]);
                } else {
                    assert(lv[k] == other@.1[k - self@.1.len()]);
                }
            }
        }
        StackComputable { stack, literals }
    }

    /// The unary operator `op` applied to this computation.
    fn push_unary(self, op: UnaryOp) -> (r: Self)
        ensures
            r@ == (self@.0.push(OpStack::UnaryOp(op)), self@.1),
            well_formed(r@.0, r@.1.len() as int),
    {
        proof {
            use_type_invariant(&self);
        }
        let StackComputable { mut stack, literals } = self;
        proof {
            lemma_well_formed_push_unary(stack@, literals@.len() as int, OpStack::UnaryOp(op));
        }
        stack.push(OpStack::UnaryOp(op));
        StackComputable { stack, literals }
    }

    pub fn add(self, other: &Self) -> (r: Self)
        ensures
            r@ == (self@.0 + other@.0 + seq![OpStack::BinaryOp(BinaryOp::Add)], self@.1 + other@.1),
            well_formed(r@.0, r@.1.len() as int),
    {
        self.push_binary(other, BinaryOp::Add)
    }

    pub fn mul(self, other: &Self) -> (r: Self)
        ensures
            r@ == (self@.0 + other@.0 + seq![OpStack::BinaryOp(BinaryOp::Mul)], self@.1 + other@.1),
            well_formed(r@.0, r@.1.len() as int),
    {
        self.push_binary(other, BinaryOp::Mul)
    }

    pub fn sqrt(self) -> (r: Self)
        ensures
            r@ == (self@.0.push(OpStack::UnaryOp(UnaryOp::Sqrt)), self@.1),
            well_formed(r@.0, r@.1.len() as int),
    {
        self.push_unary(UnaryOp::Sqrt)
    }

    pub fn inverse(self) -> (r: Self)
        ensures
            r@ == (self@.0.push(OpStack::UnaryOp(UnaryOp::Inverse)), self@.1),
            well_formed(r@.0, r@.1.len() as int),
    {
        self.push_unary(UnaryOp::Inverse)
    }

    /// Compute exp of the value, but only for values between 0 and 0.5.
    pub fn exp(self) -> (r: Self)
        ensures
            r@ == (self@.0.push(OpStack::UnaryOp(UnaryOp::PrescaledExp)), self@.1),
            well_formed(r@.0, r@.1.len() as int),
    {
        self.push_unary(UnaryOp::PrescaledExp)
    }

    /// Compute ln(1+x). Assumes |x| < 1/2.
    pub fn ln_one_plus_x(self) -> (r: Self)
        ensures
            r@ == (self@.0.push(OpStack::UnaryOp(UnaryOp::PrescaledLn)), self@.1),
            well_formed(r@.0, r@.1.len() as int),
    {
        self.push_unary(UnaryOp::PrescaledLn)
    }

    /// Compute cos(x) where |x| < 1
    pub fn cos(self) -> (r: Self)
        ensures
            r@ == (self@.0.push(OpStack::UnaryOp(UnaryOp::PrescaledCos)), self@.1),
            well_formed(r@.0, r@.1.len() as int),
    {
        self.push_unary(UnaryOp::PrescaledCos)
    }
}

impl StackComputable {
    /// Returns the indices of the arguments for the operator at `operator_index`, if they exist.
    pub fn operator_argument_indices(&self, operator_index: usize) -> (r: (Option<usize>, Option<usize>))
        requires
            operator_index < self@.0.len(),
        ensures
            (opt_int(r.0), opt_int(r.1)) == spec_arg_indices(self@.0, operator_index as int),
    {
        let ghost s = self.stack@;
        let ghost i = operator_index as int;
        match &self.stack[operator_index] {
            OpStack::Literal | OpStack::Pi | OpStack::One => (None, None),
            OpStack::UnaryOp(_) => {
                if operator_index == 0 {
                    (None, None)
                } else {
                    (Some(operator_index - 1), None)
                }
            },
            OpStack::BinaryOp(_) => {
                if operator_index == 0 {
                    (None, None)
                } else if operator_index == 1 {
                    (Some(operator_index - 1), None)
                } else {
                    let first_arg_index = operator_index - 1;

                    // Arguments are stored using RPN. We need to walk backwards until we find the next argument.
                    // For example, `1 2 + 3 4 + +`, we should report index (5,2) (zero-indexed).
                    let mut args_to_consume = num_args_exec(&self.stack[first_arg_index]);
                    proof {
                        assert(arity_sum(s, i, i) == 0);
                        assert(arity_sum(s, i - 1, i) == num_args(s[i - 1]) - 1);
                    }
                    // `j` is one past the next index to look at.
                    let mut j: usize = first_arg_index;
                    let len = self.stack.len();
                    while j > 0
                        invariant
                            s == self.stack@,
                            s.len() == len,
                            i == operator_index,
                            i >= 2,
                            i < s.len(),
                            first_arg_index == i - 1,
                            s[i] is BinaryOp,
                            j <= i - 1,
                            args_to_consume as int == arity_sum(s, j as int, i) + 1,
                            args_to_consume <= i - j + 1,
                            forall|m: int| j <= m <= i - 2 ==> #[trigger] arity_sum(s, m + 1, i) != -1,
                        decreases j,
                    {
                        let idx = j - 1;
                        if args_to_consume == 0 {
                            proof {
                                assert(is_split(s, i, idx as int));
                                assert forall|m: int| #[trigger] is_split(s, i, m) implies m == idx by {
                                    if m < idx {
                                        assert(arity_sum(s, idx + 1, i) == -1);
                                    } else if m > idx {
                                        assert(arity_sum(s, m + 1, i) != -1);
                                    }
                                }
                            }
                            return (Some(idx), Some(first_arg_index));
                        }
                        args_to_consume = args_to_consume - 1 + num_args_exec(&self.stack[idx]);
                        j = idx;
                    }
                    proof {
                        assert forall|m: int| !#[trigger] is_split(s, i, m) by {
                            if 0 <= m <= i - 2 {
                                assert(arity_sum(s, m + 1, i) != -1);
                            }
                        }
                    }
                    (Some(first_arg_index), None)
                }
            },
        }
    }
}

/// The precision that the entry `op` needs from its arguments for an output at `out`.
pub open spec fn op_needed(op: OpStack, out: int) -> int {
    match op {
        OpStack::Literal | OpStack::Pi | OpStack::One => out,
        OpStack::UnaryOp(u) => unary_needed(u, out),
        OpStack::BinaryOp(b) => binary_needed(b, out),
    }
}

/// `op_needed` can be computed within `Precision`.
pub open spec fn op_needed_fits(op: OpStack, out: int) -> bool {
    match op {
        OpStack::Literal | OpStack::Pi | OpStack::One => true,
        OpStack::UnaryOp(u) => unary_needed_fits(u, out),
        OpStack::BinaryOp(b) => binary_needed_fits(b, out),
    }
}

impl OpStack {
    /// Given the required out_precision, what precision is needed for the inputs?
    pub fn precision_needed(&self, out_precision: Precision) -> (r: Precision)
        requires
            op_needed_fits(*self, out_precision as int),
        ensures
            r as int == op_needed(*self, out_precision as int),
    {
        match self {
            OpStack::Literal | OpStack::Pi | OpStack::One => out_precision,
            OpStack::UnaryOp(unary_op) => unary_op.precision_needed(out_precision),
            OpStack::BinaryOp(binary_op) => binary_op.precision_needed(out_precision),
        }
    }
}

/// Whether what the entry `op` needs from its arguments for an output at `out` can be computed
/// within `Precision`.
fn needed_fits(op: &OpStack, out: Precision) -> (r: bool)
    ensures
        r == op_needed_fits(*op, out as int),
{
    let q = out as i64;
    match op {
        OpStack::Literal | OpStack::Pi | OpStack::One => true,
        OpStack::UnaryOp(UnaryOp::Sqrt) => i32::MIN as i64 + 2 <= q * 2 && q * 2 <= i32::MAX as i64,
        OpStack::UnaryOp(UnaryOp::PrescaledCos) | OpStack::UnaryOp(UnaryOp::PrescaledExp)
        | OpStack::UnaryOp(UnaryOp::PrescaledLn) => q - 3 >= i32::MIN as i64,
        OpStack::UnaryOp(_) => true,
        OpStack::BinaryOp(BinaryOp::Add) => q - 2 >= i32::MIN as i64,
        OpStack::BinaryOp(BinaryOp::Mul) => i32::MIN as i64 <= q * 2 && q * 2 <= i32::MAX as i64,
    }
}

/// The sum of `2^i` over the indices `i` waiting in `w`.
pub open spec fn work_weight(w: Seq<(usize, Precision)>) -> nat
    decreases w.len(),
{
    if w.len() == 0 {
        0
    } else {
        work_weight(w.drop_last()) + pow2(w.last().0 as nat)
    }
}

/// The precision that walking down from entry `i` with precision `q` gives entry `k`: `q` for
/// `i` itself and, down the expression of `i`, what each operator needs from its arguments,
/// as long as what the operator needs can be computed within `Precision`; nothing for other
/// entries.
pub open spec fn propagated(s: Seq<OpStack>, i: int, q: int, k: int) -> Option<int>
    decreases i,
{
    if k == i {
        Some(q)
    } else if i <= 0 || k < expr_start(s, i) || k > i || !op_needed_fits(s[i], q) {
        None
    } else {
        match s[i] {
            OpStack::UnaryOp(_) => propagated(s, i - 1, op_needed(s[i], q), k),
            OpStack::BinaryOp(_) => {
                let j1 = expr_start(s, i - 1) - 1;
                if k > j1 {
                    propagated(s, i - 1, op_needed(s[i], q), k)
                } else if 0 <= j1 < i {
                    propagated(s, j1, op_needed(s[i], q), k)
                } else {
                    None
                }
            },
            _ => None,
        }
    }
}

/// The required precision of entry `k` after walking down from `start` with precision `p`
/// over the precisions `old`.
pub open spec fn updated_precision(s: Seq<OpStack>, start: int, p: int, old: Seq<Precision>, k: int) -> int {
    match propagated(s, start, p, k) {
        Some(x) => x,
        None => old[k] as int,
    }
}

/// A waiting item of the walk: the entry, its precision, and the precisions it passes on are
/// those that the walk from `start` gives its expression.
pub open spec fn walk_item_ok(s: Seq<OpStack>, start: int, p: int, item: (usize, Precision)) -> bool {
    let j = item.0 as int;
    &&& 0 <= j <= start
    &&& is_start(s, j, expr_start(s, j))
    &&& forall|k: int| expr_start(s, j) <= k <= j ==> #[trigger] propagated(s, start, p, k) == propagated(
        s,
        j,
        item.1 as int,
        k,
    )
}

/// Entry `k` lies in the expression of a waiting item.
pub open spec fn walk_pending(s: Seq<OpStack>, w: Seq<(usize, Precision)>, k: int) -> bool {
    exists|t: int| 0 <= t < w.len() && expr_start(s, #[trigger] w[t].0 as int) <= k <= w[t].0
}

/// One step of the walk: the last waiting item `(i, q)` is taken, `q` is written at `i`, and the
/// items `added`, which cover the rest of the expression of `i` wherever the walk passes a
/// precision on, wait in its place.
proof fn lemma_walk_step(
    s: Seq<OpStack>,
    n: int,
    start: int,
    p: int,
    orig: Seq<Precision>,
    req0: Seq<Precision>,
    req1: Seq<Precision>,
    before: Seq<(usize, Precision)>,
    w1: Seq<(usize, Precision)>,
    added: Seq<(usize, Precision)>,
    i: int,
    q: int,
)
    requires
        well_formed(s, n),
        0 <= start < s.len(),
        orig.len() == s.len(),
        req0.len() == s.len(),
        before.len() >= 1,
        w1 == before.drop_last(),
        before[before.len() - 1].0 as int == i,
        before[before.len() - 1].1 as int == q,
        forall|t: int| 0 <= t < before.len() ==> #[trigger] walk_item_ok(s, start, p, before[t]),
        forall|t1: int, t2: int|
            0 <= t1 < t2 < before.len() ==> (#[trigger] before[t1]).0 < expr_start(s, (#[trigger] before[t2]).0 as int)
                || before[t2].0 < expr_start(s, before[t1].0 as int),
        forall|k: int| 0 <= k < s.len() ==>
            (walk_pending(s, before, k) ==> #[trigger] req0[k] == orig[k])
            && (!walk_pending(s, before, k) ==> req0[k] == updated_precision(s, start, p, orig, k)),
        req1 == req0.update(i, q as Precision),
        forall|t: int| 0 <= t < added.len() ==> #[trigger] walk_item_ok(s, start, p, added[t]),
        forall|t: int| 0 <= t < added.len() ==> expr_start(s, i) <= expr_start(s, (#[trigger] added[t]).0 as int) && added[t].0 < i,
        forall|t1: int, t2: int|
            0 <= t1 < t2 < added.len() ==> (#[trigger] added[t1]).0 < expr_start(s, (#[trigger] added[t2]).0 as int)
                || added[t2].0 < expr_start(s, added[t1].0 as int),
        forall|k: int| expr_start(s, i) <= k < i ==> walk_pending(s, added, k) || propagated(s, i, q, k) is None,
    ensures
        forall|t: int| 0 <= t < (w1 + added).len() ==> #[trigger] walk_item_ok(s, start, p, (w1 + added)[t]),
        forall|t1: int, t2: int|
            0 <= t1 < t2 < (w1 + added).len() ==> (#[trigger] (w1 + added)[t1]).0 < expr_start(s, (#[trigger] (w1 + added)[t2]).0 as int)
                || (w1 + added)[t2].0 < expr_start(s, (w1 + added)[t1].0 as int),
        forall|k: int| 0 <= k < s.len() ==>
            (walk_pending(s, w1 + added, k) ==> #[trigger] req1[k] == orig[k])
            && (!walk_pending(s, w1 + added, k) ==> req1[k] == updated_precision(s, start, p, orig, k)),
{
    let w = w1 + added;
    let last = before.len() - 1;
    let lo = expr_start(s, i);
    assert(walk_item_ok(s, start, p, before[last]));
    assert(propagated(s, start, p, i) == Some(q));
    // The other waiting items lie outside the expression of `i`.
    assert forall|t: int| 0 <= t < w1.len() implies (#[trigger] w1[t]).0 < lo || i < expr_start(s, w1[t].0 as int) by {
        assert(before[t] == w1[t]);
        assert(before[t].0 < expr_start(s, before[last].0 as int) || before[last].0 < expr_start(s, before[t].0 as int));
    }
    assert forall|t: int| 0 <= t < w.len() implies #[trigger] walk_item_ok(s, start, p, w[t]) by {
        if t < w1.len() {
            assert(before[t] == w1[t]);
        } else {
            assert(w[t] == added[t - w1.len()]);
        }
    }
    assert forall|t1: int, t2: int| 0 <= t1 < t2 < w.len() implies (#[trigger] w[t1]).0 < expr_start(s, (#[trigger] w[t2]).0 as int)
        || w[t2].0 < expr_start(s, w[t1].0 as int) by {
        if t2 < w1.len() {
            assert(before[t1] == w1[t1] && before[t2] == w1[t2]);
        } else if t1 < w1.len() {
            let a = added[t2 - w1.len()];
            assert(w[t2] == a);
            assert(walk_item_ok(s, start, p, a));
            assert(walk_item_ok(s, start, p, w1[t1])) by {
                assert(before[t1] == w1[t1]);
            }
        } else {
            assert(w[t1] == added[t1 - w1.len()] && w[t2] == added[t2 - w1.len()]);
        }
    }
    assert forall|k: int| 0 <= k < s.len() implies
        (walk_pending(s, w, k) ==> #[trigger] req1[k] == orig[k])
        && (!walk_pending(s, w, k) ==> req1[k] == updated_precision(s, start, p, orig, k)) by {
        let in_i = lo <= k <= i;
        let in_w1 = walk_pending(s, w1, k);
        if in_w1 {
            let t = choose|t: int| 0 <= t < w1.len() && expr_start(s, #[trigger] w1[t].0 as int) <= k <= w1[t].0;
            assert(before[t] == w1[t]);
            assert(walk_pending(s, before, k));
            assert(w[t] == w1[t]);
            assert(walk_pending(s, w, k));
            assert(k != i);
        } else if walk_pending(s, added, k) {
            let t = choose|t: int| 0 <= t < added.len() && expr_start(s, #[trigger] added[t].0 as int) <= k <= added[t].0;
            assert(w[t + w1.len()] == added[t]);
            assert(walk_pending(s, w, k));
            assert(walk_pending(s, before, k));
            assert(k != i);
        } else {
            assert(!walk_pending(s, w, k)) by {
                if walk_pending(s, w, k) {
                    let t = choose|t: int| 0 <= t < w.len() && expr_start(s, #[trigger] w[t].0 as int) <= k <= w[t].0;
                    if t < w1.len() {
                        assert(w[t] == w1[t]);
                    } else {
                        assert(w[t] == added[t - w1.len()]);
                    }
                }
            }
            if k == i {
            } else if in_i {
                assert(walk_pending(s, before, k));
                assert(propagated(s, i, q, k) is None);
                assert(propagated(s, start, p, k) == propagated(s, i, q, k));
            } else {
                assert(!walk_pending(s, before, k)) by {
                    if walk_pending(s, before, k) {
                        let t = choose|t: int| 0 <= t < before.len() && expr_start(s, #[trigger] before[t].0 as int) <= k <= before[t].0;
                        if t < last {
                            assert(before[t] == w1[t]);
                        }
                    }
                }
            }
        }
    }
}

/// Walk backwards starting at `start_index` and update the `required_precisions` vector according to the precision each operator needs.
/// An entry for which what its operator needs would not fit in `Precision` passes nothing on
/// to its arguments.
fn update_required_precisions(
    stack_computable: &StackComputable,
    start_index: usize,
    start_required_precision: Precision,
    required_precisions: &mut Vec<Precision>,
)
    requires
        start_index < stack_computable@.0.len(),
        old(required_precisions)@.len() == stack_computable@.0.len(),
    ensures
        final(required_precisions)@.len() == old(required_precisions)@.len(),
        forall|k: int|
            0 <= k < old(required_precisions)@.len() ==> #[trigger] final(required_precisions)@[k]
                == updated_precision(
                stack_computable@.0,
                start_index as int,
                start_required_precision as int,
                old(required_precisions)@,
                k,
            ),
{
    proof {
        use_type_invariant(stack_computable);
    }
    let ghost s = stack_computable@.0;
    let ghost n = stack_computable@.1.len() as int;
    let ghost len = required_precisions@.len();
    let ghost orig = required_precisions@;
    let ghost start = start_index as int;
    let ghost p = start_required_precision as int;
    let mut index_stack: Vec<(usize, Precision)> = Vec::new();
    index_stack.push((start_index, start_required_precision));
    proof {
        assert(stack_computable@.1.len() == stack_computable.literals@.len());
        lemma_start_exists(s, n, start);
        assert(walk_item_ok(s, start, p, index_stack@[0]));
        assert forall|k: int| 0 <= k < len implies
            (walk_pending(s, index_stack@, k) ==> #[trigger] required_precisions@[k] == orig[k])
            && (!walk_pending(s, index_stack@, k) ==> required_precisions@[k] == updated_precision(s, start, p, orig, k)) by {
            if expr_start(s, start) <= k <= start {
                assert(walk_pending(s, index_stack@, k));
            }
        }
    }
    loop
        invariant
            required_precisions@.len() == len,
            len == s.len(),
            orig.len() == len,
            s == stack_computable@.0,
            well_formed(s, n),
            start < len,
            forall|t: int| 0 <= t < index_stack@.len() ==> #[trigger] walk_item_ok(s, start, p, index_stack@[t]),
            forall|t1: int, t2: int|
                0 <= t1 < t2 < index_stack@.len() ==> (#[trigger] index_stack@[t1]).0 < expr_start(s, (#[trigger] index_stack@[t2]).0 as int)
                    || index_stack@[t2].0 < expr_start(s, index_stack@[t1].0 as int),
            forall|k: int| 0 <= k < len ==>
                (walk_pending(s, index_stack@, k) ==> #[trigger] required_precisions@[k] == orig[k])
                && (!walk_pending(s, index_stack@, k) ==> required_precisions@[k] == updated_precision(s, start, p, orig, k)),
        ensures
            required_precisions@.len() == len,
            forall|k: int| 0 <= k < len ==> #[trigger] required_precisions@[k] == updated_precision(s, start, p, orig, k),
        decreases work_weight(index_stack@),
    {
        let ghost before = index_stack@;
        let ghost before_required = required_precisions@;
        match index_stack.pop() {
            None => {
                proof {
                    assert forall|k: int| 0 <= k < len implies #[trigger] required_precisions@[k] == updated_precision(s, start, p, orig, k) by {
                        assert(!walk_pending(s, index_stack@, k));
                    }
                }
                break;
            },
            Some((i, current_required_precision)) => {
                let ghost w1 = index_stack@;
                let ghost q = current_required_precision as int;
                proof {
                    assert(before.drop_last() == w1);
                    assert(before[before.len() - 1] == (i, current_required_precision));
                    assert(work_weight(before) == work_weight(w1) + pow2(i as nat));
                    lemma_pow2_pos(i as nat);
                    assert(walk_item_ok(s, start, p, before[before.len() - 1]));
                    lemma_expression_ranges(s, n, i as int);
                    assert(propagated(s, start, p, i as int) == Some(q));
                }
                required_precisions.set(i, current_required_precision);
                let ghost lo = expr_start(s, i as int);
                // Entries of the expression of `i` lie in no other waiting item.
                proof {
                    assert forall|t: int| 0 <= t < w1.len() implies (#[trigger] w1[t]).0 < lo || i < expr_start(s, w1[t].0 as int) by {
                        assert(before[t] == w1[t]);
                    }
                }
                if needed_fits(&stack_computable.stack[i], current_required_precision) {
                    let op = stack_computable.stack[i];
                    let next_required_precision = op.precision_needed(current_required_precision);
                    let args = stack_computable.operator_argument_indices(i);
                    proof {
                        lemma_arg_indices_below(s, i as int);
                        lemma_well_formed_arguments(s, n, i as int);
                    }
                    match args {
                        (None, None) => {
                            // No arguments
                            proof {
                                assert(lo == i);
                                assert(w1 + Seq::<(usize, Precision)>::empty() == w1);
                                lemma_walk_step(s, n, start, p, orig, before_required, required_precisions@, before, w1, Seq::empty(), i as int, q);
                            }
                        },
                        (Some(arg1_index), None) => {
                            index_stack.push((arg1_index, next_required_precision));
                            proof {
                                assert(index_stack@.drop_last() == w1);
                                vstd::arithmetic::power2::lemma_pow2_strictly_increases(arg1_index as nat, i as nat);
                                assert(work_weight(index_stack@) == work_weight(w1) + pow2(arg1_index as nat));
                                assert(work_weight(index_stack@) < work_weight(before));
                                lemma_start_exists(s, n, i - 1);
                                let added = seq![(arg1_index, next_required_precision)];
                                assert(index_stack@ == w1 + added);
                                assert(walk_item_ok(s, start, p, added[0])) by {
                                    assert forall|k: int| expr_start(s, arg1_index as int) <= k <= arg1_index implies #[trigger] propagated(s, start, p, k) == propagated(s, arg1_index as int, next_required_precision as int, k) by {
                                        assert(walk_item_ok(s, start, p, before[before.len() - 1]));
                                        assert(propagated(s, start, p, k) == propagated(s, i as int, q, k));
                                    }
                                }
                                assert forall|k: int| lo <= k < i implies walk_pending(s, added, k) || propagated(s, i as int, q, k) is None by {
                                    assert(expr_start(s, added[0].0 as int) <= k <= added[0].0);
                                }
                                lemma_walk_step(s, n, start, p, orig, before_required, required_precisions@, before, w1, added, i as int, q);
                            }
                        },
                        (Some(arg1_index), Some(arg2_index)) => {
                            index_stack.push((arg1_index, next_required_precision));
                            let ghost w2 = index_stack@;
                            index_stack.push((arg2_index, next_required_precision));
                            proof {
                                assert(index_stack@.drop_last() == w2);
                                assert(w2.drop_last() == w1);
                                lemma_two_powers_below(arg1_index as nat, arg2_index as nat, i as nat);
                                assert(work_weight(w2) == work_weight(w1) + pow2(arg1_index as nat));
                                assert(work_weight(index_stack@) == work_weight(w2) + pow2(arg2_index as nat));
                                assert(work_weight(index_stack@) < work_weight(before));
                                lemma_start_exists(s, n, i - 1);
                                lemma_start_exists(s, n, arg1_index as int);
                                let added = seq![(arg1_index, next_required_precision), (arg2_index, next_required_precision)];
                                assert(index_stack@ == w1 + added);
                                assert(walk_item_ok(s, start, p, added[0])) by {
                                    assert forall|k: int| expr_start(s, arg1_index as int) <= k <= arg1_index implies #[trigger] propagated(s, start, p, k) == propagated(s, arg1_index as int, next_required_precision as int, k) by {
                                        assert(walk_item_ok(s, start, p, before[before.len() - 1]));
                                        assert(propagated(s, start, p, k) == propagated(s, i as int, q, k));
                                    }
                                }
                                assert(walk_item_ok(s, start, p, added[1])) by {
                                    assert forall|k: int| expr_start(s, arg2_index as int) <= k <= arg2_index implies #[trigger] propagated(s, start, p, k) == propagated(s, arg2_index as int, next_required_precision as int, k) by {
                                        assert(walk_item_ok(s, start, p, before[before.len() - 1]));
                                        assert(propagated(s, start, p, k) == propagated(s, i as int, q, k));
                                    }
                                }
                                assert forall|k: int| lo <= k < i implies walk_pending(s, added, k) || propagated(s, i as int, q, k) is None by {
                                    if k <= arg1_index {
                                        assert(expr_start(s, added[0].0 as int) <= k <= added[0].0);
                                    } else {
                                        assert(expr_start(s, added[1].0 as int) <= k <= added[1].0);
                                    }
                                }
                                lemma_walk_step(s, n, start, p, orig, before_required, required_precisions@, before, w1, added, i as int, q);
                            }
                        },
                        (None, Some(_)) => {
                            // The indices never take this shape.
                            vstd::pervasive::unreached()
                        },
                    }
                } else {
                    proof {
                        assert(w1 + Seq::<(usize, Precision)>::empty() == w1);
                        assert forall|k: int| lo <= k < i implies walk_pending(s, Seq::<(usize, Precision)>::empty(), k) || propagated(s, i as int, q, k) is None by {}
                        lemma_walk_step(s, n, start, p, orig, before_required, required_precisions@, before, w1, Seq::empty(), i as int, q);
                    }
                }
            },
        }
    }
}

/// Where the walk from `start` with precision `p` reaches entry `i` with precision `q`, it
/// goes on below `i` as the walk from `i` with `q`, and the expression of `i` lies within that
/// of `start`.
pub proof fn lemma_propagated_through(s: Seq<OpStack>, n: int, start: int, p: int, i: int, q: int, k: int)
    requires
        well_formed(s, n),
        0 <= i <= start < s.len(),
        propagated(s, start, p, i) == Some(q),
        expr_start(s, i) <= k <= i,
    ensures
        expr_start(s, start) <= expr_start(s, i),
        propagated(s, start, p, k) == propagated(s, i, q, k),
    decreases start,
{
    lemma_expression_ranges(s, n, start);
    lemma_expression_ranges(s, n, i);
    if i != start {
        let np = op_needed(s[start], p);
        assert(start > 0 && expr_start(s, start) <= i && op_needed_fits(s[start], p));
        match s[start] {
            OpStack::UnaryOp(_) => {
                assert(propagated(s, start - 1, np, i) == Some(q));
                lemma_propagated_through(s, n, start - 1, np, i, q, k);
                assert(expr_start(s, start) == expr_start(s, start - 1));
                assert(k >= expr_start(s, start) && k != start);
                assert(propagated(s, start, p, k) == propagated(s, start - 1, np, k));
            },
            OpStack::BinaryOp(_) => {
                let j1 = expr_start(s, start - 1) - 1;
                lemma_expression_ranges(s, n, start - 1);
                lemma_expression_ranges(s, n, j1);
                if i > j1 {
                    assert(propagated(s, start - 1, np, i) == Some(q));
                    lemma_propagated_through(s, n, start - 1, np, i, q, k);
                    assert(propagated(s, start, p, k) == propagated(s, start - 1, np, k));
                } else {
                    assert(propagated(s, j1, np, i) == Some(q));
                    lemma_propagated_through(s, n, j1, np, i, q, k);
                    assert(propagated(s, start, p, k) == propagated(s, j1, np, k));
                }
            },
            _ => {
                assert(propagated(s, start, p, i) is None);
            },
        }
    }
}

/// Where the walk from `start` reaches an operator `i` with a precision `q` in the precision
/// range, it reaches each argument of `i` with the precision that the operator needs for `q`.
pub proof fn lemma_propagated_arguments(s: Seq<OpStack>, n: int, start: int, p: int, i: int, q: int)
    requires
        well_formed(s, n),
        0 <= i <= start < s.len(),
        propagated(s, start, p, i) == Some(q),
        op_needed_fits(s[i], q),
    ensures
        spec_arg_indices(s, i).0 matches Some(j) ==> propagated(s, start, p, j) == Some(op_needed(s[i], q)),
        spec_arg_indices(s, i).1 matches Some(j) ==> propagated(s, start, p, j) == Some(op_needed(s[i], q)),
{
    lemma_expression_ranges(s, n, i);
    lemma_well_formed_arguments(s, n, i);
    let np = op_needed(s[i], q);
    if s[i] is UnaryOp {
        lemma_expression_ranges(s, n, i - 1);
        lemma_propagated_through(s, n, start, p, i, q, i - 1);
        assert(propagated(s, i - 1, np, i - 1) == Some(np));
        assert(propagated(s, i, q, i - 1) == Some(np));
    } else if s[i] is BinaryOp {
        let j1 = expr_start(s, i - 1) - 1;
        lemma_expression_ranges(s, n, i - 1);
        lemma_expression_ranges(s, n, j1);
        lemma_propagated_through(s, n, start, p, i, q, i - 1);
        lemma_propagated_through(s, n, start, p, i, q, j1);
        assert(propagated(s, i - 1, np, i - 1) == Some(np));
        assert(propagated(s, i, q, i - 1) == Some(np));
        assert(propagated(s, j1, np, j1) == Some(np));
        assert(propagated(s, i, q, j1) == Some(np));
    }
}

/// Below a precision of at most zero, the walk only asks for more precision.
pub proof fn lemma_propagated_not_above(s: Seq<OpStack>, i: int, q: int, k: int)
    requires
        q <= 0,
        propagated(s, i, q, k) is Some,
    ensures
        propagated(s, i, q, k)->0 <= q,
    decreases i,
{
    if k != i {
        let np = op_needed(s[i], q);
        match s[i] {
            OpStack::UnaryOp(_) => {
                lemma_propagated_not_above(s, i - 1, np, k);
            },
            OpStack::BinaryOp(_) => {
                let j1 = expr_start(s, i - 1) - 1;
                if k > j1 {
                    lemma_propagated_not_above(s, i - 1, np, k);
                } else {
                    lemma_propagated_not_above(s, j1, np, k);
                }
            },
            _ => {},
        }
    }
}

/// The arguments of an entry come before it, the first before the second.
pub proof fn lemma_arg_indices_below(s: Seq<OpStack>, i: int)
    requires
        0 <= i < s.len(),
    ensures
        spec_arg_indices(s, i).0 matches Some(j) ==> 0 <= j < i,
        spec_arg_indices(s, i).1 matches Some(j) ==> j == i - 1 && (spec_arg_indices(s, i).0 matches Some(j1) && j1 < j),
        spec_arg_indices(s, i).0 is None ==> spec_arg_indices(s, i).1 is None,
{
    if s[i] is BinaryOp && i >= 2 && exists|j: int| is_split(s, i, j) {
        let j = choose|j: int| is_split(s, i, j);
        assert(is_split(s, i, j));
    }
}

proof fn lemma_two_powers_below(a: nat, b: nat, i: nat)
    requires
        a < b < i,
    ensures
        pow2(a) + pow2(b) < pow2(i),
{
    vstd::arithmetic::power2::lemma_pow2_strictly_increases(a, (i - 1) as nat);
    if b < i - 1 {
        vstd::arithmetic::power2::lemma_pow2_strictly_increases(b, (i - 1) as nat);
    }
    lemma_pow2_unfold(i);
}

/// Don't bother with computations that require more precision than this.
pub const STOP_PRECISION: Precision = -10000;

/// Why an approximation was not computed.
#[derive(Clone, Copy, Debug, PartialEq, Eq, Structural)]
pub enum ApproximationError {
    /// A required precision fell below `STOP_PRECISION`; the computation stops to avoid an endless loop.
    PrecisionTooLow(Precision),
    /// The precision arithmetic of an operator at its required precision would leave `Precision`.
    PrecisionOutOfRange(Precision),
    /// The argument of a unary operator lies outside the documented domain of the operator (a
    /// negative square root; a cosine beyond 1; an exponential or `ln(1 + x)` beyond 1/2), or
    /// the precision arithmetic of an inverse on its argument would leave `Precision`.
    ArgumentOutOfRange,
}

/// `v` is a value that the computation can produce for the entry `i` of the stack: a literal
/// or one approximated at precision `v.1`, or what an operator computes, at the precision it
/// was asked for, from values that the computation can produce for its arguments.
pub open spec fn approximates(s: Seq<OpStack>, lits: Seq<LiteralView>, i: int, v: (int, int)) -> bool
    decreases i,
{
    if i < 0 || i >= s.len() {
        false
    } else {
        match s[i] {
            OpStack::Literal => {
                let li = literal_count(s, i);
                li < lits.len() && v.0 == literal_approx(lits[li as int], v.1)
            },
            OpStack::One => v.0 == spec_scale(1, -v.1),
            OpStack::Pi => false,
            OpStack::UnaryOp(op) => match spec_arg_indices(s, i) {
                (Some(j), None) => j < i && exists|a: (int, int), q: int|
                    approximates(s, lits, j, a) && #[trigger] unary_spec(op, a, q) == Attempt::Success(
                        v.0,
                        v.1,
                    ),
                _ => false,
            },
            OpStack::BinaryOp(op) => match spec_arg_indices(s, i) {
                (Some(j1), Some(j2)) => j1 < i && j2 < i && exists|a1: (int, int), a2: (int, int), q: int|
                    approximates(s, lits, j1, a1) && approximates(s, lits, j2, a2)
                        && #[trigger] binary_spec(op, a1, a2, q) == Attempt::Success(v.0, v.1),
                _ => false,
            },
        }
    }
}

/// The exact value of a literal, as a fraction (numerator, denominator).
pub open spec fn literal_exact(l: LiteralView) -> (int, int) {
    match l {
        LiteralView::Int(v) => (v, 1),
        LiteralView::Ratio(n, d) => (n, d),
    }
}

/// The sum or the product of two fractions.
pub open spec fn binary_fraction(op: BinaryOp, x1: (int, int), x2: (int, int)) -> (int, int) {
    match op {
        BinaryOp::Add => sum_fraction(x1, x2),
        BinaryOp::Mul => product_fraction(x1, x2),
    }
}

/// The exact value of the expression at entry `i`, as a fraction (numerator, denominator), for
/// expressions built from literals, one, negations, sums and products; other operators count
/// as zero.
pub open spec fn exact_value(s: Seq<OpStack>, lits: Seq<LiteralView>, i: int) -> (int, int)
    decreases i,
{
    if i < 0 || i >= s.len() {
        (0, 1)
    } else {
        match s[i] {
            OpStack::Literal => literal_exact(lits[literal_count(s, i) as int]),
            OpStack::One => (1, 1),
            OpStack::UnaryOp(UnaryOp::Neg) => match spec_arg_indices(s, i) {
                (Some(j), None) => if 0 <= j < i {
                    let x = exact_value(s, lits, j);
                    (-x.0, x.1)
                } else {
                    (0, 1)
                },
                _ => (0, 1),
            },
            OpStack::BinaryOp(op) => match spec_arg_indices(s, i) {
                (Some(j1), Some(j2)) => if 0 <= j1 < i && 0 <= j2 < i {
                    binary_fraction(op, exact_value(s, lits, j1), exact_value(s, lits, j2))
                } else {
                    (0, 1)
                },
                _ => (0, 1),
            },
            _ => (0, 1),
        }
    }
}

/// The exact value of every expression has a positive denominator.
pub proof fn lemma_exact_value_denominator(s: Seq<OpStack>, lits: Seq<LiteralView>, i: int)
    requires
        well_formed(s, lits.len() as int),
        denominators_positive(lits),
    ensures
        exact_value(s, lits, i).1 > 0,
    decreases i,
{
    if 0 <= i < s.len() {
        lemma_well_formed_arguments(s, lits.len() as int, i);
        match s[i] {
            OpStack::Literal => {
                assert(lits[literal_count(s, i) as int] matches LiteralView::Ratio(_, d) ==> d > 0);
            },
            OpStack::UnaryOp(UnaryOp::Neg) => {
                lemma_exact_value_denominator(s, lits, i - 1);
            },
            OpStack::BinaryOp(_) => {
                lemma_arg_indices_below(s, i);
                let j1 = spec_arg_indices(s, i).0->0;
                let j2 = spec_arg_indices(s, i).1->0;
                lemma_exact_value_denominator(s, lits, j1);
                lemma_exact_value_denominator(s, lits, j2);
                let d1 = exact_value(s, lits, j1).1;
                let d2 = exact_value(s, lits, j2).1;
                assert(d1 * d2 > 0) by (nonlinear_arith)
                    requires
                        d1 > 0,
                        d2 > 0,
                ;
            },
            _ => {},
        }
    }
}

/// The exact value of an entry of a stack that begins with the well-formed `s1` over the
/// literals `l1` is that of the entry in `s1`.
pub proof fn lemma_exact_value_prefix(
    t: Seq<OpStack>,
    lt: Seq<LiteralView>,
    s1: Seq<OpStack>,
    l1: Seq<LiteralView>,
    k: int,
)
    requires
        well_formed(s1, l1.len() as int),
        0 <= k < s1.len(),
        s1.len() <= t.len(),
        forall|i: int| 0 <= i < s1.len() ==> t[i] == s1[i],
        l1.len() <= lt.len(),
        forall|i: int| 0 <= i < l1.len() ==> lt[i] == l1[i],
    ensures
        exact_value(t, lt, k) == exact_value(s1, l1, k),
    decreases k,
{
    lemma_arg_indices_prefix(t, s1, k);
    lemma_literal_count_prefix(t, s1, k);
    lemma_well_formed_arguments(s1, l1.len() as int, k);
    lemma_arg_indices_below(s1, k);
    assert(t[k] == s1[k]);
    match s1[k] {
        OpStack::Literal => {
            let li = literal_count(s1, k);
            assert(lt[li as int] == l1[li as int]);
        },
        OpStack::UnaryOp(_) => {
            lemma_exact_value_prefix(t, lt, s1, l1, k - 1);
        },
        OpStack::BinaryOp(_) => {
            lemma_exact_value_prefix(t, lt, s1, l1, spec_arg_indices(s1, k).0->0);
            lemma_exact_value_prefix(t, lt, s1, l1, spec_arg_indices(s1, k).1->0);
        },
        _ => {},
    }
}

/// The exact value of an entry of the well-formed `s2` over the literals `l2`, held in a larger
/// stack from index `a` on with its literals from `literal_count(t, a)` on, is that of the
/// entry in `s2`.
pub proof fn lemma_exact_value_suffix(
    t: Seq<OpStack>,
    lt: Seq<LiteralView>,
    s2: Seq<OpStack>,
    l2: Seq<LiteralView>,
    a: int,
    k: int,
)
    requires
        well_formed(s2, l2.len() as int),
        0 <= a,
        0 <= k < s2.len(),
        a + s2.len() <= t.len(),
        forall|i: int| 0 <= i < s2.len() ==> t[a + i] == s2[i],
        literal_count(t, a) + l2.len() <= lt.len(),
        forall|i: int| 0 <= i < l2.len() ==> lt[literal_count(t, a) + i] == l2[i],
    ensures
        exact_value(t, lt, a + k) == exact_value(s2, l2, k),
    decreases k,
{
    lemma_arg_indices_suffix(t, s2, l2.len() as int, a, k);
    assert forall|i: int| 0 <= i < k implies t[i + a] == s2[i] by {
        assert(t[a + i] == s2[i]);
    }
    lemma_literal_count_shift(t, s2, a, k);
    lemma_well_formed_arguments(s2, l2.len() as int, k);
    lemma_arg_indices_below(s2, k);
    assert(t[a + k] == s2[k]);
    match s2[k] {
        OpStack::Literal => {
            let li = literal_count(s2, k);
            assert(lt[(literal_count(t, a) + li) as int] == l2[li as int]);
        },
        OpStack::UnaryOp(_) => {
            lemma_exact_value_suffix(t, lt, s2, l2, a, k - 1);
        },
        OpStack::BinaryOp(_) => {
            lemma_exact_value_suffix(t, lt, s2, l2, a, spec_arg_indices(s2, k).0->0);
            lemma_exact_value_suffix(t, lt, s2, l2, a, spec_arg_indices(s2, k).1->0);
        },
        _ => {},
    }
}

/// The exact value of the sum or the product of two computations, as `add` and `mul` build
/// them, is the sum or the product of their exact values.
pub proof fn lemma_exact_value_binary(
    s1: Seq<OpStack>,
    l1: Seq<LiteralView>,
    s2: Seq<OpStack>,
    l2: Seq<LiteralView>,
    op: BinaryOp,
)
    requires
        well_formed(s1, l1.len() as int),
        well_formed(s2, l2.len() as int),
    ensures
        exact_value(s1 + s2 + seq![OpStack::BinaryOp(op)], l1 + l2, (s1.len() + s2.len()) as int)
            == binary_fraction(op, exact_value(s1, l1, s1.len() - 1), exact_value(s2, l2, s2.len() - 1)),
{
    let t = s1 + s2 + seq![OpStack::BinaryOp(op)];
    let lt = l1 + l2;
    let a = s1.len() as int;
    let b = s2.len() as int;
    lemma_binary_root_arguments(s1, l1.len() as int, s2, l2.len() as int, OpStack::BinaryOp(op));
    lemma_literal_count_prefix(t, s1, a);
    lemma_exact_value_prefix(t, lt, s1, l1, a - 1);
    lemma_exact_value_suffix(t, lt, s2, l2, a, b - 1);
    assert(t[a + b] == OpStack::BinaryOp(op));
}

/// Literals, one, negations, sums and products.
pub open spec fn is_rational_op(op: OpStack) -> bool {
    match op {
        OpStack::Literal | OpStack::One => true,
        OpStack::UnaryOp(u) => u == UnaryOp::Neg,
        OpStack::BinaryOp(_) => true,
        _ => false,
    }
}

/// Every entry of the stack is a literal, one, a negation, a sum or a product.
pub open spec fn rational_stack(s: Seq<OpStack>) -> bool {
    forall|k: int| 0 <= k < s.len() ==> is_rational_op(#[trigger] s[k])
}

/// Every entry of the expression at `k` is a literal, one, a negation, a sum or a product.
pub open spec fn rational_expr(s: Seq<OpStack>, k: int) -> bool {
    forall|j: int| expr_start(s, k) <= j <= k ==> is_rational_op(#[trigger] s[j])
}

/// The expression at a rational entry is made of rational arguments.
pub proof fn lemma_rational_args(s: Seq<OpStack>, n: int, i: int)
    requires
        well_formed(s, n),
        0 <= i < s.len(),
        rational_expr(s, i),
    ensures
        is_rational_op(s[i]),
        spec_arg_indices(s, i).0 matches Some(j) ==> rational_expr(s, j),
        spec_arg_indices(s, i).1 matches Some(j) ==> rational_expr(s, j),
{
    lemma_expression_ranges(s, n, i);
    assert(is_rational_op(s[i]));
    if s[i] is UnaryOp {
        lemma_expression_ranges(s, n, i - 1);
        lemma_well_formed_arguments(s, n, i);
    } else if s[i] is BinaryOp {
        let j1 = expr_start(s, i - 1) - 1;
        lemma_expression_ranges(s, n, i - 1);
        lemma_expression_ranges(s, n, j1);
        assert forall|j: int| expr_start(s, i - 1) <= j <= i - 1 implies is_rational_op(#[trigger] s[j]) by {
            assert(expr_start(s, i) <= j <= i);
        }
        assert forall|j: int| expr_start(s, j1) <= j <= j1 implies is_rational_op(#[trigger] s[j]) by {
            assert(expr_start(s, i) <= j <= i);
        }
    }
}

/// The values for which the series and the square root are summed or taken: `x >= 0` for the
/// square root, `|x| < 1` for the cosine, `|x| < 1/2` for the exponential and `ln(1 + x)`.
pub open spec fn in_domain(u: UnaryOp, x: (int, int)) -> bool {
    match u {
        UnaryOp::Sqrt => x.0 >= 0,
        UnaryOp::PrescaledCos => iabs(x.0) < x.1,
        UnaryOp::PrescaledExp | UnaryOp::PrescaledLn => 2 * iabs(x.0) < x.1,
        _ => false,
    }
}

/// The entry `k` is an exact operator, or a square root, cosine, exponential or logarithm of a
/// rational expression whose exact value lies in its domain.
pub open spec fn domain_ok(s: Seq<OpStack>, lits: Seq<LiteralView>, k: int) -> bool {
    match s[k] {
        OpStack::UnaryOp(u) => u == UnaryOp::Neg || (rational_expr(s, k - 1) && in_domain(
            u,
            exact_value(s, lits, k - 1),
        )),
        OpStack::Pi => false,
        _ => true,
    }
}

/// Every entry of the stack is as `domain_ok` asks.
pub open spec fn domains_ok(s: Seq<OpStack>, lits: Seq<LiteralView>) -> bool {
    forall|k: int| 0 <= k < s.len() ==> #[trigger] domain_ok(s, lits, k)
}

/// A square root, cosine, exponential or logarithm whose argument is known at the precision it
/// needs, within one unit of a value in its domain, succeeds.
pub proof fn lemma_unary_succeeds(u: UnaryOp, a: (int, int), needed: int, x: (int, int))
    requires
        in_domain(u, x),
        x.1 > 0,
        a.1 == unary_needed(u, needed),
        a.1 + accuracy_scale() >= 0,
        within_one_unit_at(a.0, a.1, x, accuracy_scale()),
    ensures
        unary_domain(u, a, needed),
        unary_spec(u, a, needed) is Success,
{
    let m = accuracy_scale();
    lemma_scale_zero(a.0);
    match u {
        UnaryOp::Sqrt => {
            lemma_nonnegative_from_within(a.0, a.1, x, m);
            assert(spec_rescaled(a, needed * 2 - 2) == a.0);
            assert(!(a.1 > needed * 2 - 2));
            assert(sqrt_spec(a, needed) is Success);
        },
        UnaryOp::PrescaledCos => {
            if needed < 1 {
                let q = needed - 3;
                let g = pow2((-q) as nat) as int;
                assert(iabs(x.0) * g <= x.1 * g) by (nonlinear_arith)
                    requires
                        iabs(x.0) < x.1,
                        g >= 0,
                ;
                lemma_magnitude_from_within(a.0, q, x, m, g);
                assert(spec_rescaled(a, q) == a.0);
                assert(cos_spec(a, needed) is Success);
            }
        },
        _ => {
            let bound = if u == UnaryOp::PrescaledExp { 1int } else { 0int };
            if needed < bound {
                let q = needed - 3;
                let g = pow2((-q) as nat) as int;
                let h = pow2((-q - 1) as nat) as int;
                lemma_pow2_unfold((-q) as nat);
                assert(iabs(x.0) * g <= x.1 * h) by (nonlinear_arith)
                    requires
                        2 * iabs(x.0) < x.1,
                        g == 2 * h,
                        h >= 0,
                ;
                lemma_magnitude_from_within(a.0, q, x, m, h);
                lemma_pow2_pos((-q - 1) as nat);
                assert(spec_rescaled(a, q) == a.0);
                if u == UnaryOp::PrescaledExp {
                    assert(exp_spec(a, needed) is Success);
                } else {
                    assert(ln_spec(a, needed) is Success);
                }
            }
        },
    }
}

/// Every product of a rational expression in the stack, at the precision `q` that the walk
/// from the last entry at `p` asks of it, has `q <= -1` and factors whose exact values are small
/// against `q`.
pub open spec fn products_small(s: Seq<OpStack>, lits: Seq<LiteralView>, p: int) -> bool {
    forall|k: int|
        0 <= k < s.len() && #[trigger] s[k] == OpStack::BinaryOp(BinaryOp::Mul) && rational_expr(s, k) ==> {
            let q = propagated(s, s.len() - 1, p, k)->0;
            &&& q <= -1
            &&& small_factor(exact_value(s, lits, spec_arg_indices(s, k).0->0), q)
            &&& small_factor(exact_value(s, lits, spec_arg_indices(s, k).1->0), q)
        }
}

/// The scale at which the approximations of `approximate` are compared with exact values:
/// every precision it works at is at least `-accuracy_scale()`.
pub open spec fn accuracy_scale() -> nat {
    (-STOP_PRECISION) as nat
}

/// The value cached for entry `k` is within one unit of the exact value of its expression.
pub open spec fn cache_accurate(c: Cache, s: Seq<OpStack>, lits: Seq<LiteralView>, k: int) -> bool {
    c matches Cache::Computed(v) ==> within_one_unit_at(v@.0, v@.1, exact_value(s, lits, k), accuracy_scale())
}

/// A literal approximated at a precision of at least `STOP_PRECISION` is within one unit of its value.
pub proof fn lemma_literal_accurate(l: LiteralView, p: int)
    requires
        l matches LiteralView::Ratio(_, d) ==> d > 0,
        p >= STOP_PRECISION,
    ensures
        within_one_unit_at(literal_approx(l, p), p, literal_exact(l), accuracy_scale()),
{
    let m0: nat = (if p < 0 { -p } else { 0 }) as nat;
    match l {
        LiteralView::Int(v) => {
            lemma_int_within(v, p);
            lemma_within_any_scale(literal_approx(l, p), p, literal_exact(l), m0, (accuracy_scale() - m0) as nat);
        },
        LiteralView::Ratio(n, d) => {
            lemma_ratio_within((n, d), p);
            lemma_within_any_scale(literal_approx(l, p), p, literal_exact(l), m0, (accuracy_scale() - m0) as nat);
        },
    }
}

/// What the computation can produce for an entry of a stack that begins with the
/// well-formed `s1` over the literals `l1` is what it can produce for that entry of `s1`.
pub proof fn lemma_approximates_prefix(
    t: Seq<OpStack>,
    lt: Seq<LiteralView>,
    s1: Seq<OpStack>,
    l1: Seq<LiteralView>,
    k: int,
    w: (int, int),
)
    requires
        well_formed(s1, l1.len() as int),
        0 <= k < s1.len(),
        s1.len() <= t.len(),
        forall|i: int| 0 <= i < s1.len() ==> t[i] == s1[i],
        l1.len() <= lt.len(),
        forall|i: int| 0 <= i < l1.len() ==> lt[i] == l1[i],
    ensures
        approximates(t, lt, k, w) == approximates(s1, l1, k, w),
    decreases k,
{
    lemma_arg_indices_prefix(t, s1, k);
    lemma_literal_count_prefix(t, s1, k);
    lemma_well_formed_arguments(s1, l1.len() as int, k);
    lemma_arg_indices_below(s1, k);
    assert(t[k] == s1[k]);
    match s1[k] {
        OpStack::Literal => {
            let li = literal_count(s1, k);
            assert(lt[li as int] == l1[li as int]);
        },
        OpStack::UnaryOp(op) => {
            let j = k - 1;
            assert forall|a: (int, int)| #[trigger] approximates(t, lt, j, a) == approximates(s1, l1, j, a) by {
                lemma_approximates_prefix(t, lt, s1, l1, j, a);
            }
            if approximates(t, lt, k, w) {
                let (a, q) = choose|a: (int, int), q: int| approximates(t, lt, j, a) && #[trigger] unary_spec(op, a, q) == Attempt::Success(w.0, w.1);
                assert(approximates(s1, l1, j, a));
            }
            if approximates(s1, l1, k, w) {
                let (a, q) = choose|a: (int, int), q: int| approximates(s1, l1, j, a) && #[trigger] unary_spec(op, a, q) == Attempt::Success(w.0, w.1);
                assert(approximates(t, lt, j, a));
            }
        },
        OpStack::BinaryOp(op) => {
            let j1 = spec_arg_indices(s1, k).0->Some_0;
            let j2 = spec_arg_indices(s1, k).1->Some_0;
            assert forall|a: (int, int)| #[trigger] approximates(t, lt, j1, a) == approximates(s1, l1, j1, a) by {
                lemma_approximates_prefix(t, lt, s1, l1, j1, a);
            }
            assert forall|a: (int, int)| #[trigger] approximates(t, lt, j2, a) == approximates(s1, l1, j2, a) by {
                lemma_approximates_prefix(t, lt, s1, l1, j2, a);
            }
            if approximates(t, lt, k, w) {
                let (a1, a2, q) = choose|a1: (int, int), a2: (int, int), q: int| approximates(t, lt, j1, a1) && approximates(t, lt, j2, a2) && #[trigger] binary_spec(op, a1, a2, q) == Attempt::Success(w.0, w.1);
                assert(approximates(s1, l1, j1, a1));
                assert(approximates(s1, l1, j2, a2));
            }
            if approximates(s1, l1, k, w) {
                let (a1, a2, q) = choose|a1: (int, int), a2: (int, int), q: int| approximates(s1, l1, j1, a1) && approximates(s1, l1, j2, a2) && #[trigger] binary_spec(op, a1, a2, q) == Attempt::Success(w.0, w.1);
                assert(approximates(t, lt, j1, a1));
                assert(approximates(t, lt, j2, a2));
            }
        },
        _ => {},
    }
}

/// What the computation can produce for an entry of the well-formed `s2` over the literals `l2`,
/// held in a larger stack from index `a` on with its literals from `la` on, is what it can
/// produce for that entry of `s2`.
pub proof fn lemma_approximates_suffix(
    t: Seq<OpStack>,
    lt: Seq<LiteralView>,
    s2: Seq<OpStack>,
    l2: Seq<LiteralView>,
    a: int,
    k: int,
    w: (int, int),
)
    requires
        well_formed(s2, l2.len() as int),
        0 <= a,
        0 <= k < s2.len(),
        a + s2.len() <= t.len(),
        forall|i: int| 0 <= i < s2.len() ==> t[a + i] == s2[i],
        literal_count(t, a) + l2.len() <= lt.len(),
        forall|i: int| 0 <= i < l2.len() ==> lt[literal_count(t, a) + i] == l2[i],
    ensures
        approximates(t, lt, a + k, w) == approximates(s2, l2, k, w),
    decreases k,
{
    lemma_arg_indices_suffix(t, s2, l2.len() as int, a, k);
    assert forall|i: int| 0 <= i < k implies t[i + a] == s2[i] by {
        assert(t[a + i] == s2[i]);
    }
    lemma_literal_count_shift(t, s2, a, k);
    lemma_well_formed_arguments(s2, l2.len() as int, k);
    lemma_arg_indices_below(s2, k);
    assert(t[a + k] == s2[k]);
    match s2[k] {
        OpStack::Literal => {
            let li = literal_count(s2, k);
            assert(lt[(literal_count(t, a) + li) as int] == l2[li as int]);
        },
        OpStack::UnaryOp(op) => {
            let j = k - 1;
            assert forall|v: (int, int)| #[trigger] approximates(t, lt, a + j, v) == approximates(s2, l2, j, v) by {
                lemma_approximates_suffix(t, lt, s2, l2, a, j, v);
            }
            if approximates(t, lt, a + k, w) {
                let (x, q) = choose|x: (int, int), q: int| approximates(t, lt, a + j, x) && #[trigger] unary_spec(op, x, q) == Attempt::Success(w.0, w.1);
                assert(approximates(s2, l2, j, x));
            }
            if approximates(s2, l2, k, w) {
                let (x, q) = choose|x: (int, int), q: int| approximates(s2, l2, j, x) && #[trigger] unary_spec(op, x, q) == Attempt::Success(w.0, w.1);
                assert(approximates(t, lt, a + j, x));
            }
        },
        OpStack::BinaryOp(op) => {
            let j1 = spec_arg_indices(s2, k).0->Some_0;
            let j2 = spec_arg_indices(s2, k).1->Some_0;
            assert forall|v: (int, int)| #[trigger] approximates(t, lt, a + j1, v) == approximates(s2, l2, j1, v) by {
                lemma_approximates_suffix(t, lt, s2, l2, a, j1, v);
            }
            assert forall|v: (int, int)| #[trigger] approximates(t, lt, a + j2, v) == approximates(s2, l2, j2, v) by {
                lemma_approximates_suffix(t, lt, s2, l2, a, j2, v);
            }
            if approximates(t, lt, a + k, w) {
                let (x1, x2, q) = choose|x1: (int, int), x2: (int, int), q: int| approximates(t, lt, a + j1, x1) && approximates(t, lt, a + j2, x2) && #[trigger] binary_spec(op, x1, x2, q) == Attempt::Success(w.0, w.1);
                assert(approximates(s2, l2, j1, x1));
                assert(approximates(s2, l2, j2, x2));
            }
            if approximates(s2, l2, k, w) {
                let (x1, x2, q) = choose|x1: (int, int), x2: (int, int), q: int| approximates(s2, l2, j1, x1) && approximates(s2, l2, j2, x2) && #[trigger] binary_spec(op, x1, x2, q) == Attempt::Success(w.0, w.1);
                assert(approximates(t, lt, a + j1, x1));
                assert(approximates(t, lt, a + j2, x2));
            }
        },
        _ => {},
    }
}

/// A value that the computation can produce for two expressions joined by a binary operator is
/// exactly the operator's result, at the precision it was asked for, on values that the
/// computation can produce for the two expressions.
pub proof fn lemma_approximates_binary(
    s1: Seq<OpStack>,
    l1: Seq<LiteralView>,
    s2: Seq<OpStack>,
    l2: Seq<LiteralView>,
    op: BinaryOp,
    v: (int, int),
)
    requires
        well_formed(s1, l1.len() as int),
        well_formed(s2, l2.len() as int),
    ensures
        approximates(s1 + s2 + seq![OpStack::BinaryOp(op)], l1 + l2, (s1.len() + s2.len()) as int, v) <==> exists|
            a1: (int, int),
            a2: (int, int),
            q: int,
        |
            approximates(s1, l1, s1.len() - 1, a1) && approximates(s2, l2, s2.len() - 1, a2)
                && #[trigger] binary_spec(op, a1, a2, q) == Attempt::Success(v.0, v.1),
{
    let t = s1 + s2 + seq![OpStack::BinaryOp(op)];
    let lt = l1 + l2;
    let a = s1.len() as int;
    let b = s2.len() as int;
    let i = a + b;
    lemma_binary_root_arguments(s1, l1.len() as int, s2, l2.len() as int, OpStack::BinaryOp(op));
    lemma_literal_count_prefix(t, s1, a);
    assert forall|w: (int, int)| #[trigger] approximates(t, lt, a - 1, w) == approximates(s1, l1, a - 1, w) by {
        lemma_approximates_prefix(t, lt, s1, l1, a - 1, w);
    }
    assert forall|w: (int, int)| #[trigger] approximates(t, lt, a + (b - 1), w) == approximates(s2, l2, b - 1, w) by {
        lemma_approximates_suffix(t, lt, s2, l2, a, b - 1, w);
    }
    assert(t[i] == OpStack::BinaryOp(op));
    let j2 = i - 1;
    assert(j2 == a + (b - 1));
    if approximates(t, lt, i, v) {
        let (x1, x2, q) = choose|x1: (int, int), x2: (int, int), q: int| approximates(t, lt, a - 1, x1) && approximates(t, lt, j2, x2) && #[trigger] binary_spec(op, x1, x2, q) == Attempt::Success(v.0, v.1);
        assert(approximates(s1, l1, a - 1, x1));
        assert(approximates(s2, l2, b - 1, x2));
    }
    if exists|x1: (int, int), x2: (int, int), q: int| approximates(s1, l1, a - 1, x1) && approximates(s2, l2, b - 1, x2) && #[trigger] binary_spec(op, x1, x2, q) == Attempt::Success(v.0, v.1) {
        let (x1, x2, q) = choose|x1: (int, int), x2: (int, int), q: int| approximates(s1, l1, a - 1, x1) && approximates(s2, l2, b - 1, x2) && #[trigger] binary_spec(op, x1, x2, q) == Attempt::Success(v.0, v.1);
        assert(approximates(t, lt, a - 1, x1));
        assert(approximates(t, lt, j2, x2));
        assert(approximates(t, lt, i, v));
    }
}

/// A value that the computation can produce for a unary operator applied to an expression is
/// exactly the operator's result, at the precision it was asked for, on a value that the
/// computation can produce for the expression.
pub proof fn lemma_approximates_unary(s: Seq<OpStack>, l: Seq<LiteralView>, op: UnaryOp, v: (int, int))
    requires
        well_formed(s, l.len() as int),
    ensures
        approximates(s.push(OpStack::UnaryOp(op)), l, s.len() as int, v) <==> exists|a: (int, int), q: int|
            approximates(s, l, s.len() - 1, a) && #[trigger] unary_spec(op, a, q) == Attempt::Success(v.0, v.1),
{
    let t = s.push(OpStack::UnaryOp(op));
    let n = s.len() as int;
    assert forall|w: (int, int)| #[trigger] approximates(t, l, n - 1, w) == approximates(s, l, n - 1, w) by {
        lemma_approximates_prefix(t, l, s, l, n - 1, w);
    }
    assert(t[n] == OpStack::UnaryOp(op));
    assert(spec_arg_indices(t, n) == (Some(n - 1), None::<int>));
    if approximates(t, l, n, v) {
        let (a, q) = choose|a: (int, int), q: int| approximates(t, l, n - 1, a) && #[trigger] unary_spec(op, a, q) == Attempt::Success(v.0, v.1);
        assert(approximates(s, l, n - 1, a));
    }
    if exists|a: (int, int), q: int| approximates(s, l, n - 1, a) && #[trigger] unary_spec(op, a, q) == Attempt::Success(v.0, v.1) {
        let (a, q) = choose|a: (int, int), q: int| approximates(s, l, n - 1, a) && #[trigger] unary_spec(op, a, q) == Attempt::Success(v.0, v.1);
        assert(approximates(t, l, n - 1, a));
        assert(approximates(t, l, n, v));
    }
}

/// The value cached for entry `k`, if any, is one the computation can produce, at a
/// precision within range.
pub open spec fn cache_sound(c: Cache, s: Seq<OpStack>, lits: Seq<LiteralView>, k: int) -> bool {
    c matches Cache::Computed(v) ==> approximates(s, lits, k, v@) && STOP_PRECISION <= v.1
}

/// The entry has a cached value that meets its required precision.
pub open spec fn cache_meets(c: Cache, r: Precision) -> bool {
    &&& c matches Cache::Computed(v) && v.1 <= r
    &&& r >= STOP_PRECISION
}

/// The part of the termination measure of `approximate` owed to one entry: how far the
/// better of its cached and required precisions lies above `STOP_PRECISION`.
pub open spec fn entry_budget(c: Cache, r: Precision) -> int {
    let m = match c {
        Cache::Empty => r as int,
        Cache::Computed(v) => if v.1 < r { v.1 as int } else { r as int },
    };
    if m >= STOP_PRECISION { m - STOP_PRECISION + 1 } else { 0 }
}

/// The termination measure of `approximate` over the first `n` entries.
pub open spec fn budget(cs: Seq<Cache>, rs: Seq<Precision>, n: int) -> int
    decreases n,
{
    if n <= 0 {
        0
    } else {
        budget(cs, rs, n - 1) + entry_budget(cs[n - 1], rs[n - 1])
    }
}

proof fn lemma_budget_nonneg(cs: Seq<Cache>, rs: Seq<Precision>, n: int)
    ensures
        budget(cs, rs, n) >= 0,
    decreases n,
{
    if n > 0 {
        lemma_budget_nonneg(cs, rs, n - 1);
    }
}

/// Changing entry `j` changes the measure by the change of that entry's part.
proof fn lemma_budget_update(
    cs: Seq<Cache>,
    rs: Seq<Precision>,
    cs2: Seq<Cache>,
    rs2: Seq<Precision>,
    n: int,
    j: int,
)
    requires
        0 <= j < n,
        forall|k: int| 0 <= k < n && k != j ==> cs2[k] == cs[k] && rs2[k] == rs[k],
    ensures
        budget(cs2, rs2, n) == budget(cs, rs, n) - entry_budget(cs[j], rs[j]) + entry_budget(
            cs2[j],
            rs2[j],
        ),
    decreases n,
{
    if n - 1 > j {
        lemma_budget_update(cs, rs, cs2, rs2, n - 1, j);
    } else {
        lemma_budget_same(cs, rs, cs2, rs2, n - 1);
    }
}

proof fn lemma_budget_same(cs: Seq<Cache>, rs: Seq<Precision>, cs2: Seq<Cache>, rs2: Seq<Precision>, n: int)
    requires
        forall|k: int| 0 <= k < n ==> cs2[k] == cs[k] && rs2[k] == rs[k],
    ensures
        budget(cs2, rs2, n) == budget(cs, rs, n),
    decreases n,
{
    if n > 0 {
        lemma_budget_same(cs, rs, cs2, rs2, n - 1);
    }
}

/// Operators that always give a value at the precision asked of them once their arguments are
/// known at the precision they need: literals, one, negation, sums and products.
pub open spec fn is_exact_op(op: OpStack) -> bool {
    match op {
        OpStack::Literal | OpStack::One => true,
        OpStack::UnaryOp(u) => u == UnaryOp::Neg,
        OpStack::BinaryOp(_) => true,
        OpStack::Pi => false,
    }
}

/// The entry holds a value at precision `r` or better.
pub open spec fn ready_at(c: Cache, r: int) -> bool {
    c matches Cache::Computed(v) && v.1 <= r
}

/// For a binary operator at `i`, both arguments hold values at the precision it needs for
/// `needed`; other entries need nothing more.
pub open spec fn arguments_ready(s: Seq<OpStack>, cache: Seq<Cache>, i: int, needed: int) -> bool {
    match s[i] {
        OpStack::BinaryOp(b) => match spec_arg_indices(s, i) {
            (Some(j1), Some(j2)) => ready_at(cache[j1], binary_needed(b, needed)) && ready_at(
                cache[j2],
                binary_needed(b, needed),
            ),
            _ => false,
        },
        _ => true,
    }
}

/// The precision that entry `k` is first asked for when the whole stack is approximated at `p`.
pub open spec fn initial_required(s: Seq<OpStack>, p: Precision, k: int) -> int {
    updated_precision(s, s.len() - 1, p as int, Seq::new(s.len(), |j: int| p), k)
}

/// Every entry of the stack is an exact operator.
pub open spec fn exact_stack(s: Seq<OpStack>) -> bool {
    forall|k: int| 0 <= k < s.len() ==> is_exact_op(#[trigger] s[k])
}

/// The precision arithmetic of the entry `op` at precision `x`, with its arguments at the
/// precision it needs, stays within `Precision`.
pub open spec fn op_fits(op: OpStack, x: int) -> bool {
    match op {
        OpStack::UnaryOp(UnaryOp::Sqrt) => unary_needed_fits(UnaryOp::Sqrt, x),
        OpStack::BinaryOp(b) => binary_needed_fits(b, x) && (b == BinaryOp::Mul ==> i32::MIN <= 4 * x
            <= i32::MAX),
        _ => true,
    }
}

/// The walk from the last entry at precision `p` reaches every entry, each with a precision of
/// at least `STOP_PRECISION` at which its precision arithmetic fits in `Precision`.
pub open spec fn needs_in_range(s: Seq<OpStack>, p: int) -> bool {
    forall|k: int|
        0 <= k < s.len() ==> (#[trigger] propagated(s, s.len() - 1, p, k) matches Some(x) && STOP_PRECISION
            <= x && op_fits(s[k], x))
}

/// The precision arithmetic of the entry `i` at precision `needed`, on the values cached for
/// its arguments, stays within `Precision` (only square roots and binary operators can leave it).
pub open spec fn entry_fits(s: Seq<OpStack>, cache: Seq<Cache>, i: int, needed: int) -> bool {
    match s[i] {
        OpStack::UnaryOp(UnaryOp::Sqrt) => match cache[i - 1] {
            Cache::Computed(a) => unary_needed_fits(UnaryOp::Sqrt, needed) && rescale_fits(a@, 2 * needed - 2),
            Cache::Empty => true,
        },
        OpStack::BinaryOp(b) => match spec_arg_indices(s, i) {
            (Some(j1), Some(j2)) => match (cache[j1], cache[j2]) {
                (Cache::Computed(a1), Cache::Computed(a2)) => binary_fits(b, a1@, a2@, needed),
                _ => true,
            },
            _ => true,
        },
        _ => true,
    }
}

/// `v` is what the operator at `i` makes, for an output at `needed`, of the values cached for
/// its arguments; a literal or a constant reads no cache.
pub open spec fn made_from_cache(s: Seq<OpStack>, cache: Seq<Cache>, i: int, needed: int, v: (int, int)) -> bool {
    match s[i] {
        OpStack::UnaryOp(u) => match cache[i - 1] {
            Cache::Computed(a) => unary_spec(u, a@, needed) == Attempt::Success(v.0, v.1),
            Cache::Empty => false,
        },
        OpStack::BinaryOp(b) => match spec_arg_indices(s, i) {
            (Some(j1), Some(j2)) => match (cache[j1], cache[j2]) {
                (Cache::Computed(a1), Cache::Computed(a2)) => binary_spec(b, a1@, a2@, needed)
                    == Attempt::Success(v.0, v.1),
                _ => false,
            },
            _ => false,
        },
        _ => true,
    }
}

/// In a stack of literals, negations, sums and small products whose needed precisions all lie
/// in range, an entry computed at its needed precision from arguments cached at theirs, each
/// within one unit, is within one unit of its exact value.
proof fn lemma_entry_accurate(
    s: Seq<OpStack>,
    lits: Seq<LiteralView>,
    cache: Seq<Cache>,
    i: int,
    p: int,
    v: (int, int),
)
    requires
        well_formed(s, lits.len() as int),
        denominators_positive(lits),
        rational_expr(s, i),
        needs_in_range(s, p),
        products_small(s, lits, p),
        cache.len() == s.len(),
        0 <= i < s.len(),
        v.1 == propagated(s, s.len() - 1, p, i)->0,
        approximates(s, lits, i, v),
        made_from_cache(s, cache, i, v.1, v),
        forall|k: int| 0 <= k < i ==> (#[trigger] cache[k] matches Cache::Computed(c) ==> c.1 == propagated(s, s.len() - 1, p, k)->0),
        forall|k: int| 0 <= k < s.len() && rational_expr(s, k) ==> #[trigger] cache_accurate(cache[k], s, lits, k),
    ensures
        within_one_unit_at(v.0, v.1, exact_value(s, lits, i), accuracy_scale()),
{
    let n = lits.len() as int;
    let m = accuracy_scale();
    let needed = v.1;
    lemma_rational_args(s, n, i);
    assert(propagated(s, s.len() - 1, p, i) is Some);
    lemma_well_formed_arguments(s, n, i);
    lemma_arg_indices_below(s, i);
    lemma_propagated_arguments(s, n, s.len() - 1, p, i, needed);
    match s[i] {
        OpStack::Literal => {
            let li = literal_count(s, i) as int;
            assert(lits[li] matches LiteralView::Ratio(_, d) ==> d > 0);
            lemma_literal_accurate(lits[li], needed);
        },
        OpStack::One => {
            lemma_literal_accurate(LiteralView::Int(1), needed);
        },
        OpStack::UnaryOp(_) => {
            let j = i - 1;
            let a = cache[j]->0;
            assert(propagated(s, s.len() - 1, p, j) is Some);
            assert(cache_accurate(cache[j], s, lits, j));
            assert(a@.1 == needed);
            lemma_neg_within(a@.0, needed, exact_value(s, lits, j), m);
        },
        OpStack::BinaryOp(_) => {
            let j1 = spec_arg_indices(s, i).0->0;
            let j2 = spec_arg_indices(s, i).1->0;
            let a1 = cache[j1]->0;
            let a2 = cache[j2]->0;
            let rp = needed - 2;
            assert(propagated(s, s.len() - 1, p, j1) is Some);
            assert(propagated(s, s.len() - 1, p, j2) is Some);
            assert(cache_accurate(cache[j1], s, lits, j1));
            assert(cache_accurate(cache[j2], s, lits, j2));
            lemma_scale_zero(a1@.0);
            lemma_scale_zero(a2@.0);
            lemma_exact_value_denominator(s, lits, j1);
            lemma_exact_value_denominator(s, lits, j2);
            if s[i] == OpStack::BinaryOp(BinaryOp::Add) {
                assert(a1@.1 == rp && a2@.1 == rp);
                lemma_add_within(a1@.0, a2@.0, rp, exact_value(s, lits, j1), exact_value(s, lits, j2), m);
            } else {
                assert(s[i] == OpStack::BinaryOp(BinaryOp::Mul));
                assert(a1@.1 == 2 * needed && a2@.1 == 2 * needed);
                lemma_mul_within(a1@.0, a2@.0, needed, exact_value(s, lits, j1), exact_value(s, lits, j2), m);
            }
        },
        _ => {},
    }
}

/// The entry `i` is a unary operator that may be applied to the value cached for its argument
/// and succeeds on it.
pub open spec fn unary_success(s: Seq<OpStack>, cache: Seq<Cache>, i: int, needed: int) -> bool {
    match s[i] {
        OpStack::UnaryOp(u) => match cache[i - 1] {
            Cache::Computed(a) => unary_fits(u, a@, needed) && unary_spec(u, a@, needed) is Success,
            Cache::Empty => false,
        },
        _ => false,
    }
}

/// The value of an attempt that succeeded, `0` otherwise.
pub open spec fn success_value(a: Attempt) -> int {
    match a {
        Attempt::Success(v, _) => v,
        _ => 0,
    }
}

/// The integer that entry `k` takes when every entry is computed once, at the precision that
/// the walk from the last entry at `p` asks of it, from its arguments computed in the same way.
pub open spec fn computed_value(s: Seq<OpStack>, lits: Seq<LiteralView>, p: int, k: int) -> int
    decreases k,
{
    let q = propagated(s, s.len() - 1, p, k)->0;
    if k < 0 || k >= s.len() {
        0
    } else {
        match s[k] {
            OpStack::Literal => literal_approx(lits[literal_count(s, k) as int], q),
            OpStack::One => spec_scale(1, -q),
            OpStack::UnaryOp(u) => if k >= 1 {
                success_value(
                    unary_spec(
                        u,
                        (computed_value(s, lits, p, k - 1), propagated(s, s.len() - 1, p, k - 1)->0),
                        q,
                    ),
                )
            } else {
                0
            },
            OpStack::BinaryOp(b) => match spec_arg_indices(s, k) {
                (Some(j1), Some(j2)) => if 0 <= j1 < k && 0 <= j2 < k {
                    success_value(
                        binary_spec(
                            b,
                            (computed_value(s, lits, p, j1), propagated(s, s.len() - 1, p, j1)->0),
                            (computed_value(s, lits, p, j2), propagated(s, s.len() - 1, p, j2)->0),
                            q,
                        ),
                    )
                } else {
                    0
                },
                _ => 0,
            },
            OpStack::Pi => 0,
        }
    }
}

/// A result of `approximate` as numbers.
pub open spec fn result_view(r: Result<BigInt, ApproximationError>) -> Result<int, ApproximationError> {
    match r {
        Ok(x) => Ok(int_value(x)),
        Err(e) => Err(e),
    }
}

/// What `approximate` gives for the inverse of the literal `l` at precision `p` once the literal
/// is asked for precision `e`: an error below `STOP_PRECISION` or where the inverse's precision
/// arithmetic would overflow; otherwise the inverse's value, or, when it asks for more
/// precision, what the literal at that precision gives.
pub open spec fn inverse_of_literal(l: LiteralView, p: int, e: int) -> Result<int, ApproximationError>
    decreases e - STOP_PRECISION,
{
    if e < STOP_PRECISION {
        Err(ApproximationError::PrecisionTooLow(e as Precision))
    } else {
        let a = (literal_approx(l, e), e);
        if !inverse_fits(a, p) {
            Err(ApproximationError::ArgumentOutOfRange)
        } else {
            match inverse_spec(a, p) {
                Attempt::Success(v, _) => Ok(v),
                Attempt::NeedMorePrecision(e2) => if e2 < STOP_PRECISION {
                    Err(ApproximationError::PrecisionTooLow(e2 as Precision))
                } else if e2 < e {
                    inverse_of_literal(l, p, e2)
                } else {
                    Err(ApproximationError::ArgumentOutOfRange)
                },
                Attempt::Failed => Err(ApproximationError::ArgumentOutOfRange),
            }
        }
    }
}

/// One step of `inverse_of_literal`: the literal at precision `e` is `a`.
proof fn lemma_inverse_of_literal_step(l: LiteralView, p: int, a: (int, int), e: int)
    requires
        e >= STOP_PRECISION,
        a == (literal_approx(l, e), e),
    ensures
        !inverse_fits(a, p) ==> inverse_of_literal(l, p, e) == Err::<int, ApproximationError>(
            ApproximationError::ArgumentOutOfRange,
        ),
        inverse_fits(a, p) && inverse_spec(a, p) is Success ==> inverse_of_literal(l, p, e) == Ok::<
            int,
            ApproximationError,
        >(inverse_spec(a, p)->Success_0),
        inverse_fits(a, p) && inverse_spec(a, p) is NeedMorePrecision ==> inverse_spec(a, p)->NeedMorePrecision_0 < e
            && inverse_of_literal(l, p, e) == inverse_of_literal(l, p, inverse_spec(a, p)->NeedMorePrecision_0),
{
    lemma_requests_are_finer(UnaryOp::Inverse, a, p);
}

/// The entry `k` computes in one pass: a unary operator other than the negation, applied to
/// its argument's value as `computed_value` gives it at the precision the walk asks of the
/// argument, may be applied (its arithmetic fits and the argument lies in its domain) and
/// gives a value without asking for more precision. Other entries always do.
pub open spec fn entry_direct(s: Seq<OpStack>, lits: Seq<LiteralView>, p: int, k: int) -> bool {
    match s[k] {
        OpStack::UnaryOp(u) => u == UnaryOp::Neg || (k >= 1 && {
            let a = (computed_value(s, lits, p, k - 1), propagated(s, s.len() - 1, p, k - 1)->0);
            let q = propagated(s, s.len() - 1, p, k)->0;
            unary_fits(u, a, q) && unary_spec(u, a, q) is Success
        }),
        OpStack::Pi => false,
        _ => true,
    }
}

/// Every entry of the stack computes in one pass at the precisions of the walk from the last
/// entry at `p`: inverses, square roots and series over any expressions included.
pub open spec fn computes_directly(s: Seq<OpStack>, lits: Seq<LiteralView>, p: int) -> bool {
    forall|k: int| 0 <= k < s.len() ==> #[trigger] entry_direct(s, lits, p, k)
}

/// In a stack on which `approximate` needs no second pass, the entry `i` is ready when it is
/// reached: its arguments are cached at the precisions the walk asks of them, with the values of
/// `computed_value`, and the entry gives a value on them.
proof fn lemma_entry_ready(
    s: Seq<OpStack>,
    lits: Seq<LiteralView>,
    cache: Seq<Cache>,
    required: Seq<Precision>,
    p: int,
    i: int,
    needed: int,
)
    requires
        well_formed(s, lits.len() as int),
        denominators_positive(lits),
        cache.len() == s.len(),
        required.len() == s.len(),
        0 <= i < s.len(),
        needed == required[i],
        needs_in_range(s, p),
        exact_stack(s) || (products_small(s, lits, p) && domains_ok(s, lits)) || computes_directly(s, lits, p),
        forall|k: int| 0 <= k < i ==> #[trigger] cache_meets(cache[k], required[k]),
        forall|k: int| 0 <= k < s.len() ==> #[trigger] cache_sound(cache[k], s, lits, k),
        forall|k: int| 0 <= k < s.len() ==> #[trigger] required[k] == propagated(s, s.len() - 1, p, k)->0,
        forall|k: int| 0 <= k < s.len() ==> (#[trigger] cache[k] matches Cache::Computed(v) ==> v.1 == required[k]),
        forall|k: int| 0 <= k < s.len() ==> (#[trigger] cache[k] matches Cache::Computed(v) ==> v@.0 == computed_value(s, lits, p, k)),
        products_small(s, lits, p) && (exact_stack(s) || domains_ok(s, lits)) ==> forall|k: int|
            0 <= k < s.len() && rational_expr(s, k) ==> #[trigger] cache_accurate(cache[k], s, lits, k),
    ensures
        (is_exact_op(s[i]) && arguments_ready(s, cache, i, needed)) || unary_success(s, cache, i, needed),
        entry_fits(s, cache, i, needed),
{
    assert(propagated(s, s.len() - 1, p, i) is Some);
    lemma_propagated_arguments(s, lits.len() as int, s.len() - 1, p, i, needed);
    lemma_arg_indices_below(s, i);
    lemma_well_formed_arguments(s, lits.len() as int, i);
    if is_exact_op(s[i]) {
        if s[i] is BinaryOp {
            let (j1, j2) = (spec_arg_indices(s, i).0->0, spec_arg_indices(s, i).1->0);
            assert(cache_meets(cache[j1], required[j1]));
            assert(cache_meets(cache[j2], required[j2]));
            assert(propagated(s, s.len() - 1, p, j1) is Some);
            assert(propagated(s, s.len() - 1, p, j2) is Some);
        }
        assert(arguments_ready(s, cache, i, needed));
    } else {
        assert(!exact_stack(s));
        let u = s[i]->UnaryOp_0;
        let j = i - 1;
        assert(cache_meets(cache[j], required[j]));
        assert(cache_sound(cache[j], s, lits, j));
        assert(propagated(s, s.len() - 1, p, j) is Some);
        let a = cache[j]->Computed_0;
        assert(a@ == (computed_value(s, lits, p, j), propagated(s, s.len() - 1, p, j)->0));
        if computes_directly(s, lits, p) {
            // An operator that computes in one pass.
            assert(entry_direct(s, lits, p, i));
        } else {
            // A square root or series over a rational expression in its domain.
            assert(domain_ok(s, lits, i));
            assert(cache_accurate(cache[j], s, lits, j));
            lemma_exact_value_denominator(s, lits, j);
            lemma_unary_succeeds(u, a@, needed, exact_value(s, lits, j));
        }
        assert(unary_success(s, cache, i, needed));
    }
}

/// What computing one entry of the stack came to.
pub enum EntryStep {
    /// The value of the entry.
    Value(PrescaledValue),
    /// The argument at this index must be recomputed at the given precision.
    Retry(usize, Precision),
    /// Both arguments at these indices must be recomputed at the given precision.
    RetryBoth(usize, usize, Precision),
    /// The approximation cannot go on.
    Stop(ApproximationError),
}

/// Lowering the required precision of an entry whose cached value meets it never raises
/// the entry's part of the measure, and lowers it when the new precision is below the cached one.
proof fn lemma_entry_budget_lowered(c: Cache, r_old: Precision, r_new: Precision)
    requires
        cache_meets(c, r_old),
        c matches Cache::Computed(v) && v.1 >= STOP_PRECISION,
    ensures
        entry_budget(c, r_new) <= entry_budget(c, r_old),
        c matches Cache::Computed(v) && r_new < v.1 ==> entry_budget(c, r_new) < entry_budget(c, r_old),
{
}

/// An entry whose requests for more precision do not depend on the values it reads: a literal,
/// one, a sum, a product, a square root or a series.
pub open spec fn is_plain_op(op: OpStack) -> bool {
    op is Literal || op is One || op is BinaryOp || (op matches OpStack::UnaryOp(u) && u != UnaryOp::Neg && u
        != UnaryOp::Inverse)
}

/// The stack is the inverse of an expression made of literals, one, sums, products, square
/// roots and series.
pub open spec fn inverse_of_plain(s: Seq<OpStack>) -> bool {
    &&& s.len() >= 2
    &&& s[s.len() - 1] == OpStack::UnaryOp(UnaryOp::Inverse)
    &&& forall|k: int| 0 <= k < s.len() - 1 ==> #[trigger] is_plain_op(s[k])
}

/// Every entry below the top computes in one pass at the precisions of the walk from the top
/// at `t`.
pub open spec fn argument_direct(s: Seq<OpStack>, lits: Seq<LiteralView>, t: int) -> bool {
    forall|k: int| 0 <= k < s.len() - 1 ==> #[trigger] entry_direct(s, lits, t, k)
}

/// What `approximate` gives at precision `p` for a stack that is the inverse of an expression,
/// once the walk asks the expression for precision `t`: `None` where a needed precision falls
/// below `STOP_PRECISION` or out of `Precision`, where a square root or series of the expression
/// cannot be applied to its argument's value (out of its domain, or its arithmetic would
/// overflow), or where the inverse's precision arithmetic would overflow; otherwise the inverse of the expression's value computed at the precisions
/// of that walk, or, when the inverse asks for more precision, what the walk for that precision
/// gives.
pub open spec fn inverse_of_expression(s: Seq<OpStack>, lits: Seq<LiteralView>, p: int, t: int) -> Option<int>
    decreases t - STOP_PRECISION,
{
    if t < STOP_PRECISION || !needs_in_range(s, t) || !argument_direct(s, lits, t) {
        None
    } else {
        let a = (computed_value(s, lits, t, s.len() - 2), t);
        if !inverse_fits(a, p) {
            None
        } else {
            match inverse_spec(a, p) {
                Attempt::Success(v, _) => Some(v),
                Attempt::NeedMorePrecision(t2) => if STOP_PRECISION <= t2 < t {
                    inverse_of_expression(s, lits, p, t2)
                } else {
                    None
                },
                Attempt::Failed => None,
            }
        }
    }
}

/// Walking down with a finer precision gives every entry it reaches a finer precision.
pub proof fn lemma_propagated_strict(s: Seq<OpStack>, i: int, q1: int, q2: int, k: int)
    requires
        q1 < q2,
        propagated(s, i, q1, k) is Some,
        propagated(s, i, q2, k) is Some,
    ensures
        propagated(s, i, q1, k)->0 < propagated(s, i, q2, k)->0,
    decreases i,
{
    if k != i {
        let n1 = op_needed(s[i], q1);
        let n2 = op_needed(s[i], q2);
        assert(n1 < n2);
        if s[i] is UnaryOp {
            lemma_propagated_strict(s, i - 1, n1, n2, k);
        } else if s[i] is BinaryOp {
            let j1 = expr_start(s, i - 1) - 1;
            if k > j1 {
                lemma_propagated_strict(s, i - 1, n1, n2, k);
            } else {
                lemma_propagated_strict(s, j1, n1, n2, k);
            }
        }
    }
}

/// The inverse at the top passes its precision on to the root of its argument unchanged.
pub(crate) proof fn lemma_root_target(s: Seq<OpStack>, n: int, t: int)
    requires
        well_formed(s, n),
        inverse_of_plain(s),
    ensures
        propagated(s, s.len() - 1, t, s.len() - 2) == Some(t),
{
    let m = s.len() - 1;
    lemma_expression_ranges(s, n, m);
    lemma_expression_ranges(s, n, m - 1);
    assert(expr_start(s, m) <= m - 1);
    assert(op_needed_fits(s[m], t));
    assert(op_needed(s[m], t) == t);
    assert(propagated(s, m - 1, t, m - 1) == Some(t));
}

/// What `approximate` knows of entry `k` of the inverse of an expression that it will compute:
/// the entry is asked for the precision of the walk for a target `t` on the way to the result
/// `aim`, and a cached value is the one computed on the walk for a coarser or equal target
/// `tc` on that way.
pub open spec fn entry_on_target(
    s: Seq<OpStack>,
    lits: Seq<LiteralView>,
    p: int,
    aim: int,
    c: Cache,
    r: Precision,
    t: int,
    tc: int,
    k: int,
) -> bool {
    &&& inverse_of_expression(s, lits, p, t) == Some(aim)
    &&& r == propagated(s, s.len() - 1, t, k)->0
    &&& c matches Cache::Computed(v) ==> (inverse_of_expression(s, lits, p, tc) == Some(aim) && tc >= t
        && v.1 == propagated(s, s.len() - 1, tc, k)->0 && v@.0 == computed_value(s, lits, tc, k))
}

/// The arguments of the operator `i` are asked for, and cached at, targets no finer than the
/// operator's.
pub open spec fn arguments_follow(s: Seq<OpStack>, cache: Seq<Cache>, rt: Seq<int>, ct: Seq<int>, i: int) -> bool {
    match spec_arg_indices(s, i) {
        (Some(j1), Some(j2)) => {
            &&& rt[j1] >= rt[i]
            &&& rt[j2] >= rt[i]
            &&& cache[j1] is Computed ==> ct[j1] >= rt[i]
            &&& cache[j2] is Computed ==> ct[j2] >= rt[i]
        },
        (Some(j), None) => rt[j] >= rt[i] && (cache[j] is Computed ==> ct[j] >= rt[i]),
        _ => true,
    }
}

/// The state of `approximate` on the inverse of an expression, on the way to the result `aim`:
/// `rt` holds the target each entry is asked for, `ct` the target of each cached value.
pub open spec fn target_state(
    s: Seq<OpStack>,
    lits: Seq<LiteralView>,
    p: int,
    aim: int,
    cache: Seq<Cache>,
    required: Seq<Precision>,
    rt: Seq<int>,
    ct: Seq<int>,
) -> bool {
    let n = s.len();
    &&& cache.len() == n && required.len() == n && rt.len() == n && ct.len() == n
    &&& STOP_PRECISION <= p
    &&& required[n - 1] == p
    &&& cache[n - 1] matches Cache::Computed(v) ==> v@.0 == aim
    &&& forall|k: int|
        0 <= k < n - 1 ==> #[trigger] entry_on_target(s, lits, p, aim, cache[k], required[k], rt[k], ct[k], k)
    &&& forall|i: int| 0 <= i < n - 1 ==> #[trigger] arguments_follow(s, cache, rt, ct, i)
}

/// A cached value at a target no finer than `t` meets the precision of the walk for `t` only
/// when it was computed for `t`.
proof fn lemma_meets_same_target(s: Seq<OpStack>, t: int, tc: int, k: int)
    requires
        tc >= t,
        propagated(s, s.len() - 1, t, k) is Some,
        propagated(s, s.len() - 1, tc, k) is Some,
    ensures
        propagated(s, s.len() - 1, tc, k)->0 >= propagated(s, s.len() - 1, t, k)->0,
        propagated(s, s.len() - 1, tc, k)->0 <= propagated(s, s.len() - 1, t, k)->0 ==> tc == t,
{
    if tc > t {
        lemma_propagated_strict(s, s.len() - 1, t, tc, k);
    }
}

/// A target on the way to a result lies in range.
pub(crate) proof fn lemma_target_in_range(s: Seq<OpStack>, lits: Seq<LiteralView>, p: int, aim: int, t: int)
    requires
        inverse_of_expression(s, lits, p, t) == Some(aim),
    ensures
        STOP_PRECISION <= t,
        needs_in_range(s, t),
        argument_direct(s, lits, t),
        inverse_fits((computed_value(s, lits, t, s.len() - 2), t), p),
        inverse_spec((computed_value(s, lits, t, s.len() - 2), t), p) matches Attempt::Success(v, _) ==> v == aim,
        inverse_spec((computed_value(s, lits, t, s.len() - 2), t), p) matches Attempt::NeedMorePrecision(t2)
            ==> STOP_PRECISION <= t2 < t && inverse_of_expression(s, lits, p, t2) == Some(aim),
        !(inverse_spec((computed_value(s, lits, t, s.len() - 2), t), p) is Failed),
{
}

/// A square root or series asks for exactly the precision it needs, and when it gives a value on
/// an argument coarser than that, the value does not depend on the argument.
proof fn lemma_plain_unary(u: UnaryOp, a: (int, int), a2: (int, int), q: int)
    requires
        u != UnaryOp::Neg,
        u != UnaryOp::Inverse,
    ensures
        unary_spec(u, a, q) matches Attempt::NeedMorePrecision(np) ==> np == unary_needed(u, q),
        unary_spec(u, a, q) is Success && a.1 > unary_needed(u, q) ==> unary_spec(u, a2, q) == unary_spec(u, a, q),
{
}

/// The state at the start: nothing cached, every entry asked for the walk from the top at `p`.
proof fn lemma_target_start(
    s: Seq<OpStack>,
    lits: Seq<LiteralView>,
    p: int,
    aim: int,
    cache: Seq<Cache>,
    required: Seq<Precision>,
)
    requires
        well_formed(s, lits.len() as int),
        inverse_of_plain(s),
        inverse_of_expression(s, lits, p, p) == Some(aim),
        cache.len() == s.len(),
        required.len() == s.len(),
        forall|k: int| 0 <= k < s.len() ==> #[trigger] cache[k] == Cache::Empty,
        forall|k: int| 0 <= k < s.len() ==> #[trigger] required[k] == propagated(s, s.len() - 1, p, k)->0,
    ensures
        target_state(s, lits, p, aim, cache, required, Seq::new(s.len(), |k: int| p), Seq::new(s.len(), |k: int| p)),
{
    lemma_target_in_range(s, lits, p, aim, p);
    let rt = Seq::new(s.len(), |k: int| p);
    assert(required[s.len() - 1] == propagated(s, s.len() - 1, p, s.len() - 1)->0);
    assert forall|k: int| 0 <= k < s.len() - 1 implies #[trigger] entry_on_target(
        s,
        lits,
        p,
        aim,
        cache[k],
        required[k],
        rt[k],
        rt[k],
        k,
    ) by {
        assert(required[k] == propagated(s, s.len() - 1, p, k)->0);
    }
    assert forall|i: int| 0 <= i < s.len() - 1 implies #[trigger] arguments_follow(s, cache, rt, rt, i) by {
        lemma_arg_indices_below(s, i);
    }
}

/// Before the entry `i` is computed, its needed precision lies in range and it stops on no error.
proof fn lemma_target_entry_safe(
    s: Seq<OpStack>,
    lits: Seq<LiteralView>,
    p: int,
    aim: int,
    cache: Seq<Cache>,
    required: Seq<Precision>,
    rt: Seq<int>,
    ct: Seq<int>,
    i: int,
)
    requires
        well_formed(s, lits.len() as int),
        inverse_of_plain(s),
        target_state(s, lits, p, aim, cache, required, rt, ct),
        0 <= i < s.len(),
        forall|k: int| 0 <= k < i ==> #[trigger] cache_meets(cache[k], required[k]),
    ensures
        STOP_PRECISION <= required[i],
        entry_fits(s, cache, i, required[i] as int),
        s[i] is UnaryOp ==> (cache[i - 1] matches Cache::Computed(a) && unary_fits(
            s[i]->UnaryOp_0,
            a@,
            required[i] as int,
        )),
{
    let n = s.len();
    let nl = lits.len() as int;
    if i == n - 1 {
        let j = n - 2;
        assert(entry_on_target(s, lits, p, aim, cache[j], required[j], rt[j], ct[j], j));
        assert(cache_meets(cache[j], required[j]));
        lemma_root_target(s, nl, rt[j]);
        lemma_root_target(s, nl, ct[j]);
        lemma_target_in_range(s, lits, p, aim, ct[j]);
    } else {
        assert(is_plain_op(s[i]));
        let t = rt[i];
        assert(entry_on_target(s, lits, p, aim, cache[i], required[i], t, ct[i], i));
        lemma_target_in_range(s, lits, p, aim, t);
        assert(propagated(s, n - 1, t, i) is Some);
        if s[i] is BinaryOp {
            let q = required[i] as int;
            lemma_expression_ranges(s, nl, i);
            lemma_propagated_arguments(s, nl, n - 1, t, i, q);
            let j1 = spec_arg_indices(s, i).0->0;
            let j2 = spec_arg_indices(s, i).1->0;
            assert(arguments_follow(s, cache, rt, ct, i));
            assert(cache_meets(cache[j1], required[j1]));
            assert(cache_meets(cache[j2], required[j2]));
            assert(entry_on_target(s, lits, p, aim, cache[j1], required[j1], rt[j1], ct[j1], j1));
            assert(entry_on_target(s, lits, p, aim, cache[j2], required[j2], rt[j2], ct[j2], j2));
            lemma_target_in_range(s, lits, p, aim, ct[j1]);
            lemma_target_in_range(s, lits, p, aim, ct[j2]);
            assert(propagated(s, n - 1, ct[j1], j1) is Some);
            assert(propagated(s, n - 1, ct[j2], j2) is Some);
            lemma_meets_same_target(s, t, ct[j1], j1);
            lemma_meets_same_target(s, t, ct[j2], j2);
        } else if s[i] is UnaryOp {
            let q = required[i] as int;
            let u = s[i]->UnaryOp_0;
            let j = i - 1;
            lemma_expression_ranges(s, nl, i);
            assert(op_needed_fits(s[i], q));
            lemma_propagated_arguments(s, nl, n - 1, t, i, q);
            assert(arguments_follow(s, cache, rt, ct, i));
            assert(cache_meets(cache[j], required[j]));
            assert(entry_on_target(s, lits, p, aim, cache[j], required[j], rt[j], ct[j], j));
            lemma_target_in_range(s, lits, p, aim, ct[j]);
            assert(propagated(s, n - 1, ct[j], j) is Some);
            lemma_meets_same_target(s, t, ct[j], j);
            assert(entry_direct(s, lits, t, i));
        }
    }
}

/// A value computed for entry `i` is the one of the walk for the entry's target, and the
/// inverse at the top gives `aim`.
proof fn lemma_target_value(
    s: Seq<OpStack>,
    lits: Seq<LiteralView>,
    p: int,
    aim: int,
    cache: Seq<Cache>,
    required: Seq<Precision>,
    rt: Seq<int>,
    ct: Seq<int>,
    i: int,
    c: Cache,
)
    requires
        well_formed(s, lits.len() as int),
        inverse_of_plain(s),
        target_state(s, lits, p, aim, cache, required, rt, ct),
        0 <= i < s.len(),
        forall|k: int| 0 <= k < i ==> #[trigger] cache_meets(cache[k], required[k]),
        c matches Cache::Computed(v) && v.1 == required[i] && approximates(s, lits, i, v@) && made_from_cache(
            s,
            cache,
            i,
            required[i] as int,
            v@,
        ),
    ensures
        target_state(s, lits, p, aim, cache.update(i, c), required, rt, ct.update(i, rt[i])),
{
    let n = s.len();
    let nl = lits.len() as int;
    let v = c->Computed_0;
    let cache2 = cache.update(i, c);
    let ct2 = ct.update(i, rt[i]);
    if i == n - 1 {
        let j = n - 2;
        assert(entry_on_target(s, lits, p, aim, cache[j], required[j], rt[j], ct[j], j));
        assert(cache_meets(cache[j], required[j]));
        lemma_root_target(s, nl, rt[j]);
        lemma_root_target(s, nl, ct[j]);
        lemma_target_in_range(s, lits, p, aim, ct[j]);
        assert(v@.0 == aim);
    } else {
        assert(is_plain_op(s[i]));
        let t = rt[i];
        assert(entry_on_target(s, lits, p, aim, cache[i], required[i], t, ct[i], i));
        lemma_target_in_range(s, lits, p, aim, t);
        assert(propagated(s, n - 1, t, i) is Some);
        let q = required[i] as int;
        if s[i] is BinaryOp {
            lemma_expression_ranges(s, nl, i);
            lemma_propagated_arguments(s, nl, n - 1, t, i, q);
            let j1 = spec_arg_indices(s, i).0->0;
            let j2 = spec_arg_indices(s, i).1->0;
            assert(arguments_follow(s, cache, rt, ct, i));
            assert(cache_meets(cache[j1], required[j1]));
            assert(cache_meets(cache[j2], required[j2]));
            assert(entry_on_target(s, lits, p, aim, cache[j1], required[j1], rt[j1], ct[j1], j1));
            assert(entry_on_target(s, lits, p, aim, cache[j2], required[j2], rt[j2], ct[j2], j2));
            lemma_target_in_range(s, lits, p, aim, ct[j1]);
            lemma_target_in_range(s, lits, p, aim, ct[j2]);
            assert(propagated(s, n - 1, ct[j1], j1) is Some);
            assert(propagated(s, n - 1, ct[j2], j2) is Some);
            lemma_meets_same_target(s, t, ct[j1], j1);
            lemma_meets_same_target(s, t, ct[j2], j2);
            assert(ct[j1] == t);
            assert(ct[j2] == t);
        } else if s[i] is UnaryOp {
            let u = s[i]->UnaryOp_0;
            let j = i - 1;
            lemma_expression_ranges(s, nl, i);
            assert(op_needed_fits(s[i], q));
            lemma_propagated_arguments(s, nl, n - 1, t, i, q);
            assert(arguments_follow(s, cache, rt, ct, i));
            assert(cache_meets(cache[j], required[j]));
            assert(entry_on_target(s, lits, p, aim, cache[j], required[j], rt[j], ct[j], j));
            lemma_target_in_range(s, lits, p, aim, ct[j]);
            assert(propagated(s, n - 1, ct[j], j) is Some);
            lemma_meets_same_target(s, t, ct[j], j);
            let a = cache[j]->Computed_0;
            let at = (computed_value(s, lits, t, j), propagated(s, n - 1, t, j)->0);
            lemma_plain_unary(u, a@, at, q);
            if ct[j] == t {
                assert(a@ == at);
            }
            assert(unary_spec(u, at, q) == Attempt::Success(v@.0, v@.1));
        }
        assert(v@.0 == computed_value(s, lits, t, i));
        assert(entry_on_target(s, lits, p, aim, cache2[i], required[i], rt[i], ct2[i], i));
    }
    assert forall|k: int| 0 <= k < n - 1 implies #[trigger] entry_on_target(
        s,
        lits,
        p,
        aim,
        cache2[k],
        required[k],
        rt[k],
        ct2[k],
        k,
    ) by {
        if k != i {
            assert(entry_on_target(s, lits, p, aim, cache[k], required[k], rt[k], ct[k], k));
        }
    }
    assert forall|i2: int| 0 <= i2 < n - 1 implies #[trigger] arguments_follow(s, cache2, rt, ct2, i2) by {
        assert(arguments_follow(s, cache, rt, ct, i2));
        lemma_arg_indices_below(s, i2);
    }
}

/// When the inverse at the top asks for the precision `np`, its argument's target becomes `np`.
proof fn lemma_target_retry(
    s: Seq<OpStack>,
    lits: Seq<LiteralView>,
    p: int,
    aim: int,
    cache: Seq<Cache>,
    required: Seq<Precision>,
    rt: Seq<int>,
    ct: Seq<int>,
    np: Precision,
)
    requires
        well_formed(s, lits.len() as int),
        inverse_of_plain(s),
        target_state(s, lits, p, aim, cache, required, rt, ct),
        forall|k: int| 0 <= k < s.len() - 1 ==> #[trigger] cache_meets(cache[k], required[k]),
        cache[s.len() - 2] matches Cache::Computed(a) && unary_spec(UnaryOp::Inverse, a@, p)
            == Attempt::NeedMorePrecision(np as int),
    ensures
        target_state(
            s,
            lits,
            p,
            aim,
            cache,
            required.update(s.len() - 2, np),
            rt.update(s.len() - 2, np as int),
            ct,
        ),
{
    let n = s.len();
    let nl = lits.len() as int;
    let j = n - 2;
    assert(entry_on_target(s, lits, p, aim, cache[j], required[j], rt[j], ct[j], j));
    assert(cache_meets(cache[j], required[j]));
    lemma_root_target(s, nl, rt[j]);
    lemma_root_target(s, nl, ct[j]);
    lemma_root_target(s, nl, np as int);
    lemma_target_in_range(s, lits, p, aim, ct[j]);
    assert(ct[j] == rt[j]);
    let required2 = required.update(j, np);
    let rt2 = rt.update(j, np as int);
    assert forall|k: int| 0 <= k < n - 1 implies #[trigger] entry_on_target(
        s,
        lits,
        p,
        aim,
        cache[k],
        required2[k],
        rt2[k],
        ct[k],
        k,
    ) by {
        assert(entry_on_target(s, lits, p, aim, cache[k], required[k], rt[k], ct[k], k));
    }
    assert forall|i2: int| 0 <= i2 < n - 1 implies #[trigger] arguments_follow(s, cache, rt2, ct, i2) by {
        assert(arguments_follow(s, cache, rt, ct, i2));
        lemma_arg_indices_below(s, i2);
    }
}

/// When the operator `i` asks both its arguments for more precision, they take its target.
proof fn lemma_target_retry_both(
    s: Seq<OpStack>,
    lits: Seq<LiteralView>,
    p: int,
    aim: int,
    cache: Seq<Cache>,
    required: Seq<Precision>,
    rt: Seq<int>,
    ct: Seq<int>,
    i: int,
    j1: int,
    j2: int,
    np: Precision,
)
    requires
        well_formed(s, lits.len() as int),
        inverse_of_plain(s),
        target_state(s, lits, p, aim, cache, required, rt, ct),
        0 <= i < s.len() - 1,
        s[i] is BinaryOp,
        spec_arg_indices(s, i) == (Some(j1), Some(j2)),
        np as int == binary_needed(s[i]->BinaryOp_0, required[i] as int),
    ensures
        target_state(
            s,
            lits,
            p,
            aim,
            cache,
            required.update(j1, np).update(j2, np),
            rt.update(j1, rt[i]).update(j2, rt[i]),
            ct,
        ),
{
    let n = s.len();
    let nl = lits.len() as int;
    let t = rt[i];
    assert(entry_on_target(s, lits, p, aim, cache[i], required[i], t, ct[i], i));
    lemma_target_in_range(s, lits, p, aim, t);
    assert(propagated(s, n - 1, t, i) is Some);
    lemma_expression_ranges(s, nl, i);
    lemma_propagated_arguments(s, nl, n - 1, t, i, required[i] as int);
    assert(arguments_follow(s, cache, rt, ct, i));
    let required2 = required.update(j1, np).update(j2, np);
    let rt2 = rt.update(j1, t).update(j2, t);
    assert forall|k: int| 0 <= k < n - 1 implies #[trigger] entry_on_target(
        s,
        lits,
        p,
        aim,
        cache[k],
        required2[k],
        rt2[k],
        ct[k],
        k,
    ) by {
        assert(entry_on_target(s, lits, p, aim, cache[k], required[k], rt[k], ct[k], k));
    }
    assert forall|i2: int| 0 <= i2 < n - 1 implies #[trigger] arguments_follow(s, cache, rt2, ct, i2) by {
        assert(arguments_follow(s, cache, rt, ct, i2));
        lemma_arg_indices_below(s, i2);
        if i2 != i {
            if spec_arg_indices(s, i2).0 == Some(j1) || spec_arg_indices(s, i2).1 == Some(j1) {
                if i2 < i {
                    lemma_single_consumer(s, nl, i2, i, j1);
                } else {
                    lemma_single_consumer(s, nl, i, i2, j1);
                }
                assert(false);
            }
            if spec_arg_indices(s, i2).0 == Some(j2) || spec_arg_indices(s, i2).1 == Some(j2) {
                if i2 < i {
                    lemma_single_consumer(s, nl, i2, i, j2);
                } else {
                    lemma_single_consumer(s, nl, i, i2, j2);
                }
                assert(false);
            }
        }
    }
}

/// When a square root or series asks its argument for more precision, the argument takes its
/// target.
proof fn lemma_target_retry_one(
    s: Seq<OpStack>,
    lits: Seq<LiteralView>,
    p: int,
    aim: int,
    cache: Seq<Cache>,
    required: Seq<Precision>,
    rt: Seq<int>,
    ct: Seq<int>,
    i: int,
    np: Precision,
)
    requires
        well_formed(s, lits.len() as int),
        inverse_of_plain(s),
        target_state(s, lits, p, aim, cache, required, rt, ct),
        0 <= i < s.len() - 1,
        s[i] is UnaryOp,
        cache[i - 1] matches Cache::Computed(a) && unary_spec(s[i]->UnaryOp_0, a@, required[i] as int)
            == Attempt::NeedMorePrecision(np as int),
    ensures
        target_state(s, lits, p, aim, cache, required.update(i - 1, np), rt.update(i - 1, rt[i]), ct),
{
    let n = s.len();
    let nl = lits.len() as int;
    let t = rt[i];
    let j = i - 1;
    let q = required[i] as int;
    assert(is_plain_op(s[i]));
    assert(entry_on_target(s, lits, p, aim, cache[i], required[i], t, ct[i], i));
    lemma_target_in_range(s, lits, p, aim, t);
    assert(propagated(s, n - 1, t, i) is Some);
    lemma_expression_ranges(s, nl, i);
    assert(op_needed_fits(s[i], q));
    lemma_propagated_arguments(s, nl, n - 1, t, i, q);
    lemma_plain_unary(s[i]->UnaryOp_0, cache[j]->Computed_0@, cache[j]->Computed_0@, q);
    assert(arguments_follow(s, cache, rt, ct, i));
    let required2 = required.update(j, np);
    let rt2 = rt.update(j, t);
    assert forall|k: int| 0 <= k < n - 1 implies #[trigger] entry_on_target(
        s,
        lits,
        p,
        aim,
        cache[k],
        required2[k],
        rt2[k],
        ct[k],
        k,
    ) by {
        assert(entry_on_target(s, lits, p, aim, cache[k], required[k], rt[k], ct[k], k));
    }
    assert forall|i2: int| 0 <= i2 < n - 1 implies #[trigger] arguments_follow(s, cache, rt2, ct, i2) by {
        assert(arguments_follow(s, cache, rt, ct, i2));
        lemma_arg_indices_below(s, i2);
        if i2 != i {
            if spec_arg_indices(s, i2).0 == Some(j) || spec_arg_indices(s, i2).1 == Some(j) {
                if i2 < i {
                    lemma_single_consumer(s, nl, i2, i, j);
                } else {
                    lemma_single_consumer(s, nl, i, i2, j);
                }
                assert(false);
            }
        }
    }
}

impl StackComputable {
    /// Computes the entry `i` at precision `needed` from the values cached for its arguments.
    fn approximate_entry(
        &self,
        cache: &Vec<Cache>,
        i: usize,
        needed: Precision,
        literal_index: usize,
    ) -> (r: EntryStep)
        requires
            i < self@.0.len(),
            cache@.len() == self@.0.len(),
            STOP_PRECISION <= needed,
            literal_index == literal_count(self@.0, i as int),
            forall|k: int| 0 <= k < cache@.len() ==> #[trigger] cache_sound(cache@[k], self@.0, self@.1, k),
            forall|k: int| 0 <= k < i ==> #[trigger] cache@[k] is Computed,
            well_formed(self@.0, self@.1.len() as int),
        ensures
            self@.0[i as int] is Literal || self@.0[i as int] is One ==> r is Value,
            is_exact_op(self@.0[i as int]) && arguments_ready(self@.0, cache@, i as int, needed as int)
                && entry_fits(self@.0, cache@, i as int, needed as int) ==> r is Value,
            unary_success(self@.0, cache@, i as int, needed as int) && entry_fits(self@.0, cache@, i as int, needed as int)
                ==> r is Value,
            !(r matches EntryStep::Stop(ApproximationError::PrecisionTooLow(_))),
            r matches EntryStep::Stop(ApproximationError::ArgumentOutOfRange) ==> (self@.0[i as int] matches OpStack::UnaryOp(u)
                && cache@[i - 1] matches Cache::Computed(a) && !unary_fits(u, a@, needed as int)),
            r matches EntryStep::Stop(ApproximationError::PrecisionOutOfRange(q)) ==> q == needed && !entry_fits(
                self@.0,
                cache@,
                i as int,
                needed as int,
            ),
            r matches EntryStep::Value(v) ==> approximates(self@.0, self@.1, i as int, v@) && v.1 == needed,
            r matches EntryStep::Value(v) ==> made_from_cache(self@.0, cache@, i as int, needed as int, v@),
            r is Value && self@.0[i as int] is UnaryOp ==> (cache@[i - 1] matches Cache::Computed(a) && unary_fits(
                self@.0[i as int]->UnaryOp_0,
                a@,
                needed as int,
            )),
            r matches EntryStep::Retry(j, np) ==> (self@.0[i as int] is UnaryOp ==> (j == i - 1 && (cache@[i - 1] matches Cache::Computed(a)
                && unary_fits(self@.0[i as int]->UnaryOp_0, a@, needed as int)
                && unary_spec(self@.0[i as int]->UnaryOp_0, a@, needed as int) == Attempt::NeedMorePrecision(np as int)))),
            r matches EntryStep::Retry(j, np) ==> j < i && (cache@[j as int] matches Cache::Computed(c) && np < c.1),
            r is Retry ==> self@.0[i as int] is UnaryOp,
            r matches EntryStep::RetryBoth(j1, j2, np) ==> (self@.0[i as int] matches OpStack::BinaryOp(b)
                && spec_arg_indices(self@.0, i as int) == (Some(j1 as int), Some(j2 as int))
                && np as int == binary_needed(b, needed as int)),
            r matches EntryStep::RetryBoth(j1, j2, np) ==> j1 < j2 < i
                && (cache@[j1 as int] matches Cache::Computed(c1) && cache@[j2 as int] matches Cache::Computed(c2)
                && (np < c1.1 || np < c2.1)),
    {
        proof {
            lemma_literal_count_le(self@.0, i as int);
            lemma_well_formed_arguments(self@.0, self@.1.len() as int, i as int);
        }
        let ghost s = self@.0;
        let ghost lits = self@.1;
        match self.stack[i] {
            OpStack::Literal => {
                let literal = &self.literals[literal_index];
                let approx = literal.into_prescaled_value(needed);
                proof {
                    assert(lits[literal_index as int] == self.literals@[literal_index as int]@);
                    assert(approximates(s, lits, i as int, approx@));
                }
                EntryStep::Value(approx)
            },
            OpStack::One => {
                let approx = PrescaledValue(scale(big_from_i64(1), -needed), needed);
                proof {
                    assert(approximates(s, lits, i as int, approx@));
                }
                EntryStep::Value(approx)
            },
            OpStack::Pi => {
                // A well-formed stack holds no `Pi`.
                vstd::pervasive::unreached()
            },
            OpStack::UnaryOp(unary) => {
                let args = self.operator_argument_indices(i);
                proof {
                    lemma_arg_indices_below(s, i as int);
                }
                if let (Some(arg_index), None) = args {
                    match &cache[arg_index] {
                        Cache::Computed(arg) => {
                            // We have a pre-computed argument.
                            proof {
                                assert(cache_sound(cache@[arg_index as int], s, lits, arg_index as int));
                            }
                            if unary == UnaryOp::Sqrt && !sqrt_arg_fits(arg, needed) {
                                return EntryStep::Stop(ApproximationError::PrecisionOutOfRange(needed));
                            }
                            if unary == UnaryOp::Inverse && !inverse_arg_fits(arg, needed) {
                                return EntryStep::Stop(ApproximationError::ArgumentOutOfRange);
                            }
                            if !unary.argument_in_domain(arg, needed) {
                                return EntryStep::Stop(ApproximationError::ArgumentOutOfRange);
                            }
                            proof {
                                lemma_no_failure_in_domain(unary, arg@, needed as int);
                            }
                            let approx = unary.approximate_unary_op(arg, needed);
                            match approx {
                                AttemptedComputation::Success(x, xp) => {
                                    proof {
                                        assert(approximates(s, lits, arg_index as int, arg@));
                                        assert(unary_spec(unary, arg@, needed as int) == Attempt::Success(int_value(x), xp as int));
                                        assert(xp == needed);
                                        assert(approximates(s, lits, i as int, (int_value(x), xp as int)));
                                    }
                                    EntryStep::Value(PrescaledValue(x, xp))
                                },
                                AttemptedComputation::NeedMorePrecision(new_precision) => {
                                    proof {
                                        lemma_requests_are_finer(unary, arg@, needed as int);
                                    }
                                    // We need more precision from our argument.
                                    EntryStep::Retry(arg_index, new_precision)
                                },
                                AttemptedComputation::Failed => {
                                    // An operator on arguments in its domain never fails.
                                    vstd::pervasive::unreached()
                                },
                            }
                        },
                        Cache::Empty => {
                            vstd::pervasive::unreached()
                        },
                    }
                } else {
                    vstd::pervasive::unreached()
                }
            },
            OpStack::BinaryOp(binary) => {
                let args = self.operator_argument_indices(i);
                proof {
                    lemma_arg_indices_below(s, i as int);
                }
                if let (Some(arg1_index), Some(arg2_index)) = args {
                    match (&cache[arg1_index], &cache[arg2_index]) {
                        (Cache::Computed(arg1), Cache::Computed(arg2)) => {
                            // We have pre-computed arguments.
                            proof {
                                assert(cache_sound(cache@[arg1_index as int], s, lits, arg1_index as int));
                                assert(cache_sound(cache@[arg2_index as int], s, lits, arg2_index as int));
                            }
                            if !binary_args_fit(binary, arg1, arg2, needed) {
                                return EntryStep::Stop(ApproximationError::PrecisionOutOfRange(needed));
                            }
                            let approx = binary.approximate_binary_op(arg1, arg2, needed);
                            proof {
                                lemma_binary_never_fails(binary, arg1@, arg2@, needed as int);
                            }
                            match approx {
                                AttemptedComputation::Success(x, xp) => {
                                    proof {
                                        assert(approximates(s, lits, arg1_index as int, arg1@));
                                        assert(approximates(s, lits, arg2_index as int, arg2@));
                                        assert(binary_spec(binary, arg1@, arg2@, needed as int) == Attempt::Success(int_value(x), xp as int));
                                        assert(xp == needed);
                                        assert(approximates(s, lits, i as int, (int_value(x), xp as int)));
                                    }
                                    EntryStep::Value(PrescaledValue(x, xp))
                                },
                                AttemptedComputation::NeedMorePrecision(new_precision) => {
                                    // We need more precision from both arguments.
                                    EntryStep::RetryBoth(arg1_index, arg2_index, new_precision)
                                },
                                AttemptedComputation::Failed => {
                                    // An operator on arguments in its domain never fails.
                                    vstd::pervasive::unreached()
                                },
                            }
                        },
                        _ => {
                            vstd::pervasive::unreached()
                        },
                    }
                } else {
                    vstd::pervasive::unreached()
                }
            },
        }
    }

    /// Approximate this `StackComputable` to a `BigInt` with the given precision.
    /// The approximation is scaled. Put the radix point at `p` places to the _right_ of the least significant bit,
    /// to get the "correct" approximation. For example `1/4` with `p = -2` would be `1b`, which should be interpreted as `.01b`,
    /// similarly, `1/4` with `p = -3` would be `10b`, which should be interpreted as `.010b`.
    ///
    /// Every result is a value that the computation can produce for the stack, and the
    /// computation always ends. A precision below `STOP_PRECISION` asked of the first entry is
    /// reported as an error (`PrecisionTooLow`, where a computation could otherwise only stop by
    /// panicking). When the needed precisions all lie in range and every operator is
    /// exact, or a square root or series over a rational expression in its domain, or every
    /// operator computes in one pass, the result is the value computed at those precisions; for
    /// literals, one, negations, sums and small products it is within one unit of the exact
    /// value, and so is a final square root. For the inverse of a literal, the result is what
    /// `inverse_of_literal` says. For the inverse of an expression of literals, one, sums,
    /// products, square roots and series, whenever `inverse_of_expression` gives a value (the
    /// precisions that the inverse asks for, one after the other, all lie in range and the
    /// expression computes at each of them), the result is that value. How close these inverses
    /// come to the inverse of the exact value is stated in `inverse_accuracy`.
    #[verifier::rlimit(100)]
    pub fn approximate(&self, p: Precision) -> (r: Result<BigInt, ApproximationError>)
        ensures
            r matches Ok(x) ==> approximates(self@.0, self@.1, self@.0.len() - 1, (int_value(x), p as int)),
            initial_required(self@.0, p, 0) < STOP_PRECISION ==> r == Err::<BigInt, ApproximationError>(
                ApproximationError::PrecisionTooLow(initial_required(self@.0, p, 0) as Precision),
            ),
            p < STOP_PRECISION ==> (r matches Err(ApproximationError::PrecisionTooLow(q)) && q <= p),
            r matches Err(ApproximationError::PrecisionTooLow(q)) ==> q < STOP_PRECISION,
            r matches Err(ApproximationError::PrecisionOutOfRange(q)) ==> STOP_PRECISION <= q,
            exact_stack(self@.0) && needs_in_range(self@.0, p as int) ==> r is Ok,
            needs_in_range(self@.0, p as int) && products_small(self@.0, self@.1, p as int) && domains_ok(
                self@.0,
                self@.1,
            ) ==> r is Ok,
            self@.0[self@.0.len() - 1] == OpStack::UnaryOp(UnaryOp::Sqrt) && needs_in_range(self@.0, p as int)
                && products_small(self@.0, self@.1, p as int) && domains_ok(self@.0, self@.1) ==> (r matches Ok(x)
                && sqrt_within_one_unit(int_value(x), p as int, exact_value(self@.0, self@.1, self@.0.len() - 2))),
            needs_in_range(self@.0, p as int) && (exact_stack(self@.0) || (products_small(self@.0, self@.1, p as int)
                && domains_ok(self@.0, self@.1)) || computes_directly(self@.0, self@.1, p as int)) ==> (r matches Ok(x)
                && int_value(x) == computed_value(
                self@.0,
                self@.1,
                p as int,
                self@.0.len() - 1,
            )),
            self@.0 == seq![OpStack::Literal, OpStack::UnaryOp(UnaryOp::Inverse)] ==> result_view(r)
                == inverse_of_literal(self@.1[0], p as int, p as int),
            inverse_of_plain(self@.0) && inverse_of_expression(self@.0, self@.1, p as int, p as int) is Some
                ==> (r matches Ok(x) && Some(int_value(x)) == inverse_of_expression(self@.0, self@.1, p as int, p as int)),
            rational_stack(self@.0) && needs_in_range(self@.0, p as int) && products_small(self@.0, self@.1, p as int)
                ==> (r matches Ok(x) && within_one_unit(
                int_value(x),
                p as int,
                exact_value(self@.0, self@.1, self@.0.len() - 1),
            )),
    {
        proof {
            use_type_invariant(self);
            assert(self@.1.len() == self.literals@.len());
        }
        let len = self.stack.len();
        let ghost s = self@.0;
        let ghost lits = self@.1;
        let mut cache: Vec<Cache> = Vec::new();
        while cache.len() < len
            invariant
                cache@.len() <= len,
                forall|k: int| 0 <= k < cache@.len() ==> #[trigger] cache@[k] == Cache::Empty,
            decreases len - cache@.len(),
        {
            cache.push(Cache::Empty);
        }
        let mut required_precisions = vec![p; len];
        proof {
            assert(required_precisions@ == Seq::new(len as nat, |j: int| p));
        }
        update_required_precisions(self, len - 1, p, &mut required_precisions);
        let ghost q0 = required_precisions@[0];
        let ghost good = needs_in_range(s, p as int) && (exact_stack(s) || (products_small(s, lits, p as int)
            && domains_ok(s, lits)) || computes_directly(s, lits, p as int));
        let ghost acc = needs_in_range(s, p as int) && products_small(s, lits, p as int) && (exact_stack(s)
            || domains_ok(s, lits));
        let ghost mut first = true;
        let ghost inv_lit = s == seq![OpStack::Literal, OpStack::UnaryOp(UnaryOp::Inverse)];
        let ghost target = inverse_of_literal(lits[0], p as int, p as int);
        let ghost ie = inverse_of_plain(s) && inverse_of_expression(s, lits, p as int, p as int) is Some;
        let ghost aim = inverse_of_expression(s, lits, p as int, p as int)->Some_0;
        let ghost mut rt: Seq<int> = Seq::new(len as nat, |k: int| p as int);
        let ghost mut ct: Seq<int> = Seq::new(len as nat, |k: int| p as int);
        proof {
            if ie {
                lemma_target_in_range(s, lits, p as int, aim, p as int);
                assert forall|k: int| 0 <= k < len implies #[trigger] required_precisions@[k] == propagated(
                    s,
                    len - 1,
                    p as int,
                    k,
                )->0 by {
                    assert(propagated(s, len - 1, p as int, k) is Some);
                }
                lemma_target_start(s, lits, p as int, aim, cache@, required_precisions@);
            }
            assert(q0 == initial_required(s, p, 0));
            if p <= 0 && propagated(s, len - 1, p as int, 0) is Some {
                lemma_propagated_not_above(s, len - 1, p as int, 0);
            }
            if inv_lit {
                assert(propagated(s, 0, p as int, 0) == Some(p as int));
                assert(required_precisions@[0] == p);
            }
            if good {
                assert forall|k: int| 0 <= k < len implies #[trigger] required_precisions@[k] == propagated(s, len - 1, p as int, k)->0 by {
                    assert(propagated(s, len - 1, p as int, k) is Some);
                }
            }
        }

        // Our required precisions are now calculated, though they may not be sufficient, since some operations don't know what precision they
        // require until they see the actual numbers involved.
        //
        // We start computing left-to-right. If we encounter a situation where we need more precision, we bump the precision and start over.
        let mut literal_index = 0_usize;
        let mut next_i = 0_usize;
        proof {
            lemma_budget_nonneg(cache@, required_precisions@, len as int);
        }
        while next_i < len
            invariant
                len == self@.0.len(),
                len >= 1,
                well_formed(self@.0, self@.1.len() as int),
                s == self@.0,
                lits == self@.1,
                cache@.len() == len,
                required_precisions@.len() == len,
                next_i <= len,
                literal_index == literal_count(s, next_i as int),
                required_precisions@[len - 1] == p,
                forall|k: int| 0 <= k < len ==> #[trigger] cache_sound(cache@[k], s, lits, k),
                forall|k: int| 0 <= k < next_i ==> #[trigger] cache_meets(cache@[k], required_precisions@[k]),
                cache@[len - 1] matches Cache::Computed(v) ==> v.1 == p,
                budget(cache@, required_precisions@, len as int) >= 0,
                q0 == initial_required(s, p, 0),
                p <= 0 ==> q0 <= p,
                first ==> next_i == 0 && required_precisions@[0] == q0,
                !first ==> STOP_PRECISION <= q0,
                good ==> forall|k: int| 0 <= k < len ==> #[trigger] required_precisions@[k] == propagated(s, len - 1, p as int, k)->0,
                good ==> forall|k: int| 0 <= k < len ==> (#[trigger] cache@[k] matches Cache::Computed(v) ==> v.1 == required_precisions@[k]),
                good ==> forall|k: int| 0 <= k < len ==> (#[trigger] cache@[k] matches Cache::Computed(v) ==> v@.0 == computed_value(s, lits, p as int, k)),
                good == (needs_in_range(s, p as int) && (exact_stack(s) || (products_small(s, lits, p as int)
                    && domains_ok(s, lits)) || computes_directly(s, lits, p as int))),
                acc == (needs_in_range(s, p as int) && products_small(s, lits, p as int) && (exact_stack(s)
                    || domains_ok(s, lits))),
                denominators_positive(lits),
                inv_lit == (s == seq![OpStack::Literal, OpStack::UnaryOp(UnaryOp::Inverse)]),
                target == inverse_of_literal(lits[0], p as int, p as int),
                inv_lit ==> inverse_of_literal(lits[0], p as int, required_precisions@[0] as int) == target,
                inv_lit ==> required_precisions@[0] <= p,
                inv_lit ==> (cache@[0] matches Cache::Computed(v) ==> v@.0 == literal_approx(lits[0], v.1 as int)
                    && v.1 >= required_precisions@[0]),
                inv_lit ==> (cache@[1] matches Cache::Computed(v) ==> target == Ok::<int, ApproximationError>(v@.0)),
                ie == (inverse_of_plain(s) && inverse_of_expression(s, lits, p as int, p as int) is Some),
                aim == inverse_of_expression(s, lits, p as int, p as int)->Some_0,
                ie ==> target_state(s, lits, p as int, aim, cache@, required_precisions@, rt, ct),
                acc ==> forall|k: int| 0 <= k < len && rational_expr(s, k) ==> #[trigger] cache_accurate(cache@[k], s, lits, k),
            decreases budget(cache@, required_precisions@, len as int), len - next_i,
        {
            // Sometimes we will need to jump backwards in the stack and recompute things with higher precision.
            // When we do, we do so by setting `next_i` and continuing.
            let i = next_i;
            next_i += 1;

            let needed_precision = required_precisions[i];
            proof {
                if ie {
                    lemma_target_entry_safe(s, lits, p as int, aim, cache@, required_precisions@, rt, ct, i as int);
                }
            }
            if needed_precision < STOP_PRECISION {
                return Err(ApproximationError::PrecisionTooLow(needed_precision));
            }
            proof {
                first = false;
            }
            proof {
                lemma_literal_count_le(s, i as int);
                assert(literal_count(s, next_i as int) == literal_count(s, i as int) + (if s[i as int] is Literal { 1nat } else { 0nat }));
            }

            // If we have already computed this value with sufficient precision, do nothing.
            let already = match &cache[i] {
                Cache::Computed(cached) => cached.meets_precision(needed_precision),
                Cache::Empty => false,
            };
            if already {
                match self.stack[i] {
                    OpStack::Literal => {
                        literal_index += 1;
                    },
                    _ => {},
                }
                continue;
            }
            // If we made it here, this value has not been computed, or has not been computed with sufficient precision.
            let ghost old_cache = cache@;
            let ghost old_required = required_precisions@;
            proof {
                assert forall|k: int| 0 <= k < i implies #[trigger] cache@[k] is Computed by {
                    assert(cache_meets(cache@[k], required_precisions@[k]));
                }
            }
            proof {
                if good {
                    lemma_entry_ready(s, lits, cache@, required_precisions@, p as int, i as int, needed_precision as int);
                }
            }
            let step = self.approximate_entry(&cache, i, needed_precision, literal_index);
            match step {
                EntryStep::Value(approx) => {
                    cache.set(i, Cache::Computed(approx));
                    if self.stack[i] == OpStack::Literal {
                        literal_index += 1;
                    }
                    proof {
                        if ie {
                            lemma_target_value(s, lits, p as int, aim, old_cache, old_required, rt, ct, i as int, Cache::Computed(approx));
                            ct = ct.update(i as int, rt[i as int]);
                        }
                        lemma_budget_update(old_cache, old_required, cache@, required_precisions@, len as int, i as int);
                        assert forall|k: int| 0 <= k < next_i implies #[trigger] cache_meets(cache@[k], required_precisions@[k]) by {
                            if k < i {
                                assert(cache_meets(old_cache[k], old_required[k]));
                            }
                        }
                        assert forall|k: int| 0 <= k < len implies #[trigger] cache_sound(cache@[k], s, lits, k) by {
                            if k != i {
                                assert(cache_sound(old_cache[k], s, lits, k));
                            }
                        }
                        if inv_lit {
                            assert(literal_count(s, 0) == 0);
                            if i == 1 {
                                let a = old_cache[0]->Computed_0;
                                assert(cache_meets(old_cache[0], old_required[0]));
                                lemma_inverse_of_literal_step(lits[0], p as int, a@, a.1 as int);
                            }
                        }
                        if good {
                            lemma_well_formed_arguments(s, lits.len() as int, i as int);
                            lemma_arg_indices_below(s, i as int);
                            assert(old_cache[i as int] matches Cache::Computed(c) ==> c.1 == old_required[i as int]);
                            assert(approx@.1 == propagated(s, len - 1, p as int, i as int)->0);
                            if s[i as int] is UnaryOp {
                                let j = i - 1;
                                assert(old_cache[j] matches Cache::Computed(c) ==> c.1 == old_required[j] && c@.0 == computed_value(s, lits, p as int, j));
                            } else if s[i as int] is BinaryOp {
                                let (j1, j2) = (spec_arg_indices(s, i as int).0->0, spec_arg_indices(s, i as int).1->0);
                                assert(old_cache[j1] matches Cache::Computed(c) ==> c.1 == old_required[j1] && c@.0 == computed_value(s, lits, p as int, j1));
                                assert(old_cache[j2] matches Cache::Computed(c) ==> c.1 == old_required[j2] && c@.0 == computed_value(s, lits, p as int, j2));
                            }
                            assert(approx@.0 == computed_value(s, lits, p as int, i as int));
                            assert forall|k: int| 0 <= k < len implies (#[trigger] cache@[k] matches Cache::Computed(v) ==> v@.0 == computed_value(s, lits, p as int, k)) by {
                                if k != i {
                                    assert(old_cache[k] matches Cache::Computed(v) ==> v@.0 == computed_value(s, lits, p as int, k));
                                }
                            }
                        }
                        if acc {
                            assert forall|k: int| 0 <= k < i implies (#[trigger] old_cache[k] matches Cache::Computed(c) ==> c.1 == propagated(s, len - 1, p as int, k)->0) by {
                                assert(old_cache[k] matches Cache::Computed(c) ==> c.1 == old_required[k]);
                            }
                            if rational_expr(s, i as int) {
                                lemma_entry_accurate(s, lits, old_cache, i as int, p as int, approx@);
                            }
                            assert forall|k: int| 0 <= k < len && rational_expr(s, k) implies #[trigger] cache_accurate(cache@[k], s, lits, k) by {
                                if k != i {
                                    assert(cache_accurate(old_cache[k], s, lits, k));
                                }
                            }
                        }
                    }
                },
                EntryStep::Retry(arg_index, new_precision) => {
                    // We need more precision from our argument.
                    required_precisions.set(arg_index, new_precision);
                    proof {
                        if ie {
                            if i == len - 1 {
                                lemma_target_retry(s, lits, p as int, aim, old_cache, old_required, rt, ct, new_precision);
                                rt = rt.update(len - 2, new_precision as int);
                            } else {
                                lemma_target_retry_one(s, lits, p as int, aim, old_cache, old_required, rt, ct, i as int, new_precision);
                                rt = rt.update(i - 1, rt[i as int]);
                            }
                        }
                        if inv_lit {
                            let a = old_cache[0]->Computed_0;
                            assert(cache_meets(old_cache[0], old_required[0]));
                            lemma_inverse_of_literal_step(lits[0], p as int, a@, a.1 as int);
                        }
                        assert(cache_meets(old_cache[arg_index as int], old_required[arg_index as int]));
                        assert(cache_sound(old_cache[arg_index as int], s, lits, arg_index as int));
                        lemma_entry_budget_lowered(old_cache[arg_index as int], old_required[arg_index as int], new_precision);
                        lemma_budget_update(old_cache, old_required, cache@, required_precisions@, len as int, arg_index as int);
                        lemma_budget_nonneg(cache@, required_precisions@, len as int);
                    }
                    // Jump back to the beginning to recompute
                    // Since we have to keep track of the `literal_index`, it is easiest to jump back to the beginning
                    // rather than to just the previous argument. Since the values are cached, this shouldn't waste too much time.
                    next_i = 0;
                    literal_index = 0;
                },
                EntryStep::RetryBoth(arg1_index, arg2_index, new_precision) => {
                    // We need more precision from both arguments.
                    required_precisions.set(arg1_index, new_precision);
                    let ghost mid_required = required_precisions@;
                    required_precisions.set(arg2_index, new_precision);
                    proof {
                        if ie {
                            lemma_target_retry_both(
                                s,
                                lits,
                                p as int,
                                aim,
                                old_cache,
                                old_required,
                                rt,
                                ct,
                                i as int,
                                arg1_index as int,
                                arg2_index as int,
                                new_precision,
                            );
                            rt = rt.update(arg1_index as int, rt[i as int]).update(arg2_index as int, rt[i as int]);
                        }
                        assert(cache_meets(old_cache[arg1_index as int], old_required[arg1_index as int]));
                        assert(cache_sound(old_cache[arg1_index as int], s, lits, arg1_index as int));
                        assert(cache_meets(old_cache[arg2_index as int], old_required[arg2_index as int]));
                        assert(cache_sound(old_cache[arg2_index as int], s, lits, arg2_index as int));
                        lemma_entry_budget_lowered(old_cache[arg1_index as int], old_required[arg1_index as int], new_precision);
                        lemma_entry_budget_lowered(old_cache[arg2_index as int], old_required[arg2_index as int], new_precision);
                        lemma_budget_update(old_cache, old_required, cache@, mid_required, len as int, arg1_index as int);
                        lemma_budget_update(cache@, mid_required, cache@, required_precisions@, len as int, arg2_index as int);
                        lemma_budget_nonneg(cache@, required_precisions@, len as int);
                    }
                    // Jump back to the beginning
                    next_i = 0;
                    literal_index = 0;
                },
                EntryStep::Stop(e) => {
                    proof {
                        if inv_lit && i == 1 {
                            let a = old_cache[0]->Computed_0;
                            assert(cache_meets(old_cache[0], old_required[0]));
                            lemma_inverse_of_literal_step(lits[0], p as int, a@, a.1 as int);
                        }
                    }
                    return Err(e);
                },
            }
        }

        // The last value in the Cache should be the result of the computation.
        proof {
            assert(cache_sound(cache@[len - 1], s, lits, len - 1));
            assert(cache_meets(cache@[len - 1], required_precisions@[len - 1]));
        }
        match &cache[len - 1] {
            Cache::Computed(result) => {
                // In theory the result should have the correct precision.
                proof {
                    if rational_stack(s) && needs_in_range(s, p as int) && products_small(s, lits, p as int) {
                        let m0: nat = (if p < 0 { -p } else { 0 }) as nat;
                        assert forall|k: int| 0 <= k < len implies is_exact_op(#[trigger] s[k]) by {
                            assert(is_rational_op(s[k]));
                        }
                        assert(acc);
                        lemma_start_exists(s, lits.len() as int, len - 1);
                        assert(rational_expr(s, len - 1));
                        assert(cache_accurate(cache@[len - 1], s, lits, len - 1));
                        lemma_exact_value_denominator(s, lits, len - 1);
                        lemma_within_any_scale(int_value(result.0), p as int, exact_value(s, lits, len - 1), m0, (accuracy_scale() - m0) as nat);
                    }
                }
                proof {
                    if s[len - 1] == OpStack::UnaryOp(UnaryOp::Sqrt) && needs_in_range(s, p as int)
                        && products_small(s, lits, p as int) && domains_ok(s, lits) {
                        let j = len - 2;
                        let x = exact_value(s, lits, j);
                        assert(domain_ok(s, lits, len - 1));
                        lemma_well_formed_arguments(s, lits.len() as int, len - 1);
                        assert(propagated(s, len - 1, p as int, len - 1) == Some(p as int));
                        lemma_propagated_arguments(s, lits.len() as int, len - 1, p as int, len - 1, p as int);
                        assert(cache_meets(cache@[j], required_precisions@[j]));
                        assert(cache_accurate(cache@[j], s, lits, j));
                        let c = cache@[j]->Computed_0;
                        let cv = computed_value(s, lits, p as int, j);
                        assert(c@.0 == cv && c.1 == 2 * p - 2);
                        lemma_exact_value_denominator(s, lits, j);
                        lemma_nonnegative_from_within(cv, 2 * p - 2, x, accuracy_scale());
                        lemma_isqrt_exists(cv as nat);
                        assert(is_isqrt(cv, isqrt(cv)));
                        lemma_scale_zero(cv);
                        assert(spec_rescaled((cv, 2 * p - 2), p * 2 - 2) == cv);
                        assert(int_value(result.0) == spec_scale(isqrt(cv), -1));
                        lemma_sqrt_within(cv, isqrt(cv), p as int, x, accuracy_scale());
                        let m0: nat = (if p < 0 { -2 * p } else { 0 }) as nat;
                        lemma_sqrt_within_any_scale(int_value(result.0), p as int, x, m0, (accuracy_scale() - m0) as nat);
                    }
                }
                Ok(result.0.clone())
            },
            Cache::Empty => {
                vstd::pervasive::unreached()
            },
        }
    }
}

} // verus!
