//! The structure of an operator stack in reverse Polish notation: how many values each
//! entry consumes, where the arguments of an operator start, and when a stack holds
//! exactly one well-formed expression.
use vstd::prelude::*;
use crate::stack_computable::OpStack;

verus! {

/// The number of arguments an entry of the stack takes.
pub open spec fn num_args(op: OpStack) -> int {
    match op {
        OpStack::Literal | OpStack::Pi | OpStack::One => 0,
        OpStack::UnaryOp(_) => 1,
        OpStack::BinaryOp(_) => 2,
    }
}

/// The number of values that the entries `lo..hi` consume, less the number they produce:
/// `-1` for a complete expression.
pub open spec fn arity_sum(s: Seq<OpStack>, lo: int, hi: int) -> int
    decreases hi - lo,
{
    if lo >= hi {
        0
    } else {
        num_args(s[lo]) - 1 + arity_sum(s, lo + 1, hi)
    }
}

/// `j` is the root of the first argument of the binary operator at `i`: the entries
/// `j + 1 .. i` form the nearest complete expression that ends just below `i`.
pub open spec fn is_split(s: Seq<OpStack>, i: int, j: int) -> bool {
    &&& 0 <= j <= i - 2
    &&& arity_sum(s, j + 1, i) == -1
    &&& forall|m: int| j < m <= i - 2 ==> #[trigger] arity_sum(s, m + 1, i) != -1
}

/// The indices of the arguments of the entry at `i`, as `operator_argument_indices` reports them.
pub open spec fn spec_arg_indices(s: Seq<OpStack>, i: int) -> (Option<int>, Option<int>) {
    match s[i] {
        OpStack::Literal | OpStack::Pi | OpStack::One => (None, None),
        OpStack::UnaryOp(_) => if i == 0 {
            (None, None)
        } else {
            (Some(i - 1), None)
        },
        OpStack::BinaryOp(_) => if i == 0 {
            (None, None)
        } else if i == 1 {
            (Some(0), None)
        } else if exists|j: int| is_split(s, i, j) {
            (Some(choose|j: int| is_split(s, i, j)), Some(i - 1))
        } else {
            (Some(i - 1), None)
        },
    }
}

/// The number of `Literal` entries among the first `i` entries of the stack.
pub open spec fn literal_count(s: Seq<OpStack>, i: int) -> nat
    decreases i,
{
    if i <= 0 {
        0
    } else {
        literal_count(s, i - 1) + (if s[i - 1] is Literal { 1nat } else { 0nat })
    }
}

pub proof fn lemma_literal_count_le(s: Seq<OpStack>, i: int)
    ensures
        literal_count(s, i) <= if i < 0 { 0 } else { i },
    decreases i,
{
    if i > 0 {
        lemma_literal_count_le(s, i - 1);
    }
}

/// Entry `k` is an implemented operator, and the values computed before it are enough for its arguments.
pub open spec fn entry_ok(s: Seq<OpStack>, k: int) -> bool {
    &&& !(s[k] is Pi)
    &&& -arity_sum(s, 0, k) >= num_args(s[k])
}

/// The stack holds exactly one expression, over `n` literals.
pub open spec fn well_formed(s: Seq<OpStack>, n: int) -> bool {
    &&& s.len() >= 1
    &&& forall|k: int| 0 <= k < s.len() ==> #[trigger] entry_ok(s, k)
    &&& arity_sum(s, 0, s.len() as int) == -1
    &&& literal_count(s, s.len() as int) == n
}

/// `arity_sum` adds up over adjacent ranges.
pub proof fn lemma_arity_split(s: Seq<OpStack>, lo: int, m: int, hi: int)
    requires
        lo <= m <= hi,
    ensures
        arity_sum(s, lo, hi) == arity_sum(s, lo, m) + arity_sum(s, m, hi),
    decreases m - lo,
{
    if lo < m {
        lemma_arity_split(s, lo + 1, m, hi);
    }
}

/// `arity_sum` over a range reads only the entries in it: here those of `t`, found `off` places further in `s`.
pub proof fn lemma_arity_shift(s: Seq<OpStack>, t: Seq<OpStack>, off: int, lo: int, hi: int)
    requires
        forall|k: int| lo <= k < hi ==> s[k + off] == t[k],
    ensures
        arity_sum(s, lo + off, hi + off) == arity_sum(t, lo, hi),
    decreases hi - lo,
{
    if lo < hi {
        lemma_arity_shift(s, t, off, lo + 1, hi);
    }
}

/// `literal_count` reads only the entries before its index: here those of `t`.
pub proof fn lemma_literal_count_prefix(s: Seq<OpStack>, t: Seq<OpStack>, i: int)
    requires
        forall|k: int| 0 <= k < i ==> s[k] == t[k],
    ensures
        literal_count(s, i) == literal_count(t, i),
    decreases i,
{
    if i > 0 {
        lemma_literal_count_prefix(s, t, i - 1);
    }
}

/// Past a prefix of `off` entries, `literal_count` counts the entries of `t` found there.
pub proof fn lemma_literal_count_shift(s: Seq<OpStack>, t: Seq<OpStack>, off: int, i: int)
    requires
        0 <= off,
        0 <= i,
        forall|k: int| 0 <= k < i ==> s[k + off] == t[k],
    ensures
        literal_count(s, off + i) == literal_count(s, off) + literal_count(t, i),
    decreases i,
{
    if i > 0 {
        lemma_literal_count_shift(s, t, off, i - 1);
    }
}

/// After any entry of a well-formed stack at least one value is available.
pub proof fn lemma_depth_after(s: Seq<OpStack>, n: int, k: int)
    requires
        well_formed(s, n),
        0 <= k < s.len(),
    ensures
        -arity_sum(s, 0, k + 1) >= 1,
{
    assert(entry_ok(s, k));
    lemma_arity_split(s, 0, k, k + 1);
    assert(arity_sum(s, k, k + 1) == num_args(s[k]) - 1 + arity_sum(s, k + 1, k + 1));
}

/// Going down from `m`, the sums over `m'..i` meet `-1` before falling to the sum over `0..i`.
proof fn lemma_find_complete(s: Seq<OpStack>, i: int, m: int)
    requires
        1 <= m <= i - 1,
        arity_sum(s, m, i) >= -1,
        arity_sum(s, 0, i) <= -2,
    ensures
        exists|m2: int| 1 <= m2 <= m && arity_sum(s, m2, i) == -1,
    decreases m,
{
    if arity_sum(s, m, i) != -1 {
        assert(arity_sum(s, m - 1, i) == num_args(s[m - 1]) - 1 + arity_sum(s, m, i));
        if m - 1 == 0 {
            assert(false);
        } else {
            lemma_find_complete(s, i, m - 1);
        }
    }
}

/// When some `j` ends a complete expression just below `i`, a largest such `j` exists.
proof fn lemma_largest_split(s: Seq<OpStack>, i: int, j: int)
    requires
        0 <= j <= i - 2,
        arity_sum(s, j + 1, i) == -1,
    ensures
        exists|j2: int| is_split(s, i, j2),
    decreases i - j,
{
    if exists|m: int| j < m <= i - 2 && #[trigger] arity_sum(s, m + 1, i) == -1 {
        let m = choose|m: int| j < m <= i - 2 && #[trigger] arity_sum(s, m + 1, i) == -1;
        lemma_largest_split(s, i, m);
    } else {
        assert(is_split(s, i, j));
    }
}

/// In a well-formed stack every unary operator has an argument just below it, every binary
/// operator two, and every literal entry a literal.
pub proof fn lemma_well_formed_arguments(s: Seq<OpStack>, n: int, i: int)
    requires
        well_formed(s, n),
        0 <= i < s.len(),
    ensures
        s[i] is UnaryOp ==> spec_arg_indices(s, i) == (Some(i - 1), None::<int>),
        s[i] is BinaryOp ==> spec_arg_indices(s, i).0 is Some && spec_arg_indices(s, i).1 is Some,
        s[i] is Literal ==> literal_count(s, i) < n,
        !(s[i] is Pi),
{
    assert(entry_ok(s, i));
    if s[i] is Literal {
        lemma_literal_count_more(s, i + 1, s.len() as int);
    }
    if s[i] is UnaryOp || s[i] is BinaryOp {
        if i == 0 {
            assert(arity_sum(s, 0, 0) == 0);
        }
    }
    if s[i] is BinaryOp {
        if i == 1 {
            assert(arity_sum(s, 0, 1) == num_args(s[0]) - 1 + arity_sum(s, 1, 1));
        } else {
            assert(arity_sum(s, i - 1, i) == num_args(s[i - 1]) - 1 + arity_sum(s, i, i));
            lemma_find_complete(s, i, i - 1);
            let m = choose|m2: int| 1 <= m2 <= i - 1 && arity_sum(s, m2, i) == -1;
            lemma_largest_split(s, i, m - 1);
        }
    }
}

/// `literal_count` does not decrease.
pub proof fn lemma_literal_count_more(s: Seq<OpStack>, i: int, j: int)
    requires
        i <= j,
    ensures
        literal_count(s, i) <= literal_count(s, j),
    decreases j - i,
{
    if i < j {
        lemma_literal_count_more(s, i, j - 1);
    }
}

/// A single literal or constant is a well-formed stack.
pub proof fn lemma_well_formed_single(op: OpStack)
    requires
        op is Literal || op is One,
    ensures
        well_formed(seq![op], if op is Literal { 1 } else { 0 }),
{
    let s = seq![op];
    assert(arity_sum(s, 0, 0) == 0);
    assert(entry_ok(s, 0));
    assert(arity_sum(s, 0, 1) == num_args(s[0]) - 1 + arity_sum(s, 1, 1));
    assert(literal_count(s, 1) == literal_count(s, 0) + (if s[0] is Literal { 1nat } else { 0nat }));
}

/// Applying a unary operator to a well-formed stack keeps it well-formed.
pub proof fn lemma_well_formed_push_unary(s: Seq<OpStack>, n: int, op: OpStack)
    requires
        well_formed(s, n),
        op is UnaryOp,
    ensures
        well_formed(s.push(op), n),
{
    let t = s.push(op);
    let len = s.len() as int;
    assert forall|k: int| 0 <= k < t.len() implies #[trigger] entry_ok(t, k) by {
        lemma_arity_shift(t, s, 0, 0, k);
        if k < len {
            assert(entry_ok(s, k));
        }
    }
    lemma_arity_shift(t, s, 0, 0, len);
    lemma_arity_split(t, 0, len, len + 1);
    assert(arity_sum(t, len, len + 1) == num_args(t[len]) - 1 + arity_sum(t, len + 1, len + 1));
    lemma_literal_count_prefix(t, s, len);
    assert(literal_count(t, len + 1) == literal_count(t, len) + (if t[len] is Literal { 1nat } else { 0nat }));
}

/// Two well-formed stacks followed by a binary operator form a well-formed stack.
pub proof fn lemma_well_formed_push_binary(s1: Seq<OpStack>, n1: int, s2: Seq<OpStack>, n2: int, op: OpStack)
    requires
        well_formed(s1, n1),
        well_formed(s2, n2),
        op is BinaryOp,
    ensures
        well_formed(s1 + s2 + seq![op], n1 + n2),
{
    let t = s1 + s2 + seq![op];
    let a = s1.len() as int;
    let b = s2.len() as int;
    assert forall|k: int| 0 <= k < a implies t[k + 0] == s1[k] by {}
    assert forall|k: int| 0 <= k < b implies t[k + a] == s2[k] by {}
    lemma_arity_shift(t, s1, 0, 0, a);
    assert forall|k: int| 0 <= k < t.len() implies #[trigger] entry_ok(t, k) by {
        if k < a {
            lemma_arity_shift(t, s1, 0, 0, k);
            assert(entry_ok(s1, k));
        } else if k < a + b {
            lemma_arity_split(t, 0, a, k);
            lemma_arity_shift(t, s2, a, 0, k - a);
            assert(entry_ok(s2, k - a));
        } else {
            lemma_arity_split(t, 0, a, a + b);
            lemma_arity_shift(t, s2, a, 0, b);
        }
    }
    lemma_arity_split(t, 0, a, a + b);
    lemma_arity_shift(t, s2, a, 0, b);
    lemma_arity_split(t, 0, a + b, a + b + 1);
    assert(arity_sum(t, a + b, a + b + 1) == num_args(t[a + b]) - 1 + arity_sum(t, a + b + 1, a + b + 1));
    lemma_literal_count_prefix(t, s1, a);
    lemma_literal_count_shift(t, s2, a, b);
    assert(literal_count(t, a + b + 1) == literal_count(t, a + b) + (if t[a + b] is Literal { 1nat } else { 0nat }));
}

/// The arguments of the binary operator that joins two well-formed stacks are their two roots.
pub proof fn lemma_binary_root_arguments(s1: Seq<OpStack>, n1: int, s2: Seq<OpStack>, n2: int, op: OpStack)
    requires
        well_formed(s1, n1),
        well_formed(s2, n2),
        op is BinaryOp,
    ensures
        spec_arg_indices(s1 + s2 + seq![op], (s1.len() + s2.len()) as int) == (
            Some(s1.len() - 1),
            Some(s1.len() + s2.len() - 1),
        ),
{
    let t = s1 + s2 + seq![op];
    let a = s1.len() as int;
    let b = s2.len() as int;
    let i = a + b;
    assert forall|k: int| 0 <= k < b implies t[k + a] == s2[k] by {}
    lemma_arity_shift(t, s2, a, 0, b);
    assert forall|m: int| a - 1 < m <= i - 2 implies #[trigger] arity_sum(t, m + 1, i) != -1 by {
        let k = m + 1 - a;
        lemma_arity_shift(t, s2, a, k, b);
        lemma_arity_split(s2, 0, k, b);
        lemma_depth_after(s2, n2, k - 1);
    }
    assert(is_split(t, i, a - 1));
    assert forall|j: int| #[trigger] is_split(t, i, j) implies j == a - 1 by {
        if j < a - 1 {
            assert(arity_sum(t, a - 1 + 1, i) == -1);
        } else if j > a - 1 {
            assert(arity_sum(t, j + 1, i) != -1);
        }
    }
}

/// The operator at `i` has one first-argument root at most.
pub proof fn lemma_split_unique(s: Seq<OpStack>, i: int, j1: int, j2: int)
    requires
        is_split(s, i, j1),
        is_split(s, i, j2),
    ensures
        j1 == j2,
{
    if j1 < j2 {
        assert(arity_sum(s, j2 + 1, i) != -1);
    } else if j2 < j1 {
        assert(arity_sum(s, j1 + 1, i) != -1);
    }
}

/// The argument indices of entry `k` read only the entries up to `k`.
pub proof fn lemma_arg_indices_prefix(t: Seq<OpStack>, s: Seq<OpStack>, k: int)
    requires
        0 <= k < s.len(),
        k < t.len(),
        forall|i: int| 0 <= i <= k ==> t[i] == s[i],
    ensures
        spec_arg_indices(t, k) == spec_arg_indices(s, k),
{
    assert forall|i: int| 0 <= i < k implies t[i + 0] == s[i] by {}
    assert forall|j: int| #[trigger] is_split(t, k, j) == is_split(s, k, j) by {
        if 0 <= j <= k - 2 {
            lemma_arity_shift(t, s, 0, j + 1, k);
            assert forall|m: int| j < m <= k - 2 implies #[trigger] arity_sum(t, m + 1, k) == arity_sum(s, m + 1, k) by {
                lemma_arity_shift(t, s, 0, m + 1, k);
            }
            if is_split(s, k, j) {
                assert forall|m: int| j < m <= k - 2 implies #[trigger] arity_sum(t, m + 1, k) != -1 by {
                    assert(arity_sum(s, m + 1, k) != -1);
                }
            }
            if is_split(t, k, j) {
                assert forall|m: int| j < m <= k - 2 implies #[trigger] arity_sum(s, m + 1, k) != -1 by {
                    assert(arity_sum(t, m + 1, k) != -1);
                }
            }
        }
    }
    if exists|j: int| is_split(s, k, j) {
        let js = choose|j: int| is_split(s, k, j);
        let jt = choose|j: int| is_split(t, k, j);
        assert(is_split(t, k, js));
        lemma_split_unique(t, k, jt, js);
    }
}

/// In a stack that holds the well-formed `s2` from index `a` on, the argument indices of its
/// entries are those in `s2`, moved by `a`.
pub proof fn lemma_arg_indices_suffix(t: Seq<OpStack>, s2: Seq<OpStack>, n2: int, a: int, k: int)
    requires
        well_formed(s2, n2),
        0 <= a,
        0 <= k < s2.len(),
        a + k < t.len(),
        forall|i: int| 0 <= i <= k ==> t[a + i] == s2[i],
    ensures
        spec_arg_indices(t, a + k) == (
            match spec_arg_indices(s2, k) {
                (Some(j1), Some(j2)) => (Some(a + j1), Some(a + j2)),
                (Some(j1), None) => (Some(a + j1), None),
                _ => (None, None),
            }
        ),
{
    lemma_well_formed_arguments(s2, n2, k);
    assert(t[a + k] == s2[k]);
    if s2[k] is BinaryOp {
        let j = choose|j: int| is_split(s2, k, j);
        assert(is_split(s2, k, j));
        assert forall|i: int| j + 1 <= i < k implies t[i + a] == s2[i] by {
            assert(t[a + i] == s2[i]);
        }
        lemma_arity_shift(t, s2, a, j + 1, k);
        assert forall|m: int| a + j < m <= a + k - 2 implies #[trigger] arity_sum(t, m + 1, a + k) != -1 by {
            assert forall|i: int| m + 1 - a <= i < k implies t[i + a] == s2[i] by {
                assert(t[a + i] == s2[i]);
            }
            lemma_arity_shift(t, s2, a, m + 1 - a, k);
            assert(arity_sum(s2, (m - a) + 1, k) != -1);
        }
        assert(is_split(t, a + k, a + j));
        let i2 = a + k;
        let jt = choose|jj: int| is_split(t, i2, jj);
        lemma_split_unique(t, i2, jt, a + j);
    }
}

/// `lo` is where the expression whose root is entry `i` begins: the entries `lo..=i` form the
/// shortest complete expression that ends at `i`.
pub open spec fn is_start(s: Seq<OpStack>, i: int, lo: int) -> bool {
    &&& 0 <= lo <= i
    &&& arity_sum(s, lo, i + 1) == -1
    &&& forall|m: int| lo < m <= i ==> #[trigger] arity_sum(s, m, i + 1) != -1
}

/// Where the expression whose root is entry `i` begins.
pub open spec fn expr_start(s: Seq<OpStack>, i: int) -> int {
    choose|lo: int| is_start(s, i, lo)
}

/// An expression has one start at most.
pub proof fn lemma_start_unique(s: Seq<OpStack>, i: int, a: int, b: int)
    requires
        is_start(s, i, a),
        is_start(s, i, b),
    ensures
        a == b,
{
    if a < b {
        assert(arity_sum(s, b, i + 1) != -1);
    } else if b < a {
        assert(arity_sum(s, a, i + 1) != -1);
    }
}

/// Going down from `m`, the sums over `m'..=i` meet `-1` before passing the sum over `0..=i`.
proof fn lemma_find_start(s: Seq<OpStack>, i: int, m: int)
    requires
        0 <= m <= i,
        arity_sum(s, m, i + 1) >= -1,
        arity_sum(s, 0, i + 1) <= -1,
    ensures
        exists|m2: int| 0 <= m2 <= m && #[trigger] arity_sum(s, m2, i + 1) == -1,
    decreases m,
{
    if arity_sum(s, m, i + 1) != -1 {
        if m == 0 {
            assert(false);
        } else {
            assert(arity_sum(s, m - 1, i + 1) == num_args(s[m - 1]) - 1 + arity_sum(s, m, i + 1));
            lemma_find_start(s, i, m - 1);
        }
    }
}

/// When some `lo` begins a complete expression ending at `i`, a largest such `lo` exists.
proof fn lemma_largest_start(s: Seq<OpStack>, i: int, lo: int)
    requires
        0 <= lo <= i,
        arity_sum(s, lo, i + 1) == -1,
    ensures
        exists|lo2: int| is_start(s, i, lo2),
    decreases i - lo,
{
    if exists|m: int| lo < m <= i && #[trigger] arity_sum(s, m, i + 1) == -1 {
        let m = choose|m: int| lo < m <= i && #[trigger] arity_sum(s, m, i + 1) == -1;
        lemma_largest_start(s, i, m);
    } else {
        assert(is_start(s, i, lo));
    }
}

/// Every entry of a well-formed stack is the root of an expression that starts at `expr_start`.
pub proof fn lemma_start_exists(s: Seq<OpStack>, n: int, i: int)
    requires
        well_formed(s, n),
        0 <= i < s.len(),
    ensures
        is_start(s, i, expr_start(s, i)),
{
    lemma_depth_after(s, n, i);
    assert(arity_sum(s, i, i + 1) == num_args(s[i]) - 1 + arity_sum(s, i + 1, i + 1));
    lemma_find_start(s, i, i);
    let m = choose|m2: int| 0 <= m2 <= i && #[trigger] arity_sum(s, m2, i + 1) == -1;
    lemma_largest_start(s, i, m);
}

/// The proper suffixes of a shortest complete expression consume at least what they produce.
pub proof fn lemma_start_suffix(s: Seq<OpStack>, i: int, lo: int, m: int)
    requires
        is_start(s, i, lo),
        lo < m <= i,
    ensures
        arity_sum(s, m, i + 1) >= 0,
    decreases i - m,
{
    assert(arity_sum(s, m, i + 1) != -1);
    assert(arity_sum(s, m, i + 1) == num_args(s[m]) - 1 + arity_sum(s, m + 1, i + 1));
    if m < i {
        lemma_start_suffix(s, i, lo, m + 1);
    } else {
        assert(arity_sum(s, i + 1, i + 1) == 0);
    }
}

/// The expression of an entry is the entry itself for a literal or a constant, the entry and
/// the expression of its argument for a unary operator, and the entry and the expressions of
/// its two arguments, side by side, for a binary operator.
pub proof fn lemma_expression_ranges(s: Seq<OpStack>, n: int, i: int)
    requires
        well_formed(s, n),
        0 <= i < s.len(),
    ensures
        is_start(s, i, expr_start(s, i)),
        s[i] is Literal || s[i] is One ==> expr_start(s, i) == i,
        s[i] is UnaryOp ==> i >= 1 && expr_start(s, i) == expr_start(s, i - 1),
        s[i] is BinaryOp ==> ({
            let j1 = expr_start(s, i - 1) - 1;
            &&& i >= 2
            &&& 0 <= j1 < i - 1
            &&& spec_arg_indices(s, i) == (Some(j1), Some(i - 1))
            &&& expr_start(s, i) == expr_start(s, j1)
        }),
{
    lemma_start_exists(s, n, i);
    lemma_well_formed_arguments(s, n, i);
    let lo = expr_start(s, i);
    assert(arity_sum(s, i, i + 1) == num_args(s[i]) - 1 + arity_sum(s, i + 1, i + 1));
    if s[i] is Literal || s[i] is One {
        assert(is_start(s, i, i));
        lemma_start_unique(s, i, i, lo);
    } else if s[i] is UnaryOp {
        assert(entry_ok(s, i));
        if i == 0 {
            assert(arity_sum(s, 0, 0) == 0);
        }
        lemma_start_exists(s, n, i - 1);
        let l1 = expr_start(s, i - 1);
        lemma_arity_split(s, l1, i, i + 1);
        assert forall|m: int| l1 < m <= i implies #[trigger] arity_sum(s, m, i + 1) != -1 by {
            lemma_arity_split(s, m, i, i + 1);
            if m < i {
                assert(arity_sum(s, m, i) != -1);
            }
        }
        assert(is_start(s, i, l1));
        lemma_start_unique(s, i, l1, lo);
    } else if s[i] is BinaryOp {
        let j = choose|j: int| is_split(s, i, j);
        assert(is_split(s, i, j));
        lemma_start_exists(s, n, i - 1);
        let l1 = expr_start(s, i - 1);
        assert forall|m: int| j + 1 < m <= i - 1 implies #[trigger] arity_sum(s, m, i) != -1 by {
            assert(arity_sum(s, (m - 1) + 1, i) != -1);
        }
        assert(is_start(s, i - 1, j + 1));
        lemma_start_unique(s, i - 1, j + 1, l1);
        lemma_start_exists(s, n, j);
        let l0 = expr_start(s, j);
        lemma_arity_split(s, l0, j + 1, i + 1);
        lemma_arity_split(s, j + 1, i, i + 1);
        assert forall|m: int| l0 < m <= i implies #[trigger] arity_sum(s, m, i + 1) != -1 by {
            if m <= j {
                lemma_arity_split(s, m, j + 1, i + 1);
                assert(arity_sum(s, m, j + 1) != -1);
            } else if m < i {
                lemma_arity_split(s, m, i, i + 1);
                if m > j + 1 {
                    lemma_start_suffix(s, i - 1, j + 1, m);
                }
            }
        }
        assert(is_start(s, i, l0));
        lemma_start_unique(s, i, l0, lo);
    }
}

/// An entry of a well-formed stack is an argument of one operator at most.
pub proof fn lemma_single_consumer(s: Seq<OpStack>, n: int, i: int, i2: int, j: int)
    requires
        well_formed(s, n),
        0 <= i < i2 < s.len(),
        spec_arg_indices(s, i).0 == Some(j) || spec_arg_indices(s, i).1 == Some(j),
    ensures
        spec_arg_indices(s, i2).0 != Some(j),
        spec_arg_indices(s, i2).1 != Some(j),
{
    lemma_expression_ranges(s, n, i);
    lemma_expression_ranges(s, n, i2);
    lemma_well_formed_arguments(s, n, i);
    lemma_well_formed_arguments(s, n, i2);
    if spec_arg_indices(s, i2).0 == Some(j) || spec_arg_indices(s, i2).1 == Some(j) {
        // The operator `i2` would take `j` as the root of its first argument, whose second
        // argument then runs from `j + 1` to `i2 - 1` and holds `i`.
        assert(s[i2] is BinaryOp);
        assert(j < i);
        lemma_start_exists(s, n, i2 - 1);
        assert(expr_start(s, i2 - 1) == j + 1);
        let lo = expr_start(s, i);
        if s[i] is UnaryOp {
            lemma_start_exists(s, n, i - 1);
        } else {
            lemma_start_exists(s, n, expr_start(s, i - 1) - 1);
        }
        assert(lo <= j);
        lemma_start_suffix(s, i, lo, j + 1);
        lemma_arity_split(s, j + 1, i + 1, i2);
        if i + 1 < i2 {
            lemma_start_suffix(s, i2 - 1, j + 1, i + 1);
        } else {
            assert(arity_sum(s, i2, i2) == 0);
        }
    }
}

} // verus!
