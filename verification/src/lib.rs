//! Computable real numbers evaluated with an explicit operator stack.
//!
//! A number is described by a stack of operators in reverse Polish notation over
//! rational and integer literals. It is approximated to a requested precision `p`:
//! the result is an integer `n` such that `n * 2^p` approximates the number.
use vstd::prelude::*;

pub mod bigint;
pub mod rational;
pub mod approximate;
pub mod accuracy;
pub mod prescaled_value;
pub mod series;
pub mod stack_computable;
pub mod rpn;
pub mod inverse_accuracy;
pub mod series_accuracy;

verus! {

/// A binary precision: a value `n` at precision `p` stands for `n * 2^p`.
pub type Precision = i32;

} // verus!
