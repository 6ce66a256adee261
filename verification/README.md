# stack_computable

Computable real numbers held as a stack of operators in reverse Polish notation over
integer and rational literals, and approximated to a requested binary precision without
recursion. The library is written in Verus: every function in `src/` carries a contract,
and the laws that relate the functions are proved as public proof functions.

Layout of `src/`:

- `bigint.rs`: the arbitrary-precision integers of the `num` crate, seen through the
  integer they hold; each operation the library uses is a small trusted wrapper.
- `rational.rs`: fractions with a positive denominator.
- `approximate.rs`: scaling and shifting of integers, and what each unary and binary
  operator computes from approximations of its arguments. The square root, cosine,
  exponential and logarithm require their argument's approximation to lie in their
  documented domains; `UnaryOp::argument_in_domain` checks it.
- `series.rs`: the terms and sums of the cosine, exponential and logarithm series, and
  the bounds that make their loops terminate.
- `accuracy.rs`: when an integer at a precision lies within one unit of a fraction, and
  how rounding, rescaling, negation, addition, multiplication and the square root keep
  that bound.
- `prescaled_value.rs`: an integer together with its precision.
- `rpn.rs`: well-formed stacks, the arguments of each operator and the extent of each
  expression.
- `inverse_accuracy.rs`: the accuracy of the inverse: within one unit of the inverse of a
  literal, and of an expression of literals, one, sums and small products, at precisions up
  to 1.
- `stack_computable.rs`: the computable number, its constructors, the propagation of
  needed precisions down the stack, and `approximate` with its guarantees: soundness of
  every result, termination, the errors it reports, success (with the exact integer it
  returns) for stacks of exact operators, for square roots and series over rational
  expressions in their domains and for stacks that compute in one pass, the exact outcome
  for the inverse of a literal, success with the exact integer for the inverse of an
  expression of literals, one, sums, products, square roots and series whenever the
  precisions it asks for in turn lie in range, and accuracy within one unit for stacks of
  literals, one, negations, sums and small products, and for a final square root of such a
  stack. For other stacks holding an inverse (an inverse of an inverse, for one), only
  soundness and termination are stated.

`tests/` holds the scenarios of the library and further tests of each function.
