//! Formulas: the operations of synthetic channels, where they are called
//! formulas.

use crate::arithmetic;
use crate::error::{failure_of, GatewayError};
use crate::scalar;
use crate::scalar::Scalar;
use crate::synthetic::operation;
use crate::synthetic::operation::{find_operation, Operation};
use vstd::prelude::*;

verus! {

/// A named function of cached values.
#[derive(Debug, Clone, Copy, PartialEq, Eq, Structural)]
pub enum Formula {
    /// The first value less the second. Exactly two.
    Subtract,
    /// Sum. One or more.
    Sum,
    /// Arithmetic mean. One or more.
    Mean,
    /// Largest value. One or more.
    Max,
    /// Smallest value. One or more.
    Min,
}

impl Formula {
    /// The operation that a formula stands for.
    pub open spec fn operation(self) -> Operation {
        match self {
            Formula::Subtract => Operation::Subtract,
            Formula::Sum => Operation::Sum,
            Formula::Mean => Operation::Mean,
            Formula::Max => Operation::Max,
            Formula::Min => Operation::Min,
        }
    }

    /// Read a formula name.
    pub fn parse(name: &str) -> (r: Result<Formula, GatewayError>)
        ensures
            match r {
                Ok(f) => operation::operation_of(name@) == Some(f.operation()),
                Err(e) => operation::operation_of(name@) is None && e.message@
                    == "unknown synthetic formula: "@ + name@,
            },
    {
        match find_operation(name) {
            Some(Operation::Subtract) => Ok(Formula::Subtract),
            Some(Operation::Sum) => Ok(Formula::Sum),
            Some(Operation::Mean) => Ok(Formula::Mean),
            Some(Operation::Max) => Ok(Formula::Max),
            Some(Operation::Min) => Ok(Formula::Min),
            None => Err(failure_of("unknown synthetic formula: ", name)),
        }
    }

    /// Apply the formula to cached values.
    pub fn apply<N: Scalar>(self, inputs: &[N]) -> (r: Result<N, GatewayError>)
        ensures
            match r {
                Ok(v) => operation::takes(self.operation(), inputs@.len()) && v
                    == operation::value_of(self.operation(), inputs@),
                Err(e) => !operation::takes(self.operation(), inputs@.len()) && e.message@
                    == operation::arity_error(self.operation(), inputs@.len()),
            },
    {
        let op: Operation = match self {
            Formula::Subtract => Operation::Subtract,
            Formula::Sum => Operation::Sum,
            Formula::Mean => Operation::Mean,
            Formula::Max => Operation::Max,
            Formula::Min => Operation::Min,
        };
        op.apply(inputs)
    }
}

/// The largest and the smallest value of a formula are among its inputs, and no
/// input is beyond them, where the inputs are ordered as numbers are and none is
/// beyond the infinite ones.
pub proof fn lemma_formula_extremes<N: Scalar>(
    value: spec_fn(N) -> real,
    counts: spec_fn(N) -> bool,
    inputs: Seq<N>,
)
    requires
        inputs.len() > 0,
        arithmetic::orders_as(value, counts),
        forall|k: int| 0 <= k < inputs.len() ==> counts(#[trigger] inputs[k]),
        forall|x: N| counts(x) ==> #[trigger] N::infinity_spec().negate_spec().larger_spec(x) == x,
        forall|x: N| counts(x) ==> #[trigger] N::infinity_spec().smaller_spec(x) == x,
    ensures
        ({
            let most = operation::value_of(Formula::Max.operation(), inputs);
            let least = operation::value_of(Formula::Min.operation(), inputs);
            &&& inputs.contains(most)
            &&& inputs.contains(least)
            &&& forall|k: int|
                0 <= k < inputs.len() ==> (#[trigger] inputs[k]).at_most_spec(most)
                    && least.at_most_spec(inputs[k])
        }),
{
    operation::lemma_max_is_an_input(value, counts, inputs);
    operation::lemma_min_is_an_input(value, counts, inputs);
}

/// What the formulas give in numbers: the first input less the second, the sum of
/// the inputs, and what times the number of inputs is their sum.
pub proof fn lemma_formulas_in_numbers<N: Scalar>(
    value: spec_fn(N) -> real,
    counts: spec_fn(N) -> bool,
    inputs: Seq<N>,
)
    requires
        arithmetic::is_exact(value, counts),
        arithmetic::adds_up(counts, inputs),
        counts(N::int_spec(inputs.len() as int)),
        arithmetic::is_even(
            value,
            scalar::sum_of(inputs),
            N::int_spec(inputs.len() as int),
        ),
        inputs.len() > 0,
        inputs.len() == 2 ==> counts(inputs[0]) && counts(inputs[1]) && counts(
            inputs[0].minus_spec(inputs[1]),
        ),
    ensures
        inputs.len() == 2 ==> value(operation::value_of(Formula::Subtract.operation(), inputs))
            == value(inputs[0]) - value(inputs[1]),
        value(operation::value_of(Formula::Sum.operation(), inputs)) == arithmetic::total(
            value,
            inputs,
        ),
        value(operation::value_of(Formula::Mean.operation(), inputs)) * (
        inputs.len() as int as real) == arithmetic::total(value, inputs),
{
    operation::lemma_sum_and_mean(value, counts, inputs);
}

/// Every formula has one name and no other text names it.
pub proof fn lemma_formulas_have_one_name(name: Seq<char>)
    ensures
        operation::operation_of(name) == Some(Formula::Subtract.operation()) <==> name
            == "subtract"@,
        operation::operation_of(name) == Some(Formula::Sum.operation()) <==> name == "sum"@,
        operation::operation_of(name) == Some(Formula::Mean.operation()) <==> name == "mean"@,
        operation::operation_of(name) == Some(Formula::Max.operation()) <==> name == "max"@,
        operation::operation_of(name) == Some(Formula::Min.operation()) <==> name == "min"@,
{
    operation::lemma_operations_have_one_name(name);
}

} // verus!
