//! The operations of synthetic channels.

use crate::arithmetic;
use crate::error::{failure, failure_of, GatewayError};
use crate::scalar;
use crate::scalar::Scalar;
use crate::text;
use crate::text::same_text;
use vstd::prelude::*;

verus! {

/// A named function of cached values.
#[derive(Debug, Clone, Copy, PartialEq, Eq, Structural)]
pub enum Operation {
    /// The first value less the second. Exactly two.
    Subtract,
    /// Sum. One or more.
    Sum,
    /// Arithmetic mean. One or more.
    Mean,
    /// Largest value. One or more.
    Max,
    /// Smallest value. One or more.
    Min,
}

/// The name of an operation.
pub open spec fn operation_name(op: Operation) -> Seq<char> {
    match op {
        Operation::Subtract => "subtract"@,
        Operation::Sum => "sum"@,
        Operation::Mean => "mean"@,
        Operation::Max => "max"@,
        Operation::Min => "min"@,
    }
}

/// The operation of a name.
pub open spec fn operation_of(name: Seq<char>) -> Option<Operation> {
    if name == "subtract"@ {
        Some(Operation::Subtract)
    } else if name == "sum"@ {
        Some(Operation::Sum)
    } else if name == "mean"@ {
        Some(Operation::Mean)
    } else if name == "max"@ {
        Some(Operation::Max)
    } else if name == "min"@ {
        Some(Operation::Min)
    } else {
        None
    }
}

/// The largest of a sequence, below everything where it is empty.
pub open spec fn largest<N: Scalar>(values: Seq<N>) -> N
    decreases values.len(),
{
    if values.len() == 0 {
        N::infinity_spec().negate_spec()
    } else {
        largest(values.drop_last()).larger_spec(values.last())
    }
}

/// The smallest of a sequence, above everything where it is empty.
pub open spec fn smallest<N: Scalar>(values: Seq<N>) -> N
    decreases values.len(),
{
    if values.len() == 0 {
        N::infinity_spec()
    } else {
        smallest(values.drop_last()).smaller_spec(values.last())
    }
}

/// Whether an operation takes this many inputs.
pub open spec fn takes(op: Operation, count: nat) -> bool {
    if op == Operation::Subtract {
        count == 2
    } else {
        count > 0
    }
}

/// The value of an operation.
pub open spec fn value_of<N: Scalar>(op: Operation, inputs: Seq<N>) -> N {
    match op {
        Operation::Subtract => inputs[0].minus_spec(inputs[1]),
        Operation::Sum => scalar::sum_of(inputs),
        Operation::Mean => scalar::sum_of(inputs).over_spec(N::int_spec(inputs.len() as int)),
        Operation::Max => largest(inputs),
        Operation::Min => smallest(inputs),
    }
}

/// What is said of a wrong number of inputs.
pub open spec fn arity_error(op: Operation, count: nat) -> Seq<char> {
    if op == Operation::Subtract {
        "subtract requires exactly 2 inputs, got "@ + text::digits(count)
    } else {
        operation_name(op) + " requires at least one input"@
    }
}

fn name_of(op: Operation) -> (r: &'static str)
    ensures
        r@ == operation_name(op),
{
    match op {
        Operation::Subtract => "subtract",
        Operation::Sum => "sum",
        Operation::Mean => "mean",
        Operation::Max => "max",
        Operation::Min => "min",
    }
}

/// Read an operation name.
pub fn find_operation(name: &str) -> (r: Option<Operation>)
    ensures
        r == operation_of(name@),
{
    if same_text(name, "subtract") {
        Some(Operation::Subtract)
    } else if same_text(name, "sum") {
        Some(Operation::Sum)
    } else if same_text(name, "mean") {
        Some(Operation::Mean)
    } else if same_text(name, "max") {
        Some(Operation::Max)
    } else if same_text(name, "min") {
        Some(Operation::Min)
    } else {
        None
    }
}

impl Operation {
    /// Read an operation name.
    pub fn parse(name: &str) -> (r: Result<Operation, GatewayError>)
        ensures
            match r {
                Ok(op) => operation_of(name@) == Some(op),
                Err(e) => operation_of(name@) is None && e.message@
                    == "unknown synthetic operation: "@ + name@,
            },
    {
        match find_operation(name) {
            Some(op) => Ok(op),
            None => Err(failure_of("unknown synthetic operation: ", name)),
        }
    }

    /// Apply the operation to cached values.
    pub fn apply<N: Scalar>(self, inputs: &[N]) -> (r: Result<N, GatewayError>)
        ensures
            match r {
                Ok(v) => takes(self, inputs@.len()) && v == value_of(self, inputs@),
                Err(e) => !takes(self, inputs@.len()) && e.message@ == arity_error(
                    self,
                    inputs@.len(),
                ),
            },
    {
        match self {
            Operation::Subtract => {
                if inputs.len() != 2 {
                    return Err(
                        failure_of(
                            "subtract requires exactly 2 inputs, got ",
                            text::decimal(inputs.len() as u64).as_str(),
                        ),
                    );
                }
                Ok(inputs[0].minus(inputs[1]))
            },
            _ => {
                if inputs.len() == 0 {
                    return Err(failure_of(name_of(self), " requires at least one input"));
                }
                match self {
                    Operation::Sum => Ok(scalar::sum(inputs)),
                    Operation::Mean => Ok(
                        scalar::sum(inputs).over(N::from_u64(inputs.len() as u64)),
                    ),
                    Operation::Max => Ok(max_of(inputs)),
                    _ => Ok(min_of(inputs)),
                }
            },
        }
    }
}

fn max_of<N: Scalar>(inputs: &[N]) -> (r: N)
    ensures
        r == largest(inputs@),
{
    let mut r: N = N::infinity().negate();
    let mut i: usize = 0;
    while i < inputs.len()
        invariant
            i <= inputs@.len(),
            r == largest(inputs@.take(i as int)),
        decreases inputs@.len() - i,
    {
        r = r.larger(inputs[i]);
        assert(inputs@.take(i + 1).drop_last() =~= inputs@.take(i as int));
        i = i + 1;
    }
    assert(inputs@.take(i as int) =~= inputs@);
    r
}

fn min_of<N: Scalar>(inputs: &[N]) -> (r: N)
    ensures
        r == smallest(inputs@),
{
    let mut r: N = N::infinity();
    let mut i: usize = 0;
    while i < inputs.len()
        invariant
            i <= inputs@.len(),
            r == smallest(inputs@.take(i as int)),
        decreases inputs@.len() - i,
    {
        r = r.smaller(inputs[i]);
        assert(inputs@.take(i + 1).drop_last() =~= inputs@.take(i as int));
        i = i + 1;
    }
    assert(inputs@.take(i as int) =~= inputs@);
    r
}

/// The weights of value-weight pairs.
pub open spec fn weights<N: Scalar>(pairs: Seq<(N, N)>) -> Seq<N> {
    pairs.map_values(|p: (N, N)| p.1)
}

/// Each value times its weight.
pub open spec fn products<N: Scalar>(pairs: Seq<(N, N)>) -> Seq<N> {
    pairs.map_values(|p: (N, N)| p.0.times_spec(p.1))
}

/// Pairs that have a weighted mean: there is one, and the weights sum to more
/// than nothing.
pub open spec fn weighable<N: Scalar>(pairs: Seq<(N, N)>) -> bool {
    pairs.len() > 0 && !scalar::sum_of(weights(pairs)).at_most_spec(scalar::zero())
}

/// The weighted mean.
pub open spec fn mean_by_weight<N: Scalar>(pairs: Seq<(N, N)>) -> N {
    scalar::sum_of(products(pairs)).over_spec(scalar::sum_of(weights(pairs)))
}

/// What is said of pairs without a weighted mean.
pub open spec fn weight_error<N: Scalar>(pairs: Seq<(N, N)>) -> Seq<char> {
    if pairs.len() == 0 {
        "weighted_mean requires at least one pair"@
    } else {
        "weighted_mean requires a positive total weight, got "@ + scalar::sum_of(
            weights(pairs),
        ).render_spec()
    }
}

/// Mean of values weighted by their second components.
pub fn weighted_mean<N: Scalar>(pairs: &[(N, N)]) -> (r: Result<N, GatewayError>)
    ensures
        match r {
            Ok(v) => weighable(pairs@) && v == mean_by_weight(pairs@),
            Err(e) => !weighable(pairs@) && e.message@ == weight_error(pairs@),
        },
{
    if pairs.len() == 0 {
        return Err(failure("weighted_mean requires at least one pair".to_owned()));
    }
    let mut ws: Vec<N> = Vec::new();
    let mut ps: Vec<N> = Vec::new();
    let mut i: usize = 0;
    while i < pairs.len()
        invariant
            i <= pairs@.len(),
            ws@ == weights(pairs@).take(i as int),
            ps@ == products(pairs@).take(i as int),
        decreases pairs@.len() - i,
    {
        ws.push(pairs[i].1);
        ps.push(pairs[i].0.times(pairs[i].1));
        assert(weights(pairs@).take(i + 1) =~= weights(pairs@).take(i as int).push(
            weights(pairs@)[i as int],
        ));
        assert(products(pairs@).take(i + 1) =~= products(pairs@).take(i as int).push(
            products(pairs@)[i as int],
        ));
        i = i + 1;
    }
    assert(ws@ =~= weights(pairs@));
    assert(ps@ =~= products(pairs@));
    let total = scalar::sum(ws.as_slice());
    if total.at_most(N::from_u64(0)) {
        return Err(
            failure_of(
                "weighted_mean requires a positive total weight, got ",
                total.render().as_str(),
            ),
        );
    }
    Ok(scalar::sum(ps.as_slice()).over(total))
}

// ---------------------------------------------------------------------
// Laws
// ---------------------------------------------------------------------

proof fn lemma_largest<N: Scalar>(
    value: spec_fn(N) -> real,
    counts: spec_fn(N) -> bool,
    inputs: Seq<N>,
) -> (i: int)
    requires
        inputs.len() > 0,
        arithmetic::orders_as(value, counts),
        forall|k: int| 0 <= k < inputs.len() ==> counts(#[trigger] inputs[k]),
        forall|x: N| counts(x) ==> #[trigger] N::infinity_spec().negate_spec().larger_spec(x) == x,
    ensures
        0 <= i < inputs.len(),
        largest(inputs) == inputs[i],
        forall|k: int| 0 <= k < inputs.len() ==> value(#[trigger] inputs[k]) <= value(inputs[i]),
    decreases inputs.len(),
{
    let init = inputs.drop_last();
    let last = inputs.last();
    assert(counts(inputs[inputs.len() - 1]));
    if init.len() == 0 {
        assert(largest(init) == N::infinity_spec().negate_spec());
        0
    } else {
        assert forall|k: int| 0 <= k < init.len() implies counts(#[trigger] init[k]) by {
            assert(init[k] == inputs[k]);
        }
        let j = lemma_largest(value, counts, init);
        assert(counts(init[j]));
        let r = largest(init).larger_spec(last);
        assert forall|k: int| 0 <= k < inputs.len() implies value(#[trigger] inputs[k]) <= value(
            r,
        ) by {
            if k < init.len() {
                assert(inputs[k] == init[k]);
            }
        }
        if r == init[j] {
            assert(init[j] == inputs[j]);
            j
        } else {
            inputs.len() - 1
        }
    }
}

proof fn lemma_smallest<N: Scalar>(
    value: spec_fn(N) -> real,
    counts: spec_fn(N) -> bool,
    inputs: Seq<N>,
) -> (i: int)
    requires
        inputs.len() > 0,
        arithmetic::orders_as(value, counts),
        forall|k: int| 0 <= k < inputs.len() ==> counts(#[trigger] inputs[k]),
        forall|x: N| counts(x) ==> #[trigger] N::infinity_spec().smaller_spec(x) == x,
    ensures
        0 <= i < inputs.len(),
        smallest(inputs) == inputs[i],
        forall|k: int| 0 <= k < inputs.len() ==> value(inputs[i]) <= value(#[trigger] inputs[k]),
    decreases inputs.len(),
{
    let init = inputs.drop_last();
    let last = inputs.last();
    assert(counts(inputs[inputs.len() - 1]));
    if init.len() == 0 {
        assert(smallest(init) == N::infinity_spec());
        0
    } else {
        assert forall|k: int| 0 <= k < init.len() implies counts(#[trigger] init[k]) by {
            assert(init[k] == inputs[k]);
        }
        let j = lemma_smallest(value, counts, init);
        assert(counts(init[j]));
        let r = smallest(init).smaller_spec(last);
        assert forall|k: int| 0 <= k < inputs.len() implies value(r) <= value(
            #[trigger] inputs[k],
        ) by {
            if k < init.len() {
                assert(inputs[k] == init[k]);
            }
        }
        if r == init[j] {
            assert(init[j] == inputs[j]);
            j
        } else {
            inputs.len() - 1
        }
    }
}

/// The largest value is one of the inputs and no input is above it, where the
/// inputs are ordered as numbers are and none is below the least number.
pub proof fn lemma_max_is_an_input<N: Scalar>(
    value: spec_fn(N) -> real,
    counts: spec_fn(N) -> bool,
    inputs: Seq<N>,
)
    requires
        inputs.len() > 0,
        arithmetic::orders_as(value, counts),
        forall|k: int| 0 <= k < inputs.len() ==> counts(#[trigger] inputs[k]),
        forall|x: N| counts(x) ==> #[trigger] N::infinity_spec().negate_spec().larger_spec(x) == x,
    ensures
        inputs.contains(value_of(Operation::Max, inputs)),
        forall|k: int|
            0 <= k < inputs.len() ==> (#[trigger] inputs[k]).at_most_spec(
                value_of(Operation::Max, inputs),
            ),
{
    let i = lemma_largest(value, counts, inputs);
    assert(counts(inputs[i]));
}

/// The smallest value is one of the inputs and no input is below it, where the
/// inputs are ordered as numbers are and none is above the greatest number.
pub proof fn lemma_min_is_an_input<N: Scalar>(
    value: spec_fn(N) -> real,
    counts: spec_fn(N) -> bool,
    inputs: Seq<N>,
)
    requires
        inputs.len() > 0,
        arithmetic::orders_as(value, counts),
        forall|k: int| 0 <= k < inputs.len() ==> counts(#[trigger] inputs[k]),
        forall|x: N| counts(x) ==> #[trigger] N::infinity_spec().smaller_spec(x) == x,
    ensures
        inputs.contains(value_of(Operation::Min, inputs)),
        forall|k: int|
            0 <= k < inputs.len() ==> value_of(Operation::Min, inputs).at_most_spec(
                #[trigger] inputs[k],
            ),
{
    let i = lemma_smallest(value, counts, inputs);
    assert(counts(inputs[i]));
}

/// Whole numbers but the least one meet what the laws of the largest and the
/// smallest value ask for.
pub proof fn lemma_whole_numbers_have_extremes(inputs: Seq<i64>)
    requires
        inputs.len() > 0,
        forall|k: int| 0 <= k < inputs.len() ==> #[trigger] inputs[k] > i64::MIN,
    ensures
        inputs.contains(value_of(Operation::Max, inputs)),
        inputs.contains(value_of(Operation::Min, inputs)),
        forall|k: int|
            0 <= k < inputs.len() ==> value_of(Operation::Min, inputs) <= #[trigger] inputs[k]
                <= value_of(Operation::Max, inputs),
{
    let value = |n: i64| n as real;
    let counts = |n: i64| n > i64::MIN;
    lemma_max_is_an_input(value, counts, inputs);
    lemma_min_is_an_input(value, counts, inputs);
    assert forall|k: int| 0 <= k < inputs.len() implies value_of(Operation::Min, inputs)
        <= #[trigger] inputs[k] <= value_of(Operation::Max, inputs) by {
        assert(inputs[k].at_most_spec(value_of(Operation::Max, inputs)));
        assert(value_of(Operation::Min, inputs).at_most_spec(inputs[k]));
    }
}

/// The weights are not negative.
pub open spec fn weighs<N: Scalar>(value: spec_fn(N) -> real, pairs: Seq<(N, N)>) -> bool {
    forall|i: int| 0 <= i < pairs.len() ==> 0real <= value((#[trigger] pairs[i]).1)
}

/// What occurs when a weighted mean is computed counts: the values, the weights,
/// the products and every sum on the way.
pub open spec fn mean_counts<N: Scalar>(counts: spec_fn(N) -> bool, pairs: Seq<(N, N)>) -> bool {
    &&& counts(scalar::zero())
    &&& forall|i: int| 0 <= i < pairs.len() ==> counts((#[trigger] pairs[i]).0)
    &&& arithmetic::adds_up(counts, weights(pairs))
    &&& arithmetic::adds_up(counts, products(pairs))
}

/// The division that ends a weighted mean comes out even.
pub open spec fn mean_is_even<N: Scalar>(value: spec_fn(N) -> real, pairs: Seq<(N, N)>) -> bool {
    arithmetic::is_even(value, scalar::sum_of(products(pairs)), scalar::sum_of(weights(pairs)))
}

proof fn lemma_mean_counts_before<N: Scalar>(counts: spec_fn(N) -> bool, pairs: Seq<(N, N)>)
    requires
        pairs.len() > 0,
        mean_counts(counts, pairs),
    ensures
        mean_counts(counts, pairs.drop_last()),
        weights(pairs).drop_last() == weights(pairs.drop_last()),
        products(pairs).drop_last() == products(pairs.drop_last()),
        counts(pairs.last().0),
        counts(pairs.last().1),
        counts(pairs.last().0.times_spec(pairs.last().1)),
{
    let init = pairs.drop_last();
    assert(weights(pairs).drop_last() =~= weights(init));
    assert(products(pairs).drop_last() =~= products(init));
    assert(weights(pairs).last() == pairs.last().1);
    assert(products(pairs).last() == pairs.last().0.times_spec(pairs.last().1));
    assert(counts(pairs[pairs.len() - 1].0));
    assert forall|i: int| 0 <= i < init.len() implies counts((#[trigger] init[i]).0) by {
        assert(init[i] == pairs[i]);
    }
}

/// The totals of the pairs, one pair at a time.
proof fn lemma_totals_step<N: Scalar>(
    value: spec_fn(N) -> real,
    counts: spec_fn(N) -> bool,
    pairs: Seq<(N, N)>,
)
    requires
        arithmetic::is_exact(value, counts),
        mean_counts(counts, pairs),
        pairs.len() > 0,
    ensures
        mean_counts(counts, pairs.drop_last()),
        arithmetic::total(value, weights(pairs)) == arithmetic::total(
            value,
            weights(pairs.drop_last()),
        ) + value(pairs.last().1),
        arithmetic::total(value, products(pairs)) == arithmetic::total(
            value,
            products(pairs.drop_last()),
        ) + value(pairs.last().0) * value(pairs.last().1),
{
    lemma_mean_counts_before(counts, pairs);
    assert(weights(pairs).last() == pairs.last().1);
    assert(products(pairs).last() == pairs.last().0.times_spec(pairs.last().1));
}

/// The values with a positive weight lie between two numbers.
pub open spec fn lies_between<N: Scalar>(
    value: spec_fn(N) -> real,
    pairs: Seq<(N, N)>,
    low: real,
    high: real,
) -> bool {
    forall|i: int|
        0 <= i < pairs.len() && 0real < value((#[trigger] pairs[i]).1) ==> low <= value(pairs[i].0)
            <= high
}

proof fn lemma_products_between<N: Scalar>(
    value: spec_fn(N) -> real,
    counts: spec_fn(N) -> bool,
    pairs: Seq<(N, N)>,
    low: real,
    high: real,
)
    requires
        arithmetic::is_exact(value, counts),
        mean_counts(counts, pairs),
        weighs(value, pairs),
        lies_between(value, pairs, low, high),
    ensures
        low * arithmetic::total(value, weights(pairs)) <= arithmetic::total(value, products(pairs)),
        arithmetic::total(value, products(pairs)) <= high * arithmetic::total(
            value,
            weights(pairs),
        ),
    decreases pairs.len(),
{
    if pairs.len() == 0 {
        arithmetic::lemma_times_zero(low);
        arithmetic::lemma_times_zero(high);
    } else {
        let init = pairs.drop_last();
        assert forall|i: int| 0 <= i < init.len() && 0real < value((#[trigger] init[i]).1) implies
            low <= value(init[i].0) <= high by {
            assert(init[i] == pairs[i]);
        }
        assert forall|i: int| 0 <= i < init.len() implies 0real <= value(
            (#[trigger] init[i]).1,
        ) by {
            assert(init[i] == pairs[i]);
        }
        lemma_totals_step(value, counts, pairs);
        lemma_products_between(value, counts, init, low, high);
        let w0 = arithmetic::total(value, weights(init));
        let last = pairs[pairs.len() - 1];
        let x = value(last.0);
        let y = value(last.1);
        assert(0real <= y);
        arithmetic::lemma_times_sum(w0, y, low);
        arithmetic::lemma_times_sum(w0, y, high);
        if 0real < y {
            arithmetic::lemma_times_order(low, x, y);
            arithmetic::lemma_times_order(x, high, y);
        } else {
            arithmetic::lemma_times_zero(low);
            arithmetic::lemma_times_zero(high);
            arithmetic::lemma_times_zero(x);
        }
    }
}

proof fn lemma_mean_is_quotient<N: Scalar>(
    value: spec_fn(N) -> real,
    counts: spec_fn(N) -> bool,
    pairs: Seq<(N, N)>,
)
    requires
        arithmetic::is_exact(value, counts),
        mean_counts(counts, pairs),
        mean_is_even(value, pairs),
        weighable(pairs),
    ensures
        0real < arithmetic::total(value, weights(pairs)),
        value(mean_by_weight(pairs)) * arithmetic::total(value, weights(pairs))
            == arithmetic::total(value, products(pairs)),
{
    arithmetic::lemma_sum_is_total(value, counts, weights(pairs));
    arithmetic::lemma_sum_is_total(value, counts, products(pairs));
    assert(counts(scalar::sum_of(weights(pairs))));
}

/// A weighted mean lies between the values that have a positive weight, where
/// no weight is negative and nothing is rounded.
pub proof fn lemma_weighted_mean_between<N: Scalar>(
    value: spec_fn(N) -> real,
    counts: spec_fn(N) -> bool,
    pairs: Seq<(N, N)>,
    low: real,
    high: real,
)
    requires
        arithmetic::is_exact(value, counts),
        mean_counts(counts, pairs),
        mean_is_even(value, pairs),
        weighable(pairs),
        weighs(value, pairs),
        lies_between(value, pairs, low, high),
    ensures
        low <= value(mean_by_weight(pairs)) <= high,
{
    lemma_mean_is_quotient(value, counts, pairs);
    lemma_products_between(value, counts, pairs, low, high);
    let w = arithmetic::total(value, weights(pairs));
    let m = value(mean_by_weight(pairs));
    arithmetic::lemma_times_cancel(low, m, w);
    arithmetic::lemma_times_cancel(m, high, w);
}

/// The same values with weights that are all scaled by one factor.
pub open spec fn is_scaled<N: Scalar>(
    value: spec_fn(N) -> real,
    pairs: Seq<(N, N)>,
    scaled: Seq<(N, N)>,
    factor: real,
) -> bool {
    &&& scaled.len() == pairs.len()
    &&& forall|i: int|
        0 <= i < pairs.len() ==> value((#[trigger] scaled[i]).0) == value(pairs[i].0) && value(
            scaled[i].1,
        ) == factor * value(pairs[i].1)
}

proof fn lemma_totals_scale<N: Scalar>(
    value: spec_fn(N) -> real,
    counts: spec_fn(N) -> bool,
    pairs: Seq<(N, N)>,
    scaled: Seq<(N, N)>,
    factor: real,
)
    requires
        arithmetic::is_exact(value, counts),
        mean_counts(counts, pairs),
        mean_counts(counts, scaled),
        is_scaled(value, pairs, scaled, factor),
    ensures
        arithmetic::total(value, weights(scaled)) == factor * arithmetic::total(
            value,
            weights(pairs),
        ),
        arithmetic::total(value, products(scaled)) == factor * arithmetic::total(
            value,
            products(pairs),
        ),
    decreases pairs.len(),
{
    if pairs.len() == 0 {
        arithmetic::lemma_times_zero(factor);
    } else {
        let n = pairs.len() - 1;
        let init = pairs.drop_last();
        let scaled_init = scaled.drop_last();
        assert forall|i: int| 0 <= i < init.len() implies value((#[trigger] scaled_init[i]).0)
            == value(init[i].0) && value(scaled_init[i].1) == factor * value(init[i].1) by {
            assert(scaled_init[i] == scaled[i]);
        }
        lemma_totals_step(value, counts, pairs);
        lemma_totals_step(value, counts, scaled);
        lemma_totals_scale(value, counts, init, scaled_init, factor);
        let w0 = arithmetic::total(value, weights(init));
        let p0 = arithmetic::total(value, products(init));
        let x = value(pairs[n].0);
        let y = value(pairs[n].1);
        assert(value(scaled[n].0) == x && value(scaled[n].1) == factor * y);
        arithmetic::lemma_times_sum(w0, y, factor);
        arithmetic::lemma_times_sum(p0, x * y, factor);
        arithmetic::lemma_times_commutes(x, factor * y);
        arithmetic::lemma_times_swap(factor, y, x);
        arithmetic::lemma_times_regroup(factor, x, y);
    }
}

/// Weights count by their proportions alone: all of them scaled by one positive
/// factor, the weighted mean stays, where nothing is rounded.
pub proof fn lemma_weighted_mean_scales<N: Scalar>(
    value: spec_fn(N) -> real,
    counts: spec_fn(N) -> bool,
    pairs: Seq<(N, N)>,
    scaled: Seq<(N, N)>,
    factor: real,
)
    requires
        arithmetic::is_exact(value, counts),
        mean_counts(counts, pairs),
        mean_counts(counts, scaled),
        mean_is_even(value, pairs),
        mean_is_even(value, scaled),
        weighable(pairs),
        0real < factor,
        is_scaled(value, pairs, scaled, factor),
    ensures
        weighable(scaled),
        value(mean_by_weight(scaled)) == value(mean_by_weight(pairs)),
{
    lemma_mean_is_quotient(value, counts, pairs);
    lemma_totals_scale(value, counts, pairs, scaled, factor);
    arithmetic::lemma_sum_is_total(value, counts, weights(scaled));
    assert(counts(scalar::sum_of(weights(scaled))));
    let w = arithmetic::total(value, weights(pairs));
    let p = arithmetic::total(value, products(pairs));
    arithmetic::lemma_times_positive(factor, w);
    lemma_mean_is_quotient(value, counts, scaled);
    let m = value(mean_by_weight(pairs));
    let k = value(mean_by_weight(scaled));
    arithmetic::lemma_times_commutes(factor, m * w);
    arithmetic::lemma_times_swap(m, w, factor);
    arithmetic::lemma_times_regroup(m, factor, w);
    assert(k * (factor * w) == m * (factor * w));
    arithmetic::lemma_times_cancel(k, m, factor * w);
    arithmetic::lemma_times_cancel(m, k, factor * w);
}

/// The values of value-weight pairs.
pub open spec fn plain_values<N: Scalar>(pairs: Seq<(N, N)>) -> Seq<N> {
    pairs.map_values(|p: (N, N)| p.0)
}

/// Every pair has the same weight.
pub open spec fn weighs_alike<N: Scalar>(
    value: spec_fn(N) -> real,
    pairs: Seq<(N, N)>,
    weight: real,
) -> bool {
    forall|i: int| 0 <= i < pairs.len() ==> value((#[trigger] pairs[i]).1) == weight
}

proof fn lemma_totals_of_equal_weights<N: Scalar>(
    value: spec_fn(N) -> real,
    counts: spec_fn(N) -> bool,
    pairs: Seq<(N, N)>,
    weight: real,
)
    requires
        arithmetic::is_exact(value, counts),
        mean_counts(counts, pairs),
        weighs_alike(value, pairs, weight),
    ensures
        arithmetic::total(value, weights(pairs)) == weight * (pairs.len() as int as real),
        arithmetic::total(value, products(pairs)) == weight * arithmetic::total(
            value,
            plain_values(pairs),
        ),
    decreases pairs.len(),
{
    if pairs.len() == 0 {
        arithmetic::lemma_times_zero(weight);
    } else {
        let init = pairs.drop_last();
        assert forall|i: int| 0 <= i < init.len() implies value((#[trigger] init[i]).1)
            == weight by {
            assert(init[i] == pairs[i]);
        }
        lemma_totals_step(value, counts, pairs);
        lemma_totals_of_equal_weights(value, counts, init, weight);
        assert(plain_values(pairs).drop_last() =~= plain_values(init));
        let last = pairs[pairs.len() - 1];
        let x = value(last.0);
        assert(value(last.1) == weight);
        arithmetic::lemma_times_sum(init.len() as int as real, 1real, weight);
        arithmetic::lemma_times_one(weight);
        arithmetic::lemma_times_sum(
            arithmetic::total(value, plain_values(init)),
            x,
            weight,
        );
        arithmetic::lemma_times_commutes(weight, x);
    }
}

/// With equal weights a weighted mean is the mean, where nothing is rounded.
pub proof fn lemma_equal_weights_give_the_mean<N: Scalar>(
    value: spec_fn(N) -> real,
    counts: spec_fn(N) -> bool,
    pairs: Seq<(N, N)>,
    weight: real,
)
    requires
        arithmetic::is_exact(value, counts),
        mean_counts(counts, pairs),
        mean_is_even(value, pairs),
        arithmetic::adds_up(counts, plain_values(pairs)),
        counts(N::int_spec(pairs.len() as int)),
        arithmetic::is_even(
            value,
            scalar::sum_of(plain_values(pairs)),
            N::int_spec(pairs.len() as int),
        ),
        pairs.len() > 0,
        0real < weight,
        weighs_alike(value, pairs, weight),
    ensures
        weighable(pairs),
        value(mean_by_weight(pairs)) == value(value_of(Operation::Mean, plain_values(pairs))),
{
    lemma_totals_of_equal_weights(value, counts, pairs, weight);
    arithmetic::lemma_sum_is_total(value, counts, weights(pairs));
    arithmetic::lemma_sum_is_total(value, counts, plain_values(pairs));
    assert(counts(scalar::sum_of(weights(pairs))));
    let n = pairs.len() as int as real;
    let s = arithmetic::total(value, plain_values(pairs));
    assert(0real < n);
    arithmetic::lemma_times_positive(weight, n);
    lemma_mean_is_quotient(value, counts, pairs);
    let m = value(mean_by_weight(pairs));
    let k = value(value_of(Operation::Mean, plain_values(pairs)));
    assert(k * n == s);
    arithmetic::lemma_times_commutes(weight, k * n);
    arithmetic::lemma_times_swap(k, n, weight);
    arithmetic::lemma_times_regroup(k, weight, n);
    assert(m * (weight * n) == k * (weight * n));
    arithmetic::lemma_times_cancel(k, m, weight * n);
    arithmetic::lemma_times_cancel(m, k, weight * n);
}

/// Whole numbers have such means: where no sum or product leaves their range
/// and the quotient is whole, the weighted mean lies between the values that
/// have a positive weight.
pub proof fn lemma_whole_weighted_mean_between(
    pairs: Seq<(i64, i64)>,
    low: i64,
    high: i64,
    quotient: i64,
)
    requires
        mean_counts(arithmetic::within_range(), pairs),
        weighable(pairs),
        scalar::sum_of(products(pairs)) == quotient * scalar::sum_of(weights(pairs)),
        forall|i: int| 0 <= i < pairs.len() ==> 0 <= (#[trigger] pairs[i]).1,
        forall|i: int|
            0 <= i < pairs.len() && 0 < (#[trigger] pairs[i]).1 ==> low <= pairs[i].0 <= high,
    ensures
        mean_by_weight(pairs) == quotient,
        low <= quotient <= high,
{
    let value = arithmetic::whole_value();
    let counts = arithmetic::within_range();
    arithmetic::lemma_whole_numbers_are_exact();
    arithmetic::lemma_whole_quotient(
        scalar::sum_of(products(pairs)),
        scalar::sum_of(weights(pairs)),
        quotient,
    );
    assert(weighs(value, pairs)) by {
        assert forall|i: int| 0 <= i < pairs.len() implies 0real <= value(
            (#[trigger] pairs[i]).1,
        ) by {
            assert(0 <= pairs[i].1);
        }
    }
    assert(lies_between(value, pairs, low as real, high as real)) by {
        assert forall|i: int| 0 <= i < pairs.len() && 0real < value(
            (#[trigger] pairs[i]).1,
        ) implies (low as real) <= value(pairs[i].0) <= (high as real) by {
            assert(0 < pairs[i].1);
        }
    }
    lemma_weighted_mean_between(value, counts, pairs, low as real, high as real);
}

// ---------------------------------------------------------------------
// Operations on numbers
// ---------------------------------------------------------------------

/// Subtraction takes two inputs, and its value is the first less the second:
/// negative where the second is larger, and of the other sign where the
/// inputs change places.
pub proof fn lemma_subtract_is_the_difference<N: Scalar>(
    value: spec_fn(N) -> real,
    counts: spec_fn(N) -> bool,
    first: N,
    second: N,
)
    requires
        arithmetic::is_exact(value, counts),
        counts(first) && counts(second),
        counts(first.minus_spec(second)) && counts(second.minus_spec(first)),
    ensures
        ({
            let difference = value(value_of(Operation::Subtract, seq![first, second]));
            let swapped = value(value_of(Operation::Subtract, seq![second, first]));
            &&& difference == value(first) - value(second)
            &&& (value(first) < value(second) <==> difference < 0real)
            &&& swapped == -difference
        }),
        forall|count: nat| #[trigger] takes(Operation::Subtract, count) <==> count == 2,
{
}

/// Whole numbers are subtracted so as long as the difference is in range.
pub proof fn lemma_whole_numbers_subtract(first: i64, second: i64)
    requires
        i64::MIN <= first - second <= i64::MAX,
    ensures
        value_of(Operation::Subtract, seq![first, second]) == first - second,
{
}

/// The value of a sum is the sum of the inputs, and the mean times the number of
/// inputs is their sum. Either takes any number of inputs but none.
pub proof fn lemma_sum_and_mean<N: Scalar>(
    value: spec_fn(N) -> real,
    counts: spec_fn(N) -> bool,
    inputs: Seq<N>,
)
    requires
        arithmetic::is_exact(value, counts),
        arithmetic::adds_up(counts, inputs),
        counts(N::int_spec(inputs.len() as int)),
        arithmetic::is_even(
            value,
            scalar::sum_of(inputs),
            N::int_spec(inputs.len() as int),
        ),
        inputs.len() > 0,
    ensures
        value(value_of(Operation::Sum, inputs)) == arithmetic::total(value, inputs),
        value(value_of(Operation::Mean, inputs)) * (inputs.len() as int as real)
            == arithmetic::total(value, inputs),
        forall|count: nat| #[trigger] takes(Operation::Sum, count) <==> count > 0,
        forall|count: nat| #[trigger] takes(Operation::Mean, count) <==> count > 0,
{
    arithmetic::lemma_sum_is_total(value, counts, inputs);
}

/// The largest and the smallest of the inputs: either is one of them, and no input
/// is above the one or below the other. Either takes any number of inputs but
/// none.
pub proof fn lemma_largest_and_smallest<N: Scalar>(
    value: spec_fn(N) -> real,
    counts: spec_fn(N) -> bool,
    inputs: Seq<N>,
)
    requires
        inputs.len() > 0,
        arithmetic::orders_as(value, counts),
        forall|k: int| 0 <= k < inputs.len() ==> counts(#[trigger] inputs[k]),
        forall|x: N| counts(x) ==> #[trigger] N::infinity_spec().negate_spec().larger_spec(x) == x,
        forall|x: N| counts(x) ==> #[trigger] N::infinity_spec().smaller_spec(x) == x,
    ensures
        inputs.contains(value_of(Operation::Max, inputs)),
        inputs.contains(value_of(Operation::Min, inputs)),
        forall|k: int|
            0 <= k < inputs.len() ==> value(value_of(Operation::Min, inputs)) <= value(
                #[trigger] inputs[k],
            ) <= value(value_of(Operation::Max, inputs)),
        forall|count: nat| #[trigger] takes(Operation::Max, count) <==> count > 0,
        forall|count: nat| #[trigger] takes(Operation::Min, count) <==> count > 0,
{
    let i = lemma_largest(value, counts, inputs);
    let j = lemma_smallest(value, counts, inputs);
    assert(inputs[i] == value_of(Operation::Max, inputs));
    assert(inputs[j] == value_of(Operation::Min, inputs));
}

/// Every operation has one name and no other text names it.
pub proof fn lemma_operations_have_one_name(name: Seq<char>)
    ensures
        operation_of(name) == Some(Operation::Subtract) <==> name == "subtract"@,
        operation_of(name) == Some(Operation::Sum) <==> name == "sum"@,
        operation_of(name) == Some(Operation::Mean) <==> name == "mean"@,
        operation_of(name) == Some(Operation::Max) <==> name == "max"@,
        operation_of(name) == Some(Operation::Min) <==> name == "min"@,
{
    reveal_strlit("subtract");
    reveal_strlit("sum");
    reveal_strlit("mean");
    reveal_strlit("max");
    reveal_strlit("min");
    assert("subtract"@.len() == 8 && "mean"@.len() == 4);
    assert("sum"@[0] == 's' && "max"@[1] == 'a' && "min"@[1] == 'i' && "max"@[0] == 'm'
        && "min"@[0] == 'm');
}

proof fn lemma_pair_totals<N: Scalar>(
    value: spec_fn(N) -> real,
    counts: spec_fn(N) -> bool,
    pairs: Seq<(N, N)>,
)
    requires
        arithmetic::is_exact(value, counts),
        mean_counts(counts, pairs),
    ensures
        arithmetic::total(value, weights(pairs)) == arithmetic::total(
            |p: (N, N)| value(p.1),
            pairs,
        ),
        arithmetic::total(value, products(pairs)) == arithmetic::total(
            |p: (N, N)| value(p.0) * value(p.1),
            pairs,
        ),
    decreases pairs.len(),
{
    if pairs.len() > 0 {
        lemma_totals_step(value, counts, pairs);
        lemma_pair_totals(value, counts, pairs.drop_last());
    }
}

/// A weighted mean is had of pairs whose weights sum to more than nothing, and of
/// no others. Times the sum of the weights it is the sum of the values, each times
/// its weight.
pub proof fn lemma_weighted_mean_is_the_quotient<N: Scalar>(
    value: spec_fn(N) -> real,
    counts: spec_fn(N) -> bool,
    pairs: Seq<(N, N)>,
)
    requires
        arithmetic::is_exact(value, counts),
        mean_counts(counts, pairs),
        mean_is_even(value, pairs),
    ensures
        weighable(pairs) <==> pairs.len() > 0 && 0real < arithmetic::total(
            |p: (N, N)| value(p.1),
            pairs,
        ),
        weighable(pairs) ==> value(mean_by_weight(pairs)) * arithmetic::total(
            |p: (N, N)| value(p.1),
            pairs,
        ) == arithmetic::total(|p: (N, N)| value(p.0) * value(p.1), pairs),
{
    lemma_pair_totals(value, counts, pairs);
    if pairs.len() > 0 {
        arithmetic::lemma_sum_is_total(value, counts, weights(pairs));
        assert(counts(scalar::sum_of(weights(pairs))));
        assert(value(scalar::zero::<N>()) == 0real);
    }
    if weighable(pairs) {
        lemma_mean_is_quotient(value, counts, pairs);
    }
}

} // verus!
