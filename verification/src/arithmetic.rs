//! Order and exact arithmetic of number types.
//!
//! What the gateway does is stated of every number type alike. Some laws need
//! more of the type: that it orders its numbers as numbers are ordered, or that
//! its arithmetic does not round. Those laws name the number that a value of the
//! type stands for, and ask for the facts below.

use crate::scalar;
use crate::scalar::Scalar;
use vstd::prelude::*;

verus! {

/// The values that count are ordered by the numbers they stand for: the
/// comparisons compare these numbers, and the larger and the smaller of two
/// values are one of the two.
pub open spec fn orders_as<N: Scalar>(
    value: spec_fn(N) -> real,
    counts: spec_fn(N) -> bool,
) -> bool {
    &&& forall|a: N, b: N|
        counts(a) && counts(b) ==> (#[trigger] a.at_most_spec(b) <==> value(a) <= value(b))
    &&& forall|a: N, b: N|
        counts(a) && counts(b) ==> (#[trigger] a.below_spec(b) <==> value(a) < value(b))
    &&& forall|a: N, b: N|
        counts(a) && counts(b) ==> {
            let larger = #[trigger] a.larger_spec(b);
            &&& larger == a || larger == b
            &&& value(a) <= value(larger)
            &&& value(b) <= value(larger)
        }
    &&& forall|a: N, b: N|
        counts(a) && counts(b) ==> {
            let smaller = #[trigger] a.smaller_spec(b);
            &&& smaller == a || smaller == b
            &&& value(smaller) <= value(a)
            &&& value(smaller) <= value(b)
        }
}

/// Every value counts.
pub open spec fn always<N>() -> spec_fn(N) -> bool {
    |n: N| true
}

/// Among the values that count, the arithmetic does not round: where the operands
/// of an operation count and its result does, the result is the number that the
/// operation on numbers gives. Integers that count stand for themselves, and the
/// values that count are ordered by the numbers they stand for. Which values
/// count is for a law to say: those that occur in what it speaks of.
pub open spec fn is_exact<N: Scalar>(
    value: spec_fn(N) -> real,
    counts: spec_fn(N) -> bool,
) -> bool {
    &&& orders_as(value, counts)
    &&& forall|n: int|
        counts(#[trigger] N::int_spec(n)) ==> value(N::int_spec(n)) == n as real
    &&& forall|a: N, b: N|
        counts(a) && counts(b) && counts(#[trigger] a.plus_spec(b)) ==> value(a.plus_spec(b))
            == value(a) + value(b)
    &&& forall|a: N, b: N|
        counts(a) && counts(b) && counts(#[trigger] a.minus_spec(b)) ==> value(a.minus_spec(b))
            == value(a) - value(b)
    &&& forall|a: N, b: N|
        counts(a) && counts(b) && counts(#[trigger] a.times_spec(b)) ==> value(a.times_spec(b))
            == value(a) * value(b)
    &&& forall|a: N|
        counts(a) && counts(#[trigger] a.magnitude_spec()) ==> value(a.magnitude_spec())
            == magnitude(value(a))
    &&& forall|a: N|
        counts(a) && counts(#[trigger] a.sign_spec()) && 0real < value(a) ==> value(a.sign_spec())
            == 1real
    &&& forall|a: N|
        counts(a) && counts(#[trigger] a.sign_spec()) && value(a) < 0real ==> value(a.sign_spec())
            == -1real
    &&& 0real < value(N::epsilon_spec())
}

/// A division comes out even: the quotient times the divisor is the dividend.
pub open spec fn is_even<N: Scalar>(value: spec_fn(N) -> real, a: N, b: N) -> bool {
    value(b) != 0real && value(a.over_spec(b)) * value(b) == value(a)
}

/// Every value of a sum counts, and every sum on the way to it.
pub open spec fn adds_up<N: Scalar>(counts: spec_fn(N) -> bool, values: Seq<N>) -> bool
    decreases values.len(),
{
    if values.len() == 0 {
        true
    } else {
        &&& counts(values.last())
        &&& counts(scalar::sum_of(values))
        &&& adds_up(counts, values.drop_last())
    }
}

/// Absolute value of a number.
pub open spec fn magnitude(x: real) -> real {
    if x < 0real {
        -x
    } else {
        x
    }
}

/// The sum of the numbers that some values stand for.
pub open spec fn total<N>(value: spec_fn(N) -> real, values: Seq<N>) -> real
    decreases values.len(),
{
    if values.len() == 0 {
        0real
    } else {
        total(value, values.drop_last()) + value(values.last())
    }
}

/// A sum of values stands for the sum of the numbers, where nothing on the way
/// to it is rounded.
pub proof fn lemma_sum_is_total<N: Scalar>(
    value: spec_fn(N) -> real,
    counts: spec_fn(N) -> bool,
    values: Seq<N>,
)
    requires
        is_exact(value, counts),
        adds_up(counts, values),
        values.len() > 0,
    ensures
        value(scalar::sum_of(values)) == total(value, values),
    decreases values.len(),
{
    if values.len() > 1 {
        lemma_sum_is_total(value, counts, values.drop_last());
        assert(counts(scalar::sum_of(values.drop_last())));
    } else {
        assert(total(value, values.drop_last()) == 0real);
    }
}

/// Multiplying by a number that is not negative keeps the order.
pub(crate) proof fn lemma_times_order(a: real, b: real, c: real)
    by (nonlinear_arith)
    requires
        a <= b,
        0real <= c,
    ensures
        a * c <= b * c,
{
}

/// A positive factor on both sides can be left out.
pub(crate) proof fn lemma_times_cancel(a: real, b: real, c: real)
    by (nonlinear_arith)
    requires
        a * c <= b * c,
        0real < c,
    ensures
        a <= b,
{
}

/// The order of two factors does not matter.
pub(crate) proof fn lemma_times_commutes(a: real, b: real)
    by (nonlinear_arith)
    ensures
        a * b == b * a,
{
}

/// Factors change places.
pub(crate) proof fn lemma_times_swap(a: real, b: real, c: real)
    by (nonlinear_arith)
    ensures
        (a * b) * c == (a * c) * b,
{
}

/// Nothing times anything is nothing.
pub(crate) proof fn lemma_times_zero(a: real)
    by (nonlinear_arith)
    ensures
        a * 0real == 0real,
        0real * a == 0real,
{
}

/// A product of sums of two.
pub(crate) proof fn lemma_times_sum(a: real, b: real, c: real)
    by (nonlinear_arith)
    ensures
        (a + b) * c == a * c + b * c,
        c * (a + b) == c * a + c * b,
{
}

/// Factors can be grouped either way.
pub(crate) proof fn lemma_times_regroup(a: real, b: real, c: real)
    by (nonlinear_arith)
    ensures
        (a * b) * c == a * (b * c),
{
}

/// A factor's sign is the product's.
pub(crate) proof fn lemma_times_negated(a: real, b: real)
    by (nonlinear_arith)
    ensures
        a * -b == -(a * b),
{
}

/// One times a number is the number.
pub(crate) proof fn lemma_times_one(a: real)
    by (nonlinear_arith)
    ensures
        a * 1real == a,
        1real * a == a,
        a * -1real == -a,
{
}

/// A product of two positive numbers is positive.
pub(crate) proof fn lemma_times_positive(a: real, b: real)
    by (nonlinear_arith)
    requires
        0real < a,
        0real < b,
    ensures
        0real < a * b,
{
}

/// A product of two numbers that are not negative is not negative.
pub(crate) proof fn lemma_times_not_negative(a: real, b: real)
    by (nonlinear_arith)
    requires
        0real <= a,
        0real <= b,
    ensures
        0real <= a * b,
{
}

/// Whole numbers are ordered as the numbers they are.
pub proof fn lemma_integers_are_ordered()
    ensures
        orders_as(|n: i64| n as real, always::<i64>()),
{
}

/// The number that a whole number is.
pub open spec fn whole_value() -> spec_fn(i64) -> real {
    |n: i64| n as real
}

/// The whole numbers that no operation was held to the range for.
pub open spec fn within_range() -> spec_fn(i64) -> bool {
    |n: i64| i64::MIN < n < i64::MAX
}

proof fn lemma_product_of_integers(a: int, b: int)
    by (nonlinear_arith)
    ensures
        (a * b) as real == (a as real) * (b as real),
{
}

/// The arithmetic of whole numbers does not round within their range.
pub proof fn lemma_whole_numbers_are_exact()
    ensures
        is_exact(whole_value(), within_range()),
{
    let value = whole_value();
    let counts = within_range();
    assert forall|a: i64, b: i64|
        counts(a) && counts(b) && counts(#[trigger] a.times_spec(b)) implies value(
        a.times_spec(b),
    ) == value(a) * value(b) by {
        lemma_product_of_integers(a as int, b as int);
    }
}

/// A division of whole numbers that has a whole quotient comes out even.
pub proof fn lemma_whole_quotient(a: i64, b: i64, q: i64)
    requires
        b != 0,
        a == q * b,
    ensures
        a.over_spec(b) == q,
        is_even(whole_value(), a, b),
{
    let x = scalar::absolute(a as int) as int;
    let y = scalar::absolute(b as int) as int;
    let z = scalar::absolute(q as int) as int;
    vstd::arithmetic::mul::lemma_mul_unary_negation(q as int, b as int);
    vstd::arithmetic::mul::lemma_mul_unary_negation(-q, b as int);
    vstd::arithmetic::mul::lemma_mul_strictly_positive(z, y);
    assert(x == z * y);
    vstd::arithmetic::mul::lemma_mul_is_commutative(z, y);
    vstd::arithmetic::div_mod::lemma_div_multiples_vanish(z, y);
    assert(scalar::quotient(a as int, b as int) == q);
    lemma_product_of_integers(q as int, b as int);
}

/// A change of sign is exact: where a value and its negation count, the one
/// stands for the other's negative.
pub open spec fn negates<N: Scalar>(
    value: spec_fn(N) -> real,
    counts: spec_fn(N) -> bool,
) -> bool {
    forall|a: N|
        counts(a) && counts(#[trigger] a.negate_spec()) ==> value(a.negate_spec()) == -value(a)
}

/// Infinity is beyond every value that counts, on either side, however far from
/// it one is.
pub open spec fn is_boundless<N: Scalar>(counts: spec_fn(N) -> bool) -> bool {
    let top = N::infinity_spec();
    let bottom = N::infinity_spec().negate_spec();
    &&& forall|a: N| counts(a) ==> !(#[trigger] top.below_spec(a))
    &&& forall|a: N| counts(a) ==> !(#[trigger] a.below_spec(bottom))
    &&& forall|a: N| counts(a) ==> (#[trigger] a.at_most_spec(top))
    &&& forall|a: N| counts(a) ==> (#[trigger] bottom.at_most_spec(a))
    &&& bottom.at_most_spec(top)
    &&& forall|a: N, b: N|
        counts(a) && counts(b) ==> !(#[trigger] top.minus_spec(a).at_most_spec(b))
    &&& forall|a: N, b: N|
        counts(a) && counts(b) ==> !(#[trigger] a.minus_spec(bottom).at_most_spec(b))
    &&& forall|a: N, b: N|
        counts(a) && counts(b) ==> (#[trigger] b.at_most_spec(top.minus_spec(a)))
    &&& forall|a: N, b: N|
        counts(a) && counts(b) ==> (#[trigger] b.at_most_spec(a.minus_spec(bottom)))
}

/// Whole numbers a good deal smaller than the largest one.
pub open spec fn moderate() -> spec_fn(i64) -> bool {
    |n: i64| -0x1000_0000_0000_0000 <= n <= 0x1000_0000_0000_0000
}

/// Whole numbers of moderate size are computed with exactly, negated exactly, and
/// far from infinity.
pub proof fn lemma_moderate_numbers_are_exact()
    ensures
        is_exact(whole_value(), moderate()),
        negates(whole_value(), moderate()),
        is_boundless::<i64>(moderate()),
{
    lemma_whole_numbers_are_exact();
    assert forall|n: i64| #[trigger] moderate()(n) implies within_range()(n) by {}
    assert forall|a: i64, b: i64|
        moderate()(a) && moderate()(b) && moderate()(#[trigger] a.times_spec(b)) implies
        whole_value()(a.times_spec(b)) == whole_value()(a) * whole_value()(b) by {
        lemma_product_of_integers(a as int, b as int);
    }
}

/// The integer part of a value that counts and is not negative is the largest
/// integer that is not above it.
pub open spec fn truncates<N: Scalar>(
    value: spec_fn(N) -> real,
    counts: spec_fn(N) -> bool,
) -> bool {
    forall|a: N|
        counts(a) && 0real <= value(a) ==> (#[trigger] a.truncate_spec()) as int as real <= value(a)
            < a.truncate_spec() as int as real + 1real
}

/// Multiplying by a positive number keeps the strict order.
pub(crate) proof fn lemma_times_below(a: real, b: real, c: real)
    by (nonlinear_arith)
    requires
        a < b,
        0real < c,
    ensures
        a * c < b * c,
{
}

/// A number of seconds that counts and is not negative denotes a span of time, to
/// the nanosecond.
pub open spec fn tells_nanos<N: Scalar>(
    value: spec_fn(N) -> real,
    counts: spec_fn(N) -> bool,
) -> bool {
    forall|a: N|
        counts(a) && 0real <= value(a) ==> {
            let nanos = #[trigger] a.to_nanos_spec();
            &&& nanos is Some
            &&& magnitude((nanos->0) as int as real - value(a) * 1_000_000_000real) <= 1real
        }
}

/// Whole numbers give their integer part, their nearest integer and their pattern as what
/// they are, and count seconds in whole ones.
pub proof fn lemma_whole_numbers_are_themselves(n: i64, seconds: nat)
    ensures
        n.round_spec() == n,
        0 <= n ==> n.truncate_spec() == n,
        0 <= n ==> n.to_nanos_spec() == Some((n * 1_000_000_000) as nat),
        n < 0 ==> n.to_nanos_spec() is None,
        seconds < i64::MAX ==> i64::seconds_spec(seconds * 1_000_000_000) == seconds,
        truncates(whole_value(), within_range()),
        tells_nanos(whole_value(), within_range()),
{
    vstd::arithmetic::div_mod::lemma_div_multiples_vanish(seconds as int, 1_000_000_000);
    vstd::arithmetic::mul::lemma_mul_is_commutative(seconds as int, 1_000_000_000);
    assert forall|a: i64|
        within_range()(a) && 0real <= whole_value()(a) implies ({
        let nanos = #[trigger] a.to_nanos_spec();
        &&& nanos is Some
        &&& magnitude((nanos->0) as int as real - whole_value()(a) * 1_000_000_000real) <= 1real
    }) by {
        lemma_product_of_integers(a as int, 1_000_000_000);
    }
}

} // verus!
