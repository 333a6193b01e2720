//! The number type that measurements and setpoints are computed with.
//!
//! The gateway's arithmetic is written once, for any type that has the
//! operations below. What is stated of that arithmetic is stated over the
//! operations themselves: which of them are applied to which values, in which
//! order. Nothing is taken for granted of what an operation returns except
//! that it depends on its operands alone, so the statements hold of binary
//! floating point, where addition does not associate, as they hold of
//! integers. A floating-point type may implement the trait if it counts every
//! not-a-number as one value.

use crate::text;
use vstd::prelude::*;

verus! {

/// Nanoseconds in one second.
pub const NANOS_PER_SECOND: u64 = 1_000_000_000;

/// The operations of a number type.
pub enum Operator {
    /// `int_spec`.
    Integer,
    /// `bits_spec`.
    Bits,
    /// `to_bits_spec`.
    ToBits,
    /// `single_spec`.
    Single,
    /// `to_single_spec`.
    ToSingle,
    /// `epsilon_spec`.
    Epsilon,
    /// `infinity_spec`.
    Infinity,
    /// `plus_spec`.
    Plus,
    /// `minus_spec`.
    Minus,
    /// `times_spec`.
    Times,
    /// `over_spec`.
    Over,
    /// `negate_spec`.
    Negate,
    /// `magnitude_spec`.
    Magnitude,
    /// `sign_spec`.
    Sign,
    /// `below_spec`.
    Below,
    /// `at_most_spec`.
    AtMost,
    /// `larger_spec`.
    Larger,
    /// `smaller_spec`.
    Smaller,
    /// `round_spec`.
    Round,
    /// `truncate_spec`.
    Truncate,
    /// `seconds_spec`.
    Seconds,
    /// `to_nanos_spec`.
    ToNanos,
    /// `render_spec`.
    Render,
}

/// Some function of the operands, of which nothing more is known.
pub open spec fn unspecified<A, B>(operator: Operator, operands: A) -> B {
    (choose|f: spec_fn(Operator, A) -> B| #![trigger f(operator, operands)] true)(
        operator,
        operands,
    )
}

/// A number type. Where an implementation says nothing of an operation, the
/// operation is some function of its operands.
pub trait Scalar: Copy {
    /// The number closest to an integer.
    closed spec fn int_spec(n: int) -> Self {
        unspecified(Operator::Integer, n)
    }

    /// The number with a given 64-bit pattern.
    closed spec fn bits_spec(bits: u64) -> Self {
        unspecified(Operator::Bits, bits)
    }

    /// The 64-bit pattern of a number.
    closed spec fn to_bits_spec(self) -> u64 {
        unspecified(Operator::ToBits, self)
    }

    /// The number that a 32-bit single-precision pattern denotes.
    closed spec fn single_spec(bits: u32) -> Self {
        unspecified(Operator::Single, bits)
    }

    /// The single-precision pattern closest to a number.
    closed spec fn to_single_spec(self) -> u32 {
        unspecified(Operator::ToSingle, self)
    }

    /// The smallest step that counts as a change.
    closed spec fn epsilon_spec() -> Self {
        unspecified(Operator::Epsilon, ())
    }

    /// A number above every other.
    closed spec fn infinity_spec() -> Self {
        unspecified(Operator::Infinity, ())
    }

    /// Addition.
    closed spec fn plus_spec(self, other: Self) -> Self {
        unspecified(Operator::Plus, (self, other))
    }

    /// Subtraction.
    closed spec fn minus_spec(self, other: Self) -> Self {
        unspecified(Operator::Minus, (self, other))
    }

    /// Multiplication.
    closed spec fn times_spec(self, other: Self) -> Self {
        unspecified(Operator::Times, (self, other))
    }

    /// Division.
    closed spec fn over_spec(self, other: Self) -> Self {
        unspecified(Operator::Over, (self, other))
    }

    /// Change of sign.
    closed spec fn negate_spec(self) -> Self {
        unspecified(Operator::Negate, self)
    }

    /// Absolute value.
    closed spec fn magnitude_spec(self) -> Self {
        unspecified(Operator::Magnitude, self)
    }

    /// One with the sign of a number.
    closed spec fn sign_spec(self) -> Self {
        unspecified(Operator::Sign, self)
    }

    /// Strictly less than.
    closed spec fn below_spec(self, other: Self) -> bool {
        unspecified(Operator::Below, (self, other))
    }

    /// Less than or equal to.
    closed spec fn at_most_spec(self, other: Self) -> bool {
        unspecified(Operator::AtMost, (self, other))
    }

    /// The larger of two numbers.
    closed spec fn larger_spec(self, other: Self) -> Self {
        unspecified(Operator::Larger, (self, other))
    }

    /// The smaller of two numbers.
    closed spec fn smaller_spec(self, other: Self) -> Self {
        unspecified(Operator::Smaller, (self, other))
    }

    /// The nearest integer, held to the range of the type.
    closed spec fn round_spec(self) -> i64 {
        unspecified(Operator::Round, self)
    }

    /// The integer part, held to the range of the type.
    closed spec fn truncate_spec(self) -> u64 {
        unspecified(Operator::Truncate, self)
    }

    /// A span of time in seconds.
    closed spec fn seconds_spec(nanos: nat) -> Self {
        unspecified(Operator::Seconds, nanos)
    }

    /// A number of seconds as nanoseconds, where it denotes a span of time.
    closed spec fn to_nanos_spec(self) -> Option<nat> {
        unspecified(Operator::ToNanos, self)
    }

    /// Decimal notation.
    closed spec fn render_spec(self) -> Seq<char> {
        unspecified(Operator::Render, self)
    }

    /// The number closest to a signed integer.
    fn from_i64(n: i64) -> (r: Self)
        ensures
            r == Self::int_spec(n as int),
    ;

    /// The number closest to an unsigned integer.
    fn from_u64(n: u64) -> (r: Self)
        ensures
            r == Self::int_spec(n as int),
    ;

    /// The number with a given 64-bit pattern.
    fn from_bits(bits: u64) -> (r: Self)
        ensures
            r == Self::bits_spec(bits),
    ;

    /// The 64-bit pattern of a number, from which the number is recovered.
    fn to_bits(self) -> (r: u64)
        ensures
            r == self.to_bits_spec(),
            Self::bits_spec(r) == self,
    ;

    /// The number that a 32-bit single-precision pattern denotes.
    fn from_single_bits(bits: u32) -> (r: Self)
        ensures
            r == Self::single_spec(bits),
    ;

    /// The single-precision pattern closest to a number.
    fn to_single_bits(self) -> (r: u32)
        ensures
            r == self.to_single_spec(),
    ;

    /// The smallest step that counts as a change.
    fn epsilon() -> (r: Self)
        ensures
            r == Self::epsilon_spec(),
    ;

    /// A number above every other.
    fn infinity() -> (r: Self)
        ensures
            r == Self::infinity_spec(),
    ;

    /// Addition.
    fn plus(self, other: Self) -> (r: Self)
        ensures
            r == self.plus_spec(other),
    ;

    /// Subtraction.
    fn minus(self, other: Self) -> (r: Self)
        ensures
            r == self.minus_spec(other),
    ;

    /// Multiplication.
    fn times(self, other: Self) -> (r: Self)
        ensures
            r == self.times_spec(other),
    ;

    /// Division.
    fn over(self, other: Self) -> (r: Self)
        ensures
            r == self.over_spec(other),
    ;

    /// Change of sign.
    fn negate(self) -> (r: Self)
        ensures
            r == self.negate_spec(),
    ;

    /// Absolute value.
    fn magnitude(self) -> (r: Self)
        ensures
            r == self.magnitude_spec(),
    ;

    /// One with the sign of a number.
    fn sign(self) -> (r: Self)
        ensures
            r == self.sign_spec(),
    ;

    /// Strictly less than.
    fn below(self, other: Self) -> (r: bool)
        ensures
            r == self.below_spec(other),
    ;

    /// Less than or equal to.
    fn at_most(self, other: Self) -> (r: bool)
        ensures
            r == self.at_most_spec(other),
    ;

    /// The larger of two numbers.
    fn larger(self, other: Self) -> (r: Self)
        ensures
            r == self.larger_spec(other),
    ;

    /// The smaller of two numbers.
    fn smaller(self, other: Self) -> (r: Self)
        ensures
            r == self.smaller_spec(other),
    ;

    /// The nearest integer, held to the range of the type.
    fn round(self) -> (r: i64)
        ensures
            r == self.round_spec(),
    ;

    /// The integer part, held to the range of the type.
    fn truncate(self) -> (r: u64)
        ensures
            r == self.truncate_spec(),
    ;

    /// A span of time in seconds.
    fn from_nanos(nanos: u128) -> (r: Self)
        ensures
            r == Self::seconds_spec(nanos as nat),
    ;

    /// A number of seconds as nanoseconds, where it denotes a span of time.
    fn to_nanos(self) -> (r: Option<u128>)
        ensures
            match r {
                Some(n) => self.to_nanos_spec() == Some(n as nat),
                None => self.to_nanos_spec() is None,
            },
    ;

    /// Decimal notation.
    fn render(self) -> (r: String)
        ensures
            r@ == self.render_spec(),
    ;
}

/// An integer held to the 64-bit signed range.
pub open spec fn saturated(n: int) -> i64 {
    if n > i64::MAX {
        i64::MAX
    } else if n < i64::MIN {
        i64::MIN
    } else {
        n as i64
    }
}

/// Absolute value of an integer.
pub open spec fn absolute(n: int) -> nat {
    if n < 0 {
        (-n) as nat
    } else {
        n as nat
    }
}

/// Quotient towards zero; zero where the divisor is zero.
pub open spec fn quotient(a: int, b: int) -> int {
    if b == 0 {
        0
    } else if (a < 0) == (b < 0) {
        (absolute(a) / absolute(b)) as int
    } else {
        -((absolute(a) / absolute(b)) as int)
    }
}

fn saturate(n: i128) -> (r: i64)
    ensures
        r == saturated(n as int),
{
    if n > i64::MAX as i128 {
        i64::MAX
    } else if n < i64::MIN as i128 {
        i64::MIN
    } else {
        n as i64
    }
}

/// Whole numbers, held to the 64-bit range instead of overflowing.
impl Scalar for i64 {
    open spec fn int_spec(n: int) -> i64 {
        saturated(n)
    }

    open spec fn bits_spec(bits: u64) -> i64 {
        bits as i64
    }

    open spec fn to_bits_spec(self) -> u64 {
        self as u64
    }

    open spec fn single_spec(bits: u32) -> i64 {
        bits as i64
    }

    open spec fn to_single_spec(self) -> u32 {
        if self < 0 {
            0
        } else if self > u32::MAX {
            u32::MAX
        } else {
            self as u32
        }
    }

    open spec fn epsilon_spec() -> i64 {
        1
    }

    open spec fn infinity_spec() -> i64 {
        i64::MAX
    }

    open spec fn plus_spec(self, other: i64) -> i64 {
        saturated(self + other)
    }

    open spec fn minus_spec(self, other: i64) -> i64 {
        saturated(self - other)
    }

    open spec fn times_spec(self, other: i64) -> i64 {
        saturated(self * other)
    }

    open spec fn over_spec(self, other: i64) -> i64 {
        saturated(quotient(self as int, other as int))
    }

    open spec fn negate_spec(self) -> i64 {
        saturated(-self)
    }

    open spec fn magnitude_spec(self) -> i64 {
        saturated(absolute(self as int) as int)
    }

    open spec fn sign_spec(self) -> i64 {
        if self < 0 {
            -1i64
        } else {
            1i64
        }
    }

    open spec fn below_spec(self, other: i64) -> bool {
        self < other
    }

    open spec fn at_most_spec(self, other: i64) -> bool {
        self <= other
    }

    open spec fn larger_spec(self, other: i64) -> i64 {
        if self < other {
            other
        } else {
            self
        }
    }

    open spec fn smaller_spec(self, other: i64) -> i64 {
        if other < self {
            other
        } else {
            self
        }
    }

    open spec fn round_spec(self) -> i64 {
        self
    }

    open spec fn truncate_spec(self) -> u64 {
        if self < 0 {
            0
        } else {
            self as u64
        }
    }

    open spec fn seconds_spec(nanos: nat) -> i64 {
        saturated((nanos / 1_000_000_000) as int)
    }

    open spec fn to_nanos_spec(self) -> Option<nat> {
        if self < 0 {
            None
        } else {
            Some((self * 1_000_000_000) as nat)
        }
    }

    open spec fn render_spec(self) -> Seq<char> {
        text::signed_digits(self as int)
    }

    fn from_i64(n: i64) -> (r: i64) {
        n
    }

    fn from_u64(n: u64) -> (r: i64) {
        saturate(n as i128)
    }

    fn from_bits(bits: u64) -> (r: i64) {
        bits as i64
    }

    fn to_bits(self) -> (r: u64) {
        assert((self as u64) as i64 == self) by (bit_vector);
        self as u64
    }

    fn from_single_bits(bits: u32) -> (r: i64) {
        bits as i64
    }

    fn to_single_bits(self) -> (r: u32) {
        if self < 0 {
            0
        } else if self > u32::MAX as i64 {
            u32::MAX
        } else {
            self as u32
        }
    }

    fn epsilon() -> (r: i64) {
        1
    }

    fn infinity() -> (r: i64) {
        i64::MAX
    }

    fn plus(self, other: i64) -> (r: i64) {
        saturate(self as i128 + other as i128)
    }

    fn minus(self, other: i64) -> (r: i64) {
        saturate(self as i128 - other as i128)
    }

    fn times(self, other: i64) -> (r: i64) {
        let a: i128 = self as i128;
        let b: i128 = other as i128;
        assert(-0x4000_0000_0000_0000_0000_0000_0000_0000 <= a * b
            <= 0x4000_0000_0000_0000_0000_0000_0000_0000) by (nonlinear_arith)
            requires
                -0x8000_0000_0000_0000 <= a <= 0x7fff_ffff_ffff_ffff,
                -0x8000_0000_0000_0000 <= b <= 0x7fff_ffff_ffff_ffff,
        ;
        saturate(a * b)
    }

    fn over(self, other: i64) -> (r: i64) {
        if other == 0 {
            return 0;
        }
        let a: u128 = if self < 0 {
            (-(self as i128)) as u128
        } else {
            self as u128
        };
        let b: u128 = if other < 0 {
            (-(other as i128)) as u128
        } else {
            other as u128
        };
        let q: u128 = a / b;
        assert(q <= a) by (nonlinear_arith)
            requires
                b > 0,
                q == a / b,
        ;
        if (self < 0) == (other < 0) {
            saturate(q as i128)
        } else {
            saturate(-(q as i128))
        }
    }

    fn negate(self) -> (r: i64) {
        saturate(-(self as i128))
    }

    fn magnitude(self) -> (r: i64) {
        if self < 0 {
            saturate(-(self as i128))
        } else {
            self
        }
    }

    fn sign(self) -> (r: i64) {
        if self < 0 {
            -1
        } else {
            1
        }
    }

    fn below(self, other: i64) -> (r: bool) {
        self < other
    }

    fn at_most(self, other: i64) -> (r: bool) {
        self <= other
    }

    fn larger(self, other: i64) -> (r: i64) {
        if self < other {
            other
        } else {
            self
        }
    }

    fn smaller(self, other: i64) -> (r: i64) {
        if other < self {
            other
        } else {
            self
        }
    }

    fn round(self) -> (r: i64) {
        self
    }

    fn truncate(self) -> (r: u64) {
        if self < 0 {
            0
        } else {
            self as u64
        }
    }

    fn from_nanos(nanos: u128) -> (r: i64) {
        let seconds: u128 = nanos / 1_000_000_000;
        if seconds > i64::MAX as u128 {
            i64::MAX
        } else {
            seconds as i64
        }
    }

    fn to_nanos(self) -> (r: Option<u128>) {
        if self < 0 {
            None
        } else {
            Some(self as u128 * 1_000_000_000)
        }
    }

    fn render(self) -> (r: String) {
        text::signed_decimal(self)
    }
}

/// The number zero.
pub open spec fn zero<N: Scalar>() -> N {
    N::int_spec(0)
}

/// The number one.
pub open spec fn one<N: Scalar>() -> N {
    N::int_spec(1)
}

/// Hold a number between two bounds.
pub open spec fn clamped<N: Scalar>(value: N, floor: N, ceiling: N) -> N {
    if value.below_spec(floor) {
        floor
    } else if ceiling.below_spec(value) {
        ceiling
    } else {
        value
    }
}

/// Hold `value` between two bounds that are in order.
pub fn clamp<N: Scalar>(value: N, floor: N, ceiling: N) -> (r: N)
    requires
        floor.at_most_spec(ceiling),
    ensures
        r == clamped(value, floor, ceiling),
{
    if value.below(floor) {
        floor
    } else if ceiling.below(value) {
        ceiling
    } else {
        value
    }
}

/// Sum from the left, of one or more numbers.
pub open spec fn sum_of<N: Scalar>(values: Seq<N>) -> N
    decreases values.len(),
{
    if values.len() <= 1 {
        values[0]
    } else {
        sum_of(values.drop_last()).plus_spec(values.last())
    }
}

/// Sum one or more numbers from the left.
pub fn sum<N: Scalar>(values: &[N]) -> (r: N)
    requires
        values@.len() > 0,
    ensures
        r == sum_of(values@),
{
    let mut total: N = values[0];
    let mut i: usize = 1;
    assert(values@.take(1).len() == 1);
    while i < values.len()
        invariant
            1 <= i <= values@.len(),
            total == sum_of(values@.take(i as int)),
        decreases values@.len() - i,
    {
        total = total.plus(values[i]);
        assert(values@.take(i + 1).drop_last() =~= values@.take(i as int));
        i = i + 1;
    }
    assert(values@.take(i as int) =~= values@);
    total
}

} // verus!
