//! Modbus register decode and encode: how a number lies in 16-bit holding
//! registers, by wire width and by register order.

use crate::arithmetic;
use crate::scalar::Scalar;
use vstd::prelude::*;

verus! {

/// Word order for multi-register values.
#[derive(Debug, Clone, Copy, PartialEq, Eq, Structural)]
pub enum WordOrder {
    /// High word first.
    HighLow,
    /// Low word first.
    LowHigh,
}

impl Default for WordOrder {
    fn default() -> (r: WordOrder)
        ensures
            r == WordOrder::HighLow,
    {
        WordOrder::HighLow
    }
}

/// How a binding's registers are read and written. A binding that names no
/// type is `Int32`.
#[derive(Debug, Clone, Copy, PartialEq, Eq, Structural)]
pub enum ModbusDataType {
    /// Signed 16-bit, one register.
    Int16,
    /// Unsigned 16-bit, one register.
    Uint16,
    /// Signed 32-bit, two registers.
    Int32,
    /// Unsigned 32-bit, two registers.
    Uint32,
    /// IEEE-754 single precision, two registers.
    Float32,
}

impl Default for ModbusDataType {
    fn default() -> (r: ModbusDataType)
        ensures
            r == ModbusDataType::Int32,
    {
        ModbusDataType::Int32
    }
}

/// How many registers a type spans.
pub open spec fn width(data_type: ModbusDataType) -> nat {
    match data_type {
        ModbusDataType::Int16 | ModbusDataType::Uint16 => 1,
        _ => 2,
    }
}

impl ModbusDataType {
    /// How many consecutive 16-bit holding registers this type spans.
    pub fn register_count(self) -> (r: u16)
        ensures
            r == width(self),
    {
        match self {
            ModbusDataType::Int16 | ModbusDataType::Uint16 => 1,
            ModbusDataType::Int32 | ModbusDataType::Uint32 | ModbusDataType::Float32 => 2,
        }
    }
}

/// The unsigned number that two registers hold.
pub open spec fn joined(words: Seq<u16>, order: WordOrder) -> int {
    match order {
        WordOrder::HighLow => words[0] * 0x1_0000 + words[1],
        WordOrder::LowHigh => words[1] * 0x1_0000 + words[0],
    }
}

/// The two registers that hold an unsigned 32-bit number.
pub open spec fn parted(value: int, order: WordOrder) -> Seq<u16> {
    let high = (value / 0x1_0000) as u16;
    let low = (value % 0x1_0000) as u16;
    match order {
        WordOrder::HighLow => seq![high, low],
        WordOrder::LowHigh => seq![low, high],
    }
}

/// The signed 32-bit number with the bit pattern of an unsigned one.
pub open spec fn as_signed32(value: int) -> int {
    if value >= 0x8000_0000 {
        value - 0x1_0000_0000
    } else {
        value
    }
}

/// The unsigned 32-bit number with the bit pattern of a signed one.
pub open spec fn as_unsigned32(value: int) -> int {
    if value < 0 {
        value + 0x1_0000_0000
    } else {
        value
    }
}

/// The signed 16-bit number with the bit pattern of an unsigned one.
pub open spec fn as_signed16(value: int) -> int {
    if value >= 0x8000 {
        value - 0x1_0000
    } else {
        value
    }
}

/// The unsigned 16-bit number with the bit pattern of a signed one.
pub open spec fn as_unsigned16(value: int) -> int {
    if value < 0 {
        value + 0x1_0000
    } else {
        value
    }
}

/// An integer held between two bounds.
pub open spec fn held(n: int, low: int, high: int) -> int {
    if n < low {
        low
    } else if n > high {
        high
    } else {
        n
    }
}

/// Decode two consecutive registers as an unsigned 32-bit integer.
pub fn decode_uint32(words: &[u16], order: WordOrder) -> (r: u32)
    requires
        words@.len() >= 2,
    ensures
        r == joined(words@, order),
{
    let (high, low): (u16, u16) = match order {
        WordOrder::HighLow => (words[0], words[1]),
        WordOrder::LowHigh => (words[1], words[0]),
    };
    let h: u32 = high as u32;
    let l: u32 = low as u32;
    assert((h << 16u32) | l == h * 0x1_0000 + l) by (bit_vector)
        requires
            h <= 0xffff,
            l <= 0xffff,
    ;
    (h << 16u32) | l
}

/// Encode an unsigned 32-bit integer as two consecutive registers.
pub fn encode_uint32(value: u32, order: WordOrder) -> (r: [u16; 2])
    ensures
        r@ == parted(value as int, order),
{
    let high: u16 = (value >> 16u32) as u16;
    let low: u16 = (value & 0xffff) as u16;
    assert((value >> 16u32) == value / 0x1_0000) by (bit_vector);
    assert((value & 0xffff) == value % 0x1_0000) by (bit_vector);
    let r: [u16; 2] = match order {
        WordOrder::HighLow => [high, low],
        WordOrder::LowHigh => [low, high],
    };
    assert(r@ =~= parted(value as int, order));
    r
}

/// Decode two consecutive registers as a signed 32-bit integer.
pub fn decode_int32(words: &[u16], order: WordOrder) -> (r: i32)
    requires
        words@.len() >= 2,
    ensures
        r == as_signed32(joined(words@, order)),
{
    let u: u32 = decode_uint32(words, order);
    assert(u < 0x8000_0000u32 ==> (u as i32) as i64 == u as i64) by (bit_vector);
    assert(u >= 0x8000_0000u32 ==> (u as i32) as i64 == u as i64 - 0x1_0000_0000i64)
        by (bit_vector);
    u as i32
}

/// Encode a signed 32-bit integer as two consecutive registers.
pub fn encode_int32(value: i32, order: WordOrder) -> (r: [u16; 2])
    ensures
        r@ == parted(as_unsigned32(value as int), order),
{
    assert(value >= 0i32 ==> (value as u32) as i64 == value as i64) by (bit_vector);
    assert(value < 0i32 ==> (value as u32) as i64 == value as i64 + 0x1_0000_0000i64)
        by (bit_vector);
    encode_uint32(value as u32, order)
}

/// The raw number that registers hold, by type and order.
pub open spec fn decoded<N: Scalar>(
    words: Seq<u16>,
    data_type: ModbusDataType,
    order: WordOrder,
) -> N {
    match data_type {
        ModbusDataType::Uint16 => N::int_spec(words[0] as int),
        ModbusDataType::Int16 => N::int_spec(as_signed16(words[0] as int)),
        ModbusDataType::Int32 => N::int_spec(as_signed32(joined(words, order))),
        ModbusDataType::Uint32 => N::int_spec(joined(words, order)),
        ModbusDataType::Float32 => N::single_spec(joined(words, order) as u32),
    }
}

/// The registers of a raw number, by type and order. Integer types take the
/// nearest integer, held to the range of the type.
pub open spec fn encoded<N: Scalar>(raw: N, data_type: ModbusDataType, order: WordOrder) -> Seq<
    u16,
> {
    let n = raw.round_spec() as int;
    match data_type {
        ModbusDataType::Uint16 => seq![held(n, 0, 0xffff) as u16],
        ModbusDataType::Int16 => seq![as_unsigned16(held(n, -0x8000, 0x7fff)) as u16],
        ModbusDataType::Int32 => parted(
            as_unsigned32(held(n, -0x8000_0000, 0x7fff_ffff)),
            order,
        ),
        ModbusDataType::Uint32 => parted(held(n, 0, 0xffff_ffff), order),
        ModbusDataType::Float32 => parted(raw.to_single_spec() as int, order),
    }
}

/// Decode a measurement's raw number by its data type.
pub fn decode_raw<N: Scalar>(words: &[u16], data_type: ModbusDataType, order: WordOrder) -> (r: N)
    requires
        words@.len() >= width(data_type),
    ensures
        r == decoded::<N>(words@, data_type, order),
{
    match data_type {
        ModbusDataType::Uint16 => N::from_u64(words[0] as u64),
        ModbusDataType::Int16 => {
            let w: u16 = words[0];
            assert(w < 0x8000u16 ==> (w as i16) as i64 == w as i64) by (bit_vector);
            assert(w >= 0x8000u16 ==> (w as i16) as i64 == w as i64 - 0x1_0000i64)
                by (bit_vector);
            N::from_i64((w as i16) as i64)
        },
        ModbusDataType::Int32 => N::from_i64(decode_int32(words, order) as i64),
        ModbusDataType::Uint32 => N::from_u64(decode_uint32(words, order) as u64),
        ModbusDataType::Float32 => N::from_single_bits(decode_uint32(words, order)),
    }
}

fn hold(n: i64, low: i64, high: i64) -> (r: i64)
    ensures
        r == held(n as int, low as int, high as int),
{
    if n < low {
        low
    } else if n > high {
        high
    } else {
        n
    }
}

fn pair_of(words: [u16; 2]) -> (r: Vec<u16>)
    ensures
        r@ == words@,
{
    let mut r: Vec<u16> = Vec::new();
    r.push(words[0]);
    r.push(words[1]);
    assert(r@ =~= words@);
    r
}

fn single_of(word: u16) -> (r: Vec<u16>)
    ensures
        r@ == seq![word],
{
    let mut r: Vec<u16> = Vec::new();
    r.push(word);
    assert(r@ =~= seq![word]);
    r
}

/// Encode a raw number into the registers that its data type spans.
pub fn encode_raw<N: Scalar>(raw: N, data_type: ModbusDataType, order: WordOrder) -> (r: Vec<u16>)
    ensures
        r@ == encoded(raw, data_type, order),
        r@.len() == width(data_type),
{
    match data_type {
        ModbusDataType::Uint16 => single_of(hold(raw.round(), 0, 0xffff) as u16),
        ModbusDataType::Int16 => {
            let v: i16 = hold(raw.round(), -0x8000, 0x7fff) as i16;
            assert(v >= 0i16 ==> (v as u16) as i64 == v as i64) by (bit_vector);
            assert(v < 0i16 ==> (v as u16) as i64 == v as i64 + 0x1_0000i64) by (bit_vector);
            single_of(v as u16)
        },
        ModbusDataType::Int32 => pair_of(
            encode_int32(hold(raw.round(), -0x8000_0000, 0x7fff_ffff) as i32, order),
        ),
        ModbusDataType::Uint32 => pair_of(
            encode_uint32(hold(raw.round(), 0, 0xffff_ffff) as u32, order),
        ),
        ModbusDataType::Float32 => pair_of(encode_uint32(raw.to_single_bits(), order)),
    }
}

/// The engineering value of a raw reading.
pub open spec fn scaled<N: Scalar>(raw: N, scale: N, offset: N) -> N {
    raw.times_spec(scale).plus_spec(offset)
}

/// The raw value of an engineering setpoint.
pub open spec fn unscaled<N: Scalar>(value: N, scale: N, offset: N) -> N {
    value.minus_spec(offset).over_spec(scale)
}

/// Apply scale and offset to a raw reading.
pub fn apply_scale_offset<N: Scalar>(raw: N, scale: N, offset: N) -> (r: N)
    ensures
        r == scaled(raw, scale, offset),
{
    raw.times(scale).plus(offset)
}

/// Turn an engineering setpoint back into the raw value that a write puts on
/// the wire.
pub fn to_raw<N: Scalar>(value: N, scale: N, offset: N) -> (r: N)
    ensures
        r == unscaled(value, scale, offset),
{
    value.minus(offset).over(scale)
}

/// Two registers give back the unsigned number that was put in them, in
/// either order.
pub proof fn lemma_uint32_round_trip(value: u32, order: WordOrder)
    ensures
        parted(value as int, order).len() == 2,
        joined(parted(value as int, order), order) == value,
{
}

/// Two registers give back the signed number that was put in them, in either
/// order.
pub proof fn lemma_int32_round_trip(value: i32, order: WordOrder)
    ensures
        as_signed32(joined(parted(as_unsigned32(value as int), order), order)) == value,
{
}

/// Every pair of registers is the encoding of the number that it decodes to.
pub proof fn lemma_uint32_decode_encode(words: Seq<u16>, order: WordOrder)
    requires
        words.len() == 2,
    ensures
        0 <= joined(words, order) <= u32::MAX,
        parted(joined(words, order), order) == words,
{
    assert(parted(joined(words, order), order) =~= words);
}

/// Whether a data type can hold a raw number without loss: an integer type
/// holds the integers of its range, single precision what it denotes exactly.
pub open spec fn fits<N: Scalar>(raw: N, data_type: ModbusDataType) -> bool {
    let n = raw.round_spec() as int;
    match data_type {
        ModbusDataType::Uint16 => N::int_spec(n) == raw && 0 <= n <= 0xffff,
        ModbusDataType::Int16 => N::int_spec(n) == raw && -0x8000 <= n <= 0x7fff,
        ModbusDataType::Int32 => N::int_spec(n) == raw && -0x8000_0000 <= n <= 0x7fff_ffff,
        ModbusDataType::Uint32 => N::int_spec(n) == raw && 0 <= n <= 0xffff_ffff,
        ModbusDataType::Float32 => N::single_spec(raw.to_single_spec()) == raw,
    }
}

/// A raw number that its data type can hold is read back as it was written.
pub proof fn lemma_raw_round_trip<N: Scalar>(raw: N, data_type: ModbusDataType, order: WordOrder)
    requires
        fits(raw, data_type),
    ensures
        decoded::<N>(encoded(raw, data_type, order), data_type, order) == raw,
{
    lemma_uint32_round_trip(raw.to_single_spec(), order);
}

/// Registers are written back as they were read, by every data type, where the
/// number type gives back the integers and the single-precision pattern that
/// it was given.
pub proof fn lemma_registers_round_trip<N: Scalar>(
    words: Seq<u16>,
    data_type: ModbusDataType,
    order: WordOrder,
)
    requires
        words.len() == width(data_type),
        data_type != ModbusDataType::Float32 ==> forall|n: int|
            -0x8000_0000 <= n <= 0xffff_ffff ==> (#[trigger] N::int_spec(n)).round_spec() == n,
        data_type == ModbusDataType::Float32 ==> N::single_spec(
            joined(words, order) as u32,
        ).to_single_spec() == joined(words, order),
    ensures
        encoded(decoded::<N>(words, data_type, order), data_type, order) == words,
{
    if width(data_type) == 2 {
        lemma_uint32_decode_encode(words, order);
        let n = joined(words, order);
        assert(as_unsigned32(as_signed32(n)) == n);
    } else {
        let w = words[0] as int;
        assert(as_unsigned16(as_signed16(w)) == w);
        assert(encoded(decoded::<N>(words, data_type, order), data_type, order) =~= words);
    }
}

/// Whole numbers give back the integers and the patterns they are given.
pub proof fn lemma_whole_numbers_keep_registers(
    words: Seq<u16>,
    data_type: ModbusDataType,
    order: WordOrder,
)
    requires
        words.len() == width(data_type),
    ensures
        encoded(decoded::<i64>(words, data_type, order), data_type, order) == words,
{
    if width(data_type) == 2 {
        lemma_uint32_decode_encode(words, order);
    }
    lemma_registers_round_trip::<i64>(words, data_type, order);
}

/// A setpoint is scaled back to the raw value that a reading was scaled from,
/// where nothing is rounded on the way there and back.
pub proof fn lemma_scaling_round_trip<N: Scalar>(
    value: spec_fn(N) -> real,
    counts: spec_fn(N) -> bool,
    raw: N,
    scale: N,
    offset: N,
)
    requires
        arithmetic::is_exact(value, counts),
        counts(raw) && counts(scale) && counts(offset),
        counts(raw.times_spec(scale)),
        counts(scaled(raw, scale, offset)),
        counts(scaled(raw, scale, offset).minus_spec(offset)),
        arithmetic::is_even(value, scaled(raw, scale, offset).minus_spec(offset), scale),
    ensures
        value(unscaled(scaled(raw, scale, offset), scale, offset)) == value(raw),
{
    let x = value(raw);
    let k = value(scale);
    let q = value(unscaled(scaled(raw, scale, offset), scale, offset));
    assert(q * k == x * k);
    if 0real < k {
        arithmetic::lemma_times_cancel(q, x, k);
        arithmetic::lemma_times_cancel(x, q, k);
    } else {
        arithmetic::lemma_times_negated(q, k);
        arithmetic::lemma_times_negated(x, k);
        arithmetic::lemma_times_cancel(q, x, -k);
        arithmetic::lemma_times_cancel(x, q, -k);
    }
}

/// Whole numbers are scaled back as they were, by every scale but zero, where
/// nothing leaves their range.
pub proof fn lemma_whole_scaling_round_trip(raw: i64, scale: i64, offset: i64)
    requires
        scale != 0,
        i64::MIN < raw * scale < i64::MAX,
        i64::MIN < raw * scale + offset < i64::MAX,
    ensures
        unscaled(scaled(raw, scale, offset), scale, offset) == raw,
{
    arithmetic::lemma_whole_quotient((raw * scale) as i64, scale, raw);
}

/// What two registers hold by the 32-bit types: the number whose high word comes
/// first or last, as the order says. A signed number is the one of its range that
/// has the same remainder.
pub proof fn lemma_words_make_numbers<N: Scalar>(high: u16, low: u16, signed: int)
    requires
        -0x8000_0000 <= signed < 0x8000_0000,
        (signed - (high * 0x1_0000 + low)) % 0x1_0000_0000 == 0,
    ensures
        decoded::<N>(seq![high, low], ModbusDataType::Uint32, WordOrder::HighLow) == N::int_spec(
            high * 0x1_0000 + low,
        ),
        decoded::<N>(seq![low, high], ModbusDataType::Uint32, WordOrder::LowHigh) == N::int_spec(
            high * 0x1_0000 + low,
        ),
        decoded::<N>(seq![high, low], ModbusDataType::Int32, WordOrder::HighLow) == N::int_spec(
            signed,
        ),
        decoded::<N>(seq![low, high], ModbusDataType::Int32, WordOrder::LowHigh) == N::int_spec(
            signed,
        ),
        decoded::<N>(seq![high, low], ModbusDataType::Float32, WordOrder::HighLow)
            == N::single_spec((high * 0x1_0000 + low) as u32),
        decoded::<N>(seq![low, high], ModbusDataType::Float32, WordOrder::LowHigh)
            == N::single_spec((high * 0x1_0000 + low) as u32),
{
}

/// What one register holds by the 16-bit types, in either order. A signed number is
/// the one of its range that has the same remainder.
pub proof fn lemma_word_makes_number<N: Scalar>(word: u16, order: WordOrder, signed: int)
    requires
        -0x8000 <= signed < 0x8000,
        (signed - word) % 0x1_0000 == 0,
    ensures
        decoded::<N>(seq![word], ModbusDataType::Uint16, order) == N::int_spec(word as int),
        decoded::<N>(seq![word], ModbusDataType::Int16, order) == N::int_spec(signed),
{
}

/// Integers of a type's range are put into registers as what they are: read by the
/// same type and order they come out again. Those beyond the range are put there
/// as the end of it that they are beyond.
pub proof fn lemma_integers_are_put<N: Scalar>(raw: N, order: WordOrder)
    ensures
        ({
            let n = raw.round_spec() as int;
            let read = |t: ModbusDataType| decoded::<N>(encoded(raw, t, order), t, order);
            &&& n <= 0 ==> read(ModbusDataType::Uint16) == N::int_spec(0)
            &&& 0 <= n <= 65_535 ==> read(ModbusDataType::Uint16) == N::int_spec(n)
            &&& 65_535 <= n ==> read(ModbusDataType::Uint16) == N::int_spec(65_535)
            &&& n <= -32_768 ==> read(ModbusDataType::Int16) == N::int_spec(-32_768)
            &&& -32_768 <= n <= 32_767 ==> read(ModbusDataType::Int16) == N::int_spec(n)
            &&& 32_767 <= n ==> read(ModbusDataType::Int16) == N::int_spec(32_767)
            &&& n <= -2_147_483_648 ==> read(ModbusDataType::Int32) == N::int_spec(
                -2_147_483_648,
            )
            &&& -2_147_483_648 <= n <= 2_147_483_647 ==> read(ModbusDataType::Int32)
                == N::int_spec(n)
            &&& 2_147_483_647 <= n ==> read(ModbusDataType::Int32) == N::int_spec(2_147_483_647)
            &&& n <= 0 ==> read(ModbusDataType::Uint32) == N::int_spec(0)
            &&& 0 <= n <= 4_294_967_295 ==> read(ModbusDataType::Uint32) == N::int_spec(n)
            &&& 4_294_967_295 <= n ==> read(ModbusDataType::Uint32) == N::int_spec(4_294_967_295)
        }),
{
}

/// Words change places with the order, and nothing else does.
pub proof fn lemma_orders_are_reverses<N: Scalar>(raw: N, data_type: ModbusDataType)
    ensures
        ({
            let first = encoded(raw, data_type, WordOrder::HighLow);
            let last = encoded(raw, data_type, WordOrder::LowHigh);
            &&& first.len() == width(data_type) && last.len() == width(data_type)
            &&& data_type is Int16 || data_type is Uint16 ==> first.len() == 1 && first == last
            &&& data_type is Int32 || data_type is Uint32 || data_type is Float32 ==> first.len()
                == 2 && first[0] == last[1] && first[1] == last[0]
        }),
{
}

/// A reading is scaled and then offset, and a setpoint's raw value is the one that
/// reads as the setpoint.
pub proof fn lemma_scaling_in_numbers<N: Scalar>(
    value: spec_fn(N) -> real,
    counts: spec_fn(N) -> bool,
    raw: N,
    setpoint: N,
    scale: N,
    offset: N,
)
    requires
        arithmetic::is_exact(value, counts),
        counts(raw) && counts(setpoint) && counts(scale) && counts(offset),
        counts(raw.times_spec(scale)) && counts(raw.times_spec(scale).plus_spec(offset)),
        counts(setpoint.minus_spec(offset)),
        arithmetic::is_even(value, setpoint.minus_spec(offset), scale),
    ensures
        value(scaled(raw, scale, offset)) == value(raw) * value(scale) + value(offset),
        value(unscaled(setpoint, scale, offset)) * value(scale) + value(offset) == value(setpoint),
{
}

} // verus!
