//! Modbus reads and writes, from a binding to the registers on the wire.

use crate::arithmetic;
use crate::asyncapi::trust::DeviceTrust;
use crate::asyncapi::types::ModbusTcpBinding;
use crate::config::GatewayCredentials;
use crate::error::{failure, failure_of, GatewayError};
use crate::modbus::codec;
use crate::modbus::codec::{apply_scale_offset, decode_raw, encode_raw, to_raw};
use crate::scalar;
use crate::scalar::Scalar;
use crate::text;
use crate::text::parse_unsigned;
use vstd::prelude::*;

verus! {

/// How a device is dialled.
#[derive(Debug)]
pub enum Dial {
    /// Without transport security.
    Plain,
    /// Mutual TLS.
    Tls {
        /// Subject name that the device's certificate must present.
        subject_name: String,
        /// The gateway's material.
        creds: GatewayCredentials,
    },
}

/// Mutual TLS is dialled where the device asks for it and the gateway has the
/// material; anything else is dialled plain.
pub open spec fn dial_of(trust: Option<DeviceTrust>, creds: Option<GatewayCredentials>) -> Dial {
    match (trust, creds) {
        (Some(DeviceTrust::TlsMutual { subject_name }), Some(c)) => Dial::Tls {
            subject_name,
            creds: c,
        },
        _ => Dial::Plain,
    }
}

/// An optional reference as an optional value.
pub open spec fn opt<T>(r: Option<&T>) -> Option<T> {
    match r {
        Some(x) => Some(*x),
        None => None,
    }
}

/// How to dial a device.
pub fn dial(trust: Option<&DeviceTrust>, creds: Option<&GatewayCredentials>) -> (r: Dial)
    ensures
        r == dial_of(opt(trust), opt(creds)),
{
    match (trust, creds) {
        (Some(DeviceTrust::TlsMutual { subject_name }), Some(c)) => Dial::Tls {
            subject_name: subject_name.clone(),
            creds: c.clone(),
        },
        _ => Dial::Plain,
    }
}

/// One read of holding registers.
#[derive(Debug)]
pub struct ReadPlan {
    /// Target host.
    pub host: String,
    /// TCP port.
    pub port: u16,
    /// Modbus unit.
    pub unit_id: u8,
    /// First register.
    pub address: u16,
    /// How many registers.
    pub count: u16,
    /// How to dial.
    pub dial: Dial,
}

/// One write of holding registers.
#[derive(Debug)]
pub struct WritePlan {
    /// Target host.
    pub host: String,
    /// TCP port.
    pub port: u16,
    /// Modbus unit.
    pub unit_id: u8,
    /// First register.
    pub address: u16,
    /// What is written.
    pub words: Vec<u16>,
    /// How to dial.
    pub dial: Dial,
}

/// The unit that a binding names, if it is one.
pub open spec fn unit_of<N>(b: ModbusTcpBinding<N>) -> Option<nat> {
    text::unsigned_value(b.unit_id@, 255)
}

/// What is said of a binding that names no unit.
pub open spec fn unit_error() -> Seq<char> {
    "unit_id must parse to u8 for Modbus"@
}

/// A write plan is the one for a value.
pub open spec fn writes<N: Scalar>(
    p: WritePlan,
    b: ModbusTcpBinding<N>,
    value: N,
    trust: Option<DeviceTrust>,
    creds: Option<GatewayCredentials>,
) -> bool {
    &&& p.host == b.host
    &&& p.port == b.port
    &&& unit_of(b) == Some(p.unit_id as nat)
    &&& p.address == b.address
    &&& p.words@ == codec::encoded(
        codec::unscaled(value, b.scale, b.offset),
        b.data_type,
        b.word_order,
    )
    &&& p.dial == dial_of(trust, creds)
}

fn parse_unit<N>(b: &ModbusTcpBinding<N>) -> (r: Result<u8, GatewayError>)
    ensures
        match r {
            Ok(u) => unit_of(*b) == Some(u as nat),
            Err(e) => unit_of(*b) is None && e.message@ == unit_error(),
        },
{
    match parse_unsigned(b.unit_id.as_str(), 255) {
        Some(n) => Ok(n as u8),
        None => Err(failure("unit_id must parse to u8 for Modbus".to_owned())),
    }
}

/// The read that measures a binding.
pub fn plan_read<N: Scalar>(
    b: &ModbusTcpBinding<N>,
    trust: Option<&DeviceTrust>,
    creds: Option<&GatewayCredentials>,
) -> (r: Result<ReadPlan, GatewayError>)
    ensures
        match r {
            Ok(p) => {
                &&& p.host == b.host
                &&& p.port == b.port
                &&& unit_of(*b) == Some(p.unit_id as nat)
                &&& p.address == b.address
                &&& p.count == codec::width(b.data_type)
                &&& p.dial == dial_of(opt(trust), opt(creds))
            },
            Err(e) => unit_of(*b) is None && e.message@ == unit_error(),
        },
{
    match parse_unit(b) {
        Ok(unit_id) => Ok(
            ReadPlan {
                host: b.host.clone(),
                port: b.port,
                unit_id,
                address: b.address,
                count: b.data_type.register_count(),
                dial: dial(trust, creds),
            },
        ),
        Err(e) => Err(e),
    }
}

/// The engineering value of the registers that a read brought.
pub fn read_measurement<N: Scalar>(b: &ModbusTcpBinding<N>, words: &[u16]) -> (r: N)
    requires
        words@.len() >= codec::width(b.data_type),
    ensures
        r == codec::scaled(
            codec::decoded::<N>(words@, b.data_type, b.word_order),
            b.scale,
            b.offset,
        ),
{
    let raw: N = decode_raw(words, b.data_type, b.word_order);
    apply_scale_offset(raw, b.scale, b.offset)
}

/// The write that sets a binding to an engineering value.
pub fn write_setpoint<N: Scalar>(
    b: &ModbusTcpBinding<N>,
    value: N,
    trust: Option<&DeviceTrust>,
    creds: Option<&GatewayCredentials>,
) -> (r: Result<WritePlan, GatewayError>)
    ensures
        match r {
            Ok(p) => writes(p, *b, value, opt(trust), opt(creds)),
            Err(e) => unit_of(*b) is None && e.message@ == unit_error(),
        },
{
    match parse_unit(b) {
        Ok(unit_id) => {
            let raw = to_raw(value, b.scale, b.offset);
            Ok(
                WritePlan {
                    host: b.host.clone(),
                    port: b.port,
                    unit_id,
                    address: b.address,
                    words: encode_raw(raw, b.data_type, b.word_order),
                    dial: dial(trust, creds),
                },
            )
        },
        Err(e) => Err(e),
    }
}

// ---------------------------------------------------------------------
// Ranges
// ---------------------------------------------------------------------

/// What is said of a range without registers.
pub open spec fn empty_range() -> Seq<char> {
    "range contains count == 0"@
}

/// What is said of a range that runs past the last register.
pub open spec fn overflowing_range(start: nat, count: nat) -> Seq<char> {
    "start == "@ + text::digits(start) + " and count = "@ + text::digits(count)
        + " would overflow u16 representation"@
}

/// Why registers from `start` on are no range, if they are none: there is at
/// least one of them, and none past the last address.
pub open spec fn range_fault(start: nat, count: nat) -> Option<Seq<char>> {
    if count == 0 {
        Some(empty_range())
    } else if start + count - 1 > 0xFFFF {
        Some(overflowing_range(start, count))
    } else {
        None
    }
}

/// `rodbus::AddressRange::try_from`: whether registers are a range, or how the
/// error is shown.
#[verifier::external_body]
fn address_range(start: u16, count: u16) -> (r: Result<(), String>)
    ensures
        match r {
            Ok(_) => range_fault(start as nat, count as nat) is None,
            Err(shown) => range_fault(start as nat, count as nat) == Some(shown@),
        },
{
    match rodbus::AddressRange::try_from(start, count) {
        Ok(_) => Ok(()),
        Err(error) => Err(error.to_string()),
    }
}

/// Check that the registers of a read are a range.
pub fn check_range(plan: &ReadPlan) -> (r: Result<(), GatewayError>)
    ensures
        match range_fault(plan.address as nat, plan.count as nat) {
            None => r is Ok,
            Some(shown) => r matches Err(e) && e.message@ == "invalid modbus address range: "@
                + shown,
        },
{
    match address_range(plan.address, plan.count) {
        Ok(_) => Ok(()),
        Err(shown) => Err(failure_of("invalid modbus address range: ", shown.as_str())),
    }
}

/// What is said of more registers than can be counted.
pub open spec fn uncountable(count: nat) -> Seq<char> {
    "The requested count of objects exceeds the maximum value of u16: "@ + text::digits(count)
}

/// Why registers from `start` on cannot be written, if they cannot.
pub open spec fn write_fault(start: nat, count: nat) -> Option<Seq<char>> {
    if count > 0xFFFF {
        Some(uncountable(count))
    } else {
        range_fault(start, count)
    }
}

/// `rodbus::client::WriteMultiple::from`: whether registers can be written at
/// an address, or how the error is shown.
#[verifier::external_body]
fn write_multiple(start: u16, words: &Vec<u16>) -> (r: Result<(), String>)
    ensures
        match r {
            Ok(_) => write_fault(start as nat, words@.len()) is None,
            Err(shown) => write_fault(start as nat, words@.len()) == Some(shown@),
        },
{
    match rodbus::client::WriteMultiple::from(start, words.clone()) {
        Ok(_) => Ok(()),
        Err(error) => Err(error.to_string()),
    }
}

/// Check that the registers of a write can be written.
pub fn check_request(plan: &WritePlan) -> (r: Result<(), GatewayError>)
    ensures
        match write_fault(plan.address as nat, plan.words@.len()) {
            None => r is Ok,
            Some(shown) => r matches Err(e) && e.message@ == "invalid modbus write request: "@
                + shown,
        },
{
    match write_multiple(plan.address, &plan.words) {
        Ok(_) => Ok(()),
        Err(shown) => Err(failure_of("invalid modbus write request: ", shown.as_str())),
    }
}

/// A setpoint is read back as it was written: the registers of a write decode
/// to the setpoint's raw value, wherever the data type can hold that, and a
/// read turns it back by the same scale and offset.
pub proof fn lemma_setpoint_is_read_back<N: Scalar>(
    plan: WritePlan,
    b: ModbusTcpBinding<N>,
    value: N,
    trust: Option<DeviceTrust>,
    creds: Option<GatewayCredentials>,
)
    requires
        writes(plan, b, value, trust, creds),
        codec::fits(codec::unscaled(value, b.scale, b.offset), b.data_type),
    ensures
        plan.words@.len() == codec::width(b.data_type),
        codec::scaled(
            codec::decoded::<N>(plan.words@, b.data_type, b.word_order),
            b.scale,
            b.offset,
        ) == codec::scaled(codec::unscaled(value, b.scale, b.offset), b.scale, b.offset),
{
    codec::lemma_raw_round_trip(
        codec::unscaled(value, b.scale, b.offset),
        b.data_type,
        b.word_order,
    );
}

/// Whole-number setpoints that the scale divides are read back unchanged, as
/// far as nothing is held to the range of the number type.
pub proof fn lemma_whole_setpoint_is_unchanged(value: i64, scale: i64, offset: i64)
    requires
        scale != 0,
        i64::MIN < value - offset <= i64::MAX,
        scalar::absolute(value - offset) % scalar::absolute(scale as int) == 0,
    ensures
        codec::scaled(codec::unscaled(value, scale, offset), scale, offset) == value,
{
    let d: int = value - offset;
    let s: int = scale as int;
    let a = scalar::absolute(d) as int;
    let m = scalar::absolute(s) as int;
    let k = a / m;
    assert(a == m * k && 0 <= k <= a) by (nonlinear_arith)
        requires
            a >= 0,
            m > 0,
            a % m == 0,
            k == a / m,
    ;
    let q = scalar::quotient(d, s);
    assert(q * s == d) by (nonlinear_arith)
        requires
            a == m * k,
            a == (if d < 0 { -d } else { d }),
            m == (if s < 0 { -s } else { s }),
            q == (if (d < 0) == (s < 0) { k } else { -k }),
    ;
}

/// A planned write goes where its binding says and says what was asked for: read
/// by the binding's own type, order, scale and offset, its registers are the
/// setpoint, where the data type can hold the raw value and nothing is rounded.
pub proof fn lemma_write_says_the_setpoint<N: Scalar>(
    value: spec_fn(N) -> real,
    counts: spec_fn(N) -> bool,
    plan: WritePlan,
    b: ModbusTcpBinding<N>,
    setpoint: N,
    trust: Option<DeviceTrust>,
    creds: Option<GatewayCredentials>,
)
    requires
        arithmetic::is_exact(value, counts),
        writes(plan, b, setpoint, trust, creds),
        ({
            let raw = setpoint.minus_spec(b.offset).over_spec(b.scale);
            &&& counts(setpoint) && counts(b.offset) && counts(b.scale)
            &&& counts(setpoint.minus_spec(b.offset)) && counts(raw)
            &&& counts(raw.times_spec(b.scale))
            &&& counts(raw.times_spec(b.scale).plus_spec(b.offset))
            &&& arithmetic::is_even(value, setpoint.minus_spec(b.offset), b.scale)
            &&& codec::fits(raw, b.data_type)
        }),
    ensures
        plan.host == b.host && plan.port == b.port && plan.address == b.address,
        text::unsigned_value(b.unit_id@, 255) == Some(plan.unit_id as nat),
        plan.words@.len() == (if b.data_type is Int16 || b.data_type is Uint16 {
            1nat
        } else {
            2nat
        }),
        value(
            codec::decoded::<N>(plan.words@, b.data_type, b.word_order).times_spec(
                b.scale,
            ).plus_spec(b.offset),
        ) == value(setpoint),
{
    let raw = setpoint.minus_spec(b.offset).over_spec(b.scale);
    codec::lemma_raw_round_trip(raw, b.data_type, b.word_order);
    codec::lemma_scaling_in_numbers(value, counts, raw, setpoint, b.scale, b.offset);
    codec::lemma_orders_are_reverses(raw, b.data_type);
}

/// A device is dialled by mutual TLS if and only if it asks for that and the gateway
/// has the material; then with the device's subject name and the gateway's own
/// material.
pub proof fn lemma_dial_is_as_trusted(
    trust: Option<DeviceTrust>,
    creds: Option<GatewayCredentials>,
)
    ensures
        dial_of(trust, creds) is Tls <==> trust is Some && trust->0 is TlsMutual && creds is Some,
        dial_of(trust, creds) matches Dial::Tls { subject_name, creds: material } ==> trust == Some(
            DeviceTrust::TlsMutual { subject_name },
        ) && creds == Some(material),
{
}

/// Registers can be read and written from an address on if there is at least one of
/// them and the last of them has an address.
pub proof fn lemma_ranges_end_at_the_last_register(start: nat, count: nat)
    ensures
        range_fault(start, count) is None <==> 1 <= count && start + count <= 65_536,
        write_fault(start, count) is None <==> 1 <= count <= 65_535 && start + count <= 65_536,
{
}

} // verus!
