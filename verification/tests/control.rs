//! The gateway's arithmetic in double precision: allocation, the control law,
//! synthetic channels and the Modbus codec.

use ems_industrial_gateway::app;
use ems_industrial_gateway::asyncapi::types::{
    ChildAllocation, DistributeBinding, ModbusTcpBinding, ProtocolBinding,
};
use ems_industrial_gateway::bacnet::client as bacnet;
use ems_industrial_gateway::bacnet::client::BacnetValue;
use ems_industrial_gateway::der_dispatch::actual_power;
use ems_industrial_gateway::der_dispatch::actual_power::{sum_cached, DerDispatchTaskConfig};
use ems_industrial_gateway::der_dispatch::site_distribution;
use ems_industrial_gateway::der_dispatch::site_distribution::{
    dispatch_one, modules_with_bounds, SiteDistributionConfig,
};
use ems_industrial_gateway::dispatch;
use ems_industrial_gateway::dispatch::allocation::{
    allocate, policy_weights, AllocationPolicy, ChildCapacity, OperatingState,
};
use ems_industrial_gateway::dispatch::distribute::{
    compute_shares, operating_state_from, resolve_child,
};
use ems_industrial_gateway::dispatch::work::Work;
use ems_industrial_gateway::dispatch::{CommandFrame, SetpointPlan};
use ems_industrial_gateway::envelope::control_law::{
    EnvelopeConfig, EnvelopeController, EnvelopeTick,
};
use ems_industrial_gateway::envelope::task as envelope;
use ems_industrial_gateway::envelope::task::EnvelopeTaskConfig;
use ems_industrial_gateway::error::GatewayError;
use ems_industrial_gateway::modbus::client as modbus;
use ems_industrial_gateway::modbus::codec::{
    apply_scale_offset, decode_raw, encode_raw, to_raw, ModbusDataType, WordOrder,
};
use ems_industrial_gateway::mqtt::publisher::publish_measurement;
use ems_industrial_gateway::mqtt::subscriber::cache_float_sample;
use ems_industrial_gateway::redfish::client as redfish;
use ems_industrial_gateway::scalar::Scalar;
use ems_industrial_gateway::span::Span;
use ems_industrial_gateway::string_map::StringMap;
use ems_industrial_gateway::synthetic::cache::{new_input_cache, InputCache};
use ems_industrial_gateway::synthetic::formula::Formula;
use ems_industrial_gateway::synthetic::operation::{weighted_mean, Operation};
use ems_industrial_gateway::synthetic::task as synthetic;
use ems_industrial_gateway::synthetic::task::{
    gather_inputs, gather_pairs, hz_to_period_ms, Computation, SyntheticTaskConfig,
};
use std::collections::HashMap;
use std::time::Duration;

/// Double precision.
#[derive(Clone, Copy, Debug, PartialEq)]
struct F64(f64);

impl Scalar for F64 {
    fn from_i64(n: i64) -> Self {
        F64(n as f64)
    }
    fn from_u64(n: u64) -> Self {
        F64(n as f64)
    }
    fn from_bits(bits: u64) -> Self {
        F64(f64::from_bits(bits))
    }
    fn to_bits(self) -> u64 {
        self.0.to_bits()
    }
    fn from_single_bits(bits: u32) -> Self {
        F64(f64::from(f32::from_bits(bits)))
    }
    fn to_single_bits(self) -> u32 {
        (self.0 as f32).to_bits()
    }
    fn epsilon() -> Self {
        F64(f64::EPSILON)
    }
    fn infinity() -> Self {
        F64(f64::INFINITY)
    }
    fn plus(self, other: Self) -> Self {
        F64(self.0 + other.0)
    }
    fn minus(self, other: Self) -> Self {
        F64(self.0 - other.0)
    }
    fn times(self, other: Self) -> Self {
        F64(self.0 * other.0)
    }
    fn over(self, other: Self) -> Self {
        F64(self.0 / other.0)
    }
    fn negate(self) -> Self {
        F64(-self.0)
    }
    fn magnitude(self) -> Self {
        F64(self.0.abs())
    }
    fn sign(self) -> Self {
        F64(self.0.signum())
    }
    fn below(self, other: Self) -> bool {
        self.0 < other.0
    }
    fn at_most(self, other: Self) -> bool {
        self.0 <= other.0
    }
    fn larger(self, other: Self) -> Self {
        F64(self.0.max(other.0))
    }
    fn smaller(self, other: Self) -> Self {
        F64(self.0.min(other.0))
    }
    fn round(self) -> i64 {
        self.0.round() as i64
    }
    fn truncate(self) -> u64 {
        self.0 as u64
    }
    fn from_nanos(nanos: u128) -> Self {
        F64(Duration::new((nanos / 1_000_000_000) as u64, (nanos % 1_000_000_000) as u32)
            .as_secs_f64())
    }
    fn to_nanos(self) -> Option<u128> {
        Duration::try_from_secs_f64(self.0).ok().map(|d| d.as_nanos())
    }
    fn render(self) -> String {
        format!("{}", self.0)
    }
}

fn floats(values: &[f64]) -> Vec<F64> {
    values.iter().map(|v| F64(*v)).collect()
}

fn close(a: F64, b: f64) -> bool {
    (a.0 - b).abs() < f64::EPSILON
}

fn cached(entries: &[(&str, f64)]) -> InputCache {
    let mut cache = new_input_cache();
    for (topic, value) in entries {
        cache.insert((*topic).to_string(), F64(*value));
    }
    cache
}

// Allocation.

fn child(device_id: &str, headroom: f64, soc: f64) -> ChildCapacity<F64> {
    ChildCapacity {
        device_id: device_id.to_string(),
        operating_state: OperatingState::Standby,
        headroom: F64(headroom),
        state_of_charge: F64(soc),
    }
}

fn by_id(shares: Vec<(String, F64)>) -> HashMap<String, F64> {
    shares.into_iter().collect()
}

#[test]
fn equal_split_divides_evenly_when_no_child_clamps() {
    let children = [child("r1", 500.0, 50.0), child("r2", 500.0, 50.0), child("r3", 500.0, 50.0)];
    let shares = allocate(F64(300.0), &children, AllocationPolicy::EqualSplit);
    assert_eq!(shares.len(), 3);
    for (_, s) in &shares {
        assert!(close(*s, 100.0));
    }
}

#[test]
fn equal_split_redistributes_clamped_remainder() {
    let children = [child("r1", 20.0, 50.0), child("r2", 500.0, 50.0), child("r3", 500.0, 50.0)];
    let shares = by_id(allocate(F64(300.0), &children, AllocationPolicy::EqualSplit));
    assert!(close(shares["r1"], 20.0));
    assert!(close(shares["r2"], 140.0));
    assert!(close(shares["r3"], 140.0));
}

#[test]
fn soc_weighted_favors_higher_soc_on_discharge() {
    let children = [child("r1", 500.0, 80.0), child("r2", 500.0, 20.0)];
    let shares = by_id(allocate(F64(100.0), &children, AllocationPolicy::SocWeighted));
    assert!(close(shares["r1"], 80.0));
    assert!(close(shares["r2"], 20.0));
}

#[test]
fn soc_weighted_favors_lower_soc_on_charge() {
    let children = [child("r1", 500.0, 80.0), child("r2", 500.0, 20.0)];
    let shares = by_id(allocate(F64(-100.0), &children, AllocationPolicy::SocWeighted));
    assert!(close(shares["r1"], -20.0));
    assert!(close(shares["r2"], -80.0));
}

#[test]
fn soc_weighted_falls_back_to_equal_split_when_denominator_zero() {
    let children = [child("r1", 500.0, 100.0), child("r2", 500.0, 100.0)];
    let shares = by_id(allocate(F64(-100.0), &children, AllocationPolicy::SocWeighted));
    assert!(close(shares["r1"], -50.0));
    assert!(close(shares["r2"], -50.0));
}

#[test]
fn fault_and_offline_children_are_skipped() {
    let mut faulted = child("r2", 500.0, 50.0);
    faulted.operating_state = OperatingState::Fault;
    let mut offline = child("r3", 500.0, 50.0);
    offline.operating_state = OperatingState::Offline;
    let children = [child("r1", 500.0, 50.0), faulted, offline];
    let shares = allocate(F64(100.0), &children, AllocationPolicy::EqualSplit);
    assert_eq!(shares.len(), 1);
    assert_eq!(shares[0].0, "r1");
    assert!(close(shares[0].1, 100.0));
}

#[test]
fn returns_empty_when_no_eligible_children() {
    let mut faulted = child("r1", 500.0, 50.0);
    faulted.operating_state = OperatingState::Fault;
    let shares = allocate(F64(100.0), &[faulted], AllocationPolicy::EqualSplit);
    assert!(shares.is_empty());
}

#[test]
fn no_share_exceeds_its_headroom() {
    let children = [child("r1", 20.0, 50.0), child("r2", 30.0, 50.0), child("r3", 40.0, 50.0)];
    for total in [-1000.0, -60.0, 0.0, 60.0, 1000.0] {
        let shares = by_id(allocate(F64(total), &children, AllocationPolicy::EqualSplit));
        assert!(shares["r1"].0.abs() <= 20.0);
        assert!(shares["r2"].0.abs() <= 30.0);
        assert!(shares["r3"].0.abs() <= 40.0);
    }
}

#[test]
fn children_that_are_not_clamped_share_alike() {
    let children = [child("r1", 10.0, 20.0), child("r2", 90.0, 50.0), child("r3", 80.0, 70.0)];
    let shares = by_id(allocate(F64(100.0), &children, AllocationPolicy::EqualSplit));
    assert_eq!(shares["r1"], F64(10.0));
    assert_eq!(shares["r2"], shares["r3"]);
    assert!(close(shares["r2"], 45.0));
}

#[test]
fn no_demand_is_lost_while_a_child_has_room() {
    let children = [child("r1", 10.0, 80.0), child("r2", 100.0, 40.0), child("r3", 100.0, 20.0)];
    let shares = by_id(allocate(F64(70.0), &children, AllocationPolicy::SocWeighted));
    assert!(close(shares["r1"], 10.0));
    assert!(close(shares["r2"], 40.0));
    assert!(close(shares["r3"], 20.0));
    let full = by_id(allocate(F64(999.0), &children, AllocationPolicy::SocWeighted));
    assert_eq!(full["r1"], F64(10.0));
    assert_eq!(full["r2"], F64(100.0));
    assert_eq!(full["r3"], F64(100.0));
}

#[test]
fn what_one_child_cannot_take_goes_to_the_next() {
    let child = |device_id: &str, headroom: i64, soc: i64| ChildCapacity {
        device_id: device_id.to_string(),
        operating_state: OperatingState::Standby,
        headroom,
        state_of_charge: soc,
    };
    let children = [child("r1", 10, 5), child("r2", 100, 0)];
    let shares = allocate(30i64, &children, AllocationPolicy::SocWeighted);
    assert_eq!(shares, vec![("r1".to_string(), 10), ("r2".to_string(), 20)]);
}

#[test]
fn nobody_has_a_weight_where_nobody_is_eligible() {
    let none: Vec<&ChildCapacity<F64>> = Vec::new();
    for policy in [AllocationPolicy::EqualSplit, AllocationPolicy::SocWeighted] {
        assert!(policy_weights(policy, &none, F64(1.0)).is_empty());
    }
}

// Control law.

fn config() -> EnvelopeConfig<F64> {
    EnvelopeConfig {
        ramp_rate_per_sec: F64(0.10),
        hysteresis_margin: F64(0.05),
        hysteresis_dwell: Span::from_secs(30),
    }
}

const RATED_POWER: f64 = 4_000_000.0;

fn tick(
    import_limit: Option<f64>,
    export_limit: Option<f64>,
    active_power: f64,
    requested_setpoint: f64,
) -> EnvelopeTick<F64> {
    EnvelopeTick {
        import_limit: import_limit.map(F64),
        export_limit: export_limit.map(F64),
        active_power: F64(active_power),
        requested_setpoint: F64(requested_setpoint),
        power_min: F64(-RATED_POWER),
        power_max: F64(RATED_POWER),
        dt: Span::from_secs(1),
    }
}

fn controller(initial_output: f64) -> EnvelopeController<F64> {
    EnvelopeController::new(config(), F64(initial_output))
}

#[test]
fn normal_mode_tracks_requested_setpoint_when_unconstrained() {
    let mut ctrl = controller(0.0);
    let out = ctrl.tick(tick(Some(3_000_000.0), Some(3_000_000.0), 500_000.0, 1_000_000.0));
    assert_eq!(out, Some(F64(1_000_000.0)));
}

#[test]
fn no_limits_at_all_never_constrains() {
    let mut ctrl = controller(0.0);
    let out = ctrl.tick(tick(None, None, 3_900_000.0, 3_999_999.0));
    assert_eq!(out, Some(F64(3_999_999.0)));
}

#[test]
fn violated_import_ceiling_clamps_immediately_no_dwell() {
    let mut ctrl = controller(500_000.0);
    let out = ctrl.tick(tick(Some(1_000_000.0), None, 1_000_000.0, 1_500_000.0));
    assert_eq!(out, Some(F64(1_000_000.0)));
}

#[test]
fn violated_export_floor_clamps_immediately() {
    let mut ctrl = controller(-500_000.0);
    let out = ctrl.tick(tick(None, Some(1_000_000.0), -1_000_000.0, -1_500_000.0));
    assert_eq!(out, Some(F64(-1_000_000.0)));
}

#[test]
fn constrained_holds_output_until_dwell_satisfied() {
    let mut ctrl = controller(1_000_000.0);
    ctrl.tick(tick(Some(1_000_000.0), None, 1_000_000.0, 1_500_000.0));
    let mut last = None;
    for _ in 0..10 {
        last = ctrl.tick(tick(Some(2_000_000.0), None, 1_000_000.0, 1_500_000.0));
    }
    assert_eq!(last, None);
}

#[test]
fn constrained_ramps_only_after_dwell_satisfied() {
    let mut ctrl = controller(1_000_000.0);
    ctrl.tick(tick(Some(1_000_000.0), None, 1_000_000.0, 1_500_000.0));
    let mut out = None;
    for _ in 0..30 {
        out = ctrl.tick(tick(Some(2_000_000.0), None, 1_000_000.0, 1_500_000.0));
    }
    assert_eq!(out, Some(F64(1_000_000.0 + 400_000.0)));
}

#[test]
fn a_dwell_that_breaks_off_again_and_again_never_ends() {
    let mut ctrl = controller(3_000_000.0);
    ctrl.tick(tick(Some(1_000_000.0), None, 3_000_000.0, 3_000_000.0));
    for _ in 0..5 {
        for _ in 0..29 {
            let out = ctrl.tick(tick(Some(2_000_000.0), None, 1_000_000.0, 3_000_000.0));
            assert_eq!(out, None);
        }
        let out = ctrl.tick(tick(Some(2_000_000.0), None, 1_900_000.0, 3_000_000.0));
        assert_eq!(out, None);
    }
    for _ in 0..29 {
        let out = ctrl.tick(tick(Some(2_000_000.0), None, 1_000_000.0, 3_000_000.0));
        assert_eq!(out, None);
    }
    let out = ctrl.tick(tick(Some(2_000_000.0), None, 1_000_000.0, 3_000_000.0));
    assert_eq!(out, Some(F64(1_400_000.0)));
}

#[test]
fn dwell_resets_if_margin_lost_before_satisfied() {
    let mut ctrl = controller(1_000_000.0);
    ctrl.tick(tick(Some(1_000_000.0), None, 1_000_000.0, 1_500_000.0));
    for _ in 0..20 {
        ctrl.tick(tick(Some(2_000_000.0), None, 1_000_000.0, 1_500_000.0));
    }
    ctrl.tick(tick(Some(1_000_000.0), None, 1_000_000.0, 1_500_000.0));
    let mut out = None;
    for _ in 0..20 {
        out = ctrl.tick(tick(Some(2_000_000.0), None, 1_000_000.0, 1_500_000.0));
    }
    assert_eq!(out, None);
}

#[test]
fn ramping_steps_at_configured_rate_then_settles_at_target() {
    let mut ctrl = controller(1_000_000.0);
    ctrl.tick(tick(Some(1_000_000.0), None, 1_000_000.0, 1_200_000.0));
    for _ in 0..29 {
        ctrl.tick(tick(Some(2_000_000.0), None, 1_000_000.0, 1_200_000.0));
    }
    let out = ctrl.tick(tick(Some(2_000_000.0), None, 1_000_000.0, 1_200_000.0));
    assert_eq!(out, Some(F64(1_200_000.0)));
    let out2 = ctrl.tick(tick(Some(2_000_000.0), None, 1_000_000.0, 1_200_000.0));
    assert_eq!(out2, None);
}

#[test]
fn fresh_violation_mid_ramp_immediately_re_clamps() {
    let mut ctrl = controller(1_000_000.0);
    ctrl.tick(tick(Some(1_000_000.0), None, 1_000_000.0, 3_000_000.0));
    for _ in 0..30 {
        ctrl.tick(tick(Some(2_000_000.0), None, 1_000_000.0, 3_000_000.0));
    }
    let ramped = ctrl.tick(tick(Some(2_000_000.0), None, 1_000_000.0, 3_000_000.0)).unwrap();
    assert!(ramped.0 > 1_000_000.0 && ramped.0 < 3_000_000.0);
    let out = ctrl.tick(tick(Some(900_000.0), None, ramped.0, 3_000_000.0));
    assert_eq!(out, Some(F64(900_000.0)));
}

/// A controller whose output of 1100 is constrained, without a dwell, at ten
/// units a second.
fn constrained_at_1100() -> EnvelopeController<F64> {
    let config = EnvelopeConfig {
        ramp_rate_per_sec: F64(0.01),
        hysteresis_margin: F64(0.05),
        hysteresis_dwell: Span::from_secs(0),
    };
    let mut ctrl = EnvelopeController::new(config, F64(1100.0));
    assert_eq!(ctrl.tick(small_tick(Some(1100.0), 1200.0, 2000.0)), None);
    ctrl
}

fn small_tick(import_limit: Option<f64>, active: f64, requested: f64) -> EnvelopeTick<F64> {
    EnvelopeTick {
        power_min: F64(-1000.0),
        power_max: F64(1000.0),
        ..tick(import_limit, None, active, requested)
    }
}

#[test]
fn ramping_writes_nothing_past_a_limit() {
    let mut ctrl = constrained_at_1100();
    let out = ctrl.tick(small_tick(Some(1050.0), 500.0, 0.0));
    assert_eq!(out, Some(F64(1050.0)));
    assert_eq!(ctrl.current_output(), F64(1050.0));
}

#[test]
fn ramping_approaches_its_target_step_by_step() {
    let mut ctrl = constrained_at_1100();
    for expected in [1090.0, 1080.0, 1075.0] {
        let out = ctrl.tick(small_tick(Some(2000.0), 500.0, 1075.0));
        assert_eq!(out, Some(F64(expected)));
    }
    assert_eq!(ctrl.tick(small_tick(Some(2000.0), 500.0, 1075.0)), None);
}

#[test]
fn the_output_is_what_was_last_written() {
    let mut ctrl = controller(0.0);
    let out = ctrl.tick(tick(None, None, 0.0, 7.0)).unwrap();
    assert_eq!(ctrl.current_output(), out);
    assert_eq!(ctrl.tick(tick(None, None, 0.0, 7.0)), None);
    assert_eq!(ctrl.current_output(), F64(7.0));
}

#[test]
fn bounds_out_of_order_cannot_be_ticked() {
    let ctrl = controller(0.0);
    assert!(ctrl.can_tick(&tick(Some(10.0), Some(10.0), 0.0, 5.0)));
    assert!(!ctrl.can_tick(&tick(Some(-10.0), Some(-10.0), -20.0, 5.0)));
}

// Modbus codec.

#[test]
fn apply_scale_offset_identity() {
    assert_eq!(apply_scale_offset(F64(1_000_000.0), F64(1.0), F64(0.0)), F64(1_000_000.0));
}

#[test]
fn to_raw_identity() {
    assert_eq!(to_raw(F64(1_000_000.0), F64(1.0), F64(0.0)), F64(1_000_000.0));
}

#[test]
fn to_raw_apply_scale_offset_round_trips() {
    let raw = apply_scale_offset(F64(7_000_000.0), F64(2.0), F64(5.0));
    assert_eq!(raw, F64(14_000_005.0));
    assert_eq!(to_raw(raw, F64(2.0), F64(5.0)), F64(7_000_000.0));
}

#[test]
fn decode_raw_uint16_single_register() {
    let value: F64 = decode_raw(&[700], ModbusDataType::Uint16, WordOrder::HighLow);
    assert_eq!(value, F64(700.0));
}

#[test]
fn decode_raw_int16_negative_single_register() {
    let value: F64 = decode_raw(&[0xFFFF], ModbusDataType::Int16, WordOrder::HighLow);
    assert_eq!(value, F64(-1.0));
}

#[test]
fn decode_raw_int32_matches_existing_behavior() {
    let value: F64 = decode_raw(&[0x000F, 0x4240], ModbusDataType::Int32, WordOrder::HighLow);
    assert_eq!(value, F64(1_000_000.0));
}

#[test]
fn decode_raw_uint32_high_low() {
    let value: F64 = decode_raw(&[0x0001, 0x0000], ModbusDataType::Uint32, WordOrder::HighLow);
    assert_eq!(value, F64(65536.0));
}

#[test]
fn decode_raw_float32_ieee754_bit_pattern() {
    let value: F64 = decode_raw(&[0x3FC0, 0x0000], ModbusDataType::Float32, WordOrder::HighLow);
    assert_eq!(value, F64(1.5));
}

#[test]
fn encode_decode_raw_round_trips_for_every_data_type() {
    for (data_type, raw) in [
        (ModbusDataType::Uint16, 700.0),
        (ModbusDataType::Int16, -1.0),
        (ModbusDataType::Int32, 1_000_000.0),
        (ModbusDataType::Uint32, 65536.0),
        (ModbusDataType::Float32, 1.5),
    ] {
        let words = encode_raw(F64(raw), data_type, WordOrder::HighLow);
        let back: F64 = decode_raw(&words, data_type, WordOrder::HighLow);
        assert_eq!(back, F64(raw), "{data_type:?} round-trip");
    }
}

#[test]
fn registers_are_written_back_as_they_were_read() {
    for order in [WordOrder::HighLow, WordOrder::LowHigh] {
        for words in [[0u16, 0], [1, 2], [0x8000, 1], [0xffff, 0xffff], [0x7fff, 0xffff]] {
            for data_type in [ModbusDataType::Int32, ModbusDataType::Uint32] {
                let raw: F64 = decode_raw(&words, data_type, order);
                assert_eq!(encode_raw(raw, data_type, order), words);
            }
            for data_type in [ModbusDataType::Int16, ModbusDataType::Uint16] {
                let raw: F64 = decode_raw(&words[..1], data_type, order);
                assert_eq!(encode_raw(raw, data_type, order), words[..1]);
            }
        }
        let words = [0x41c8u16, 0x0001];
        let raw: F64 = decode_raw(&words, ModbusDataType::Float32, order);
        assert_eq!(encode_raw(raw, ModbusDataType::Float32, order), words);
    }
}

#[test]
fn whole_numbers_are_scaled_back() {
    for (raw, scale, offset) in [(7i64, 3, -2), (-5, -4, 100), (0, 9, 1)] {
        assert_eq!(to_raw(apply_scale_offset(raw, scale, offset), scale, offset), raw);
    }
}

#[test]
fn low_word_first_swaps_the_registers() {
    let words = encode_raw(F64(65536.0), ModbusDataType::Uint32, WordOrder::LowHigh);
    assert_eq!(words, vec![0x0000, 0x0001]);
    let value: F64 = decode_raw(&words, ModbusDataType::Uint32, WordOrder::LowHigh);
    assert_eq!(value, F64(65536.0));
}

#[test]
fn encoding_holds_a_value_to_the_register_range() {
    let words = encode_raw(F64(1.0e9), ModbusDataType::Uint16, WordOrder::HighLow);
    assert_eq!(words, vec![0xFFFF]);
    let words = encode_raw(F64(-5.0), ModbusDataType::Uint16, WordOrder::HighLow);
    assert_eq!(words, vec![0]);
}

// Operations and formulas.

#[test]
fn operation_subtract_returns_a_minus_b() {
    let got = Operation::Subtract.apply(&floats(&[10_000_000.0, 3_000_000.0])).unwrap();
    assert!(close(got, 7_000_000.0));
}

#[test]
fn operation_subtract_rejects_wrong_arity() {
    assert!(Operation::Subtract.apply(&floats(&[1.0])).is_err());
    assert!(Operation::Subtract.apply(&floats(&[1.0, 2.0, 3.0])).is_err());
}

#[test]
fn operation_sum_mean_max_min_compute_correctly() {
    let inputs = floats(&[1.0, 2.0, 3.0, 4.0]);
    assert!(close(Operation::Sum.apply(&inputs).unwrap(), 10.0));
    assert!(close(Operation::Mean.apply(&inputs).unwrap(), 2.5));
    assert!(close(Operation::Max.apply(&inputs).unwrap(), 4.0));
    assert!(close(Operation::Min.apply(&inputs).unwrap(), 1.0));
}

#[test]
fn the_extremes_are_among_the_inputs() {
    for inputs in [floats(&[2.5]), floats(&[-1.0, 7.0, 3.0]), floats(&[4.0, 4.0, -9.5])] {
        let most = Operation::Max.apply(&inputs).unwrap();
        let least = Operation::Min.apply(&inputs).unwrap();
        assert!(inputs.contains(&most) && inputs.contains(&least));
        assert!(inputs.iter().all(|x| least.0 <= x.0 && x.0 <= most.0));
        assert_eq!(Formula::Max.apply(&inputs).unwrap(), most);
        assert_eq!(Formula::Min.apply(&inputs).unwrap(), least);
    }
}

#[test]
fn empty_inputs_rejected_for_aggregate_operations() {
    for f in [Operation::Sum, Operation::Mean, Operation::Max, Operation::Min] {
        assert!(f.apply(&floats(&[])).is_err());
    }
}

#[test]
fn formula_subtract_returns_a_minus_b() {
    let got = Formula::Subtract.apply(&floats(&[10_000_000.0, 3_000_000.0])).unwrap();
    assert!(close(got, 7_000_000.0));
}

#[test]
fn formula_subtract_rejects_wrong_arity() {
    assert!(Formula::Subtract.apply(&floats(&[1.0])).is_err());
    assert!(Formula::Subtract.apply(&floats(&[1.0, 2.0, 3.0])).is_err());
}

#[test]
fn formula_sum_mean_max_min_compute_correctly() {
    let inputs = floats(&[1.0, 2.0, 3.0, 4.0]);
    assert!(close(Formula::Sum.apply(&inputs).unwrap(), 10.0));
    assert!(close(Formula::Mean.apply(&inputs).unwrap(), 2.5));
    assert!(close(Formula::Max.apply(&inputs).unwrap(), 4.0));
    assert!(close(Formula::Min.apply(&inputs).unwrap(), 1.0));
}

#[test]
fn empty_inputs_rejected_for_aggregate_formulas() {
    for f in [Formula::Sum, Formula::Mean, Formula::Max, Formula::Min] {
        assert!(f.apply(&floats(&[])).is_err());
    }
}

#[test]
fn weighted_mean_weights_by_capacity() {
    let got = weighted_mean(&[(F64(50.0), F64(2.0)), (F64(80.0), F64(1.0))]).unwrap();
    assert!(close(got, 60.0));
}

#[test]
fn weighted_mean_with_equal_weights_matches_flat_mean() {
    let got = weighted_mean(&[(F64(10.0), F64(1.0)), (F64(20.0), F64(1.0))]).unwrap();
    assert!(close(got, 15.0));
}

#[test]
fn weights_count_by_their_proportions() {
    let pairs = [(F64(50.0), F64(2.0)), (F64(80.0), F64(1.0)), (F64(20.0), F64(1.0))];
    let scaled: Vec<(F64, F64)> = pairs.iter().map(|(v, w)| (*v, F64(w.0 * 4.0))).collect();
    let got = weighted_mean(&pairs).unwrap();
    assert_eq!(got, F64(50.0));
    assert_eq!(weighted_mean(&scaled).unwrap(), got);
    assert!(20.0 <= got.0 && got.0 <= 80.0);
}

#[test]
fn a_value_without_weight_does_not_pull_the_mean() {
    let pairs = [(F64(1e9), F64(0.0)), (F64(10.0), F64(3.0)), (F64(20.0), F64(1.0))];
    assert_eq!(weighted_mean(&pairs).unwrap(), F64(12.5));
    let whole: [(i64, i64); 3] = [(1_000_000, 0), (10, 3), (22, 1)];
    assert_eq!(weighted_mean(&whole).unwrap(), 13);
}

#[test]
fn weighted_mean_rejects_empty_pairs() {
    let none: [(F64, F64); 0] = [];
    let err = weighted_mean(&none).unwrap_err();
    assert_eq!(err.message(), "weighted_mean requires at least one pair");
}

#[test]
fn weighted_mean_rejects_zero_total_weight() {
    let err = weighted_mean(&[(F64(50.0), F64(0.0)), (F64(80.0), F64(0.0))]).unwrap_err();
    assert_eq!(err.message(), "weighted_mean requires a positive total weight, got 0");
}

// Synthetic channels.

#[test]
fn gather_inputs_holds_when_any_input_missing() {
    let cache = cached(&[("a", 10.0)]);
    let result: Option<Vec<F64>> = gather_inputs(&["a".to_string(), "b".to_string()], &cache);
    assert!(result.is_none(), "hold when any input missing");
}

#[test]
fn gather_inputs_returns_values_when_all_cached() {
    let cache = cached(&[("a", 10.0), ("b", 3.0)]);
    let values: Vec<F64> = gather_inputs(&["a".to_string(), "b".to_string()], &cache).unwrap();
    assert_eq!(values, floats(&[10.0, 3.0]));
}

#[test]
fn gather_pairs_holds_when_any_pair_missing() {
    let cache = cached(&[("a", 50.0)]);
    let result = gather_pairs(&[("a".to_string(), F64(2.0)), ("b".to_string(), F64(1.0))], &cache);
    assert!(result.is_none(), "hold when any pair missing");
}

#[test]
fn gather_pairs_returns_value_weight_pairs_when_all_cached() {
    let cache = cached(&[("a", 50.0), ("b", 80.0)]);
    let pairs = gather_pairs(&[("a".to_string(), F64(2.0)), ("b".to_string(), F64(1.0))], &cache)
        .unwrap();
    assert_eq!(pairs, vec![(F64(50.0), F64(2.0)), (F64(80.0), F64(1.0))]);
}

#[test]
fn hz_to_period_clamps_to_minimum_1ms() {
    assert_eq!(hz_to_period_ms(F64(2000.0)), 1);
    assert_eq!(hz_to_period_ms(F64(1.0)), 1000);
    assert_eq!(hz_to_period_ms(F64(0.0033)), 303_030);
}

fn headroom_task(operation: Operation) -> SyntheticTaskConfig<F64> {
    SyntheticTaskConfig {
        output_topic: "out".to_string(),
        computation: Computation::Operation {
            operation,
            input_topics: vec!["a".to_string(), "b".to_string()],
        },
        tick_hz: F64(1.0),
    }
}

#[test]
fn a_synthetic_channel_publishes_once_all_inputs_are_heard() {
    let cfg = headroom_task(Operation::Subtract);
    let silent = synthetic::tick_once(&cfg, &cached(&[("a", 10.0)]), "t").unwrap();
    assert!(silent.is_none());
    let sample = synthetic::tick_once(&cfg, &cached(&[("a", 10.0), ("b", 2.5)]), "t")
        .unwrap()
        .unwrap();
    assert_eq!(sample.topic, "out");
    assert_eq!(sample.payload, "{\"ts\":\"t\",\"value\":7.5}");
    assert_eq!(sample.qos, 0);
    assert!(!sample.retained);
}

#[test]
fn a_synthetic_channel_reports_a_zero_weight() {
    let cfg = SyntheticTaskConfig {
        output_topic: "out".to_string(),
        computation: Computation::WeightedMean { pairs: vec![("a".to_string(), F64(0.0))] },
        tick_hz: F64(1.0),
    };
    assert!(synthetic::tick_once(&cfg, &cached(&[("a", 10.0)]), "t").is_err());
}

// Cache.

#[test]
fn new_input_cache_starts_empty() {
    let cache = new_input_cache();
    assert_eq!(cache.len(), 0);
}

#[test]
fn cache_round_trip_returns_inserted_value() {
    let topic = "sites/acme/devices/oe_1/measurements/import_limit/watts";
    let mut cache = new_input_cache();
    cache.insert(topic.to_string(), F64(42.5));
    let entry: F64 = cache.get(topic).expect("topic should be cached");
    assert!(close(entry, 42.5));
    cache.insert(topic.to_string(), F64(43.5));
    assert_eq!(cache.get::<F64>(topic), Some(F64(43.5)));
    assert_eq!(cache.len(), 1);
    assert_eq!(cache.get::<F64>("other"), None);
}

fn sample_value(payload: &[u8]) -> Option<F64> {
    let parsed: serde_json::Value = serde_json::from_slice(payload).ok()?;
    parsed.get("value")?.as_f64().map(F64)
}

#[test]
fn cache_float_sample_inserts_valid_payload() {
    let mut cache = new_input_cache();
    let topic = "sites/x/devices/y/measurements/z/watts";
    let payload = br#"{"ts":"2026-05-17T00:00:00Z","value":42.5}"#;
    cache_float_sample(&mut cache, topic, sample_value(payload));
    let entry: F64 = cache.get(topic).expect("topic should be cached");
    assert!(close(entry, 42.5));
}

#[test]
fn cache_float_sample_drops_malformed_payload() {
    let mut cache = new_input_cache();
    cache_float_sample(&mut cache, "topic", sample_value(b"not json"));
    cache_float_sample(&mut cache, "topic", sample_value(br#"{"ts":"now"}"#));
    assert_eq!(cache.len(), 0);
}

// Site total.

#[test]
fn sums_every_cached_topic() {
    let cache = cached(&[("a", 100.0), ("b", 250.0)]);
    let total = sum_cached(&["a".to_string(), "b".to_string()], &cache);
    assert_eq!(total, Some(F64(350.0)));
}

#[test]
fn holds_when_any_source_missing() {
    let cache = cached(&[("a", 100.0)]);
    let total: Option<F64> = sum_cached(&["a".to_string(), "b".to_string()], &cache);
    assert_eq!(total, None);
}

#[test]
fn holds_when_no_source_topics_at_all() {
    let cache = new_input_cache();
    let total: Option<F64> = sum_cached(&[], &cache);
    assert_eq!(total, None);
}

#[test]
fn the_site_total_is_published_retained() {
    let cfg = DerDispatchTaskConfig {
        output_topic: "total".to_string(),
        source_topics: vec!["a".to_string(), "b".to_string()],
        tick_hz: F64(1.0),
    };
    assert!(actual_power::tick_once(&cfg, &cached(&[("a", 1.0)]), "t").is_none());
    let sample = actual_power::tick_once(&cfg, &cached(&[("a", 1.0), ("b", 2.5)]), "t").unwrap();
    assert_eq!(sample.topic, "total");
    assert_eq!(sample.payload, "{\"ts\":\"t\",\"value\":3.5}");
    assert_eq!(sample.qos, 0);
    assert!(sample.retained);
}

// Site distribution.

const SITE_ID: &str = "site_001";
const MODULE_CHARGE: &str =
    "sites/site_001/devices/bess_module_1/measurements/state_of_charge/percent";

fn distribute_binding(power_min: f64, power_max: f64) -> ProtocolBinding<F64> {
    ProtocolBinding::Distribute(DistributeBinding {
        allocation_policy: "soc_weighted".to_string(),
        children: vec![],
        ramp_rate_per_sec: None,
        hysteresis_margin: None,
        hysteresis_dwell_secs: None,
        power_min: Some(F64(power_min)),
        power_max: Some(F64(power_max)),
        import_limit_topic: None,
        export_limit_topic: None,
        active_power_topic: None,
    })
}

fn modbus_tcp(unit_id: &str, data_type: ModbusDataType) -> ModbusTcpBinding<F64> {
    ModbusTcpBinding {
        host: "127.0.0.1".to_string(),
        port: 502,
        unit_id: unit_id.to_string(),
        address: 50,
        scale: F64(1.0),
        offset: F64(0.0),
        data_type,
        word_order: WordOrder::HighLow,
    }
}

fn modbus_binding() -> ProtocolBinding<F64> {
    ProtocolBinding::ModbusTcp(modbus_tcp("1", ModbusDataType::Int32))
}

fn channels(
    devices: Vec<(&str, ProtocolBinding<F64>)>,
) -> StringMap<StringMap<ProtocolBinding<F64>>> {
    let mut all = StringMap::new();
    for (device_id, binding) in devices {
        let mut commands = StringMap::new();
        commands.insert("set_active_power".to_string(), binding);
        all.insert(device_id.to_string(), commands);
    }
    all
}

#[test]
fn discovers_modules_with_distribute_bindings_and_cached_soc() {
    let cache = cached(&[(MODULE_CHARGE, 70.0)]);
    let all = channels(vec![("bess_module_1", distribute_binding(-8_000_000.0, 8_000_000.0))]);
    let modules = modules_with_bounds(&all, &cache, SITE_ID, F64(400_000.0)).unwrap();
    assert_eq!(modules.len(), 1);
    assert_eq!(modules[0].device_id, "bess_module_1");
    assert_eq!(modules[0].headroom, F64(8_000_000.0));
    assert!(close(modules[0].state_of_charge, 70.0));
}

#[test]
fn headroom_is_direction_dependent_on_target_sign() {
    let cache = cached(&[(MODULE_CHARGE, 50.0)]);
    let all = channels(vec![("bess_module_1", distribute_binding(-8_000_000.0, 4_000_000.0))]);
    let modules = modules_with_bounds(&all, &cache, SITE_ID, F64(-100_000.0)).unwrap();
    assert_eq!(modules[0].headroom, F64(8_000_000.0));
}

#[test]
fn holds_when_a_known_modules_soc_is_not_cached() {
    let cache = new_input_cache();
    let all = channels(vec![("bess_module_1", distribute_binding(-8_000_000.0, 8_000_000.0))]);
    let modules = modules_with_bounds(&all, &cache, SITE_ID, F64(400_000.0));
    assert!(modules.is_none());
}

#[test]
fn skips_devices_without_a_distribute_bound_set_active_power_command() {
    let cache = new_input_cache();
    let all = channels(vec![("rack_1", modbus_binding())]);
    let modules = modules_with_bounds(&all, &cache, SITE_ID, F64(400_000.0)).unwrap();
    assert!(modules.is_empty());
}

#[test]
fn empty_channels_yields_no_modules() {
    let cache = new_input_cache();
    let all = channels(vec![]);
    let modules = modules_with_bounds(&all, &cache, SITE_ID, F64(400_000.0)).unwrap();
    assert!(modules.is_empty());
}

fn site_distribution_config() -> SiteDistributionConfig<F64> {
    SiteDistributionConfig {
        site_id: SITE_ID.to_string(),
        target_topic: "target".to_string(),
        event_active_topic: "active".to_string(),
        tick_hz: F64(1.0),
    }
}

#[test]
fn a_site_target_is_sent_only_while_an_event_is_on() {
    let cfg = site_distribution_config();
    let all = channels(vec![("bess_module_1", distribute_binding(-8.0, 8.0))]);
    let nothing_sent = StringMap::new();
    let off = cached(&[(MODULE_CHARGE, 70.0), ("target", 5.0), ("active", 0.0)]);
    assert!(site_distribution::tick_once(&cfg, &off, &all, &nothing_sent).is_empty());
    let on = cached(&[(MODULE_CHARGE, 70.0), ("target", 5.0), ("active", 1.0)]);
    let shares = site_distribution::tick_once(&cfg, &on, &all, &nothing_sent);
    assert_eq!(shares, vec![("bess_module_1".to_string(), F64(5.0))]);
}

#[test]
fn a_site_holds_until_everything_is_heard() {
    let cfg = site_distribution_config();
    let all = channels(vec![("bess_module_1", distribute_binding(-8.0, 8.0))]);
    let nothing_sent = StringMap::new();
    for heard in [
        cached(&[(MODULE_CHARGE, 70.0), ("target", 5.0)]),
        cached(&[(MODULE_CHARGE, 70.0), ("active", 1.0)]),
        cached(&[("target", 5.0), ("active", 1.0)]),
    ] {
        assert!(site_distribution::tick_once(&cfg, &heard, &all, &nothing_sent).is_empty());
    }
}

#[test]
fn a_share_that_was_sent_is_not_sent_again() {
    let cfg = site_distribution_config();
    let all = channels(vec![("bess_module_1", distribute_binding(-8.0, 8.0))]);
    let on = cached(&[(MODULE_CHARGE, 70.0), ("target", 5.0), ("active", 1.0)]);
    let mut sent = StringMap::new();
    let first = site_distribution::tick_once(&cfg, &on, &all, &sent);
    envelope::record_written(&mut sent, &first);
    assert!(site_distribution::tick_once(&cfg, &on, &all, &sent).is_empty());
}

#[test]
fn a_module_command_is_heard_as_that_modules_command() {
    let command = dispatch_one("s1", "bess_module_1", F64(2.5), "t", -7);
    assert_eq!(command.topic, "sites/s1/devices/bess_module_1/commands/set/active_power/watts");
    assert_eq!(
        command.payload,
        "{\"ts\":\"t\",\"value\":2.5,\"command_id\":\"site-dist--7\"}"
    );
    assert_eq!(command.qos, 1);
    assert!(!command.retained);
    let frame = CommandFrame {
        ts: "t".to_string(),
        value: F64(2.5),
        command_id: "site-dist--7".to_string(),
    };
    let heard = dispatch::accept_command(&command.topic, "s1", Some(frame)).unwrap();
    assert_eq!(heard.device_id, "bess_module_1");
    assert_eq!(heard.channel_key, "set_active_power");
}

// Distribute.

fn rack(id: &str) -> ChildAllocation<F64> {
    ChildAllocation {
        device_id: id.to_string(),
        operating_state_topic: format!(
            "sites/{{site_id}}/devices/{id}/measurements/operating_state/none"
        ),
        state_of_charge_topic: format!(
            "sites/{{site_id}}/devices/{id}/measurements/state_of_charge/percent"
        ),
        power_min: F64(-4_000_000.0),
        power_max: F64(4_000_000.0),
    }
}

fn rack_cache(racks: &[&str], state: f64, charge: f64) -> InputCache {
    let mut cache = new_input_cache();
    for rack in racks {
        cache.insert(
            format!("sites/site_001/devices/{rack}/measurements/operating_state/none"),
            F64(state),
        );
        cache.insert(
            format!("sites/site_001/devices/{rack}/measurements/state_of_charge/percent"),
            F64(charge),
        );
    }
    cache
}

fn split(policy: &str, racks: &[&str]) -> DistributeBinding<F64> {
    DistributeBinding {
        allocation_policy: policy.to_string(),
        children: racks.iter().map(|id| rack(id)).collect(),
        ramp_rate_per_sec: None,
        hysteresis_margin: None,
        hysteresis_dwell_secs: None,
        power_min: None,
        power_max: None,
        import_limit_topic: None,
        export_limit_topic: None,
        active_power_topic: None,
    }
}

#[test]
fn resolve_child_substitutes_site_id_before_cache_lookup() {
    let cache = rack_cache(&["rack_1"], 0.0, 65.0);
    let resolved = resolve_child(&rack("rack_1"), F64(100.0), "site_001", &cache).unwrap();
    assert_eq!(resolved.operating_state, OperatingState::Standby);
    assert!(close(resolved.state_of_charge, 65.0));
}

#[test]
fn operating_state_from_f64_maps_all_five_values() {
    for (raw, expected) in [
        (0.0, OperatingState::Standby),
        (1.0, OperatingState::Charging),
        (2.0, OperatingState::Discharging),
        (3.0, OperatingState::Fault),
        (4.0, OperatingState::Offline),
    ] {
        assert_eq!(operating_state_from(F64(raw)).unwrap(), expected);
    }
}

#[test]
fn operating_state_from_f64_rejects_out_of_range() {
    let err = operating_state_from(F64(5.0)).unwrap_err();
    assert_eq!(err.message(), "unknown operating_state value: 5");
}

#[test]
fn compute_shares_splits_equally_across_two_standby_children() {
    let cache = rack_cache(&["rack_1", "rack_2"], 0.0, 50.0);
    let binding = split("equal_split", &["rack_1", "rack_2"]);
    let mut shares = compute_shares(&binding, F64(200_000.0), "site_001", &cache).unwrap();
    shares.sort_by(|a, b| a.0.cmp(&b.0));
    assert_eq!(
        shares,
        vec![
            ("rack_1".to_string(), F64(100_000.0)),
            ("rack_2".to_string(), F64(100_000.0))
        ]
    );
}

#[test]
fn shares_need_a_policy_and_every_reading() {
    let cache = rack_cache(&["rack_1"], 0.0, 50.0);
    let odd = split("first_fit", &["rack_1"]);
    assert!(compute_shares(&odd, F64(1.0), "site_001", &cache).is_err());
    let unheard = split("equal_split", &["rack_1", "rack_2"]);
    let err = compute_shares(&unheard, F64(1.0), "site_001", &cache).unwrap_err();
    assert_eq!(err.message(), "no cached operating_state for rack_2");
    let mut half = rack_cache(&["rack_1"], 0.0, 50.0);
    half.insert(
        "sites/site_001/devices/rack_2/measurements/operating_state/none".to_string(),
        F64(0.0),
    );
    let err = compute_shares(&unheard, F64(1.0), "site_001", &half).unwrap_err();
    assert_eq!(err.message(), "no cached state_of_charge for rack_2");
}

// Commands.

fn command(device_id: &str, value: f64) -> dispatch::Command<F64> {
    let topic = format!("sites/site_001/devices/{device_id}/commands/set/active_power/watts");
    let frame =
        CommandFrame { ts: "t".to_string(), value: F64(value), command_id: "cmd-1".to_string() };
    dispatch::accept_command(&topic, "site_001", Some(frame)).unwrap()
}

#[test]
fn a_modbus_command_is_written_and_remembered() {
    let all = channels(vec![("rack_1", modbus_binding())]);
    let mut last = StringMap::new();
    let plan = dispatch::handle_command(
        &command("rack_1", 1_000_000.0),
        "site_001",
        &all,
        &StringMap::new(),
        None,
        &new_input_cache(),
        &mut last,
    )
    .unwrap();
    let mut work = Work::begin(Ok(plan));
    let write = work.due().unwrap();
    assert_eq!(write.unit_id, 1);
    assert_eq!(write.address, 50);
    assert_eq!(write.words, vec![0x000F, 0x4240]);
    work.note(Ok(()));
    assert!(work.due().is_none());
    assert!(work.conclude().is_ok());
    let asked = last.get("rack_1").unwrap().get("set_active_power").unwrap();
    assert_eq!(*asked, F64(1_000_000.0));
}

#[test]
fn a_distribute_command_writes_every_child_its_share() {
    let cache = rack_cache(&["rack_1", "rack_2"], 0.0, 50.0);
    let parent = ProtocolBinding::Distribute(split("equal_split", &["rack_1", "rack_2"]));
    let all = channels(vec![
        ("module_1", parent),
        ("rack_1", modbus_binding()),
        ("rack_2", modbus_binding()),
    ]);
    let mut last = StringMap::new();
    let plan = dispatch::handle_command(
        &command("module_1", 131_072.0),
        "site_001",
        &all,
        &StringMap::new(),
        None,
        &cache,
        &mut last,
    )
    .unwrap();
    match plan {
        SetpointPlan::Shares(shares) => {
            assert_eq!(shares.writes.len(), 2);
            assert_eq!(shares.writes[0].plan.words, vec![1, 0]);
            assert_eq!(shares.writes[1].plan.words, vec![1, 0]);
            assert!(shares.failure.is_none());
            let mut work = Work::begin(Ok(SetpointPlan::Shares(shares)));
            assert_eq!(work.due().unwrap().words, vec![1, 0]);
            work.note(Ok(()));
            assert!(work.due().is_some());
            work.note(Err(GatewayError { message: "timeout".to_string() }));
            assert!(work.due().is_none());
            work.note(Ok(()));
            assert_eq!(work.conclude().unwrap_err().message(), "write to child rack_2 failed");
        }
        SetpointPlan::Write(_) => panic!("shares expected"),
    }
}

#[test]
fn a_child_without_a_modbus_binding_ends_the_writes() {
    let cache = rack_cache(&["rack_1", "rack_2"], 0.0, 50.0);
    let binding = split("equal_split", &["rack_1", "rack_2"]);
    let shares = compute_shares(&binding, F64(2.0), "site_001", &cache).unwrap();
    let all = channels(vec![("rack_1", modbus_binding())]);
    let plan = dispatch::distribute::write_shares(
        &shares,
        "set_active_power",
        &all,
        &StringMap::new(),
        None,
    );
    let mut work = Work::begin(Ok(SetpointPlan::Shares(plan)));
    assert!(work.due().is_some());
    work.note(Ok(()));
    assert!(work.due().is_none());
    assert_eq!(
        work.conclude().unwrap_err().message(),
        "child rack_2 has no set_active_power binding"
    );
    let odd = channels(vec![("rack_1", distribute_binding(0.0, 0.0))]);
    let plan =
        dispatch::distribute::write_shares(&shares, "set_active_power", &odd, &StringMap::new(), None);
    let work = Work::begin(Ok(SetpointPlan::Shares(plan)));
    assert!(work.due().is_none());
    assert_eq!(
        work.conclude().unwrap_err().message(),
        "child rack_1's set_active_power binding is not modbus_tcp"
    );
}

#[test]
fn unknown_devices_and_commands_are_refused() {
    let all = channels(vec![("rack_1", modbus_binding())]);
    let mut last: StringMap<StringMap<F64>> = StringMap::new();
    let refuse = |c: &dispatch::Command<F64>, last: &mut StringMap<StringMap<F64>>| {
        dispatch::handle_command(
            c,
            "site_001",
            &all,
            &StringMap::new(),
            None,
            &new_input_cache(),
            last,
        )
        .unwrap_err()
    };
    let err = refuse(&command("rack_9", 1.0), &mut last);
    assert_eq!(err.message(), "unknown device rack_9");
    let mut other = command("rack_1", 1.0);
    other.channel_key = "enable_output".to_string();
    let err = refuse(&other, &mut last);
    assert_eq!(err.message(), "unknown command enable_output for device rack_1");
    assert!(last.get("rack_1").is_none());
}

#[test]
fn a_setpoint_that_was_not_planned_or_not_written_fails() {
    let work = Work::begin(Err(GatewayError { message: "unknown device rack_9".to_string() }));
    assert!(work.due().is_none());
    assert_eq!(work.conclude().unwrap_err().message(), "unknown device rack_9");
    let binding = modbus_tcp("1", ModbusDataType::Int32);
    let write = modbus::write_setpoint(&binding, F64(5.0), None, None).unwrap();
    let mut work = Work::begin(Ok(SetpointPlan::Write(write)));
    work.note(Err(GatewayError { message: "timeout".to_string() }));
    assert!(work.due().is_none());
    assert_eq!(work.conclude().unwrap_err().message(), "timeout");
}

// Modbus plans.

#[test]
fn a_measurement_is_read_and_scaled() {
    let mut binding = modbus_tcp("7", ModbusDataType::Int16);
    binding.scale = F64(0.5);
    binding.offset = F64(10.0);
    let plan = modbus::plan_read(&binding, None, None).unwrap();
    assert_eq!(plan.unit_id, 7);
    assert_eq!(plan.count, 1);
    assert_eq!(modbus::read_measurement(&binding, &[0xFFFE]), F64(9.0));
}

#[test]
fn a_unit_that_is_no_byte_is_refused() {
    for unit in ["256", "", "x"] {
        let binding = modbus_tcp(unit, ModbusDataType::Int32);
        let err = modbus::plan_read(&binding, None, None).unwrap_err();
        assert_eq!(err.message(), "unit_id must parse to u8 for Modbus");
        assert!(modbus::write_setpoint(&binding, F64(1.0), None, None).is_err());
    }
}

#[test]
fn registers_past_the_last_address_are_no_range() {
    let mut binding = modbus_tcp("1", ModbusDataType::Int32);
    binding.address = 0xFFFE;
    let plan = modbus::plan_read(&binding, None, None).unwrap();
    assert!(modbus::check_range(&plan).is_ok());
    binding.address = 0xFFFF;
    let plan = modbus::plan_read(&binding, None, None).unwrap();
    assert_eq!(
        modbus::check_range(&plan).unwrap_err().message(),
        "invalid modbus address range: \
         start == 65535 and count = 2 would overflow u16 representation"
    );
}

#[test]
fn a_write_needs_registers_that_are_there() {
    let mut binding = modbus_tcp("1", ModbusDataType::Int32);
    let mut plan = modbus::write_setpoint(&binding, F64(5.0), None, None).unwrap();
    assert!(modbus::check_request(&plan).is_ok());
    plan.words.clear();
    assert_eq!(
        modbus::check_request(&plan).unwrap_err().message(),
        "invalid modbus write request: range contains count == 0"
    );
    plan.words = vec![0; 0x1_0000];
    assert_eq!(
        modbus::check_request(&plan).unwrap_err().message(),
        "invalid modbus write request: \
         The requested count of objects exceeds the maximum value of u16: 65536"
    );
    binding.address = 0xFFFF;
    let plan = modbus::write_setpoint(&binding, F64(5.0), None, None).unwrap();
    assert_eq!(
        modbus::check_request(&plan).unwrap_err().message(),
        "invalid modbus write request: \
         start == 65535 and count = 2 would overflow u16 representation"
    );
}

#[test]
fn a_setpoint_is_read_back() {
    for data_type in [ModbusDataType::Int16, ModbusDataType::Int32, ModbusDataType::Float32] {
        let mut binding = modbus_tcp("1", data_type);
        binding.scale = F64(0.5);
        binding.offset = F64(-3.0);
        let plan = modbus::write_setpoint(&binding, F64(-17.5), None, None).unwrap();
        assert_eq!(modbus::read_measurement(&binding, &plan.words), F64(-17.5));
    }
}

// Rebalance tasks.

fn rebalance_task(binding: DistributeBinding<F64>) -> EnvelopeTaskConfig<F64> {
    EnvelopeTaskConfig {
        device_id: "module_1".to_string(),
        channel_key: "set_active_power".to_string(),
        guard: envelope::envelope_guard_config(&binding),
        binding: ProtocolBinding::Distribute(binding),
        tick_hz: F64(1.0),
    }
}

fn asked(value: f64) -> StringMap<StringMap<F64>> {
    let mut commands = StringMap::new();
    commands.insert("set_active_power".to_string(), F64(value));
    let mut all = StringMap::new();
    all.insert("module_1".to_string(), commands);
    all
}

#[test]
fn an_unguarded_task_rebalances_what_was_asked_for() {
    let cfg = rebalance_task(split("equal_split", &["rack_1"]));
    let cache = rack_cache(&["rack_1"], 0.0, 50.0);
    let all = channels(vec![("rack_1", modbus_binding())]);
    let mut controller = envelope::initial_controller(&cfg);
    assert!(controller.is_none());
    let mut written = StringMap::new();
    let last = asked(65_536.0);
    let first = envelope::tick_once(
        &cfg,
        &mut controller,
        &written,
        Span::from_secs(1),
        "site_001",
        &cache,
        &last,
        &all,
        &StringMap::new(),
        None,
    )
    .unwrap();
    assert_eq!(first.changed, vec![("rack_1".to_string(), F64(65_536.0))]);
    assert_eq!(first.plan.writes[0].plan.words, vec![1, 0]);
    envelope::record_written(&mut written, &first.changed);
    let second = envelope::tick_once(
        &cfg,
        &mut controller,
        &written,
        Span::from_secs(1),
        "site_001",
        &cache,
        &last,
        &all,
        &StringMap::new(),
        None,
    );
    assert!(second.is_none());
}

#[test]
fn a_guarded_task_clamps_to_the_import_limit() {
    let mut binding = split("equal_split", &["rack_1"]);
    binding.ramp_rate_per_sec = Some(F64(0.1));
    binding.hysteresis_margin = Some(F64(0.05));
    binding.hysteresis_dwell_secs = Some(F64(30.0));
    binding.power_min = Some(F64(-4_000_000.0));
    binding.power_max = Some(F64(4_000_000.0));
    binding.import_limit_topic = Some("import".to_string());
    binding.export_limit_topic = Some("export".to_string());
    binding.active_power_topic = Some("power".to_string());
    assert!(envelope::has_valid_dwell(&binding));
    let cfg = rebalance_task(binding);
    let all = channels(vec![("rack_1", modbus_binding())]);
    let mut controller = envelope::initial_controller(&cfg);
    assert!(controller.is_some());
    let last = asked(1_500_000.0);
    let mut cache = rack_cache(&["rack_1"], 0.0, 50.0);
    let silent = envelope::tick_once(
        &cfg,
        &mut controller,
        &StringMap::new(),
        Span::from_secs(1),
        "site_001",
        &cache,
        &last,
        &all,
        &StringMap::new(),
        None,
    );
    assert!(silent.is_none());
    cache.insert("power".to_string(), F64(1_000_000.0));
    cache.insert("import".to_string(), F64(1_000_000.0));
    assert!(envelope::can_tick_once(
        &cfg,
        &controller,
        Span::from_secs(1),
        "site_001",
        &cache,
        &last
    ));
    let rebalance = envelope::tick_once(
        &cfg,
        &mut controller,
        &StringMap::new(),
        Span::from_secs(1),
        "site_001",
        &cache,
        &last,
        &all,
        &StringMap::new(),
        None,
    )
    .unwrap();
    assert_eq!(rebalance.changed, vec![("rack_1".to_string(), F64(1_000_000.0))]);
}

#[test]
fn a_dwell_that_is_no_span_is_not_valid() {
    let mut binding = split("equal_split", &[]);
    binding.hysteresis_dwell_secs = Some(F64(-1.0));
    binding.ramp_rate_per_sec = Some(F64(0.1));
    binding.hysteresis_margin = Some(F64(0.05));
    binding.power_min = Some(F64(-1.0));
    binding.power_max = Some(F64(1.0));
    binding.import_limit_topic = Some("import".to_string());
    binding.export_limit_topic = Some("export".to_string());
    binding.active_power_topic = Some("power".to_string());
    assert!(!envelope::has_valid_dwell(&binding));
}

// Poll rates.

#[test]
fn poll_rates_are_held_to_their_range() {
    assert_eq!(app::clamp_poll_rate::<F64>(None), F64(1.0));
    assert_eq!(app::clamp_poll_rate(Some(F64(0.001))), F64(0.01));
    assert_eq!(app::clamp_poll_rate(Some(F64(50.0))), F64(10.0));
    assert_eq!(app::clamp_poll_rate(Some(F64(2.5))), F64(2.5));
    for rate in [0.0, 0.01, 3.0, 10.0, 11.0] {
        let once = app::clamp_poll_rate(Some(F64(rate)));
        assert_eq!(app::clamp_poll_rate(Some(once)), once);
    }
}

#[test]
fn a_poll_rate_has_a_period() {
    assert_eq!(app::hz_to_poll_period(F64(10.0)), Some(100_000_000));
    assert_eq!(app::hz_to_poll_period(F64(0.01)), Some(100_000_000_000));
    assert_eq!(app::hz_to_poll_period(F64(-1.0)), None);
}

// Readings of other protocols.

#[test]
fn a_reading_is_published_at_least_once() {
    let reading = publish_measurement("topic", "now", F64(1.5));
    assert_eq!(reading.topic, "topic");
    assert_eq!(reading.sample.ts, "now");
    assert_eq!(reading.sample.value, F64(1.5));
    assert_eq!(reading.qos, 1);
}

fn redfish_binding(
    json_pointer: Option<&str>,
) -> ems_industrial_gateway::asyncapi::types::RedfishBinding {
    ems_industrial_gateway::asyncapi::types::RedfishBinding {
        host: "bmc".to_string(),
        port: 8000,
        uri: "/Chassis/1/Power".to_string(),
        json_pointer: json_pointer.map(str::to_string),
    }
}

#[test]
fn a_redfish_value_is_found_by_pointer() {
    let b = redfish_binding(Some("/PowerControl/0/PowerConsumedWatts"));
    let body = r#"{"PowerControl":[{"PowerConsumedWatts":344.5}]}"#;
    assert_eq!(redfish::read_measurement::<F64>(&b, "u", body).unwrap(), F64(344.5));
    let whole = redfish_binding(None);
    assert_eq!(redfish::read_measurement::<F64>(&whole, "u", "12").unwrap(), F64(12.0));
}

#[test]
fn a_redfish_value_that_is_not_there_is_told() {
    let b = redfish_binding(Some("/a"));
    let err = redfish::read_measurement::<F64>(&b, "http://u", "{}").unwrap_err();
    assert_eq!(err.message(), "json pointer /a missed in response from http://u");
    let err = redfish::read_measurement::<F64>(&b, "http://u", r#"{"a":"x"}"#).unwrap_err();
    assert_eq!(err.message(), "expected numeric Redfish value at http://u, got String(\"x\")");
    let err = redfish::read_measurement::<F64>(&b, "http://u", "no").unwrap_err();
    assert_eq!(err.message(), "parse Redfish JSON");
}

/// A response frame around the encoding of some values.
fn bacnet_frame(values: &[u8]) -> Vec<u8> {
    let mut frame = vec![0x81, 0x0A, 0, 0, 1, 0, 0x30, 1, 12];
    frame.extend_from_slice(&[0x0C, 0, 0, 0, 1, 0x19, 0x55, 0x3E]);
    frame.extend_from_slice(values);
    frame.push(0x3F);
    frame
}

fn bacnet_read(values: &[u8]) -> Result<F64, String> {
    match bacnet::parse_response::<F64>(&bacnet_frame(values)) {
        Some(Ok(v)) => Ok(v),
        Some(Err(e)) => Err(e.message),
        None => Err("unsound".to_string()),
    }
}

#[test]
fn a_bacnet_response_brings_its_first_number() {
    assert_eq!(bacnet_read(&[0x44, 0x41, 0xBC, 0, 0]), Ok(F64(23.5)));
    assert_eq!(bacnet_read(&[0x21, 0x7B]), Ok(F64(123.0)));
    assert_eq!(bacnet_read(&[0x31, 0xFF]), Ok(F64(-1.0)));
    assert_eq!(bacnet_read(&[0x55, 8, 0x3F, 0xF8, 0, 0, 0, 0, 0, 0]), Ok(F64(1.5)));
    assert_eq!(bacnet_read(&[0x11, 0x91, 4, 0x21, 9]), Ok(F64(9.0)));
    assert_eq!(
        bacnet_read(&[0x75, 3, 0, b'h', b'i', 0x82, 4, 0xA0, 0x00, 0x21, 9]),
        Ok(F64(9.0))
    );
}

#[test]
fn a_bacnet_response_without_a_number_is_told() {
    assert_eq!(bacnet_read(&[0x11]), Err("no numeric value in response".to_string()));
    assert_eq!(bacnet_read(&[]), Err("no numeric value in response".to_string()));
    assert_eq!(bacnet_read(&[0x44, 0x41]), Err("rp resp decode: BufferUnderflow".to_string()));
}

#[test]
fn an_oversized_bacnet_integer_has_no_answer() {
    assert_eq!(bacnet_read(&[0x25, 9, 0, 0, 0, 0, 0, 0, 0, 0, 1]), Err("unsound".to_string()));
    assert_eq!(
        bacnet_read(&[0x11, 0x35, 9, 0, 0, 0, 0, 0, 0, 0, 0, 1]),
        Err("unsound".to_string())
    );
    assert_eq!(
        bacnet_read(&[0x25, 8, 0, 0, 0, 0, 0, 0, 0, 1]),
        Ok(F64(1.0))
    );
    let after_a_malformed_value = [0x41, 0, 0x25, 9, 0, 0, 0, 0, 0, 0, 0, 0, 1];
    assert_eq!(
        bacnet_read(&after_a_malformed_value),
        Err("rp resp decode: InvalidLength".to_string())
    );
}

#[test]
fn bacnet_values_become_numbers() {
    assert_eq!(bacnet::to_number(BacnetValue::Real(0x3FC0_0000)), Some(F64(1.5)));
    assert_eq!(bacnet::to_number(BacnetValue::Signed(-2)), Some(F64(-2.0)));
    assert_eq!(bacnet::to_number::<F64>(BacnetValue::Other), None);
}
