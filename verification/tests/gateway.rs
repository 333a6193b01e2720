//! Topics, commands, documents and protocols, in whole numbers.

use ems_industrial_gateway::app;
use ems_industrial_gateway::asyncapi::trust::{
    DeviceTrust, Snmpv3AuthProtocol, Snmpv3PrivProtocol,
};
use ems_industrial_gateway::asyncapi::types::{
    AsyncApiSpec, BacnetIpBinding, BacnetScBinding, ChildAllocation, CommandSource,
    DistributeBinding, Dnp3TcpBinding, ModbusTcpBinding, ProtocolBinding, ProtocolSource,
    RedfishBinding, SnmpBinding, SpecInfo, SyntheticBinding, WeightedPair,
};
use ems_industrial_gateway::bacnet::client as bacnet;
use ems_industrial_gateway::bacnet::client::BacnetValue;
use ems_industrial_gateway::bacnet_sc::client as bacnet_sc;
use ems_industrial_gateway::bacnet_sc::client::parse_vmac;
use ems_industrial_gateway::bootstrap::{
    config_from_contract, config_from_outputs, gateway_secret_name, stack_outputs, StackOutput,
};
use ems_industrial_gateway::config::tree::{Key, Node};
use ems_industrial_gateway::config::yaml::{load_config_text, read_yaml};
use ems_industrial_gateway::config::{Config, GatewayCredentials, LogLevel};
use ems_industrial_gateway::dispatch;
use ems_industrial_gateway::dispatch::allocation::AllocationPolicy;
use ems_industrial_gateway::dispatch::topic::{event_topic, parse_command_topic};
use ems_industrial_gateway::dispatch::{event_payload, CommandFrame, Phase};
use ems_industrial_gateway::dnp3::client as dnp3;
use ems_industrial_gateway::error::GatewayError;
use ems_industrial_gateway::http::client as http;
use ems_industrial_gateway::http::client::{Attempt, Verdict};
use ems_industrial_gateway::json::{number_at, Lookup};
use ems_industrial_gateway::modbus::client::Dial;
use ems_industrial_gateway::modbus::codec::{
    decode_int32, decode_uint32, encode_int32, encode_uint32, ModbusDataType, WordOrder,
};
use ems_industrial_gateway::mqtt::publisher::{classify_connect_error, ConnectReturn};
use ems_industrial_gateway::mqtt::subscriber;
use ems_industrial_gateway::mqtt::subscriber::Route;
use ems_industrial_gateway::redfish::client as redfish;
use ems_industrial_gateway::retry::Attempts;
use ems_industrial_gateway::run;
use ems_industrial_gateway::run::{step, RunAction, RunEvent, RunState};
use ems_industrial_gateway::snmp::client as snmp;
use ems_industrial_gateway::snmp::client::{SnmpSession, SnmpValue};
use ems_industrial_gateway::string_map::StringMap;
use ems_industrial_gateway::synthetic::formula::Formula;
use ems_industrial_gateway::synthetic::operation::Operation;
use ems_industrial_gateway::synthetic::task::Computation;

// Names.

#[test]
fn parse_recognizes_both_policies() {
    assert_eq!(AllocationPolicy::parse("equal_split").unwrap(), AllocationPolicy::EqualSplit);
    assert_eq!(AllocationPolicy::parse("soc_weighted").unwrap(), AllocationPolicy::SocWeighted);
}

#[test]
fn parse_rejects_unknown_policy() {
    assert!(AllocationPolicy::parse("first_fit").is_err());
}

#[test]
fn parse_recognizes_all_five_formulas() {
    for (name, expected) in [
        ("subtract", Formula::Subtract),
        ("sum", Formula::Sum),
        ("mean", Formula::Mean),
        ("max", Formula::Max),
        ("min", Formula::Min),
    ] {
        assert_eq!(Formula::parse(name).unwrap(), expected);
    }
}

#[test]
fn parse_rejects_unknown_formula() {
    assert!(Formula::parse("divide").is_err());
}

#[test]
fn parse_recognizes_all_five_operations() {
    for (name, expected) in [
        ("subtract", Operation::Subtract),
        ("sum", Operation::Sum),
        ("mean", Operation::Mean),
        ("max", Operation::Max),
        ("min", Operation::Min),
    ] {
        assert_eq!(Operation::parse(name).unwrap(), expected);
    }
}

#[test]
fn parse_rejects_unknown_operation() {
    assert!(Operation::parse("divide").is_err());
}

// Modbus words.

#[test]
fn register_count_matches_wire_width() {
    assert_eq!(ModbusDataType::Uint16.register_count(), 1);
    assert_eq!(ModbusDataType::Int16.register_count(), 1);
    assert_eq!(ModbusDataType::Int32.register_count(), 2);
    assert_eq!(ModbusDataType::Uint32.register_count(), 2);
    assert_eq!(ModbusDataType::Float32.register_count(), 2);
}

#[test]
fn decode_int32_high_low() {
    assert_eq!(decode_int32(&[0x000F, 0x4240], WordOrder::HighLow), 1_000_000);
}

#[test]
fn encode_int32_high_low() {
    assert_eq!(encode_int32(1_000_000, WordOrder::HighLow), [0x000F, 0x4240]);
}

#[test]
fn encode_decode_int32_round_trips() {
    let value = -3_800_000;
    let words = encode_int32(value, WordOrder::HighLow);
    assert_eq!(decode_int32(&words, WordOrder::HighLow), value);
}

#[test]
fn unsigned_words_round_trip_in_both_orders() {
    for order in [WordOrder::HighLow, WordOrder::LowHigh] {
        for value in [0u32, 1, 65_535, 65_536, u32::MAX] {
            assert_eq!(decode_uint32(&encode_uint32(value, order), order), value);
        }
        for words in [[1u16, 2], [0xFFFF, 0]] {
            assert_eq!(encode_uint32(decode_uint32(&words, order), order), words);
        }
    }
    assert_eq!(encode_uint32(0x0001_0002, WordOrder::LowHigh), [2, 1]);
}

#[test]
fn the_defaults_are_two_signed_registers_high_word_first() {
    assert_eq!(WordOrder::default(), WordOrder::HighLow);
    assert_eq!(ModbusDataType::default(), ModbusDataType::Int32);
}

// Command topics.

#[test]
fn dispatch_parses_device_verb_target_from_command_topic() {
    let topic = "sites/s1/devices/bess_module_01/commands/set/active_power/watts";
    let parsed = parse_command_topic(topic, "s1").unwrap();
    assert_eq!(parsed.device_id, "bess_module_01");
    assert_eq!(parsed.verb, "set");
    assert_eq!(parsed.target, "active_power");
}

#[test]
fn dispatch_rejects_other_site_and_non_command_topics() {
    assert!(parse_command_topic("sites/other/devices/d/commands/set/x/w", "s1").is_none());
    assert!(parse_command_topic("sites/s1/devices/d/measurements/x/w", "s1").is_none());
    assert!(parse_command_topic("sites/s1/devices", "s1").is_none());
    assert!(parse_command_topic("sites/s1/devices/d/commands/set", "s1").is_none());
}

#[test]
fn topic_parses_device_verb_target_from_command_topic() {
    let topic = "sites/s1/devices/bess_module_01/commands/set/active_power/watts";
    let parsed = parse_command_topic(topic, "s1").unwrap();
    assert_eq!(parsed.device_id, "bess_module_01");
    assert_eq!(parsed.verb, "set");
    assert_eq!(parsed.target, "active_power");
}

#[test]
fn topic_rejects_other_site_and_non_command_topics() {
    assert!(parse_command_topic("sites/other/devices/d/commands/set/x/w", "s1").is_none());
    assert!(parse_command_topic("sites/s1/devices/d/measurements/x/w", "s1").is_none());
    assert!(parse_command_topic("sites/s1/devices", "s1").is_none());
    assert!(parse_command_topic("sites/s1/devices/d/commands/set", "s1").is_none());
}

#[test]
fn empty_segments_are_no_command() {
    assert!(parse_command_topic("sites/s1/devices//commands/set/x/w", "s1").is_none());
    assert!(parse_command_topic("sites/s1/devices/d/commands//x/w", "s1").is_none());
    assert!(parse_command_topic("sites/s1/devices/d/commands/set//w", "s1").is_none());
}

#[test]
fn a_command_topic_has_a_fixed_depth() {
    assert!(parse_command_topic("sites/s1/devices/d/commands/set/x/w", "s1").is_some());
    assert!(parse_command_topic("sites/s1/devices/d/commands/set/x", "s1").is_none());
    assert!(parse_command_topic("sites/s1/devices/d/commands/set/x/w/y", "s1").is_none());
    assert_eq!(
        subscriber::route("sites/s1/devices/d/commands/set/x/w/y", "s1"),
        Route::Sample
    );
    assert_eq!(subscriber::route("sites/s1/devices/d/commands/set/x", "s1"), Route::Sample);
    assert_eq!(subscriber::command_filter("s1"), "sites/s1/devices/+/commands/+/+/+");
}

#[test]
fn events_go_to_the_device() {
    assert_eq!(event_topic("s1", "d1"), "sites/s1/devices/d1/events/dispatch_state");
}

// Lifecycle events.

#[test]
fn dispatch_event_payload_carries_contract_fields() {
    let done = event_payload("2026-07-03T00:00:00Z", "cmd-1", Phase::Done, None);
    let failed =
        event_payload("2026-07-03T00:00:00Z", "cmd-2", Phase::Failed, Some("unknown device x"));
    let d: serde_json::Value = serde_json::from_str(&done).unwrap();
    assert_eq!(d["phase"], "done");
    assert_eq!(d["command_id"], "cmd-1");
    assert!(d.get("reason").is_none());
    let f: serde_json::Value = serde_json::from_str(&failed).unwrap();
    assert_eq!(f["phase"], "failed");
    assert_eq!(f["reason"], "unknown device x");
}

#[test]
fn mod_test_event_payload_carries_contract_fields() {
    let done = event_payload("2026-07-03T00:00:00Z", "cmd-1", Phase::Done, None);
    let failed =
        event_payload("2026-07-03T00:00:00Z", "cmd-2", Phase::Failed, Some("unknown device x"));
    let d: serde_json::Value = serde_json::from_str(&done).unwrap();
    assert_eq!(d["phase"], "done");
    assert_eq!(d["command_id"], "cmd-1");
    assert!(d.get("reason").is_none());
    let f: serde_json::Value = serde_json::from_str(&failed).unwrap();
    assert_eq!(f["phase"], "failed");
    assert_eq!(f["reason"], "unknown device x");
}

#[test]
fn texts_in_events_are_escaped() {
    let payload = event_payload("t", "a\"b", Phase::Failed, Some("line\nbreak"));
    let parsed: serde_json::Value = serde_json::from_str(&payload).unwrap();
    assert_eq!(parsed["command_id"], "a\"b");
    assert_eq!(parsed["reason"], "line\nbreak");
    assert_eq!(
        payload,
        "{\"command_id\":\"a\\\"b\",\"phase\":\"failed\",\"reason\":\"line\\nbreak\",\"ts\":\"t\"}"
    );
    let odd = event_payload("t", "\u{1}\u{1f}\u{8}\u{c}\r\t\\/\u{7f}\u{e9}", Phase::Done, None);
    assert_eq!(
        odd,
        "{\"command_id\":\"\\u0001\\u001f\\b\\f\\r\\t\\\\/\u{7f}\u{e9}\",\"phase\":\"done\",\"ts\":\"t\"}"
    );
    assert!(odd != event_payload("t", "cmd-1", Phase::Done, None));
}

#[test]
fn a_command_is_acked_and_concluded() {
    let topic = "sites/s1/devices/d1/commands/set/active_power/watts";
    let frame = CommandFrame { ts: "t".to_string(), value: 5i64, command_id: "c".to_string() };
    let command = dispatch::accept_command(topic, "s1", Some(frame)).unwrap();
    assert_eq!(command.channel_key, "set_active_power");
    assert_eq!(command.value, 5);
    let ack = dispatch::received(&command, "now");
    assert_eq!(ack.topic, "sites/s1/devices/d1/events/dispatch_state");
    assert_eq!(ack.payload, "{\"command_id\":\"c\",\"phase\":\"received\",\"ts\":\"now\"}");
    assert_eq!(ack.qos, 1);
    assert!(ack.retained);
    let done = dispatch::concluded(&command, "now", &Ok(()));
    assert_eq!(done.payload, "{\"command_id\":\"c\",\"phase\":\"done\",\"ts\":\"now\"}");
    let failed = dispatch::concluded(
        &command,
        "now",
        &Err(GatewayError { message: "no way".to_string() }),
    );
    assert_eq!(
        failed.payload,
        "{\"command_id\":\"c\",\"phase\":\"failed\",\"reason\":\"no way\",\"ts\":\"now\"}"
    );
}

#[test]
fn a_frame_that_cannot_be_read_is_dropped() {
    let topic = "sites/s1/devices/d1/commands/set/active_power/watts";
    assert!(dispatch::accept_command::<i64>(topic, "s1", None).is_none());
}

#[test]
fn other_protocols_take_no_commands() {
    for (binding, name) in [
        (
            ProtocolBinding::Snmp(SnmpBinding {
                host: "h".to_string(),
                port: 161,
                oid: "1.3".to_string(),
            }),
            "snmp",
        ),
        (ProtocolBinding::Redfish(redfish_binding()), "redfish"),
        (ProtocolBinding::Dnp3Tcp(dnp3_binding("analog_input", 1)), "dnp3_tcp"),
        (ProtocolBinding::BacnetIp(bacnet_binding(1)), "bacnet_ip"),
        (ProtocolBinding::BacnetSc(bacnet_sc_binding("AABBCCDDEEFF")), "bacnet_sc"),
    ] {
        let refused: ProtocolBinding<i64> = binding;
        let err = dispatch::execute_setpoint(
            &refused,
            1,
            "d",
            "set_x",
            "s1",
            &StringMap::new(),
            &StringMap::new(),
            None,
            &ems_industrial_gateway::synthetic::cache::new_input_cache(),
        )
        .unwrap_err();
        assert_eq!(err.message(), format!("unsupported protocol for commands: {name}"));
    }
}

// BACnet/SC.

fn bacnet_sc_binding(device_vmac: &str) -> BacnetScBinding {
    BacnetScBinding {
        hub_url: "wss://hub".to_string(),
        device_vmac: device_vmac.to_string(),
        object_type: "analog_input".to_string(),
        object_instance: 1,
        property_id: "present_value".to_string(),
    }
}

#[test]
fn parse_vmac_accepts_colon_form() {
    let v = parse_vmac("AA:BB:CC:DD:EE:FF").unwrap();
    assert_eq!(v, [0xAA, 0xBB, 0xCC, 0xDD, 0xEE, 0xFF]);
}

#[test]
fn parse_vmac_accepts_dense_form() {
    let v = parse_vmac("AABBCCDDEEFF").unwrap();
    assert_eq!(v, [0xAA, 0xBB, 0xCC, 0xDD, 0xEE, 0xFF]);
}

#[test]
fn separators_of_an_address_do_not_matter() {
    assert_eq!(parse_vmac("A-A-b.b CCDDEE:FF").unwrap(), parse_vmac("AAbbCCDDEEFF").unwrap());
}

#[test]
fn parse_vmac_rejects_short_input() {
    assert!(parse_vmac("AA:BB:CC").is_err());
    let err = parse_vmac("A\"B").unwrap_err();
    assert_eq!(err.message(), "VMAC must be 12 hex digits (got 2 from \"A\\\"B\")");
}

#[test]
fn identities_are_random() {
    let v = bacnet_sc::random_vmac(Some([9, 8, 7, 6, 5, 4]), Some(0x0403_0201));
    assert_eq!(v, [9, 8, 7, 6, 5, 4]);
    let u = bacnet_sc::random_uuid(Some([3; 16]), None);
    assert_eq!(u, [3; 16]);
}

#[test]
fn identities_are_spread_from_the_clock_without_random_bytes() {
    let v = bacnet_sc::random_vmac(None, Some(0x0403_0201));
    assert_eq!(v, [1, 2 ^ 31, 3 ^ 62, 4 ^ 93, 1 ^ 124, 2 ^ 155]);
    let u = bacnet_sc::random_uuid(None, None);
    assert_eq!(u[0], 0xEF);
    assert_eq!(u[1], 0xBE ^ 31);
    assert_eq!(u[15], 0xDE ^ 209);
}

#[test]
fn a_secure_read_needs_credentials_and_an_analog_input() {
    let creds = credentials();
    let plan = bacnet_sc::plan_read(&bacnet_sc_binding("AA:BB:CC:DD:EE:0f"), Some(&creds)).unwrap();
    assert_eq!(plan.dest_vmac, [0xAA, 0xBB, 0xCC, 0xDD, 0xEE, 0x0F]);
    assert_eq!(plan.credentials.key_path, creds.key_path);
    let err = bacnet_sc::plan_read(&bacnet_sc_binding("AABBCCDDEEFF"), None).unwrap_err();
    assert!(err.message().starts_with("BACnet/SC requires gateway_credentials"));
    let mut odd = bacnet_sc_binding("AABBCCDDEEFF");
    odd.object_type = "binary_input".to_string();
    let err = bacnet_sc::plan_read(&odd, Some(&creds)).unwrap_err();
    assert_eq!(
        err.message(),
        "Tier 1 BACnet/SC only supports analog_input object_type, got binary_input"
    );
    let err = bacnet_sc::plan_read(&bacnet_sc_binding("x"), Some(&creds)).unwrap_err();
    assert!(err.message().starts_with("VMAC must be"));
}

#[test]
fn only_numeric_values_are_taken() {
    assert_eq!(bacnet_sc::coerce_to_number::<i64>(BacnetValue::Signed(-3), "s").unwrap(), -3i64);
    let err = bacnet_sc::coerce_to_number::<i64>(BacnetValue::Other, "Null").unwrap_err();
    assert_eq!(
        err.message(),
        "Tier 1 BACnet/SC only supports numeric PropertyValue variants, got Null"
    );
}

// BACnet/IP.

fn bacnet_binding(object_instance: u32) -> BacnetIpBinding {
    BacnetIpBinding {
        host: "h".to_string(),
        port: 47808,
        device_instance: 1,
        object_type: "analog_input".to_string(),
        object_instance,
        property_id: "present_value".to_string(),
    }
}

#[test]
fn a_bacnet_request_is_framed() {
    let frame = bacnet::request_frame(&bacnet_binding(0x01_0203)).unwrap();
    assert_eq!(
        frame,
        vec![
            0x81, 0x0A, 0, 17, 1, 4, 0x02, 0x05, 1, 12, 0x0C, 0, 1, 2, 3, 0x19, 0x55
        ]
    );
}

#[test]
fn a_bacnet_request_is_refused_where_it_cannot_be_made() {
    let err = bacnet::request_frame(&bacnet_binding(0x40_0000)).unwrap_err();
    assert_eq!(err.message(), "rp encode: ValueOutOfRange");
    let mut odd = bacnet_binding(1);
    odd.property_id = "units".to_string();
    let err = bacnet::request_frame(&odd).unwrap_err();
    assert_eq!(
        err.message(),
        "Tier 1 BACnet only supports present_value property_id, got units"
    );
    odd.object_type = "device".to_string();
    let err = bacnet::request_frame(&odd).unwrap_err();
    assert_eq!(
        err.message(),
        "Tier 1 BACnet only supports analog_input object_type, got device"
    );
}

#[test]
fn frames_that_bring_no_data_are_told() {
    let read = |frame: &[u8]| bacnet::service_data(frame).unwrap_err().message;
    assert_eq!(read(&[0x81, 0x0A]), "not a BACnet/IP BVLC frame");
    assert_eq!(read(&[0x80, 0x0A, 0, 4]), "not a BACnet/IP BVLC frame");
    assert!(read(&[0x81, 0x0A, 0, 6, 2, 0]).starts_with("npdu decode: "));
    assert!(read(&[0x81, 0x0A, 0, 6, 1, 0]).starts_with("apdu decode: "));
    assert_eq!(
        read(&[0x81, 0x0A, 0, 0, 1, 0, 0x50, 1, 12, 0x91, 2, 0x91, 31]),
        "bacnet error: class=2 code=31"
    );
    assert_eq!(read(&[0x81, 0x0A, 0, 0, 1, 0, 0x20, 1, 12]), "unexpected apdu type");
    assert_eq!(read(&[0x81, 0x0A, 0, 0, 1, 0, 0x30, 1, 14, 7]), "unexpected apdu type");
    let data = bacnet::service_data(&[0x81, 0x0A, 0, 0, 1, 0, 0x30, 1, 12, 7, 8]).unwrap();
    assert_eq!(data, vec![7, 8]);
}

// DNP3.

fn dnp3_binding(point_type: &str, point_index: u16) -> Dnp3TcpBinding {
    Dnp3TcpBinding {
        host: "relay".to_string(),
        port: 20000,
        point_index,
        point_type: point_type.to_string(),
        variation: None,
    }
}

#[test]
fn a_dnp3_read_is_planned() {
    let plan = dnp3::plan_read(&dnp3_binding("analog_input", 7), None, None).unwrap();
    assert_eq!(plan.endpoint, "relay:20000");
    assert_eq!(plan.point_index, 7);
    let err = dnp3::plan_read(&dnp3_binding("counter", 7), None, None).unwrap_err();
    assert_eq!(err.message(), "Tier 1 DNP3 only supports analog_input point_type, got counter");
}

#[test]
fn a_dnp3_index_fits_one_byte() {
    assert_eq!(dnp3::request_index(255).unwrap(), 255);
    let err = dnp3::request_index(256).unwrap_err();
    assert_eq!(err.message(), "point_index must fit in u8 for Tier 1");
}

#[test]
fn the_last_captured_value_of_a_point_counts() {
    let captured = [(1u16, 10i64), (2, 20), (1, 11)];
    assert_eq!(dnp3::read_point(&captured, 1).unwrap(), 11);
    let err = dnp3::read_point(&captured, 3).unwrap_err();
    assert_eq!(err.message(), "no AnalogInput at index 3 in response");
}

// SNMP.

fn oid_text(octets: Vec<u8>) -> String {
    snmp2::Oid::new(std::borrow::Cow::Owned(octets)).to_string()
}

#[test]
fn parse_dotted_oid_handles_sysuptime() {
    let oid = snmp::parse_dotted_oid("1.3.6.1.2.1.1.3.0").unwrap();
    assert_eq!(oid, vec![0x2B, 6, 1, 2, 1, 1, 3, 0]);
    assert_eq!(oid_text(oid), "1.3.6.1.2.1.1.3.0");
}

#[test]
fn numbers_of_an_oid_take_the_octets_they_need() {
    let oid = snmp::parse_dotted_oid("1.3.6.1.4.1.41999.127.128").unwrap();
    assert_eq!(oid, vec![0x2B, 6, 1, 4, 1, 0x82, 0xC8, 0x0F, 0x7F, 0x81, 0x00]);
    assert_eq!(snmp::parse_dotted_oid("0").unwrap(), vec![0]);
    assert_eq!(snmp::parse_dotted_oid("6.39").unwrap(), vec![23]);
}

#[test]
fn texts_that_are_no_oid_are_told() {
    let told = |s: &str| snmp::parse_dotted_oid(s).unwrap_err().message;
    assert_eq!(told("1.3.x"), "parse OID dotted-numeric: 1.3.x");
    assert_eq!(told(""), "parse OID dotted-numeric: ");
    assert_eq!(told("1"), "invalid OID 1: TooShort");
    assert_eq!(told("9.3.1"), "invalid OID 9.3.1: FirstComponentsTooLarge");
    assert_eq!(told("1.40"), "invalid OID 1.40: FirstComponentsTooLarge");
}

#[test]
fn an_agent_is_asked_by_v3_only_with_a_security_name() {
    let binding = SnmpBinding { host: "sw".to_string(), port: 161, oid: "1.3.6".to_string() };
    let plan = snmp::plan_read(&binding, None).unwrap();
    assert_eq!(plan.endpoint, "sw:161");
    assert!(matches!(plan.session, SnmpSession::V2c));
    let trust = DeviceTrust::Snmpv3Usm {
        security_name: "gw".to_string(),
        auth_protocol: Snmpv3AuthProtocol::Sha384,
        priv_protocol: Snmpv3PrivProtocol::Aes192,
    };
    match snmp::plan_read(&binding, Some(&trust)).unwrap().session {
        SnmpSession::V3 { security_name, auth_protocol, priv_protocol } => {
            assert_eq!(security_name, "gw");
            assert_eq!(auth_protocol, Snmpv3AuthProtocol::Sha384);
            assert_eq!(priv_protocol, Snmpv3PrivProtocol::Aes192);
        }
        SnmpSession::V2c => panic!("v3 expected"),
    }
}

#[test]
fn passphrases_are_keyed_by_the_security_name() {
    let variables = snmp::usm_variables("gw-test");
    assert_eq!(variables.0, "SNMP_USM_GW_TEST_AUTH_PASSPHRASE");
    assert_eq!(variables.1, "SNMP_USM_GW_TEST_PRIV_PASSPHRASE");
    let both = snmp::load_usm_passphrases(
        &variables,
        Some("authsecret".to_string()),
        Some("privsecret".to_string()),
    )
    .unwrap();
    assert_eq!(both, ("authsecret".to_string(), "privsecret".to_string()));
    let err = snmp::load_usm_passphrases(&variables, None, None).unwrap_err();
    assert_eq!(err.message(), "missing required env: SNMP_USM_GW_TEST_AUTH_PASSPHRASE");
    let err = snmp::load_usm_passphrases(&variables, Some("a".to_string()), None).unwrap_err();
    assert_eq!(err.message(), "missing required env: SNMP_USM_GW_TEST_PRIV_PASSPHRASE");
}

#[test]
fn integer_shaped_values_are_taken() {
    assert_eq!(snmp::extract_integer::<i64>(Some(SnmpValue::Integer(-4))).unwrap(), -4i64);
    assert_eq!(snmp::extract_integer::<i64>(Some(SnmpValue::Counter32(4))).unwrap(), 4i64);
    assert_eq!(snmp::extract_integer::<i64>(Some(SnmpValue::Unsigned32(5))).unwrap(), 5i64);
    assert_eq!(snmp::extract_integer::<i64>(Some(SnmpValue::Counter64(6))).unwrap(), 6i64);
    let err = snmp::extract_integer::<i64>(None).unwrap_err();
    assert_eq!(err.message(), "snmp response had no varbinds");
    let err =
        snmp::extract_integer::<i64>(Some(SnmpValue::Other("Null".to_string()))).unwrap_err();
    assert_eq!(err.message(), "expected integer-shaped SNMP value, got Null");
}

// Redfish and HTTP.

fn redfish_binding() -> RedfishBinding {
    RedfishBinding {
        host: "bmc".to_string(),
        port: 443,
        uri: "/Chassis/1".to_string(),
        json_pointer: None,
    }
}

#[test]
fn a_redfish_read_is_secure_with_trust_and_credentials() {
    let trust = DeviceTrust::TlsMutual { subject_name: "bmc".to_string() };
    let creds = credentials();
    let b = redfish_binding();
    let (secure, url) = redfish::plan_read(&b, Some(&trust), Some(&creds));
    assert!(secure);
    assert_eq!(url, "https://bmc:443/redfish/v1/Chassis/1");
    let (secure, url) = redfish::plan_read(&b, Some(&trust), None);
    assert!(!secure);
    assert_eq!(url, "http://bmc:443/redfish/v1/Chassis/1");
    assert!(redfish::is_success(204));
    assert!(!redfish::is_success(404));
}

#[test]
fn only_server_errors_and_silence_are_tried_again() {
    assert_eq!(http::asyncapi_url("http://api:3000"), "http://api:3000/asyncapi");
    assert_eq!(http::classify(Attempt::NoResponse), Verdict::Transient);
    assert_eq!(http::classify(Attempt::Body(503)), Verdict::Transient);
    assert_eq!(http::classify(Attempt::NoBody(500)), Verdict::Transient);
    assert_eq!(http::classify(Attempt::Body(200)), Verdict::Document);
    assert_eq!(http::classify(Attempt::Body(404)), Verdict::Document);
    assert_eq!(http::classify(Attempt::NoBody(200)), Verdict::Permanent);
}

#[test]
fn pauses_double_and_end() {
    let mut attempts = Attempts::new();
    let mut total = 0;
    for expected in [500, 1000, 2000, 4000, 8000] {
        let pause = attempts.fail();
        assert_eq!(pause.millis, expected);
        assert_eq!(pause.again, expected != 8000);
        total += pause.millis;
    }
    assert_eq!(total, 15_500);
}

// JSON.

#[test]
fn a_number_is_looked_up_by_pointer() {
    let body = "{\"a\": [1.5, {\"b/c\": 7}], \"t\": \"x\"}";
    assert!(matches!(number_at(body, "/a/0"), Lookup::Number(bits) if bits == 1.5f64.to_bits()));
    assert!(matches!(number_at(body, "/a/1/b~1c"), Lookup::Number(b) if b == 7f64.to_bits()));
    assert!(matches!(number_at("-2", ""), Lookup::Number(bits) if bits == (-2f64).to_bits()));
    assert!(matches!(number_at(body, "/a/2"), Lookup::Missed));
    assert!(matches!(number_at("{", "/a"), Lookup::Malformed));
    assert!(matches!(number_at(body, "/t"), Lookup::NotNumeric(s) if s == "String(\"x\")"));
}

// MQTT.

#[test]
fn refused_credentials_are_marked() {
    let refused =
        |code: i32| Some(ConnectReturn { code, shown: "Not Authorized".to_string() });
    for code in [4, 5] {
        assert_eq!(
            classify_connect_error(&refused(code), false, "raw").message(),
            "mqtt connect: not_authorized \u{2014} bad credentials (Not Authorized)"
        );
    }
    for dropped in [false, true] {
        assert_eq!(
            classify_connect_error(&refused(3), dropped, "raw").message(),
            "connect to broker: raw"
        );
    }
    assert_eq!(
        classify_connect_error(&None, true, "Socket error").message(),
        "mqtt connect: not_authorized \u{2014} bad credentials: Socket error"
    );
    assert_eq!(
        classify_connect_error(&None, false, "[5] Not authorized").message(),
        "mqtt connect: not_authorized \u{2014} bad credentials: [5] Not authorized"
    );
    assert_eq!(
        classify_connect_error(&None, false, "Bad User Name or Password").message(),
        "mqtt connect: not_authorized \u{2014} bad credentials: Bad User Name or Password"
    );
    assert_eq!(
        classify_connect_error(&None, false, "refused").message(),
        "connect to broker: refused"
    );
}

#[test]
fn messages_go_where_they_belong() {
    assert_eq!(subscriber::route("system/topology_changed", "s1"), Route::Beacon);
    assert_eq!(
        subscriber::route("sites/s1/devices/d/commands/set/x/watts", "s1"),
        Route::Command
    );
    assert_eq!(
        subscriber::route("sites/s2/devices/d/commands/set/x/watts", "s1"),
        Route::Sample
    );
    assert_eq!(subscriber::route("sites/s1/devices/d/measurements/x/w", "s1"), Route::Sample);
}

#[test]
fn measurements_of_different_channels_have_different_topics() {
    let a = app::build_topic("s1", "d1", "power", "watts");
    let b = app::build_topic("s1", "d2", "power", "watts");
    let c = app::build_topic("s1", "d1", "power", "volts");
    assert_eq!(a, "sites/s1/devices/d1/measurements/power/watts");
    assert!(a != b && a != c && b != c);
    assert_eq!(subscriber::route(&a, "s1"), Route::Sample);
}

#[test]
fn the_beacon_is_subscribed_first() {
    let subscriptions = subscriber::subscriptions(&["a".to_string(), "b".to_string()]);
    assert_eq!(
        subscriptions,
        vec![
            ("system/topology_changed".to_string(), 1),
            ("a".to_string(), 0),
            ("b".to_string(), 0)
        ]
    );
}

#[test]
fn beacons_are_counted_round() {
    assert_eq!(subscriber::next_beacon(0), 1);
    assert_eq!(subscriber::next_beacon(u64::MAX), 0);
}

// Trust.

fn credentials() -> GatewayCredentials {
    GatewayCredentials {
        ca_bundle_path: "/etc/secrets/ca.crt".to_string(),
        cert_path: "/etc/secrets/gw.crt".to_string(),
        key_path: "/etc/secrets/gw.key".to_string(),
    }
}

fn empty_spec() -> AsyncApiSpec<i64> {
    AsyncApiSpec {
        info: SpecInfo { version: "v1".to_string() },
        x_protocol_source: StringMap::new(),
        x_command_source: StringMap::new(),
        x_device_trust: StringMap::new(),
    }
}

fn spec_with_tls(device_id: &str) -> AsyncApiSpec<i64> {
    let mut spec = empty_spec();
    spec.x_device_trust.insert(
        device_id.to_string(),
        DeviceTrust::TlsMutual { subject_name: "meter-01".to_string() },
    );
    spec
}

#[test]
fn validate_errors_when_tls_required_but_creds_absent() {
    let spec = spec_with_tls("meter_01");
    let err = app::validate_trust_creds_alignment(&spec, None).unwrap_err();
    assert!(
        err.message().contains("meter_01"),
        "error should name the offending device, got: {}",
        err.message()
    );
}

#[test]
fn validate_ok_when_tls_required_and_creds_present() {
    let spec = spec_with_tls("meter_01");
    let creds = credentials();
    assert!(app::validate_trust_creds_alignment(&spec, Some(&creds)).is_ok());
}

#[test]
fn validate_ok_when_no_tls_required_and_creds_absent() {
    let spec = empty_spec();
    assert!(app::validate_trust_creds_alignment(&spec, None).is_ok());
}

// The gateway's life.

fn spec_of_version(version: &str) -> AsyncApiSpec<i64> {
    let mut spec = empty_spec();
    spec.info.version = version.to_string();
    spec
}

fn version_of(document: Option<&AsyncApiSpec<i64>>) -> &str {
    document.map_or("", |d| d.info.version.as_str())
}

/// A gateway without credentials that runs a first document.
fn running() -> RunState<i64> {
    let mut state = RunState::new(None);
    assert_eq!(step(&mut state, RunEvent::Begin), RunAction::Connect);
    assert_eq!(step(&mut state, RunEvent::Done), RunAction::SubscribeBeacon);
    assert_eq!(step(&mut state, RunEvent::Done), RunAction::Fetch);
    let first = RunEvent::Fetched(spec_of_version("first"));
    assert_eq!(step(&mut state, first), RunAction::SubscribeInputs);
    assert_eq!(step(&mut state, RunEvent::Done), RunAction::Spawn);
    state
}

fn refresh(state: &mut RunState<i64>, event: RunEvent<i64>) {
    assert_eq!(step(state, RunEvent::Beacon), RunAction::StopTasks);
    assert_eq!(step(state, RunEvent::Done), RunAction::Fetch);
    assert_eq!(step(state, event), RunAction::Spawn);
}

#[test]
fn a_gateway_boots_in_order() {
    let state = running();
    assert_eq!(version_of(state.current()), "first");
    assert_eq!(version_of(state.lookups()), "first");
}

#[test]
fn a_topology_change_is_adopted() {
    let mut state = running();
    refresh(&mut state, RunEvent::Fetched(spec_of_version("second")));
    assert_eq!(version_of(state.current()), "second");
    assert_eq!(version_of(state.lookups()), "second");
}

#[test]
fn a_failed_refresh_keeps_the_current_document() {
    let mut state = running();
    refresh(&mut state, RunEvent::Fetched(spec_of_version("second")));
    refresh(&mut state, RunEvent::Failed);
    assert_eq!(version_of(state.current()), "second");
    assert_eq!(version_of(state.lookups()), "second");
}

#[test]
fn a_refused_refresh_keeps_the_current_document() {
    let mut state = running();
    refresh(&mut state, RunEvent::Fetched(spec_of_version("second")));
    let mut refused = spec_with_tls("meter_01");
    refused.info.version = "third".to_string();
    refresh(&mut state, RunEvent::Fetched(refused));
    assert_eq!(version_of(state.current()), "second");
    assert_eq!(version_of(state.lookups()), "third");
    refresh(&mut state, RunEvent::Fetched(spec_of_version("fourth")));
    assert_eq!(version_of(state.current()), "fourth");
    assert_eq!(version_of(state.lookups()), "fourth");
}

#[test]
fn a_gateway_joins_its_tasks_before_it_disconnects() {
    let mut state = running();
    assert_eq!(step(&mut state, RunEvent::Stop), RunAction::StopTasks);
    assert_eq!(step(&mut state, RunEvent::Beacon), RunAction::Ignore);
    assert_eq!(step(&mut state, RunEvent::Done), RunAction::Disconnect);
    assert_eq!(step(&mut state, RunEvent::Done), RunAction::Exit);
    assert_eq!(step(&mut state, RunEvent::Beacon), RunAction::Ignore);
}

#[test]
fn a_gateway_does_not_start_on_a_document_it_cannot_run() {
    let boot = |creds: Option<GatewayCredentials>, spec: AsyncApiSpec<i64>| {
        let mut state = RunState::new(creds);
        step(&mut state, RunEvent::Begin);
        step(&mut state, RunEvent::Done);
        step(&mut state, RunEvent::Done);
        step(&mut state, RunEvent::Fetched(spec))
    };
    assert_eq!(boot(None, spec_with_tls("meter_01")), RunAction::Refuse);
    let creds = Some(credentials());
    assert_eq!(boot(creds, spec_with_tls("meter_01")), RunAction::SubscribeInputs);
    assert_eq!(boot(None, spec_with_policy("equal_split")), RunAction::SubscribeInputs);
    assert_eq!(boot(None, spec_with_policy("first_fit")), RunAction::Refuse);
}

#[test]
fn a_failure_at_boot_ends_the_gateway() {
    let mut state: RunState<i64> = RunState::new(None);
    run::step(&mut state, RunEvent::Begin);
    assert_eq!(run::step(&mut state, RunEvent::Failed), RunAction::Fail);
    assert_eq!(run::step(&mut state, RunEvent::Done), RunAction::Ignore);
    assert!(state.current().is_none() && state.lookups().is_none());
}

fn spec_with_policy(policy: &str) -> AsyncApiSpec<i64> {
    let mut command = distribute_command();
    if let ProtocolBinding::Distribute(d) = &mut command.binding {
        d.allocation_policy = policy.to_string();
    }
    let mut commands = StringMap::new();
    commands.insert("set_power".to_string(), command);
    let mut spec = empty_spec();
    spec.x_command_source.insert("module".to_string(), commands);
    spec
}

#[test]
fn an_unknown_policy_is_told_at_startup() {
    assert!(app::validate_allocation_policies(&spec_with_policy("soc_weighted")).is_ok());
    let err = app::validate_allocation_policies(&spec_with_policy("first_fit")).unwrap_err();
    assert_eq!(err.message(), "unknown allocation policy: first_fit");
}

#[test]
fn a_dial_is_secure_with_trust_and_credentials() {
    let trust = DeviceTrust::TlsMutual { subject_name: "relay".to_string() };
    let creds = credentials();
    let b = dnp3_binding("analog_input", 1);
    let plan = dnp3::plan_read(&b, Some(&trust), Some(&creds)).unwrap();
    assert!(matches!(plan.dial, Dial::Tls { .. }));
    let plan = dnp3::plan_read(&b, Some(&trust), None).unwrap();
    assert!(matches!(plan.dial, Dial::Plain));
}

#[test]
fn an_aligned_device_is_never_dialled_plain() {
    let spec = spec_with_tls("meter_01");
    let creds = credentials();
    assert!(app::validate_trust_creds_alignment(&spec, Some(&creds)).is_ok());
    let trust = spec.x_device_trust.get("meter_01");
    let plan = dnp3::plan_read(&dnp3_binding("analog_input", 1), trust, Some(&creds)).unwrap();
    match plan.dial {
        Dial::Tls { creds: used, .. } => assert_eq!(used.cert_path, creds.cert_path),
        Dial::Plain => panic!("mutual TLS expected"),
    }
}

// The task set.

fn modbus_binding() -> ProtocolBinding<i64> {
    ProtocolBinding::ModbusTcp(ModbusTcpBinding {
        host: "h".to_string(),
        port: 502,
        unit_id: "1".to_string(),
        address: 0,
        scale: 1,
        offset: 0,
        data_type: ModbusDataType::Int32,
        word_order: WordOrder::HighLow,
    })
}

fn synthetic_binding(operation: &str) -> ProtocolBinding<i64> {
    ProtocolBinding::Synthetic(SyntheticBinding {
        operation: operation.to_string(),
        inputs: vec!["sites/{site_id}/b".to_string(), "a".to_string()],
        pairs: vec![WeightedPair { topic: "sites/{site_id}/c".to_string(), weight: 2 }],
    })
}

fn source(binding: ProtocolBinding<i64>) -> ProtocolSource<i64> {
    ProtocolSource { unit: "watts".to_string(), poll_rate_hz: Some(2), binding }
}

fn distribute_command() -> CommandSource<i64> {
    CommandSource {
        verb: "set".to_string(),
        target: "active_power".to_string(),
        unit: "watts".to_string(),
        binding: ProtocolBinding::Distribute(DistributeBinding {
            allocation_policy: "equal_split".to_string(),
            children: vec![ChildAllocation {
                device_id: "rack".to_string(),
                operating_state_topic: "sites/{site_id}/rack/state".to_string(),
                state_of_charge_topic: "sites/{site_id}/rack/soc".to_string(),
                power_min: -1,
                power_max: 1,
            }],
            ramp_rate_per_sec: None,
            hysteresis_margin: None,
            hysteresis_dwell_secs: None,
            power_min: None,
            power_max: None,
            import_limit_topic: None,
            export_limit_topic: None,
            active_power_topic: None,
        }),
    }
}

fn full_spec() -> AsyncApiSpec<i64> {
    let mut spec = empty_spec();
    let mut channels = StringMap::new();
    channels.insert("power".to_string(), source(modbus_binding()));
    channels.insert("headroom".to_string(), source(synthetic_binding("sum")));
    channels.insert("odd".to_string(), source(synthetic_binding("divide")));
    channels.insert("mean".to_string(), source(synthetic_binding("weighted_mean")));
    spec.x_protocol_source.insert("d1".to_string(), channels);
    let mut commands = StringMap::new();
    commands.insert("cmd".to_string(), distribute_command());
    spec.x_command_source.insert("module".to_string(), commands);
    spec
}

#[test]
fn every_measurement_gets_one_task() {
    let spec = full_spec();
    assert!(app::has_valid_dwells(&spec));
    let tasks = app::spawn_task_set(&spec, "s1");
    assert_eq!(tasks.polls.len(), 1);
    assert_eq!(tasks.polls[0].topic, "sites/s1/devices/d1/measurements/power/watts");
    assert_eq!(tasks.polls[0].poll_rate_hz, 2);
    assert_eq!(tasks.synthetics.len(), 2);
    assert_eq!(
        tasks.synthetics[0].output_topic,
        "sites/s1/devices/d1/measurements/headroom/watts"
    );
    match &tasks.synthetics[0].computation {
        Computation::Operation { operation, input_topics } => {
            assert_eq!(*operation, Operation::Sum);
            assert_eq!(*input_topics, vec!["sites/s1/b".to_string(), "a".to_string()]);
        }
        Computation::WeightedMean { .. } => panic!("operation expected"),
    }
    match &tasks.synthetics[1].computation {
        Computation::WeightedMean { pairs } => {
            assert_eq!(*pairs, vec![("sites/s1/c".to_string(), 2)]);
        }
        Computation::Operation { .. } => panic!("weighted mean expected"),
    }
    assert_eq!(tasks.envelopes.len(), 1);
    assert_eq!(tasks.envelopes[0].device_id, "module");
    assert_eq!(tasks.envelopes[0].channel_key, "set_active_power");
    assert!(tasks.envelopes[0].guard.is_none());
    assert_eq!(
        tasks.der_dispatch.source_topics,
        vec!["sites/s1/devices/module/measurements/active_power/watts".to_string()]
    );
    assert_eq!(
        tasks.der_dispatch.output_topic,
        "sites/s1/devices/der_dispatch/measurements/actual_active_power/watts"
    );
    assert_eq!(
        tasks.site_distribution.event_active_topic,
        "sites/s1/devices/der_dispatch/measurements/event_active/none"
    );
}

#[test]
fn every_input_is_subscribed_at_boot() {
    let topics = app::boot_input_topics(&full_spec(), "s1");
    assert_eq!(
        topics,
        vec![
            "a".to_string(),
            "sites/s1/b".to_string(),
            "sites/s1/c".to_string(),
            "sites/s1/rack/soc".to_string(),
            "sites/s1/rack/state".to_string(),
            "sites/s1/devices/module/measurements/active_power/watts".to_string(),
            "sites/s1/devices/module/measurements/state_of_charge/percent".to_string(),
            "sites/s1/devices/der_dispatch/measurements/target_active_power/watts".to_string(),
            "sites/s1/devices/der_dispatch/measurements/event_active/none".to_string(),
        ]
    );
}

#[test]
fn commands_are_found_by_verb_and_target() {
    let channels = app::device_channels(&full_spec());
    let binding = channels.get("module").unwrap().get("set_active_power").unwrap();
    assert!(matches!(binding, ProtocolBinding::Distribute(_)));
    assert!(channels.get("d1").is_none());
    assert_eq!(app::distribute_parent_device_ids(&full_spec()), vec!["module".to_string()]);
}

#[test]
fn a_template_without_a_placeholder_is_its_own_topic() {
    assert_eq!(app::substitute_site_id("a/b", "s1"), "a/b");
    assert_eq!(app::substitute_site_id("{site_id}/{site_id}", "s1"), "s1/s1");
}

#[test]
fn a_document_needs_a_version() {
    let mut spec = empty_spec();
    assert!(spec.is_valid());
    spec.info.version = String::new();
    assert!(!spec.is_valid());
}

// Configuration.

/// The text at a path in a document.
fn text_at(document: &Node<String>, path: &[&str]) -> Option<String> {
    match (document, path) {
        (Node::Leaf(v), []) => serde_yaml::from_str::<String>(v).ok(),
        (Node::Mapping(entries), [first, rest @ ..]) => entries
            .iter()
            .find(|(k, _)| matches!(k, Key::Text(s) if s == first))
            .and_then(|(_, n)| text_at(n, rest)),
        _ => None,
    }
}

const DEFAULTS: &str = r#"
local:
  device_api_url: http://localhost:3000
  broker_url: tcp://localhost:1883
  site_id: site_001
  log_level: info
beta:
  device_api_url: http://device-api:3000
  broker_url: tcp://hivemq:1883
  site_id: arcnode_beta
  log_level: info
"#;

#[test]
fn defaults_only_picks_stage() {
    let cfg = load_config_text(DEFAULTS, None, "local").unwrap();
    assert_eq!(text_at(&cfg, &["site_id"]).unwrap(), "site_001");
    assert_eq!(text_at(&cfg, &["broker_url"]).unwrap(), "tcp://localhost:1883");
}

#[test]
fn customer_yml_overrides_site_id_only() {
    let customer = "site_id: nevada_facility_2\n";
    let cfg = load_config_text(DEFAULTS, Some(customer), "beta").unwrap();
    assert_eq!(text_at(&cfg, &["site_id"]).unwrap(), "nevada_facility_2");
    assert_eq!(text_at(&cfg, &["broker_url"]).unwrap(), "tcp://hivemq:1883");
}

#[test]
fn customer_yml_can_set_gateway_credentials_for_tls() {
    let customer =
        "gateway_credentials:\n  ca_bundle_path: /etc/secrets/ca-bundle.crt\n  cert_path: /etc/secrets/gateway.crt\n  key_path: /etc/secrets/gateway.key\n";
    let cfg = load_config_text(DEFAULTS, Some(customer), "beta").unwrap();
    let at = |key: &str| text_at(&cfg, &["gateway_credentials", key]).unwrap();
    assert_eq!(at("ca_bundle_path"), "/etc/secrets/ca-bundle.crt");
    assert_eq!(at("cert_path"), "/etc/secrets/gateway.crt");
    assert_eq!(at("key_path"), "/etc/secrets/gateway.key");
}

#[test]
fn defaults_without_gateway_credentials_yields_none() {
    let cfg = load_config_text(DEFAULTS, None, "local").unwrap();
    assert!(text_at(&cfg, &["gateway_credentials", "key_path"]).is_none());
}

#[test]
fn missing_customer_path_falls_back_to_defaults() {
    let cfg = load_config_text(DEFAULTS, None, "beta").unwrap();
    assert_eq!(text_at(&cfg, &["site_id"]).unwrap(), "arcnode_beta");
}

#[test]
fn nested_settings_merge_and_sequences_overwrite() {
    let defaults = "s:\n  a:\n    x: '1'\n    y: '2'\n  b: ['3']\nt: {}\n";
    let customer = "a:\n  y: '9'\n  z: '8'\nb: '4'\nc: '5'\n";
    let cfg = load_config_text(defaults, Some(customer), "s").unwrap();
    let at = |path: &[&str]| text_at(&cfg, path).unwrap();
    assert_eq!(at(&["a", "x"]), "1");
    assert_eq!(at(&["a", "y"]), "9");
    assert_eq!(at(&["a", "z"]), "8");
    assert_eq!(at(&["b"]), "4");
    assert_eq!(at(&["c"]), "5");
}

#[test]
fn a_stage_that_is_not_there_is_told() {
    let err = load_config_text(DEFAULTS, Some("site_id: x"), "prod").unwrap_err();
    assert_eq!(err.message(), "cfg.defaults.yml missing block: prod");
}

#[test]
fn a_tagged_document_has_its_stages_and_takes_no_settings() {
    let defaults = "!v1\ns:\n  a: '1'\n";
    let cfg = load_config_text(defaults, Some("a: '2'"), "s").unwrap();
    assert_eq!(text_at(&cfg, &["a"]).unwrap(), "1");
}

#[test]
fn a_text_that_is_no_yaml_is_told() {
    let err = load_config_text("a: [", None, "a").unwrap_err();
    assert_eq!(err.message(), serde_yaml::from_str::<serde_yaml::Value>("a: [").unwrap_err().to_string());
    let err = load_config_text(DEFAULTS, Some("a: 1\na: 2\n"), "beta").unwrap_err();
    assert!(err.message().contains("duplicate entry"));
    assert!(load_config_text("a: [", Some("b: ["), "a").is_err());
}

#[test]
fn a_yaml_text_is_read_entry_by_entry() {
    let document = read_yaml("b: !t {x: 1}\n2: [p, q]\n").unwrap();
    let Node::Mapping(entries) = document else {
        panic!("a mapping expected");
    };
    assert_eq!(entries.len(), 2);
    assert!(matches!(&entries[0].0, Key::Text(k) if k == "b"));
    let Node::Tagged(tag, inner) = &entries[0].1 else {
        panic!("a tag expected");
    };
    assert_eq!(tag, "!t");
    assert!(matches!(&**inner, Node::Mapping(e) if matches!(&e[0].1, Node::Leaf(n) if n == "1\n")));
    assert!(matches!(&entries[1].0, Key::Other(k) if k == "2\n"));
    assert!(matches!(&entries[1].1, Node::Leaf(n) if n == "- p\n- q\n"));
}

#[test]
fn settings_keep_their_types() {
    let cfg = load_config_text("s: {a: 1, b: '1', c: true}\n", Some("b: '2'"), "s").unwrap();
    let Node::Mapping(entries) = cfg else {
        panic!("a mapping expected");
    };
    let notation = |i: usize| match &entries[i].1 {
        Node::Leaf(n) => n.clone(),
        _ => panic!("a leaf expected"),
    };
    assert_eq!(notation(0), "1\n");
    assert_eq!(notation(1), "'2'\n");
    assert_eq!(notation(2), "true\n");
}

fn base() -> Config {
    Config {
        device_api_url: "http://device-api:3000".to_string(),
        broker_url: "tcp://hivemq:1883".to_string(),
        mqtt_username: "arcnode_gateway".to_string(),
        site_id: "default".to_string(),
        log_level: "info".to_string(),
        gateway_credentials: None,
    }
}

fn stack_output(key: &str, value: &str) -> StackOutput {
    StackOutput { key: Some(key.to_string()), value: Some(value.to_string()) }
}

fn contract() -> StringMap<String> {
    stack_outputs(&[
        stack_output("SiteId", "brookside"),
        stack_output("BrokerWsUrl", "ws://1.2.3.4/mqtt"),
        stack_output("DeviceApiUrl", "http://1.2.3.4/api"),
        stack_output("GatewaySecretName", "arcnode-ems-x/mqtt-gateway-password"),
    ])
}

#[test]
fn maps_contract_outputs_onto_base() {
    let cfg = config_from_outputs(&contract(), base()).unwrap();
    assert_eq!(cfg.broker_url, "ws://1.2.3.4/mqtt");
    assert_eq!(cfg.device_api_url, "http://1.2.3.4/api");
    assert_eq!(cfg.site_id, "brookside");
    assert_eq!(cfg.mqtt_username, "arcnode_gateway");
}

#[test]
fn missing_output_fails_loud() {
    let mut outputs = contract();
    outputs.remove("BrokerWsUrl");
    let err = config_from_outputs(&outputs, base()).unwrap_err();
    assert!(err.message().contains("BrokerWsUrl"));
}

#[test]
fn a_stack_must_report_the_whole_contract() {
    let keys = ["SiteId", "BrokerWsUrl", "DeviceApiUrl", "GatewaySecretName"];
    let whole: Vec<StackOutput> = keys.iter().map(|k| stack_output(k, "v")).collect();
    let cfg = config_from_contract(&whole, base()).unwrap();
    assert_eq!(cfg.site_id, "v");
    assert_eq!(cfg.mqtt_username, "arcnode_gateway");
    for missing in keys {
        let partial: Vec<StackOutput> =
            keys.iter().filter(|k| **k != missing).map(|k| stack_output(k, "v")).collect();
        let err = config_from_contract(&partial, base()).unwrap_err();
        assert_eq!(
            err.message(),
            format!("stack output {missing} missing \u{2014} platform contract broken")
        );
    }
}

#[test]
fn the_secret_is_named_by_the_stack() {
    let name = gateway_secret_name(&[
        stack_output("SiteId", "x"),
        stack_output("GatewaySecretName", "secret"),
    ])
    .unwrap();
    assert_eq!(name, "secret");
    let err = gateway_secret_name(&[stack_output("SiteId", "x")]).unwrap_err();
    assert_eq!(err.message(), "stack output GatewaySecretName missing");
    let empty = StackOutput { key: Some("GatewaySecretName".to_string()), value: None };
    assert!(gateway_secret_name(&[empty]).is_err());
}

#[test]
fn an_unknown_log_level_means_info() {
    let mut cfg = base();
    assert_eq!(cfg.max_level(), LogLevel::Info);
    for (name, level) in [
        ("error", LogLevel::Error),
        ("warn", LogLevel::Warn),
        ("debug", LogLevel::Debug),
        ("trace", LogLevel::Info),
    ] {
        cfg.log_level = name.to_string();
        assert_eq!(cfg.max_level(), level);
    }
}
