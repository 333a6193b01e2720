//! The AsyncAPI document, narrowed to what the gateway reads: protocol
//! bindings of measurements, protocol bindings of commands, and device trust.

use crate::asyncapi::trust::DeviceTrust;
use crate::modbus::codec::{ModbusDataType, WordOrder};
use crate::scalar::Scalar;
use crate::string_map::StringMap;
use vstd::prelude::*;

verus! {

/// Top-level document.
pub struct AsyncApiSpec<N> {
    /// Metadata block.
    pub info: SpecInfo,
    /// Protocol bindings of measurements, by device and by channel name.
    pub x_protocol_source: StringMap<StringMap<ProtocolSource<N>>>,
    /// Protocol bindings of commands, by device and by channel name.
    pub x_command_source: StringMap<StringMap<CommandSource<N>>>,
    /// Trust material by device.
    pub x_device_trust: StringMap<DeviceTrust>,
}

/// One measurement: a protocol binding with its unit and poll rate.
pub struct ProtocolSource<N> {
    /// Engineering unit, the last segment of the measurement's topic.
    pub unit: String,
    /// Poll rate in Hz; `None` asks for the gateway's default.
    pub poll_rate_hz: Option<N>,
    /// The protocol binding.
    pub binding: ProtocolBinding<N>,
}

/// One command: a protocol binding with the identity that a command topic
/// carries.
pub struct CommandSource<N> {
    /// The command verb.
    pub verb: String,
    /// The command target within the device.
    pub target: String,
    /// Engineering unit, the last segment of the command's topic.
    pub unit: String,
    /// The protocol binding.
    pub binding: ProtocolBinding<N>,
}

/// Metadata block.
#[derive(Debug)]
pub struct SpecInfo {
    /// Version of the document.
    pub version: String,
}

/// A protocol binding.
pub enum ProtocolBinding<N> {
    /// Modbus TCP.
    ModbusTcp(ModbusTcpBinding<N>),
    /// SNMP.
    Snmp(SnmpBinding),
    /// Redfish over HTTP.
    Redfish(RedfishBinding),
    /// DNP3 over TCP.
    Dnp3Tcp(Dnp3TcpBinding),
    /// BACnet/IP.
    BacnetIp(BacnetIpBinding),
    /// BACnet Secure Connect.
    BacnetSc(BacnetScBinding),
    /// Computed by the gateway from cached inputs.
    Synthetic(SyntheticBinding<N>),
    /// Command only: one setpoint split across children.
    Distribute(DistributeBinding<N>),
}

/// Modbus TCP binding.
pub struct ModbusTcpBinding<N> {
    /// Target host.
    pub host: String,
    /// TCP port.
    pub port: u16,
    /// Modbus unit id, as text.
    pub unit_id: String,
    /// Starting register address.
    pub address: u16,
    /// Scale applied to the raw value.
    pub scale: N,
    /// Offset added after scaling.
    pub offset: N,
    /// Wire width of the value.
    pub data_type: ModbusDataType,
    /// Register order of the value.
    pub word_order: WordOrder,
}

/// SNMP binding.
#[derive(Debug)]
pub struct SnmpBinding {
    /// Target host.
    pub host: String,
    /// UDP port.
    pub port: u16,
    /// Object identifier in dotted form.
    pub oid: String,
}

/// Redfish binding.
#[derive(Debug)]
pub struct RedfishBinding {
    /// Target host.
    pub host: String,
    /// HTTP port.
    pub port: u16,
    /// Resource path below the service root.
    pub uri: String,
    /// JSON Pointer into the response; `None` where the response is the value.
    pub json_pointer: Option<String>,
}

/// BACnet/IP binding.
#[derive(Debug)]
pub struct BacnetIpBinding {
    /// Target host.
    pub host: String,
    /// UDP port.
    pub port: u16,
    /// Device instance number.
    pub device_instance: u32,
    /// Object type to read.
    pub object_type: String,
    /// Object instance number.
    pub object_instance: u32,
    /// Property to read.
    pub property_id: String,
}

/// BACnet Secure Connect binding.
#[derive(Debug)]
pub struct BacnetScBinding {
    /// URL of the hub.
    pub hub_url: String,
    /// Destination address, six bytes in hexadecimal.
    pub device_vmac: String,
    /// Object type to read.
    pub object_type: String,
    /// Object instance number.
    pub object_instance: u32,
    /// Property to read.
    pub property_id: String,
}

/// DNP3 TCP binding.
#[derive(Debug)]
pub struct Dnp3TcpBinding {
    /// Target host.
    pub host: String,
    /// TCP port.
    pub port: u16,
    /// Point index on the outstation.
    pub point_index: u16,
    /// Point class.
    pub point_type: String,
    /// Static variation, for audit.
    pub variation: Option<u8>,
}

/// Synthetic binding. The topics may hold a `{site_id}` placeholder.
pub struct SyntheticBinding<N> {
    /// Operation name.
    pub operation: String,
    /// Input topics, for every operation but the weighted mean.
    pub inputs: Vec<String>,
    /// Input topics with weights, for the weighted mean.
    pub pairs: Vec<WeightedPair<N>>,
}

/// One topic with its weight.
pub struct WeightedPair<N> {
    /// The topic to read.
    pub topic: String,
    /// Its weight.
    pub weight: N,
}

/// Distribute binding: one setpoint split across children, optionally guarded
/// by an operating envelope. The topics may hold a `{site_id}` placeholder.
pub struct DistributeBinding<N> {
    /// Allocation policy name.
    pub allocation_policy: String,
    /// The children.
    pub children: Vec<ChildAllocation<N>>,
    /// Ramp rate on recovery, as a fraction of rated power per second.
    pub ramp_rate_per_sec: Option<N>,
    /// Headroom that ends a constrained event, as a fraction of rated power.
    pub hysteresis_margin: Option<N>,
    /// How long that headroom must hold, in seconds.
    pub hysteresis_dwell_secs: Option<N>,
    /// Lower bound of the parent's active power.
    pub power_min: Option<N>,
    /// Upper bound of the parent's active power.
    pub power_max: Option<N>,
    /// Topic of the live import limit.
    pub import_limit_topic: Option<String>,
    /// Topic of the live export limit.
    pub export_limit_topic: Option<String>,
    /// Topic of the parent's own active power.
    pub active_power_topic: Option<String>,
}

/// One child of a distribute binding.
pub struct ChildAllocation<N> {
    /// The child's device id.
    pub device_id: String,
    /// Topic of the child's operating state.
    pub operating_state_topic: String,
    /// Topic of the child's state of charge.
    pub state_of_charge_topic: String,
    /// The child's lower power bound.
    pub power_min: N,
    /// The child's upper power bound.
    pub power_max: N,
}

/// Two bindings hold the same values, field by field.
pub open spec fn same_binding<N>(a: ProtocolBinding<N>, b: ProtocolBinding<N>) -> bool {
    match (a, b) {
        (ProtocolBinding::Synthetic(x), ProtocolBinding::Synthetic(y)) => same_synthetic(x, y),
        (ProtocolBinding::Distribute(x), ProtocolBinding::Distribute(y)) => same_distribute(x, y),
        _ => a == b,
    }
}

/// Two synthetic bindings hold the same values.
pub open spec fn same_synthetic<N>(a: SyntheticBinding<N>, b: SyntheticBinding<N>) -> bool {
    &&& a.operation == b.operation
    &&& a.inputs@ == b.inputs@
    &&& a.pairs@ == b.pairs@
}

/// Two distribute bindings hold the same values.
pub open spec fn same_distribute<N>(a: DistributeBinding<N>, b: DistributeBinding<N>) -> bool {
    &&& a.allocation_policy == b.allocation_policy
    &&& a.children@ == b.children@
    &&& a.ramp_rate_per_sec == b.ramp_rate_per_sec
    &&& a.hysteresis_margin == b.hysteresis_margin
    &&& a.hysteresis_dwell_secs == b.hysteresis_dwell_secs
    &&& a.power_min == b.power_min
    &&& a.power_max == b.power_max
    &&& a.import_limit_topic == b.import_limit_topic
    &&& a.export_limit_topic == b.export_limit_topic
    &&& a.active_power_topic == b.active_power_topic
}

/// Copy an optional text.
pub fn clone_optional(s: &Option<String>) -> (r: Option<String>)
    ensures
        r == *s,
{
    match s {
        Some(x) => Some(x.clone()),
        None => None,
    }
}

/// Copy a list of texts.
pub fn clone_texts(v: &Vec<String>) -> (r: Vec<String>)
    ensures
        r@ == v@,
{
    let mut r: Vec<String> = Vec::new();
    let mut i: usize = 0;
    while i < v.len()
        invariant
            i <= v@.len(),
            r@ == v@.take(i as int),
        decreases v@.len() - i,
    {
        r.push(v[i].clone());
        assert(v@.take(i + 1) =~= v@.take(i as int).push(v@[i as int]));
        i = i + 1;
    }
    assert(v@.take(i as int) =~= v@);
    r
}

fn clone_pairs<N: Scalar>(v: &Vec<WeightedPair<N>>) -> (r: Vec<WeightedPair<N>>)
    ensures
        r@ == v@,
{
    let mut r: Vec<WeightedPair<N>> = Vec::new();
    let mut i: usize = 0;
    while i < v.len()
        invariant
            i <= v@.len(),
            r@ == v@.take(i as int),
        decreases v@.len() - i,
    {
        r.push(WeightedPair { topic: v[i].topic.clone(), weight: v[i].weight });
        assert(v@.take(i + 1) =~= v@.take(i as int).push(v@[i as int]));
        i = i + 1;
    }
    assert(v@.take(i as int) =~= v@);
    r
}

fn clone_children<N: Scalar>(v: &Vec<ChildAllocation<N>>) -> (r: Vec<ChildAllocation<N>>)
    ensures
        r@ == v@,
{
    let mut r: Vec<ChildAllocation<N>> = Vec::new();
    let mut i: usize = 0;
    while i < v.len()
        invariant
            i <= v@.len(),
            r@ == v@.take(i as int),
        decreases v@.len() - i,
    {
        r.push(
            ChildAllocation {
                device_id: v[i].device_id.clone(),
                operating_state_topic: v[i].operating_state_topic.clone(),
                state_of_charge_topic: v[i].state_of_charge_topic.clone(),
                power_min: v[i].power_min,
                power_max: v[i].power_max,
            },
        );
        assert(v@.take(i + 1) =~= v@.take(i as int).push(v@[i as int]));
        i = i + 1;
    }
    assert(v@.take(i as int) =~= v@);
    r
}

/// Copy a binding for a task to own.
pub fn clone_binding<N: Scalar>(b: &ProtocolBinding<N>) -> (r: ProtocolBinding<N>)
    ensures
        same_binding(r, *b),
{
    match b {
        ProtocolBinding::ModbusTcp(m) => ProtocolBinding::ModbusTcp(
            ModbusTcpBinding {
                host: m.host.clone(),
                port: m.port,
                unit_id: m.unit_id.clone(),
                address: m.address,
                scale: m.scale,
                offset: m.offset,
                data_type: m.data_type,
                word_order: m.word_order,
            },
        ),
        ProtocolBinding::Snmp(s) => ProtocolBinding::Snmp(
            SnmpBinding { host: s.host.clone(), port: s.port, oid: s.oid.clone() },
        ),
        ProtocolBinding::Redfish(r) => ProtocolBinding::Redfish(
            RedfishBinding {
                host: r.host.clone(),
                port: r.port,
                uri: r.uri.clone(),
                json_pointer: clone_optional(&r.json_pointer),
            },
        ),
        ProtocolBinding::Dnp3Tcp(d) => ProtocolBinding::Dnp3Tcp(
            Dnp3TcpBinding {
                host: d.host.clone(),
                port: d.port,
                point_index: d.point_index,
                point_type: d.point_type.clone(),
                variation: d.variation,
            },
        ),
        ProtocolBinding::BacnetIp(b) => ProtocolBinding::BacnetIp(
            BacnetIpBinding {
                host: b.host.clone(),
                port: b.port,
                device_instance: b.device_instance,
                object_type: b.object_type.clone(),
                object_instance: b.object_instance,
                property_id: b.property_id.clone(),
            },
        ),
        ProtocolBinding::BacnetSc(b) => ProtocolBinding::BacnetSc(
            BacnetScBinding {
                hub_url: b.hub_url.clone(),
                device_vmac: b.device_vmac.clone(),
                object_type: b.object_type.clone(),
                object_instance: b.object_instance,
                property_id: b.property_id.clone(),
            },
        ),
        ProtocolBinding::Synthetic(s) => ProtocolBinding::Synthetic(
            SyntheticBinding {
                operation: s.operation.clone(),
                inputs: clone_texts(&s.inputs),
                pairs: clone_pairs(&s.pairs),
            },
        ),
        ProtocolBinding::Distribute(d) => ProtocolBinding::Distribute(clone_distribute(d)),
    }
}

/// Copy a distribute binding.
pub fn clone_distribute<N: Scalar>(d: &DistributeBinding<N>) -> (r: DistributeBinding<N>)
    ensures
        same_distribute(r, *d),
{
    DistributeBinding {
        allocation_policy: d.allocation_policy.clone(),
        children: clone_children(&d.children),
        ramp_rate_per_sec: d.ramp_rate_per_sec,
        hysteresis_margin: d.hysteresis_margin,
        hysteresis_dwell_secs: d.hysteresis_dwell_secs,
        power_min: d.power_min,
        power_max: d.power_max,
        import_limit_topic: clone_optional(&d.import_limit_topic),
        export_limit_topic: clone_optional(&d.export_limit_topic),
        active_power_topic: clone_optional(&d.active_power_topic),
    }
}

/// Whether a document passes validation: its version is not empty.
pub open spec fn spec_valid(info: SpecInfo) -> bool {
    info.version@.len() >= 1
}

impl<N> AsyncApiSpec<N> {
    /// Whether the document passes validation.
    pub fn is_valid(&self) -> (r: bool)
        ensures
            r == spec_valid(self.info),
    {
        !self.info.version.as_str().is_empty()
    }
}

/// Bindings that count as the same are the same in every field.
pub proof fn lemma_same_bindings_agree<N>(a: ProtocolBinding<N>, b: ProtocolBinding<N>)
    requires
        same_binding(a, b),
    ensures
        a matches ProtocolBinding::Synthetic(x) ==> {
            &&& b matches ProtocolBinding::Synthetic(y)
            &&& x.operation == y.operation
            &&& x.inputs@ == y.inputs@
            &&& x.pairs@ == y.pairs@
        },
        a matches ProtocolBinding::Distribute(x) ==> {
            &&& b matches ProtocolBinding::Distribute(y)
            &&& x.allocation_policy == y.allocation_policy
            &&& x.children@ == y.children@
            &&& x.ramp_rate_per_sec == y.ramp_rate_per_sec
            &&& x.hysteresis_margin == y.hysteresis_margin
            &&& x.hysteresis_dwell_secs == y.hysteresis_dwell_secs
            &&& x.power_min == y.power_min && x.power_max == y.power_max
            &&& x.import_limit_topic == y.import_limit_topic
            &&& x.export_limit_topic == y.export_limit_topic
            &&& x.active_power_topic == y.active_power_topic
        },
        !(a is Synthetic) && !(a is Distribute) ==> a == b,
{
}

/// A document is refused by validation if and only if its version is the empty text.
pub proof fn lemma_empty_version_is_refused(info: SpecInfo)
    ensures
        !spec_valid(info) <==> info.version@ == Seq::<char>::empty(),
{
    if info.version@.len() == 0 {
        assert(info.version@ =~= Seq::<char>::empty());
    }
}

} // verus!
