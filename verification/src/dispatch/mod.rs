//! Dispatch: from an inbound command to south-side writes and lifecycle acks.
//!
//! A command frame on `sites/{site}/devices/{dev}/commands/{verb}/{target}/{unit}`
//! is answered on `sites/{site}/devices/{dev}/events/dispatch_state`: first
//! `received`, and in the end `done` or `failed` with a reason. `done` means
//! that the south-side write succeeded. An unknown device, an unknown command,
//! an unsupported protocol and a failed write all end in `failed`. What cannot
//! be answered, because its topic or its frame cannot be read, is dropped.

pub mod allocation;
pub mod distribute;
pub mod entitlement;
pub mod fairness;
pub mod topic;
pub mod work;

use crate::asyncapi::trust::DeviceTrust;
use crate::asyncapi::types::ProtocolBinding;
use crate::config::GatewayCredentials;
use crate::dispatch::distribute::{dispatch_distribute, SharesPlan};
use crate::dispatch::topic::{event_topic, parse_command_topic};
use crate::error::{failure, failure_of, GatewayError};
use crate::json;
use crate::modbus::client as modbus;
use crate::modbus::client::WritePlan;
use crate::modbus::codec;
use crate::mqtt::publisher::Publication;
use crate::scalar::Scalar;
use crate::string_map;
use crate::string_map::{set_nested, StringMap};
use crate::synthetic::cache::InputCache;
use crate::text;
use vstd::prelude::*;

verus! {

/// Quality of service of lifecycle events: at least once.
pub const EVENT_QOS: i32 = 1;

/// The setpoint that was last asked for, by device and by command.
pub type LastRequestedSetpoints<N> = StringMap<StringMap<N>>;

/// Inbound command frame.
#[derive(Debug)]
pub struct CommandFrame<N> {
    /// The publisher's time stamp.
    pub ts: String,
    /// The commanded value.
    pub value: N,
    /// Correlates the acks with the command.
    pub command_id: String,
}

/// Lifecycle phase.
#[derive(Debug, Clone, Copy, PartialEq, Eq, Structural)]
pub enum Phase {
    /// The frame was read; work begins.
    Received,
    /// The write succeeded.
    Done,
    /// Rejected or failed.
    Failed,
}

/// The name of a phase on the wire.
pub open spec fn phase_name(phase: Phase) -> Seq<char> {
    match phase {
        Phase::Received => "received"@,
        Phase::Done => "done"@,
        Phase::Failed => "failed"@,
    }
}

fn name_of_phase(phase: Phase) -> (r: &'static str)
    ensures
        r@ == phase_name(phase),
{
    match phase {
        Phase::Received => "received",
        Phase::Done => "done",
        Phase::Failed => "failed",
    }
}

/// The payload of a lifecycle event: a JSON object with the members in
/// alphabetical order; `reason` is there only where there is one.
pub open spec fn event_text(
    now: Seq<char>,
    command_id: Seq<char>,
    phase: Phase,
    reason: Option<Seq<char>>,
) -> Seq<char> {
    "{\"command_id\":"@ + json::json_quoted(command_id) + ",\"phase\":"@ + json::json_quoted(
        phase_name(phase),
    ) + (match reason {
        Some(r) => ",\"reason\":"@ + json::json_quoted(r),
        None => Seq::empty(),
    }) + ",\"ts\":"@ + json::json_quoted(now) + "}"@
}

/// Write the payload of a lifecycle event.
pub fn event_payload(now_rfc3339: &str, command_id: &str, phase: Phase, reason: Option<&str>) -> (r:
    String)
    ensures
        r@ == event_text(
            now_rfc3339@,
            command_id@,
            phase,
            match reason {
                Some(x) => Some(x@),
                None => None,
            },
        ),
{
    let mut r = "{\"command_id\":".to_owned();
    r.append(json::quote(command_id).as_str());
    r.append(",\"phase\":");
    r.append(json::quote(name_of_phase(phase)).as_str());
    match reason {
        Some(x) => {
            let ghost before = r@;
            r.append(",\"reason\":");
            r.append(json::quote(x).as_str());
            assert(r@ =~= before + (",\"reason\":"@ + json::json_quoted(x@)));
        },
        None => {
            assert(r@ =~= r@ + Seq::empty());
        },
    }
    r.append(",\"ts\":");
    r.append(json::quote(now_rfc3339).as_str());
    r.append("}");
    r
}

/// A command that can be answered.
#[derive(Debug)]
pub struct Command<N> {
    /// The device it is for.
    pub device_id: String,
    /// Verb and target, joined by an underscore.
    pub channel_key: String,
    /// Where it is answered.
    pub events: String,
    /// Correlates the answer.
    pub command_id: String,
    /// The commanded value.
    pub value: N,
}

/// Verb and target, joined by an underscore.
pub open spec fn key_of(verb: Seq<char>, target: Seq<char>) -> Seq<char> {
    verb + "_"@ + target
}

/// Join verb and target.
pub fn channel_key(verb: &str, target: &str) -> (r: String)
    ensures
        r@ == key_of(verb@, target@),
{
    let mut r = verb.to_owned();
    r.append("_");
    r.append(target);
    r
}

/// Read an inbound command: its topic, and its frame if that could be read.
/// Nothing where it cannot be answered.
pub fn accept_command<N: Scalar>(topic: &str, site_id: &str, frame: Option<CommandFrame<N>>) -> (r:
    Option<Command<N>>)
    ensures
        match r {
            Some(c) => {
                let p = text::pieces(topic@, '/');
                &&& topic::is_command(p, site_id@)
                &&& frame matches Some(f)
                &&& c.device_id@ == p[3]
                &&& c.channel_key@ == key_of(p[5], p[6])
                &&& c.events@ == topic::event_topic_text(site_id@, p[3])
                &&& c.command_id == f.command_id
                &&& c.value == f.value
            },
            None => !topic::is_command(text::pieces(topic@, '/'), site_id@) || frame is None,
        },
{
    match parse_command_topic(topic, site_id) {
        None => None,
        Some(t) => match frame {
            None => None,
            Some(f) => Some(
                Command {
                    device_id: t.device_id.to_owned(),
                    channel_key: channel_key(t.verb, t.target),
                    events: event_topic(site_id, t.device_id),
                    command_id: f.command_id,
                    value: f.value,
                },
            ),
        },
    }
}

/// A lifecycle event of a command: at least once, and retained, so that a
/// subscriber that comes late still sees the latest state.
pub open spec fn is_event<N>(
    p: Publication,
    c: Command<N>,
    now: Seq<char>,
    phase: Phase,
    reason: Option<Seq<char>>,
) -> bool {
    &&& p.topic@ == c.events@
    &&& p.payload@ == event_text(now, c.command_id@, phase, reason)
    &&& p.qos == EVENT_QOS
    &&& p.retained
}

fn event<N>(c: &Command<N>, now: &str, phase: Phase, reason: Option<&str>) -> (r: Publication)
    ensures
        is_event(
            r,
            *c,
            now@,
            phase,
            match reason {
                Some(x) => Some(x@),
                None => None,
            },
        ),
{
    Publication {
        topic: c.events.clone(),
        payload: event_payload(now, c.command_id.as_str(), phase, reason),
        qos: EVENT_QOS,
        retained: true,
    }
}

/// The ack that a command was received.
pub fn received<N>(c: &Command<N>, now: &str) -> (r: Publication)
    ensures
        is_event(r, *c, now@, Phase::Received, None),
{
    event(c, now, Phase::Received, None)
}

/// The final ack of a command: `done`, or `failed` with the reason.
pub fn concluded<N>(c: &Command<N>, now: &str, outcome: &Result<(), GatewayError>) -> (r:
    Publication)
    ensures
        match outcome {
            Ok(_) => is_event(r, *c, now@, Phase::Done, None),
            Err(e) => is_event(r, *c, now@, Phase::Failed, Some(e.message@)),
        },
{
    match outcome {
        Ok(_) => event(c, now, Phase::Done, None),
        Err(e) => event(c, now, Phase::Failed, Some(e.message.as_str())),
    }
}

/// The south-side work of a command.
#[derive(Debug)]
pub enum SetpointPlan {
    /// One write.
    Write(WritePlan),
    /// One write for each child.
    Shares(SharesPlan),
}

/// The protocol name of a binding.
pub open spec fn protocol_text<N>(binding: ProtocolBinding<N>) -> Seq<char> {
    match binding {
        ProtocolBinding::ModbusTcp(_) => "modbus_tcp"@,
        ProtocolBinding::Snmp(_) => "snmp"@,
        ProtocolBinding::Redfish(_) => "redfish"@,
        ProtocolBinding::Dnp3Tcp(_) => "dnp3_tcp"@,
        ProtocolBinding::BacnetIp(_) => "bacnet_ip"@,
        ProtocolBinding::BacnetSc(_) => "bacnet_sc"@,
        ProtocolBinding::Synthetic(_) => "synthetic"@,
        ProtocolBinding::Distribute(_) => "distribute"@,
    }
}

/// The protocol name of a binding.
pub fn protocol_name<N>(binding: &ProtocolBinding<N>) -> (r: &'static str)
    ensures
        r@ == protocol_text(*binding),
{
    match binding {
        ProtocolBinding::ModbusTcp(_) => "modbus_tcp",
        ProtocolBinding::Snmp(_) => "snmp",
        ProtocolBinding::Redfish(_) => "redfish",
        ProtocolBinding::Dnp3Tcp(_) => "dnp3_tcp",
        ProtocolBinding::BacnetIp(_) => "bacnet_ip",
        ProtocolBinding::BacnetSc(_) => "bacnet_sc",
        ProtocolBinding::Synthetic(_) => "synthetic",
        ProtocolBinding::Distribute(_) => "distribute",
    }
}

/// What `execute_setpoint` returns: one Modbus write, the writes of a split
/// setpoint, or the reason why there is nothing to write.
pub open spec fn is_execution<N: Scalar>(
    r: Result<SetpointPlan, GatewayError>,
    binding: ProtocolBinding<N>,
    value: N,
    device_id: Seq<char>,
    channel_key: Seq<char>,
    site_id: Seq<char>,
    channels: Map<Seq<char>, StringMap<ProtocolBinding<N>>>,
    trust: Map<Seq<char>, DeviceTrust>,
    creds: Option<GatewayCredentials>,
    cache: Map<Seq<char>, u64>,
) -> bool {
    match binding {
        ProtocolBinding::ModbusTcp(b) => match r {
            Ok(SetpointPlan::Write(p)) => modbus::writes(
                p,
                b,
                value,
                distribute::lookup(trust, device_id),
                creds,
            ),
            Ok(_) => false,
            Err(e) => modbus::unit_of(b) is None && e.message@ == modbus::unit_error(),
        },
        ProtocolBinding::Distribute(d) => match r {
            Ok(SetpointPlan::Shares(p)) => distribute::shares_of(
                d,
                value,
                site_id,
                cache,
            ) matches Ok(shares) && distribute::plans_shares(
                p,
                shares,
                channel_key,
                channels,
                trust,
                creds,
            ),
            Ok(_) => false,
            Err(e) => distribute::shares_of(d, value, site_id, cache) == Err::<
                Seq<(Seq<char>, N)>,
                _,
            >(e.message@),
        },
        _ => r matches Err(e) && e.message@ == "unsupported protocol for commands: "@
            + protocol_text(binding),
    }
}

/// Plan the south-side work of a setpoint, whatever its binding is.
pub fn execute_setpoint<N: Scalar>(
    binding: &ProtocolBinding<N>,
    value: N,
    device_id: &str,
    channel_key: &str,
    site_id: &str,
    device_channels: &StringMap<StringMap<ProtocolBinding<N>>>,
    device_trust: &StringMap<DeviceTrust>,
    creds: Option<&GatewayCredentials>,
    cache: &InputCache,
) -> (r: Result<SetpointPlan, GatewayError>)
    ensures
        is_execution(
            r,
            *binding,
            value,
            device_id@,
            channel_key@,
            site_id@,
            device_channels@,
            device_trust@,
            modbus::opt(creds),
            cache@,
        ),
{
    match binding {
        ProtocolBinding::ModbusTcp(b) => {
            let trust = device_trust.get(device_id);
            match modbus::write_setpoint(b, value, trust, creds) {
                Ok(p) => Ok(SetpointPlan::Write(p)),
                Err(e) => Err(e),
            }
        },
        ProtocolBinding::Distribute(d) => {
            match dispatch_distribute(
                d,
                value,
                channel_key,
                site_id,
                device_channels,
                device_trust,
                creds,
                cache,
            ) {
                Ok(p) => Ok(SetpointPlan::Shares(p)),
                Err(e) => Err(e),
            }
        },
        other => Err(failure_of("unsupported protocol for commands: ", protocol_name(other))),
    }
}

/// What is said of a command for a device that is not known.
pub open spec fn unknown_device(device_id: Seq<char>) -> Seq<char> {
    "unknown device "@ + device_id
}

/// What is said of a command that its device does not have.
pub open spec fn unknown_command(channel_key: Seq<char>, device_id: Seq<char>) -> Seq<char> {
    "unknown command "@ + channel_key + " for device "@ + device_id
}

/// Handle a command that has been acked as received: find its binding,
/// remember what was asked for, and plan the south-side work. What is
/// returned decides the final ack.
pub fn handle_command<N: Scalar>(
    command: &Command<N>,
    site_id: &str,
    device_channels: &StringMap<StringMap<ProtocolBinding<N>>>,
    device_trust: &StringMap<DeviceTrust>,
    creds: Option<&GatewayCredentials>,
    cache: &InputCache,
    last_requested: &mut LastRequestedSetpoints<N>,
) -> (r: Result<SetpointPlan, GatewayError>)
    ensures
        match string_map::nested(device_channels@, command.device_id@, command.channel_key@) {
            None => {
                &&& *final(last_requested) == *old(last_requested)
                &&& r matches Err(e)
                &&& e.message@ == (if device_channels@.dom().contains(command.device_id@) {
                    unknown_command(command.channel_key@, command.device_id@)
                } else {
                    unknown_device(command.device_id@)
                })
            },
            Some(binding) => {
                &&& forall|d: Seq<char>, k: Seq<char>|
                    #[trigger] string_map::nested(final(last_requested)@, d, k) == (if d
                        == command.device_id@ && k == command.channel_key@ {
                        Some(command.value)
                    } else {
                        string_map::nested(old(last_requested)@, d, k)
                    })
                &&& is_execution(
                    r,
                    binding,
                    command.value,
                    command.device_id@,
                    command.channel_key@,
                    site_id@,
                    device_channels@,
                    device_trust@,
                    modbus::opt(creds),
                    cache@,
                )
            },
        },
{
    let device_id = command.device_id.as_str();
    match device_channels.get(device_id) {
        None => Err(failure_of("unknown device ", device_id)),
        Some(channels) => match channels.get(command.channel_key.as_str()) {
            None => {
                let mut m = "unknown command ".to_owned();
                m.append(command.channel_key.as_str());
                m.append(" for device ");
                m.append(device_id);
                Err(failure(m))
            },
            Some(binding) => {
                set_nested(
                    last_requested,
                    device_id,
                    command.channel_key.clone(),
                    command.value,
                );
                execute_setpoint(
                    binding,
                    command.value,
                    device_id,
                    command.channel_key.as_str(),
                    site_id,
                    device_channels,
                    device_trust,
                    creds,
                    cache,
                )
            },
        },
    }
}

/// Only a Modbus binding and a distribute binding ever lead to a write: every
/// other protocol is refused, with its name in the reason.
pub proof fn lemma_other_protocols_refused<N: Scalar>(
    r: Result<SetpointPlan, GatewayError>,
    binding: ProtocolBinding<N>,
    value: N,
    device_id: Seq<char>,
    channel_key: Seq<char>,
    site_id: Seq<char>,
    channels: Map<Seq<char>, StringMap<ProtocolBinding<N>>>,
    trust: Map<Seq<char>, DeviceTrust>,
    creds: Option<GatewayCredentials>,
    cache: Map<Seq<char>, u64>,
)
    requires
        is_execution(
            r,
            binding,
            value,
            device_id,
            channel_key,
            site_id,
            channels,
            trust,
            creds,
            cache,
        ),
        r is Ok,
    ensures
        binding is ModbusTcp || binding is Distribute,
{
}

/// An event tells which command it answers: two events that differ at most in
/// the command have different payloads if the commands differ.
pub proof fn lemma_event_names_command(
    now: Seq<char>,
    a: Seq<char>,
    b: Seq<char>,
    phase: Phase,
    reason: Option<Seq<char>>,
)
    requires
        event_text(now, a, phase, reason) == event_text(now, b, phase, reason),
    ensures
        a == b,
{
    let front = "{\"command_id\":"@;
    let p = event_text(now, a, phase, reason);
    let rest = p.skip((front + json::json_quoted(a)).len() as int);
    let q = event_text(now, b, phase, reason);
    let tail = q.skip((front + json::json_quoted(b)).len() as int);
    assert(rest =~= ",\"phase\":"@ + json::json_quoted(phase_name(phase)) + (match reason {
        Some(r) => ",\"reason\":"@ + json::json_quoted(r),
        None => Seq::empty(),
    }) + ",\"ts\":"@ + json::json_quoted(now) + "}"@);
    assert(tail =~= rest);
    assert(json::json_quoted(a) =~= p.subrange(front.len() as int, p.len() - rest.len()));
    assert(json::json_quoted(b) =~= q.subrange(front.len() as int, q.len() - tail.len()));
    json::lemma_quoted_texts_differ(a, b);
}

/// What a setpoint comes to, binding by binding: a Modbus command is one write to the
/// address of its own binding, of the words that hold the commanded value; a
/// distributed one is a write for every share of that value, in order; anything
/// else is refused.
pub proof fn lemma_setpoint_goes_to_its_binding<N: Scalar>(
    r: Result<SetpointPlan, GatewayError>,
    binding: ProtocolBinding<N>,
    value: N,
    device_id: Seq<char>,
    channel_key: Seq<char>,
    site_id: Seq<char>,
    channels: Map<Seq<char>, StringMap<ProtocolBinding<N>>>,
    trust: Map<Seq<char>, DeviceTrust>,
    creds: Option<GatewayCredentials>,
    cache: Map<Seq<char>, u64>,
)
    requires
        is_execution(
            r,
            binding,
            value,
            device_id,
            channel_key,
            site_id,
            channels,
            trust,
            creds,
            cache,
        ),
    ensures
        match binding {
            ProtocolBinding::ModbusTcp(b) => {
                &&& r is Ok <==> text::unsigned_value(b.unit_id@, 255) is Some
                &&& r matches Ok(plan) ==> {
                    &&& plan matches SetpointPlan::Write(p)
                    &&& p.host == b.host && p.port == b.port && p.address == b.address
                    &&& p.words@ == codec::encoded(
                        value.minus_spec(b.offset).over_spec(b.scale),
                        b.data_type,
                        b.word_order,
                    )
                    &&& p.dial is Tls <==> trust.dom().contains(device_id)
                        && trust[device_id] is TlsMutual && creds is Some
                }
            },
            ProtocolBinding::Distribute(d) => {
                &&& r is Ok <==> distribute::shares_of(d, value, site_id, cache) is Ok
                &&& r matches Ok(plan) ==> {
                    &&& plan matches SetpointPlan::Shares(p)
                    &&& forall|i: int|
                        0 <= i < p.writes@.len() ==> (#[trigger] p.writes@[i]).device_id@
                            == distribute::shares_of(d, value, site_id, cache)->Ok_0[i].0
                    &&& p.failure is None ==> p.writes@.len() == distribute::shares_of(
                        d,
                        value,
                        site_id,
                        cache,
                    )->Ok_0.len()
                }
            },
            _ => r is Err,
        },
{
}

/// The answers that a command can get, in full: it was received, it is done, or it
/// failed for a reason.
pub proof fn lemma_answers(now: Seq<char>, command_id: Seq<char>, reason: Seq<char>)
    ensures
        ({
            let front = "{\"command_id\":"@ + json::json_quoted(command_id) + ",\"phase\":"@;
            let back = ",\"ts\":"@ + json::json_quoted(now) + "}"@;
            &&& event_text(now, command_id, Phase::Received, None) == front + json::json_quoted(
                "received"@,
            ) + back
            &&& event_text(now, command_id, Phase::Done, None) == front + json::json_quoted("done"@)
                + back
            &&& event_text(now, command_id, Phase::Failed, Some(reason)) == front
                + json::json_quoted("failed"@) + ",\"reason\":"@ + json::json_quoted(reason) + back
        }),
{
    let front = "{\"command_id\":"@ + json::json_quoted(command_id) + ",\"phase\":"@;
    let back = ",\"ts\":"@ + json::json_quoted(now) + "}"@;
    assert(event_text(now, command_id, Phase::Received, None) =~= front + json::json_quoted(
        "received"@,
    ) + back);
    assert(event_text(now, command_id, Phase::Done, None) =~= front + json::json_quoted("done"@)
        + back);
    assert(event_text(now, command_id, Phase::Failed, Some(reason)) =~= front + json::json_quoted(
        "failed"@,
    ) + ",\"reason\":"@ + json::json_quoted(reason) + back);
}

/// A key tells verb and target apart from those of any other command whose verb
/// holds no underscore.
pub proof fn lemma_keys_differ(
    verb: Seq<char>,
    target: Seq<char>,
    other_verb: Seq<char>,
    other_target: Seq<char>,
)
    requires
        !verb.contains('_') && !other_verb.contains('_'),
        key_of(verb, target) == key_of(other_verb, other_target),
    ensures
        verb == other_verb,
        target == other_target,
{
    reveal_strlit("_");
    let a = key_of(verb, target);
    let b = key_of(other_verb, other_target);
    let m = verb.len() as int;
    let n = other_verb.len() as int;
    assert(a[m] == '_' && b[n] == '_');
    if m < n {
        assert(b[m] == other_verb[m]);
        assert(other_verb.contains('_'));
    }
    if n < m {
        assert(a[n] == verb[n]);
        assert(verb.contains('_'));
    }
    assert(verb =~= a.take(m));
    assert(other_verb =~= b.take(n));
    assert(target =~= a.skip(m + 1));
    assert(other_target =~= b.skip(n + 1));
}

/// An event of a command goes to the topic where the command is answered, at least once, and
/// is kept for who comes late.
pub proof fn lemma_events_are_kept<N>(
    p: Publication,
    c: Command<N>,
    now: Seq<char>,
    phase: Phase,
    reason: Option<Seq<char>>,
)
    requires
        is_event(p, c, now, phase, reason),
    ensures
        p.topic@ == c.events@,
        p.payload@ == event_text(now, c.command_id@, phase, reason),
        p.qos == 1,
        p.retained,
{
}

/// No two protocols share a name.
pub proof fn lemma_protocol_names_differ<N>(a: ProtocolBinding<N>, b: ProtocolBinding<N>)
    requires
        protocol_text(a) == protocol_text(b),
    ensures
        a is ModbusTcp <==> b is ModbusTcp,
        a is Snmp <==> b is Snmp,
        a is Redfish <==> b is Redfish,
        a is Dnp3Tcp <==> b is Dnp3Tcp,
        a is BacnetIp <==> b is BacnetIp,
        a is BacnetSc <==> b is BacnetSc,
        a is Synthetic <==> b is Synthetic,
        a is Distribute <==> b is Distribute,
{
    reveal_strlit("modbus_tcp");
    reveal_strlit("snmp");
    reveal_strlit("redfish");
    reveal_strlit("dnp3_tcp");
    reveal_strlit("bacnet_ip");
    reveal_strlit("bacnet_sc");
    reveal_strlit("synthetic");
    reveal_strlit("distribute");
    assert("modbus_tcp"@[0] == 'm' && "snmp"@[1] == 'n' && "redfish"@[0] == 'r');
    assert("dnp3_tcp"@[1] == 'n' && "distribute"@[1] == 'i' && "synthetic"@[1] == 'y');
    assert("dnp3_tcp"@[0] == 'd' && "distribute"@[0] == 'd' && "synthetic"@[0] == 's'
        && "snmp"@[0] == 's');
    assert("bacnet_ip"@[0] == 'b' && "bacnet_sc"@[0] == 'b' && "bacnet_ip"@[7] == 'i'
        && "bacnet_sc"@[7] == 's');
}

} // verus!
