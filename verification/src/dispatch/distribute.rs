//! Distribute bindings: one setpoint into per-child writes.

use crate::app;
use crate::app::substitute_site_id;
use crate::asyncapi::trust::DeviceTrust;
use crate::asyncapi::types::{ChildAllocation, DistributeBinding, ProtocolBinding};
use crate::config::GatewayCredentials;
use crate::dispatch::allocation;
use crate::dispatch::allocation::{
    allocate, AllocationPolicy, ChildCapacity, ChildView, OperatingState,
};
use crate::error::{failure, failure_of, failure_of3, GatewayError};
use crate::modbus::client as modbus;
use crate::modbus::client::WritePlan;
use crate::modbus::codec;
use crate::scalar;
use crate::scalar::Scalar;
use crate::string_map;
use crate::string_map::{get_nested, StringMap};
use crate::synthetic::cache;
use crate::synthetic::cache::InputCache;
use crate::text;
use crate::text::signed_decimal;
use vstd::prelude::*;

verus! {

/// The operating state of a register value.
pub open spec fn state_of(n: int) -> Option<OperatingState> {
    if n == 0 {
        Some(OperatingState::Standby)
    } else if n == 1 {
        Some(OperatingState::Charging)
    } else if n == 2 {
        Some(OperatingState::Discharging)
    } else if n == 3 {
        Some(OperatingState::Fault)
    } else if n == 4 {
        Some(OperatingState::Offline)
    } else {
        None
    }
}

/// What is said of a register value that is no operating state.
pub open spec fn state_error(n: int) -> Seq<char> {
    "unknown operating_state value: "@ + text::signed_digits(n)
}

/// Read an operating state from a cached value, by its nearest integer.
pub fn operating_state_from<N: Scalar>(raw: N) -> (r: Result<OperatingState, GatewayError>)
    ensures
        match r {
            Ok(s) => state_of(raw.round_spec() as int) == Some(s),
            Err(e) => state_of(raw.round_spec() as int) is None && e.message@ == state_error(
                raw.round_spec() as int,
            ),
        },
{
    let n: i64 = raw.round();
    if n == 0 {
        Ok(OperatingState::Standby)
    } else if n == 1 {
        Ok(OperatingState::Charging)
    } else if n == 2 {
        Ok(OperatingState::Discharging)
    } else if n == 3 {
        Ok(OperatingState::Fault)
    } else if n == 4 {
        Ok(OperatingState::Offline)
    } else {
        Err(failure_of("unknown operating_state value: ", signed_decimal(n).as_str()))
    }
}

/// Room in the direction of a target: the lower bound's magnitude when
/// charging, the upper bound otherwise.
pub open spec fn headroom<N: Scalar>(target: N, power_min: N, power_max: N) -> N {
    if target.below_spec(scalar::zero()) {
        power_min.magnitude_spec()
    } else {
        power_max
    }
}

/// Room in the direction of a target.
pub fn headroom_towards<N: Scalar>(target: N, power_min: N, power_max: N) -> (r: N)
    ensures
        r == headroom(target, power_min, power_max),
{
    if target.below(N::from_u64(0)) {
        power_min.magnitude()
    } else {
        power_max
    }
}

/// What allocation needs of a child, from its cached measurements; or why it
/// cannot be had.
pub open spec fn child_of<N: Scalar>(
    c: ChildAllocation<N>,
    target: N,
    site_id: Seq<char>,
    cache: Map<Seq<char>, u64>,
) -> Result<ChildView<N>, Seq<char>> {
    let state = cache::reading::<N>(cache, app::site_topic(c.operating_state_topic@, site_id));
    let charge = cache::reading::<N>(cache, app::site_topic(c.state_of_charge_topic@, site_id));
    match state {
        None => Err("no cached operating_state for "@ + c.device_id@),
        Some(raw) => match state_of(raw.round_spec() as int) {
            None => Err(state_error(raw.round_spec() as int)),
            Some(s) => match charge {
                None => Err("no cached state_of_charge for "@ + c.device_id@),
                Some(soc) => Ok(
                    ChildView {
                        device_id: c.device_id@,
                        operating_state: s,
                        headroom: headroom(target, c.power_min, c.power_max),
                        state_of_charge: soc,
                    },
                ),
            },
        },
    }
}

/// Read one child's cached measurements.
pub fn resolve_child<N: Scalar>(
    c: &ChildAllocation<N>,
    target: N,
    site_id: &str,
    cache: &InputCache,
) -> (r: Result<ChildCapacity<N>, GatewayError>)
    ensures
        match r {
            Ok(x) => child_of(*c, target, site_id@, cache@) == Ok::<_, Seq<char>>(x@),
            Err(e) => child_of(*c, target, site_id@, cache@) == Err::<ChildView<N>, _>(
                e.message@,
            ),
        },
{
    let state_topic = substitute_site_id(c.operating_state_topic.as_str(), site_id);
    let charge_topic = substitute_site_id(c.state_of_charge_topic.as_str(), site_id);
    let raw: N = match cache.get::<N>(state_topic.as_str()) {
        Some(v) => v,
        None => {
            return Err(failure_of("no cached operating_state for ", c.device_id.as_str()));
        },
    };
    let operating_state: OperatingState = match operating_state_from(raw) {
        Ok(s) => s,
        Err(e) => {
            return Err(e);
        },
    };
    let state_of_charge: N = match cache.get::<N>(charge_topic.as_str()) {
        Some(v) => v,
        None => {
            return Err(failure_of("no cached state_of_charge for ", c.device_id.as_str()));
        },
    };
    Ok(
        ChildCapacity {
            device_id: c.device_id.clone(),
            operating_state,
            headroom: headroom_towards(target, c.power_min, c.power_max),
            state_of_charge,
        },
    )
}

/// What allocation needs of every child, or the first reason why it cannot
/// be had.
pub open spec fn children_of<N: Scalar>(
    children: Seq<ChildAllocation<N>>,
    target: N,
    site_id: Seq<char>,
    cache: Map<Seq<char>, u64>,
) -> Result<Seq<ChildView<N>>, Seq<char>>
    decreases children.len(),
{
    if children.len() == 0 {
        Ok(Seq::empty())
    } else {
        match children_of(children.drop_last(), target, site_id, cache) {
            Err(e) => Err(e),
            Ok(s) => match child_of(children.last(), target, site_id, cache) {
                Err(e) => Err(e),
                Ok(c) => Ok(s.push(c)),
            },
        }
    }
}

proof fn lemma_children_of_prefix<N: Scalar>(
    children: Seq<ChildAllocation<N>>,
    i: int,
    target: N,
    site_id: Seq<char>,
    cache: Map<Seq<char>, u64>,
)
    requires
        0 <= i <= children.len(),
        children_of(children.take(i), target, site_id, cache) is Err,
    ensures
        children_of(children, target, site_id, cache) == children_of(
            children.take(i),
            target,
            site_id,
            cache,
        ),
    decreases children.len() - i,
{
    if i == children.len() {
        assert(children.take(i) =~= children);
    } else {
        assert(children.take(i + 1).drop_last() =~= children.take(i));
        lemma_children_of_prefix(children, i + 1, target, site_id, cache);
    }
}

/// The shares of a setpoint, or why there are none.
pub open spec fn shares_of<N: Scalar>(
    binding: DistributeBinding<N>,
    target: N,
    site_id: Seq<char>,
    cache: Map<Seq<char>, u64>,
) -> Result<Seq<(Seq<char>, N)>, Seq<char>> {
    match allocation::policy_of(binding.allocation_policy@) {
        None => Err(allocation::unknown_policy(binding.allocation_policy@)),
        Some(policy) => match children_of(binding.children@, target, site_id, cache) {
            Err(e) => Err(e),
            Ok(children) => {
                let shares = allocation::allocation(target, children, policy);
                if shares.len() == 0 {
                    Err("no eligible children to distribute to"@)
                } else {
                    Ok(shares)
                }
            },
        },
    }
}

/// Split `target` across the eligible children of a binding.
pub fn compute_shares<N: Scalar>(
    binding: &DistributeBinding<N>,
    target: N,
    site_id: &str,
    cache: &InputCache,
) -> (r: Result<Vec<(String, N)>, GatewayError>)
    ensures
        match r {
            Ok(v) => shares_of(*binding, target, site_id@, cache@) == Ok::<_, Seq<char>>(
                allocation::shares_view(v@),
            ),
            Err(e) => shares_of(*binding, target, site_id@, cache@) == Err::<
                Seq<(Seq<char>, N)>,
                _,
            >(e.message@),
        },
{
    let policy: AllocationPolicy = match AllocationPolicy::parse(
        binding.allocation_policy.as_str(),
    ) {
        Ok(p) => p,
        Err(e) => {
            return Err(e);
        },
    };
    let mut children: Vec<ChildCapacity<N>> = Vec::new();
    let ghost all = binding.children@;
    assert(allocation::children_view(children@) =~= Seq::empty());
    let mut i: usize = 0;
    while i < binding.children.len()
        invariant
            i <= binding.children@.len(),
            all == binding.children@,
            children_of(all.take(i as int), target, site_id@, cache@) == Ok::<_, Seq<char>>(
                allocation::children_view(children@),
            ),
            allocation::policy_of(binding.allocation_policy@) == Some(policy),
        decreases binding.children@.len() - i,
    {
        assert(all.take(i + 1).drop_last() =~= all.take(i as int));
        match resolve_child(&binding.children[i], target, site_id, cache) {
            Ok(c) => {
                let ghost before = children@;
                children.push(c);
                assert(allocation::children_view(children@) =~= allocation::children_view(
                    before,
                ).push(c@));
            },
            Err(e) => {
                proof {
                    lemma_children_of_prefix(all, i + 1, target, site_id@, cache@);
                }
                return Err(e);
            },
        }
        i = i + 1;
    }
    assert(all.take(i as int) =~= all);
    let shares = allocate(target, children.as_slice(), policy);
    assert(allocation::shares_view(shares@).len() == shares@.len());
    if shares.len() == 0 {
        return Err(failure("no eligible children to distribute to".to_owned()));
    }
    Ok(shares)
}

// ---------------------------------------------------------------------
// Writes
// ---------------------------------------------------------------------

/// One child's write.
#[derive(Debug)]
pub struct ChildWrite {
    /// The child.
    pub device_id: String,
    /// The write.
    pub plan: WritePlan,
}

/// The writes of a split setpoint, in order, up to the first child that
/// cannot be written to; and that child's failure, if there is one.
#[derive(Debug)]
pub struct SharesPlan {
    /// What to write, in order.
    pub writes: Vec<ChildWrite>,
    /// What to fail with once those writes have succeeded.
    pub failure: Option<GatewayError>,
}

/// What is said of a child that has no such command.
pub open spec fn no_binding(device_id: Seq<char>, channel_key: Seq<char>) -> Seq<char> {
    "child "@ + device_id + " has no "@ + channel_key + " binding"@
}

/// What is said of a child whose command is not written over Modbus.
pub open spec fn not_modbus(device_id: Seq<char>, channel_key: Seq<char>) -> Seq<char> {
    "child "@ + device_id + "'s "@ + channel_key + " binding is not modbus_tcp"@
}

/// What is said of a child whose write failed.
pub open spec fn write_failed(device_id: Seq<char>) -> Seq<char> {
    "write to child "@ + device_id + " failed"@
}

/// The binding of a child's command, if the child can be written to.
pub open spec fn writable<N>(
    device_id: Seq<char>,
    channel_key: Seq<char>,
    channels: Map<Seq<char>, StringMap<ProtocolBinding<N>>>,
) -> bool {
    match string_map::nested(channels, device_id, channel_key) {
        Some(ProtocolBinding::ModbusTcp(b)) => modbus::unit_of(b) is Some,
        _ => false,
    }
}

/// Why a child cannot be written to.
pub open spec fn unwritable_reason<N>(
    device_id: Seq<char>,
    channel_key: Seq<char>,
    channels: Map<Seq<char>, StringMap<ProtocolBinding<N>>>,
) -> Seq<char> {
    match string_map::nested(channels, device_id, channel_key) {
        None => no_binding(device_id, channel_key),
        Some(ProtocolBinding::ModbusTcp(b)) => write_failed(device_id),
        Some(_) => not_modbus(device_id, channel_key),
    }
}

/// The value of a key, if it is there.
pub open spec fn lookup<V>(map: Map<Seq<char>, V>, key: Seq<char>) -> Option<V> {
    if map.dom().contains(key) {
        Some(map[key])
    } else {
        None
    }
}

/// A write is the one that gives a child its share.
pub open spec fn gives_share<N: Scalar>(
    w: ChildWrite,
    share: (Seq<char>, N),
    channel_key: Seq<char>,
    channels: Map<Seq<char>, StringMap<ProtocolBinding<N>>>,
    trust: Map<Seq<char>, DeviceTrust>,
    creds: Option<GatewayCredentials>,
) -> bool {
    &&& w.device_id@ == share.0
    &&& string_map::nested(channels, share.0, channel_key) matches Some(
        ProtocolBinding::ModbusTcp(b),
    )
    &&& modbus::writes(w.plan, b, share.1, lookup(trust, share.0), creds)
}

/// A plan writes the shares in order and stops at the first child that cannot
/// be written to.
pub open spec fn plans_shares<N: Scalar>(
    plan: SharesPlan,
    shares: Seq<(Seq<char>, N)>,
    channel_key: Seq<char>,
    channels: Map<Seq<char>, StringMap<ProtocolBinding<N>>>,
    trust: Map<Seq<char>, DeviceTrust>,
    creds: Option<GatewayCredentials>,
) -> bool {
    let n = plan.writes@.len() as int;
    &&& n <= shares.len()
    &&& forall|i: int|
        0 <= i < n ==> gives_share(
            #[trigger] plan.writes@[i],
            shares[i],
            channel_key,
            channels,
            trust,
            creds,
        )
    &&& match plan.failure {
        None => n == shares.len(),
        Some(e) => n < shares.len() && !writable(shares[n].0, channel_key, channels) && e.message@
            == unwritable_reason(shares[n].0, channel_key, channels),
    }
}

fn plan_child<N: Scalar>(
    device_id: &str,
    share: N,
    channel_key: &str,
    device_channels: &StringMap<StringMap<ProtocolBinding<N>>>,
    device_trust: &StringMap<DeviceTrust>,
    creds: Option<&GatewayCredentials>,
) -> (r: Result<ChildWrite, GatewayError>)
    ensures
        match r {
            Ok(w) => gives_share(
                w,
                (device_id@, share),
                channel_key@,
                device_channels@,
                device_trust@,
                modbus::opt(creds),
            ),
            Err(e) => !writable(device_id@, channel_key@, device_channels@) && e.message@
                == unwritable_reason(device_id@, channel_key@, device_channels@),
        },
{
    match get_nested(device_channels, device_id, channel_key) {
        None => {
            let mut m = "child ".to_owned();
            m.append(device_id);
            m.append(" has no ");
            m.append(channel_key);
            m.append(" binding");
            Err(failure(m))
        },
        Some(ProtocolBinding::ModbusTcp(b)) => {
            let trust = device_trust.get(device_id);
            match modbus::write_setpoint(b, share, trust, creds) {
                Ok(plan) => Ok(ChildWrite { device_id: device_id.to_owned(), plan }),
                Err(_) => Err(child_write_failure(device_id)),
            }
        },
        Some(_) => {
            let mut m = "child ".to_owned();
            m.append(device_id);
            m.append("'s ");
            m.append(channel_key);
            m.append(" binding is not modbus_tcp");
            Err(failure(m))
        },
    }
}

/// The failure of a child's write.
pub fn child_write_failure(device_id: &str) -> (r: GatewayError)
    ensures
        r.message@ == write_failed(device_id@),
{
    failure_of3("write to child ", device_id, " failed")
}

/// The writes that give every child its share.
pub fn write_shares<N: Scalar>(
    shares: &[(String, N)],
    channel_key: &str,
    device_channels: &StringMap<StringMap<ProtocolBinding<N>>>,
    device_trust: &StringMap<DeviceTrust>,
    creds: Option<&GatewayCredentials>,
) -> (r: SharesPlan)
    ensures
        plans_shares(
            r,
            allocation::shares_view(shares@),
            channel_key@,
            device_channels@,
            device_trust@,
            modbus::opt(creds),
        ),
{
    let ghost view = allocation::shares_view(shares@);
    let mut writes: Vec<ChildWrite> = Vec::new();
    let mut i: usize = 0;
    while i < shares.len()
        invariant
            i <= shares@.len(),
            view == allocation::shares_view(shares@),
            writes@.len() == i,
            forall|k: int|
                0 <= k < i ==> gives_share(
                    #[trigger] writes@[k],
                    view[k],
                    channel_key@,
                    device_channels@,
                    device_trust@,
                    modbus::opt(creds),
                ),
        decreases shares@.len() - i,
    {
        match plan_child(
            shares[i].0.as_str(),
            shares[i].1,
            channel_key,
            device_channels,
            device_trust,
            creds,
        ) {
            Ok(w) => {
                writes.push(w);
            },
            Err(e) => {
                return SharesPlan { writes, failure: Some(e) };
            },
        }
        i = i + 1;
    }
    SharesPlan { writes, failure: None }
}

/// Split a setpoint and plan its writes.
pub fn dispatch_distribute<N: Scalar>(
    binding: &DistributeBinding<N>,
    target: N,
    channel_key: &str,
    site_id: &str,
    device_channels: &StringMap<StringMap<ProtocolBinding<N>>>,
    device_trust: &StringMap<DeviceTrust>,
    creds: Option<&GatewayCredentials>,
    cache: &InputCache,
) -> (r: Result<SharesPlan, GatewayError>)
    ensures
        match r {
            Ok(plan) => shares_of(*binding, target, site_id@, cache@) matches Ok(shares)
                && plans_shares(
                plan,
                shares,
                channel_key@,
                device_channels@,
                device_trust@,
                modbus::opt(creds),
            ),
            Err(e) => shares_of(*binding, target, site_id@, cache@) == Err::<
                Seq<(Seq<char>, N)>,
                _,
            >(e.message@),
        },
{
    match compute_shares(binding, target, site_id, cache) {
        Ok(shares) => Ok(
            write_shares(shares.as_slice(), channel_key, device_channels, device_trust, creds),
        ),
        Err(e) => Err(e),
    }
}

// ---------------------------------------------------------------------
// Laws
// ---------------------------------------------------------------------

/// Shares are written in order, each to its own child over that child's own
/// Modbus command of the same key. Writing stops only at a child that has no such
/// command with a unit to write to, and then every share before it is written.
pub proof fn lemma_shares_are_written_in_order<N: Scalar>(
    plan: SharesPlan,
    shares: Seq<(Seq<char>, N)>,
    channel_key: Seq<char>,
    channels: Map<Seq<char>, StringMap<ProtocolBinding<N>>>,
    trust: Map<Seq<char>, DeviceTrust>,
    creds: Option<GatewayCredentials>,
)
    requires
        plans_shares(plan, shares, channel_key, channels, trust, creds),
    ensures
        forall|i: int|
            0 <= i < plan.writes@.len() ==> {
                let w = #[trigger] plan.writes@[i];
                let id = shares[i].0;
                &&& i < shares.len()
                &&& w.device_id@ == id
                &&& channels.dom().contains(id) && channels[id]@.dom().contains(channel_key)
                &&& channels[id]@[channel_key] matches ProtocolBinding::ModbusTcp(b)
                &&& w.plan.host == b.host && w.plan.port == b.port && w.plan.address == b.address
                &&& text::unsigned_value(b.unit_id@, 255) == Some(w.plan.unit_id as nat)
                &&& w.plan.words@ == codec::encoded(
                    shares[i].1.minus_spec(b.offset).over_spec(b.scale),
                    b.data_type,
                    b.word_order,
                )
                &&& w.plan.dial is Tls <==> trust.dom().contains(id) && trust[id] is TlsMutual
                    && creds is Some
            },
        plan.failure is None <==> plan.writes@.len() == shares.len(),
        plan.failure is Some ==> {
            let id = shares[plan.writes@.len() as int].0;
            &&& plan.writes@.len() < shares.len()
            &&& channels.dom().contains(id) && channels[id]@.dom().contains(channel_key) ==> (
            channels[id]@[channel_key] matches ProtocolBinding::ModbusTcp(b)
                ==> text::unsigned_value(b.unit_id@, 255) is None)
        },
{
    assert forall|i: int| 0 <= i < plan.writes@.len() implies {
        let w = #[trigger] plan.writes@[i];
        let id = shares[i].0;
        &&& i < shares.len()
        &&& w.device_id@ == id
        &&& channels.dom().contains(id) && channels[id]@.dom().contains(channel_key)
        &&& channels[id]@[channel_key] matches ProtocolBinding::ModbusTcp(b)
        &&& w.plan.host == b.host && w.plan.port == b.port && w.plan.address == b.address
        &&& text::unsigned_value(b.unit_id@, 255) == Some(w.plan.unit_id as nat)
        &&& w.plan.words@ == codec::encoded(
            shares[i].1.minus_spec(b.offset).over_spec(b.scale),
            b.data_type,
            b.word_order,
        )
        &&& w.plan.dial is Tls <==> trust.dom().contains(id) && trust[id] is TlsMutual
            && creds is Some
    } by {
        assert(gives_share(plan.writes@[i], shares[i], channel_key, channels, trust, creds));
    }
}

/// The codes of operating states, and the codes that are none.
pub proof fn lemma_state_codes(n: int)
    ensures
        state_of(n) == Some(OperatingState::Standby) <==> n == 0,
        state_of(n) == Some(OperatingState::Charging) <==> n == 1,
        state_of(n) == Some(OperatingState::Discharging) <==> n == 2,
        state_of(n) == Some(OperatingState::Fault) <==> n == 3,
        state_of(n) == Some(OperatingState::Offline) <==> n == 4,
        state_of(n) is None <==> n < 0 || 4 < n,
{
}

} // verus!
