//! From site to modules: the site's target split across every module, sent
//! out as commands, so that each module does with its share what it does with
//! any command.

use crate::app;
use crate::app::build_topic;
use crate::arithmetic;
use crate::asyncapi::types::ProtocolBinding;
use crate::dispatch;
use crate::dispatch::allocation;
use crate::dispatch::allocation::{
    allocate, AllocationPolicy, ChildCapacity, ChildView, OperatingState,
};
use crate::dispatch::distribute;
use crate::dispatch::distribute::headroom_towards;
use crate::dispatch::entitlement;
use crate::dispatch::topic;
use crate::envelope::task;
use crate::envelope::task::changed_shares;
use crate::mqtt::publisher::Publication;
use crate::scalar;
use crate::scalar::Scalar;
use crate::string_map;
use crate::string_map::StringMap;
use crate::synthetic::cache;
use crate::synthetic::cache::InputCache;
use crate::text;
use crate::text::signed_decimal;
use vstd::prelude::*;

verus! {

/// Quality of service of commands: at least once.
pub const COMMAND_QOS: i32 = 1;

/// The site-distribution task.
pub struct SiteDistributionConfig<N> {
    /// The site.
    pub site_id: String,
    /// Topic of the site's target.
    pub target_topic: String,
    /// Topic of whether a dispatch event is on.
    pub event_active_topic: String,
    /// Tick rate in Hz.
    pub tick_hz: N,
}

/// Key of the command that modules share.
pub open spec fn channel_key() -> Seq<char> {
    "set_active_power"@
}

/// The topic of a module's state of charge.
pub open spec fn charge_topic(site_id: Seq<char>, device_id: Seq<char>) -> Seq<char> {
    app::measurement_topic(site_id, device_id, "state_of_charge"@, "percent"@)
}

/// The bounds of a device that is a module: its command is a distribute
/// binding with both power bounds.
pub open spec fn bounds_of<N>(commands: StringMap<ProtocolBinding<N>>) -> Option<(N, N)> {
    if commands@.dom().contains(channel_key()) {
        match commands@[channel_key()] {
            ProtocolBinding::Distribute(d) => match (d.power_min, d.power_max) {
                (Some(low), Some(high)) => Some((low, high)),
                _ => None,
            },
            _ => None,
        }
    } else {
        None
    }
}

/// What allocation needs of every module; nothing where a module's state of
/// charge has not been heard.
pub open spec fn modules_of<N: Scalar>(
    entries: Seq<(Seq<char>, StringMap<ProtocolBinding<N>>)>,
    cache: Map<Seq<char>, u64>,
    site_id: Seq<char>,
    target: N,
) -> Option<Seq<ChildView<N>>>
    decreases entries.len(),
{
    if entries.len() == 0 {
        Some(Seq::empty())
    } else {
        let (device_id, commands) = entries.last();
        match modules_of(entries.drop_last(), cache, site_id, target) {
            None => None,
            Some(before) => match bounds_of(commands) {
                None => Some(before),
                Some((low, high)) => match cache::reading::<N>(
                    cache,
                    charge_topic(site_id, device_id),
                ) {
                    None => None,
                    Some(soc) => Some(
                        before.push(
                            ChildView {
                                device_id,
                                operating_state: OperatingState::Standby,
                                headroom: distribute::headroom(target, low, high),
                                state_of_charge: soc,
                            },
                        ),
                    ),
                },
            },
        }
    }
}

proof fn lemma_modules_of_prefix<N: Scalar>(
    entries: Seq<(Seq<char>, StringMap<ProtocolBinding<N>>)>,
    i: int,
    cache: Map<Seq<char>, u64>,
    site_id: Seq<char>,
    target: N,
)
    requires
        0 <= i <= entries.len(),
        modules_of(entries.take(i), cache, site_id, target) is None,
    ensures
        modules_of(entries, cache, site_id, target) is None,
    decreases entries.len() - i,
{
    if i == entries.len() {
        assert(entries.take(i) =~= entries);
    } else {
        assert(entries.take(i + 1).drop_last() =~= entries.take(i));
        lemma_modules_of_prefix(entries, i + 1, cache, site_id, target);
    }
}

/// Every module with its bounds and its state of charge; nothing where a
/// module's state of charge has not been heard.
pub fn modules_with_bounds<N: Scalar>(
    channels: &StringMap<StringMap<ProtocolBinding<N>>>,
    cache: &InputCache,
    site_id: &str,
    target: N,
) -> (r: Option<Vec<ChildCapacity<N>>>)
    ensures
        match r {
            Some(v) => modules_of(channels.entries(), cache@, site_id@, target) == Some(
                allocation::children_view(v@),
            ),
            None => modules_of(channels.entries(), cache@, site_id@, target) is None,
        },
{
    let ghost all = channels.entries();
    let mut modules: Vec<ChildCapacity<N>> = Vec::new();
    let n: usize = channels.size();
    let mut i: usize = 0;
    assert(allocation::children_view(modules@) =~= Seq::empty());
    while i < n
        invariant
            i <= n,
            n == all.len(),
            all == channels.entries(),
            modules_of(all.take(i as int), cache@, site_id@, target) == Some(
                allocation::children_view(modules@),
            ),
        decreases n - i,
    {
        assert(all.take(i + 1).drop_last() =~= all.take(i as int));
        let device_id = channels.key_at(i);
        let commands = channels.value_at(i);
        if let Some(ProtocolBinding::Distribute(d)) = commands.get("set_active_power") {
            if let (Some(low), Some(high)) = (d.power_min, d.power_max) {
                let soc_topic = build_topic(
                    site_id,
                    device_id.as_str(),
                    "state_of_charge",
                    "percent",
                );
                match cache.get::<N>(soc_topic.as_str()) {
                    None => {
                        proof {
                            lemma_modules_of_prefix(all, i + 1, cache@, site_id@, target);
                        }
                        return None;
                    },
                    Some(state_of_charge) => {
                        let module = ChildCapacity {
                            device_id: device_id.clone(),
                            operating_state: OperatingState::Standby,
                            headroom: headroom_towards(target, low, high),
                            state_of_charge,
                        };
                        let ghost before = modules@;
                        modules.push(module);
                        assert(allocation::children_view(modules@)
                            =~= allocation::children_view(before).push(module@));
                    },
                }
            }
        }
        i = i + 1;
    }
    assert(all.take(i as int) =~= all);
    Some(modules)
}

/// The target that is in force: a dispatch event is on, and a target has been
/// heard.
pub open spec fn target_in_force<N: Scalar>(
    cfg: SiteDistributionConfig<N>,
    cache: Map<Seq<char>, u64>,
) -> Option<N> {
    match cache::reading::<N>(cache, cfg.event_active_topic@) {
        None => None,
        Some(active) => if active.below_spec(N::int_spec(1).over_spec(N::int_spec(2))) {
            None
        } else {
            cache::reading::<N>(cache, cfg.target_topic@)
        },
    }
}

/// What one tick sends out: the shares of the modules that differ from what
/// was last sent. Nothing while the site has no target in force or a module's
/// state of charge has not been heard.
pub open spec fn to_send<N: Scalar>(
    cfg: SiteDistributionConfig<N>,
    cache: Map<Seq<char>, u64>,
    entries: Seq<(Seq<char>, StringMap<ProtocolBinding<N>>)>,
    sent: Map<Seq<char>, N>,
) -> Seq<(Seq<char>, N)> {
    match target_in_force(cfg, cache) {
        None => Seq::empty(),
        Some(target) => match modules_of(entries, cache, cfg.site_id@, target) {
            None => Seq::empty(),
            Some(modules) => task::changed_of(
                allocation::allocation(target, modules, AllocationPolicy::SocWeighted),
                sent,
            ),
        },
    }
}

/// One tick: the shares to send out as commands.
pub fn tick_once<N: Scalar>(
    cfg: &SiteDistributionConfig<N>,
    cache: &InputCache,
    device_channels: &StringMap<StringMap<ProtocolBinding<N>>>,
    last_dispatched: &StringMap<N>,
) -> (r: Vec<(String, N)>)
    ensures
        allocation::shares_view(r@) == to_send(
            *cfg,
            cache@,
            device_channels.entries(),
            last_dispatched@,
        ),
{
    let none: Vec<(String, N)> = Vec::new();
    assert(allocation::shares_view(none@) =~= Seq::<(Seq<char>, N)>::empty());
    let active: N = match cache.get::<N>(cfg.event_active_topic.as_str()) {
        Some(v) => v,
        None => {
            return none;
        },
    };
    if active.below(N::from_u64(1).over(N::from_u64(2))) {
        return none;
    }
    let target: N = match cache.get::<N>(cfg.target_topic.as_str()) {
        Some(v) => v,
        None => {
            return none;
        },
    };
    match modules_with_bounds(device_channels, cache, cfg.site_id.as_str(), target) {
        None => none,
        Some(modules) => {
            let shares = allocate(target, modules.as_slice(), AllocationPolicy::SocWeighted);
            changed_shares(shares.as_slice(), last_dispatched)
        },
    }
}

/// The payload of a command.
pub open spec fn command_text<N: Scalar>(ts: Seq<char>, value: N, command_id: Seq<char>) -> Seq<
    char,
> {
    "{\"ts\":\""@ + ts + "\",\"value\":"@ + value.render_spec() + ",\"command_id\":\""@ + command_id
        + "\"}"@
}

/// The topic of a module's active-power command.
pub open spec fn module_topic(site_id: Seq<char>, module_id: Seq<char>) -> Seq<char> {
    "sites/"@ + site_id + "/devices/"@ + module_id + "/commands/set/active_power/watts"@
}

/// The command that gives a module its share. `nanos` is the time in
/// nanoseconds and makes the command's id.
pub fn dispatch_one<N: Scalar>(site_id: &str, module_id: &str, share: N, now: &str, nanos: i64) -> (r:
    Publication)
    ensures
        r.topic@ == module_topic(site_id@, module_id@),
        r.payload@ == command_text(
            now@,
            share,
            "site-dist-"@ + text::signed_digits(nanos as int),
        ),
        r.qos == COMMAND_QOS,
        !r.retained,
{
    let mut topic = "sites/".to_owned();
    topic.append(site_id);
    topic.append("/devices/");
    topic.append(module_id);
    topic.append("/commands/set/active_power/watts");
    let mut command_id = "site-dist-".to_owned();
    command_id.append(signed_decimal(nanos).as_str());
    let mut payload = "{\"ts\":\"".to_owned();
    payload.append(now);
    payload.append("\",\"value\":");
    payload.append(share.render().as_str());
    payload.append(",\"command_id\":\"");
    payload.append(command_id.as_str());
    payload.append("\"}");
    Publication { topic, payload, qos: COMMAND_QOS, retained: false }
}

/// A command that is sent to a module is a command of the module's own
/// site, for that module, with the key under which modules are found.
pub proof fn lemma_module_command_is_heard(site_id: Seq<char>, module_id: Seq<char>)
    requires
        topic::is_segment(site_id),
        topic::is_segment(module_id),
        module_id.len() > 0,
    ensures
        ({
            let p = text::pieces(module_topic(site_id, module_id), '/');
            &&& topic::is_command(p, site_id)
            &&& p[3] == module_id
            &&& dispatch::key_of(p[5], p[6]) == channel_key()
            &&& p[5] == "set"@ && p[6] == "active_power"@ && p[7] == "watts"@
        }),
{
    reveal_strlit("set");
    reveal_strlit("active_power");
    reveal_strlit("watts");
    reveal_strlit("_");
    reveal_strlit("/");
    reveal_strlit("/commands/");
    reveal_strlit("/commands/set/active_power/watts");
    reveal_strlit("set_active_power");
    assert("/commands/set/active_power/watts"@ =~= "/commands/"@ + "set"@ + "/"@ + "active_power"@
        + "/"@ + "watts"@);
    assert(module_topic(site_id, module_id) =~= topic::command_topic(
        site_id,
        module_id,
        "set"@,
        "active_power"@,
        "watts"@,
    ));
    topic::lemma_command_topic_round_trip(
        site_id,
        module_id,
        "set"@,
        "active_power"@,
        "watts"@,
        site_id,
    );
    topic::lemma_command_topic_pieces(
        site_id,
        module_id,
        "set"@,
        "active_power"@,
        "watts"@,
    );
    assert(dispatch::key_of("set"@, "active_power"@) =~= channel_key());
}

// ---------------------------------------------------------------------
// Laws
// ---------------------------------------------------------------------

/// The shares that are due, sent before or not: none while the site has no
/// target in force or a module's state of charge has not been heard.
pub open spec fn shares_due<N: Scalar>(
    cfg: SiteDistributionConfig<N>,
    cache: Map<Seq<char>, u64>,
    entries: Seq<(Seq<char>, StringMap<ProtocolBinding<N>>)>,
) -> Seq<(Seq<char>, N)> {
    match target_in_force(cfg, cache) {
        None => Seq::empty(),
        Some(target) => match modules_of(entries, cache, cfg.site_id@, target) {
            None => Seq::empty(),
            Some(modules) => allocation::allocation(
                target,
                modules,
                AllocationPolicy::SocWeighted,
            ),
        },
    }
}

/// No two children have the same id.
spec fn distinct_children<N>(children: Seq<ChildView<N>>) -> bool {
    forall|i: int, j: int|
        0 <= i < j < children.len() ==> (#[trigger] children[i]).device_id != (
        #[trigger] children[j]).device_id
}

proof fn lemma_modules_are_distinct<N: Scalar>(
    entries: Seq<(Seq<char>, StringMap<ProtocolBinding<N>>)>,
    cache: Map<Seq<char>, u64>,
    site_id: Seq<char>,
    target: N,
)
    requires
        string_map::distinct_keys(entries),
        modules_of(entries, cache, site_id, target) is Some,
    ensures
        ({
            let modules = modules_of(entries, cache, site_id, target)->0;
            &&& distinct_children(modules)
            &&& forall|i: int|
                0 <= i < modules.len() ==> exists|k: int|
                    0 <= k < entries.len() && (#[trigger] entries[k]).0 == (
                    #[trigger] modules[i]).device_id
        }),
    decreases entries.len(),
{
    if entries.len() > 0 {
        let init = entries.drop_last();
        let n = entries.len() - 1;
        assert(string_map::distinct_keys(init)) by {
            assert forall|i: int, j: int| 0 <= i < j < init.len() implies (#[trigger] init[i]).0
                != (#[trigger] init[j]).0 by {
                assert(entries[i].0 != entries[j].0);
            }
        }
        lemma_modules_are_distinct(init, cache, site_id, target);
        let before = modules_of(init, cache, site_id, target)->0;
        let modules = modules_of(entries, cache, site_id, target)->0;
        assert forall|i: int| 0 <= i < modules.len() implies exists|k: int|
            0 <= k < entries.len() && (#[trigger] entries[k]).0 == (
            #[trigger] modules[i]).device_id by {
            if i < before.len() {
                assert(modules[i] == before[i]);
                let k = choose|k: int|
                    0 <= k < init.len() && (#[trigger] init[k]).0 == before[i].device_id;
                assert(entries[k].0 == modules[i].device_id);
            } else {
                assert(entries[n].0 == modules[i].device_id);
            }
        }
        assert forall|i: int, j: int| 0 <= i < j < modules.len() implies (
        #[trigger] modules[i]).device_id != (#[trigger] modules[j]).device_id by {
            assert(modules[i] == before[i]);
            if j < before.len() {
                assert(modules[j] == before[j]);
            } else {
                let k = choose|k: int|
                    0 <= k < init.len() && (#[trigger] init[k]).0 == before[i].device_id;
                assert(entries[k].0 != entries[n].0);
            }
        }
    }
}

proof fn lemma_eligible_are_distinct<N>(children: Seq<ChildView<N>>)
    requires
        distinct_children(children),
    ensures
        distinct_children(allocation::eligible_of(children)),
        forall|i: int|
            0 <= i < allocation::eligible_of(children).len() ==> exists|k: int|
                0 <= k < children.len() && (#[trigger] children[k]).device_id == (
                #[trigger] allocation::eligible_of(children)[i]).device_id,
    decreases children.len(),
{
    if children.len() > 0 {
        let init = children.drop_last();
        let n = children.len() - 1;
        assert forall|i: int, j: int| 0 <= i < j < init.len() implies (
        #[trigger] init[i]).device_id != (#[trigger] init[j]).device_id by {
            assert(children[i].device_id != children[j].device_id);
        }
        lemma_eligible_are_distinct(init);
        let before = allocation::eligible_of(init);
        let chosen = allocation::eligible_of(children);
        assert forall|i: int| 0 <= i < chosen.len() implies exists|k: int|
            0 <= k < children.len() && (#[trigger] children[k]).device_id == (
            #[trigger] chosen[i]).device_id by {
            if i < before.len() {
                assert(chosen[i] == before[i]);
                let k = choose|k: int|
                    0 <= k < init.len() && (#[trigger] init[k]).device_id == before[i].device_id;
                assert(children[k].device_id == chosen[i].device_id);
            } else {
                assert(children[n].device_id == chosen[i].device_id);
            }
        }
        assert forall|i: int, j: int| 0 <= i < j < chosen.len() implies (
        #[trigger] chosen[i]).device_id != (#[trigger] chosen[j]).device_id by {
            assert(chosen[i] == before[i]);
            if j < before.len() {
                assert(chosen[j] == before[j]);
            } else {
                let k = choose|k: int|
                    0 <= k < init.len() && (#[trigger] init[k]).device_id == before[i].device_id;
                assert(children[k].device_id != children[n].device_id);
            }
        }
    }
}

/// A second tick on the same inputs sends nothing: once everything that a tick
/// sent is remembered, nothing differs from what was last sent, and what is
/// remembered stays. A share that is not within the smallest step of itself is
/// no finite number.
pub proof fn lemma_second_tick_sends_nothing<N: Scalar>(
    cfg: SiteDistributionConfig<N>,
    cache: Map<Seq<char>, u64>,
    entries: Seq<(Seq<char>, StringMap<ProtocolBinding<N>>)>,
    sent: Map<Seq<char>, N>,
)
    requires
        string_map::distinct_keys(entries),
        forall|i: int|
            0 <= i < shares_due(cfg, cache, entries).len() ==> !N::epsilon_spec().at_most_spec(
                (#[trigger] shares_due(cfg, cache, entries)[i]).1.minus_spec(
                    shares_due(cfg, cache, entries)[i].1,
                ).magnitude_spec(),
            ),
    ensures
        ({
            let after = task::recorded(sent, to_send(cfg, cache, entries, sent));
            &&& to_send(cfg, cache, entries, after).len() == 0
            &&& task::recorded(after, to_send(cfg, cache, entries, after)) == after
        }),
{
    let due = shares_due(cfg, cache, entries);
    if let Some(target) = target_in_force(cfg, cache) {
        if let Some(modules) = modules_of(entries, cache, cfg.site_id@, target) {
            lemma_modules_are_distinct(entries, cache, cfg.site_id@, target);
            lemma_eligible_are_distinct(modules);
            let chosen = allocation::eligible_of(modules);
            assert forall|i: int, j: int| 0 <= i < j < due.len() implies (#[trigger] due[i]).0 != (
            #[trigger] due[j]).0 by {
                assert(due[i].0 == chosen[i].device_id);
                assert(due[j].0 == chosen[j].device_id);
            }
            task::lemma_repeated_tick_writes_nothing(due, sent);
        }
    }
}

proof fn lemma_unheard_charge<N: Scalar>(
    entries: Seq<(Seq<char>, StringMap<ProtocolBinding<N>>)>,
    cache: Map<Seq<char>, u64>,
    site_id: Seq<char>,
    target: N,
    i: int,
)
    requires
        0 <= i < entries.len(),
        bounds_of(entries[i].1) is Some,
        cache::reading::<N>(cache, charge_topic(site_id, entries[i].0)) is None,
    ensures
        modules_of(entries, cache, site_id, target) is None,
    decreases entries.len(),
{
    if i < entries.len() - 1 {
        lemma_unheard_charge(entries.drop_last(), cache, site_id, target, i);
    }
}

/// Whether a module's state of charge has not been heard.
pub open spec fn lacks_charge<N: Scalar>(
    entries: Seq<(Seq<char>, StringMap<ProtocolBinding<N>>)>,
    cache: Map<Seq<char>, u64>,
    site_id: Seq<char>,
) -> bool {
    exists|i: int|
        0 <= i < entries.len() && bounds_of((#[trigger] entries[i]).1) is Some
            && cache::reading::<N>(cache, charge_topic(site_id, entries[i].0)) is None
}

/// The site holds, sends nothing and forgets nothing, while no dispatch event is
/// on, no target has been heard, or a module's state of charge has not.
pub proof fn lemma_site_holds<N: Scalar>(
    cfg: SiteDistributionConfig<N>,
    cache: Map<Seq<char>, u64>,
    entries: Seq<(Seq<char>, StringMap<ProtocolBinding<N>>)>,
    sent: Map<Seq<char>, N>,
)
    requires
        ({
            ||| cache::reading::<N>(cache, cfg.event_active_topic@) is None
            ||| (cache::reading::<N>(cache, cfg.event_active_topic@) matches Some(active)
                && active.below_spec(N::int_spec(1).over_spec(N::int_spec(2))))
            ||| cache::reading::<N>(cache, cfg.target_topic@) is None
            ||| lacks_charge(entries, cache, cfg.site_id@)
        }),
    ensures
        to_send(cfg, cache, entries, sent).len() == 0,
        task::recorded(sent, to_send(cfg, cache, entries, sent)) == sent,
{
    if lacks_charge(entries, cache, cfg.site_id@) {
        if let Some(target) = target_in_force(cfg, cache) {
            let i = choose|i: int|
                0 <= i < entries.len() && bounds_of((#[trigger] entries[i]).1) is Some
                    && cache::reading::<N>(cache, charge_topic(cfg.site_id@, entries[i].0)) is None;
            lemma_unheard_charge(entries, cache, cfg.site_id@, target, i);
        }
    }
}

/// A device is a module with these power bounds: the command that sets its active
/// power is distributed, and both bounds are named.
pub open spec fn is_module<N>(
    entry: (Seq<char>, StringMap<ProtocolBinding<N>>),
    low: N,
    high: N,
) -> bool {
    &&& entry.1@.dom().contains("set_active_power"@)
    &&& entry.1@["set_active_power"@] matches ProtocolBinding::Distribute(d)
    &&& d.power_min == Some(low)
    &&& d.power_max == Some(high)
}

/// Where a module's state of charge is heard.
pub open spec fn heard_charge(site_id: Seq<char>, device_id: Seq<char>) -> Seq<char> {
    "sites/"@ + site_id + "/devices/"@ + device_id + "/measurements/state_of_charge/percent"@
}

proof fn lemma_heard_charge(site_id: Seq<char>, device_id: Seq<char>)
    ensures
        charge_topic(site_id, device_id) == heard_charge(site_id, device_id),
{
    reveal_strlit("/measurements/");
    reveal_strlit("state_of_charge");
    reveal_strlit("/");
    reveal_strlit("percent");
    reveal_strlit("/measurements/state_of_charge/percent");
    assert("/measurements/"@ + "state_of_charge"@ + "/"@ + "percent"@
        =~= "/measurements/state_of_charge/percent"@);
    assert(charge_topic(site_id, device_id) =~= heard_charge(site_id, device_id));
}

/// What is known of a module: its state of charge as it was heard last, and the
/// room that its bounds leave on the side of the target's sign.
pub open spec fn is_read<N: Scalar>(
    module: ChildView<N>,
    entry: (Seq<char>, StringMap<ProtocolBinding<N>>),
    cache: Map<Seq<char>, u64>,
    site_id: Seq<char>,
    target: N,
) -> bool {
    &&& module.device_id == entry.0
    &&& module.operating_state is Standby
    &&& cache.dom().contains(heard_charge(site_id, entry.0))
    &&& module.state_of_charge == N::bits_spec(cache[heard_charge(site_id, entry.0)])
    &&& exists|low: N, high: N| #[trigger]
        is_module(entry, low, high) && module.headroom == (if target.below_spec(
            scalar::zero(),
        ) {
            low.magnitude_spec()
        } else {
            high
        })
}

proof fn lemma_module_is_read<N: Scalar>(
    entries: Seq<(Seq<char>, StringMap<ProtocolBinding<N>>)>,
    cache: Map<Seq<char>, u64>,
    site_id: Seq<char>,
    target: N,
    i: int,
) -> (k: int)
    requires
        modules_of(entries, cache, site_id, target) is Some,
        0 <= i < modules_of(entries, cache, site_id, target)->0.len(),
    ensures
        0 <= k < entries.len(),
        is_read(
            modules_of(entries, cache, site_id, target)->0[i],
            entries[k],
            cache,
            site_id,
            target,
        ),
    decreases entries.len(),
{
    let init = entries.drop_last();
    let before = modules_of(init, cache, site_id, target)->0;
    let modules = modules_of(entries, cache, site_id, target)->0;
    if i < before.len() {
        assert(modules[i] == before[i]);
        let k = lemma_module_is_read(init, cache, site_id, target, i);
        assert(init[k] == entries[k]);
        k
    } else {
        let n = entries.len() - 1;
        let (low, high) = bounds_of(entries[n].1)->0;
        lemma_heard_charge(site_id, entries[n].0);
        assert(is_module(entries[n], low, high));
        n
    }
}

proof fn lemma_modules_are_found<N: Scalar>(
    entries: Seq<(Seq<char>, StringMap<ProtocolBinding<N>>)>,
    cache: Map<Seq<char>, u64>,
    site_id: Seq<char>,
    target: N,
    k: int,
    low: N,
    high: N,
) -> (i: int)
    requires
        modules_of(entries, cache, site_id, target) is Some,
        0 <= k < entries.len(),
        is_module(entries[k], low, high),
    ensures
        0 <= i < modules_of(entries, cache, site_id, target)->0.len(),
        modules_of(entries, cache, site_id, target)->0[i].device_id == entries[k].0,
    decreases entries.len(),
{
    let init = entries.drop_last();
    let before = modules_of(init, cache, site_id, target)->0;
    let modules = modules_of(entries, cache, site_id, target)->0;
    if k < init.len() {
        assert(init[k] == entries[k]);
        let i = lemma_modules_are_found(init, cache, site_id, target, k, low, high);
        assert(modules[i] == before[i]);
        i
    } else {
        modules.len() - 1
    }
}

proof fn lemma_all_heard<N: Scalar>(
    entries: Seq<(Seq<char>, StringMap<ProtocolBinding<N>>)>,
    cache: Map<Seq<char>, u64>,
    site_id: Seq<char>,
    target: N,
)
    requires
        forall|k: int, low: N, high: N|
            0 <= k < entries.len() && #[trigger] is_module(entries[k], low, high)
                ==> cache.dom().contains(heard_charge(site_id, entries[k].0)),
    ensures
        modules_of(entries, cache, site_id, target) is Some,
    decreases entries.len(),
{
    if entries.len() > 0 {
        let init = entries.drop_last();
        let n = entries.len() - 1;
        assert forall|k: int, low: N, high: N|
            0 <= k < init.len() && #[trigger] is_module(
                init[k],
                low,
                high,
            ) implies cache.dom().contains(heard_charge(site_id, init[k].0)) by {
            assert(is_module(entries[k], low, high));
        }
        lemma_all_heard(init, cache, site_id, target);
        if let Some((low, high)) = bounds_of(entries[n].1) {
            assert(is_module(entries[n], low, high));
            lemma_heard_charge(site_id, entries[n].0);
        }
    }
}

proof fn lemma_half<N: Scalar>(value: spec_fn(N) -> real, counts: spec_fn(N) -> bool)
    requires
        arithmetic::is_exact(value, counts),
        counts(N::int_spec(1)) && counts(N::int_spec(2)),
        arithmetic::is_even(value, N::int_spec(1), N::int_spec(2)),
    ensures
        value(N::int_spec(1).over_spec(N::int_spec(2))) == 1real / 2real,
{
    let half = value(N::int_spec(1).over_spec(N::int_spec(2)));
    let two = value(N::int_spec(2));
    let one = value(N::int_spec(1));
    assert(half == 1real / 2real) by (nonlinear_arith)
        requires
            half * two == one,
            two == 2real,
            one == 1real,
    ;
}

/// While a dispatch event is on, that is while its flag is at least one half, and
/// a target has been heard, every module whose share was never sent is sent one,
/// as soon as every module's state of charge has been heard.
pub proof fn lemma_every_module_is_sent_a_share<N: Scalar>(
    value: spec_fn(N) -> real,
    counts: spec_fn(N) -> bool,
    cfg: SiteDistributionConfig<N>,
    cache: Map<Seq<char>, u64>,
    entries: Seq<(Seq<char>, StringMap<ProtocolBinding<N>>)>,
    sent: Map<Seq<char>, N>,
    k: int,
    low: N,
    high: N,
)
    requires
        arithmetic::is_exact(value, counts),
        counts(N::int_spec(1)) && counts(N::int_spec(2)),
        counts(N::int_spec(1).over_spec(N::int_spec(2))),
        arithmetic::is_even(value, N::int_spec(1), N::int_spec(2)),
        cache.dom().contains(cfg.event_active_topic@),
        counts(N::bits_spec(cache[cfg.event_active_topic@])),
        1real / 2real <= value(N::bits_spec(cache[cfg.event_active_topic@])),
        cache.dom().contains(cfg.target_topic@),
        forall|k: int, low: N, high: N|
            0 <= k < entries.len() && #[trigger] is_module(entries[k], low, high)
                ==> cache.dom().contains(heard_charge(cfg.site_id@, entries[k].0)),
        0 <= k < entries.len(),
        is_module(entries[k], low, high),
        !sent.dom().contains(entries[k].0),
    ensures
        exists|i: int|
            0 <= i < to_send(cfg, cache, entries, sent).len() && (#[trigger] to_send(
                cfg,
                cache,
                entries,
                sent,
            )[i]).0 == entries[k].0,
{
    let target = N::bits_spec(cache[cfg.target_topic@]);
    lemma_half(value, counts);
    assert(target_in_force(cfg, cache) == Some(target));
    lemma_all_heard(entries, cache, cfg.site_id@, target);
    let modules = modules_of(entries, cache, cfg.site_id@, target)->0;
    let due = allocation::allocation(target, modules, AllocationPolicy::SocWeighted);
    let m = lemma_modules_are_found(entries, cache, cfg.site_id@, target, k, low, high);
    let e = lemma_module_is_read(entries, cache, cfg.site_id@, target, m);
    entitlement::lemma_children_in_service_get_shares(
        target,
        modules,
        AllocationPolicy::SocWeighted,
    );
    assert(modules[m].operating_state is Standby);
    let j = choose|j: int|
        0 <= j < due.len() && (#[trigger] due[j]).0 == modules[m].device_id;
    task::lemma_unwritten_is_kept(due, sent, j);
    let changed = to_send(cfg, cache, entries, sent);
    let i = choose|i: int| 0 <= i < changed.len() && #[trigger] changed[i] == due[j];
    assert(changed[i].0 == entries[k].0);
}

/// The site sends nothing while a dispatch event's flag is below one half.
pub proof fn lemma_site_rests_without_event<N: Scalar>(
    value: spec_fn(N) -> real,
    counts: spec_fn(N) -> bool,
    cfg: SiteDistributionConfig<N>,
    cache: Map<Seq<char>, u64>,
    entries: Seq<(Seq<char>, StringMap<ProtocolBinding<N>>)>,
    sent: Map<Seq<char>, N>,
)
    requires
        arithmetic::is_exact(value, counts),
        counts(N::int_spec(1)) && counts(N::int_spec(2)),
        counts(N::int_spec(1).over_spec(N::int_spec(2))),
        arithmetic::is_even(value, N::int_spec(1), N::int_spec(2)),
        cache.dom().contains(cfg.event_active_topic@) ==> counts(
            N::bits_spec(cache[cfg.event_active_topic@]),
        ) && value(N::bits_spec(cache[cfg.event_active_topic@])) < 1real / 2real,
    ensures
        to_send(cfg, cache, entries, sent).len() == 0,
{
    lemma_half(value, counts);
}

/// Every share that is sent to a module lies within the module's own power
/// bounds: of a target that is not negative it is at most the upper bound, or
/// nothing where that bound is negative; of a negative one it is no further below
/// zero than the magnitude of the lower bound. Nothing is sent to a device that is
/// no module.
pub proof fn lemma_sent_shares_stay_within_power_bounds<N: Scalar>(
    value: spec_fn(N) -> real,
    counts: spec_fn(N) -> bool,
    cfg: SiteDistributionConfig<N>,
    cache: Map<Seq<char>, u64>,
    entries: Seq<(Seq<char>, StringMap<ProtocolBinding<N>>)>,
    sent: Map<Seq<char>, N>,
    i: int,
)
    requires
        arithmetic::is_exact(value, counts),
        0 <= i < to_send(cfg, cache, entries, sent).len(),
        forall|k: int, low: N, high: N|
            0 <= k < entries.len() && #[trigger] is_module(entries[k], low, high) ==> counts(low)
                && counts(high) && counts(low.magnitude_spec()),
        entitlement::shares_count(
            counts,
            N::bits_spec(cache[cfg.target_topic@]),
            modules_of(
                entries,
                cache,
                cfg.site_id@,
                N::bits_spec(cache[cfg.target_topic@]),
            )->0,
            AllocationPolicy::SocWeighted,
        ),
    ensures
        ({
            let target = value(N::bits_spec(cache[cfg.target_topic@]));
            let (id, share) = to_send(cfg, cache, entries, sent)[i];
            &&& cache.dom().contains(cfg.target_topic@)
            &&& exists|k: int, low: N, high: N|
                {
                    &&& 0 <= k < entries.len()
                    &&& #[trigger] is_module(entries[k], low, high)
                    &&& entries[k].0 == id
                    &&& 0real <= target ==> value(share) <= value(high) || value(share) <= 0real
                    &&& target < 0real ==> -arithmetic::magnitude(value(low)) <= value(share)
                }
        }),
{
    let target = N::bits_spec(cache[cfg.target_topic@]);
    assert(target_in_force(cfg, cache) == Some(target));
    let modules = modules_of(entries, cache, cfg.site_id@, target)->0;
    let served = entitlement::in_service(modules);
    let due = allocation::allocation(target, modules, AllocationPolicy::SocWeighted);
    assert(value(scalar::zero::<N>()) == 0real);
    assert forall|j: int| 0 <= j < served.len() implies counts((#[trigger] served[j]).headroom) by {
        let m = entitlement::lemma_served_child(modules, j);
        let k = lemma_module_is_read(entries, cache, cfg.site_id@, target, m);
        let (low, high) = choose|low: N, high: N| #[trigger]
            is_module(entries[k], low, high) && modules[m].headroom == (if target.below_spec(
                scalar::zero(),
            ) {
                low.magnitude_spec()
            } else {
                high
            });
        assert(is_module(entries[k], low, high));
    }
    entitlement::lemma_no_share_exceeds_headroom(
        value,
        counts,
        target,
        modules,
        AllocationPolicy::SocWeighted,
    );
    let j = task::lemma_changed_is_a_share(due, sent, i);
    entitlement::lemma_eligible_are_in_service(modules);
    let m = entitlement::lemma_served_child(modules, j);
    let k = lemma_module_is_read(entries, cache, cfg.site_id@, target, m);
    let (low, high) = choose|low: N, high: N| #[trigger]
        is_module(entries[k], low, high) && modules[m].headroom == (if target.below_spec(
            scalar::zero(),
        ) {
            low.magnitude_spec()
        } else {
            high
        });
    assert(is_module(entries[k], low, high));
    assert(entries[k].0 == due[j].0);
}

/// Where nothing was sent before, the modules are sent the target split by their states of
/// charge, each module its own share.
pub proof fn lemma_first_tick_sends_every_share<N: Scalar>(
    cfg: SiteDistributionConfig<N>,
    cache: Map<Seq<char>, u64>,
    entries: Seq<(Seq<char>, StringMap<ProtocolBinding<N>>)>,
    target: N,
    modules: Seq<ChildView<N>>,
)
    requires
        target_in_force(cfg, cache) == Some(target),
        modules_of(entries, cache, cfg.site_id@, target) == Some(modules),
    ensures
        cache.dom().contains(cfg.target_topic@) && target == N::bits_spec(cache[cfg.target_topic@]),
        to_send(cfg, cache, entries, Map::empty()) == allocation::allocation(
            target,
            modules,
            AllocationPolicy::SocWeighted,
        ),
{
    task::lemma_all_unwritten_are_kept(
        allocation::allocation(target, modules, AllocationPolicy::SocWeighted),
    );
}

/// A command tells its value and its id: two commands that differ in one of them have
/// different payloads.
pub proof fn lemma_commands_tell_value_and_id<N: Scalar>(
    ts: Seq<char>,
    share: N,
    other: N,
    id: Seq<char>,
    other_id: Seq<char>,
)
    ensures
        command_text(ts, share, id) == command_text(ts, other, id) ==> share.render_spec()
            == other.render_spec(),
        command_text(ts, share, id) == command_text(ts, share, other_id) ==> id == other_id,
{
    let front = "{\"ts\":\""@ + ts + "\",\"value\":"@;
    let middle = ",\"command_id\":\""@;
    let a = command_text(ts, share, id);
    let b = command_text(ts, other, id);
    let c = command_text(ts, share, other_id);
    if a == b {
        let tail = (middle + id + "\"}"@).len();
        assert(share.render_spec() =~= a.subrange(front.len() as int, a.len() - tail));
        assert(other.render_spec() =~= b.subrange(front.len() as int, b.len() - tail));
    }
    if a == c {
        let start = (front + share.render_spec() + middle).len() as int;
        assert(id =~= a.subrange(start, a.len() - "\"}"@.len()));
        assert(other_id =~= c.subrange(start, c.len() - "\"}"@.len()));
    }
}

} // verus!
