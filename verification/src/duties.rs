//! What the gateway owes a document, entry by entry: every measurement is polled or
//! computed, every command can be found, and everything that is read is subscribed.

use crate::app;
use crate::app::{CommandEntry, Measurement, TaskSet};
use crate::asyncapi::types;
use crate::asyncapi::types::{
    AsyncApiSpec, CommandSource, DistributeBinding, ProtocolBinding, ProtocolSource,
    SyntheticBinding,
};
use crate::der_dispatch::{actual_power, site_distribution};
use crate::dispatch;
use crate::dispatch::allocation;
use crate::mqtt::{publisher, subscriber};
use crate::scalar::Scalar;
use crate::string_map::StringMap;
use crate::synthetic::operation;
use crate::synthetic::task;
use crate::synthetic::task::Computation;
use crate::text;
use vstd::prelude::*;

verus! {

// ---------------------------------------------------------------------
// The document
// ---------------------------------------------------------------------

/// Every measurement of every device is looked at, under its own device and name.
pub proof fn lemma_every_measurement_is_walked<N>(
    devices: Seq<(Seq<char>, StringMap<ProtocolSource<N>>)>,
    i: int,
    j: int,
)
    requires
        0 <= i < devices.len(),
        0 <= j < devices[i].1.entries().len(),
    ensures
        app::measurements_of(devices).contains(
            Measurement {
                device_id: devices[i].0,
                name: devices[i].1.entries()[j].0,
                source: devices[i].1.entries()[j].1,
            },
        ),
    decreases devices.len(),
{
    let init = app::measurements_of(devices.drop_last());
    let all = app::measurements_of(devices);
    if i < devices.len() - 1 {
        lemma_every_measurement_is_walked(devices.drop_last(), i, j);
        let m = Measurement {
            device_id: devices[i].0,
            name: devices[i].1.entries()[j].0,
            source: devices[i].1.entries()[j].1,
        };
        let k = init.index_of(m);
        assert(all[k] == m);
    } else {
        let m = app::device_measurements(devices[i].0, devices[i].1.entries())[j];
        assert(all[init.len() + j] == m);
    }
}

/// Every command of every device is looked at, under its own device.
pub proof fn lemma_every_command_is_walked<N>(
    devices: Seq<(Seq<char>, StringMap<CommandSource<N>>)>,
    i: int,
    j: int,
)
    requires
        0 <= i < devices.len(),
        0 <= j < devices[i].1.entries().len(),
    ensures
        app::commands_of(devices).contains(
            CommandEntry { device_id: devices[i].0, source: devices[i].1.entries()[j].1 },
        ),
    decreases devices.len(),
{
    let init = app::commands_of(devices.drop_last());
    let all = app::commands_of(devices);
    let c = CommandEntry { device_id: devices[i].0, source: devices[i].1.entries()[j].1 };
    if i < devices.len() - 1 {
        lemma_every_command_is_walked(devices.drop_last(), i, j);
        let k = init.index_of(c);
        assert(all[k] == c);
    } else {
        assert(app::device_commands(devices[i].0, devices[i].1.entries())[j] == c);
        assert(all[init.len() + j] == c);
    }
}

/// A measurement is polled unless it is synthetic, and computed if it is and names
/// one of the operations that there are. The order is kept.
pub proof fn lemma_polled_or_computed<N>(ms: Seq<Measurement<N>>)
    ensures
        app::polled_of(ms) == ms.filter(|m: Measurement<N>| !(m.source.binding is Synthetic)),
        app::computed_of(ms) == ms.filter(
            |m: Measurement<N>|
                {
                    &&& m.source.binding matches ProtocolBinding::Synthetic(b)
                    &&& b.operation@ == "weighted_mean"@ || b.operation@ == "subtract"@
                        || b.operation@ == "sum"@ || b.operation@ == "mean"@ || b.operation@
                        == "max"@ || b.operation@ == "min"@
                },
        ),
    decreases ms.len(),
{
    let polled = |m: Measurement<N>| !(m.source.binding is Synthetic);
    let computed = |m: Measurement<N>|
        {
            &&& m.source.binding matches ProtocolBinding::Synthetic(b)
            &&& b.operation@ == "weighted_mean"@ || b.operation@ == "subtract"@ || b.operation@
                == "sum"@ || b.operation@ == "mean"@ || b.operation@ == "max"@ || b.operation@
                == "min"@
        };
    reveal(Seq::filter);
    if ms.len() > 0 {
        lemma_polled_or_computed(ms.drop_last());
        assert(app::is_polled(ms.last()) == polled(ms.last()));
        assert(app::is_computed(ms.last()) == computed(ms.last()));
        assert(app::polled_of(ms) =~= ms.filter(polled));
        assert(app::computed_of(ms) =~= ms.filter(computed));
    } else {
        assert(app::polled_of(ms) =~= ms.filter(polled));
        assert(app::computed_of(ms) =~= ms.filter(computed));
    }
}

/// Every distributed command is rebalanced, and no other. The order is kept.
pub proof fn lemma_distributed_commands<N>(cs: Seq<CommandEntry<N>>)
    ensures
        app::distributed_of(cs) == cs.filter(|c: CommandEntry<N>| c.source.binding is Distribute),
    decreases cs.len(),
{
    let distributed = |c: CommandEntry<N>| c.source.binding is Distribute;
    reveal(Seq::filter);
    if cs.len() > 0 {
        lemma_distributed_commands(cs.drop_last());
        assert(app::distributed_of(cs) =~= cs.filter(distributed));
    } else {
        assert(app::distributed_of(cs) =~= cs.filter(distributed));
    }
}

/// The parents are the devices with a distributed command among theirs, and no
/// others.
pub proof fn lemma_parents_have_distributed_commands<N>(
    devices: Seq<(Seq<char>, StringMap<CommandSource<N>>)>,
    id: Seq<char>,
)
    ensures
        app::parents_of(devices).contains(id) <==> exists|i: int, j: int|
            {
                &&& 0 <= i < devices.len() && devices[i].0 == id
                &&& 0 <= j < devices[i].1.entries().len()
                &&& (#[trigger] devices[i].1.entries()[j]).1.binding is Distribute
            },
    decreases devices.len(),
{
    if devices.len() > 0 {
        let init = devices.drop_last();
        let n = devices.len() - 1;
        let before = app::parents_of(init);
        let all = app::parents_of(devices);
        lemma_parents_have_distributed_commands(init, id);
        if all.contains(id) {
            let k = all.index_of(id);
            if k < before.len() {
                assert(before[k] == id);
                let (i, j) = choose|i: int, j: int|
                    {
                        &&& 0 <= i < init.len() && init[i].0 == id
                        &&& 0 <= j < init[i].1.entries().len()
                        &&& (#[trigger] init[i].1.entries()[j]).1.binding is Distribute
                    };
                assert(devices[i].1.entries()[j].1.binding is Distribute);
            } else {
                let commands = devices[n].1.entries();
                let j = choose|j: int|
                    0 <= j < commands.len() && (#[trigger] commands[j]).1.binding is Distribute;
                assert(devices[n].1.entries()[j].1.binding is Distribute);
            }
        }
        if exists|i: int, j: int|
            {
                &&& 0 <= i < devices.len() && devices[i].0 == id
                &&& 0 <= j < devices[i].1.entries().len()
                &&& (#[trigger] devices[i].1.entries()[j]).1.binding is Distribute
            } {
            let (i, j) = choose|i: int, j: int|
                {
                    &&& 0 <= i < devices.len() && devices[i].0 == id
                    &&& 0 <= j < devices[i].1.entries().len()
                    &&& (#[trigger] devices[i].1.entries()[j]).1.binding is Distribute
                };
            if i < n {
                assert(init[i].1.entries()[j].1.binding is Distribute);
                let k = before.index_of(id);
                assert(all[k] == id);
            } else {
                let commands = devices[n].1.entries();
                assert(commands[j].1.binding is Distribute);
                assert(app::has_distribute(commands));
                assert(all[before.len() as int] == id);
            }
        }
    } else {
        assert(!app::parents_of(devices).contains(id));
    }
}

// ---------------------------------------------------------------------
// Commands
// ---------------------------------------------------------------------

/// A command is found under its verb and target, joined by an underscore. Where two
/// have the same, the later one is.
pub proof fn lemma_commands_are_found<N>(
    commands: Seq<(Seq<char>, CommandSource<N>)>,
    i: int,
)
    requires
        0 <= i < commands.len(),
        forall|j: int|
            i < j < commands.len() ==> dispatch::key_of(
                (#[trigger] commands[j]).1.verb@,
                commands[j].1.target@,
            ) != commands[i].1.verb@ + "_"@ + commands[i].1.target@,
    ensures
        ({
            let key = commands[i].1.verb@ + "_"@ + commands[i].1.target@;
            &&& app::bindings_by_key(commands).dom().contains(key)
            &&& app::bindings_by_key(commands)[key] == commands[i].1.binding
        }),
    decreases commands.len(),
{
    let key = commands[i].1.verb@ + "_"@ + commands[i].1.target@;
    let n = commands.len() - 1;
    if i < n {
        let init = commands.drop_last();
        assert forall|j: int| i < j < init.len() implies dispatch::key_of(
            (#[trigger] init[j]).1.verb@,
            init[j].1.target@,
        ) != key by {
            assert(init[j] == commands[j]);
        }
        lemma_commands_are_found(init, i);
        assert(dispatch::key_of(commands[n].1.verb@, commands[n].1.target@) != key);
    }
}

/// A document's policies are taken if every distributed command names one of the
/// two that there are; else one that names neither is told.
pub proof fn lemma_policies_are_known<N>(cs: Seq<CommandEntry<N>>)
    ensures
        match app::first_unknown_policy(cs) {
            None => forall|i: int|
                0 <= i < cs.len() ==> ((#[trigger] cs[i]).source.binding matches
                    ProtocolBinding::Distribute(d) ==> d.allocation_policy@ == "equal_split"@
                    || d.allocation_policy@ == "soc_weighted"@),
            Some(name) => exists|i: int|
                {
                    &&& 0 <= i < cs.len()
                    &&& (#[trigger] cs[i]).source.binding matches ProtocolBinding::Distribute(d)
                    &&& d.allocation_policy@ == name
                    &&& name != "equal_split"@ && name != "soc_weighted"@
                },
        },
    decreases cs.len(),
{
    if cs.len() > 0 {
        let init = cs.drop_last();
        let n = cs.len() - 1;
        lemma_policies_are_known(init);
        match app::first_unknown_policy(init) {
            Some(name) => {
                let i = choose|i: int|
                    {
                        &&& 0 <= i < init.len()
                        &&& (#[trigger] init[i]).source.binding matches ProtocolBinding::Distribute(
                            d,
                        )
                        &&& d.allocation_policy@ == name
                        &&& name != "equal_split"@ && name != "soc_weighted"@
                    };
                assert(cs[i] == init[i]);
            },
            None => {
                assert(cs[n] == cs.last());
                assert forall|i: int|
                    0 <= i < cs.len() && app::first_unknown_policy(cs) is None implies ((
                #[trigger] cs[i]).source.binding matches ProtocolBinding::Distribute(d)
                    ==> d.allocation_policy@ == "equal_split"@ || d.allocation_policy@
                    == "soc_weighted"@) by {
                    if i < n {
                        assert(cs[i] == init[i]);
                    }
                }
            },
        }
    }
}

/// Each policy has one name and no other text names it.
pub proof fn lemma_policies_have_one_name(name: Seq<char>)
    ensures
        allocation::policy_of(name) == Some(allocation::AllocationPolicy::EqualSplit) <==> name
            == "equal_split"@,
        allocation::policy_of(name) == Some(allocation::AllocationPolicy::SocWeighted) <==> name
            == "soc_weighted"@,
{
    reveal_strlit("equal_split");
    reveal_strlit("soc_weighted");
    assert("equal_split"@.len() != "soc_weighted"@.len());
}

// ---------------------------------------------------------------------
// Tasks
// ---------------------------------------------------------------------

/// A computation does what its binding says: the weighted mean of its pairs, or the
/// operation of that name on its inputs, in order and each at the site.
pub proof fn lemma_computation_is_as_named<N>(
    c: Computation<N>,
    b: SyntheticBinding<N>,
    site_id: Seq<char>,
)
    requires
        app::is_computation_of(c, b, site_id),
    ensures
        c is WeightedMean <==> b.operation@ == "weighted_mean"@,
        c matches Computation::WeightedMean { pairs } ==> {
            &&& pairs@.len() == b.pairs@.len()
            &&& forall|i: int|
                0 <= i < b.pairs@.len() ==> app::site_topic(
                    (#[trigger] b.pairs@[i]).topic@,
                    site_id,
                ) == pairs@[i].0@ && pairs@[i].1 == b.pairs@[i].weight
        },
        c matches Computation::Operation { operation, input_topics } ==> {
            &&& operation is Subtract <==> b.operation@ == "subtract"@
            &&& operation is Sum <==> b.operation@ == "sum"@
            &&& operation is Mean <==> b.operation@ == "mean"@
            &&& operation is Max <==> b.operation@ == "max"@
            &&& operation is Min <==> b.operation@ == "min"@
            &&& input_topics@.len() == b.inputs@.len()
            &&& forall|i: int|
                0 <= i < b.inputs@.len() ==> app::site_topic((#[trigger] b.inputs@[i])@, site_id)
                    == input_topics@[i]@
        },
{
    match c {
        Computation::WeightedMean { pairs } => {
            let made = app::pairs_view(pairs@);
            let asked = app::site_pairs(b.pairs@, site_id);
            assert(made.len() == asked.len());
            assert forall|i: int| 0 <= i < b.pairs@.len() implies app::site_topic(
                (#[trigger] b.pairs@[i]).topic@,
                site_id,
            ) == pairs@[i].0@ && pairs@[i].1 == b.pairs@[i].weight by {
                assert(made[i] == asked[i]);
            }
        },
        Computation::Operation { operation, input_topics } => {
            operation::lemma_operations_have_one_name(b.operation@);
            let made = text::views(input_topics@);
            let asked = app::site_topics(b.inputs@, site_id);
            assert(made.len() == asked.len());
            assert forall|i: int| 0 <= i < b.inputs@.len() implies app::site_topic(
                (#[trigger] b.inputs@[i])@,
                site_id,
            ) == input_topics@[i]@ by {
                assert(made[i] == asked[i]);
            }
        },
    }
}

proof fn lemma_filter_keeps<A>(s: Seq<A>, p: spec_fn(A) -> bool, x: A) -> (k: int)
    requires
        s.contains(x),
        p(x),
    ensures
        0 <= k < s.filter(p).len(),
        s.filter(p)[k] == x,
    decreases s.len(),
{
    reveal(Seq::filter);
    let i = s.index_of(x);
    let init = s.drop_last();
    if i < s.len() - 1 {
        assert(init[i] == x);
        let k = lemma_filter_keeps(init, p, x);
        assert(s.filter(p)[k] == x);
        k
    } else {
        s.filter(p).len() - 1
    }
}

/// Every measurement of the document that is not synthetic is polled: on the topic of
/// its own device, name and unit, over its own binding, and with its own device's
/// trust.
pub proof fn lemma_every_reading_is_polled<N: Scalar>(
    tasks: TaskSet<N>,
    spec: AsyncApiSpec<N>,
    site_id: Seq<char>,
    i: int,
    j: int,
)
    requires
        app::is_task_set(tasks, spec, site_id),
        0 <= i < spec.x_protocol_source.entries().len(),
        0 <= j < spec.x_protocol_source.entries()[i].1.entries().len(),
        !(spec.x_protocol_source.entries()[i].1.entries()[j].1.binding is Synthetic),
    ensures
        ({
            let device = spec.x_protocol_source.entries()[i].0;
            let (name, source) = spec.x_protocol_source.entries()[i].1.entries()[j];
            exists|k: int|
                {
                    let t = #[trigger] tasks.polls@[k];
                    &&& 0 <= k < tasks.polls@.len()
                    &&& t.topic@ == "sites/"@ + site_id + "/devices/"@ + device
                        + "/measurements/"@ + name + "/"@ + source.unit@
                    &&& t.poll_rate_hz == app::poll_rate(source.poll_rate_hz)
                    &&& types::same_binding(t.binding, source.binding)
                    &&& t.trust == (if spec.x_device_trust@.dom().contains(device) {
                        Some(spec.x_device_trust@[device])
                    } else {
                        None
                    })
                }
        }),
{
    let devices = spec.x_protocol_source.entries();
    let ms = app::measurements_of(devices);
    let m = Measurement {
        device_id: devices[i].0,
        name: devices[i].1.entries()[j].0,
        source: devices[i].1.entries()[j].1,
    };
    lemma_every_measurement_is_walked(devices, i, j);
    lemma_polled_or_computed(ms);
    let k = lemma_filter_keeps(ms, |m: Measurement<N>| !(m.source.binding is Synthetic), m);
    assert(app::is_poll_task(
        tasks.polls@[k],
        app::polled_of(ms)[k],
        site_id,
        spec.x_device_trust@,
    ));
}

/// Every synthetic measurement of the document whose operation there is, is computed as
/// its binding says, and goes out on the topic of its own device, name and unit.
pub proof fn lemma_every_synthetic_is_computed<N: Scalar>(
    tasks: TaskSet<N>,
    spec: AsyncApiSpec<N>,
    site_id: Seq<char>,
    i: int,
    j: int,
    b: SyntheticBinding<N>,
)
    requires
        app::is_task_set(tasks, spec, site_id),
        0 <= i < spec.x_protocol_source.entries().len(),
        0 <= j < spec.x_protocol_source.entries()[i].1.entries().len(),
        spec.x_protocol_source.entries()[i].1.entries()[j].1.binding
            == ProtocolBinding::Synthetic(b),
        b.operation@ == "weighted_mean"@ || b.operation@ == "subtract"@ || b.operation@ == "sum"@
            || b.operation@ == "mean"@ || b.operation@ == "max"@ || b.operation@ == "min"@,
    ensures
        ({
            let device = spec.x_protocol_source.entries()[i].0;
            let (name, source) = spec.x_protocol_source.entries()[i].1.entries()[j];
            exists|k: int|
                {
                    let t = #[trigger] tasks.synthetics@[k];
                    &&& 0 <= k < tasks.synthetics@.len()
                    &&& t.output_topic@ == "sites/"@ + site_id + "/devices/"@ + device
                        + "/measurements/"@ + name + "/"@ + source.unit@
                    &&& t.tick_hz == app::poll_rate(source.poll_rate_hz)
                    &&& app::is_computation_of(t.computation, b, site_id)
                }
        }),
{
    let devices = spec.x_protocol_source.entries();
    let ms = app::measurements_of(devices);
    let m = Measurement {
        device_id: devices[i].0,
        name: devices[i].1.entries()[j].0,
        source: devices[i].1.entries()[j].1,
    };
    let computed = |m: Measurement<N>|
        {
            &&& m.source.binding matches ProtocolBinding::Synthetic(b)
            &&& b.operation@ == "weighted_mean"@ || b.operation@ == "subtract"@ || b.operation@
                == "sum"@ || b.operation@ == "mean"@ || b.operation@ == "max"@ || b.operation@
                == "min"@
        };
    lemma_every_measurement_is_walked(devices, i, j);
    lemma_polled_or_computed(ms);
    let k = lemma_filter_keeps(ms, computed, m);
    assert(app::computed_of(ms)[k] == m);
    assert(app::is_synthetic_task(tasks.synthetics@[k], app::computed_of(ms)[k], site_id));
}

/// Every distributed command of the document is rebalanced once a second, under its
/// own device, verb and target. Its envelope is that of its binding: there is one if
/// and only if the binding has every field of one, and its parameters, its bounds and
/// its topics are the binding's, each in its own place.
pub proof fn lemma_every_distributed_command_is_rebalanced<N: Scalar>(
    tasks: TaskSet<N>,
    spec: AsyncApiSpec<N>,
    site_id: Seq<char>,
    i: int,
    j: int,
    d: DistributeBinding<N>,
)
    requires
        app::is_task_set(tasks, spec, site_id),
        0 <= i < spec.x_command_source.entries().len(),
        0 <= j < spec.x_command_source.entries()[i].1.entries().len(),
        spec.x_command_source.entries()[i].1.entries()[j].1.binding
            == ProtocolBinding::Distribute(d),
    ensures
        ({
            let device = spec.x_command_source.entries()[i].0;
            let source = spec.x_command_source.entries()[i].1.entries()[j].1;
            exists|k: int|
                {
                    let t = #[trigger] tasks.envelopes@[k];
                    &&& 0 <= k < tasks.envelopes@.len()
                    &&& t.device_id@ == device
                    &&& t.channel_key@ == source.verb@ + "_"@ + source.target@
                    &&& types::same_binding(t.binding, source.binding)
                    &&& t.tick_hz == N::int_spec(1)
                    &&& t.guard is Some <==> d.ramp_rate_per_sec is Some && d.hysteresis_margin is Some
                        && d.hysteresis_dwell_secs is Some && d.power_min is Some
                        && d.power_max is Some && d.import_limit_topic is Some
                        && d.export_limit_topic is Some && d.active_power_topic is Some
                    &&& t.guard matches Some(g) ==> {
                        &&& g.control.ramp_rate_per_sec == d.ramp_rate_per_sec->0
                        &&& g.control.hysteresis_margin == d.hysteresis_margin->0
                        &&& g.power_min == d.power_min->0
                        &&& g.power_max == d.power_max->0
                        &&& g.import_limit_topic@ == app::site_topic(
                            d.import_limit_topic->0@,
                            site_id,
                        )
                        &&& g.export_limit_topic@ == app::site_topic(
                            d.export_limit_topic->0@,
                            site_id,
                        )
                        &&& g.active_power_topic@ == app::site_topic(
                            d.active_power_topic->0@,
                            site_id,
                        )
                    }
                }
        }),
{
    let devices = spec.x_command_source.entries();
    let cs = app::commands_of(devices);
    let c = CommandEntry { device_id: devices[i].0, source: devices[i].1.entries()[j].1 };
    lemma_every_command_is_walked(devices, i, j);
    lemma_distributed_commands(cs);
    let k = lemma_filter_keeps(cs, |c: CommandEntry<N>| c.source.binding is Distribute, c);
    assert(app::distributed_of(cs)[k] == c);
    assert(app::is_envelope_task(tasks.envelopes@[k], app::distributed_of(cs)[k], site_id));
}

// ---------------------------------------------------------------------
// Subscriptions
// ---------------------------------------------------------------------

/// Every topic that a synthetic measurement reads is subscribed at boot: its inputs and
/// those of its weighted pairs, each at the site.
pub proof fn lemma_every_input_is_subscribed<N>(
    boot: Seq<Seq<char>>,
    spec: AsyncApiSpec<N>,
    site_id: Seq<char>,
    i: int,
    j: int,
    b: SyntheticBinding<N>,
    k: int,
)
    requires
        app::is_boot_list(boot, spec, site_id),
        0 <= i < spec.x_protocol_source.entries().len(),
        0 <= j < spec.x_protocol_source.entries()[i].1.entries().len(),
        spec.x_protocol_source.entries()[i].1.entries()[j].1.binding
            == ProtocolBinding::Synthetic(b),
    ensures
        0 <= k < b.inputs@.len() ==> boot.contains(app::site_topic(b.inputs@[k]@, site_id)),
        0 <= k < b.pairs@.len() ==> boot.contains(app::site_topic(b.pairs@[k].topic@, site_id)),
{
    let devices = spec.x_protocol_source.entries();
    let ms = app::measurements_of(devices);
    let m = Measurement {
        device_id: devices[i].0,
        name: devices[i].1.entries()[j].0,
        source: devices[i].1.entries()[j].1,
    };
    lemma_every_measurement_is_walked(devices, i, j);
    let at = ms.index_of(m);
    let topics = app::synthetic_topics(b, site_id);
    let first = app::site_topics(b.inputs@, site_id);
    if 0 <= k < b.inputs@.len() {
        assert(topics[k] == app::site_topic(b.inputs@[k]@, site_id));
        app::lemma_synthetic_inputs_subscribed(boot, spec, site_id, at, b, topics[k]);
    }
    if 0 <= k < b.pairs@.len() {
        assert(topics[first.len() + k] == app::site_topic(b.pairs@[k].topic@, site_id));
        app::lemma_synthetic_inputs_subscribed(boot, spec, site_id, at, b, topics[first.len() + k]);
    }
}

/// Every topic that the split of a distributed command reads is subscribed at boot: the
/// operating state and the state of charge of every child, and, where the binding has
/// every field of an envelope, both limits and active power, each at the site.
pub proof fn lemma_every_child_is_subscribed<N>(
    boot: Seq<Seq<char>>,
    spec: AsyncApiSpec<N>,
    site_id: Seq<char>,
    i: int,
    j: int,
    d: DistributeBinding<N>,
    k: int,
)
    requires
        app::is_boot_list(boot, spec, site_id),
        0 <= i < spec.x_command_source.entries().len(),
        0 <= j < spec.x_command_source.entries()[i].1.entries().len(),
        spec.x_command_source.entries()[i].1.entries()[j].1.binding
            == ProtocolBinding::Distribute(d),
    ensures
        0 <= k < d.children@.len() ==> {
            &&& boot.contains(app::site_topic(d.children@[k].operating_state_topic@, site_id))
            &&& boot.contains(app::site_topic(d.children@[k].state_of_charge_topic@, site_id))
        },
        d.ramp_rate_per_sec is Some && d.hysteresis_margin is Some && d.hysteresis_dwell_secs is Some
            && d.power_min is Some && d.power_max is Some && d.import_limit_topic is Some
            && d.export_limit_topic is Some && d.active_power_topic is Some ==> {
            &&& boot.contains(app::site_topic(d.import_limit_topic->0@, site_id))
            &&& boot.contains(app::site_topic(d.export_limit_topic->0@, site_id))
            &&& boot.contains(app::site_topic(d.active_power_topic->0@, site_id))
        },
{
    let devices = spec.x_command_source.entries();
    let cs = app::commands_of(devices);
    let c = CommandEntry { device_id: devices[i].0, source: devices[i].1.entries()[j].1 };
    lemma_every_command_is_walked(devices, i, j);
    let at = cs.index_of(c);
    if 0 <= k < d.children@.len() {
        let child = d.children@[k];
        let topics = app::child_topics(child, site_id);
        assert(topics[0] == app::site_topic(child.operating_state_topic@, site_id));
        assert(topics[1] == app::site_topic(child.state_of_charge_topic@, site_id));
        assert(app::child_topics(d.children@[k], site_id).contains(topics[0]));
        app::lemma_distribute_inputs_subscribed(boot, spec, site_id, at, d, topics[0]);
        assert(app::child_topics(d.children@[k], site_id).contains(topics[1]));
        app::lemma_distribute_inputs_subscribed(boot, spec, site_id, at, d, topics[1]);
    }
    if d.ramp_rate_per_sec is Some && d.hysteresis_margin is Some && d.hysteresis_dwell_secs is Some
        && d.power_min is Some && d.power_max is Some && d.import_limit_topic is Some
        && d.export_limit_topic is Some && d.active_power_topic is Some {
        let topics = app::guard_topics(d, site_id);
        assert(topics[0] == app::site_topic(d.import_limit_topic->0@, site_id));
        assert(topics[1] == app::site_topic(d.export_limit_topic->0@, site_id));
        assert(topics[2] == app::site_topic(d.active_power_topic->0@, site_id));
        app::lemma_distribute_inputs_subscribed(boot, spec, site_id, at, d, topics[0]);
        app::lemma_distribute_inputs_subscribed(boot, spec, site_id, at, d, topics[1]);
        app::lemma_distribute_inputs_subscribed(boot, spec, site_id, at, d, topics[2]);
    }
}

/// What the site's own tasks read and write: the target and the event flag, which are
/// subscribed at boot, and the delivered power.
pub proof fn lemma_site_channels<N: Scalar>(
    boot: Seq<Seq<char>>,
    tasks: TaskSet<N>,
    spec: AsyncApiSpec<N>,
    site_id: Seq<char>,
)
    requires
        app::is_boot_list(boot, spec, site_id),
        app::is_task_set(tasks, spec, site_id),
    ensures
        ({
            let front = "sites/"@ + site_id + "/devices/der_dispatch/measurements/"@;
            &&& boot.contains(front + "target_active_power/watts"@)
            &&& boot.contains(front + "event_active/none"@)
            &&& tasks.site_distribution.target_topic@ == front + "target_active_power/watts"@
            &&& tasks.site_distribution.event_active_topic@ == front + "event_active/none"@
            &&& tasks.site_distribution.site_id@ == site_id
            &&& tasks.der_dispatch.output_topic@ == front + "actual_active_power/watts"@
            &&& tasks.der_dispatch.tick_hz == N::int_spec(1)
            &&& tasks.site_distribution.tick_hz == N::int_spec(1)
        }),
{
    let front = "sites/"@ + site_id + "/devices/der_dispatch/measurements/"@;
    let n = boot.len() as int;
    assert(boot[n - 2] == front + "target_active_power/watts"@);
    assert(boot[n - 1] == front + "event_active/none"@);
}

/// The delivered power of the site is summed over every parent, each on the topic of its
/// own active power, and these topics are subscribed at boot.
pub proof fn lemma_every_parent_is_summed<N: Scalar>(
    boot: Seq<Seq<char>>,
    tasks: TaskSet<N>,
    spec: AsyncApiSpec<N>,
    site_id: Seq<char>,
    i: int,
    j: int,
)
    requires
        app::is_boot_list(boot, spec, site_id),
        app::is_task_set(tasks, spec, site_id),
        0 <= i < spec.x_command_source.entries().len(),
        0 <= j < spec.x_command_source.entries()[i].1.entries().len(),
        spec.x_command_source.entries()[i].1.entries()[j].1.binding is Distribute,
        app::is_plain(spec.x_command_source.entries()[i].0),
    ensures
        ({
            let topic = "sites/"@ + site_id + "/devices/"@ + spec.x_command_source.entries()[i].0
                + "/measurements/active_power/watts"@;
            &&& text::views(tasks.der_dispatch.source_topics@).contains(topic)
            &&& boot.contains(topic)
        }),
{
    let devices = spec.x_command_source.entries();
    let id = devices[i].0;
    let tail = app::active_power_tail();
    lemma_parents_have_distributed_commands(devices, id);
    let parents = app::parents_of(devices);
    let p = parents.index_of(id);
    let topics = app::parent_topics(parents, tail, site_id);
    assert(topics[p] == app::parent_topic(id, tail, site_id));
    assert(app::is_plain(tail)) by {
        reveal_strlit("/measurements/active_power/watts");
    }
    app::lemma_parent_topic(id, tail, site_id);
    let ms = app::measurements_of(spec.x_protocol_source.entries());
    let cs = app::commands_of(devices);
    let (x, y) = choose|x: Seq<Seq<char>>, y: Seq<Seq<char>>|
        {
            &&& text::increasing(x)
            &&& x.to_set() == app::all_synthetic_topics(ms, site_id).to_set()
            &&& text::increasing(y)
            &&& y.to_set() == app::all_distribute_topics(cs, site_id).to_set()
            &&& boot == #[trigger] (x + y) + topics + app::parent_topics(
                parents,
                app::state_of_charge_tail(),
                site_id,
            ) + seq![
                app::site_channel(site_id, "target_active_power/watts"@),
                app::site_channel(site_id, "event_active/none"@),
            ]
        };
    assert(boot[(x + y).len() + p] == topics[p]);
    assert(text::views(tasks.der_dispatch.source_topics@)[p] == topics[p]);
}

/// The dwells of a document are taken if no distributed command has a wrong one.
pub proof fn lemma_dwells_of_a_document<N: Scalar>(cs: Seq<CommandEntry<N>>)
    ensures
        app::dwells_ok(cs) <==> forall|i: int|
            0 <= i < cs.len() ==> ((#[trigger] cs[i]).source.binding matches
                ProtocolBinding::Distribute(d) ==> !(d.ramp_rate_per_sec is Some
                && d.hysteresis_margin is Some && d.hysteresis_dwell_secs is Some
                && (d.hysteresis_dwell_secs->0).to_nanos_spec() is None)),
{
    if app::dwells_ok(cs) {
        assert forall|i: int| 0 <= i < cs.len() implies ((#[trigger] cs[i]).source.binding matches
            ProtocolBinding::Distribute(d) ==> !(d.ramp_rate_per_sec is Some
            && d.hysteresis_margin is Some && d.hysteresis_dwell_secs is Some
            && (d.hysteresis_dwell_secs->0).to_nanos_spec() is None)) by {
            assert(app::command_dwell_ok(cs[i]));
        }
    }
}

/// What goes out at least once: readings of devices, commands, their events and the beacon.
/// What is computed afresh every tick goes out at most once.
pub proof fn lemma_qualities_of_service()
    ensures
        publisher::READING_QOS == 1,
        site_distribution::COMMAND_QOS == 1,
        dispatch::EVENT_QOS == 1,
        subscriber::BEACON_QOS == 1,
        subscriber::MEASUREMENT_QOS == 0,
        task::QOS_MEASUREMENT == 0,
        actual_power::QOS_MEASUREMENT == 0,
{
}

/// How many entries some devices have together.
pub open spec fn entry_count<V>(devices: Seq<(Seq<char>, StringMap<V>)>) -> nat
    decreases devices.len(),
{
    if devices.len() == 0 {
        0
    } else {
        entry_count(devices.drop_last()) + devices.last().1.entries().len()
    }
}

/// Nothing is looked at twice: there are as many measurements and as many commands as the
/// devices have entries.
pub proof fn lemma_nothing_is_walked_twice<N>(
    sources: Seq<(Seq<char>, StringMap<ProtocolSource<N>>)>,
    commands: Seq<(Seq<char>, StringMap<CommandSource<N>>)>,
)
    ensures
        app::measurements_of(sources).len() == entry_count(sources),
        app::commands_of(commands).len() == entry_count(commands),
    decreases sources.len() + commands.len(),
{
    if sources.len() > 0 {
        lemma_nothing_is_walked_twice(sources.drop_last(), commands);
    } else if commands.len() > 0 {
        lemma_nothing_is_walked_twice(sources, commands.drop_last());
    }
}

/// No parent counts twice, however many distributed commands it has.
pub proof fn lemma_parents_count_once<N>(devices: Seq<(Seq<char>, StringMap<CommandSource<N>>)>)
    requires
        forall|i: int, j: int|
            0 <= i < j < devices.len() ==> (#[trigger] devices[i]).0 != (#[trigger] devices[j]).0,
    ensures
        app::parents_of(devices).no_duplicates(),
    decreases devices.len(),
{
    if devices.len() > 0 {
        let init = devices.drop_last();
        let n = devices.len() - 1;
        let before = app::parents_of(init);
        let all = app::parents_of(devices);
        assert forall|i: int, j: int| 0 <= i < j < init.len() implies (#[trigger] init[i]).0 != (
        #[trigger] init[j]).0 by {
            assert(devices[i].0 != devices[j].0);
        }
        lemma_parents_count_once(init);
        assert forall|i: int, j: int| 0 <= i < all.len() && 0 <= j < all.len() && i != j implies all[i]
            != all[j] by {
            if i < before.len() && j < before.len() {
                assert(before[i] != before[j]);
            } else {
                let k = if i < before.len() {
                    i
                } else {
                    j
                };
                assert(before.contains(before[k]));
                lemma_parents_have_distributed_commands(init, before[k]);
                let (d, c) = choose|d: int, c: int|
                    {
                        &&& 0 <= d < init.len() && init[d].0 == before[k]
                        &&& 0 <= c < init[d].1.entries().len()
                        &&& (#[trigger] init[d].1.entries()[c]).1.binding is Distribute
                    };
                assert(devices[d].0 != devices[n].0);
            }
        }
    }
}

/// Every command can be dispatched: it is found under its device and under its verb and
/// target, joined by an underscore, with a binding of the same values. Where a device has two
/// with the same, the later one is.
pub proof fn lemma_every_command_can_be_dispatched<N>(
    lookup: Map<Seq<char>, StringMap<ProtocolBinding<N>>>,
    sources: Map<Seq<char>, StringMap<CommandSource<N>>>,
    device: Seq<char>,
    i: int,
)
    requires
        app::is_lookup_of(lookup, sources),
        sources.dom().contains(device),
        0 <= i < sources[device].entries().len(),
        forall|j: int|
            i < j < sources[device].entries().len() ==> dispatch::key_of(
                (#[trigger] sources[device].entries()[j]).1.verb@,
                sources[device].entries()[j].1.target@,
            ) != sources[device].entries()[i].1.verb@ + "_"@
                + sources[device].entries()[i].1.target@,
    ensures
        ({
            let source = sources[device].entries()[i].1;
            let key = source.verb@ + "_"@ + source.target@;
            &&& lookup.dom().contains(device) && lookup[device]@.dom().contains(key)
            &&& types::same_binding(lookup[device]@[key], source.binding)
        }),
{
    let commands = sources[device].entries();
    lemma_commands_are_found(commands, i);
    assert(lookup.dom().contains(device));
    let key = commands[i].1.verb@ + "_"@ + commands[i].1.target@;
    assert(lookup[device]@.dom().contains(key));
}

} // verus!
