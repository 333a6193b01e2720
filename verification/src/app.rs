//! From the AsyncAPI document to the set of tasks that the gateway runs.

use crate::arithmetic;
use crate::asyncapi::trust::DeviceTrust;
use crate::asyncapi::types;
use crate::asyncapi::types::{
    clone_binding, AsyncApiSpec, ChildAllocation, CommandSource, DistributeBinding,
    ProtocolBinding, ProtocolSource, SyntheticBinding, WeightedPair,
};
use crate::config::GatewayCredentials;
use crate::der_dispatch::actual_power::DerDispatchTaskConfig;
use crate::der_dispatch::site_distribution::SiteDistributionConfig;
use crate::dispatch;
use crate::dispatch::allocation;
use crate::dispatch::allocation::AllocationPolicy;
use crate::dispatch::channel_key;
use crate::dispatch::distribute;
use crate::envelope::task as envelope;
use crate::envelope::task::{envelope_guard_config, EnvelopeGuardConfig, EnvelopeTaskConfig};
use crate::error::{failure_of3, GatewayError};
use crate::modbus::client as modbus;
use crate::scalar;
use crate::scalar::Scalar;
use crate::string_map;
use crate::string_map::StringMap;
use crate::synthetic::operation;
use crate::synthetic::operation::find_operation;
use crate::synthetic::task::{Computation, SyntheticTaskConfig};
use crate::text;
use crate::text::{replace_text, same_text, TopicSet};
use vstd::prelude::*;

verus! {

// ---------------------------------------------------------------------
// Topics
// ---------------------------------------------------------------------

/// A topic template with its site placeholder filled in.
pub open spec fn site_topic(template: Seq<char>, site_id: Seq<char>) -> Seq<char> {
    text::replaced(template, "{site_id}"@, site_id)
}

/// Fill in the site placeholder of a topic template.
pub fn substitute_site_id(template: &str, site_id: &str) -> (r: String)
    ensures
        r@ == site_topic(template@, site_id@),
{
    proof {
        reveal_strlit("{site_id}");
    }
    replace_text(template, "{site_id}", site_id)
}

/// A template without the placeholder is its own topic, at every site.
pub proof fn lemma_site_topic_without_placeholder(template: Seq<char>, site_id: Seq<char>)
    requires
        !text::occurs(template, "{site_id}"@),
    ensures
        site_topic(template, site_id) == template,
{
    text::lemma_replaced_without_pattern(template, "{site_id}"@, site_id);
}

/// The topic of a measurement.
pub open spec fn measurement_topic(
    site_id: Seq<char>,
    device_id: Seq<char>,
    measurement: Seq<char>,
    unit: Seq<char>,
) -> Seq<char> {
    "sites/"@ + site_id + "/devices/"@ + device_id + "/measurements/"@ + measurement + "/"@ + unit
}

/// The topic of a measurement.
pub fn build_topic(site_id: &str, device_id: &str, measurement: &str, unit: &str) -> (r: String)
    ensures
        r@ == measurement_topic(site_id@, device_id@, measurement@, unit@),
{
    let mut r = "sites/".to_owned();
    r.append(site_id);
    r.append("/devices/");
    r.append(device_id);
    r.append("/measurements/");
    r.append(measurement);
    r.append("/");
    r.append(unit);
    r
}

// ---------------------------------------------------------------------
// Poll rate
// ---------------------------------------------------------------------

/// The slowest poll rate, a hundredth of a Hz.
pub open spec fn min_poll_hz<N: Scalar>() -> N {
    N::int_spec(1).over_spec(N::int_spec(100))
}

/// The fastest poll rate, ten Hz.
pub open spec fn max_poll_hz<N: Scalar>() -> N {
    N::int_spec(10)
}

/// The poll rate of a measurement: one Hz where the document names none, and
/// never slower or faster than the gateway allows.
pub open spec fn poll_rate<N: Scalar>(value: Option<N>) -> N {
    let raw = match value {
        Some(v) => v,
        None => scalar::one(),
    };
    if raw.below_spec(min_poll_hz()) {
        min_poll_hz()
    } else if max_poll_hz::<N>().below_spec(raw) {
        max_poll_hz()
    } else {
        raw
    }
}

/// Apply the gateway's poll-rate policy.
pub fn clamp_poll_rate<N: Scalar>(value: Option<N>) -> (r: N)
    ensures
        r == poll_rate(value),
{
    let raw: N = match value {
        Some(v) => v,
        None => N::from_u64(1),
    };
    let slowest: N = N::from_u64(1).over(N::from_u64(100));
    if raw.below(slowest) {
        return slowest;
    }
    let fastest: N = N::from_u64(10);
    if fastest.below(raw) {
        return fastest;
    }
    raw
}

/// The poll-rate policy leaves a rate alone that it has been applied to.
pub proof fn lemma_poll_rate_settles<N: Scalar>(value: Option<N>)
    requires
        !min_poll_hz::<N>().below_spec(min_poll_hz()),
        !max_poll_hz::<N>().below_spec(max_poll_hz()),
        !max_poll_hz::<N>().below_spec(min_poll_hz()),
    ensures
        poll_rate(Some(poll_rate(value))) == poll_rate(value),
{
}

/// The time between two polls at a rate, in nanoseconds, where the rate has one.
pub open spec fn poll_period<N: Scalar>(hz: N) -> Option<nat> {
    scalar::one::<N>().over_spec(hz).to_nanos_spec()
}

/// The time between two polls at a rate, in nanoseconds.
pub fn hz_to_poll_period<N: Scalar>(hz: N) -> (r: Option<u128>)
    ensures
        match r {
            Some(nanos) => poll_period(hz) == Some(nanos as nat),
            None => poll_period(hz) is None,
        },
{
    N::from_u64(1).over(hz).to_nanos()
}

/// Every poll rate is within the gateway's range, in every number type that
/// orders the ends of the range as numbers are ordered.
pub proof fn lemma_poll_rate_in_range<N: Scalar>(value: Option<N>)
    requires
        !min_poll_hz::<N>().below_spec(min_poll_hz()),
        !max_poll_hz::<N>().below_spec(max_poll_hz()),
        !max_poll_hz::<N>().below_spec(min_poll_hz()),
    ensures
        !poll_rate(value).below_spec(min_poll_hz()),
        !max_poll_hz::<N>().below_spec(poll_rate(value)),
{
}

/// What the poll-rate policy makes of a rate, in numbers: a rate between a
/// hundredth of a Hz and ten Hz is kept, a slower one is raised and a faster one
/// lowered to the end that it is beyond, and one Hz stands in for none.
pub proof fn lemma_poll_rate_in_numbers<N: Scalar>(
    value: spec_fn(N) -> real,
    counts: spec_fn(N) -> bool,
    rate: N,
)
    requires
        arithmetic::is_exact(value, counts),
        counts(N::int_spec(1)) && counts(N::int_spec(10)) && counts(N::int_spec(100)),
        counts(N::int_spec(1).over_spec(N::int_spec(100))),
        arithmetic::is_even(value, N::int_spec(1), N::int_spec(100)),
        counts(rate),
    ensures
        ({
            let slowest = 1real / 100real;
            let r = value(poll_rate(Some(rate)));
            &&& slowest <= value(rate) <= 10real ==> poll_rate(Some(rate)) == rate
            &&& value(rate) < slowest ==> r == slowest
            &&& 10real < value(rate) ==> r == 10real
            &&& value(poll_rate::<N>(None)) == 1real
        }),
{
    let least = value(N::int_spec(1).over_spec(N::int_spec(100)));
    let one = value(N::int_spec(1));
    let hundred = value(N::int_spec(100));
    assert(least == 1real / 100real) by (nonlinear_arith)
        requires
            least * hundred == one,
            one == 1real,
            hundred == 100real,
    ;
    assert(value(N::int_spec(10)) == 10real);
}

/// The time between two polls is the reciprocal of the rate, to the nanosecond.
pub proof fn lemma_poll_period_in_numbers<N: Scalar>(
    value: spec_fn(N) -> real,
    counts: spec_fn(N) -> bool,
    hz: N,
)
    requires
        arithmetic::is_exact(value, counts),
        counts(N::int_spec(1)) && counts(hz) && counts(N::int_spec(1).over_spec(hz)),
        arithmetic::is_even(value, N::int_spec(1), hz),
        0real < value(hz),
        arithmetic::tells_nanos(value, counts),
    ensures
        poll_period(hz) is Some,
        arithmetic::magnitude(
            (poll_period(hz)->0 as int as real) * value(hz) - 1_000_000_000real,
        ) <= value(hz),
{
    let period = N::int_spec(1).over_spec(hz);
    let p = value(period);
    let h = value(hz);
    assert(value(N::int_spec(1)) == 1real);
    assert(p * h == 1real);
    if p < 0real {
        arithmetic::lemma_times_below(p, 0real, h);
        arithmetic::lemma_times_zero(h);
    }
    let n = poll_period(hz)->0 as int as real;
    let exact = p * 1_000_000_000real;
    arithmetic::lemma_times_order(n, exact + 1real, h);
    arithmetic::lemma_times_order(exact - 1real, n, h);
    arithmetic::lemma_times_sum(exact, 1real, h);
    arithmetic::lemma_times_sum(exact, -1real, h);
    arithmetic::lemma_times_one(h);
    arithmetic::lemma_times_commutes(-1real, h);
    arithmetic::lemma_times_swap(p, 1_000_000_000real, h);
    assert(1real * 1_000_000_000real == 1_000_000_000real) by (nonlinear_arith);
}

// ---------------------------------------------------------------------
// The document, walked
// ---------------------------------------------------------------------

/// One measurement of the document.
pub struct Measurement<N> {
    /// The device.
    pub device_id: Seq<char>,
    /// The measurement's name.
    pub name: Seq<char>,
    /// Its source.
    pub source: ProtocolSource<N>,
}

/// One command of the document.
pub struct CommandEntry<N> {
    /// The device.
    pub device_id: Seq<char>,
    /// Its source.
    pub source: CommandSource<N>,
}

/// The measurements of one device, in walking order.
pub open spec fn device_measurements<N>(
    device_id: Seq<char>,
    channels: Seq<(Seq<char>, ProtocolSource<N>)>,
) -> Seq<Measurement<N>> {
    Seq::new(
        channels.len(),
        |i: int| Measurement { device_id, name: channels[i].0, source: channels[i].1 },
    )
}

/// Every measurement of the document, in walking order.
pub open spec fn measurements_of<N>(
    devices: Seq<(Seq<char>, StringMap<ProtocolSource<N>>)>,
) -> Seq<Measurement<N>>
    decreases devices.len(),
{
    if devices.len() == 0 {
        Seq::empty()
    } else {
        measurements_of(devices.drop_last()) + device_measurements(
            devices.last().0,
            devices.last().1.entries(),
        )
    }
}

/// The commands of one device, in walking order.
pub open spec fn device_commands<N>(
    device_id: Seq<char>,
    commands: Seq<(Seq<char>, CommandSource<N>)>,
) -> Seq<CommandEntry<N>> {
    Seq::new(commands.len(), |i: int| CommandEntry { device_id, source: commands[i].1 })
}

/// Every command of the document, in walking order.
pub open spec fn commands_of<N>(devices: Seq<(Seq<char>, StringMap<CommandSource<N>>)>) -> Seq<
    CommandEntry<N>,
>
    decreases devices.len(),
{
    if devices.len() == 0 {
        Seq::empty()
    } else {
        commands_of(devices.drop_last()) + device_commands(
            devices.last().0,
            devices.last().1.entries(),
        )
    }
}

struct MeasurementRef<'a, N> {
    device_id: &'a String,
    name: &'a String,
    source: &'a ProtocolSource<N>,
}

struct CommandRef<'a, N> {
    device_id: &'a String,
    source: &'a CommandSource<N>,
}

spec fn measurement_of<N>(m: MeasurementRef<'_, N>) -> Measurement<N> {
    Measurement { device_id: m.device_id@, name: m.name@, source: *m.source }
}

spec fn measurement_list<N>(v: Seq<MeasurementRef<'_, N>>) -> Seq<Measurement<N>> {
    v.map_values(|m: MeasurementRef<'_, N>| measurement_of(m))
}

spec fn command_of<N>(c: CommandRef<'_, N>) -> CommandEntry<N> {
    CommandEntry { device_id: c.device_id@, source: *c.source }
}

spec fn command_list<N>(v: Seq<CommandRef<'_, N>>) -> Seq<CommandEntry<N>> {
    v.map_values(|c: CommandRef<'_, N>| command_of(c))
}

fn walk_measurements<'a, N>(sources: &'a StringMap<StringMap<ProtocolSource<N>>>) -> (r: Vec<
    MeasurementRef<'a, N>,
>)
    ensures
        measurement_list(r@) == measurements_of(sources.entries()),
{
    let ghost devices = sources.entries();
    let mut out: Vec<MeasurementRef<'a, N>> = Vec::new();
    let n: usize = sources.size();
    let mut i: usize = 0;
    assert(measurement_list(out@) =~= Seq::empty());
    while i < n
        invariant
            i <= n,
            n == devices.len(),
            devices == sources.entries(),
            measurement_list(out@) == measurements_of(devices.take(i as int)),
        decreases n - i,
    {
        let device_id = sources.key_at(i);
        let channels = sources.value_at(i);
        let m: usize = channels.size();
        let ghost before = measurements_of(devices.take(i as int));
        let ghost here = device_measurements(devices[i as int].0, channels.entries());
        let mut j: usize = 0;
        assert(before + here.take(0) =~= before);
        while j < m
            invariant
                j <= m,
                m == channels.entries().len(),
                device_id@ == devices[i as int].0,
                here == device_measurements(devices[i as int].0, channels.entries()),
                measurement_list(out@) == before + here.take(j as int),
            decreases m - j,
        {
            let ghost prior = out@;
            let item = MeasurementRef {
                device_id,
                name: channels.key_at(j),
                source: channels.value_at(j),
            };
            out.push(item);
            assert(measurement_list(out@) =~= measurement_list(prior).push(measurement_of(item)));
            assert(measurement_of(item) == here[j as int]);
            assert(before + here.take(j + 1) =~= (before + here.take(j as int)).push(
                here[j as int],
            ));
            j = j + 1;
        }
        assert(here.take(j as int) =~= here);
        assert(devices.take(i + 1).drop_last() =~= devices.take(i as int));
        i = i + 1;
    }
    assert(devices.take(i as int) =~= devices);
    out
}

fn walk_commands<'a, N>(sources: &'a StringMap<StringMap<CommandSource<N>>>) -> (r: Vec<
    CommandRef<'a, N>,
>)
    ensures
        command_list(r@) == commands_of(sources.entries()),
{
    let ghost devices = sources.entries();
    let mut out: Vec<CommandRef<'a, N>> = Vec::new();
    let n: usize = sources.size();
    let mut i: usize = 0;
    assert(command_list(out@) =~= Seq::empty());
    while i < n
        invariant
            i <= n,
            n == devices.len(),
            devices == sources.entries(),
            command_list(out@) == commands_of(devices.take(i as int)),
        decreases n - i,
    {
        let device_id = sources.key_at(i);
        let commands = sources.value_at(i);
        let m: usize = commands.size();
        let ghost before = commands_of(devices.take(i as int));
        let ghost here = device_commands(devices[i as int].0, commands.entries());
        let mut j: usize = 0;
        assert(before + here.take(0) =~= before);
        while j < m
            invariant
                j <= m,
                m == commands.entries().len(),
                device_id@ == devices[i as int].0,
                here == device_commands(devices[i as int].0, commands.entries()),
                command_list(out@) == before + here.take(j as int),
            decreases m - j,
        {
            let ghost prior = out@;
            let item = CommandRef { device_id, source: commands.value_at(j) };
            out.push(item);
            assert(command_list(out@) =~= command_list(prior).push(command_of(item)));
            assert(command_of(item) == here[j as int]);
            assert(before + here.take(j + 1) =~= (before + here.take(j as int)).push(
                here[j as int],
            ));
            j = j + 1;
        }
        assert(here.take(j as int) =~= here);
        assert(devices.take(i + 1).drop_last() =~= devices.take(i as int));
        i = i + 1;
    }
    assert(devices.take(i as int) =~= devices);
    out
}

// ---------------------------------------------------------------------
// Command bindings
// ---------------------------------------------------------------------

/// The bindings of a device's commands by verb and target. Of two commands
/// with the same verb and target, the later one in walking order counts.
pub open spec fn bindings_by_key<N>(commands: Seq<(Seq<char>, CommandSource<N>)>) -> Map<
    Seq<char>,
    ProtocolBinding<N>,
>
    decreases commands.len(),
{
    if commands.len() == 0 {
        Map::empty()
    } else {
        bindings_by_key(commands.drop_last()).insert(
            dispatch::key_of(commands.last().1.verb@, commands.last().1.target@),
            commands.last().1.binding,
        )
    }
}

/// Two maps of bindings have the same keys with the same bindings.
pub open spec fn same_bindings<N>(
    a: Map<Seq<char>, ProtocolBinding<N>>,
    b: Map<Seq<char>, ProtocolBinding<N>>,
) -> bool {
    &&& a.dom() == b.dom()
    &&& forall|k: Seq<char>| #[trigger] a.dom().contains(k) ==> types::same_binding(a[k], b[k])
}

fn device_bindings<N: Scalar>(commands: &StringMap<CommandSource<N>>) -> (r: StringMap<
    ProtocolBinding<N>,
>)
    ensures
        same_bindings(r@, bindings_by_key(commands.entries())),
{
    let ghost all = commands.entries();
    let mut out: StringMap<ProtocolBinding<N>> = StringMap::new();
    let n: usize = commands.size();
    let mut i: usize = 0;
    assert(bindings_by_key(all.take(0)) =~= Map::empty());
    while i < n
        invariant
            i <= n,
            n == all.len(),
            all == commands.entries(),
            same_bindings(out@, bindings_by_key(all.take(i as int))),
        decreases n - i,
    {
        assert(all.take(i + 1).drop_last() =~= all.take(i as int));
        let source = commands.value_at(i);
        let key = channel_key(source.verb.as_str(), source.target.as_str());
        out.insert(key, clone_binding(&source.binding));
        assert(out@.dom() =~= bindings_by_key(all.take(i + 1)).dom());
        i = i + 1;
    }
    assert(all.take(i as int) =~= all);
    out
}

/// The dispatch lookup of a document: for every device that has commands,
/// their bindings by verb and target.
pub open spec fn is_lookup_of<N>(
    r: Map<Seq<char>, StringMap<ProtocolBinding<N>>>,
    sources: Map<Seq<char>, StringMap<CommandSource<N>>>,
) -> bool {
    &&& r.dom() == sources.dom()
    &&& forall|d: Seq<char>| #[trigger] r.dom().contains(d) ==> same_bindings(
        r[d]@,
        bindings_by_key(sources[d].entries()),
    )
}

/// Build the dispatch lookup of a document.
pub fn device_channels<N: Scalar>(spec: &AsyncApiSpec<N>) -> (r: StringMap<
    StringMap<ProtocolBinding<N>>,
>)
    ensures
        is_lookup_of(r@, spec.x_command_source@),
{
    let ghost all = spec.x_command_source.entries();
    let mut out: StringMap<StringMap<ProtocolBinding<N>>> = StringMap::new();
    let n: usize = spec.x_command_source.size();
    let mut i: usize = 0;
    assert(string_map::map_of(all.take(0)) =~= Map::empty());
    while i < n
        invariant
            i <= n,
            n == all.len(),
            all == spec.x_command_source.entries(),
            is_lookup_of(out@, string_map::map_of(all.take(i as int))),
        decreases n - i,
    {
        assert(all.take(i + 1).drop_last() =~= all.take(i as int));
        let device_id = spec.x_command_source.key_at(i);
        let bindings = device_bindings(spec.x_command_source.value_at(i));
        out.insert(device_id.clone(), bindings);
        assert(out@.dom() =~= string_map::map_of(all.take(i + 1)).dom());
        i = i + 1;
    }
    assert(all.take(i as int) =~= all);
    out
}

// ---------------------------------------------------------------------
// Input topics
// ---------------------------------------------------------------------

/// Templates with their site placeholders filled in.
pub open spec fn site_topics(templates: Seq<String>, site_id: Seq<char>) -> Seq<Seq<char>> {
    templates.map_values(|t: String| site_topic(t@, site_id))
}

/// The topics of weighted inputs, with their site placeholders filled in.
pub open spec fn pair_site_topics<N>(pairs: Seq<WeightedPair<N>>, site_id: Seq<char>) -> Seq<
    Seq<char>,
> {
    pairs.map_values(|p: WeightedPair<N>| site_topic(p.topic@, site_id))
}

/// The input topics of a synthetic binding.
pub open spec fn synthetic_topics<N>(b: SyntheticBinding<N>, site_id: Seq<char>) -> Seq<Seq<char>> {
    site_topics(b.inputs@, site_id) + pair_site_topics(b.pairs@, site_id)
}

/// The input topics of every synthetic measurement.
pub open spec fn all_synthetic_topics<N>(ms: Seq<Measurement<N>>, site_id: Seq<char>) -> Seq<
    Seq<char>,
>
    decreases ms.len(),
{
    if ms.len() == 0 {
        Seq::empty()
    } else {
        all_synthetic_topics(ms.drop_last(), site_id) + (match ms.last().source.binding {
            ProtocolBinding::Synthetic(b) => synthetic_topics(b, site_id),
            _ => Seq::empty(),
        })
    }
}

/// The cached topics of one child: operating state and state of charge.
pub open spec fn child_topics<N>(c: ChildAllocation<N>, site_id: Seq<char>) -> Seq<Seq<char>> {
    seq![
        site_topic(c.operating_state_topic@, site_id),
        site_topic(c.state_of_charge_topic@, site_id),
    ]
}

/// The cached topics of children.
pub open spec fn children_topics<N>(cs: Seq<ChildAllocation<N>>, site_id: Seq<char>) -> Seq<
    Seq<char>,
>
    decreases cs.len(),
{
    if cs.len() == 0 {
        Seq::empty()
    } else {
        children_topics(cs.drop_last(), site_id) + child_topics(cs.last(), site_id)
    }
}

/// The cached topics of a guard: the limits and active power.
pub open spec fn guard_topics<N>(d: DistributeBinding<N>, site_id: Seq<char>) -> Seq<Seq<char>> {
    if envelope::is_guarded(d) {
        seq![
            site_topic(d.import_limit_topic->0@, site_id),
            site_topic(d.export_limit_topic->0@, site_id),
            site_topic(d.active_power_topic->0@, site_id),
        ]
    } else {
        Seq::empty()
    }
}

/// The cached topics of every distribute command.
pub open spec fn all_distribute_topics<N>(cs: Seq<CommandEntry<N>>, site_id: Seq<char>) -> Seq<
    Seq<char>,
>
    decreases cs.len(),
{
    if cs.len() == 0 {
        Seq::empty()
    } else {
        all_distribute_topics(cs.drop_last(), site_id) + (match cs.last().source.binding {
            ProtocolBinding::Distribute(d) => children_topics(d.children@, site_id) + guard_topics(
                d,
                site_id,
            ),
            _ => Seq::empty(),
        })
    }
}

/// Texts in dictionary order, each once.
fn sorted_unique(v: Vec<String>) -> (r: Vec<String>)
    ensures
        text::increasing(text::views(r@)),
        text::views(r@).to_set() == text::views(v@).to_set(),
{
    let ghost all = text::views(v@);
    let mut set = TopicSet::new();
    let mut i: usize = 0;
    assert(all.take(0).to_set() =~= Set::empty());
    while i < v.len()
        invariant
            i <= v@.len(),
            all == text::views(v@),
            set@ == all.take(i as int).to_set(),
        decreases v@.len() - i,
    {
        set.insert(v[i].clone());
        proof {
            let x = all[i as int];
            let a = all.take(i as int);
            let b = all.take(i + 1);
            assert(b =~= a.push(x));
            assert(b.to_set() =~= a.to_set().insert(x)) by {
                assert forall|y: Seq<char>| b.to_set().contains(y) <==> a.to_set().insert(
                    x,
                ).contains(y) by {
                    if b.contains(y) {
                        let k = choose|k: int| 0 <= k < b.len() && b[k] == y;
                        if k < i {
                            assert(a[k] == y);
                        }
                    }
                    if a.contains(y) {
                        let k = choose|k: int| 0 <= k < a.len() && a[k] == y;
                        assert(b[k] == y);
                    }
                    assert(b[i as int] == x);
                }
            }
        }
        i = i + 1;
    }
    assert(all.take(i as int) =~= all);
    set.into_sorted()
}

fn push_site_topic(out: &mut Vec<String>, template: &str, site_id: &str)
    ensures
        text::views(final(out)@) == text::views(old(out)@).push(site_topic(template@, site_id@)),
{
    let s = substitute_site_id(template, site_id);
    out.push(s);
    assert(text::views(out@) =~= text::views(old(out)@).push(site_topic(template@, site_id@)));
}

/// Fill in the site placeholders of templates.
fn fill_topics(templates: &Vec<String>, site_id: &str) -> (r: Vec<String>)
    ensures
        text::views(r@) == site_topics(templates@, site_id@),
{
    let ghost all = site_topics(templates@, site_id@);
    let mut out: Vec<String> = Vec::new();
    let mut i: usize = 0;
    assert(text::views(out@) =~= all.take(0));
    while i < templates.len()
        invariant
            i <= templates@.len(),
            all == site_topics(templates@, site_id@),
            text::views(out@) == all.take(i as int),
        decreases templates@.len() - i,
    {
        push_site_topic(&mut out, templates[i].as_str(), site_id);
        assert(all.take(i + 1) =~= all.take(i as int).push(all[i as int]));
        i = i + 1;
    }
    assert(all.take(i as int) =~= all);
    out
}

fn append_synthetic_topics<N>(out: &mut Vec<String>, b: &SyntheticBinding<N>, site_id: &str)
    ensures
        text::views(final(out)@) == text::views(old(out)@) + synthetic_topics(*b, site_id@),
{
    let ghost start = text::views(out@);
    let ghost ins = site_topics(b.inputs@, site_id@);
    let ghost prs = pair_site_topics(b.pairs@, site_id@);
    let mut i: usize = 0;
    assert(start + ins.take(0) =~= start);
    while i < b.inputs.len()
        invariant
            i <= b.inputs@.len(),
            ins == site_topics(b.inputs@, site_id@),
            text::views(out@) == start + ins.take(i as int),
        decreases b.inputs@.len() - i,
    {
        push_site_topic(out, b.inputs[i].as_str(), site_id);
        assert((start + ins.take(i as int)).push(ins[i as int]) =~= start + ins.take(i + 1));
        i = i + 1;
    }
    assert(ins.take(i as int) =~= ins);
    let mut j: usize = 0;
    assert(start + ins + prs.take(0) =~= start + ins);
    while j < b.pairs.len()
        invariant
            j <= b.pairs@.len(),
            prs == pair_site_topics(b.pairs@, site_id@),
            text::views(out@) == start + ins + prs.take(j as int),
        decreases b.pairs@.len() - j,
    {
        push_site_topic(out, b.pairs[j].topic.as_str(), site_id);
        assert((start + ins + prs.take(j as int)).push(prs[j as int]) =~= start + ins + prs.take(
            j + 1,
        ));
        j = j + 1;
    }
    assert(prs.take(j as int) =~= prs);
    assert(start + ins + prs =~= start + (ins + prs));
}

/// The input topics of every synthetic measurement, in dictionary order, each
/// once.
pub fn collect_synthetic_input_topics<N: Scalar>(spec: &AsyncApiSpec<N>, site_id: &str) -> (r: Vec<
    String,
>)
    ensures
        text::increasing(text::views(r@)),
        text::views(r@).to_set() == all_synthetic_topics(
            measurements_of(spec.x_protocol_source.entries()),
            site_id@,
        ).to_set(),
{
    let list = walk_measurements(&spec.x_protocol_source);
    let ghost ms = measurement_list(list@);
    let mut out: Vec<String> = Vec::new();
    let mut i: usize = 0;
    assert(text::views(out@) =~= Seq::empty());
    while i < list.len()
        invariant
            i <= list@.len(),
            ms == measurement_list(list@),
            text::views(out@) == all_synthetic_topics(ms.take(i as int), site_id@),
        decreases list@.len() - i,
    {
        assert(ms.take(i + 1).drop_last() =~= ms.take(i as int));
        if let ProtocolBinding::Synthetic(b) = &list[i].source.binding {
            append_synthetic_topics(&mut out, b, site_id);
        } else {
            assert(text::views(out@) + Seq::<Seq<char>>::empty() =~= text::views(out@));
        }
        i = i + 1;
    }
    assert(ms.take(i as int) =~= ms);
    sorted_unique(out)
}

/// The dwell of a command, if it is a distribute command, is a span of time,
/// as far as it is looked at.
pub open spec fn command_dwell_ok<N: Scalar>(c: CommandEntry<N>) -> bool {
    match c.source.binding {
        ProtocolBinding::Distribute(d) => envelope::dwell_ok(d),
        _ => true,
    }
}

/// The dwells of all commands are spans of time.
pub open spec fn dwells_ok<N: Scalar>(cs: Seq<CommandEntry<N>>) -> bool {
    forall|i: int| 0 <= i < cs.len() ==> command_dwell_ok(#[trigger] cs[i])
}

/// Whether every distribute command of a document has a dwell that is a span
/// of time, as far as it is looked at.
pub fn has_valid_dwells<N: Scalar>(spec: &AsyncApiSpec<N>) -> (r: bool)
    ensures
        r == dwells_ok(commands_of(spec.x_command_source.entries())),
{
    let list = walk_commands(&spec.x_command_source);
    let ghost cs = command_list(list@);
    let mut i: usize = 0;
    while i < list.len()
        invariant
            i <= list@.len(),
            cs == command_list(list@),
            cs == commands_of(spec.x_command_source.entries()),
            forall|k: int| 0 <= k < i ==> command_dwell_ok(#[trigger] cs[k]),
        decreases list@.len() - i,
    {
        if let ProtocolBinding::Distribute(d) = &list[i].source.binding {
            if !envelope::has_valid_dwell(d) {
                assert(!command_dwell_ok(cs[i as int]));
                return false;
            }
        }
        i = i + 1;
    }
    true
}

fn append_distribute_topics<N: Scalar>(
    out: &mut Vec<String>,
    d: &DistributeBinding<N>,
    site_id: &str,
)
    requires
        envelope::dwell_ok(*d),
    ensures
        text::views(final(out)@) == text::views(old(out)@) + (children_topics(
            d.children@,
            site_id@,
        ) + guard_topics(*d, site_id@)),
{
    let ghost start = text::views(out@);
    let ghost cs = d.children@;
    let mut i: usize = 0;
    assert(start + children_topics(cs.take(0), site_id@) =~= start);
    while i < d.children.len()
        invariant
            i <= d.children@.len(),
            cs == d.children@,
            text::views(out@) == start + children_topics(cs.take(i as int), site_id@),
        decreases d.children@.len() - i,
    {
        assert(cs.take(i + 1).drop_last() =~= cs.take(i as int));
        let ghost prior = text::views(out@);
        push_site_topic(out, d.children[i].operating_state_topic.as_str(), site_id);
        push_site_topic(out, d.children[i].state_of_charge_topic.as_str(), site_id);
        assert(text::views(out@) =~= prior + child_topics(cs[i as int], site_id@));
        assert(prior + child_topics(cs[i as int], site_id@) =~= start + children_topics(
            cs.take(i + 1),
            site_id@,
        ));
        i = i + 1;
    }
    assert(cs.take(i as int) =~= cs);
    let ghost prior = text::views(out@);
    if let Some(g) = envelope_guard_config(d) {
        push_site_topic(out, g.import_limit_topic.as_str(), site_id);
        push_site_topic(out, g.export_limit_topic.as_str(), site_id);
        push_site_topic(out, g.active_power_topic.as_str(), site_id);
        assert(text::views(out@) =~= prior + guard_topics(*d, site_id@));
    } else {
        assert(text::views(out@) =~= prior + guard_topics(*d, site_id@));
    }
    assert(prior + guard_topics(*d, site_id@) =~= start + (children_topics(cs, site_id@)
        + guard_topics(*d, site_id@)));
}

/// The cached topics of every distribute command, in dictionary order, each
/// once.
pub fn collect_distribute_input_topics<N: Scalar>(spec: &AsyncApiSpec<N>, site_id: &str) -> (r: Vec<
    String,
>)
    requires
        dwells_ok(commands_of(spec.x_command_source.entries())),
    ensures
        text::increasing(text::views(r@)),
        text::views(r@).to_set() == all_distribute_topics(
            commands_of(spec.x_command_source.entries()),
            site_id@,
        ).to_set(),
{
    let list = walk_commands(&spec.x_command_source);
    let ghost cs = command_list(list@);
    let mut out: Vec<String> = Vec::new();
    let mut i: usize = 0;
    assert(text::views(out@) =~= Seq::empty());
    while i < list.len()
        invariant
            i <= list@.len(),
            cs == command_list(list@),
            dwells_ok(cs),
            text::views(out@) == all_distribute_topics(cs.take(i as int), site_id@),
        decreases list@.len() - i,
    {
        assert(cs.take(i + 1).drop_last() =~= cs.take(i as int));
        if let ProtocolBinding::Distribute(d) = &list[i].source.binding {
            assert(command_dwell_ok(cs[i as int]));
            append_distribute_topics(&mut out, d, site_id);
        } else {
            assert(text::views(out@) + Seq::<Seq<char>>::empty() =~= text::views(out@));
        }
        i = i + 1;
    }
    assert(cs.take(i as int) =~= cs);
    sorted_unique(out)
}

/// Whether a device has a distribute command.
pub open spec fn has_distribute<N>(commands: Seq<(Seq<char>, CommandSource<N>)>) -> bool {
    exists|i: int| 0 <= i < commands.len() && (#[trigger] commands[i]).1.binding is Distribute
}

/// The devices that have a distribute command, in walking order.
pub open spec fn parents_of<N>(devices: Seq<(Seq<char>, StringMap<CommandSource<N>>)>) -> Seq<
    Seq<char>,
>
    decreases devices.len(),
{
    if devices.len() == 0 {
        Seq::empty()
    } else if has_distribute(devices.last().1.entries()) {
        parents_of(devices.drop_last()).push(devices.last().0)
    } else {
        parents_of(devices.drop_last())
    }
}

fn is_parent<N>(commands: &StringMap<CommandSource<N>>) -> (r: bool)
    ensures
        r == has_distribute(commands.entries()),
{
    let n: usize = commands.size();
    let mut i: usize = 0;
    while i < n
        invariant
            i <= n,
            n == commands.entries().len(),
            forall|k: int|
                0 <= k < i ==> !((#[trigger] commands.entries()[k]).1.binding is Distribute),
        decreases n - i,
    {
        if let ProtocolBinding::Distribute(_) = &commands.value_at(i).binding {
            assert(commands.entries()[i as int].1.binding is Distribute);
            return true;
        }
        i = i + 1;
    }
    false
}

/// Every device that has a distribute command.
pub fn distribute_parent_device_ids<N: Scalar>(spec: &AsyncApiSpec<N>) -> (r: Vec<String>)
    ensures
        text::views(r@) == parents_of(spec.x_command_source.entries()),
{
    let ghost all = spec.x_command_source.entries();
    let mut out: Vec<String> = Vec::new();
    let n: usize = spec.x_command_source.size();
    let mut i: usize = 0;
    assert(text::views(out@) =~= Seq::empty());
    while i < n
        invariant
            i <= n,
            n == all.len(),
            all == spec.x_command_source.entries(),
            text::views(out@) == parents_of(all.take(i as int)),
        decreases n - i,
    {
        assert(all.take(i + 1).drop_last() =~= all.take(i as int));
        if is_parent(spec.x_command_source.value_at(i)) {
            let ghost prior = out@;
            out.push(spec.x_command_source.key_at(i).clone());
            assert(text::views(out@) =~= text::views(prior).push(all[i as int].0));
        }
        i = i + 1;
    }
    assert(all.take(i as int) =~= all);
    out
}

/// A parent's topic for one of its measurements: a template around its id,
/// with the site placeholder filled in.
pub open spec fn parent_topic(id: Seq<char>, tail: Seq<char>, site_id: Seq<char>) -> Seq<char> {
    site_topic("sites/{site_id}/devices/"@ + id + tail, site_id)
}

/// The topics of parents for one of their measurements.
pub open spec fn parent_topics(ids: Seq<Seq<char>>, tail: Seq<char>, site_id: Seq<char>) -> Seq<
    Seq<char>,
> {
    ids.map_values(|id: Seq<char>| parent_topic(id, tail, site_id))
}

fn collect_parent_topics<N: Scalar>(spec: &AsyncApiSpec<N>, tail: &str, site_id: &str) -> (r: Vec<
    String,
>)
    ensures
        text::views(r@) == parent_topics(
            parents_of(spec.x_command_source.entries()),
            tail@,
            site_id@,
        ),
{
    let ids = distribute_parent_device_ids(spec);
    let ghost names = text::views(ids@);
    let ghost all = parent_topics(names, tail@, site_id@);
    let mut out: Vec<String> = Vec::new();
    let mut i: usize = 0;
    assert(text::views(out@) =~= all.take(0));
    while i < ids.len()
        invariant
            i <= ids@.len(),
            names == text::views(ids@),
            all == parent_topics(names, tail@, site_id@),
            text::views(out@) == all.take(i as int),
        decreases ids@.len() - i,
    {
        let mut template = "sites/{site_id}/devices/".to_owned();
        template.append(ids[i].as_str());
        template.append(tail);
        push_site_topic(&mut out, template.as_str(), site_id);
        assert(all.take(i + 1) =~= all.take(i as int).push(all[i as int]));
        i = i + 1;
    }
    assert(all.take(i as int) =~= all);
    out
}

/// The tail of a parent's active-power topic.
pub open spec fn active_power_tail() -> Seq<char> {
    "/measurements/active_power/watts"@
}

/// The tail of a parent's state-of-charge topic.
pub open spec fn state_of_charge_tail() -> Seq<char> {
    "/measurements/state_of_charge/percent"@
}

/// Every parent's active-power topic.
pub fn collect_der_dispatch_active_power_topics<N: Scalar>(
    spec: &AsyncApiSpec<N>,
    site_id: &str,
) -> (r: Vec<String>)
    ensures
        text::views(r@) == parent_topics(
            parents_of(spec.x_command_source.entries()),
            active_power_tail(),
            site_id@,
        ),
{
    collect_parent_topics(spec, "/measurements/active_power/watts", site_id)
}

/// Every parent's state-of-charge topic.
pub fn collect_der_dispatch_state_of_charge_topics<N: Scalar>(
    spec: &AsyncApiSpec<N>,
    site_id: &str,
) -> (r: Vec<String>)
    ensures
        text::views(r@) == parent_topics(
            parents_of(spec.x_command_source.entries()),
            state_of_charge_tail(),
            site_id@,
        ),
{
    collect_parent_topics(spec, "/measurements/state_of_charge/percent", site_id)
}

/// The topic of one of the site's own measurements.
pub open spec fn site_channel(site_id: Seq<char>, tail: Seq<char>) -> Seq<char> {
    "sites/"@ + site_id + "/devices/der_dispatch/measurements/"@ + tail
}

fn build_site_channel(site_id: &str, tail: &str) -> (r: String)
    ensures
        r@ == site_channel(site_id@, tail@),
{
    let mut r = "sites/".to_owned();
    r.append(site_id);
    r.append("/devices/der_dispatch/measurements/");
    r.append(tail);
    r
}

/// The topics that are subscribed at boot: inputs of synthetic measurements
/// and of distribute commands, each list in dictionary order and without
/// repeats, then every parent's active power and state of charge, then the
/// site's target and whether a dispatch event is on.
pub open spec fn is_boot_list<N>(r: Seq<Seq<char>>, spec: AsyncApiSpec<N>, site_id: Seq<char>) -> bool {
    let ms = measurements_of(spec.x_protocol_source.entries());
    let cs = commands_of(spec.x_command_source.entries());
    let parents = parents_of(spec.x_command_source.entries());
    exists|a: Seq<Seq<char>>, b: Seq<Seq<char>>|
        {
            &&& text::increasing(a)
            &&& a.to_set() == all_synthetic_topics(ms, site_id).to_set()
            &&& text::increasing(b)
            &&& b.to_set() == all_distribute_topics(cs, site_id).to_set()
            &&& r == #[trigger] (a + b) + parent_topics(parents, active_power_tail(), site_id)
                + parent_topics(parents, state_of_charge_tail(), site_id) + seq![
                site_channel(site_id, "target_active_power/watts"@),
                site_channel(site_id, "event_active/none"@),
            ]
        }
}

fn extend(out: &mut Vec<String>, more: Vec<String>)
    ensures
        text::views(final(out)@) == text::views(old(out)@) + text::views(more@),
{
    let mut more = more;
    let ghost tail = more@;
    out.append(&mut more);
    assert(text::views(out@) =~= text::views(old(out)@) + text::views(tail));
}

/// The topics to subscribe to at boot.
pub fn boot_input_topics<N: Scalar>(spec: &AsyncApiSpec<N>, site_id: &str) -> (r: Vec<String>)
    requires
        dwells_ok(commands_of(spec.x_command_source.entries())),
    ensures
        is_boot_list(text::views(r@), *spec, site_id@),
{
    let mut out = collect_synthetic_input_topics(spec, site_id);
    let ghost a = text::views(out@);
    let more = collect_distribute_input_topics(spec, site_id);
    let ghost b = text::views(more@);
    extend(&mut out, more);
    extend(&mut out, collect_der_dispatch_active_power_topics(spec, site_id));
    extend(&mut out, collect_der_dispatch_state_of_charge_topics(spec, site_id));
    let ghost prior = text::views(out@);
    out.push(build_site_channel(site_id, "target_active_power/watts"));
    out.push(build_site_channel(site_id, "event_active/none"));
    assert(text::views(out@) =~= prior + seq![
        site_channel(site_id@, "target_active_power/watts"@),
        site_channel(site_id@, "event_active/none"@),
    ]);
    assert(text::views(out@) == (a + b) + parent_topics(
        parents_of(spec.x_command_source.entries()),
        active_power_tail(),
        site_id@,
    ) + parent_topics(
        parents_of(spec.x_command_source.entries()),
        state_of_charge_tail(),
        site_id@,
    ) + seq![
        site_channel(site_id@, "target_active_power/watts"@),
        site_channel(site_id@, "event_active/none"@),
    ]);
    out
}

// ---------------------------------------------------------------------
// Task set
// ---------------------------------------------------------------------

/// One measurement that is polled.
pub struct PollTask<N> {
    /// Where its samples go.
    pub topic: String,
    /// Poll rate in Hz.
    pub poll_rate_hz: N,
    /// How it is read.
    pub binding: ProtocolBinding<N>,
    /// The trust of its device, if there is some.
    pub trust: Option<DeviceTrust>,
}

/// Everything that the gateway runs for a document.
pub struct TaskSet<N> {
    /// Polled measurements.
    pub polls: Vec<PollTask<N>>,
    /// Computed measurements.
    pub synthetics: Vec<SyntheticTaskConfig<N>>,
    /// Rebalance tasks.
    pub envelopes: Vec<EnvelopeTaskConfig<N>>,
    /// The site total.
    pub der_dispatch: DerDispatchTaskConfig<N>,
    /// The split of the site target.
    pub site_distribution: SiteDistributionConfig<N>,
}

/// The topic of a measurement of the document.
pub open spec fn topic_of<N>(m: Measurement<N>, site_id: Seq<char>) -> Seq<char> {
    measurement_topic(site_id, m.device_id, m.name, m.source.unit@)
}

/// Topic-weight pairs with their topics as sequences of characters.
pub open spec fn pairs_view<N>(pairs: Seq<(String, N)>) -> Seq<(Seq<char>, N)> {
    pairs.map_values(|p: (String, N)| (p.0@, p.1))
}

/// The weighted inputs of a binding at a site.
pub open spec fn site_pairs<N>(pairs: Seq<WeightedPair<N>>, site_id: Seq<char>) -> Seq<
    (Seq<char>, N),
> {
    pairs.map_values(|p: WeightedPair<N>| (site_topic(p.topic@, site_id), p.weight))
}

/// Whether a synthetic binding names something that can be computed.
pub open spec fn is_known<N>(b: SyntheticBinding<N>) -> bool {
    b.operation@ == "weighted_mean"@ || operation::operation_of(b.operation@) is Some
}

/// A computation is the one that a binding names.
pub open spec fn is_computation_of<N>(
    c: Computation<N>,
    b: SyntheticBinding<N>,
    site_id: Seq<char>,
) -> bool {
    match c {
        Computation::WeightedMean { pairs } => {
            &&& b.operation@ == "weighted_mean"@
            &&& pairs_view(pairs@) == site_pairs(b.pairs@, site_id)
        },
        Computation::Operation { operation, input_topics } => {
            &&& b.operation@ != "weighted_mean"@
            &&& operation::operation_of(b.operation@) == Some(operation)
            &&& text::views(input_topics@) == site_topics(b.inputs@, site_id)
        },
    }
}

/// What a synthetic binding computes; nothing where its operation is unknown.
pub fn computation_of<N: Scalar>(b: &SyntheticBinding<N>, site_id: &str) -> (r: Option<
    Computation<N>,
>)
    ensures
        match r {
            Some(c) => is_computation_of(c, *b, site_id@),
            None => !is_known(*b),
        },
{
    if same_text(b.operation.as_str(), "weighted_mean") {
        let ghost all = site_pairs(b.pairs@, site_id@);
        let mut pairs: Vec<(String, N)> = Vec::new();
        let mut i: usize = 0;
        assert(pairs_view(pairs@) =~= all.take(0));
        while i < b.pairs.len()
            invariant
                i <= b.pairs@.len(),
                all == site_pairs(b.pairs@, site_id@),
                pairs_view(pairs@) == all.take(i as int),
            decreases b.pairs@.len() - i,
        {
            let ghost prior = pairs@;
            pairs.push((substitute_site_id(b.pairs[i].topic.as_str(), site_id), b.pairs[i].weight));
            assert(pairs_view(pairs@) =~= pairs_view(prior).push(all[i as int]));
            assert(all.take(i + 1) =~= all.take(i as int).push(all[i as int]));
            i = i + 1;
        }
        assert(all.take(i as int) =~= all);
        Some(Computation::WeightedMean { pairs })
    } else {
        match find_operation(b.operation.as_str()) {
            None => None,
            Some(operation) => Some(
                Computation::Operation { operation, input_topics: fill_topics(&b.inputs, site_id) },
            ),
        }
    }
}

/// A task computes a synthetic measurement.
pub open spec fn is_synthetic_task<N: Scalar>(
    t: SyntheticTaskConfig<N>,
    m: Measurement<N>,
    site_id: Seq<char>,
) -> bool {
    &&& t.output_topic@ == topic_of(m, site_id)
    &&& t.tick_hz == poll_rate(m.source.poll_rate_hz)
    &&& m.source.binding matches ProtocolBinding::Synthetic(b)
    &&& is_computation_of(t.computation, b, site_id)
}

/// A task polls a measurement.
pub open spec fn is_poll_task<N: Scalar>(
    t: PollTask<N>,
    m: Measurement<N>,
    site_id: Seq<char>,
    trust: Map<Seq<char>, DeviceTrust>,
) -> bool {
    &&& t.topic@ == topic_of(m, site_id)
    &&& t.poll_rate_hz == poll_rate(m.source.poll_rate_hz)
    &&& types::same_binding(t.binding, m.source.binding)
    &&& t.trust == distribute::lookup(trust, m.device_id)
}

/// A measurement that is computed, by an operation that is known.
pub open spec fn is_computed<N>(m: Measurement<N>) -> bool {
    m.source.binding matches ProtocolBinding::Synthetic(b) && is_known(b)
}

/// A measurement that is polled.
pub open spec fn is_polled<N>(m: Measurement<N>) -> bool {
    !(m.source.binding is Synthetic)
}

/// The measurements that are polled, in walking order.
pub open spec fn polled_of<N>(ms: Seq<Measurement<N>>) -> Seq<Measurement<N>>
    decreases ms.len(),
{
    if ms.len() == 0 {
        Seq::empty()
    } else if is_polled(ms.last()) {
        polled_of(ms.drop_last()).push(ms.last())
    } else {
        polled_of(ms.drop_last())
    }
}

/// The measurements that are computed, in walking order. One whose operation
/// is unknown is dropped.
pub open spec fn computed_of<N>(ms: Seq<Measurement<N>>) -> Seq<Measurement<N>>
    decreases ms.len(),
{
    if ms.len() == 0 {
        Seq::empty()
    } else if is_computed(ms.last()) {
        computed_of(ms.drop_last()).push(ms.last())
    } else {
        computed_of(ms.drop_last())
    }
}

/// The distribute commands, in walking order.
pub open spec fn distributed_of<N>(cs: Seq<CommandEntry<N>>) -> Seq<CommandEntry<N>>
    decreases cs.len(),
{
    if cs.len() == 0 {
        Seq::empty()
    } else if cs.last().source.binding is Distribute {
        distributed_of(cs.drop_last()).push(cs.last())
    } else {
        distributed_of(cs.drop_last())
    }
}

/// A task's guard is that of its binding, with the site filled in; a task
/// without a guard has a binding without one.
pub open spec fn is_site_guard<N: Scalar>(
    g: Option<EnvelopeGuardConfig<N>>,
    d: DistributeBinding<N>,
    site_id: Seq<char>,
) -> bool {
    match g {
        None => !envelope::is_guarded(d),
        Some(x) => {
            &&& envelope::is_guarded(d)
            &&& d.ramp_rate_per_sec == Some(x.control.ramp_rate_per_sec)
            &&& d.hysteresis_margin == Some(x.control.hysteresis_margin)
            &&& (d.hysteresis_dwell_secs->0).to_nanos_spec() == Some(
                x.control.hysteresis_dwell.nanos as nat,
            )
            &&& d.power_min == Some(x.power_min)
            &&& d.power_max == Some(x.power_max)
            &&& x.import_limit_topic@ == site_topic(d.import_limit_topic->0@, site_id)
            &&& x.export_limit_topic@ == site_topic(d.export_limit_topic->0@, site_id)
            &&& x.active_power_topic@ == site_topic(d.active_power_topic->0@, site_id)
        },
    }
}

/// A task rebalances a distribute command.
pub open spec fn is_envelope_task<N: Scalar>(
    t: EnvelopeTaskConfig<N>,
    c: CommandEntry<N>,
    site_id: Seq<char>,
) -> bool {
    &&& t.device_id@ == c.device_id
    &&& t.channel_key@ == dispatch::key_of(c.source.verb@, c.source.target@)
    &&& types::same_binding(t.binding, c.source.binding)
    &&& t.tick_hz == scalar::one::<N>()
    &&& c.source.binding matches ProtocolBinding::Distribute(d)
    &&& is_site_guard(t.guard, d, site_id)
}

/// What the gateway runs for a document: one task for every measurement, by
/// polling or by computing, one for every distribute command, and the two of
/// the site.
pub open spec fn is_task_set<N: Scalar>(
    r: TaskSet<N>,
    spec: AsyncApiSpec<N>,
    site_id: Seq<char>,
) -> bool {
    let polled = polled_of(measurements_of(spec.x_protocol_source.entries()));
    let computed = computed_of(measurements_of(spec.x_protocol_source.entries()));
    let distributed = distributed_of(commands_of(spec.x_command_source.entries()));
    &&& r.polls@.len() == polled.len()
    &&& forall|i: int|
        0 <= i < polled.len() ==> is_poll_task(
            #[trigger] r.polls@[i],
            polled[i],
            site_id,
            spec.x_device_trust@,
        )
    &&& r.synthetics@.len() == computed.len()
    &&& forall|i: int|
        0 <= i < computed.len() ==> is_synthetic_task(
            #[trigger] r.synthetics@[i],
            computed[i],
            site_id,
        )
    &&& r.envelopes@.len() == distributed.len()
    &&& forall|i: int|
        0 <= i < distributed.len() ==> is_envelope_task(
            #[trigger] r.envelopes@[i],
            distributed[i],
            site_id,
        )
    &&& r.der_dispatch.output_topic@ == site_channel(site_id, "actual_active_power/watts"@)
    &&& text::views(r.der_dispatch.source_topics@) == parent_topics(
        parents_of(spec.x_command_source.entries()),
        active_power_tail(),
        site_id,
    )
    &&& r.der_dispatch.tick_hz == scalar::one::<N>()
    &&& r.site_distribution.site_id@ == site_id
    &&& r.site_distribution.target_topic@ == site_channel(site_id, "target_active_power/watts"@)
    &&& r.site_distribution.event_active_topic@ == site_channel(site_id, "event_active/none"@)
    &&& r.site_distribution.tick_hz == scalar::one::<N>()
}

/// The task of one synthetic measurement; nothing where its operation is
/// unknown.
fn synthetic_task<N: Scalar>(b: &SyntheticBinding<N>, topic: String, rate: N, site_id: &str) -> (r:
    Option<SyntheticTaskConfig<N>>)
    ensures
        match r {
            Some(t) => {
                &&& t.output_topic == topic
                &&& t.tick_hz == rate
                &&& is_computation_of(t.computation, *b, site_id@)
                &&& is_known(*b)
            },
            None => !is_known(*b),
        },
{
    match computation_of(b, site_id) {
        Some(computation) => Some(
            SyntheticTaskConfig { output_topic: topic, computation, tick_hz: rate },
        ),
        None => None,
    }
}

fn envelope_task<N: Scalar>(
    device_id: &String,
    source: &CommandSource<N>,
    d: &DistributeBinding<N>,
    site_id: &str,
) -> (r: EnvelopeTaskConfig<N>)
    requires
        source.binding == ProtocolBinding::Distribute(*d),
        envelope::dwell_ok(*d),
    ensures
        is_envelope_task(
            r,
            CommandEntry { device_id: device_id@, source: *source },
            site_id@,
        ),
{
    let guard: Option<EnvelopeGuardConfig<N>> = match envelope_guard_config(d) {
        None => None,
        Some(g) => Some(
            EnvelopeGuardConfig {
                control: g.control,
                power_min: g.power_min,
                power_max: g.power_max,
                import_limit_topic: substitute_site_id(g.import_limit_topic.as_str(), site_id),
                export_limit_topic: substitute_site_id(g.export_limit_topic.as_str(), site_id),
                active_power_topic: substitute_site_id(g.active_power_topic.as_str(), site_id),
            },
        ),
    };
    EnvelopeTaskConfig {
        device_id: device_id.clone(),
        channel_key: channel_key(source.verb.as_str(), source.target.as_str()),
        guard,
        binding: clone_binding(&source.binding),
        tick_hz: N::from_u64(1),
    }
}

/// Build everything that the gateway runs for a document.
pub fn spawn_task_set<N: Scalar>(spec: &AsyncApiSpec<N>, site_id: &str) -> (r: TaskSet<N>)
    requires
        dwells_ok(commands_of(spec.x_command_source.entries())),
    ensures
        is_task_set(r, *spec, site_id@),
{
    let list = walk_measurements(&spec.x_protocol_source);
    let ghost ms = measurement_list(list@);
    let mut polls: Vec<PollTask<N>> = Vec::new();
    let mut synthetics: Vec<SyntheticTaskConfig<N>> = Vec::new();
    let mut i: usize = 0;
    while i < list.len()
        invariant
            i <= list@.len(),
            ms == measurement_list(list@),
            polls@.len() == polled_of(ms.take(i as int)).len(),
            forall|k: int|
                0 <= k < polls@.len() ==> is_poll_task(
                    #[trigger] polls@[k],
                    polled_of(ms.take(i as int))[k],
                    site_id@,
                    spec.x_device_trust@,
                ),
            synthetics@.len() == computed_of(ms.take(i as int)).len(),
            forall|k: int|
                0 <= k < synthetics@.len() ==> is_synthetic_task(
                    #[trigger] synthetics@[k],
                    computed_of(ms.take(i as int))[k],
                    site_id@,
                ),
        decreases list@.len() - i,
    {
        assert(ms.take(i + 1).drop_last() =~= ms.take(i as int));
        let source = list[i].source;
        let ghost m = ms[i as int];
        let topic = build_topic(
            site_id,
            list[i].device_id.as_str(),
            list[i].name.as_str(),
            source.unit.as_str(),
        );
        let rate = clamp_poll_rate(source.poll_rate_hz);
        if let ProtocolBinding::Synthetic(b) = &source.binding {
            if let Some(t) = synthetic_task(b, topic, rate, site_id) {
                assert(is_synthetic_task(t, m, site_id@));
                synthetics.push(t);
            }
        } else {
            let trust: Option<DeviceTrust> = match spec.x_device_trust.get(
                list[i].device_id.as_str(),
            ) {
                Some(t) => Some(t.clone()),
                None => None,
            };
            let t = PollTask {
                topic,
                poll_rate_hz: rate,
                binding: clone_binding(&source.binding),
                trust,
            };
            assert(is_poll_task(t, m, site_id@, spec.x_device_trust@));
            polls.push(t);
        }
        i = i + 1;
    }
    assert(ms.take(i as int) =~= ms);
    let commands = walk_commands(&spec.x_command_source);
    let ghost cs = command_list(commands@);
    let mut envelopes: Vec<EnvelopeTaskConfig<N>> = Vec::new();
    let mut j: usize = 0;
    while j < commands.len()
        invariant
            j <= commands@.len(),
            cs == command_list(commands@),
            dwells_ok(cs),
            envelopes@.len() == distributed_of(cs.take(j as int)).len(),
            forall|k: int|
                0 <= k < envelopes@.len() ==> is_envelope_task(
                    #[trigger] envelopes@[k],
                    distributed_of(cs.take(j as int))[k],
                    site_id@,
                ),
        decreases commands@.len() - j,
    {
        assert(cs.take(j + 1).drop_last() =~= cs.take(j as int));
        let source = commands[j].source;
        assert(command_dwell_ok(cs[j as int]));
        if let ProtocolBinding::Distribute(d) = &source.binding {
            let t = envelope_task(commands[j].device_id, source, d, site_id);
            assert(is_envelope_task(t, cs[j as int], site_id@));
            envelopes.push(t);
        }
        j = j + 1;
    }
    assert(cs.take(j as int) =~= cs);
    TaskSet {
        polls,
        synthetics,
        envelopes,
        der_dispatch: DerDispatchTaskConfig {
            output_topic: build_site_channel(site_id, "actual_active_power/watts"),
            source_topics: collect_der_dispatch_active_power_topics(spec, site_id),
            tick_hz: N::from_u64(1),
        },
        site_distribution: SiteDistributionConfig {
            site_id: site_id.to_owned(),
            target_topic: build_site_channel(site_id, "target_active_power/watts"),
            event_active_topic: build_site_channel(site_id, "event_active/none"),
            tick_hz: N::from_u64(1),
        },
    }
}

// ---------------------------------------------------------------------
// Checks on a document
// ---------------------------------------------------------------------

/// What is said of a device that needs mutual TLS where the gateway has no
/// material for it.
pub open spec fn unaligned(device_id: Seq<char>) -> Seq<char> {
    "device "@ + device_id
        + " requires tls_mutual but gateway_credentials is unset; mount the CA bundle + gateway cert/key and set cfg.gateway_credentials"@
}

/// Whether every device that needs mutual TLS can be dialled.
pub open spec fn is_aligned(
    trust: Map<Seq<char>, DeviceTrust>,
    creds: Option<GatewayCredentials>,
) -> bool {
    creds is Some || forall|d: Seq<char>| #[trigger]
        trust.dom().contains(d) ==> !(trust[d] is TlsMutual)
}

/// Check that every device that needs mutual TLS can be dialled; the error
/// names a device that cannot.
pub fn validate_trust_creds_alignment<N>(
    spec: &AsyncApiSpec<N>,
    creds: Option<&GatewayCredentials>,
) -> (r: Result<(), GatewayError>)
    ensures
        match r {
            Ok(_) => is_aligned(spec.x_device_trust@, modbus::opt(creds)),
            Err(e) => {
                &&& !is_aligned(spec.x_device_trust@, modbus::opt(creds))
                &&& exists|d: Seq<char>|
                    {
                        &&& #[trigger] spec.x_device_trust@.dom().contains(d)
                        &&& spec.x_device_trust@[d] is TlsMutual
                        &&& e.message@ == unaligned(d)
                    }
            },
        },
{
    if creds.is_some() {
        return Ok(());
    }
    let ghost all = spec.x_device_trust.entries();
    let n: usize = spec.x_device_trust.size();
    let mut i: usize = 0;
    while i < n
        invariant
            i <= n,
            n == all.len(),
            creds is None,
            all == spec.x_device_trust.entries(),
            string_map::distinct_keys(all),
            forall|k: int| 0 <= k < i ==> !((#[trigger] all[k]).1 is TlsMutual),
        decreases n - i,
    {
        if let DeviceTrust::TlsMutual { .. } = spec.x_device_trust.value_at(i) {
            proof {
                string_map::lemma_map_of_entry(all, i as int);
                assert(spec.x_device_trust@.dom().contains(all[i as int].0));
            }
            return Err(
                failure_of3(
                    "device ",
                    spec.x_device_trust.key_at(i).as_str(),
                    " requires tls_mutual but gateway_credentials is unset; mount the CA bundle + gateway cert/key and set cfg.gateway_credentials",
                ),
            );
        }
        i = i + 1;
    }
    proof {
        assert forall|d: Seq<char>| #[trigger] spec.x_device_trust@.dom().contains(d) implies !(
        spec.x_device_trust@[d] is TlsMutual) by {
            string_map::lemma_map_of_domain(all, d);
            let k = choose|k: int| 0 <= k < all.len() && (#[trigger] all[k]).0 == d;
            string_map::lemma_map_of_entry(all, k);
        }
    }
    Ok(())
}

/// The policy name of a distribute command that is no policy.
pub open spec fn unknown_policy_of<N>(c: CommandEntry<N>) -> Option<Seq<char>> {
    match c.source.binding {
        ProtocolBinding::Distribute(d) => match allocation::policy_of(d.allocation_policy@) {
            Some(_) => None,
            None => Some(d.allocation_policy@),
        },
        _ => None,
    }
}

/// The first policy name of the commands that is no policy.
pub open spec fn first_unknown_policy<N>(cs: Seq<CommandEntry<N>>) -> Option<Seq<char>>
    decreases cs.len(),
{
    if cs.len() == 0 {
        None
    } else {
        match first_unknown_policy(cs.drop_last()) {
            Some(name) => Some(name),
            None => unknown_policy_of(cs.last()),
        }
    }
}

/// Check the allocation policies of all commands of a document, so that an
/// unknown name is told when the gateway starts and not when a command comes.
pub fn validate_allocation_policies<N>(spec: &AsyncApiSpec<N>) -> (r: Result<(), GatewayError>)
    ensures
        match first_unknown_policy(commands_of(spec.x_command_source.entries())) {
            Some(name) => r matches Err(e) && e.message@ == allocation::unknown_policy(name),
            None => r is Ok,
        },
{
    let list = walk_commands(&spec.x_command_source);
    let ghost cs = command_list(list@);
    let mut found: Option<GatewayError> = None;
    let mut i: usize = 0;
    while i < list.len()
        invariant
            i <= list@.len(),
            cs == command_list(list@),
            cs == commands_of(spec.x_command_source.entries()),
            match first_unknown_policy(cs.take(i as int)) {
                Some(name) => found matches Some(e) && e.message@ == allocation::unknown_policy(
                    name,
                ),
                None => found is None,
            },
        decreases list@.len() - i,
    {
        assert(cs.take(i + 1).drop_last() =~= cs.take(i as int));
        if found.is_none() {
            if let ProtocolBinding::Distribute(d) = &list[i].source.binding {
                if let Err(e) = AllocationPolicy::parse(d.allocation_policy.as_str()) {
                    found = Some(e);
                }
            }
        }
        i = i + 1;
    }
    assert(cs.take(i as int) =~= cs);
    match found {
        Some(e) => Err(e),
        None => Ok(()),
    }
}

// ---------------------------------------------------------------------
// Laws
// ---------------------------------------------------------------------

/// No silent downgrade: once trust and credentials are aligned, every device
/// that asks for mutual TLS is dialled by mutual TLS, with the subject name it
/// asks for.
pub proof fn lemma_no_silent_downgrade(
    trust: Map<Seq<char>, DeviceTrust>,
    creds: Option<GatewayCredentials>,
    device_id: Seq<char>,
)
    requires
        is_aligned(trust, creds),
        trust.dom().contains(device_id),
        trust[device_id] is TlsMutual,
    ensures
        modbus::dial_of(distribute::lookup(trust, device_id), creds) == (modbus::Dial::Tls {
            subject_name: trust[device_id]->subject_name,
            creds: creds->0,
        }),
        creds is Some,
{
}

/// The measurements whose operation is unknown.
pub open spec fn dropped_of<N>(ms: Seq<Measurement<N>>) -> Seq<Measurement<N>>
    decreases ms.len(),
{
    if ms.len() == 0 {
        Seq::empty()
    } else if !is_polled(ms.last()) && !is_computed(ms.last()) {
        dropped_of(ms.drop_last()).push(ms.last())
    } else {
        dropped_of(ms.drop_last())
    }
}

/// Every measurement of the document has exactly one task, by polling or by
/// computing, unless its operation is unknown.
pub proof fn lemma_one_task_per_measurement<N>(ms: Seq<Measurement<N>>)
    ensures
        polled_of(ms).len() + computed_of(ms).len() + dropped_of(ms).len() == ms.len(),
    decreases ms.len(),
{
    if ms.len() > 0 {
        lemma_one_task_per_measurement(ms.drop_last());
    }
}

proof fn lemma_in_all_synthetic<N>(
    ms: Seq<Measurement<N>>,
    i: int,
    b: SyntheticBinding<N>,
    topic: Seq<char>,
    site_id: Seq<char>,
)
    requires
        0 <= i < ms.len(),
        ms[i].source.binding == ProtocolBinding::Synthetic(b),
        synthetic_topics(b, site_id).contains(topic),
    ensures
        all_synthetic_topics(ms, site_id).contains(topic),
    decreases ms.len(),
{
    let init = all_synthetic_topics(ms.drop_last(), site_id);
    let all = all_synthetic_topics(ms, site_id);
    if i == ms.len() - 1 {
        let k = synthetic_topics(b, site_id).index_of(topic);
        assert(all[init.len() + k] == topic);
    } else {
        lemma_in_all_synthetic(ms.drop_last(), i, b, topic, site_id);
        let k = init.index_of(topic);
        assert(all[k] == topic);
    }
}

proof fn lemma_in_all_distribute<N>(
    cs: Seq<CommandEntry<N>>,
    i: int,
    d: DistributeBinding<N>,
    topic: Seq<char>,
    site_id: Seq<char>,
)
    requires
        0 <= i < cs.len(),
        cs[i].source.binding == ProtocolBinding::Distribute(d),
        (children_topics(d.children@, site_id) + guard_topics(d, site_id)).contains(topic),
    ensures
        all_distribute_topics(cs, site_id).contains(topic),
    decreases cs.len(),
{
    let init = all_distribute_topics(cs.drop_last(), site_id);
    let all = all_distribute_topics(cs, site_id);
    let here = children_topics(d.children@, site_id) + guard_topics(d, site_id);
    if i == cs.len() - 1 {
        let k = here.index_of(topic);
        assert(all[init.len() + k] == topic);
    } else {
        lemma_in_all_distribute(cs.drop_last(), i, d, topic, site_id);
        let k = init.index_of(topic);
        assert(all[k] == topic);
    }
}

proof fn lemma_in_children<N>(
    cs: Seq<ChildAllocation<N>>,
    i: int,
    topic: Seq<char>,
    site_id: Seq<char>,
)
    requires
        0 <= i < cs.len(),
        child_topics(cs[i], site_id).contains(topic),
    ensures
        children_topics(cs, site_id).contains(topic),
    decreases cs.len(),
{
    let init = children_topics(cs.drop_last(), site_id);
    let all = children_topics(cs, site_id);
    if i == cs.len() - 1 {
        let k = child_topics(cs[i], site_id).index_of(topic);
        assert(all[init.len() + k] == topic);
    } else {
        lemma_in_children(cs.drop_last(), i, topic, site_id);
        let k = init.index_of(topic);
        assert(all[k] == topic);
    }
}

/// Every input of every synthetic measurement is subscribed at boot.
pub proof fn lemma_synthetic_inputs_subscribed<N>(
    boot: Seq<Seq<char>>,
    spec: AsyncApiSpec<N>,
    site_id: Seq<char>,
    i: int,
    b: SyntheticBinding<N>,
    topic: Seq<char>,
)
    requires
        is_boot_list(boot, spec, site_id),
        0 <= i < measurements_of(spec.x_protocol_source.entries()).len(),
        measurements_of(spec.x_protocol_source.entries())[i].source.binding
            == ProtocolBinding::Synthetic(b),
        synthetic_topics(b, site_id).contains(topic),
    ensures
        boot.contains(topic),
{
    let ms = measurements_of(spec.x_protocol_source.entries());
    let cs = commands_of(spec.x_command_source.entries());
    let parents = parents_of(spec.x_command_source.entries());
    lemma_in_all_synthetic(ms, i, b, topic, site_id);
    let (x, y) = choose|x: Seq<Seq<char>>, y: Seq<Seq<char>>|
        {
            &&& text::increasing(x)
            &&& x.to_set() == all_synthetic_topics(ms, site_id).to_set()
            &&& text::increasing(y)
            &&& y.to_set() == all_distribute_topics(cs, site_id).to_set()
            &&& boot == #[trigger] (x + y) + parent_topics(parents, active_power_tail(), site_id)
                + parent_topics(parents, state_of_charge_tail(), site_id) + seq![
                site_channel(site_id, "target_active_power/watts"@),
                site_channel(site_id, "event_active/none"@),
            ]
        };
    assert(x.to_set().contains(topic));
    let k = x.index_of(topic);
    assert(boot[k] == topic);
}

/// Every topic that the split of a distribute command reads is subscribed at
/// boot: each child's operating state and state of charge, and the limits and
/// active power of a guard.
pub proof fn lemma_distribute_inputs_subscribed<N>(
    boot: Seq<Seq<char>>,
    spec: AsyncApiSpec<N>,
    site_id: Seq<char>,
    i: int,
    d: DistributeBinding<N>,
    topic: Seq<char>,
)
    requires
        is_boot_list(boot, spec, site_id),
        0 <= i < commands_of(spec.x_command_source.entries()).len(),
        commands_of(spec.x_command_source.entries())[i].source.binding
            == ProtocolBinding::Distribute(d),
        guard_topics(d, site_id).contains(topic) || exists|k: int|
            0 <= k < d.children@.len() && child_topics(
                #[trigger] d.children@[k],
                site_id,
            ).contains(topic),
    ensures
        boot.contains(topic),
{
    let ms = measurements_of(spec.x_protocol_source.entries());
    let cs = commands_of(spec.x_command_source.entries());
    let parents = parents_of(spec.x_command_source.entries());
    let kids = children_topics(d.children@, site_id);
    let here = kids + guard_topics(d, site_id);
    if guard_topics(d, site_id).contains(topic) {
        let k = guard_topics(d, site_id).index_of(topic);
        assert(here[kids.len() + k] == topic);
    } else {
        let k = choose|k: int|
            0 <= k < d.children@.len() && child_topics(
                #[trigger] d.children@[k],
                site_id,
            ).contains(topic);
        lemma_in_children(d.children@, k, topic, site_id);
        let j = kids.index_of(topic);
        assert(here[j] == topic);
    }
    lemma_in_all_distribute(cs, i, d, topic, site_id);
    let (x, y) = choose|x: Seq<Seq<char>>, y: Seq<Seq<char>>|
        {
            &&& text::increasing(x)
            &&& x.to_set() == all_synthetic_topics(ms, site_id).to_set()
            &&& text::increasing(y)
            &&& y.to_set() == all_distribute_topics(cs, site_id).to_set()
            &&& boot == #[trigger] (x + y) + parent_topics(parents, active_power_tail(), site_id)
                + parent_topics(parents, state_of_charge_tail(), site_id) + seq![
                site_channel(site_id, "target_active_power/watts"@),
                site_channel(site_id, "event_active/none"@),
            ]
        };
    assert(y.to_set().contains(topic));
    let k = y.index_of(topic);
    assert(boot[x.len() + k] == topic);
}

/// A text in which the site placeholder cannot begin.
pub open spec fn is_plain(s: Seq<char>) -> bool {
    forall|i: int| 0 <= i < s.len() ==> #[trigger] s[i] != '{'
}

/// The topic that a parent is subscribed under is the topic of its
/// measurement, for an id and a tail without braces.
pub proof fn lemma_parent_topic(id: Seq<char>, tail: Seq<char>, site_id: Seq<char>)
    requires
        is_plain(id),
        is_plain(tail),
    ensures
        parent_topic(id, tail, site_id) == "sites/"@ + site_id + "/devices/"@ + id + tail,
{
    reveal_strlit("sites/");
    reveal_strlit("{site_id}");
    reveal_strlit("/devices/");
    reveal_strlit("sites/{site_id}/devices/");
    let pattern = "{site_id}"@;
    let rest = "/devices/"@ + id + tail;
    let whole = "sites/{site_id}/devices/"@ + id + tail;
    assert(whole =~= "sites/"@ + (pattern + rest));
    text::lemma_replaced_after_prefix("sites/"@, pattern + rest, pattern, site_id);
    assert((pattern + rest).take(pattern.len() as int) =~= pattern);
    assert((pattern + rest).skip(pattern.len() as int) =~= rest);
    assert forall|i: int| 0 <= i < rest.len() implies #[trigger] rest[i] != pattern[0] by {
        if i < 9 {
            assert(rest[i] == "/devices/"@[i]);
        } else if i < 9 + id.len() {
            assert(rest[i] == id[i - 9]);
        } else {
            assert(rest[i] == tail[i - 9 - id.len()]);
        }
    }
    text::lemma_replaced_after_prefix(rest, Seq::empty(), pattern, site_id);
    assert(rest + Seq::empty() =~= rest);
    assert(parent_topic(id, tail, site_id) =~= "sites/"@ + site_id + "/devices/"@ + id + tail);
}

proof fn lemma_in_parents<N>(devices: Seq<(Seq<char>, StringMap<CommandSource<N>>)>, i: int)
    requires
        0 <= i < devices.len(),
        has_distribute(devices[i].1.entries()),
    ensures
        parents_of(devices).contains(devices[i].0),
    decreases devices.len(),
{
    let init = parents_of(devices.drop_last());
    let all = parents_of(devices);
    if i == devices.len() - 1 {
        assert(all[init.len() as int] == devices[i].0);
    } else {
        lemma_in_parents(devices.drop_last(), i);
        let k = init.index_of(devices[i].0);
        assert(all[k] == devices[i].0);
    }
}

proof fn lemma_key_has_command<N>(commands: Seq<(Seq<char>, CommandSource<N>)>, key: Seq<char>)
    requires
        bindings_by_key(commands).dom().contains(key),
    ensures
        exists|i: int|
            {
                &&& 0 <= i < commands.len()
                &&& (#[trigger] commands[i]).1.binding == bindings_by_key(commands)[key]
                &&& dispatch::key_of(commands[i].1.verb@, commands[i].1.target@) == key
            },
    decreases commands.len(),
{
    let last = commands.last().1;
    let n = commands.len() - 1;
    if dispatch::key_of(last.verb@, last.target@) == key {
        assert(commands[n].1.binding == bindings_by_key(commands)[key]);
    } else {
        let init = commands.drop_last();
        lemma_key_has_command(init, key);
        let i = choose|i: int|
            {
                &&& 0 <= i < init.len()
                &&& (#[trigger] init[i]).1.binding == bindings_by_key(init)[key]
                &&& dispatch::key_of(init[i].1.verb@, init[i].1.target@) == key
            };
        assert(commands[i].1.binding == bindings_by_key(commands)[key]);
    }
}

/// Every key of the dispatch lookup comes from a command of that device with
/// that verb and target, and has that command's binding.
pub proof fn lemma_lookup_comes_from_command<N>(
    lookup: Map<Seq<char>, StringMap<ProtocolBinding<N>>>,
    sources: StringMap<StringMap<CommandSource<N>>>,
    device_id: Seq<char>,
    key: Seq<char>,
)
    requires
        is_lookup_of(lookup, sources@),
        string_map::nested(lookup, device_id, key) is Some,
    ensures
        sources@.dom().contains(device_id),
        exists|i: int|
            {
                &&& 0 <= i < sources@[device_id].entries().len()
                &&& dispatch::key_of(
                    (#[trigger] sources@[device_id].entries()[i]).1.verb@,
                    sources@[device_id].entries()[i].1.target@,
                ) == key
                &&& types::same_binding(
                    string_map::nested(lookup, device_id, key)->0,
                    sources@[device_id].entries()[i].1.binding,
                )
            },
{
    assert(lookup.dom().contains(device_id));
    let commands = sources@[device_id].entries();
    assert(lookup[device_id]@.dom().contains(key));
    lemma_key_has_command(commands, key);
    let i = choose|i: int|
        {
            &&& 0 <= i < commands.len()
            &&& (#[trigger] commands[i]).1.binding == bindings_by_key(commands)[key]
            &&& dispatch::key_of(commands[i].1.verb@, commands[i].1.target@) == key
        };
    assert(dispatch::key_of(commands[i].1.verb@, commands[i].1.target@) == key);
}

/// The state of charge that site distribution reads of a module is subscribed
/// at boot: a device whose command in the lookup is a distribute binding is a
/// parent, and its topic is in the list.
pub proof fn lemma_module_charge_subscribed<N>(
    boot: Seq<Seq<char>>,
    spec: AsyncApiSpec<N>,
    lookup: Map<Seq<char>, StringMap<ProtocolBinding<N>>>,
    site_id: Seq<char>,
    device_id: Seq<char>,
    key: Seq<char>,
)
    requires
        is_boot_list(boot, spec, site_id),
        is_lookup_of(lookup, spec.x_command_source@),
        string_map::nested(lookup, device_id, key) matches Some(b) && b is Distribute,
        string_map::distinct_keys(spec.x_command_source.entries()),
        is_plain(device_id),
    ensures
        boot.contains(measurement_topic(site_id, device_id, "state_of_charge"@, "percent"@)),
{
    let devices = spec.x_command_source.entries();
    let sources = spec.x_command_source@;
    lemma_lookup_comes_from_command(lookup, spec.x_command_source, device_id, key);
    let commands = sources[device_id].entries();
    let i = choose|i: int|
        {
            &&& 0 <= i < commands.len()
            &&& dispatch::key_of((#[trigger] commands[i]).1.verb@, commands[i].1.target@) == key
            &&& types::same_binding(
                string_map::nested(lookup, device_id, key)->0,
                commands[i].1.binding,
            )
        };
    assert(commands[i].1.binding is Distribute);
    string_map::lemma_map_of_domain(devices, device_id);
    let k = choose|k: int| 0 <= k < devices.len() && (#[trigger] devices[k]).0 == device_id;
    string_map::lemma_map_of_entry(devices, k);
    assert(devices[k].1 == sources[device_id]);
    lemma_in_parents(devices, k);
    let parents = parents_of(devices);
    let p = parents.index_of(device_id);
    let tails = parent_topics(parents, state_of_charge_tail(), site_id);
    assert(tails[p] == parent_topic(device_id, state_of_charge_tail(), site_id));
    assert(is_plain(state_of_charge_tail())) by {
        reveal_strlit("/measurements/state_of_charge/percent");
    }
    lemma_parent_topic(device_id, state_of_charge_tail(), site_id);
    assert(tails[p] == measurement_topic(site_id, device_id, "state_of_charge"@, "percent"@)) by {
        reveal_strlit("/measurements/state_of_charge/percent");
        reveal_strlit("/measurements/");
        reveal_strlit("state_of_charge");
        reveal_strlit("/");
        reveal_strlit("percent");
        assert("/measurements/state_of_charge/percent"@ =~= "/measurements/"@ + "state_of_charge"@
            + "/"@ + "percent"@);
        assert(tails[p] =~= measurement_topic(
            site_id,
            device_id,
            "state_of_charge"@,
            "percent"@,
        ));
    }
    let ms = measurements_of(spec.x_protocol_source.entries());
    let cs = commands_of(devices);
    let (x, y) = choose|x: Seq<Seq<char>>, y: Seq<Seq<char>>|
        {
            &&& text::increasing(x)
            &&& x.to_set() == all_synthetic_topics(ms, site_id).to_set()
            &&& text::increasing(y)
            &&& y.to_set() == all_distribute_topics(cs, site_id).to_set()
            &&& boot == #[trigger] (x + y) + parent_topics(parents, active_power_tail(), site_id)
                + tails + seq![
                site_channel(site_id, "target_active_power/watts"@),
                site_channel(site_id, "event_active/none"@),
            ]
        };
    let n = (x + y).len() + parent_topics(parents, active_power_tail(), site_id).len();
    assert(boot[n + p] == tails[p]);
}

} // verus!
