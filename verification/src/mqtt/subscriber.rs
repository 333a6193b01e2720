//! What the gateway listens to and where a message goes.

use crate::app;
use crate::dispatch::topic;
use crate::dispatch::topic::parse_command_topic;
use crate::scalar::Scalar;
use crate::synthetic::cache;
use crate::synthetic::cache::InputCache;
use crate::text;
use crate::text::same_text;
use vstd::prelude::*;

verus! {

/// Quality of service of the topology beacon.
pub const BEACON_QOS: i32 = 1;

/// Quality of service of measurements.
pub const MEASUREMENT_QOS: i32 = 0;

/// How many messages wait at most.
pub const STREAM_CAPACITY: usize = 1024;

/// The topic of the topology beacon.
pub open spec fn beacon_topic() -> Seq<char> {
    "system/topology_changed"@
}

/// Topics and qualities of service, with the topics as sequences.
pub open spec fn filters(subscriptions: Seq<(String, i32)>) -> Seq<(Seq<char>, i32)> {
    Seq::new(subscriptions.len(), |i: int| (subscriptions[i].0@, subscriptions[i].1))
}

/// The subscriptions to make: the beacon, then every input.
pub fn subscriptions(input_topics: &[String]) -> (r: Vec<(String, i32)>)
    ensures
        filters(r@) == seq![(beacon_topic(), BEACON_QOS)] + Seq::new(
            input_topics@.len(),
            |i: int| (input_topics@[i]@, MEASUREMENT_QOS),
        ),
{
    let mut r: Vec<(String, i32)> = Vec::new();
    r.push(("system/topology_changed".to_owned(), BEACON_QOS));
    let mut i: usize = 0;
    while i < input_topics.len()
        invariant
            i <= input_topics@.len(),
            r@.len() == i + 1,
            r@[0].0@ == beacon_topic(),
            r@[0].1 == BEACON_QOS,
            forall|k: int|
                0 <= k < i ==> (#[trigger] input_topics@[k])@ == r@[k + 1].0@ && r@[k + 1].1
                    == MEASUREMENT_QOS,
        decreases input_topics@.len() - i,
    {
        r.push((input_topics[i].clone(), MEASUREMENT_QOS));
        i = i + 1;
    }
    let ghost expected = seq![(beacon_topic(), BEACON_QOS)] + Seq::new(
        input_topics@.len(),
        |i: int| (input_topics@[i]@, MEASUREMENT_QOS),
    );
    assert forall|k: int| 0 <= k < expected.len() implies #[trigger] filters(r@)[k]
        == expected[k] by {
        if k > 0 {
            assert(input_topics@[k - 1]@ == r@[k].0@);
        }
    }
    assert(filters(r@) =~= expected);
    r
}

/// The filter of a site's commands: any device, any verb, target and unit.
pub open spec fn command_filter_text(site_id: Seq<char>) -> Seq<char> {
    "sites/"@ + site_id + "/devices/+/commands/+/+/+"@
}

/// The filter of a site's commands.
pub fn command_filter(site_id: &str) -> (r: String)
    ensures
        r@ == command_filter_text(site_id@),
{
    let mut r = "sites/".to_owned();
    r.append(site_id);
    r.append("/devices/+/commands/+/+/+");
    r
}

/// Where a message goes.
#[derive(Debug, Clone, Copy, PartialEq, Eq, Structural)]
pub enum Route {
    /// The topology has changed.
    Beacon,
    /// A command to one of the site's devices.
    Command,
    /// A sample for the cache.
    Sample,
}

/// Where a topic's messages go.
pub open spec fn route_of(topic: Seq<char>, site_id: Seq<char>) -> Route {
    if topic == beacon_topic() {
        Route::Beacon
    } else if topic::is_command(text::pieces(topic, '/'), site_id) {
        Route::Command
    } else {
        Route::Sample
    }
}

/// Where a topic's messages go.
pub fn route(topic: &str, site_id: &str) -> (r: Route)
    ensures
        r == route_of(topic@, site_id@),
{
    if same_text(topic, "system/topology_changed") {
        return Route::Beacon;
    }
    match parse_command_topic(topic, site_id) {
        Some(_) => Route::Command,
        None => Route::Sample,
    }
}

/// Count one more beacon; the count starts over when it runs out.
pub fn next_beacon(count: u64) -> (r: u64)
    ensures
        r == (if count == u64::MAX {
            0
        } else {
            count + 1
        }),
        r == (count + 1) % 0x1_0000_0000_0000_0000,
{
    if count == u64::MAX {
        0
    } else {
        count + 1
    }
}

/// Put a sample into the cache. A payload that brought none is dropped.
pub fn cache_float_sample<N: Scalar>(cache: &mut InputCache, topic: &str, sample: Option<N>)
    ensures
        final(cache)@ == (match sample {
            Some(value) => old(cache)@.insert(topic@, value.to_bits_spec()),
            None => old(cache)@,
        }),
        sample matches Some(value) ==> cache::reading::<N>(final(cache)@, topic@) == Some(value),
{
    if let Some(value) = sample {
        cache.insert(topic.to_owned(), value);
    }
}

// ---------------------------------------------------------------------
// Laws
// ---------------------------------------------------------------------

/// A measurement topic made of segments has seven pieces: the fixed words in
/// their places, and what it was made of.
pub proof fn lemma_measurement_topic_pieces(
    site_id: Seq<char>,
    device_id: Seq<char>,
    measurement: Seq<char>,
    unit: Seq<char>,
)
    requires
        topic::is_segment(site_id),
        topic::is_segment(device_id),
        topic::is_segment(measurement),
        topic::is_segment(unit),
    ensures
        text::pieces(app::measurement_topic(site_id, device_id, measurement, unit), '/') == seq![
            "sites"@,
            site_id,
            "devices"@,
            device_id,
            "measurements"@,
            measurement,
            unit,
        ],
{
    reveal_strlit("sites");
    reveal_strlit("sites/");
    reveal_strlit("devices");
    reveal_strlit("/devices/");
    reveal_strlit("measurements");
    reveal_strlit("/measurements/");
    reveal_strlit("/");
    let slash = seq!['/'];
    let r5 = measurement + slash + unit;
    let r4 = "measurements"@ + slash + r5;
    let r3 = device_id + slash + r4;
    let r2 = "devices"@ + slash + r3;
    let r1 = site_id + slash + r2;
    let r0 = "sites"@ + slash + r1;
    assert("sites/"@ =~= "sites"@ + slash);
    assert("/devices/"@ =~= slash + "devices"@ + slash);
    assert("/measurements/"@ =~= slash + "measurements"@ + slash);
    assert("/"@ =~= slash);
    assert(app::measurement_topic(site_id, device_id, measurement, unit) =~= r0);
    topic::lemma_pieces_of_segment(unit);
    topic::lemma_pieces_after_segment(measurement, unit);
    topic::lemma_pieces_after_segment("measurements"@, r5);
    topic::lemma_pieces_after_segment(device_id, r4);
    topic::lemma_pieces_after_segment("devices"@, r3);
    topic::lemma_pieces_after_segment(site_id, r2);
    topic::lemma_pieces_after_segment("sites"@, r1);
    assert(text::pieces(r0, '/') =~= seq![
        "sites"@,
        site_id,
        "devices"@,
        device_id,
        "measurements"@,
        measurement,
        unit,
    ]);
}

/// Every measurement of a site is a sample: none of them is taken for a beacon
/// or a command.
pub proof fn lemma_measurements_are_samples(
    site_id: Seq<char>,
    device_id: Seq<char>,
    measurement: Seq<char>,
    unit: Seq<char>,
)
    requires
        topic::is_segment(site_id),
        topic::is_segment(device_id),
        topic::is_segment(measurement),
        topic::is_segment(unit),
    ensures
        route_of(app::measurement_topic(site_id, device_id, measurement, unit), site_id)
            == Route::Sample,
{
    lemma_measurement_topic_pieces(site_id, device_id, measurement, unit);
    reveal_strlit("commands");
    reveal_strlit("measurements");
    reveal_strlit("sites/");
    reveal_strlit("system/topology_changed");
    let t = app::measurement_topic(site_id, device_id, measurement, unit);
    assert("commands"@.len() != "measurements"@.len());
    assert(t[1] == "sites/"@[1]);
}

/// Two measurements that are made of segments share a topic only if they are
/// the same.
pub proof fn lemma_measurement_topics_differ(
    site_id: Seq<char>,
    a: (Seq<char>, Seq<char>, Seq<char>),
    b: (Seq<char>, Seq<char>, Seq<char>),
)
    requires
        topic::is_segment(site_id),
        topic::is_segment(a.0),
        topic::is_segment(a.1),
        topic::is_segment(a.2),
        topic::is_segment(b.0),
        topic::is_segment(b.1),
        topic::is_segment(b.2),
        a != b,
    ensures
        app::measurement_topic(site_id, a.0, a.1, a.2) != app::measurement_topic(
            site_id,
            b.0,
            b.1,
            b.2,
        ),
{
    lemma_measurement_topic_pieces(site_id, a.0, a.1, a.2);
    lemma_measurement_topic_pieces(site_id, b.0, b.1, b.2);
    let p = text::pieces(app::measurement_topic(site_id, a.0, a.1, a.2), '/');
    let q = text::pieces(app::measurement_topic(site_id, b.0, b.1, b.2), '/');
    if p == q {
        assert(p[3] == a.0 && q[3] == b.0);
        assert(p[5] == a.1 && q[5] == b.1);
        assert(p[6] == a.2 && q[6] == b.2);
    }
}

/// A command to one of the site's devices reaches the command handler.
pub proof fn lemma_commands_are_handled(
    site_id: Seq<char>,
    device_id: Seq<char>,
    verb: Seq<char>,
    target: Seq<char>,
    unit: Seq<char>,
)
    requires
        topic::is_segment(site_id),
        topic::is_segment(device_id),
        topic::is_segment(verb),
        topic::is_segment(target),
        topic::is_segment(unit),
        device_id.len() > 0,
        verb.len() > 0,
        target.len() > 0,
    ensures
        route_of(topic::command_topic(site_id, device_id, verb, target, unit), site_id)
            == Route::Command,
{
    topic::lemma_command_topic_round_trip(site_id, device_id, verb, target, unit, site_id);
    reveal_strlit("sites/");
    reveal_strlit("system/topology_changed");
    let t = topic::command_topic(site_id, device_id, verb, target, unit);
    assert(t[1] == "sites/"@[1]);
}

/// The topology beacon has a topic of its own. What is neither that nor a command is a
/// sample.
pub proof fn lemma_routes(topic: Seq<char>, site_id: Seq<char>)
    ensures
        route_of(topic, site_id) is Beacon <==> topic == "system/topology_changed"@,
        route_of(topic, site_id) is Command <==> topic != "system/topology_changed"@
            && topic::is_command(text::pieces(topic, '/'), site_id),
{
}

/// The filter of a site's commands is a command topic with a wildcard for the device, the
/// verb, the target and the unit.
pub proof fn lemma_filter_takes_every_command(site_id: Seq<char>)
    requires
        topic::is_segment(site_id),
    ensures
        text::pieces(command_filter_text(site_id), '/') == seq![
            "sites"@,
            site_id,
            "devices"@,
            "+"@,
            "commands"@,
            "+"@,
            "+"@,
            "+"@,
        ],
{
    reveal_strlit("+");
    reveal_strlit("/");
    reveal_strlit("/devices/");
    reveal_strlit("/commands/");
    reveal_strlit("/devices/+/commands/+/+/+");
    assert("/devices/+/commands/+/+/+"@ =~= "/devices/"@ + "+"@ + "/commands/"@ + "+"@ + "/"@ + "+"@
        + "/"@ + "+"@);
    assert(command_filter_text(site_id) =~= topic::command_topic(
        site_id,
        "+"@,
        "+"@,
        "+"@,
        "+"@,
    ));
    topic::lemma_command_topic_pieces(site_id, "+"@, "+"@, "+"@, "+"@);
}

} // verus!
