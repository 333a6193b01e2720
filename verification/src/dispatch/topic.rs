//! Topics of commands and of their lifecycle events.

use crate::text;
use crate::text::{same_text, split_text};
use vstd::prelude::*;

verus! {

/// Which device a command topic is for, and which command it carries.
pub struct CommandTopic<'t> {
    /// The device.
    pub device_id: &'t str,
    /// The command verb.
    pub verb: &'t str,
    /// The command target within the device.
    pub target: &'t str,
}

/// The pieces of a command topic of a site: the fixed words in their places,
/// a device, a verb and a target that are not empty, and a unit that is not
/// looked at. No piece may be missing and none may follow.
pub open spec fn is_command(p: Seq<Seq<char>>, site_id: Seq<char>) -> bool {
    &&& p.len() == 8
    &&& p[0] == "sites"@
    &&& p[1] == site_id
    &&& p[2] == "devices"@
    &&& p[3].len() > 0
    &&& p[4] == "commands"@
    &&& p[5].len() > 0
    &&& p[6].len() > 0
}

/// Read a command topic of our site.
pub fn parse_command_topic<'t>(topic: &'t str, site_id: &str) -> (r: Option<CommandTopic<'t>>)
    ensures
        match r {
            Some(c) => {
                &&& is_command(text::pieces(topic@, '/'), site_id@)
                &&& c.device_id@ == text::pieces(topic@, '/')[3]
                &&& c.verb@ == text::pieces(topic@, '/')[5]
                &&& c.target@ == text::pieces(topic@, '/')[6]
            },
            None => !is_command(text::pieces(topic@, '/'), site_id@),
        },
{
    let parts = split_text(topic, '/');
    if parts.len() != 8 {
        return None;
    }
    let ghost p = text::pieces(topic@, '/');
    assert(forall|i: int| 0 <= i < 7 ==> parts@[i]@ == p[i]);
    if !same_text(parts[0], "sites") || !same_text(parts[1], site_id) || !same_text(
        parts[2],
        "devices",
    ) {
        return None;
    }
    let device_id: &'t str = parts[3];
    if device_id.is_empty() || !same_text(parts[4], "commands") {
        return None;
    }
    let verb: &'t str = parts[5];
    let target: &'t str = parts[6];
    if verb.is_empty() || target.is_empty() {
        return None;
    }
    Some(CommandTopic { device_id, verb, target })
}

/// The topic of a command.
pub open spec fn command_topic(
    site_id: Seq<char>,
    device_id: Seq<char>,
    verb: Seq<char>,
    target: Seq<char>,
    unit: Seq<char>,
) -> Seq<char> {
    "sites/"@ + site_id + "/devices/"@ + device_id + "/commands/"@ + verb + "/"@ + target + "/"@
        + unit
}

/// The topic of a device's lifecycle events.
pub open spec fn event_topic_text(site_id: Seq<char>, device_id: Seq<char>) -> Seq<char> {
    "sites/"@ + site_id + "/devices/"@ + device_id + "/events/dispatch_state"@
}

/// The topic of a device's lifecycle events.
pub fn event_topic(site_id: &str, device_id: &str) -> (r: String)
    ensures
        r@ == event_topic_text(site_id@, device_id@),
{
    let mut r = "sites/".to_owned();
    r.append(site_id);
    r.append("/devices/");
    r.append(device_id);
    r.append("/events/dispatch_state");
    r
}

/// A text without slashes.
pub open spec fn is_segment(s: Seq<char>) -> bool {
    forall|i: int| 0 <= i < s.len() ==> #[trigger] s[i] != '/'
}

/// A slash after a segment ends a piece.
pub proof fn lemma_pieces_after_segment(a: Seq<char>, rest: Seq<char>)
    requires
        is_segment(a),
    ensures
        text::pieces(a + seq!['/'] + rest, '/') == seq![a] + text::pieces(rest, '/'),
{
    let s = a + seq!['/'] + rest;
    assert forall|k: int| 0 <= k < a.len() implies #[trigger] s[k] != '/' by {
        assert(s[k] == a[k]);
    }
    text::lemma_first_index(s, '/', a.len() as int);
    assert(s.take(a.len() as int) =~= a);
    assert(s.skip(a.len() as int + 1) =~= rest);
}

/// A segment alone is one piece.
pub proof fn lemma_pieces_of_segment(a: Seq<char>)
    requires
        is_segment(a),
    ensures
        text::pieces(a, '/') == seq![a],
{
    text::lemma_first_index(a, '/', a.len() as int);
}

/// The pieces of a command topic made of segments.
pub proof fn lemma_command_topic_pieces(
    site_id: Seq<char>,
    device_id: Seq<char>,
    verb: Seq<char>,
    target: Seq<char>,
    unit: Seq<char>,
)
    requires
        is_segment(site_id),
        is_segment(device_id),
        is_segment(verb),
        is_segment(target),
        is_segment(unit),
    ensures
        text::pieces(command_topic(site_id, device_id, verb, target, unit), '/') == seq![
            "sites"@,
            site_id,
            "devices"@,
            device_id,
            "commands"@,
            verb,
            target,
            unit,
        ],
{
    reveal_strlit("sites");
    reveal_strlit("sites/");
    reveal_strlit("devices");
    reveal_strlit("/devices/");
    reveal_strlit("commands");
    reveal_strlit("/commands/");
    reveal_strlit("/");
    let slash = seq!['/'];
    let r7 = unit;
    let r6 = target + slash + r7;
    let r5 = verb + slash + r6;
    let r4 = "commands"@ + slash + r5;
    let r3 = device_id + slash + r4;
    let r2 = "devices"@ + slash + r3;
    let r1 = site_id + slash + r2;
    let r0 = "sites"@ + slash + r1;
    assert("sites/"@ =~= "sites"@ + slash);
    assert("/devices/"@ =~= slash + "devices"@ + slash);
    assert("/commands/"@ =~= slash + "commands"@ + slash);
    assert("/"@ =~= slash);
    assert(command_topic(site_id, device_id, verb, target, unit) =~= r0);
    lemma_pieces_of_segment(r7);
    lemma_pieces_after_segment(target, r7);
    lemma_pieces_after_segment(verb, r6);
    lemma_pieces_after_segment("commands"@, r5);
    lemma_pieces_after_segment(device_id, r4);
    lemma_pieces_after_segment("devices"@, r3);
    lemma_pieces_after_segment(site_id, r2);
    lemma_pieces_after_segment("sites"@, r1);
    assert(text::pieces(r0, '/') =~= seq![
        "sites"@,
        site_id,
        "devices"@,
        device_id,
        "commands"@,
        verb,
        target,
        unit,
    ]);
}

/// A command topic made of segments is read back: it is a command of its own
/// site, and of no other, with the device, verb and target it was made of.
pub proof fn lemma_command_topic_round_trip(
    site_id: Seq<char>,
    device_id: Seq<char>,
    verb: Seq<char>,
    target: Seq<char>,
    unit: Seq<char>,
    other_site: Seq<char>,
)
    requires
        is_segment(site_id),
        is_segment(device_id),
        is_segment(verb),
        is_segment(target),
        is_segment(unit),
        device_id.len() > 0,
        verb.len() > 0,
        target.len() > 0,
    ensures
        ({
            let p = text::pieces(command_topic(site_id, device_id, verb, target, unit), '/');
            &&& is_command(p, site_id)
            &&& p[3] == device_id
            &&& p[5] == verb
            &&& p[6] == target
            &&& other_site != site_id ==> !is_command(p, other_site)
        }),
{
    lemma_command_topic_pieces(site_id, device_id, verb, target, unit);
}

/// Nothing else is a command: a topic that is taken for one is the topic of a command of
/// that site, made of the device, the verb and the target that are read of it, none of
/// them empty, and a unit.
pub proof fn lemma_commands_have_command_topics(topic: Seq<char>, site_id: Seq<char>)
    requires
        is_command(text::pieces(topic, '/'), site_id),
    ensures
        ({
            let p = text::pieces(topic, '/');
            &&& p.len() == 8
            &&& p[3].len() > 0 && p[5].len() > 0 && p[6].len() > 0
            &&& topic == "sites/"@ + site_id + "/devices/"@ + p[3] + "/commands/"@ + p[5] + "/"@
                + p[6] + "/"@ + p[7]
        }),
{
    reveal_strlit("sites");
    reveal_strlit("sites/");
    reveal_strlit("devices");
    reveal_strlit("/devices/");
    reveal_strlit("commands");
    reveal_strlit("/commands/");
    reveal_strlit("/");
    let p = text::pieces(topic, '/');
    let slash = seq!['/'];
    text::lemma_pieces_make_the_text(topic, '/');
    reveal_with_fuel(text::joined, 9);
    let q1 = p.skip(1);
    let q2 = q1.skip(1);
    let q3 = q2.skip(1);
    let q4 = q3.skip(1);
    let q5 = q4.skip(1);
    let q6 = q5.skip(1);
    let q7 = q6.skip(1);
    assert(text::joined(q7, '/') == p[7]);
    assert(text::joined(q6, '/') == p[6] + slash + p[7]);
    assert(text::joined(q5, '/') == p[5] + slash + text::joined(q6, '/'));
    assert(text::joined(q4, '/') == p[4] + slash + text::joined(q5, '/'));
    assert(text::joined(q3, '/') == p[3] + slash + text::joined(q4, '/'));
    assert(text::joined(q2, '/') == p[2] + slash + text::joined(q3, '/'));
    assert(text::joined(q1, '/') == p[1] + slash + text::joined(q2, '/'));
    assert(topic == p[0] + slash + text::joined(q1, '/'));
    assert("sites/"@ =~= "sites"@ + slash);
    assert("/devices/"@ =~= slash + "devices"@ + slash);
    assert("/commands/"@ =~= slash + "commands"@ + slash);
    assert("/"@ =~= slash);
    assert(topic =~= "sites/"@ + site_id + "/devices/"@ + p[3] + "/commands/"@ + p[5] + "/"@ + p[6]
        + "/"@ + p[7]);
}

/// The events of a device have a topic of their own below the device, which is no
/// command's.
pub proof fn lemma_event_topic_pieces(site_id: Seq<char>, device_id: Seq<char>)
    requires
        is_segment(site_id),
        is_segment(device_id),
    ensures
        text::pieces(event_topic_text(site_id, device_id), '/') == seq![
            "sites"@,
            site_id,
            "devices"@,
            device_id,
            "events"@,
            "dispatch_state"@,
        ],
        !is_command(text::pieces(event_topic_text(site_id, device_id), '/'), site_id),
{
    reveal_strlit("sites");
    reveal_strlit("sites/");
    reveal_strlit("devices");
    reveal_strlit("/devices/");
    reveal_strlit("events");
    reveal_strlit("dispatch_state");
    reveal_strlit("/events/dispatch_state");
    let slash = seq!['/'];
    let r5 = "dispatch_state"@;
    let r4 = "events"@ + slash + r5;
    let r3 = device_id + slash + r4;
    let r2 = "devices"@ + slash + r3;
    let r1 = site_id + slash + r2;
    let r0 = "sites"@ + slash + r1;
    assert("sites/"@ =~= "sites"@ + slash);
    assert("/devices/"@ =~= slash + "devices"@ + slash);
    assert("/events/dispatch_state"@ =~= slash + "events"@ + slash + "dispatch_state"@);
    assert(event_topic_text(site_id, device_id) =~= r0);
    lemma_pieces_of_segment(r5);
    lemma_pieces_after_segment("events"@, r5);
    lemma_pieces_after_segment(device_id, r4);
    lemma_pieces_after_segment("devices"@, r3);
    lemma_pieces_after_segment(site_id, r2);
    lemma_pieces_after_segment("sites"@, r1);
    assert(text::pieces(r0, '/') =~= seq![
        "sites"@,
        site_id,
        "devices"@,
        device_id,
        "events"@,
        "dispatch_state"@,
    ]);
}

} // verus!
