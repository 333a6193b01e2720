//! Messages for the broker.

use crate::error::{failure_of, failure_of3, GatewayError};
use crate::scalar::Scalar;
use crate::text;
use crate::text::contains_text;
use vstd::prelude::*;

verus! {

/// One message to publish.
#[derive(Debug)]
pub struct Publication {
    /// Topic.
    pub topic: String,
    /// Payload, a JSON text.
    pub payload: String,
    /// Quality of service.
    pub qos: i32,
    /// Whether the broker keeps it for late subscribers.
    pub retained: bool,
}

/// Payload of a float measurement.
#[derive(Debug)]
pub struct FloatSample<N> {
    /// Time of the reading, in ISO 8601 notation.
    pub ts: String,
    /// Value in engineering units.
    pub value: N,
}

/// Quality of service of a measurement that was read from a device.
pub const READING_QOS: i32 = 1;

/// One reading to publish.
#[derive(Debug)]
pub struct Reading<N> {
    /// Topic.
    pub topic: String,
    /// Sample.
    pub sample: FloatSample<N>,
    /// Quality of service.
    pub qos: i32,
}

/// The message that publishes a reading.
pub fn publish_measurement<N: Scalar>(topic: &str, now: &str, value: N) -> (r: Reading<N>)
    ensures
        r.topic@ == topic@,
        r.sample.ts@ == now@,
        r.sample.value == value,
        r.qos == READING_QOS,
{
    Reading {
        topic: topic.to_owned(),
        sample: FloatSample { ts: now.to_owned(), value },
        qos: READING_QOS,
    }
}

/// The payload of a computed sample.
pub open spec fn sample_text<N: Scalar>(ts: Seq<char>, value: N) -> Seq<char> {
    "{\"ts\":\""@ + ts + "\",\"value\":"@ + value.render_spec() + "}"@
}

/// Write the payload of a computed sample.
pub fn sample_payload<N: Scalar>(ts: &str, value: N) -> (r: String)
    ensures
        r@ == sample_text(ts@, value),
{
    let mut r = "{\"ts\":\"".to_owned();
    r.append(ts);
    r.append("\",\"value\":");
    r.append(value.render().as_str());
    r.append("}");
    r
}

// ---------------------------------------------------------------------
// Connecting
// ---------------------------------------------------------------------

/// Return code of a broker that knows the user but does not let them in.
pub const CONNACK_NOT_AUTHORIZED: i32 = 5;

/// Return code of a broker that does not accept user name and password.
pub const CONNACK_BAD_CREDENTIALS: i32 = 4;

/// A return code of the broker, and how it is shown.
#[derive(Debug)]
pub struct ConnectReturn {
    /// Return code.
    pub code: i32,
    /// How it is shown.
    pub shown: String,
}

/// Whether a return code means that the credentials were not accepted.
pub open spec fn is_refusal(code: i32) -> bool {
    code == CONNACK_NOT_AUTHORIZED || code == CONNACK_BAD_CREDENTIALS
}

/// What is said of a failed connection. A refusal of the credentials says
/// `not_authorized`, whether the broker told it by return code, dropped the
/// connection without one, or the error only reads so.
pub open spec fn connect_error(
    returned: Option<ConnectReturn>,
    dropped: bool,
    raw: Seq<char>,
) -> Seq<char> {
    if returned matches Some(c) && is_refusal(c.code) {
        "mqtt connect: not_authorized \u{2014} bad credentials ("@ + returned->0.shown@ + ")"@
    } else if (returned is None && dropped) || text::occurs(raw, "Not authorized"@)
        || text::occurs(raw, "Bad User Name or Password"@) {
        "mqtt connect: not_authorized \u{2014} bad credentials: "@ + raw
    } else {
        "connect to broker: "@ + raw
    }
}

/// The error of a failed connection, from the broker's return code, if it gave
/// one, whether it dropped the connection, and the client's own text.
pub fn classify_connect_error(
    returned: &Option<ConnectReturn>,
    dropped: bool,
    raw: &str,
) -> (r: GatewayError)
    ensures
        r.message@ == connect_error(*returned, dropped, raw@),
{
    if let Some(c) = returned {
        if c.code == CONNACK_NOT_AUTHORIZED || c.code == CONNACK_BAD_CREDENTIALS {
            return failure_of3(
                "mqtt connect: not_authorized \u{2014} bad credentials (",
                c.shown.as_str(),
                ")",
            );
        }
    }
    let unexplained = returned.is_none() && dropped;
    if unexplained || contains_text(raw, "Not authorized") || contains_text(
        raw,
        "Bad User Name or Password",
    ) {
        failure_of("mqtt connect: not_authorized \u{2014} bad credentials: ", raw)
    } else {
        failure_of("connect to broker: ", raw)
    }
}

/// A failed connection counts as a refusal of the credentials if the broker's return code
/// says so, if the broker drops the connection without one, or if the error reads so; the
/// last two tell the error as it is, and so does any other failure.
pub proof fn lemma_refusals(code: i32, shown: String, dropped: bool, raw: Seq<char>)
    ensures
        code == 4 || code == 5 ==> connect_error(
            Some(ConnectReturn { code, shown }),
            dropped,
            raw,
        ) == "mqtt connect: not_authorized \u{2014} bad credentials ("@ + shown@ + ")"@,
        connect_error(None, true, raw) == "mqtt connect: not_authorized \u{2014} bad credentials: "@
            + raw,
        (code != 4 && code != 5 && !text::occurs(raw, "Not authorized"@) && !text::occurs(
            raw,
            "Bad User Name or Password"@,
        )) ==> connect_error(Some(ConnectReturn { code, shown }), dropped, raw)
            == "connect to broker: "@ + raw && connect_error(None, false, raw)
            == "connect to broker: "@ + raw,
        (code != 4 && code != 5 && (text::occurs(raw, "Not authorized"@) || text::occurs(
            raw,
            "Bad User Name or Password"@,
        ))) ==> connect_error(Some(ConnectReturn { code, shown }), dropped, raw)
            == "mqtt connect: not_authorized \u{2014} bad credentials: "@ + raw,
{
}

/// A sample tells its time and its value: two samples that differ in one of them have
/// different payloads.
pub proof fn lemma_samples_tell_time_and_value<N: Scalar>(
    ts: Seq<char>,
    other_ts: Seq<char>,
    value: N,
    other: N,
)
    ensures
        sample_text(ts, value) == sample_text(ts, other) ==> value.render_spec()
            == other.render_spec(),
        sample_text(ts, value) == sample_text(other_ts, value) ==> ts == other_ts,
{
    let front = "{\"ts\":\""@;
    let middle = "\",\"value\":"@;
    let a = sample_text(ts, value);
    let b = sample_text(ts, other);
    let c = sample_text(other_ts, value);
    let start = (front + ts + middle).len() as int;
    if a == b {
        assert(value.render_spec() =~= a.subrange(start, a.len() - "}"@.len()));
        assert(other.render_spec() =~= b.subrange(start, b.len() - "}"@.len()));
    }
    if a == c {
        let tail = (middle + value.render_spec() + "}"@).len();
        assert(ts =~= a.subrange(front.len() as int, a.len() - tail));
        assert(other_ts =~= c.subrange(front.len() as int, c.len() - tail));
    }
}

} // verus!
