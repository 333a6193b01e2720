//! DNP3 reads: one analog input of an outstation.

use crate::asyncapi::trust::DeviceTrust;
use crate::asyncapi::types::Dnp3TcpBinding;
use crate::config::GatewayCredentials;
use crate::endpoint;
use crate::endpoint::endpoint as join_endpoint;
use crate::error::{failure, failure_of, failure_of3, GatewayError};
use crate::modbus::client as modbus;
use crate::modbus::client::{dial, Dial};
use crate::scalar::Scalar;
use crate::text;
use crate::text::{decimal, same_text};
use vstd::prelude::*;

verus! {

/// The gateway's own link address.
pub const MASTER_ADDR: u16 = 1;

/// The outstation's link address.
pub const OUTSTATION_ADDR: u16 = 1024;

/// One read.
#[derive(Debug)]
pub struct Dnp3Plan {
    /// Host and port of the outstation.
    pub endpoint: String,
    /// Point index.
    pub point_index: u16,
    /// How to dial.
    pub dial: Dial,
}

/// What is said of a point class that is not read.
pub open spec fn unsupported_point(point_type: Seq<char>) -> Seq<char> {
    "Tier 1 DNP3 only supports analog_input point_type, got "@ + point_type
}

/// The read that measures a binding.
pub fn plan_read(
    b: &Dnp3TcpBinding,
    trust: Option<&DeviceTrust>,
    creds: Option<&GatewayCredentials>,
) -> (r: Result<Dnp3Plan, GatewayError>)
    ensures
        match r {
            Ok(p) => {
                &&& b.point_type@ == "analog_input"@
                &&& p.endpoint@ == endpoint::endpoint_text(b.host@, b.port as nat)
                &&& p.point_index == b.point_index
                &&& p.dial == modbus::dial_of(modbus::opt(trust), modbus::opt(creds))
            },
            Err(e) => b.point_type@ != "analog_input"@ && e.message@ == unsupported_point(
                b.point_type@,
            ),
        },
{
    if !same_text(b.point_type.as_str(), "analog_input") {
        return Err(
            failure_of(
                "Tier 1 DNP3 only supports analog_input point_type, got ",
                b.point_type.as_str(),
            ),
        );
    }
    Ok(
        Dnp3Plan {
            endpoint: join_endpoint(b.host.as_str(), b.port),
            point_index: b.point_index,
            dial: dial(trust, creds),
        },
    )
}

/// The one-byte index of a read request.
pub fn request_index(point_index: u16) -> (r: Result<u8, GatewayError>)
    ensures
        match r {
            Ok(i) => i == point_index,
            Err(e) => point_index > 255 && e.message@ == "point_index must fit in u8 for Tier 1"@,
        },
        r is Ok <==> point_index < 0x100,
{
    if point_index > 255 {
        return Err(failure("point_index must fit in u8 for Tier 1".to_owned()));
    }
    Ok(point_index as u8)
}

/// The last value that was captured for an index.
pub open spec fn captured_value<N>(captured: Seq<(u16, N)>, index: u16) -> Option<N>
    decreases captured.len(),
{
    if captured.len() == 0 {
        None
    } else if captured.last().0 == index {
        Some(captured.last().1)
    } else {
        captured_value(captured.drop_last(), index)
    }
}

/// What is said where the response did not hold the point.
pub open spec fn missing_point(index: nat) -> Seq<char> {
    "no AnalogInput at index "@ + text::digits(index) + " in response"@
}

/// The value of a point among those captured, in the order in which they came.
pub fn read_point<N: Scalar>(captured: &[(u16, N)], point_index: u16) -> (r: Result<
    N,
    GatewayError,
>)
    ensures
        match r {
            Ok(v) => captured_value(captured@, point_index) == Some(v),
            Err(e) => captured_value(captured@, point_index) is None && e.message@ == missing_point(
                point_index as nat,
            ),
        },
{
    let mut n: usize = captured.len();
    assert(captured@.take(n as int) =~= captured@);
    while n > 0
        invariant
            n <= captured@.len(),
            captured_value(captured@.take(n as int), point_index) == captured_value(
                captured@,
                point_index,
            ),
        decreases n,
    {
        assert(captured@.take(n as int).drop_last() =~= captured@.take(n - 1));
        if captured[n - 1].0 == point_index {
            return Ok(captured[n - 1].1);
        }
        n = n - 1;
    }
    Err(
        failure_of3(
            "no AnalogInput at index ",
            decimal(point_index as u64).as_str(),
            " in response",
        ),
    )
}

/// The value of a point is the one that was captured last under its index: nothing
/// under that index came after it. Where nothing was captured under the index there
/// is none.
pub proof fn lemma_latest_capture_counts<N>(captured: Seq<(u16, N)>, index: u16)
    ensures
        match captured_value(captured, index) {
            Some(v) => exists|i: int|
                {
                    &&& 0 <= i < captured.len()
                    &&& #[trigger] captured[i] == (index, v)
                    &&& forall|j: int|
                        i < j < captured.len() ==> (#[trigger] captured[j]).0 != index
                },
            None => forall|j: int| 0 <= j < captured.len() ==> (#[trigger] captured[j]).0 != index,
        },
    decreases captured.len(),
{
    if captured.len() > 0 {
        let n = captured.len() - 1;
        let init = captured.drop_last();
        lemma_latest_capture_counts(init, index);
        if captured[n].0 == index {
            assert(captured[n] == (index, captured[n].1));
        } else {
            match captured_value(init, index) {
                Some(v) => {
                    let i = choose|i: int|
                        {
                            &&& 0 <= i < init.len()
                            &&& #[trigger] init[i] == (index, v)
                            &&& forall|j: int|
                                i < j < init.len() ==> (#[trigger] init[j]).0 != index
                        };
                    assert(captured[i] == (index, v));
                    assert forall|j: int| i < j < captured.len() implies (
                    #[trigger] captured[j]).0 != index by {
                        if j < n {
                            assert(init[j].0 != index);
                        }
                    }
                },
                None => {
                    assert forall|j: int| 0 <= j < captured.len() implies (
                    #[trigger] captured[j]).0 != index by {
                        if j < n {
                            assert(init[j].0 != index);
                        }
                    }
                },
            }
        }
    }
}

} // verus!
