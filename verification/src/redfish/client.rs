//! Redfish reads: the URL to get and the number in what comes back.

use crate::asyncapi::trust::DeviceTrust;
use crate::asyncapi::types::RedfishBinding;
use crate::config::GatewayCredentials;
use crate::endpoint;
use crate::endpoint::endpoint as join_endpoint;
use crate::error::{failure, GatewayError};
use crate::json;
use crate::json::{number_at, Lookup};
use crate::modbus::client as modbus;
use crate::scalar::Scalar;
use crate::text;
use vstd::prelude::*;

verus! {

/// HTTPS is used where the device asks for mutual TLS and the gateway has the
/// material.
pub open spec fn is_secure(trust: Option<DeviceTrust>, creds: Option<GatewayCredentials>) -> bool {
    modbus::dial_of(trust, creds) is Tls
}

/// The URL of a binding.
pub open spec fn resource_url(b: RedfishBinding, secure: bool) -> Seq<char> {
    (if secure {
        "https"@
    } else {
        "http"@
    }) + "://"@ + endpoint::endpoint_text(b.host@, b.port as nat) + "/redfish/v1"@ + b.uri@
}

/// Whether a read is made over HTTPS, and the URL it gets.
pub fn plan_read(
    b: &RedfishBinding,
    trust: Option<&DeviceTrust>,
    creds: Option<&GatewayCredentials>,
) -> (r: (bool, String))
    ensures
        r.0 == is_secure(modbus::opt(trust), modbus::opt(creds)),
        r.1@ == resource_url(*b, r.0),
{
    let secure: bool = match (trust, creds) {
        (Some(DeviceTrust::TlsMutual { .. }), Some(_)) => true,
        _ => false,
    };
    let mut url: String = if secure {
        "https".to_owned()
    } else {
        "http".to_owned()
    };
    url.append("://");
    url.append(join_endpoint(b.host.as_str(), b.port).as_str());
    url.append("/redfish/v1");
    url.append(b.uri.as_str());
    (secure, url)
}

/// Whether a response is taken; any other is tried again.
pub fn is_success(status: u16) -> (r: bool)
    ensures
        r == (200 <= status <= 299),
        r <==> status / 100 == 2,
{
    200 <= status && status <= 299
}

/// The pointer that is looked up: the binding's, or the whole document.
pub open spec fn pointer_of(b: RedfishBinding) -> Seq<char> {
    match b.json_pointer {
        Some(p) => p@,
        None => Seq::empty(),
    }
}

/// The number that a lookup found, or what is said where it found none.
pub open spec fn outcome_of<N: Scalar>(found: json::Found, pointer: Seq<char>, url: Seq<char>) -> Result<
    N,
    Seq<char>,
> {
    match found {
        json::Found::Malformed => Err("parse Redfish JSON"@),
        json::Found::Missed => Err(
            "json pointer "@ + pointer + " missed in response from "@ + url,
        ),
        json::Found::NotNumeric(shown) => Err(
            "expected numeric Redfish value at "@ + url + ", got "@ + shown,
        ),
        json::Found::Number(bits) => Ok(N::bits_spec(bits)),
    }
}

/// The number that a lookup found.
pub fn conclude<N: Scalar>(found: Lookup, pointer: &str, url: &str) -> (r: Result<N, GatewayError>)
    ensures
        match r {
            Ok(v) => outcome_of::<N>(found@, pointer@, url@) == Ok::<N, Seq<char>>(v),
            Err(e) => outcome_of::<N>(found@, pointer@, url@) == Err::<N, Seq<char>>(e.message@),
        },
{
    match found {
        Lookup::Malformed => Err(failure("parse Redfish JSON".to_owned())),
        Lookup::Missed => {
            let mut m = "json pointer ".to_owned();
            m.append(pointer);
            m.append(" missed in response from ");
            m.append(url);
            Err(failure(m))
        },
        Lookup::NotNumeric(shown) => {
            let mut m = "expected numeric Redfish value at ".to_owned();
            m.append(url);
            m.append(", got ");
            m.append(shown.as_str());
            Err(failure(m))
        },
        Lookup::Number(bits) => Ok(N::from_bits(bits)),
    }
}

/// The number that a binding names in a response body.
pub fn read_measurement<N: Scalar>(b: &RedfishBinding, url: &str, body: &str) -> (r: Result<
    N,
    GatewayError,
>)
    ensures
        ({
            let expected = outcome_of::<N>(
                json::json_number_at(body@, pointer_of(*b)),
                pointer_of(*b),
                url@,
            );
            match r {
                Ok(v) => expected == Ok::<N, Seq<char>>(v),
                Err(e) => expected == Err::<N, Seq<char>>(e.message@),
            }
        }),
{
    match &b.json_pointer {
        Some(p) => conclude(number_at(body, p.as_str()), p.as_str(), url),
        None => {
            proof {
                reveal_strlit("");
            }
            assert(""@ =~= Seq::<char>::empty());
            conclude(number_at(body, ""), "", url)
        },
    }
}

/// A resource is got over HTTPS if and only if its device asks for mutual TLS and the
/// gateway has the material, at its host and port, below the service root.
pub proof fn lemma_resource_is_got_as_trusted(
    b: RedfishBinding,
    trust: Option<DeviceTrust>,
    creds: Option<GatewayCredentials>,
)
    ensures
        is_secure(trust, creds) <==> trust is Some && trust->0 is TlsMutual && creds is Some,
        resource_url(b, true) == "https://"@ + b.host@ + ":"@ + text::digits(b.port as nat)
            + "/redfish/v1"@ + b.uri@,
        resource_url(b, false) == "http://"@ + b.host@ + ":"@ + text::digits(b.port as nat)
            + "/redfish/v1"@ + b.uri@,
{
    reveal_strlit("https");
    reveal_strlit("http");
    reveal_strlit("://");
    reveal_strlit("https://");
    reveal_strlit("http://");
    assert("https"@ + "://"@ =~= "https://"@);
    assert("http"@ + "://"@ =~= "http://"@);
    let rest = text::digits(b.port as nat);
    assert(resource_url(b, true) =~= "https://"@ + b.host@ + ":"@ + rest + "/redfish/v1"@ + b.uri@);
    assert(resource_url(b, false) =~= "http://"@ + b.host@ + ":"@ + rest + "/redfish/v1"@ + b.uri@);
}

/// A measurement is had if and only if its pointer leads to a number, and then it is
/// that number.
pub proof fn lemma_only_numbers_are_measured<N: Scalar>(
    found: json::Found,
    pointer: Seq<char>,
    url: Seq<char>,
)
    ensures
        outcome_of::<N>(found, pointer, url) is Ok <==> found is Number,
        found matches json::Found::Number(bits) ==> outcome_of::<N>(found, pointer, url) == Ok::<
            N,
            Seq<char>,
        >(N::bits_spec(bits)),
{
}

/// The pointer that is looked up is the binding's own, and leads to the whole document
/// where it has none.
pub proof fn lemma_pointer_is_the_bindings(b: RedfishBinding)
    ensures
        b.json_pointer matches Some(p) ==> pointer_of(b) == p@,
        b.json_pointer is None ==> pointer_of(b).len() == 0,
{
}

} // verus!
