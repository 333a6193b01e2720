//! Self-configuration from the outputs of the customer's stack.

use crate::config::Config;
use crate::error::{failure, failure_of3, GatewayError};
use crate::string_map::StringMap;
use crate::text::same_text;
use vstd::prelude::*;

verus! {

/// One output of a stack, as the service reports it.
#[derive(Debug)]
pub struct StackOutput {
    /// Key, if it is reported.
    pub key: Option<String>,
    /// Value, if it is reported.
    pub value: Option<String>,
}

/// The outputs that have both a key and a value; the last of a key counts.
pub open spec fn outputs_of(outputs: Seq<StackOutput>) -> Map<Seq<char>, String>
    decreases outputs.len(),
{
    if outputs.len() == 0 {
        Map::empty()
    } else {
        match (outputs.last().key, outputs.last().value) {
            (Some(k), Some(v)) => outputs_of(outputs.drop_last()).insert(k@, v),
            _ => outputs_of(outputs.drop_last()),
        }
    }
}

/// Collect the outputs of a stack.
pub fn stack_outputs(outputs: &[StackOutput]) -> (r: StringMap<String>)
    ensures
        r@ == outputs_of(outputs@),
{
    let mut r: StringMap<String> = StringMap::new();
    let mut i: usize = 0;
    assert(outputs@.take(0) =~= Seq::<StackOutput>::empty());
    while i < outputs.len()
        invariant
            i <= outputs@.len(),
            r@ == outputs_of(outputs@.take(i as int)),
        decreases outputs@.len() - i,
    {
        assert(outputs@.take(i + 1).drop_last() =~= outputs@.take(i as int));
        if let (Some(k), Some(v)) = (&outputs[i].key, &outputs[i].value) {
            r.insert(k.clone(), v.clone());
        }
        i = i + 1;
    }
    assert(outputs@.take(i as int) =~= outputs@);
    r
}

/// What is said of an output that is not there.
pub open spec fn missing_output(key: Seq<char>) -> Seq<char> {
    "stack output "@ + key + " missing \u{2014} platform contract broken"@
}

/// One output.
fn output(outputs: &StringMap<String>, key: &str) -> (r: Result<String, GatewayError>)
    ensures
        match r {
            Ok(v) => outputs@.dom().contains(key@) && v == outputs@[key@],
            Err(e) => !outputs@.dom().contains(key@) && e.message@ == missing_output(key@),
        },
{
    match outputs.get(key) {
        Some(v) => Ok(v.clone()),
        None => Err(
            failure_of3("stack output ", key, " missing \u{2014} platform contract broken"),
        ),
    }
}

/// The first output that a configuration is made of and that is not there.
pub open spec fn first_missing(outputs: Map<Seq<char>, String>) -> Option<Seq<char>> {
    if !outputs.dom().contains("DeviceApiUrl"@) {
        Some("DeviceApiUrl"@)
    } else if !outputs.dom().contains("BrokerWsUrl"@) {
        Some("BrokerWsUrl"@)
    } else if !outputs.dom().contains("SiteId"@) {
        Some("SiteId"@)
    } else {
        None
    }
}

/// A configuration from the outputs of a stack: the stack decides the
/// endpoints and the site, the base keeps the rest.
pub fn config_from_outputs(outputs: &StringMap<String>, base: Config) -> (r: Result<
    Config,
    GatewayError,
>)
    ensures
        match first_missing(outputs@) {
            Some(key) => r matches Err(e) && e.message@ == missing_output(key),
            None => r == Ok::<Config, GatewayError>(
                (Config {
                    device_api_url: outputs@["DeviceApiUrl"@],
                    broker_url: outputs@["BrokerWsUrl"@],
                    site_id: outputs@["SiteId"@],
                    mqtt_username: base.mqtt_username,
                    log_level: base.log_level,
                    gateway_credentials: base.gateway_credentials,
                }),
            ),
        },
{
    let device_api_url = match output(outputs, "DeviceApiUrl") {
        Ok(v) => v,
        Err(e) => {
            return Err(e);
        },
    };
    let broker_url = match output(outputs, "BrokerWsUrl") {
        Ok(v) => v,
        Err(e) => {
            return Err(e);
        },
    };
    let site_id = match output(outputs, "SiteId") {
        Ok(v) => v,
        Err(e) => {
            return Err(e);
        },
    };
    Ok(
        Config {
            device_api_url,
            broker_url,
            mqtt_username: base.mqtt_username,
            site_id,
            log_level: base.log_level,
            gateway_credentials: base.gateway_credentials,
        },
    )
}

/// The first output of the whole contract that is not there: those that a
/// configuration is made of, and the name of the password's secret.
pub open spec fn first_missing_of_contract(outputs: Map<Seq<char>, String>) -> Option<Seq<char>> {
    match first_missing(outputs) {
        Some(key) => Some(key),
        None => if outputs.dom().contains("GatewaySecretName"@) {
            None
        } else {
            Some("GatewaySecretName"@)
        },
    }
}

/// A configuration from the outputs that a stack reports. A stack that lacks
/// any output of the contract is refused, though the configuration itself does
/// not need it.
pub fn config_from_contract(outputs: &[StackOutput], base: Config) -> (r: Result<
    Config,
    GatewayError,
>)
    ensures
        match first_missing_of_contract(outputs_of(outputs@)) {
            Some(key) => r matches Err(e) && e.message@ == missing_output(key),
            None => r == Ok::<Config, GatewayError>(
                (Config {
                    device_api_url: outputs_of(outputs@)["DeviceApiUrl"@],
                    broker_url: outputs_of(outputs@)["BrokerWsUrl"@],
                    site_id: outputs_of(outputs@)["SiteId"@],
                    mqtt_username: base.mqtt_username,
                    log_level: base.log_level,
                    gateway_credentials: base.gateway_credentials,
                }),
            ),
        },
{
    let collected = stack_outputs(outputs);
    let cfg = match config_from_outputs(&collected, base) {
        Ok(c) => c,
        Err(e) => {
            return Err(e);
        },
    };
    match output(&collected, "GatewaySecretName") {
        Ok(_) => Ok(cfg),
        Err(e) => Err(e),
    }
}

/// Whether an output has a key.
pub open spec fn is_keyed(output: StackOutput, key: Seq<char>) -> bool {
    output.key matches Some(k) && k@ == key
}

/// The value of the first output with a key.
pub open spec fn first_value(outputs: Seq<StackOutput>, key: Seq<char>) -> Option<String>
    decreases outputs.len(),
{
    if outputs.len() == 0 {
        None
    } else if is_keyed(outputs[0], key) {
        outputs[0].value
    } else {
        first_value(outputs.skip(1), key)
    }
}

/// The name of the secret that holds the broker password.
pub fn gateway_secret_name(outputs: &[StackOutput]) -> (r: Result<String, GatewayError>)
    ensures
        match first_value(outputs@, "GatewaySecretName"@) {
            Some(name) => r == Ok::<String, GatewayError>(name),
            None => r matches Err(e) && e.message@ == "stack output GatewaySecretName missing"@,
        },
{
    let mut i: usize = 0;
    assert(outputs@.skip(0) =~= outputs@);
    while i < outputs.len()
        invariant
            i <= outputs@.len(),
            first_value(outputs@, "GatewaySecretName"@) == first_value(
                outputs@.skip(i as int),
                "GatewaySecretName"@,
            ),
        decreases outputs@.len() - i,
    {
        assert(outputs@.skip(i as int).skip(1) =~= outputs@.skip(i + 1));
        assert(outputs@.skip(i as int)[0] == outputs@[i as int]);
        if let Some(k) = &outputs[i].key {
            if same_text(k.as_str(), "GatewaySecretName") {
                return match &outputs[i].value {
                    Some(v) => Ok(v.clone()),
                    None => Err(failure("stack output GatewaySecretName missing".to_owned())),
                };
            }
        }
        i = i + 1;
    }
    Err(failure("stack output GatewaySecretName missing".to_owned()))
}

// ---------------------------------------------------------------------
// Laws
// ---------------------------------------------------------------------

/// Of the outputs with a key, the last one that has a value counts.
pub proof fn lemma_last_output_counts(outputs: Seq<StackOutput>, key: Seq<char>)
    ensures
        outputs_of(outputs).dom().contains(key) <==> exists|i: int|
            0 <= i < outputs.len() && is_keyed(#[trigger] outputs[i], key)
                && outputs[i].value is Some,
        outputs_of(outputs).dom().contains(key) ==> exists|i: int|
            {
                &&& 0 <= i < outputs.len()
                &&& is_keyed(#[trigger] outputs[i], key)
                &&& outputs[i].value == Some(outputs_of(outputs)[key])
                &&& forall|j: int|
                    i < j < outputs.len() && is_keyed(#[trigger] outputs[j], key)
                        ==> outputs[j].value is None
            },
    decreases outputs.len(),
{
    if outputs.len() > 0 {
        let init = outputs.drop_last();
        let n = outputs.len() - 1;
        lemma_last_output_counts(init, key);
        if is_keyed(outputs[n], key) && outputs[n].value is Some {
            assert(outputs_of(outputs).dom().contains(key));
        } else {
            assert(outputs_of(outputs).dom().contains(key) == outputs_of(init).dom().contains(key));
            if outputs_of(init).dom().contains(key) {
                let i = choose|i: int|
                    {
                        &&& 0 <= i < init.len()
                        &&& is_keyed(#[trigger] init[i], key)
                        &&& init[i].value == Some(outputs_of(init)[key])
                        &&& forall|j: int|
                            i < j < init.len() && is_keyed(#[trigger] init[j], key)
                                ==> init[j].value is None
                    };
                assert(is_keyed(outputs[i], key));
                assert forall|j: int|
                    i < j < outputs.len() && is_keyed(
                        #[trigger] outputs[j],
                        key,
                    ) implies outputs[j].value is None by {
                    if j < n {
                        assert(init[j] == outputs[j]);
                    }
                }
            } else {
                assert forall|i: int|
                    0 <= i < outputs.len() && is_keyed(
                        #[trigger] outputs[i],
                        key,
                    ) implies outputs[i].value is None by {
                    if i < n {
                        assert(init[i] == outputs[i]);
                    }
                }
            }
        }
    }
}

/// A configuration can be made if the device API, the broker and the site are among the
/// outputs. The whole contract asks for the name of the secret too. What is missed is
/// one of these and is not there.
pub proof fn lemma_what_is_missed(outputs: Map<Seq<char>, String>)
    ensures
        first_missing(outputs) is None <==> outputs.dom().contains("DeviceApiUrl"@)
            && outputs.dom().contains("BrokerWsUrl"@) && outputs.dom().contains("SiteId"@),
        first_missing_of_contract(outputs) is None <==> outputs.dom().contains("DeviceApiUrl"@)
            && outputs.dom().contains("BrokerWsUrl"@) && outputs.dom().contains("SiteId"@)
            && outputs.dom().contains("GatewaySecretName"@),
        first_missing(outputs) matches Some(key) ==> !outputs.dom().contains(key),
        first_missing_of_contract(outputs) matches Some(key) ==> !outputs.dom().contains(key),
{
}

/// The value of a key is that of the first output with the key: nothing before it has
/// the key, and where it has no value there is none.
pub proof fn lemma_first_output_counts(outputs: Seq<StackOutput>, key: Seq<char>, i: int)
    requires
        0 <= i < outputs.len(),
        outputs[i].key matches Some(k) && k@ == key,
        forall|j: int|
            0 <= j < i ==> ((#[trigger] outputs[j]).key matches Some(k) ==> k@ != key),
    ensures
        first_value(outputs, key) == outputs[i].value,
    decreases outputs.len(),
{
    if i > 0 {
        let rest = outputs.skip(1);
        assert(!is_keyed(outputs[0], key));
        assert forall|j: int| 0 <= j < i - 1 implies ((#[trigger] rest[j]).key matches Some(k)
            ==> k@ != key) by {
            assert(rest[j] == outputs[j + 1]);
        }
        lemma_first_output_counts(rest, key, i - 1);
    }
}

} // verus!
