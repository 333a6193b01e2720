//! Gateway configuration.

pub mod tree;
pub mod yaml;

use vstd::prelude::*;

verus! {

/// Paths of the gateway's mutual-TLS material.
#[derive(Debug)]
pub struct GatewayCredentials {
    /// Trust bundle that device certificates are checked against.
    pub ca_bundle_path: String,
    /// The gateway's own certificate.
    pub cert_path: String,
    /// The key of that certificate.
    pub key_path: String,
}

impl Clone for GatewayCredentials {
    fn clone(&self) -> (r: Self)
        ensures
            r == *self,
    {
        GatewayCredentials {
            ca_bundle_path: self.ca_bundle_path.clone(),
            cert_path: self.cert_path.clone(),
            key_path: self.key_path.clone(),
        }
    }
}

/// Gateway runtime configuration.
#[derive(Debug)]
pub struct Config {
    /// Base URL of the device API.
    pub device_api_url: String,
    /// Broker URL.
    pub broker_url: String,
    /// Broker user name.
    pub mqtt_username: String,
    /// Site, as it stands in topics.
    pub site_id: String,
    /// Log verbosity.
    pub log_level: String,
    /// Mutual-TLS material, if it is provisioned.
    pub gateway_credentials: Option<GatewayCredentials>,
}

/// How much is logged.
#[derive(Debug, Clone, Copy, PartialEq, Eq, Structural)]
pub enum LogLevel {
    /// Errors only.
    Error,
    /// Warnings too.
    Warn,
    /// Progress too.
    Info,
    /// Everything.
    Debug,
}

/// The verbosity of a name; a name that is none of them means progress.
pub open spec fn level_of(name: Seq<char>) -> LogLevel {
    if name == "error"@ {
        LogLevel::Error
    } else if name == "warn"@ {
        LogLevel::Warn
    } else if name == "debug"@ {
        LogLevel::Debug
    } else {
        LogLevel::Info
    }
}

impl Config {
    /// How much is logged.
    pub fn max_level(&self) -> (r: LogLevel)
        ensures
            r == level_of(self.log_level@),
    {
        let name = self.log_level.as_str();
        if crate::text::same_text(name, "error") {
            LogLevel::Error
        } else if crate::text::same_text(name, "warn") {
            LogLevel::Warn
        } else if crate::text::same_text(name, "debug") {
            LogLevel::Debug
        } else {
            LogLevel::Info
        }
    }
}

/// Each verbosity but progress has one name, and every other name means progress.
pub proof fn lemma_names_of_levels(name: Seq<char>)
    ensures
        level_of(name) is Error <==> name == "error"@,
        level_of(name) is Warn <==> name == "warn"@,
        level_of(name) is Debug <==> name == "debug"@,
        level_of(name) is Info <==> name != "error"@ && name != "warn"@ && name != "debug"@,
{
    reveal_strlit("error");
    reveal_strlit("warn");
    reveal_strlit("debug");
    assert("error"@[0] == 'e' && "warn"@[0] == 'w' && "debug"@[0] == 'd');
}

} // verus!
