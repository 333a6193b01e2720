//! Per-device trust: how a device and the gateway authenticate each other.

use vstd::prelude::*;

verus! {

/// Per-device trust material.
#[derive(Debug)]
pub enum DeviceTrust {
    /// Mutual TLS with CA-signed certificates.
    TlsMutual {
        /// Subject name that the device's certificate must present.
        subject_name: String,
    },
    /// SNMPv3 user-based security. Passphrases are secrets and live in the
    /// environment, keyed by `security_name`.
    Snmpv3Usm {
        /// User name on the device's agent.
        security_name: String,
        /// Authentication protocol.
        auth_protocol: Snmpv3AuthProtocol,
        /// Privacy protocol.
        priv_protocol: Snmpv3PrivProtocol,
    },
}

/// SNMPv3 authentication protocol.
#[derive(Debug, Clone, Copy, PartialEq, Eq, Structural)]
pub enum Snmpv3AuthProtocol {
    /// HMAC-SHA-256-192.
    Sha256,
    /// HMAC-SHA-384-256.
    Sha384,
    /// HMAC-SHA-512-384.
    Sha512,
}

/// SNMPv3 privacy protocol.
#[derive(Debug, Clone, Copy, PartialEq, Eq, Structural)]
pub enum Snmpv3PrivProtocol {
    /// AES-128 CFB.
    Aes128,
    /// AES-192 CFB.
    Aes192,
    /// AES-256 CFB.
    Aes256,
}

impl Clone for DeviceTrust {
    fn clone(&self) -> (r: Self)
        ensures
            r == *self,
    {
        match self {
            DeviceTrust::TlsMutual { subject_name } => DeviceTrust::TlsMutual {
                subject_name: subject_name.clone(),
            },
            DeviceTrust::Snmpv3Usm { security_name, auth_protocol, priv_protocol } => {
                DeviceTrust::Snmpv3Usm {
                    security_name: security_name.clone(),
                    auth_protocol: *auth_protocol,
                    priv_protocol: *priv_protocol,
                }
            },
        }
    }
}

} // verus!
