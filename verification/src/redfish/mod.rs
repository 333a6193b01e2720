//! Redfish: what a read needs before and after the service.

pub mod client;
