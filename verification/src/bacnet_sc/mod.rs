//! BACnet Secure Connect: what a read needs before and after the hub.

pub mod client;
