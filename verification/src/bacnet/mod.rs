//! BACnet/IP: the read request, its framing, and the reading of a response.

pub mod client;
