//! Modbus: register codec and the plan of one read or write.

pub mod client;
pub mod codec;
