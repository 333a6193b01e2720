//! DNP3: what a read needs before and after the outstation.

pub mod client;
