//! The device API.

pub mod client;
