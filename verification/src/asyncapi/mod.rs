//! The part of the AsyncAPI document that the gateway reads.

pub mod trust;
pub mod types;
