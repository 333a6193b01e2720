//! North side: what the gateway publishes to MQTT and what it hears from it.

pub mod publisher;
pub mod subscriber;
