//! Gateway between south-side grid protocols and north-side MQTT.
//!
//! The library decides and computes; it neither opens a connection nor keeps
//! time. What goes out is returned as a plan or a message, and what came in is
//! handed over as plain values. Numbers are of any type with the operations of
//! `scalar::Scalar`.

pub mod app;
pub mod arithmetic;
pub mod asyncapi;
pub mod bacnet;
pub mod bacnet_sc;
pub mod bootstrap;
pub mod config;
pub mod der_dispatch;
pub mod dispatch;
pub mod dnp3;
pub mod duties;
pub mod endpoint;
pub mod envelope;
pub mod error;
pub mod http;
pub mod json;
pub mod modbus;
pub mod mqtt;
pub mod redfish;
pub mod retry;
pub mod run;
pub mod scalar;
pub mod snmp;
pub mod span;
pub mod string_map;
pub mod synthetic;
pub mod text;
