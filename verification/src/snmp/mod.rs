//! SNMP: what a read needs before and after the agent.

pub mod client;
