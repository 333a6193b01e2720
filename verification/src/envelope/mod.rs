//! Operating envelope: keeps a parent's setpoint within live import and
//! export limits, and its children's split current.

pub mod bearing;
pub mod control_law;
pub mod task;
