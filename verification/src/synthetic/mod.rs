//! Synthetic channels: values that the gateway computes from cached inputs.
//!
//! A synthetic channel is silent until every one of its inputs has been heard
//! of at least once.

pub mod cache;
pub mod formula;
pub mod operation;
pub mod task;
