//! Bridges structured log events into a telemetry backend's log-record model.

pub mod any_sval;
pub mod attributes;
pub mod bridge;
pub mod event;
pub mod laws;
pub mod position;
pub mod protocol;
pub mod text;
pub mod value;
