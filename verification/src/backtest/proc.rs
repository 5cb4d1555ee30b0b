//! The two event processors of the simulator.

pub mod local;
pub mod nopartialfillexchange;
