//! The pluggable models of the simulator: how long an order travels, and
//! where a resting order stands in the queue of its price level.

pub mod latencies;
pub mod queue;
