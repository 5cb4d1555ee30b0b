//! A deterministic, integer-exact backtesting engine for high-frequency
//! strategies: a strategy-side and an exchange-side event processor joined
//! by two latency-delayed order buses.
//!
//! Prices are signed integer ticks and quantities are unsigned integer lots,
//! so every comparison and every accounting step is exact.

pub mod backtest;
pub mod connector;
pub mod depth;
pub mod ty;
