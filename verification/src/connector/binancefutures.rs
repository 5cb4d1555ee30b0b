//! Binance Futures.

pub mod ordermanager;
pub mod rest;
