//! Connectors to live venues: what of them is computation.

pub mod binancefutures;
