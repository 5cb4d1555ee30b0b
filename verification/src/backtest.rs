//! The simulator: its data model and its two event processors.

use vstd::prelude::*;

pub mod assettype;
pub mod backtest;
pub mod models;
pub mod order;
pub mod proc;
pub mod orderstore;
pub mod reader;
pub mod state;
pub mod tickindex;

verus! {

/// What can go wrong in the simulator.
#[derive(Clone, Copy, Debug, PartialEq, Eq, Structural)]
pub enum Error {
    /// A new order names an id that is already in use.
    OrderAlreadyExist,
    /// A request names an id that is not known.
    OrderNotFound,
    /// A request is still in flight on the order.
    OrderRequestInProcess,
    /// A request arrived that is neither a submission, a cancellation nor a
    /// modification, or whose quantities do not add up.
    InvalidOrderRequest,
    /// A fill was attempted on an order that has already left the book.
    InvalidOrderStatus,
    /// The data stream holds no further event.
    EndOfData,
}

impl Error {
    /// The error is one with which the exchange refuses a request.
    pub open spec fn is_refusal(self) -> bool {
        self == Error::OrderAlreadyExist || self == Error::InvalidOrderStatus || self
            == Error::InvalidOrderRequest
    }
}

} // verus!
