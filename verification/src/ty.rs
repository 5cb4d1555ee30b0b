//! The order record and the small enumerations it is made of.

use crate::depth::{valid_tick, INVALID_MAX, INVALID_MIN};
use vstd::prelude::*;

verus! {

/// Side selector for a buy, as used by depth operations.
pub const BUY: i64 = 1;

/// Side selector for a sell, as used by depth operations.
pub const SELL: i64 = -1;

/// The side of an order.
#[derive(Clone, Copy, Debug, PartialEq, Eq, Structural)]
pub enum Side {
    Buy,
    Sell,
}

impl Side {
    /// `+1` for a buy and `-1` for a sell.
    pub open spec fn spec_sign(self) -> int {
        match self {
            Side::Buy => 1,
            Side::Sell => -1,
        }
    }

    /// `x` for a buy and `-x` for a sell: a quantity or an amount as it
    /// enters the position.
    pub open spec fn signed(self, x: int) -> int {
        match self {
            Side::Buy => x,
            Side::Sell => -x,
        }
    }

    /// The side as venues spell it.
    pub open spec fn spec_as_str(self) -> Seq<char> {
        match self {
            Side::Buy => "BUY"@,
            Side::Sell => "SELL"@,
        }
    }

    /// The side as venues spell it.
    pub fn as_str(self) -> (s: &'static str)
        ensures
            s@ == self.spec_as_str(),
    {
        match self {
            Side::Buy => "BUY",
            Side::Sell => "SELL",
        }
    }

    /// The sign with which a fill on this side enters the position.
    pub fn sign(self) -> (s: i64)
        ensures
            s == self.spec_sign(),
    {
        match self {
            Side::Buy => 1,
            Side::Sell => -1,
        }
    }
}

/// The state of an order, also used for the request that is in flight on it.
#[derive(Clone, Copy, Debug, PartialEq, Eq, Structural)]
pub enum Status {
    /// No status yet; as a request, none is in flight.
    Unset,
    New,
    Expired,
    Filled,
    Canceled,
    PartiallyFilled,
    Modify,
    Rejected,
}

impl Status {
    /// A terminal status: the order has left the book for good.
    pub open spec fn spec_is_terminal(self) -> bool {
        self == Status::Expired || self == Status::Filled || self == Status::Canceled
    }

    /// Whether the status is one of `Expired`, `Filled`, `Canceled`.
    pub fn is_terminal(self) -> (b: bool)
        ensures
            b == self.spec_is_terminal(),
    {
        self == Status::Expired || self == Status::Filled || self == Status::Canceled
    }
}

/// How an order is priced.
#[derive(Clone, Copy, Debug, PartialEq, Eq, Structural)]
pub enum OrdType {
    Limit,
    Market,
}

impl OrdType {
    /// The order type as venues spell it.
    pub open spec fn spec_as_str(self) -> Seq<char> {
        match self {
            OrdType::Limit => "LIMIT"@,
            OrdType::Market => "MARKET"@,
        }
    }

    /// The order type as venues spell it.
    pub fn as_str(self) -> (s: &'static str)
        ensures
            s@ == self.spec_as_str(),
    {
        match self {
            OrdType::Limit => "LIMIT",
            OrdType::Market => "MARKET",
        }
    }
}

/// How long an order stays valid.
#[derive(Clone, Copy, Debug, PartialEq, Eq, Structural)]
pub enum TimeInForce {
    /// Good till canceled.
    GTC,
    /// Post only: expires instead of taking liquidity.
    GTX,
    /// Fill or kill.
    FOK,
    /// Immediate or cancel.
    IOC,
}

impl TimeInForce {
    /// The time in force as venues spell it.
    pub open spec fn spec_as_str(self) -> Seq<char> {
        match self {
            TimeInForce::GTC => "GTC"@,
            TimeInForce::GTX => "GTX"@,
            TimeInForce::FOK => "FOK"@,
            TimeInForce::IOC => "IOC"@,
        }
    }

    /// The time in force as venues spell it.
    pub fn as_str(self) -> (s: &'static str)
        ensures
            s@ == self.spec_as_str(),
    {
        match self {
            TimeInForce::GTC => "GTC",
            TimeInForce::GTX => "GTX",
            TimeInForce::FOK => "FOK",
            TimeInForce::IOC => "IOC",
        }
    }
}

/// An order. `Q` is the queue-position value that a queue model keeps on it.
#[derive(Copy, Debug)]
pub struct Order<Q> {
    /// The quantity as ordered, in lots.
    pub qty: u32,
    /// What of the quantity is still to be executed.
    pub leaves_qty: u32,
    /// The price, in ticks.
    pub price_tick: i32,
    /// The size of a tick, in billionths of the quote unit.
    pub tick_size: u64,
    pub side: Side,
    pub time_in_force: TimeInForce,
    /// When the exchange last acted on the order.
    pub exch_timestamp: i64,
    pub status: Status,
    /// When the strategy submitted the order.
    pub local_timestamp: i64,
    /// The request that is in flight on the order, `Unset` where none is.
    pub req: Status,
    /// The price of the execution, in ticks.
    pub exec_price_tick: i32,
    /// The quantity of the execution, in lots.
    pub exec_qty: u32,
    /// The id that the strategy gave the order.
    pub order_id: i64,
    pub order_type: OrdType,
    /// The queue position, as the queue model keeps it.
    pub q: Q,
    /// Whether the order was executed resting in the book.
    pub maker: bool,
}

impl<Q: Copy> Clone for Order<Q> {
    fn clone(&self) -> (o: Self)
        ensures
            o == *self,
    {
        *self
    }
}

impl<Q> Order<Q> {
    /// Whether the quantities add up.
    pub fn is_consistent(&self) -> (b: bool)
        ensures
            b == self.consistent(),
    {
        let adds_up = self.leaves_qty as u64 + self.exec_qty as u64 <= self.qty as u64;
        adds_up && (!self.status.is_terminal() || self.leaves_qty == 0)
    }

    /// The quantities add up: what is left plus what was executed never
    /// exceeds the ordered quantity, and an order that has left the book
    /// for good, filled, canceled or expired, has nothing left.
    pub open spec fn consistent(self) -> bool {
        &&& self.leaves_qty + self.exec_qty <= self.qty
        &&& self.status.spec_is_terminal() ==> self.leaves_qty == 0
    }

    /// The price can name a level of a book: it is none of the two markers
    /// that stand for an empty side.
    pub open spec fn priced(self) -> bool {
        valid_tick(self.price_tick)
    }

    /// Whether the price can name a level of a book.
    pub fn is_priced(&self) -> (b: bool)
        ensures
            b == self.priced(),
    {
        self.price_tick != INVALID_MIN && self.price_tick != INVALID_MAX
    }

    /// The order can be placed in a book as a new order: its quantities add
    /// up, nothing of it has been executed, and its price can name a level.
    pub open spec fn placeable(self) -> bool {
        &&& self.consistent()
        &&& self.exec_qty == 0
        &&& self.priced()
    }

    /// Whether the order can be placed in a book as a new order.
    pub fn is_placeable(&self) -> (b: bool)
        ensures
            b == self.placeable(),
    {
        self.is_consistent() && self.exec_qty == 0 && self.is_priced()
    }

    /// The order that `new` makes, with the queue position `q`.
    pub open spec fn fresh(
        order_id: i64,
        price_tick: i32,
        tick_size: u64,
        qty: u32,
        side: Side,
        order_type: OrdType,
        time_in_force: TimeInForce,
        q: Q,
    ) -> Self {
        Order {
            qty,
            leaves_qty: qty,
            price_tick,
            tick_size,
            side,
            time_in_force,
            exch_timestamp: 0,
            status: Status::Unset,
            local_timestamp: 0,
            req: Status::Unset,
            exec_price_tick: 0,
            exec_qty: 0,
            order_id,
            order_type,
            q,
            maker: false,
        }
    }
}

impl<Q: Default> Order<Q> {
    /// A fresh order: nothing executed, no status, no request in flight,
    /// and the default queue position.
    pub fn new(
        order_id: i64,
        price_tick: i32,
        tick_size: u64,
        qty: u32,
        side: Side,
        order_type: OrdType,
        time_in_force: TimeInForce,
    ) -> (o: Self)
        ensures
            o == Self::fresh(
                order_id,
                price_tick,
                tick_size,
                qty,
                side,
                order_type,
                time_in_force,
                o.q,
            ),
            call_ensures(Q::default, (), o.q),
            o.consistent(),
    {
        Order {
            qty,
            leaves_qty: qty,
            price_tick,
            tick_size,
            side,
            time_in_force,
            exch_timestamp: 0,
            status: Status::Unset,
            local_timestamp: 0,
            req: Status::Unset,
            exec_price_tick: 0,
            exec_qty: 0,
            order_id,
            order_type,
            q: Q::default(),
            maker: false,
        }
    }
}

} // verus!
