//! The exchange processor: a matching engine that fills an order whole or
//! not at all.

use crate::backtest::assettype::{AssetType, LinearAsset};
use crate::backtest::models::latencies::{delivery_timestamp, spec_delivery_timestamp, LatencyModel};
use crate::backtest::models::queue::QueueModel;
use crate::backtest::order::{
    all_consistent, bus_append, lemma_bus_append_consistent, lemma_bus_append_sorted,
    sorted_by_delivery, OrderBus,
};
use crate::backtest::orderstore::{
    lemma_pick, lemma_pick_same, lemma_pick_without, lemma_without_absent, lemma_without_id, pick,
    stripped, without_id, OrderStore,
};
use crate::backtest::reader::{
    has_flags, lemma_seek, seek, seek_next, valid_rows, Data, Reader, Row,
        EXCH_ASK_DEPTH_CLEAR_EVENT,
    EXCH_ASK_DEPTH_EVENT, EXCH_ASK_DEPTH_SNAPSHOT_EVENT, EXCH_BID_DEPTH_CLEAR_EVENT,
    EXCH_BID_DEPTH_EVENT, EXCH_BID_DEPTH_SNAPSHOT_EVENT, EXCH_BUY_TRADE_EVENT, EXCH_EVENT,
    EXCH_SELL_TRADE_EVENT,
};
use crate::backtest::state::{
    booked, gains, lemma_conservation, lemma_filled_room, lemma_filled_spends, lemma_room_less,
    lemma_spends, Execution, State, StateValues,
};
use crate::backtest::tickindex::TickIndex;
use crate::backtest::Error;
use crate::depth::hashmapmarketdepth::HashMapMarketDepth;
use crate::depth::{
    lemma_best_ask_of, lemma_best_ask_subset, lemma_best_bid_of, lemma_best_bid_subset, level_qty,
    set_level, valid_tick, Book, MarketDepth, INVALID_MAX, INVALID_MIN,
};
use crate::ty::{Order, Side, Status, TimeInForce, BUY, SELL};
use vstd::prelude::*;

verus! {

/// What order requests and fills change at the exchange: the resting
/// orders and the order in which they are walked, the account, and the
/// responses on their way to the strategy.
pub struct Matching<Q> {
    pub orders: Map<i64, Order<Q>>,
    pub ids: Seq<i64>,
    pub values: StateValues,
    pub outbox: Seq<(Order<Q>, i64)>,
}

/// The ids of the orders, in their order.
pub open spec fn fill_ids<Q>(fills: Seq<Order<Q>>) -> Seq<i64> {
    Seq::new(fills.len(), |k: int| fills[k].order_id)
}

/// The order after it was filled whole at `timestamp`: a maker is filled at
/// its own price, a taker at `exec_price_tick`.
pub open spec fn filled_order<Q>(
    order: Order<Q>,
    timestamp: i64,
    maker: bool,
    exec_price_tick: i32,
) -> Order<Q> {
    Order {
        maker,
        exec_price_tick: if maker {
            order.price_tick
        } else {
            exec_price_tick
        },
        exec_qty: order.leaves_qty,
        leaves_qty: 0,
        status: Status::Filled,
        exch_timestamp: timestamp,
        ..order
    }
}

/// The order as the exchange answers it with the given status. An order
/// that leaves the book for good has nothing left: what was not executed
/// is given up.
pub open spec fn answered<Q>(order: Order<Q>, status: Status, timestamp: i64) -> Order<Q> {
    Order {
        status,
        exch_timestamp: timestamp,
        leaves_qty: if status.spec_is_terminal() {
            0
        } else {
            order.leaves_qty
        },
        ..order
    }
}

/// The answer to a request that found no order: expired with nothing left,
/// and with the request still named on it, by which the strategy side
/// knows to pass over it.
pub open spec fn not_found<Q>(order: Order<Q>, req: Status, timestamp: i64) -> Order<Q> {
    Order { status: Status::Expired, req, exch_timestamp: timestamp, leaves_qty: 0, ..order }
}

/// The resting order after a modification took over the price and the
/// quantity of the request. What it has executed stays, and what is left
/// is the rest of the new quantity.
pub open spec fn modified<Q>(resting: Order<Q>, request: Order<Q>) -> Order<Q> {
    Order {
        price_tick: request.price_tick,
        qty: request.qty,
        leaves_qty: if resting.exec_qty <= request.qty {
            (request.qty - resting.exec_qty) as u32
        } else {
            0
        },
        ..resting
    }
}

/// Whatever the exchange sends or keeps has quantities that add up: an
/// order whose quantities add up is answered, filled or modified into one
/// whose quantities add up, and an order that leaves the book for good,
/// filled, canceled or expired, has nothing left.
pub proof fn lemma_quantities_add_up<Q>(
    order: Order<Q>,
    request: Order<Q>,
    status: Status,
    req: Status,
    timestamp: i64,
    maker: bool,
    exec_price_tick: i32,
)
    requires
        order.consistent(),
    ensures
        answered(order, status, timestamp).consistent(),
        status.spec_is_terminal() ==> answered(order, status, timestamp).leaves_qty == 0,
        not_found(order, req, timestamp).consistent(),
        not_found(order, req, timestamp).leaves_qty == 0,
        filled_order(order, timestamp, maker, exec_price_tick).consistent(),
        filled_order(order, timestamp, maker, exec_price_tick).leaves_qty == 0,
        order.exec_qty <= request.qty && !order.status.spec_is_terminal() ==> modified(
            order,
            request,
        ).consistent(),
{
}

/// The quantities of every order of the model add up, of those that rest
/// and of those on the way back to the strategy, and the responses stand in
/// the order in which they arrive. An order that rests has a price that can
/// name a level, has executed nothing, and has no request named on it.
pub open spec fn sound<Q>(m: Matching<Q>) -> bool {
    &&& sorted_by_delivery(m.outbox)
    &&& all_consistent(m.outbox)
    &&& forall|id: i64|
        m.orders.contains_key(id) ==> {
            &&& (#[trigger] m.orders[id]).consistent()
            &&& m.orders[id].exec_qty == 0
            &&& m.orders[id].req == Status::Unset
            &&& m.orders[id].priced()
        }
}

/// Whether an order at this price would trade at once against the book: a
/// buy at or above the best ask, a sell at or below the best bid. Against
/// an empty side nothing crosses.
pub open spec fn crosses<Q>(order: Order<Q>, book: Book) -> bool {
    match order.side {
        Side::Buy => book.best_ask() != INVALID_MAX && order.price_tick >= book.best_ask(),
        Side::Sell => book.best_bid() != INVALID_MIN && order.price_tick <= book.best_bid(),
    }
}

/// For a price that can name a level, to cross is to compare with the
/// opposing best and nothing else: the marker of an empty side lies beyond
/// every such price.
pub proof fn lemma_crosses_by_comparison<Q>(order: Order<Q>, book: Book)
    requires
        order.priced(),
    ensures
        crosses(order, book) == match order.side {
            Side::Buy => order.price_tick >= book.best_ask(),
            Side::Sell => order.price_tick <= book.best_bid(),
        },
{
}

/// The best tick of the side that an order would trade against.
pub open spec fn opposing_best<Q>(order: Order<Q>, book: Book) -> i32 {
    match order.side {
        Side::Buy => book.best_ask(),
        Side::Sell => book.best_bid(),
    }
}

/// What an event asks of the resting orders.
#[derive(Clone, Copy, Debug, PartialEq, Eq, Structural)]
pub enum Sweep {
    /// The bid quantity at `tick` went from `prev_qty` to `new_qty`: the
    /// buys that rest there move in their queue.
    BidQty { tick: i32, prev_qty: u32, new_qty: u32 },
    /// The ask quantity at `tick` went from `prev_qty` to `new_qty`: the
    /// sells that rest there move in their queue.
    AskQty { tick: i32, prev_qty: u32, new_qty: u32 },
    /// The best bid rose to `tick`: the sells at or below it are filled.
    BestBid { tick: i32 },
    /// The best ask fell to `tick`: the buys at or above it are filled.
    BestAsk { tick: i32 },
    /// A buyer took `qty` at `tick`: the sells below are filled, and those
    /// at the tick move in their queue and are filled if it has passed them.
    BuyTrade { tick: i32, qty: u32 },
    /// A seller took `qty` at `tick`: the buys above are filled, and those
    /// at the tick move in their queue and are filled if it has passed them.
    SellTrade { tick: i32, qty: u32 },
}

impl Sweep {
    /// The side of the resting orders that the sweep is about.
    pub open spec fn side(self) -> Side {
        match self {
            Sweep::BidQty { .. } => Side::Buy,
            Sweep::AskQty { .. } => Side::Sell,
            Sweep::BestBid { .. } => Side::Sell,
            Sweep::BestAsk { .. } => Side::Buy,
            Sweep::BuyTrade { .. } => Side::Sell,
            Sweep::SellTrade { .. } => Side::Buy,
        }
    }

    /// Whether the sweep can fill orders. A change of quantity cannot.
    pub open spec fn fills(self) -> bool {
        !(self is BidQty) && !(self is AskQty)
    }

    /// Whether the sweep is about orders of `side` at `price_tick`.
    pub open spec fn reaches(self, side: Side, price_tick: i32) -> bool {
        side == self.side() && match self {
            Sweep::BidQty { tick, .. } => price_tick == tick,
            Sweep::AskQty { tick, .. } => price_tick == tick,
            Sweep::BestBid { tick } => price_tick <= tick,
            Sweep::BestAsk { tick } => price_tick >= tick,
            Sweep::BuyTrade { tick, .. } => price_tick <= tick,
            Sweep::SellTrade { tick, .. } => price_tick >= tick,
        }
    }
}

/// What a list without repetition holds after a fresh id was put behind it.
pub proof fn lemma_push_fresh(s: Seq<i64>, id: i64)
    requires
        s.no_duplicates(),
        !s.contains(id),
    ensures
        s.push(id).no_duplicates(),
        forall|x: i64| #[trigger] s.push(id).contains(x) <==> s.contains(x) || x == id,
{
    let r = s.push(id);
    assert forall|x: i64| #[trigger] r.contains(x) <==> s.contains(x) || x == id by {
        if s.contains(x) {
            let k = choose|k: int| 0 <= k < s.len() && s[k] == x;
            assert(r[k] == x);
        }
        assert(r[s.len() as int] == id);
    }
}

/// What the strategy waits for: the earlier of the response it waits for
/// and what was due before, once the awaited order was answered.
pub open spec fn next_wakeup(
    order_id: i64,
    wait_resp: i64,
    next_timestamp: i64,
    resp_timestamp: i64,
) -> i64 {
    if wait_resp == order_id {
        if next_timestamp > 0 && next_timestamp < resp_timestamp {
            next_timestamp
        } else {
            resp_timestamp
        }
    } else {
        next_timestamp
    }
}

/// The exchange processor. It holds the resting orders by id and, for each
/// side, by price tick; it reads the events that the exchange saw and
/// matches the resting orders against them; and it answers the requests
/// that arrive on its inbound bus.
pub struct NoPartialFillExchange<AT, Q, LM, QM> {
    pub reader: Reader,
    pub data: Data,
    pub row_num: usize,
    pub orders: OrderStore<Q>,
    pub buy_orders: TickIndex,
    pub sell_orders: TickIndex,
    pub orders_to: OrderBus<Q>,
    pub orders_from: OrderBus<Q>,
    pub depth: HashMapMarketDepth,
    pub state: State<AT>,
    pub order_latency: LM,
    pub queue_model: QM,
    pub filled_orders: Vec<i64>,
}

impl<AT, Q, LM, QM> NoPartialFillExchange<AT, Q, LM, QM> where
    AT: AssetType,
    Q: Copy,
    LM: LatencyModel<Q>,
    QM: QueueModel<Q>,
 {
    /// The resting orders, the account and the outbound bus.
    pub open spec fn model(&self) -> Matching<Q> {
        Matching {
            orders: self.orders@,
            ids: self.orders.ids(),
            values: self.state.values(),
            outbox: self.orders_to@,
        }
    }

    /// The resting orders, the account and the outbound bus are those of
    /// `m`.
    pub open spec fn is_model(&self, m: Matching<Q>) -> bool {
        &&& self.orders@ =~= m.orders
        &&& self.orders.ids() =~= m.ids
        &&& self.state.values() == m.values
        &&& self.orders_to@ =~= m.outbox
    }

    /// The index of one side.
    pub open spec fn index(&self, side: Side) -> TickIndex {
        match side {
            Side::Buy => self.buy_orders,
            Side::Sell => self.sell_orders,
        }
    }

    /// The index of `side` lists each resting order of that side once, at
    /// its price tick, and nothing else.
    pub open spec fn indexed(&self, side: Side) -> bool {
        &&& forall|t: i32| #[trigger] self.index(side).ids_at(t).no_duplicates()
        &&& forall|t: i32, id: i64| #[trigger]
            self.index(side).ids_at(t).contains(id) <==> self.orders@.contains_key(id)
                && self.orders@[id].side == side && self.orders@[id].price_tick == t
    }

    /// The index of `side` lists the resting orders of each tick in the
    /// order in which the store walks them.
    #[verifier::opaque]
    pub open spec fn in_order(&self, side: Side) -> bool {
        forall|t: i32| #[trigger]
            self.index(side).ids_at(t) == pick(self.orders.ids(), self.orders@, side, t)
    }

    /// The parts fit together: the containers are sound and the two indices
    /// agree with the resting orders.
    pub open spec fn wf_core(&self) -> bool {
        &&& self.reader.wf()
        &&& valid_rows(self.data@)
        &&& self.orders.wf()
        &&& self.orders_to.wf()
        &&& self.orders_to.consistent()
        &&& self.orders_from.wf()
        &&& self.depth.wf()
        &&& self.indexed(Side::Buy)
        &&& self.indexed(Side::Sell)
        &&& self.in_order(Side::Buy)
        &&& self.in_order(Side::Sell)
    }

    /// What holds of an order that rests in the book: it was accepted, no
    /// request is named on it, it can be placed as it is, with nothing
    /// executed, and it does not cross the book.
    pub open spec fn resting_ok(&self, order: Order<Q>) -> bool {
        &&& order.status == Status::New
        &&& order.req == Status::Unset
        &&& order.placeable()
        &&& !crosses(order, self.depth.book())
    }

    /// The processor between two events: the parts fit together, no fill
    /// waits to be cleared away, and every resting order is in order.
    pub open spec fn wf(&self) -> bool {
        &&& self.wf_core()
        &&& self.filled_orders@.len() == 0
        &&& forall|id: i64| #[trigger]
            self.orders@.contains_key(id) ==> self.resting_ok(self.orders@[id])
    }

    /// The two models, the fee rates and the asset type are those of `pre`.
    pub open spec fn same_models(&self, pre: &Self) -> bool {
        &&& self.order_latency == pre.order_latency
        &&& self.queue_model == pre.queue_model
        &&& self.state.maker_fee == pre.state.maker_fee
        &&& self.state.taker_fee == pre.state.taker_fee
        &&& self.state.asset_type == pre.state.asset_type
    }

    /// The rules by which requests are answered are those of `pre`: the
    /// book, the two models, the fee rates and the asset type. The position
    /// in the data is the same too.
    pub open spec fn same_rules(&self, pre: &Self) -> bool {
        &&& self.same_models(pre)
        &&& self.reader == pre.reader
        &&& self.data == pre.data
        &&& self.row_num == pre.row_num
        &&& self.depth == pre.depth
    }

    /// Only the resting orders, their indices, the account's values, the
    /// outbound bus and the list of fills may differ from `pre`.
    pub open spec fn framed(&self, pre: &Self) -> bool {
        &&& self.same_rules(pre)
        &&& self.orders_from == pre.orders_from
    }

    /// The number of resting orders.
    pub open spec fn resting(&self) -> int {
        self.orders.ids().len() as int
    }

    /// The processor has answered at most `requests` requests since `pre`
    /// and has filled resting orders. Each request has put at most one
    /// order to rest and one response on the bus, each fill of a resting
    /// order has taken it out of the book and put it on the bus, and the
    /// account has spent at most one unit of room for each order that was
    /// asked for and does not rest now.
    pub open spec fn within(&self, pre: &Self, requests: int) -> bool {
        &&& self.resting() <= pre.resting() + requests
        &&& self.orders_to@.len() + self.resting() <= pre.orders_to@.len() + pre.resting() + 2
            * requests
        &&& self.state.values().spends(
            pre.state.values(),
            requests + pre.resting() - self.resting(),
        )
    }

    /// What holds within some requests of `pre` and then within some more
    /// holds within all of them.
    pub proof fn lemma_within(&self, mid: &Self, pre: &Self, r1: int, r2: int)
        requires
            0 <= r1,
            0 <= r2,
            mid.within(pre, r1),
            self.within(mid, r2),
        ensures
            self.within(pre, r1 + r2),
    {
        lemma_spends(
            pre.state.values(),
            mid.state.values(),
            self.state.values(),
            r1 + pre.resting() - mid.resting(),
            r2 + mid.resting() - self.resting(),
            r1 + r2 + pre.resting() - self.resting(),
        );
    }

    /// When a response that the exchange sends at `timestamp` arrives.
    pub open spec fn response_due(&self, order: Order<Q>, timestamp: i64) -> i64 {
        spec_delivery_timestamp(timestamp, self.order_latency.spec_response(timestamp, order))
    }

    /// The model after the execution recorded on `order` was booked and the
    /// order sent back.
    pub open spec fn recorded(&self, m: Matching<Q>, order: Order<Q>) -> Matching<Q> {
        Matching {
            orders: m.orders,
            ids: m.ids,
            values: m.values.filled(
                order.side,
                order.exec_qty,
                self.state.asset_type.spec_amount(order.exec_price_tick, order.exec_qty),
                self.state.fee_rate(order.maker),
            ),
            outbox: bus_append(m.outbox, order, self.response_due(order, order.exch_timestamp)),
        }
    }

    /// The model after `order` was sent back without an execution.
    pub open spec fn replied(&self, m: Matching<Q>, order: Order<Q>) -> Matching<Q> {
        Matching {
            orders: m.orders,
            ids: m.ids,
            values: m.values,
            outbox: bus_append(m.outbox, order, self.response_due(order, order.exch_timestamp)),
        }
    }

    /// A fill: refused on an order that has left the book, and otherwise
    /// the whole remainder at once.
    pub open spec fn spec_fill(
        &self,
        m: Matching<Q>,
        order: Order<Q>,
        timestamp: i64,
        maker: bool,
        exec_price_tick: i32,
    ) -> (Matching<Q>, Order<Q>, Result<i64, Error>) {
        if order.status.spec_is_terminal() {
            (m, order, Err(Error::InvalidOrderStatus))
        } else {
            let f = filled_order(order, timestamp, maker, exec_price_tick);
            (self.recorded(m, f), f, Ok(self.response_due(f, timestamp)))
        }
    }

    /// An order that is new to the book is placed, with no request named
    /// on it any more: where it crosses the book, it expires with nothing
    /// left if it is post-only and is else filled as taker at the opposing
    /// best; otherwise it gets its queue position and comes to rest behind
    /// the orders that rest already.
    pub open spec fn spec_place(&self, m: Matching<Q>, order: Order<Q>, timestamp: i64) -> (
        Matching<Q>,
        Result<i64, Error>,
    ) {
        let book = self.depth.book();
        let order = Order { req: Status::Unset, ..order };
        if crosses(order, book) {
            if order.time_in_force == TimeInForce::GTX {
                let e = answered(order, Status::Expired, timestamp);
                (self.replied(m, e), Ok(self.response_due(e, timestamp)))
            } else {
                let f = self.spec_fill(m, order, timestamp, false, opposing_best(order, book));
                (f.0, f.2)
            }
        } else {
            let a = answered(
                Order { q: self.queue_model.spec_new_order(order, book), ..order },
                Status::New,
                timestamp,
            );
            let r = self.replied(m, a);
            (
                Matching {
                    orders: m.orders.insert(a.order_id, a),
                    ids: m.ids.push(a.order_id),
                    values: r.values,
                    outbox: r.outbox,
                },
                Ok(self.response_due(a, timestamp)),
            )
        }
    }

    /// A new order: refused where the id is taken, and placed otherwise.
    pub open spec fn spec_ack_new(&self, m: Matching<Q>, order: Order<Q>, timestamp: i64) -> (
        Matching<Q>,
        Result<i64, Error>,
    ) {
        if m.orders.contains_key(order.order_id) {
            (m, Err(Error::OrderAlreadyExist))
        } else {
            self.spec_place(m, order, timestamp)
        }
    }

    /// The model without the resting order of the given id.
    pub open spec fn taken_out(m: Matching<Q>, order_id: i64) -> Matching<Q> {
        Matching {
            orders: m.orders.remove(order_id),
            ids: without_id(m.ids, order_id),
            values: m.values,
            outbox: m.outbox,
        }
    }

    /// A cancellation: the order leaves the book and is sent back canceled,
    /// with nothing left. Where no such order rests the answer is that
    /// nothing was found.
    pub open spec fn spec_ack_cancel(&self, m: Matching<Q>, order: Order<Q>, timestamp: i64) -> (
        Matching<Q>,
        Result<i64, Error>,
    ) {
        if !m.orders.contains_key(order.order_id) {
            let e = not_found(order, Status::Canceled, timestamp);
            (self.replied(m, e), Ok(self.response_due(e, timestamp)))
        } else {
            let c = answered(m.orders[order.order_id], Status::Canceled, timestamp);
            (
                self.replied(Self::taken_out(m, order.order_id), c),
                Ok(self.response_due(c, timestamp)),
            )
        }
    }

    /// A modification: the resting order leaves the book, takes over price
    /// and quantity of the request, and is then placed as a new order
    /// would be. Where no such order rests the answer is that nothing was
    /// found.
    pub open spec fn spec_ack_modify(&self, m: Matching<Q>, order: Order<Q>, timestamp: i64) -> (
        Matching<Q>,
        Result<i64, Error>,
    ) {
        if !m.orders.contains_key(order.order_id) {
            let e = not_found(order, Status::Modify, timestamp);
            (self.replied(m, e), Ok(self.response_due(e, timestamp)))
        } else {
            self.spec_place(
                Self::taken_out(m, order.order_id),
                modified(m.orders[order.order_id], order),
                timestamp,
            )
        }
    }

    /// One request off the inbound bus: it is answered by its kind, and the
    /// result is the next time at which the strategy has to look. A request
    /// of no known kind is refused, and so is one whose quantities do not
    /// add up, a new order that cannot be placed, and a modification to a
    /// price that can name no level.
    pub open spec fn spec_recv(
        &self,
        m: Matching<Q>,
        order: Order<Q>,
        recv_timestamp: i64,
        wait_resp: i64,
        next_timestamp: i64,
    ) -> (Matching<Q>, Result<i64, Error>) {
        let o = Order { req: Status::Unset, ..order };
        let a = if order.req == Status::New && order.placeable() {
            self.spec_ack_new(m, o, recv_timestamp)
        } else if order.req == Status::Canceled && order.consistent() {
            self.spec_ack_cancel(m, o, recv_timestamp)
        } else if order.req == Status::Modify && order.consistent() && order.priced() {
            self.spec_ack_modify(m, o, recv_timestamp)
        } else {
            (m, Err(Error::InvalidOrderRequest))
        };
        match a.1 {
            Ok(resp) => (
                a.0,
                Ok(next_wakeup(order.order_id, wait_resp, next_timestamp, resp)),
            ),
            Err(e) => (a.0, Err(e)),
        }
    }

    /// The requests at the head of the inbound bus that are due at
    /// `timestamp`, answered one after the other; an error ends it. The
    /// result is the model, what is left on the bus, and the next time at
    /// which the strategy has to look.
    pub open spec fn spec_drain(
        &self,
        m: Matching<Q>,
        inbox: Seq<(Order<Q>, i64)>,
        timestamp: i64,
        wait_resp: i64,
        next_timestamp: i64,
    ) -> (Matching<Q>, Seq<(Order<Q>, i64)>, Result<i64, Error>)
        decreases inbox.len(),
    {
        if inbox.len() == 0 || inbox[0].1 != timestamp {
            (m, inbox, Ok(next_timestamp))
        } else {
            let s = self.spec_recv(m, inbox[0].0, timestamp, wait_resp, next_timestamp);
            match s.1 {
                Ok(next) => self.spec_drain(s.0, inbox.skip(1), timestamp, wait_resp, next),
                Err(e) => (s.0, inbox.skip(1), Err(e)),
            }
        }
    }

    /// A fill keeps the quantities of every order sound, whatever the
    /// account holds.
    pub proof fn lemma_fill_sound(
        &self,
        m: Matching<Q>,
        order: Order<Q>,
        timestamp: i64,
        maker: bool,
        exec_price_tick: i32,
    )
        requires
            sound(m),
            order.leaves_qty + order.exec_qty <= order.qty,
        ensures
            sound(self.spec_fill(m, order, timestamp, maker, exec_price_tick).0),
    {
        if !order.status.spec_is_terminal() {
            let f = filled_order(order, timestamp, maker, exec_price_tick);
            let due = self.response_due(f, f.exch_timestamp);
            lemma_bus_append_sorted(m.outbox, f, due);
            lemma_bus_append_consistent(m.outbox, f, due);
        }
    }

    /// Fills that are booked and sent back keep the quantities of every
    /// order sound, whatever the account holds.
    pub proof fn lemma_fills_sound(&self, m: Matching<Q>, fills: Seq<Order<Q>>)
        requires
            sound(m),
            forall|k: int| 0 <= k < fills.len() ==> (#[trigger] fills[k]).consistent(),
        ensures
            sound(self.after_fills(m, fills)),
        decreases fills.len(),
    {
        if fills.len() > 0 {
            let rest = fills.drop_last();
            assert forall|k: int| 0 <= k < rest.len() implies (#[trigger] rest[k]).consistent() by {
                assert(rest[k] == fills[k]);
            }
            self.lemma_fills_sound(m, rest);
            let w = self.after_fills(m, rest);
            let f = fills.last();
            assert(f == fills[fills.len() - 1]);
            let due = self.response_due(f, f.exch_timestamp);
            lemma_bus_append_sorted(w.outbox, f, due);
            lemma_bus_append_consistent(w.outbox, f, due);
        }
    }

    /// Placing an order keeps the quantities of every order sound.
    pub proof fn lemma_place_sound(&self, m: Matching<Q>, order: Order<Q>, timestamp: i64)
        requires
            sound(m),
            order.leaves_qty + order.exec_qty <= order.qty,
            order.exec_qty == 0,
            order.priced(),
        ensures
            sound(self.spec_place(m, order, timestamp).0),
    {
        let book = self.depth.book();
        let order = Order { req: Status::Unset, ..order };
        if crosses(order, book) {
            if order.time_in_force == TimeInForce::GTX {
                let e = answered(order, Status::Expired, timestamp);
                let due = self.response_due(e, e.exch_timestamp);
                lemma_bus_append_sorted(m.outbox, e, due);
                lemma_bus_append_consistent(m.outbox, e, due);
            } else {
                self.lemma_fill_sound(m, order, timestamp, false, opposing_best(order, book));
            }
        } else {
            let a = answered(
                Order { q: self.queue_model.spec_new_order(order, book), ..order },
                Status::New,
                timestamp,
            );
            let due = self.response_due(a, a.exch_timestamp);
            lemma_bus_append_sorted(m.outbox, a, due);
            lemma_bus_append_consistent(m.outbox, a, due);
        }
    }

    /// For every order at every answer: whatever the request and whatever
    /// the account holds, answering it keeps the quantities of every order
    /// sound. What is left and what was executed never exceed what was
    /// ordered, and an order that has left the book for good has nothing
    /// left.
    pub proof fn lemma_recv_sound(
        &self,
        m: Matching<Q>,
        order: Order<Q>,
        recv_timestamp: i64,
        wait_resp: i64,
        next_timestamp: i64,
    )
        requires
            sound(m),
        ensures
            sound(self.spec_recv(m, order, recv_timestamp, wait_resp, next_timestamp).0),
    {
        let o = Order { req: Status::Unset, ..order };
        let id = order.order_id;
        if order.req == Status::New && order.placeable() {
            if !m.orders.contains_key(id) {
                self.lemma_place_sound(m, o, recv_timestamp);
            }
        } else if order.req == Status::Canceled && order.consistent() {
            let c = if m.orders.contains_key(id) {
                answered(m.orders[id], Status::Canceled, recv_timestamp)
            } else {
                not_found(o, Status::Canceled, recv_timestamp)
            };
            let due = self.response_due(c, c.exch_timestamp);
            lemma_bus_append_sorted(m.outbox, c, due);
            lemma_bus_append_consistent(m.outbox, c, due);
        } else if order.req == Status::Modify && order.consistent() && order.priced() {
            if !m.orders.contains_key(id) {
                let e = not_found(o, Status::Modify, recv_timestamp);
                let due = self.response_due(e, e.exch_timestamp);
                lemma_bus_append_sorted(m.outbox, e, due);
                lemma_bus_append_consistent(m.outbox, e, due);
            } else {
                let gone = Self::taken_out(m, id);
                assert(sound(gone));
                self.lemma_place_sound(gone, modified(m.orders[id], o), recv_timestamp);
            }
        }
    }

    /// Answering one request uses up at most one unit of the account's
    /// room.
    pub proof fn lemma_recv_room(
        &self,
        m: Matching<Q>,
        order: Order<Q>,
        recv_timestamp: i64,
        wait_resp: i64,
        next_timestamp: i64,
        k: int,
    )
        requires
            k >= 1,
            m.values.room(k),
        ensures
            self.spec_recv(m, order, recv_timestamp, wait_resp, next_timestamp).0.values.room(
                k - 1,
            ),
    {
        let v = self.spec_recv(m, order, recv_timestamp, wait_resp, next_timestamp).0.values;
        lemma_room_less(m.values, k, k - 1);
        if v != m.values {
            let o = Order { req: Status::Unset, ..order };
            let book = self.depth.book();
            let u = if order.req == Status::New {
                o
            } else {
                modified(m.orders[order.order_id], o)
            };
            let f = filled_order(u, recv_timestamp, false, opposing_best(u, book));
            lemma_filled_room(
                m.values,
                k,
                f.side,
                f.exec_qty,
                self.state.asset_type.spec_amount(f.exec_price_tick, f.exec_qty),
                self.state.fee_rate(f.maker),
            );
        }
    }

    /// The resting order after the sweep moved it in its queue. Only the
    /// queue position changes, and only for orders at the tick of a
    /// quantity change or of a trade.
    pub open spec fn touched(&self, sweep: Sweep, order: Order<Q>) -> Order<Q> {
        let book = self.depth.book();
        if order.side != sweep.side() {
            order
        } else {
            match sweep {
                Sweep::BidQty { tick, prev_qty, new_qty } => if order.price_tick == tick {
                    Order { q: self.queue_model.spec_depth(order, prev_qty, new_qty, book),
                        ..order }
                } else {
                    order
                },
                Sweep::AskQty { tick, prev_qty, new_qty } => if order.price_tick == tick {
                    Order { q: self.queue_model.spec_depth(order, prev_qty, new_qty, book),
                        ..order }
                } else {
                    order
                },
                Sweep::BestBid { .. } => order,
                Sweep::BestAsk { .. } => order,
                Sweep::BuyTrade { tick, qty } => if order.price_tick == tick {
                    Order { q: self.queue_model.spec_trade(order, qty, book), ..order }
                } else {
                    order
                },
                Sweep::SellTrade { tick, qty } => if order.price_tick == tick {
                    Order { q: self.queue_model.spec_trade(order, qty, book), ..order }
                } else {
                    order
                },
            }
        }
    }

    /// Whether the sweep fills the order, which has been moved in its queue
    /// already.
    pub open spec fn hit(&self, sweep: Sweep, order: Order<Q>) -> bool {
        let book = self.depth.book();
        order.side == sweep.side() && match sweep {
            Sweep::BidQty { .. } => false,
            Sweep::AskQty { .. } => false,
            Sweep::BestBid { tick } => order.price_tick <= tick,
            Sweep::BestAsk { tick } => order.price_tick >= tick,
            Sweep::BuyTrade { tick, .. } => order.price_tick < tick || (order.price_tick == tick
                && self.queue_model.spec_is_filled(order, book)),
            Sweep::SellTrade { tick, .. } => order.price_tick > tick || (order.price_tick == tick
                && self.queue_model.spec_is_filled(order, book)),
        }
    }

    /// What the sweep makes of one resting order at `timestamp`: moved in
    /// its queue, and filled as maker where the sweep hits it.
    pub open spec fn swept_order(&self, sweep: Sweep, timestamp: i64, order: Order<Q>) -> Order<Q> {
        let t = self.touched(sweep, order);
        if self.hit(sweep, t) {
            filled_order(t, timestamp, true, t.price_tick)
        } else {
            t
        }
    }

    /// The model after the fills were booked and sent back one after the
    /// other.
    pub open spec fn after_fills(&self, m: Matching<Q>, fills: Seq<Order<Q>>) -> Matching<Q>
        decreases fills.len(),
    {
        if fills.len() == 0 {
            m
        } else {
            self.recorded(self.after_fills(m, fills.drop_last()), fills.last())
        }
    }

    /// The resting orders of `side` at the ticks from `lo` to `hi`, tick by
    /// tick, and at each tick in the order in which the store walks them.
    /// This is what the index of that side lists.
    pub open spec fn listed(&self, side: Side, lo: int, hi: int) -> Seq<i64>
        decreases hi - lo + 1,
    {
        if hi < lo {
            Seq::empty()
        } else {
            self.listed(side, lo, hi - 1) + pick(
                self.orders.ids(),
                self.orders@,
                side,
                hi as i32,
            )
        }
    }

    /// The resting orders that a sweep over the ticks from `lo` to `hi` of
    /// one side looks at, in the order in which it does. Where the book
    /// holds fewer orders than the range has ticks, or where `all` asks for
    /// it, these are all resting orders as the store walks them; otherwise
    /// they are read off the index of that side.
    pub open spec fn walk(&self, side: Side, lo: int, hi: int, all: bool) -> Seq<i64> {
        if all || hi < lo || self.resting() < hi - lo + 1 {
            self.orders.ids()
        } else {
            self.listed(side, lo, hi)
        }
    }

    /// The walk for a best bid that rose from `prev_best_tick` to
    /// `new_best_tick`: over the sells at the ticks in between, and over
    /// all orders where there was no bid before.
    pub open spec fn bid_walk(&self, prev_best_tick: i32, new_best_tick: i32) -> Seq<i64> {
        if prev_best_tick == INVALID_MIN {
            self.walk(Side::Sell, i32::MIN as int, new_best_tick as int, true)
        } else {
            self.walk(Side::Sell, prev_best_tick + 1, new_best_tick as int, false)
        }
    }

    /// The walk for a best ask that fell from `prev_best_tick` to
    /// `new_best_tick`: over the buys at the ticks in between, and over all
    /// orders where there was no ask before.
    pub open spec fn ask_walk(&self, prev_best_tick: i32, new_best_tick: i32) -> Seq<i64> {
        if prev_best_tick == INVALID_MAX {
            self.walk(Side::Buy, new_best_tick as int, i32::MAX as int, true)
        } else {
            self.walk(Side::Buy, new_best_tick as int, prev_best_tick - 1, false)
        }
    }

    /// The walk for a trade: over the orders that it can have gone through,
    /// between the best tick of their own side's opposite and the trade
    /// price.
    pub open spec fn trade_walk(&self, sweep: Sweep) -> Seq<i64> {
        match sweep {
            Sweep::BuyTrade { tick, .. } => self.bid_walk(self.depth.book().best_bid(), tick),
            Sweep::SellTrade { tick, .. } => self.ask_walk(self.depth.book().best_ask(), tick),
            _ => Seq::empty(),
        }
    }

    /// The fills of a sweep that walks the orders `ids`: those among them
    /// that the sweep hits, in the order of the walk, as the sweep leaves
    /// them.
    pub open spec fn fills_in(
        &self,
        orders: Map<i64, Order<Q>>,
        sweep: Sweep,
        timestamp: i64,
        ids: Seq<i64>,
    ) -> Seq<Order<Q>>
        decreases ids.len(),
    {
        if ids.len() == 0 {
            Seq::empty()
        } else {
            let rest = self.fills_in(orders, sweep, timestamp, ids.drop_last());
            let order = orders[ids.last()];
            if self.hit(sweep, self.touched(sweep, order)) {
                rest.push(self.swept_order(sweep, timestamp, order))
            } else {
                rest
            }
        }
    }

    /// The fills of a walk depend on the book and the queue model alone.
    pub proof fn lemma_fills_in_rules(
        &self,
        other: &Self,
        orders: Map<i64, Order<Q>>,
        sweep: Sweep,
        timestamp: i64,
        ids: Seq<i64>,
    )
        requires
            self.depth.book() == other.depth.book(),
            self.queue_model == other.queue_model,
        ensures
            self.fills_in(orders, sweep, timestamp, ids) == other.fills_in(
                orders,
                sweep,
                timestamp,
                ids,
            ),
        decreases ids.len(),
    {
        if ids.len() > 0 {
            self.lemma_fills_in_rules(other, orders, sweep, timestamp, ids.drop_last());
        }
    }

    /// `fills` are the fills of the sweep on the orders of `m`, each once
    /// and in the order in which they were made: the orders that the sweep
    /// hits, as the sweep leaves them.
    pub open spec fn fills_of(
        &self,
        m: Matching<Q>,
        sweep: Sweep,
        timestamp: i64,
        fills: Seq<Order<Q>>,
    ) -> bool {
        &&& forall|i: int, j: int|
            0 <= i < j < fills.len() ==> fills[i].order_id != fills[j].order_id
        &&& forall|i: int|
            0 <= i < fills.len() ==> m.orders.contains_key(#[trigger] fills[i].order_id)
                && self.hit(sweep, self.touched(sweep, m.orders[fills[i].order_id])) && fills[i]
                == self.swept_order(sweep, timestamp, m.orders[fills[i].order_id])
        &&& forall|id: i64| #[trigger]
            m.orders.contains_key(id) && self.hit(sweep, self.touched(sweep, m.orders[id]))
                ==> exists|i: int| 0 <= i < fills.len() && fills[i].order_id == id
    }

    /// Whichever way a sweep walks the book, it makes the same fills: two
    /// sequences that are both the fills of one sweep hold the same orders.
    pub proof fn lemma_fills_agree(
        &self,
        m: Matching<Q>,
        sweep: Sweep,
        timestamp: i64,
        one: Seq<Order<Q>>,
        other: Seq<Order<Q>>,
    )
        requires
            self.fills_of(m, sweep, timestamp, one),
            self.fills_of(m, sweep, timestamp, other),
        ensures
            forall|order: Order<Q>| one.contains(order) <==> other.contains(order),
            one.len() == other.len(),
    {
        assert forall|order: Order<Q>| one.contains(order) implies other.contains(order) by {
            let i = choose|i: int| 0 <= i < one.len() && one[i] == order;
            assert(m.orders.contains_key(one[i].order_id));
            let j = choose|j: int| 0 <= j < other.len() && other[j].order_id == one[i].order_id;
            assert(m.orders.contains_key(other[j].order_id));
        }
        assert forall|order: Order<Q>| other.contains(order) implies one.contains(order) by {
            let i = choose|i: int| 0 <= i < other.len() && other[i] == order;
            assert(m.orders.contains_key(other[i].order_id));
            let j = choose|j: int| 0 <= j < one.len() && one[j].order_id == other[i].order_id;
            assert(m.orders.contains_key(one[j].order_id));
        }
        assert(one.no_duplicates()) by {
            assert forall|i: int, j: int|
                0 <= i < one.len() && 0 <= j < one.len() && i != j implies one[i] != one[j] by {
                if i < j {
                    assert(one[i].order_id != one[j].order_id);
                } else {
                    assert(one[j].order_id != one[i].order_id);
                }
            }
        }
        assert(other.no_duplicates()) by {
            assert forall|i: int, j: int|
                0 <= i < other.len() && 0 <= j < other.len() && i != j implies other[i]
                != other[j] by {
                if i < j {
                    assert(other[i].order_id != other[j].order_id);
                } else {
                    assert(other[j].order_id != other[i].order_id);
                }
            }
        }
        one.unique_seq_to_set();
        other.unique_seq_to_set();
        assert(one.to_set() =~= other.to_set());
    }

    /// The processor is what the sweep makes of `m` with the given fills:
    /// the orders that were hit have left the book, the others rest as the
    /// sweep moved them, and the fills are booked and on their way back.
    pub open spec fn swept(
        &self,
        m: Matching<Q>,
        sweep: Sweep,
        timestamp: i64,
        fills: Seq<Order<Q>>,
    ) -> bool {
        &&& self.fills_of(m, sweep, timestamp, fills)
        &&& forall|id: i64| #[trigger]
            self.orders@.contains_key(id) <==> m.orders.contains_key(id) && !self.hit(
                sweep,
                self.touched(sweep, m.orders[id]),
            )
        &&& forall|id: i64| #[trigger]
            self.orders@.contains_key(id) ==> self.orders@[id] == self.touched(sweep, m.orders[id])
        &&& self.orders.ids() =~= stripped(m.ids, fill_ids(fills))
        &&& self.state.values() == self.after_fills(m, fills).values
        &&& self.orders_to@ =~= self.after_fills(m, fills).outbox
    }

    /// The model after a change of quantity moved the orders at its tick in
    /// their queues.
    pub open spec fn qty_changed(&self, m: Matching<Q>, sweep: Sweep) -> Matching<Q> {
        Matching {
            orders: m.orders.map_values(|o: Order<Q>| self.touched(sweep, o)),
            ids: m.ids,
            values: m.values,
            outbox: m.outbox,
        }
    }

    /// What one event of the data makes of the book and of the resting
    /// orders of `pre`, with `fills` the fills it causes.
    ///
    /// A clear drops levels. A change or snapshot of a level sets its
    /// quantity, moves the orders that rest there in their queues and, where
    /// the best tick of that side improved, fills the resting orders of the
    /// other side that it reached. A trade fills the resting orders that it
    /// went through and works on the queues of those at its price. Any other
    /// event leaves everything as it was.
    pub open spec fn event_applied(&self, pre: &Self, row: Row, fills: Seq<Order<Q>>) -> bool {
        let before = pre.depth.book();
        let book = self.depth.book();
        let m = pre.model();
        if has_flags(row.ev, EXCH_BID_DEPTH_CLEAR_EVENT) {
            &&& book.bids =~= before.cleared(BUY, row.price_tick).bids
            &&& book.asks =~= before.asks
            &&& self.is_model(m)
            &&& fills.len() == 0
        } else if has_flags(row.ev, EXCH_ASK_DEPTH_CLEAR_EVENT) {
            &&& book.bids =~= before.bids
            &&& book.asks =~= before.cleared(SELL, row.price_tick).asks
            &&& self.is_model(m)
            &&& fills.len() == 0
        } else if has_flags(row.ev, EXCH_BID_DEPTH_EVENT) || has_flags(
            row.ev,
            EXCH_BID_DEPTH_SNAPSHOT_EVENT,
        ) {
            let moved = self.qty_changed(
                m,
                Sweep::BidQty {
                    tick: row.price_tick,
                    prev_qty: level_qty(before.bids, row.price_tick),
                    new_qty: row.qty,
                },
            );
            &&& book.bids =~= set_level(before.bids, row.price_tick, row.qty)
            &&& book.asks =~= before.asks
            &&& if book.best_bid() > before.best_bid() {
                self.swept(moved, Sweep::BestBid { tick: book.best_bid() }, row.exch_ts, fills)
            } else {
                self.is_model(moved) && fills.len() == 0
            }
        } else if has_flags(row.ev, EXCH_ASK_DEPTH_EVENT) || has_flags(
            row.ev,
            EXCH_ASK_DEPTH_SNAPSHOT_EVENT,
        ) {
            let moved = self.qty_changed(
                m,
                Sweep::AskQty {
                    tick: row.price_tick,
                    prev_qty: level_qty(before.asks, row.price_tick),
                    new_qty: row.qty,
                },
            );
            &&& book.bids =~= before.bids
            &&& book.asks =~= set_level(before.asks, row.price_tick, row.qty)
            &&& if book.best_ask() < before.best_ask() {
                self.swept(moved, Sweep::BestAsk { tick: book.best_ask() }, row.exch_ts, fills)
            } else {
                self.is_model(moved) && fills.len() == 0
            }
        } else if has_flags(row.ev, EXCH_BUY_TRADE_EVENT) {
            &&& book.bids =~= before.bids
            &&& book.asks =~= before.asks
            &&& self.swept(
                m,
                Sweep::BuyTrade { tick: row.price_tick, qty: row.qty },
                row.exch_ts,
                fills,
            )
        } else if has_flags(row.ev, EXCH_SELL_TRADE_EVENT) {
            &&& book.bids =~= before.bids
            &&& book.asks =~= before.asks
            &&& self.swept(
                m,
                Sweep::SellTrade { tick: row.price_tick, qty: row.qty },
                row.exch_ts,
                fills,
            )
        } else {
            &&& book.bids =~= before.bids
            &&& book.asks =~= before.asks
            &&& self.is_model(m)
            &&& fills.len() == 0
        }
    }

    /// The fills that one event of the data causes, in the order in which
    /// they are made: those of the walk that the event sets off, and none
    /// for an event that sets off no walk.
    pub open spec fn event_fills(&self, pre: &Self, row: Row) -> Seq<Order<Q>> {
        let before = pre.depth.book();
        let book = self.depth.book();
        if has_flags(row.ev, EXCH_BID_DEPTH_CLEAR_EVENT) || has_flags(
            row.ev,
            EXCH_ASK_DEPTH_CLEAR_EVENT,
        ) {
            Seq::empty()
        } else if has_flags(row.ev, EXCH_BID_DEPTH_EVENT) || has_flags(
            row.ev,
            EXCH_BID_DEPTH_SNAPSHOT_EVENT,
        ) {
            if book.best_bid() > before.best_bid() {
                self.fills_in(
                    self.qty_changed(
                        pre.model(),
                        Sweep::BidQty {
                            tick: row.price_tick,
                            prev_qty: level_qty(before.bids, row.price_tick),
                            new_qty: row.qty,
                        },
                    ).orders,
                    Sweep::BestBid { tick: book.best_bid() },
                    row.exch_ts,
                    pre.bid_walk(before.best_bid(), book.best_bid()),
                )
            } else {
                Seq::empty()
            }
        } else if has_flags(row.ev, EXCH_ASK_DEPTH_EVENT) || has_flags(
            row.ev,
            EXCH_ASK_DEPTH_SNAPSHOT_EVENT,
        ) {
            if book.best_ask() < before.best_ask() {
                self.fills_in(
                    self.qty_changed(
                        pre.model(),
                        Sweep::AskQty {
                            tick: row.price_tick,
                            prev_qty: level_qty(before.asks, row.price_tick),
                            new_qty: row.qty,
                        },
                    ).orders,
                    Sweep::BestAsk { tick: book.best_ask() },
                    row.exch_ts,
                    pre.ask_walk(before.best_ask(), book.best_ask()),
                )
            } else {
                Seq::empty()
            }
        } else if has_flags(row.ev, EXCH_BUY_TRADE_EVENT) {
            let sweep = Sweep::BuyTrade { tick: row.price_tick, qty: row.qty };
            self.fills_in(pre.orders@, sweep, row.exch_ts, pre.trade_walk(sweep))
        } else if has_flags(row.ev, EXCH_SELL_TRADE_EVENT) {
            let sweep = Sweep::SellTrade { tick: row.price_tick, qty: row.qty };
            self.fills_in(pre.orders@, sweep, row.exch_ts, pre.trade_walk(sweep))
        } else {
            Seq::empty()
        }
    }

    /// The processor in the middle of an event: the parts fit together, no
    /// fill waits to be cleared away, and every resting order was accepted
    /// and has quantities that add up. The book may have moved across
    /// resting orders that the event has yet to fill.
    pub open spec fn settled(&self) -> bool {
        &&& self.wf_core()
        &&& self.filled_orders@.len() == 0
        &&& forall|id: i64| #[trigger]
            self.orders@.contains_key(id) ==> self.orders@[id].status == Status::New
                && self.orders@[id].consistent()
    }

    /// One resting order under the sweep: moved in its queue, and filled as
    /// maker where the sweep hits it. Without a hit nothing is due.
    pub open spec fn spec_check(
        &self,
        m: Matching<Q>,
        order: Order<Q>,
        sweep: Sweep,
        timestamp: i64,
    ) -> (Matching<Q>, Order<Q>, Result<i64, Error>) {
        let t = self.touched(sweep, order);
        if self.hit(sweep, t) {
            self.spec_fill(m, t, timestamp, true, t.price_tick)
        } else {
            (m, t, Ok(i64::MAX))
        }
    }

    /// An exchange without orders, positioned before the first event.
    pub fn new(
        reader: Reader,
        depth: HashMapMarketDepth,
        state: State<AT>,
        order_latency: LM,
        queue_model: QM,
        orders_to: OrderBus<Q>,
        orders_from: OrderBus<Q>,
    ) -> (x: Self)
        requires
            reader.wf(),
            depth.wf(),
            orders_to.wf(),
            orders_to.consistent(),
            orders_from.wf(),
        ensures
            x.wf(),
            x.reader == reader,
            x.data@ == Seq::<Row>::empty(),
            x.row_num == 0,
            x.orders@ == Map::<i64, Order<Q>>::empty(),
            x.orders.ids() == Seq::<i64>::empty(),
            x.filled_orders@ == Seq::<i64>::empty(),
            x.orders_to == orders_to,
            x.orders_from == orders_from,
            x.depth == depth,
            x.state == state,
            x.order_latency == order_latency,
            x.queue_model == queue_model,
    {
        let x = NoPartialFillExchange {
            reader,
            data: Data::empty(),
            row_num: 0,
            orders: OrderStore::new(),
            buy_orders: TickIndex::new(),
            sell_orders: TickIndex::new(),
            orders_to,
            orders_from,
            depth,
            state,
            order_latency,
            queue_model,
            filled_orders: Vec::new(),
        };
        proof {
            reveal(NoPartialFillExchange::in_order);
            assert forall|side: Side| x.in_order(side) by {
                assert forall|t: i32| #[trigger]
                    x.index(side).ids_at(t) == pick(x.orders.ids(), x.orders@, side, t) by {}
            }
        }
        x
    }

    /// Fills `order` whole: as maker at its own price, as taker at
    /// `exec_price_tick`. The execution is booked on the account and the
    /// order is sent back; the result is when that response arrives. An
    /// order that has left the book is refused.
    pub fn fill(
        &mut self,
        order: &mut Order<Q>,
        timestamp: i64,
        maker: bool,
        exec_price_tick: i32,
    ) -> (r: Result<i64, Error>)
        requires
            old(self).orders_to.wf(),
            old(self).state.values().room(1),
        ensures
            final(self).framed(old(self)),
            final(self).orders == old(self).orders,
            final(self).buy_orders == old(self).buy_orders,
            final(self).sell_orders == old(self).sell_orders,
            final(self).filled_orders == old(self).filled_orders,
            final(self).orders_to.wf(),
            old(order).consistent() ==> final(order).consistent(),
            old(order).consistent() && old(self).orders_to.consistent()
                ==> final(self).orders_to.consistent(),
            final(self).orders_to@.len() == old(self).orders_to@.len() + if r is Ok {
                1int
            } else {
                0int
            },
            final(self).state.values().spends(old(self).state.values(), if r is Ok {
                1int
            } else {
                0int
            }),
            final(self).is_model(
                old(self).spec_fill(
                    old(self).model(),
                    *old(order),
                    timestamp,
                    maker,
                    exec_price_tick,
                ).0,
            ),
            *final(order) == old(self).spec_fill(
                old(self).model(),
                *old(order),
                timestamp,
                maker,
                exec_price_tick,
            ).1,
            r == old(self).spec_fill(
                old(self).model(),
                *old(order),
                timestamp,
                maker,
                exec_price_tick,
            ).2,
    {
        if order.status == Status::Expired || order.status == Status::Canceled || order.status
            == Status::Filled {
            return Err(Error::InvalidOrderStatus);
        }
        order.maker = maker;
        if maker {
            order.exec_price_tick = order.price_tick;
        } else {
            order.exec_price_tick = exec_price_tick;
        }
        order.exec_qty = order.leaves_qty;
        order.leaves_qty = 0;
        order.status = Status::Filled;
        order.exch_timestamp = timestamp;
        let latency = self.order_latency.response(timestamp, order);
        let local_recv_timestamp = delivery_timestamp(timestamp, latency);
        self.state.apply_fill(order);
        self.orders_to.append(*order, local_recv_timestamp);
        proof {
            lemma_filled_spends(
                old(self).state.values(),
                order.side,
                order.exec_qty,
                self.state.asset_type.spec_amount(order.exec_price_tick, order.exec_qty),
                self.state.fee_rate(order.maker),
            );
        }
        Ok(local_recv_timestamp)
    }

    /// The indices stay right where neither they nor the resting orders'
    /// sides and prices change.
    pub proof fn lemma_indexed_same(&self, pre: &Self)
        requires
            pre.indexed(Side::Buy),
            pre.indexed(Side::Sell),
            self.buy_orders == pre.buy_orders,
            self.sell_orders == pre.sell_orders,
            self.orders@.dom() =~= pre.orders@.dom(),
            forall|id: i64| #[trigger]
                self.orders@.contains_key(id) ==> self.orders@[id].side == pre.orders@[id].side
                    && self.orders@[id].price_tick == pre.orders@[id].price_tick,
        ensures
            self.indexed(Side::Buy),
            self.indexed(Side::Sell),
            self.orders.ids() == pre.orders.ids() && pre.orders.wf() && pre.in_order(Side::Buy)
                && pre.in_order(Side::Sell) ==> self.in_order(Side::Buy) && self.in_order(
                Side::Sell,
            ),
    {
        if self.orders.ids() == pre.orders.ids() && pre.orders.wf() && pre.in_order(Side::Buy)
            && pre.in_order(Side::Sell) {
            pre.orders.lemma_ids();
            reveal(NoPartialFillExchange::in_order);
            assert forall|side: Side| self.in_order(side) by {
                assert(pre.in_order(side));
                assert(self.index(side) == pre.index(side));
                assert forall|t: i32| #[trigger]
                    self.index(side).ids_at(t) == pick(self.orders.ids(), self.orders@, side, t)
                        by {
                    assert(pre.index(side).ids_at(t) == pick(
                        pre.orders.ids(),
                        pre.orders@,
                        side,
                        t,
                    ));
                    lemma_pick_same(pre.orders.ids(), self.orders@, pre.orders@, side, t);
                }
            }
        }
        assert forall|side: Side| self.indexed(side) by {
            assert(pre.indexed(side));
            assert(self.index(side) == pre.index(side));
            assert forall|t: i32| #[trigger] self.index(side).ids_at(t).no_duplicates() by {
                assert(pre.index(side).ids_at(t).no_duplicates());
            }
            assert forall|t: i32, x: i64| #[trigger]
                self.index(side).ids_at(t).contains(x) <==> self.orders@.contains_key(x)
                    && self.orders@[x].side == side && self.orders@[x].price_tick == t by {
                assert(pre.index(side).ids_at(t).contains(x) <==> pre.orders@.contains_key(x)
                    && pre.orders@[x].side == side && pre.orders@[x].price_tick == t);
                assert(self.orders@.contains_key(x) <==> pre.orders@.dom().contains(x));
            }
        }
    }

    /// The indices stay right when an order comes to rest and is listed at
    /// its tick.
    pub proof fn lemma_indexed_added(&self, pre: &Self, added: Order<Q>)
        requires
            pre.indexed(Side::Buy),
            pre.indexed(Side::Sell),
            !pre.orders@.contains_key(added.order_id),
            self.orders@ =~= pre.orders@.insert(added.order_id, added),
            self.index(added.side).ids_at(added.price_tick) == pre.index(added.side).ids_at(
                added.price_tick,
            ).push(added.order_id),
            forall|side: Side, t: i32|
                side != added.side || t != added.price_tick ==> #[trigger] self.index(side).ids_at(
                    t,
                ) == pre.index(side).ids_at(t),
        ensures
            self.indexed(Side::Buy),
            self.indexed(Side::Sell),
            self.orders.ids() == pre.orders.ids().push(added.order_id) && pre.orders.wf()
                && pre.in_order(Side::Buy) && pre.in_order(Side::Sell) ==> self.in_order(Side::Buy)
                && self.in_order(Side::Sell),
    {
        let id = added.order_id;
        if self.orders.ids() == pre.orders.ids().push(added.order_id) && pre.orders.wf()
            && pre.in_order(Side::Buy) && pre.in_order(Side::Sell) {
            pre.orders.lemma_ids();
            let ids = pre.orders.ids();
            assert(ids.push(id).drop_last() =~= ids);
            reveal(NoPartialFillExchange::in_order);
            assert forall|side: Side| self.in_order(side) by {
                assert(pre.in_order(side));
                assert forall|t: i32| #[trigger]
                    self.index(side).ids_at(t) == pick(self.orders.ids(), self.orders@, side, t)
                        by {
                    assert(pre.index(side).ids_at(t) == pick(ids, pre.orders@, side, t));
                    assert forall|i: int| 0 <= i < ids.len() implies #[trigger] ids[i] != id by {
                        assert(ids.contains(ids[i]));
                    }
                    lemma_pick_same(ids, self.orders@, pre.orders@, side, t);
                }
            }
        }
        assert forall|side: Side| self.indexed(side) by {
            assert(pre.indexed(side));
            assert forall|t: i32| #[trigger] self.index(side).ids_at(t).no_duplicates() by {
                let before = pre.index(side).ids_at(t);
                assert(before.no_duplicates());
                assert(!before.contains(id));
                if side == added.side && t == added.price_tick {
                    lemma_push_fresh(before, id);
                } else {
                    assert(self.index(side).ids_at(t) == before);
                }
            }
            assert forall|t: i32, x: i64| #[trigger]
                self.index(side).ids_at(t).contains(x) <==> self.orders@.contains_key(x)
                    && self.orders@[x].side == side && self.orders@[x].price_tick == t by {
                let before = pre.index(side).ids_at(t);
                assert(before.contains(x) <==> pre.orders@.contains_key(x) && pre.orders@[x].side
                    == side && pre.orders@[x].price_tick == t);
                if side == added.side && t == added.price_tick {
                    lemma_push_fresh(before, id);
                } else {
                    assert(self.index(side).ids_at(t) == before);
                }
            }
        }
    }

    /// The indices stay right when a resting order leaves and is struck
    /// from its tick.
    pub proof fn lemma_indexed_removed(&self, pre: &Self, gone: Order<Q>)
        requires
            pre.indexed(Side::Buy),
            pre.indexed(Side::Sell),
            pre.orders@.contains_key(gone.order_id),
            pre.orders@[gone.order_id].side == gone.side,
            pre.orders@[gone.order_id].price_tick == gone.price_tick,
            self.orders@ =~= pre.orders@.remove(gone.order_id),
            self.index(gone.side).ids_at(gone.price_tick) == without_id(
                pre.index(gone.side).ids_at(gone.price_tick),
                gone.order_id,
            ),
            forall|side: Side, t: i32|
                side != gone.side || t != gone.price_tick ==> #[trigger] self.index(side).ids_at(t)
                    == pre.index(side).ids_at(t),
        ensures
            self.indexed(Side::Buy),
            self.indexed(Side::Sell),
            self.orders.ids() == without_id(pre.orders.ids(), gone.order_id) && pre.orders.wf()
                && pre.in_order(Side::Buy) && pre.in_order(Side::Sell) ==> self.in_order(Side::Buy)
                && self.in_order(Side::Sell),
    {
        let id = gone.order_id;
        if self.orders.ids() == without_id(pre.orders.ids(), gone.order_id) && pre.orders.wf()
            && pre.in_order(Side::Buy) && pre.in_order(Side::Sell) {
            pre.orders.lemma_ids();
            let ids = pre.orders.ids();
            reveal(NoPartialFillExchange::in_order);
            assert forall|side: Side| self.in_order(side) by {
                assert(pre.in_order(side));
                assert(pre.indexed(side));
                assert forall|t: i32| #[trigger]
                    self.index(side).ids_at(t) == pick(self.orders.ids(), self.orders@, side, t)
                        by {
                    let before = pre.index(side).ids_at(t);
                    assert(before == pick(ids, pre.orders@, side, t));
                    lemma_pick_without(ids, pre.orders@, side, t, id);
                    if !(side == gone.side && t == gone.price_tick) {
                        assert(!before.contains(id));
                        lemma_without_absent(before, id);
                    }
                }
            }
        }
        assert forall|side: Side| self.indexed(side) by {
            assert(pre.indexed(side));
            assert forall|t: i32| #[trigger] self.index(side).ids_at(t).no_duplicates() by {
                let before = pre.index(side).ids_at(t);
                assert(before.no_duplicates());
                if side == gone.side && t == gone.price_tick {
                    lemma_without_id(before, id);
                } else {
                    assert(self.index(side).ids_at(t) == before);
                }
            }
            assert forall|t: i32, x: i64| #[trigger]
                self.index(side).ids_at(t).contains(x) <==> self.orders@.contains_key(x)
                    && self.orders@[x].side == side && self.orders@[x].price_tick == t by {
                let before = pre.index(side).ids_at(t);
                assert(before.no_duplicates());
                assert(before.contains(x) <==> pre.orders@.contains_key(x) && pre.orders@[x].side
                    == side && pre.orders@[x].price_tick == t);
                if side == gone.side && t == gone.price_tick {
                    lemma_without_id(before, id);
                } else {
                    assert(self.index(side).ids_at(t) == before);
                }
            }
        }
    }

    /// Lists a newly resting order in the index of its side.
    fn list(&mut self, order: &Order<Q>)
        requires
            old(self).wf_core(),
            !old(self).orders@.contains_key(order.order_id),
        ensures
            final(self).framed(old(self)),
            final(self).orders == old(self).orders,
            final(self).state == old(self).state,
            final(self).orders_to == old(self).orders_to,
            final(self).filled_orders == old(self).filled_orders,
            final(self).index(order.side).ids_at(order.price_tick) == old(self).index(
                order.side,
            ).ids_at(order.price_tick).push(order.order_id),
            forall|side: Side, t: i32|
                side != order.side || t != order.price_tick ==> #[trigger] final(self).index(
                    side,
                ).ids_at(t) == old(self).index(side).ids_at(t),
    {
        match order.side {
            Side::Buy => self.buy_orders.add(order.price_tick, order.order_id),
            Side::Sell => self.sell_orders.add(order.price_tick, order.order_id),
        }
    }

    /// Strikes an order from the index of its side.
    fn unlist(&mut self, order: &Order<Q>)
        ensures
            final(self).framed(old(self)),
            final(self).orders == old(self).orders,
            final(self).state == old(self).state,
            final(self).orders_to == old(self).orders_to,
            final(self).filled_orders == old(self).filled_orders,
            final(self).index(order.side).ids_at(order.price_tick) == without_id(
                old(self).index(order.side).ids_at(order.price_tick),
                order.order_id,
            ),
            forall|side: Side, t: i32|
                side != order.side || t != order.price_tick ==> #[trigger] final(self).index(
                    side,
                ).ids_at(t) == old(self).index(side).ids_at(t),
    {
        match order.side {
            Side::Buy => self.buy_orders.remove(order.price_tick, order.order_id),
            Side::Sell => self.sell_orders.remove(order.price_tick, order.order_id),
        }
    }

    /// Whether an order at this price would trade at once against the book.
    fn is_crossing(&self, order: &Order<Q>) -> (b: bool)
        requires
            self.depth.wf(),
        ensures
            b == crosses(*order, self.depth.book()),
    {
        match order.side {
            Side::Buy => {
                let best = self.depth.best_ask_tick();
                best != INVALID_MAX && order.price_tick >= best
            },
            Side::Sell => {
                let best = self.depth.best_bid_tick();
                best != INVALID_MIN && order.price_tick <= best
            },
        }
    }

    /// The best tick of the side that the order would trade against.
    fn best_against(&self, order: &Order<Q>) -> (t: i32)
        requires
            self.depth.wf(),
        ensures
            t == opposing_best(*order, self.depth.book()),
    {
        match order.side {
            Side::Buy => self.depth.best_ask_tick(),
            Side::Sell => self.depth.best_bid_tick(),
        }
    }

    /// Sends `order` back to the strategy with the given status, stamped
    /// with `timestamp`, and says when it arrives.
    fn reply(&mut self, order: &mut Order<Q>, timestamp: i64) -> (due: i64)
        requires
            old(self).orders_to.wf(),
        ensures
            final(self).framed(old(self)),
            final(self).orders == old(self).orders,
            final(self).buy_orders == old(self).buy_orders,
            final(self).sell_orders == old(self).sell_orders,
            final(self).filled_orders == old(self).filled_orders,
            final(self).orders_to.wf(),
            old(order).consistent() && old(self).orders_to.consistent()
                ==> final(self).orders_to.consistent(),
            final(self).orders_to@.len() == old(self).orders_to@.len() + 1,
            final(self).state == old(self).state,
            *final(order) == (Order { exch_timestamp: timestamp, ..*old(order) }),
            due == old(self).response_due(*final(order), timestamp),
            final(self).is_model(old(self).replied(old(self).model(), *final(order))),
    {
        order.exch_timestamp = timestamp;
        let latency = self.order_latency.response(timestamp, order);
        let due = delivery_timestamp(timestamp, latency);
        self.orders_to.append(*order, due);
        due
    }

    /// Places an order that is new to the book: it expires or is filled as
    /// taker where it crosses the book, and comes to rest otherwise.
    fn place(&mut self, order: Order<Q>, timestamp: i64) -> (r: Result<i64, Error>)
        requires
            old(self).wf(),
            !old(self).orders@.contains_key(order.order_id),
            order.placeable(),
            old(self).state.values().room(1),
        ensures
            final(self).wf(),
            final(self).framed(old(self)),
            final(self).is_model(old(self).spec_place(old(self).model(), order, timestamp).0),
            r == old(self).spec_place(old(self).model(), order, timestamp).1,
            final(self).within(old(self), 1),
            final(self).orders_to@.len() == old(self).orders_to@.len() + if r is Ok {
                1int
            } else {
                0int
            },
    {
        let mut order = order;
        order.req = Status::Unset;
        if self.is_crossing(&order) {
            if order.time_in_force == TimeInForce::GTX {
                order.status = Status::Expired;
                order.leaves_qty = 0;
                let due = self.reply(&mut order, timestamp);
                proof {
                    self.lemma_indexed_same(old(self));
                }
                Ok(due)
            } else {
                let best = self.best_against(&order);
                let r = self.fill(&mut order, timestamp, false, best);
                proof {
                    self.lemma_indexed_same(old(self));
                }
                r
            }
        } else {
            self.queue_model.new_order(&mut order, &self.depth);
            order.status = Status::New;
            self.list(&order);
            let ghost listed = *self;
            let due = self.reply(&mut order, timestamp);
            self.orders.insert(order);
            proof {
                assert(self.index(order.side) == listed.index(order.side));
                assert forall|side: Side, t: i32|
                    side != order.side || t != order.price_tick implies #[trigger] self.index(
                    side,
                ).ids_at(t) == old(self).index(side).ids_at(t) by {
                    assert(self.index(side) == listed.index(side));
                    assert(listed.index(side).ids_at(t) == old(self).index(side).ids_at(t));
                }
                self.lemma_indexed_added(old(self), order);
            }
            Ok(due)
        }
    }

    /// Answers a new order, which has executed nothing and whose price can
    /// name a level. An id that is taken is refused. An order that crosses
    /// the book expires if it is post-only and is otherwise filled as taker
    /// at the opposing best. Any other order gets its queue position, rests
    /// in the book, and is acknowledged. A request that was named on the
    /// order is taken off it. The result is when the response arrives.
    pub fn ack_new(&mut self, order: Order<Q>, timestamp: i64) -> (r: Result<i64, Error>)
        requires
            old(self).wf(),
            order.placeable(),
            old(self).state.values().room(1),
        ensures
            final(self).wf(),
            final(self).framed(old(self)),
            final(self).is_model(old(self).spec_ack_new(old(self).model(), order, timestamp).0),
            r == old(self).spec_ack_new(old(self).model(), order, timestamp).1,
            final(self).within(old(self), 1),
            final(self).orders_to@.len() == old(self).orders_to@.len() + if r is Ok {
                1int
            } else {
                0int
            },
    {
        if self.orders.contains_key(order.order_id) {
            return Err(Error::OrderAlreadyExist);
        }
        self.place(order, timestamp)
    }

    /// Answers a cancellation. The resting order leaves the book and is
    /// sent back canceled, with nothing left. Where no such order rests,
    /// because it was filled or has expired, the request is sent back as
    /// expired with the request still named on it. The result is when the
    /// response arrives.
    pub fn ack_cancel(&mut self, order: Order<Q>, timestamp: i64) -> (r: Result<i64, Error>)
        requires
            old(self).wf(),
            order.consistent(),
        ensures
            final(self).wf(),
            final(self).framed(old(self)),
            final(self).is_model(old(self).spec_ack_cancel(old(self).model(), order, timestamp).0),
            r == old(self).spec_ack_cancel(old(self).model(), order, timestamp).1,
            final(self).within(old(self), 1),
            final(self).orders_to@.len() == old(self).orders_to@.len() + if r is Ok {
                1int
            } else {
                0int
            },
    {
        proof {
            self.orders.lemma_ids();
        }
        match self.orders.remove(order.order_id) {
            None => {
                let mut order = order;
                order.status = Status::Expired;
                order.req = Status::Canceled;
                order.leaves_qty = 0;
                let due = self.reply(&mut order, timestamp);
                proof {
                    lemma_without_absent(old(self).orders.ids(), order.order_id);
                    self.lemma_indexed_same(old(self));
                }
                Ok(due)
            },
            Some(exch_order) => {
                let mut exch_order = exch_order;
                self.unlist(&exch_order);
                let ghost unlisted = *self;
                exch_order.status = Status::Canceled;
                exch_order.leaves_qty = 0;
                let due = self.reply(&mut exch_order, timestamp);
                proof {
                    assert(self.index(exch_order.side) == unlisted.index(exch_order.side));
                    assert forall|side: Side, t: i32|
                        side != exch_order.side || t
                            != exch_order.price_tick implies #[trigger] self.index(side).ids_at(t)
                        == old(self).index(side).ids_at(t) by {
                        assert(self.index(side) == unlisted.index(side));
                        assert(unlisted.index(side).ids_at(t) == old(self).index(side).ids_at(t));
                    }
                    self.lemma_indexed_removed(old(self), exch_order);
                }
                Ok(due)
            },
        }
    }

    /// Answers a modification to a price that can name a level. The resting
    /// order takes over the price and the quantity of the request, all of
    /// which is left to execute, goes to the back of the queue, and is then
    /// treated as a new order would be: expired or filled as taker if it
    /// now crosses the book, rested again otherwise. Where no such order
    /// rests the request is sent back as expired with the request still
    /// named on it. The result is when the response arrives.
    pub fn ack_modify(&mut self, order: Order<Q>, timestamp: i64) -> (r: Result<i64, Error>)
        requires
            old(self).wf(),
            order.consistent(),
            order.priced(),
            old(self).state.values().room(1),
        ensures
            final(self).wf(),
            final(self).framed(old(self)),
            final(self).is_model(old(self).spec_ack_modify(old(self).model(), order, timestamp).0),
            r == old(self).spec_ack_modify(old(self).model(), order, timestamp).1,
            final(self).within(old(self), 1),
            final(self).orders_to@.len() == old(self).orders_to@.len() + if r is Ok {
                1int
            } else {
                0int
            },
    {
        proof {
            self.orders.lemma_ids();
        }
        match self.orders.remove(order.order_id) {
            None => {
                let mut order = order;
                order.status = Status::Expired;
                order.req = Status::Modify;
                order.leaves_qty = 0;
                let due = self.reply(&mut order, timestamp);
                proof {
                    lemma_without_absent(old(self).orders.ids(), order.order_id);
                    self.lemma_indexed_same(old(self));
                }
                Ok(due)
            },
            Some(exch_order) => {
                let mut exch_order = exch_order;
                self.unlist(&exch_order);
                proof {
                    self.lemma_indexed_removed(old(self), exch_order);
                    assert(self.within(old(self), 0));
                }
                let ghost gone = *self;
                exch_order.price_tick = order.price_tick;
                exch_order.qty = order.qty;
                exch_order.leaves_qty = order.qty - exch_order.exec_qty;
                let r = self.place(exch_order, timestamp);
                proof {
                    assert(gone.model() == Self::taken_out(old(self).model(), order.order_id));
                    self.lemma_within(&gone, old(self), 0, 1);
                }
                r
            },
        }
    }

    /// Answers one request that arrived at `recv_timestamp`: a new order, a
    /// cancellation or a modification. The result is the next time at which
    /// the strategy has to look: where it waits for this order, the arrival
    /// of the response, unless `next_timestamp` is positive and earlier;
    /// otherwise `next_timestamp` as it was.
    pub fn process_recv_order_(
        &mut self,
        order: Order<Q>,
        recv_timestamp: i64,
        wait_resp: i64,
        next_timestamp: i64,
    ) -> (r: Result<i64, Error>)
        requires
            old(self).wf(),
            old(self).state.values().room(1),
        ensures
            final(self).wf(),
            final(self).framed(old(self)),
            final(self).is_model(
                old(self).spec_recv(
                    old(self).model(),
                    order,
                    recv_timestamp,
                    wait_resp,
                    next_timestamp,
                ).0,
            ),
            r == old(self).spec_recv(
                old(self).model(),
                order,
                recv_timestamp,
                wait_resp,
                next_timestamp,
            ).1,
            final(self).within(old(self), 1),
            r matches Err(e) ==> e.is_refusal(),
    {
        let order_id = order.order_id;
        let req = order.req;
        let mut order = order;
        order.req = Status::Unset;
        let resp = if req == Status::New && order.is_placeable() {
            self.ack_new(order, recv_timestamp)
        } else if req == Status::Canceled && order.is_consistent() {
            self.ack_cancel(order, recv_timestamp)
        } else if req == Status::Modify && order.is_consistent() && order.is_priced() {
            self.ack_modify(order, recv_timestamp)
        } else {
            Err(Error::InvalidOrderRequest)
        };
        match resp {
            Ok(resp_timestamp) => {
                if wait_resp == order_id {
                    if next_timestamp > 0 && next_timestamp < resp_timestamp {
                        Ok(next_timestamp)
                    } else {
                        Ok(resp_timestamp)
                    }
                } else {
                    Ok(next_timestamp)
                }
            },
            Err(e) => Err(e),
        }
    }

    /// Answers the requests that are due at `timestamp`, in the order in
    /// which they stand on the inbound bus, and stops at the first error.
    /// The result is the next time at which the strategy has to look.
    pub fn process_recv_order(&mut self, timestamp: i64, wait_resp: i64) -> (r: Result<i64, Error>)
        requires
            old(self).wf(),
            old(self).state.values().room(old(self).orders_from@.len() as int),
        ensures
            final(self).wf(),
            final(self).same_rules(old(self)),
            final(self).is_model(
                old(self).spec_drain(
                    old(self).model(),
                    old(self).orders_from@,
                    timestamp,
                    wait_resp,
                    i64::MAX,
                ).0,
            ),
            final(self).orders_from@ == old(self).spec_drain(
                old(self).model(),
                old(self).orders_from@,
                timestamp,
                wait_resp,
                i64::MAX,
            ).1,
            r == old(self).spec_drain(
                old(self).model(),
                old(self).orders_from@,
                timestamp,
                wait_resp,
                i64::MAX,
            ).2,
            final(self).orders_from@.len() <= old(self).orders_from@.len(),
            old(self).orders_from.consistent() ==> final(self).orders_from.consistent(),
            old(self).orders_from@.len() > 0 && old(self).orders_from@[0].1 == timestamp
                ==> final(self).orders_from@.len() < old(self).orders_from@.len(),
            final(self).within(
                old(self),
                old(self).orders_from@.len() - final(self).orders_from@.len(),
            ),
            r matches Err(e) ==> e.is_refusal(),
    {
        let mut next_timestamp = i64::MAX;
        while self.orders_from.len() > 0 && self.orders_from.frontmost_timestamp() == timestamp
            invariant
                self.wf(),
                self.same_rules(old(self)),
                self.state.values().room(self.orders_from@.len() as int),
                self.orders_from@.len() <= old(self).orders_from@.len(),
                old(self).orders_from.consistent() ==> self.orders_from.consistent(),
                self.within(old(self), old(self).orders_from@.len() - self.orders_from@.len()),
                old(self).orders_from@.len() > 0 && old(self).orders_from@[0].1 == timestamp
                    && self.orders_from@.len() == old(self).orders_from@.len()
                    ==> self.orders_from@ == old(self).orders_from@,
                old(self).spec_drain(
                    old(self).model(),
                    old(self).orders_from@,
                    timestamp,
                    wait_resp,
                    i64::MAX,
                ) == old(self).spec_drain(
                    self.model(),
                    self.orders_from@,
                    timestamp,
                    wait_resp,
                    next_timestamp,
                ),
            decreases self.orders_from@.len(),
        {
            let recv_timestamp = timestamp;
            let ghost before = *self;
            let order = self.orders_from.remove(0);
            proof {
                assert(self.orders_from@ =~= before.orders_from@.skip(1));
                lemma_room_less(
                    self.state.values(),
                    before.orders_from@.len() as int,
                    1,
                );
                self.lemma_indexed_same(&before);
            }
            let ghost taken = *self;
            let ghost step = old(self).spec_recv(
                before.model(),
                order,
                timestamp,
                wait_resp,
                next_timestamp,
            );
            match self.process_recv_order_(order, recv_timestamp, wait_resp, next_timestamp) {
                Ok(next) => {
                    proof {
                        assert(taken.within(&before, 0));
                        taken.lemma_within(
                            &before,
                            old(self),
                            old(self).orders_from@.len() - before.orders_from@.len(),
                            0,
                        );
                        self.lemma_within(
                            &taken,
                            old(self),
                            old(self).orders_from@.len() - before.orders_from@.len(),
                            1,
                        );
                        assert(self.model() == step.0);
                        old(self).lemma_recv_room(
                            before.model(),
                            order,
                            timestamp,
                            wait_resp,
                            next_timestamp,
                            before.orders_from@.len() as int,
                        );
                    }
                    next_timestamp = next;
                },
                Err(e) => {
                    proof {
                        assert(taken.within(&before, 0));
                        taken.lemma_within(
                            &before,
                            old(self),
                            old(self).orders_from@.len() - before.orders_from@.len(),
                            0,
                        );
                        self.lemma_within(
                            &taken,
                            old(self),
                            old(self).orders_from@.len() - before.orders_from@.len(),
                            1,
                        );
                        assert(self.model() == step.0);
                    }
                    return Err(e);
                },
            }
        }
        Ok(next_timestamp)
    }

    /// Takes the orders that an event has filled out of the book and out of
    /// the index of their side, and empties the list of fills.
    pub fn remove_filled_orders(&mut self)
        requires
            old(self).wf_core(),
            old(self).filled_orders@.no_duplicates(),
            forall|i: int|
                0 <= i < old(self).filled_orders@.len() ==> old(self).orders@.contains_key(
                    #[trigger] old(self).filled_orders@[i],
                ),
        ensures
            final(self).wf_core(),
            final(self).framed(old(self)),
            final(self).state == old(self).state,
            final(self).orders_to == old(self).orders_to,
            final(self).filled_orders@.len() == 0,
            final(self).resting() == old(self).resting() - old(self).filled_orders@.len(),
            final(self).orders.ids() == stripped(old(self).orders.ids(), old(self).filled_orders@),
            old(self).filled_orders@.len() == 0 ==> final(self).orders == old(self).orders
                && final(self).buy_orders == old(self).buy_orders && final(self).sell_orders
                == old(self).sell_orders,
            forall|id: i64| #[trigger]
                final(self).orders@.contains_key(id) <==> old(self).orders@.contains_key(id)
                    && !old(self).filled_orders@.contains(id),
            forall|id: i64| #[trigger]
                final(self).orders@.contains_key(id) ==> final(self).orders@[id]
                    == old(self).orders@[id],
    {
        let n = self.filled_orders.len();
        let mut k: usize = 0;
        while k < n
            invariant
                0 <= k <= n,
                n == self.filled_orders@.len(),
                self.wf_core(),
                self.framed(old(self)),
                self.state == old(self).state,
                self.orders_to == old(self).orders_to,
                self.filled_orders == old(self).filled_orders,
                self.filled_orders@.no_duplicates(),
                self.resting() == old(self).resting() - k,
                self.orders.ids() == stripped(
                    old(self).orders.ids(),
                    self.filled_orders@.take(k as int),
                ),
                k == 0 ==> self.orders == old(self).orders && self.buy_orders
                    == old(self).buy_orders && self.sell_orders == old(self).sell_orders,
                forall|id: i64| #[trigger]
                    self.orders@.contains_key(id) <==> old(self).orders@.contains_key(id)
                        && !self.filled_orders@.take(k as int).contains(id),
                forall|id: i64| #[trigger]
                    self.orders@.contains_key(id) ==> self.orders@[id] == old(self).orders@[id],
                forall|i: int|
                    0 <= i < self.filled_orders@.len() ==> old(self).orders@.contains_key(
                        #[trigger] self.filled_orders@[i],
                    ),
            decreases n - k,
        {
            let order_id = self.filled_orders[k];
            let ghost before = *self;
            proof {
                self.orders.lemma_ids();
                let done = self.filled_orders@.take(k as int);
                if done.contains(order_id) {
                    let j = choose|j: int| 0 <= j < done.len() && done[j] == order_id;
                    assert(self.filled_orders@[j] == self.filled_orders@[k as int]);
                }
                assert(self.orders@.contains_key(order_id));
            }
            match self.orders.remove(order_id) {
                Some(order) => {
                    self.unlist(&order);
                    proof {
                        self.lemma_indexed_removed(&before, order);
                    }
                },
                None => {},
            }
            proof {
                let done = self.filled_orders@.take(k as int);
                let more = self.filled_orders@.take(k + 1);
                assert(more =~= done.push(order_id));
                assert(more.drop_last() =~= done);
                assert(more.last() == order_id);
                assert forall|id: i64| #[trigger]
                    self.orders@.contains_key(id) <==> old(self).orders@.contains_key(id)
                        && !more.contains(id) by {
                    assert(before.orders@.contains_key(id) <==> old(self).orders@.contains_key(id)
                        && !done.contains(id));
                    if done.contains(id) {
                        let j = choose|j: int| 0 <= j < done.len() && done[j] == id;
                        assert(more[j] == id);
                    }
                    assert(more[k as int] == order_id);
                    if more.contains(id) && id != order_id {
                        let j = choose|j: int| 0 <= j < more.len() && more[j] == id;
                        assert(done[j] == id);
                    }
                }
            }
            k = k + 1;
        }
        proof {
            assert(self.filled_orders@.take(n as int) =~= self.filled_orders@);
        }
        let ghost swept = *self;
        self.filled_orders.clear();
        proof {
            self.lemma_indexed_same(&swept);
        }
    }

    /// Holds a resting sell against a buyer's trade of `qty` at
    /// `price_tick`. Below that price the order is filled as maker at its
    /// own price. At that price it moves in its queue and is filled if the
    /// queue has passed it. A fill is noted for removal; the result is when
    /// its response arrives, and `i64::MAX` without a fill.
    pub fn check_if_sell_filled(
        &mut self,
        order: &mut Order<Q>,
        price_tick: i32,
        qty: u32,
        timestamp: i64,
    ) -> (r: Result<i64, Error>)
        requires
            old(order).side == Side::Sell,
            old(self).orders_to.wf(),
            old(self).depth.wf(),
            old(self).state.values().room(1),
        ensures
            old(order).consistent() ==> final(order).consistent(),
            old(order).consistent() && old(self).orders_to.consistent()
                ==> final(self).orders_to.consistent(),
            final(self).framed(old(self)),
            final(self).orders == old(self).orders,
            final(self).buy_orders == old(self).buy_orders,
            final(self).sell_orders == old(self).sell_orders,
            final(self).orders_to.wf(),
            final(self).is_model(
                old(self).spec_check(
                    old(self).model(),
                    *old(order),
                    Sweep::BuyTrade { tick: price_tick, qty },
                    timestamp,
                ).0,
            ),
            *final(order) == old(self).spec_check(
                old(self).model(),
                *old(order),
                Sweep::BuyTrade { tick: price_tick, qty },
                timestamp,
            ).1,
            r == old(self).spec_check(
                old(self).model(),
                *old(order),
                Sweep::BuyTrade { tick: price_tick, qty },
                timestamp,
            ).2,
            final(self).orders_to@.len() == old(self).orders_to@.len() + if final(order).status
                != old(order).status {
                1int
            } else {
                0int
            },
            final(self).state.values().spends(
                old(self).state.values(),
                if final(order).status != old(order).status {
                    1int
                } else {
                    0int
                },
            ),
            final(self).filled_orders@ == if final(order).status != old(order).status {
                old(self).filled_orders@.push(old(order).order_id)
            } else {
                old(self).filled_orders@
            },
    {
        if order.price_tick < price_tick {
            let own = order.price_tick;
            let r = self.fill(order, timestamp, true, own);
            if r.is_ok() {
                self.filled_orders.push(order.order_id);
            }
            return r;
        } else if order.price_tick == price_tick {
            self.queue_model.trade(order, qty, &self.depth);
            if self.queue_model.is_filled(order, &self.depth) {
                let own = order.price_tick;
                let r = self.fill(order, timestamp, true, own);
                if r.is_ok() {
                    self.filled_orders.push(order.order_id);
                }
                return r;
            }
        }
        Ok(i64::MAX)
    }

    /// Holds a resting buy against a seller's trade of `qty` at
    /// `price_tick`. Above that price the order is filled as maker at its
    /// own price. At that price it moves in its queue and is filled if the
    /// queue has passed it. A fill is noted for removal; the result is when
    /// its response arrives, and `i64::MAX` without a fill.
    pub fn check_if_buy_filled(
        &mut self,
        order: &mut Order<Q>,
        price_tick: i32,
        qty: u32,
        timestamp: i64,
    ) -> (r: Result<i64, Error>)
        requires
            old(order).side == Side::Buy,
            old(self).orders_to.wf(),
            old(self).depth.wf(),
            old(self).state.values().room(1),
        ensures
            old(order).consistent() ==> final(order).consistent(),
            old(order).consistent() && old(self).orders_to.consistent()
                ==> final(self).orders_to.consistent(),
            final(self).framed(old(self)),
            final(self).orders == old(self).orders,
            final(self).buy_orders == old(self).buy_orders,
            final(self).sell_orders == old(self).sell_orders,
            final(self).orders_to.wf(),
            final(self).is_model(
                old(self).spec_check(
                    old(self).model(),
                    *old(order),
                    Sweep::SellTrade { tick: price_tick, qty },
                    timestamp,
                ).0,
            ),
            *final(order) == old(self).spec_check(
                old(self).model(),
                *old(order),
                Sweep::SellTrade { tick: price_tick, qty },
                timestamp,
            ).1,
            r == old(self).spec_check(
                old(self).model(),
                *old(order),
                Sweep::SellTrade { tick: price_tick, qty },
                timestamp,
            ).2,
            final(self).orders_to@.len() == old(self).orders_to@.len() + if final(order).status
                != old(order).status {
                1int
            } else {
                0int
            },
            final(self).state.values().spends(
                old(self).state.values(),
                if final(order).status != old(order).status {
                    1int
                } else {
                    0int
                },
            ),
            final(self).filled_orders@ == if final(order).status != old(order).status {
                old(self).filled_orders@.push(old(order).order_id)
            } else {
                old(self).filled_orders@
            },
    {
        if order.price_tick > price_tick {
            let own = order.price_tick;
            let r = self.fill(order, timestamp, true, own);
            if r.is_ok() {
                self.filled_orders.push(order.order_id);
            }
            return r;
        } else if order.price_tick == price_tick {
            self.queue_model.trade(order, qty, &self.depth);
            if self.queue_model.is_filled(order, &self.depth) {
                let own = order.price_tick;
                let r = self.fill(order, timestamp, true, own);
                if r.is_ok() {
                    self.filled_orders.push(order.order_id);
                }
                return r;
            }
        }
        Ok(i64::MAX)
    }

    /// Applies the sweep to one resting order: moves it in its queue, fills
    /// it where the sweep hits it, and puts it back in its place.
    fn visit(&mut self, order_id: i64, sweep: Sweep, timestamp: i64) -> (r: Result<(), Error>)
        requires
            old(self).wf_core(),
            old(self).orders@.contains_key(order_id),
            !old(self).orders@[order_id].status.spec_is_terminal(),
            old(self).orders@[order_id].consistent(),
            sweep.fills() ==> old(self).state.values().room(1),
        ensures
            r == Ok::<(), Error>(()),
            final(self).wf_core(),
            final(self).framed(old(self)),
            final(self).buy_orders == old(self).buy_orders,
            final(self).sell_orders == old(self).sell_orders,
            final(self).orders.ids() == old(self).orders.ids(),
            final(self).orders_to@.len() == old(self).orders_to@.len() + if old(self).hit(
                sweep,
                old(self).touched(sweep, old(self).orders@[order_id]),
            ) {
                1int
            } else {
                0int
            },
            final(self).state.values().spends(
                old(self).state.values(),
                if old(self).hit(sweep, old(self).touched(sweep, old(self).orders@[order_id])) {
                    1int
                } else {
                    0int
                },
            ),
            final(self).orders@ =~= old(self).orders@.insert(
                order_id,
                old(self).swept_order(sweep, timestamp, old(self).orders@[order_id]),
            ),
            old(self).hit(sweep, old(self).touched(sweep, old(self).orders@[order_id])) ==> {
                &&& final(self).filled_orders@ == old(self).filled_orders@.push(order_id)
                &&& final(self).state.values() == old(self).recorded(
                    old(self).model(),
                    old(self).swept_order(sweep, timestamp, old(self).orders@[order_id]),
                ).values
                &&& final(self).orders_to@ =~= old(self).recorded(
                    old(self).model(),
                    old(self).swept_order(sweep, timestamp, old(self).orders@[order_id]),
                ).outbox
            },
            !old(self).hit(sweep, old(self).touched(sweep, old(self).orders@[order_id])) ==> {
                &&& final(self).filled_orders@ == old(self).filled_orders@
                &&& final(self).state.values() == old(self).state.values()
                &&& final(self).orders_to@ =~= old(self).orders_to@
            },
    {
        proof {
            self.orders.lemma_ids();
        }
        let mut order = match self.orders.get(order_id) {
            Some(order) => order,
            None => {
                return Ok(());
            },
        };
        match sweep {
            Sweep::BidQty { tick, prev_qty, new_qty } => {
                if order.side == Side::Buy && order.price_tick == tick {
                    self.queue_model.depth(&mut order, prev_qty, new_qty, &self.depth);
                }
            },
            Sweep::AskQty { tick, prev_qty, new_qty } => {
                if order.side == Side::Sell && order.price_tick == tick {
                    self.queue_model.depth(&mut order, prev_qty, new_qty, &self.depth);
                }
            },
            Sweep::BestBid { tick } => {
                if order.side == Side::Sell && order.price_tick <= tick {
                    let own = order.price_tick;
                    match self.fill(&mut order, timestamp, true, own) {
                        Ok(_) => {
                            self.filled_orders.push(order_id);
                        },
                        Err(e) => {
                            return Err(e);
                        },
                    }
                }
            },
            Sweep::BestAsk { tick } => {
                if order.side == Side::Buy && order.price_tick >= tick {
                    let own = order.price_tick;
                    match self.fill(&mut order, timestamp, true, own) {
                        Ok(_) => {
                            self.filled_orders.push(order_id);
                        },
                        Err(e) => {
                            return Err(e);
                        },
                    }
                }
            },
            Sweep::BuyTrade { tick, qty } => {
                if order.side == Side::Sell {
                    match self.check_if_sell_filled(&mut order, tick, qty, timestamp) {
                        Ok(_) => {},
                        Err(e) => {
                            return Err(e);
                        },
                    }
                }
            },
            Sweep::SellTrade { tick, qty } => {
                if order.side == Side::Buy {
                    match self.check_if_buy_filled(&mut order, tick, qty, timestamp) {
                        Ok(_) => {},
                        Err(e) => {
                            return Err(e);
                        },
                    }
                }
            },
        }
        self.orders.insert(order);
        proof {
            assert(self.orders@.dom() =~= old(self).orders@.dom());
            self.lemma_indexed_same(old(self));
        }
        Ok(())
    }

    /// A sweep leaves alone what it does not reach.
    pub proof fn lemma_out_of_reach(&self, sweep: Sweep, order: Order<Q>)
        ensures
            self.touched(sweep, order).side == order.side,
            self.touched(sweep, order).price_tick == order.price_tick,
            self.touched(sweep, order).status == order.status,
            self.touched(sweep, order).order_id == order.order_id,
            self.touched(sweep, order).consistent() == order.consistent(),
            !sweep.reaches(order.side, order.price_tick) ==> self.touched(sweep, order) == order
                && !self.hit(sweep, order),
    {
    }

    /// Where the sweep stands after the orders `done`: those orders are as
    /// the sweep leaves them, the others untouched, and `fills` are the
    /// fills among `done`, booked and sent back.
    pub open spec fn sweeping(
        &self,
        pre: &Self,
        sweep: Sweep,
        timestamp: i64,
        done: Seq<i64>,
        fills: Seq<Order<Q>>,
    ) -> bool {
        &&& self.orders@.dom() =~= pre.orders@.dom()
        &&& forall|id: i64| #[trigger]
            self.orders@.contains_key(id) ==> self.orders@[id] == if done.contains(id) {
                pre.swept_order(sweep, timestamp, pre.orders@[id])
            } else {
                pre.orders@[id]
            }
        &&& forall|i: int, j: int|
            0 <= i < j < fills.len() ==> fills[i].order_id != fills[j].order_id
        &&& forall|k: int|
            0 <= k < fills.len() ==> done.contains(#[trigger] fills[k].order_id)
                && pre.orders@.contains_key(fills[k].order_id) && pre.hit(
                sweep,
                pre.touched(sweep, pre.orders@[fills[k].order_id]),
            ) && fills[k] == pre.swept_order(sweep, timestamp, pre.orders@[fills[k].order_id])
        &&& forall|j: int|
            0 <= j < done.len() && pre.hit(sweep, pre.touched(sweep,
                pre.orders@[#[trigger] done[j]]))
                ==> exists|k: int| 0 <= k < fills.len() && fills[k].order_id == done[j]
        &&& self.state.values() == pre.after_fills(pre.model(), fills).values
        &&& self.orders_to@ =~= pre.after_fills(pre.model(), fills).outbox
        &&& self.filled_orders@ =~= Seq::new(fills.len(), |k: int| fills[k].order_id)
    }

    /// Applies the sweep to the resting orders `ids`, one after the other,
    /// and then clears the fills away.
    #[verifier::rlimit(60)]
    fn run_sweep(&mut self, ids: &Vec<i64>, sweep: Sweep, timestamp: i64) -> (r: Result<(), Error>)
        requires
            old(self).settled(),
            ids@.no_duplicates(),
            forall|i: int| 0 <= i < ids@.len()
                ==> old(self).orders@.contains_key(#[trigger] ids@[i]),
            forall|id: i64| #[trigger]
                old(self).orders@.contains_key(id) && sweep.reaches(
                    old(self).orders@[id].side,
                    old(self).orders@[id].price_tick,
                ) ==> ids@.contains(id),
            sweep.fills() ==> old(self).state.values().room(ids@.len() as int),
        ensures
            r == Ok::<(), Error>(()),
            final(self).settled(),
            final(self).framed(old(self)),
            final(self).within(old(self), 0),
            final(self).orders.ids().len() == old(self).orders.ids().len()
                - final(self).fills_in(old(self).orders@, sweep, timestamp, ids@).len(),
            !sweep.fills() ==> final(self).orders.ids() == old(self).orders.ids(),
            final(self).buy_orders == old(self).buy_orders || sweep.fills(),
            final(self).sell_orders == old(self).sell_orders || sweep.fills(),
            final(self).swept(
                old(self).model(),
                sweep,
                timestamp,
                final(self).fills_in(old(self).orders@, sweep, timestamp, ids@),
            ),
    {
        let ghost mut fills: Seq<Order<Q>> = Seq::empty();
        let mut i: usize = 0;
        proof {
            assert(self.filled_orders@ =~= Seq::new(fills.len(), |k: int| fills[k].order_id));
        }
        while i < ids.len()
            invariant
                0 <= i <= ids@.len(),
                ids@.no_duplicates(),
                old(self).settled(),
                forall|i: int|
                    0 <= i < ids@.len() ==> old(self).orders@.contains_key(#[trigger] ids@[i]),
                self.wf_core(),
                self.framed(old(self)),
                self.buy_orders == old(self).buy_orders,
                self.sell_orders == old(self).sell_orders,
                self.sweeping(old(self), sweep, timestamp, ids@.take(i as int), fills),
                fills == old(self).fills_in(
                    old(self).orders@,
                    sweep,
                    timestamp,
                    ids@.take(i as int),
                ),
                self.orders.ids() == old(self).orders.ids(),
                self.orders_to@.len() == old(self).orders_to@.len() + fills.len(),
                self.state.values().spends(old(self).state.values(), fills.len() as int),
                sweep.fills() ==> self.state.values().room(ids@.len() - i),
            decreases ids@.len() - i,
        {
            let order_id = ids[i];
            let ghost before = *self;
            let ghost done = ids@.take(i as int);
            let ghost more = ids@.take(i + 1);
            let ghost o = old(self).orders@[order_id];
            let ghost f = old(self).swept_order(sweep, timestamp, o);
            proof {
                assert(more =~= done.push(order_id));
                if done.contains(order_id) {
                    let j = choose|j: int| 0 <= j < done.len() && done[j] == order_id;
                    assert(ids@[j] == ids@[i as int]);
                }
                assert(old(self).orders@.contains_key(order_id));
                assert(self.orders@.contains_key(order_id));
                assert(self.orders@[order_id] == o);
                if sweep.fills() {
                    lemma_room_less(self.state.values(), ids@.len() - i, 1);
                }
                old(self).lemma_out_of_reach(sweep, o);
                old(self).orders.lemma_ids();
                assert(f.order_id == order_id);
            }
            match self.visit(order_id, sweep, timestamp) {
                Ok(_) => {},
                Err(e) => {
                    return Err(e);
                },
            }
            proof {
                let hit = old(self).hit(sweep, old(self).touched(sweep, o));
                assert(before.swept_order(sweep, timestamp, o) == f);
                assert(before.hit(sweep, before.touched(sweep, o)) == hit);
                let ghost_fills = if hit {
                    fills.push(f)
                } else {
                    fills
                };
                lemma_spends(
                    old(self).state.values(),
                    before.state.values(),
                    self.state.values(),
                    fills.len() as int,
                    if hit {
                        1
                    } else {
                        0
                    },
                    ghost_fills.len() as int,
                );
                assert forall|id: i64| more.contains(id) <==> done.contains(id) || id
                    == order_id by {
                    if done.contains(id) {
                        let j = choose|j: int| 0 <= j < done.len() && done[j] == id;
                        assert(more[j] == id);
                    }
                    assert(more[i as int] == order_id);
                    if more.contains(id) && id != order_id {
                        let j = choose|j: int| 0 <= j < more.len() && more[j] == id;
                        assert(done[j] == id);
                    }
                }
                if hit {
                    assert(ghost_fills.drop_last() =~= fills);
                    assert(ghost_fills.last() == f);
                    lemma_filled_room(
                        before.state.values(),
                        ids@.len() - i,
                        f.side,
                        f.exec_qty,
                        old(self).state.asset_type.spec_amount(f.exec_price_tick, f.exec_qty),
                        old(self).state.fee_rate(f.maker),
                    );
                    assert forall|a: int, b: int| 0 <= a < b < ghost_fills.len()
                        implies ghost_fills[a].order_id
                        != ghost_fills[b].order_id by {
                        if b == fills.len() {
                            assert(done.contains(fills[a].order_id));
                        }
                    }
                    assert forall|j: int|
                        0 <= j < more.len() && old(self).hit(
                            sweep,
                            old(self).touched(sweep, old(self).orders@[#[trigger] more[j]]),
                        ) implies exists|k: int|
                        0 <= k < ghost_fills.len() && ghost_fills[k].order_id == more[j] by {
                        if j < done.len() {
                            assert(done[j] == more[j]);
                            let k = choose|k: int| 0 <= k < fills.len() && fills[k].order_id
                                == done[j];
                            assert(ghost_fills[k].order_id == more[j]);
                        } else {
                            assert(ghost_fills[fills.len() as int].order_id == more[j]);
                        }
                    }
                    assert(self.filled_orders@ =~= Seq::new(
                        ghost_fills.len(),
                        |k: int| ghost_fills[k].order_id,
                    ));
                } else {
                    if sweep.fills() {
                        lemma_room_less(before.state.values(), ids@.len() - i, ids@.len() - i - 1);
                    }
                    assert forall|j: int|
                        0 <= j < more.len() && old(self).hit(
                            sweep,
                            old(self).touched(sweep, old(self).orders@[#[trigger] more[j]]),
                        ) implies exists|k: int|
                        0 <= k < ghost_fills.len() && ghost_fills[k].order_id == more[j] by {
                        assert(j < done.len());
                        assert(done[j] == more[j]);
                    }
                }
                fills = ghost_fills;
                assert(more.drop_last() =~= done);
                assert(more.last() == order_id);
                assert(fills == old(self).fills_in(old(self).orders@, sweep, timestamp, more));
                assert(self.sweeping(old(self), sweep, timestamp, more, fills));
            }
            i = i + 1;
        }
        let ghost swept = *self;
        proof {
            assert(ids@.take(i as int) =~= ids@);
            assert(self.filled_orders@.no_duplicates());
            assert forall|k: int| 0 <= k < self.filled_orders@.len()
                implies self.orders@.contains_key(
                #[trigger] self.filled_orders@[k],
            ) by {
                assert(self.filled_orders@[k] == fills[k].order_id);
            }
        }
        self.remove_filled_orders();
        proof {
            assert forall|id: i64| swept.filled_orders@.contains(id) <==> (exists|k: int|
                0 <= k < fills.len() && fills[k].order_id == id) by {
                if swept.filled_orders@.contains(id) {
                    let k = choose|k: int|
                        0 <= k < swept.filled_orders@.len() && swept.filled_orders@[k] == id;
                    assert(fills[k].order_id == id);
                }
                if exists|k: int| 0 <= k < fills.len() && fills[k].order_id == id {
                    let k = choose|k: int| 0 <= k < fills.len() && fills[k].order_id == id;
                    assert(swept.filled_orders@[k] == id);
                }
            }
            assert forall|id: i64| old(self).orders@.contains_key(id) implies (
            swept.filled_orders@.contains(id) <==> old(self).hit(
                sweep,
                old(self).touched(sweep, old(self).orders@[id]),
            )) by {
                old(self).lemma_out_of_reach(sweep, old(self).orders@[id]);
                if old(self).hit(sweep, old(self).touched(sweep, old(self).orders@[id])) {
                    assert(ids@.contains(id));
                    let j = choose|j: int| 0 <= j < ids@.len() && ids@[j] == id;
                    assert(old(self).hit(
                        sweep,
                        old(self).touched(sweep, old(self).orders@[ids@[j]]),
                    ));
                }
            }
            assert forall|id: i64| #[trigger] self.orders@.contains_key(id) implies self.orders@[id]
                == old(self).touched(sweep, old(self).orders@[id]) && self.orders@[id].status
                == Status::New && self.orders@[id].consistent() by {
                old(self).lemma_out_of_reach(sweep, old(self).orders@[id]);
                assert(swept.orders@.contains_key(id));
                if !ids@.contains(id) {
                    assert(!sweep.reaches(
                        old(self).orders@[id].side,
                        old(self).orders@[id].price_tick,
                    ));
                }
            }
            self.lemma_after_fills_any(old(self), old(self).model(), fills);
            self.lemma_fills_in_rules(old(self), old(self).orders@, sweep, timestamp, ids@);
            assert forall|o: Order<Q>| self.touched(sweep, o) == old(self).touched(sweep, o) by {}
            assert forall|o: Order<Q>| self.hit(sweep, o) == old(self).hit(sweep, o) by {}
            assert(self.swept(old(self).model(), sweep, timestamp, fills));
            if !sweep.fills() {
                if fills.len() > 0 {
                    assert(old(self).orders@.contains_key(fills[0].order_id));
                }
                assert(swept.filled_orders@.len() == 0);
            }
        }
        Ok(())
    }

    /// The resting orders that a sweep over the ticks from `lo` to `hi` of
    /// one side has to look at. Where the book holds fewer orders than the
    /// range has ticks, or where `all` asks for it, these are all resting
    /// orders; otherwise they are read off the index tick by tick. Either
    /// way no resting order of that side in the range is left out.
    fn candidates(&self, side: Side, lo: i64, hi: i64, all: bool) -> (ids: Vec<i64>)
        requires
            self.wf_core(),
            i32::MIN <= lo,
            hi <= i32::MAX,
        ensures
            ids@ == self.walk(side, lo as int, hi as int, all),
            ids@.no_duplicates(),
            ids@.len() <= self.orders.ids().len(),
            forall|i: int| 0 <= i < ids@.len() ==> self.orders@.contains_key(#[trigger] ids@[i]),
            forall|id: i64| #[trigger]
                self.orders@.contains_key(id) && self.orders@[id].side == side && lo
                    <= self.orders@[id].price_tick <= hi ==> ids@.contains(id),
    {
        proof {
            self.orders.lemma_ids();
        }
        if all || hi < lo || (self.orders.len() as u64 as i128) < hi as i128 - lo as i128 + 1 {
            return self.orders.order_ids();
        }
        let mut ids: Vec<i64> = Vec::new();
        let mut t: i64 = lo;
        while t <= hi
            invariant
                lo <= t <= hi + 1,
                i32::MIN <= lo,
                hi <= i32::MAX,
                self.wf_core(),
                ids@ == self.listed(side, lo as int, t - 1),
                ids@.no_duplicates(),
                forall|i: int|
                    0 <= i < ids@.len() ==> self.orders@.contains_key(#[trigger] ids@[i])
                        && self.orders@[ids@[i]].side == side && lo
                        <= self.orders@[ids@[i]].price_tick < t,
                forall|id: i64| #[trigger]
                    self.orders@.contains_key(id) && self.orders@[id].side == side && lo
                        <= self.orders@[id].price_tick < t ==> ids@.contains(id),
            decreases hi - t + 1,
        {
            let tick: i32 = t as i32;
            let mut at_tick = match side {
                Side::Buy => self.buy_orders.get(tick),
                Side::Sell => self.sell_orders.get(tick),
            };
            let ghost before = ids@;
            let ghost listed = at_tick@;
            proof {
                assert(self.indexed(side));
                assert(self.in_order(side));
                assert(listed == self.index(side).ids_at(tick));
                assert(listed == pick(self.orders.ids(), self.orders@, side, tick)) by {
                    reveal(NoPartialFillExchange::in_order);
                }
                assert(listed.no_duplicates());
            }
            ids.append(&mut at_tick);
            proof {
                assert(ids@ =~= before + listed);
                assert forall|i: int| 0 <= i < listed.len() implies self.orders@.contains_key(
                    #[trigger] listed[i],
                ) && self.orders@[listed[i]].side == side && self.orders@[listed[i]].price_tick
                    == tick by {
                    assert(self.index(side).ids_at(tick).contains(listed[i]));
                }
                assert forall|i: int, j: int|
                    0 <= i < ids@.len() && 0 <= j < ids@.len() && i != j implies ids@[i]
                    != ids@[j] by {
                    if i < before.len() && j < before.len() {
                        assert(before[i] != before[j]);
                    } else if i >= before.len() && j >= before.len() {
                        assert(listed[i - before.len()] != listed[j - before.len()]);
                    } else if i < before.len() {
                        assert(self.orders@[before[i]].price_tick < t);
                        assert(self.orders@[listed[j - before.len()]].price_tick == tick);
                    } else {
                        assert(self.orders@[before[j]].price_tick < t);
                        assert(self.orders@[listed[i - before.len()]].price_tick == tick);
                    }
                }
                assert forall|i: int| 0 <= i < ids@.len() implies self.orders@.contains_key(
                    #[trigger] ids@[i],
                ) && self.orders@[ids@[i]].side == side && lo <= self.orders@[ids@[i]].price_tick
                    < t + 1 by {
                    if i < before.len() {
                        assert(ids@[i] == before[i]);
                    } else {
                        assert(ids@[i] == listed[i - before.len()]);
                    }
                }
                assert forall|id: i64| #[trigger]
                    self.orders@.contains_key(id) && self.orders@[id].side == side && lo
                        <= self.orders@[id].price_tick < t + 1 implies ids@.contains(id) by {
                    if self.orders@[id].price_tick < t {
                        assert(before.contains(id));
                        let j = choose|j: int| 0 <= j < before.len() && before[j] == id;
                        assert(ids@[j] == id);
                    } else {
                        assert(self.index(side).ids_at(tick).contains(id));
                        let j = choose|j: int| 0 <= j < listed.len() && listed[j] == id;
                        assert(ids@[before.len() + j] == id);
                    }
                }
            }
            t = t + 1;
        }
        proof {
            let all_ids = self.orders.ids();
            assert(ids@.to_set().subset_of(all_ids.to_set())) by {
                assert forall|id: i64| ids@.to_set().contains(id) implies all_ids.to_set().contains(
                    id,
                ) by {
                    let j = choose|j: int| 0 <= j < ids@.len() && ids@[j] == id;
                    assert(self.orders@.contains_key(ids@[j]));
                }
            }
            vstd::seq_lib::seq_to_set_is_finite(all_ids);
            vstd::set_lib::lemma_len_subset(ids@.to_set(), all_ids.to_set());
            ids@.unique_seq_to_set();
            all_ids.unique_seq_to_set();
        }
        ids
    }

    /// Moves the buys that rest at `price_tick` in their queues after the
    /// bid quantity there went from `prev_qty` to `new_qty`.
    pub fn on_bid_qty_chg(&mut self, price_tick: i32, prev_qty: u32, new_qty: u32)
        requires
            old(self).settled(),
        ensures
            final(self).settled(),
            final(self).framed(old(self)),
            final(self).is_model(
                final(self).qty_changed(
                    old(self).model(),
                    Sweep::BidQty { tick: price_tick, prev_qty, new_qty },
                ),
            ),
            final(self).within(old(self), 0),
            final(self).orders.ids() == old(self).orders.ids(),
            final(self).buy_orders == old(self).buy_orders,
            final(self).sell_orders == old(self).sell_orders,
    {
        let sweep = Sweep::BidQty { tick: price_tick, prev_qty, new_qty };
        self.change_qty(sweep, Side::Buy, price_tick);
    }

    /// Moves the sells that rest at `price_tick` in their queues after the
    /// ask quantity there went from `prev_qty` to `new_qty`.
    pub fn on_ask_qty_chg(&mut self, price_tick: i32, prev_qty: u32, new_qty: u32)
        requires
            old(self).settled(),
        ensures
            final(self).settled(),
            final(self).framed(old(self)),
            final(self).is_model(
                final(self).qty_changed(
                    old(self).model(),
                    Sweep::AskQty { tick: price_tick, prev_qty, new_qty },
                ),
            ),
            final(self).within(old(self), 0),
            final(self).orders.ids() == old(self).orders.ids(),
            final(self).buy_orders == old(self).buy_orders,
            final(self).sell_orders == old(self).sell_orders,
    {
        let sweep = Sweep::AskQty { tick: price_tick, prev_qty, new_qty };
        self.change_qty(sweep, Side::Sell, price_tick);
    }

    /// Runs a change of quantity over the orders of `side` at `price_tick`.
    fn change_qty(&mut self, sweep: Sweep, side: Side, price_tick: i32)
        requires
            old(self).settled(),
            sweep is BidQty || sweep is AskQty,
            forall|s: Side, t: i32| sweep.reaches(s, t) <==> s == side && t == price_tick,
        ensures
            final(self).settled(),
            final(self).framed(old(self)),
            final(self).is_model(final(self).qty_changed(old(self).model(), sweep)),
            final(self).within(old(self), 0),
            final(self).orders.ids() == old(self).orders.ids(),
            final(self).buy_orders == old(self).buy_orders,
            final(self).sell_orders == old(self).sell_orders,
    {
        let ids = self.candidates(side, price_tick as i64, price_tick as i64, false);
        let ghost m = self.model();
        let _ = self.run_sweep(&ids, sweep, 0);
        proof {
            let fills = self.fills_in(m.orders, sweep, 0, ids@);
            if fills.len() > 0 {
                assert(m.orders.contains_key(fills[0].order_id));
            }
            assert(self.after_fills(m, fills) == m);
            assert(self.orders@ =~= self.qty_changed(m, sweep).orders);
        }
    }

    /// Fills the resting sells that a rise of the best bid from
    /// `prev_best_tick` to `new_best_tick` has reached: each as maker at its
    /// own price. No resting sell stands at or below the previous best bid,
    /// so it makes no difference whether all resting orders are walked or
    /// only the ticks that the best bid moved through.
    pub fn on_best_bid_update(
        &mut self,
        prev_best_tick: i32,
        new_best_tick: i32,
        timestamp: i64,
    ) -> (r: Result<(), Error>)
        requires
            old(self).settled(),
            forall|id: i64| #[trigger]
                old(self).orders@.contains_key(id) && old(self).orders@[id].side == Side::Sell
                    ==> prev_best_tick == INVALID_MIN || old(self).orders@[id].price_tick
                    > prev_best_tick,
            old(self).state.values().room(old(self).orders.ids().len() as int),
        ensures
            r == Ok::<(), Error>(()),
            final(self).settled(),
            final(self).framed(old(self)),
            final(self).within(old(self), 0),
            final(self).swept(
                old(self).model(),
                Sweep::BestBid { tick: new_best_tick },
                timestamp,
                final(self).fills_in(
                    old(self).orders@,
                    Sweep::BestBid { tick: new_best_tick },
                    timestamp,
                    old(self).bid_walk(prev_best_tick, new_best_tick),
                ),
            ),
    {
        let all = prev_best_tick == INVALID_MIN;
        let lo: i64 = if all {
            i32::MIN as i64
        } else {
            prev_best_tick as i64 + 1
        };
        let ids = self.candidates(Side::Sell, lo, new_best_tick as i64, all);
        proof {
            lemma_room_less(
                self.state.values(),
                self.orders.ids().len() as int,
                ids@.len() as int,
            );
        }
        self.run_sweep(&ids, Sweep::BestBid { tick: new_best_tick }, timestamp)
    }

    /// Fills the resting buys that a fall of the best ask from
    /// `prev_best_tick` to `new_best_tick` has reached: each as maker at its
    /// own price. No resting buy stands at or above the previous best ask,
    /// so it makes no difference whether all resting orders are walked or
    /// only the ticks that the best ask moved through.
    pub fn on_best_ask_update(
        &mut self,
        prev_best_tick: i32,
        new_best_tick: i32,
        timestamp: i64,
    ) -> (r: Result<(), Error>)
        requires
            old(self).settled(),
            forall|id: i64| #[trigger]
                old(self).orders@.contains_key(id) && old(self).orders@[id].side == Side::Buy
                    ==> prev_best_tick == INVALID_MAX || old(self).orders@[id].price_tick
                    < prev_best_tick,
            old(self).state.values().room(old(self).orders.ids().len() as int),
        ensures
            r == Ok::<(), Error>(()),
            final(self).settled(),
            final(self).framed(old(self)),
            final(self).within(old(self), 0),
            final(self).swept(
                old(self).model(),
                Sweep::BestAsk { tick: new_best_tick },
                timestamp,
                final(self).fills_in(
                    old(self).orders@,
                    Sweep::BestAsk { tick: new_best_tick },
                    timestamp,
                    old(self).ask_walk(prev_best_tick, new_best_tick),
                ),
            ),
    {
        let all = prev_best_tick == INVALID_MAX;
        let hi: i64 = if all {
            i32::MAX as i64
        } else {
            prev_best_tick as i64 - 1
        };
        let ids = self.candidates(Side::Buy, new_best_tick as i64, hi, all);
        proof {
            lemma_room_less(
                self.state.values(),
                self.orders.ids().len() as int,
                ids@.len() as int,
            );
        }
        self.run_sweep(&ids, Sweep::BestAsk { tick: new_best_tick }, timestamp)
    }

    /// Holds the resting orders against a trade: a buyer's trade against
    /// the sells between the best bid and the trade price, a seller's trade
    /// against the buys between the trade price and the best ask.
    fn on_trade(&mut self, sweep: Sweep, timestamp: i64) -> (r: Result<(), Error>)
        requires
            old(self).wf(),
            sweep is BuyTrade || sweep is SellTrade,
            old(self).state.values().room(old(self).orders.ids().len() as int),
        ensures
            r == Ok::<(), Error>(()),
            final(self).wf(),
            final(self).framed(old(self)),
            final(self).within(old(self), 0),
            final(self).swept(
                old(self).model(),
                sweep,
                timestamp,
                final(self).fills_in(old(self).orders@, sweep, timestamp,
                    old(self).trade_walk(sweep)),
            ),
    {
        let ids = match sweep {
            Sweep::SellTrade { tick, .. } => {
                let best_ask = self.depth.best_ask_tick();
                let all = best_ask == INVALID_MAX;
                let hi: i64 = if all {
                    i32::MAX as i64
                } else {
                    best_ask as i64 - 1
                };
                self.candidates(Side::Buy, tick as i64, hi, all)
            },
            Sweep::BuyTrade { tick, .. } => {
                let best_bid = self.depth.best_bid_tick();
                let all = best_bid == INVALID_MIN;
                let lo: i64 = if all {
                    i32::MIN as i64
                } else {
                    best_bid as i64 + 1
                };
                self.candidates(Side::Sell, lo, tick as i64, all)
            },
            _ => Vec::new(),
        };
        proof {
            lemma_room_less(
                self.state.values(),
                self.orders.ids().len() as int,
                ids@.len() as int,
            );
            assert forall|id: i64| #[trigger]
                self.orders@.contains_key(id) && sweep.reaches(
                    self.orders@[id].side,
                    self.orders@[id].price_tick,
                ) implies ids@.contains(id) by {
                assert(self.resting_ok(self.orders@[id]));
            }
        }
        let r = self.run_sweep(&ids, sweep, timestamp);
        proof {
            assert forall|id: i64| #[trigger] self.orders@.contains_key(id) implies self.resting_ok(
                self.orders@[id],
            ) by {
                self.lemma_out_of_reach(sweep, old(self).orders@[id]);
                assert(old(self).resting_ok(old(self).orders@[id]));
            }
        }
        r
    }

    /// Where the search for the next event of the exchange from row `from`
    /// on has left the processor: on the row that `seek` names, or, without
    /// such a row, where it was, with the reader drained.
    pub open spec fn sought(&self, pre: &Self, from: int) -> bool {
        match seek(pre.data@, from, pre.reader@, EXCH_EVENT) {
            Some((rows, i, rest)) => {
                &&& self.data@ == rows
                &&& self.row_num == i
                &&& self.reader@ == rest
                &&& 0 <= i < rows.len()
            },
            None => {
                &&& self.data@ == pre.data@
                &&& self.row_num == pre.row_num
                &&& self.reader@ == Seq::<Seq<Row>>::empty()
            },
        }
    }

    /// Moves to the first event that the exchange saw. The result is the
    /// time at which the exchange saw that event, or `EndOfData` where the
    /// data holds no event of the exchange.
    pub fn initialize_data(&mut self) -> (r: Result<i64, Error>)
        requires
            old(self).wf(),
        ensures
            final(self).wf(),
            final(self).same_models(old(self)),
            final(self).depth == old(self).depth,
            final(self).orders_from == old(self).orders_from,
            final(self).orders == old(self).orders,
            final(self).state == old(self).state,
            final(self).orders_to == old(self).orders_to,
            final(self).sought(old(self), 0),
            r == match seek(old(self).data@, 0, old(self).reader@, EXCH_EVENT) {
                Some((rows, i, rest)) => Ok::<i64, Error>(rows[i].exch_ts),
                None => Err::<i64, Error>(Error::EndOfData),
            },
    {
        let r = seek_next(&mut self.reader, &mut self.data, &mut self.row_num, 0, EXCH_EVENT);
        proof {
            lemma_seek(old(self).data@, 0, old(self).reader@, EXCH_EVENT);
            self.lemma_indexed_same(old(self));
        }
        match r {
            Ok(_) => Ok(self.data.get(self.row_num).exch_ts),
            Err(e) => Err(e),
        }
    }

    /// Applies a change of a bid level: the level is set, the buys that rest
    /// there move in their queues, and a best bid that rose fills the sells
    /// that it reached.
    fn apply_bid_depth(&mut self, row: Row) -> (r: Result<(), Error>)
        requires
            old(self).wf(),
            valid_tick(row.price_tick),
            !has_flags(row.ev, EXCH_BID_DEPTH_CLEAR_EVENT),
            !has_flags(row.ev, EXCH_ASK_DEPTH_CLEAR_EVENT),
            has_flags(row.ev, EXCH_BID_DEPTH_EVENT)
                || has_flags(row.ev, EXCH_BID_DEPTH_SNAPSHOT_EVENT),
            old(self).state.values().room(old(self).orders.ids().len() as int),
        ensures
            r == Ok::<(), Error>(()),
            final(self).wf(),
            final(self).same_models(old(self)),
            final(self).reader == old(self).reader,
            final(self).data == old(self).data,
            final(self).row_num == old(self).row_num,
            final(self).orders_from == old(self).orders_from,
            final(self).within(old(self), 0),
            final(self).depth.spec_tick_size() == old(self).depth.spec_tick_size(),
            final(self).depth.spec_lot_size() == old(self).depth.spec_lot_size(),
            final(self).event_applied(old(self), row, final(self).event_fills(old(self), row)),
    {
        let ghost before = old(self).depth.book();
        let ghost none = Seq::<Order<Q>>::empty();
        proof {
            self.depth.lemma_book_ok();
            lemma_best_bid_of(before.bids.dom());
            lemma_best_ask_of(before.asks.dom());
        }
        let (price_tick, prev_best_tick, best_tick, prev_qty, new_qty, timestamp) =
            self.depth.update_bid_depth(row.price_tick, row.qty, row.exch_ts);
        let ghost sweep = Sweep::BidQty { tick: price_tick, prev_qty, new_qty };
        proof {
            self.lemma_indexed_same(old(self));
        }
        self.on_bid_qty_chg(price_tick, prev_qty, new_qty);
        let ghost moved = *self;
        proof {
            assert forall|id: i64| #[trigger] self.orders@.contains_key(id) implies self.orders@[id]
                == self.touched(sweep, old(self).orders@[id]) && old(self).orders@.contains_key(
                id,
            ) by {}
        }
        if best_tick > prev_best_tick {
            proof {
                assert forall|id: i64| #[trigger]
                    self.orders@.contains_key(id) && self.orders@[id].side
                        == Side::Sell implies prev_best_tick == INVALID_MIN
                    || self.orders@[id].price_tick > prev_best_tick by {
                    self.lemma_out_of_reach(sweep, old(self).orders@[id]);
                    assert(old(self).resting_ok(old(self).orders@[id]));
                }
                self.orders.lemma_ids();
                old(self).orders.lemma_ids();
                Self::lemma_same_count(moved.orders, old(self).orders);
            }
            let r = self.on_best_bid_update(prev_best_tick, best_tick, timestamp);
            proof {
                let up = Sweep::BestBid { tick: best_tick };
                let fills = self.fills_in(
                    moved.orders@,
                    up,
                    timestamp,
                    moved.bid_walk(prev_best_tick, best_tick),
                );
                moved.lemma_walk_same(old(self), Side::Sell);
                assert(moved.model() == self.qty_changed(old(self).model(), sweep)) by {
                    assert forall|o: Order<Q>| self.touched(sweep, o) == moved.touched(sweep, o)
                        by {}
                    assert(moved.model().orders =~= self.qty_changed(
                        old(self).model(),
                        sweep,
                    ).orders);
                }
                assert forall|id: i64| #[trigger]
                    self.orders@.contains_key(id) implies self.resting_ok(self.orders@[id]) by {
                    self.lemma_out_of_reach(up, moved.orders@[id]);
                    self.lemma_out_of_reach(sweep, old(self).orders@[id]);
                    assert(old(self).resting_ok(old(self).orders@[id]));
                }
                assert(self.event_applied(old(self), row, fills));
                assert(fills == self.event_fills(old(self), row));
            }
            r
        } else {
            proof {
                let book = self.depth.book();
                lemma_best_bid_of(book.bids.dom());
                if best_tick != INVALID_MIN {
                    assert(book.bids.dom().contains(best_tick));
                    self.depth.lemma_book_ok();
                }
                assert forall|id: i64| #[trigger]
                    self.orders@.contains_key(id) implies self.resting_ok(self.orders@[id]) by {
                    self.lemma_out_of_reach(sweep, old(self).orders@[id]);
                    assert(old(self).resting_ok(old(self).orders@[id]));
                }
                assert(self.event_applied(old(self), row, none));
            }
            Ok(())
        }
    }

    /// Applies a change of an ask level: the level is set, the sells that
    /// rest there move in their queues, and a best ask that fell fills the
    /// buys that it reached.
    fn apply_ask_depth(&mut self, row: Row) -> (r: Result<(), Error>)
        requires
            old(self).wf(),
            valid_tick(row.price_tick),
            !has_flags(row.ev, EXCH_BID_DEPTH_CLEAR_EVENT),
            !has_flags(row.ev, EXCH_ASK_DEPTH_CLEAR_EVENT),
            !has_flags(row.ev, EXCH_BID_DEPTH_EVENT),
            !has_flags(row.ev, EXCH_BID_DEPTH_SNAPSHOT_EVENT),
            has_flags(row.ev, EXCH_ASK_DEPTH_EVENT)
                || has_flags(row.ev, EXCH_ASK_DEPTH_SNAPSHOT_EVENT),
            old(self).state.values().room(old(self).orders.ids().len() as int),
        ensures
            r == Ok::<(), Error>(()),
            final(self).wf(),
            final(self).same_models(old(self)),
            final(self).reader == old(self).reader,
            final(self).data == old(self).data,
            final(self).row_num == old(self).row_num,
            final(self).orders_from == old(self).orders_from,
            final(self).within(old(self), 0),
            final(self).depth.spec_tick_size() == old(self).depth.spec_tick_size(),
            final(self).depth.spec_lot_size() == old(self).depth.spec_lot_size(),
            final(self).event_applied(old(self), row, final(self).event_fills(old(self), row)),
    {
        let ghost before = old(self).depth.book();
        let ghost none = Seq::<Order<Q>>::empty();
        proof {
            self.depth.lemma_book_ok();
            lemma_best_bid_of(before.bids.dom());
            lemma_best_ask_of(before.asks.dom());
        }
        let (price_tick, prev_best_tick, best_tick, prev_qty, new_qty, timestamp) =
            self.depth.update_ask_depth(row.price_tick, row.qty, row.exch_ts);
        let ghost sweep = Sweep::AskQty { tick: price_tick, prev_qty, new_qty };
        proof {
            self.lemma_indexed_same(old(self));
        }
        self.on_ask_qty_chg(price_tick, prev_qty, new_qty);
        let ghost moved = *self;
        proof {
            assert forall|id: i64| #[trigger] self.orders@.contains_key(id) implies self.orders@[id]
                == self.touched(sweep, old(self).orders@[id]) && old(self).orders@.contains_key(
                id,
            ) by {}
        }
        if best_tick < prev_best_tick {
            proof {
                assert forall|id: i64| #[trigger]
                    self.orders@.contains_key(id) && self.orders@[id].side
                        == Side::Buy implies prev_best_tick == INVALID_MAX
                    || self.orders@[id].price_tick < prev_best_tick by {
                    self.lemma_out_of_reach(sweep, old(self).orders@[id]);
                    assert(old(self).resting_ok(old(self).orders@[id]));
                }
                self.orders.lemma_ids();
                old(self).orders.lemma_ids();
                Self::lemma_same_count(moved.orders, old(self).orders);
            }
            let r = self.on_best_ask_update(prev_best_tick, best_tick, timestamp);
            proof {
                let down = Sweep::BestAsk { tick: best_tick };
                let fills = self.fills_in(
                    moved.orders@,
                    down,
                    timestamp,
                    moved.ask_walk(prev_best_tick, best_tick),
                );
                moved.lemma_walk_same(old(self), Side::Buy);
                assert(moved.model() == self.qty_changed(old(self).model(), sweep)) by {
                    assert forall|o: Order<Q>| self.touched(sweep, o) == moved.touched(sweep, o)
                        by {}
                    assert(moved.model().orders =~= self.qty_changed(
                        old(self).model(),
                        sweep,
                    ).orders);
                }
                assert forall|id: i64| #[trigger]
                    self.orders@.contains_key(id) implies self.resting_ok(self.orders@[id]) by {
                    self.lemma_out_of_reach(down, moved.orders@[id]);
                    self.lemma_out_of_reach(sweep, old(self).orders@[id]);
                    assert(old(self).resting_ok(old(self).orders@[id]));
                }
                assert(self.event_applied(old(self), row, fills));
                assert(fills == self.event_fills(old(self), row));
            }
            r
        } else {
            proof {
                let book = self.depth.book();
                lemma_best_ask_of(book.asks.dom());
                if best_tick != INVALID_MAX {
                    assert(book.asks.dom().contains(best_tick));
                    self.depth.lemma_book_ok();
                }
                assert forall|id: i64| #[trigger]
                    self.orders@.contains_key(id) implies self.resting_ok(self.orders@[id]) by {
                    self.lemma_out_of_reach(sweep, old(self).orders@[id]);
                    assert(old(self).resting_ok(old(self).orders@[id]));
                }
                assert(self.event_applied(old(self), row, none));
            }
            Ok(())
        }
    }

    /// Applies one event of the data to the book and to the resting orders.
    fn apply_event(&mut self, row: Row) -> (r: Result<(), Error>)
        requires
            old(self).wf(),
            valid_tick(row.price_tick),
            old(self).state.values().room(old(self).orders.ids().len() as int),
        ensures
            r == Ok::<(), Error>(()),
            final(self).wf(),
            final(self).same_models(old(self)),
            final(self).reader == old(self).reader,
            final(self).data == old(self).data,
            final(self).row_num == old(self).row_num,
            final(self).orders_from == old(self).orders_from,
            final(self).within(old(self), 0),
            final(self).depth.spec_tick_size() == old(self).depth.spec_tick_size(),
            final(self).depth.spec_lot_size() == old(self).depth.spec_lot_size(),
            final(self).event_applied(old(self), row, final(self).event_fills(old(self), row)),
    {
        let ghost before = old(self).depth.book();
        let ghost none = Seq::<Order<Q>>::empty();
        proof {
            self.depth.lemma_book_ok();
            lemma_best_bid_of(before.bids.dom());
            lemma_best_ask_of(before.asks.dom());
        }
        if row.is(EXCH_BID_DEPTH_CLEAR_EVENT) {
            self.depth.clear_depth(BUY, row.price_tick);
            proof {
                let book = self.depth.book();
                lemma_best_bid_subset(book.bids.dom(), before.bids.dom());
                self.lemma_indexed_same(old(self));
                assert(self.event_applied(old(self), row, none));
            }
            Ok(())
        } else if row.is(EXCH_ASK_DEPTH_CLEAR_EVENT) {
            self.depth.clear_depth(SELL, row.price_tick);
            proof {
                let book = self.depth.book();
                lemma_best_ask_subset(book.asks.dom(), before.asks.dom());
                self.lemma_indexed_same(old(self));
                assert(self.event_applied(old(self), row, none));
            }
            Ok(())
        } else if row.is(EXCH_BID_DEPTH_EVENT) || row.is(EXCH_BID_DEPTH_SNAPSHOT_EVENT) {
            self.apply_bid_depth(row)
        } else if row.is(EXCH_ASK_DEPTH_EVENT) || row.is(EXCH_ASK_DEPTH_SNAPSHOT_EVENT) {
            self.apply_ask_depth(row)
        } else if row.is(EXCH_BUY_TRADE_EVENT) {
            let sweep = Sweep::BuyTrade { tick: row.price_tick, qty: row.qty };
            let r = self.on_trade(sweep, row.exch_ts);
            proof {
                let fills = self.fills_in(
                    old(self).orders@,
                    sweep,
                    row.exch_ts,
                    old(self).trade_walk(sweep),
                );
                assert(self.event_applied(old(self), row, fills));
                assert(fills == self.event_fills(old(self), row));
            }
            r
        } else if row.is(EXCH_SELL_TRADE_EVENT) {
            let sweep = Sweep::SellTrade { tick: row.price_tick, qty: row.qty };
            let r = self.on_trade(sweep, row.exch_ts);
            proof {
                let fills = self.fills_in(
                    old(self).orders@,
                    sweep,
                    row.exch_ts,
                    old(self).trade_walk(sweep),
                );
                assert(self.event_applied(old(self), row, fills));
                assert(fills == self.event_fills(old(self), row));
            }
            r
        } else {
            proof {
                assert(self.event_applied(old(self), row, none));
            }
            Ok(())
        }
    }

    /// The walks are the same where the store is walked alike and holds the
    /// same orders at the same prices.
    pub proof fn lemma_walk_same(&self, other: &Self, side: Side)
        requires
            self.orders.ids() == other.orders.ids(),
            self.orders@.dom() =~= other.orders@.dom(),
            forall|id: i64| #[trigger]
                self.orders@.contains_key(id) ==> self.orders@[id].side == other.orders@[id].side
                    && self.orders@[id].price_tick == other.orders@[id].price_tick,
        ensures
            forall|lo: int, hi: int, all: bool| #[trigger]
                self.walk(side, lo, hi, all) == other.walk(side, lo, hi, all),
    {
        assert forall|lo: int, hi: int, all: bool| #[trigger]
            self.walk(side, lo, hi, all) == other.walk(side, lo, hi, all) by {
            self.lemma_listed_same(other, side, lo, hi);
        }
    }

    /// What rests at a range of ticks depends on the walk of the store and
    /// on the sides and prices of the orders alone.
    pub proof fn lemma_listed_same(&self, other: &Self, side: Side, lo: int, hi: int)
        requires
            self.orders.ids() == other.orders.ids(),
            self.orders@.dom() =~= other.orders@.dom(),
            forall|id: i64| #[trigger]
                self.orders@.contains_key(id) ==> self.orders@[id].side == other.orders@[id].side
                    && self.orders@[id].price_tick == other.orders@[id].price_tick,
        ensures
            self.listed(side, lo, hi) == other.listed(side, lo, hi),
        decreases hi - lo + 1,
    {
        if hi >= lo {
            self.lemma_listed_same(other, side, lo, hi - 1);
            let ids = self.orders.ids();
            assert forall|i: int| 0 <= i < ids.len() implies ((self.orders@.contains_key(
                #[trigger] ids[i],
            ) && self.orders@[ids[i]].side == side && self.orders@[ids[i]].price_tick == hi as i32)
                <==> (other.orders@.contains_key(ids[i]) && other.orders@[ids[i]].side == side
                && other.orders@[ids[i]].price_tick == hi as i32)) by {
                assert(self.orders@.contains_key(ids[i]) <==> other.orders@.dom().contains(ids[i]));
            }
            lemma_pick_same(ids, self.orders@, other.orders@, side, hi as i32);
        }
    }

    /// Two stores that hold the same ids are walked in equally many steps.
    pub proof fn lemma_same_count(a: OrderStore<Q>, b: OrderStore<Q>)
        requires
            a.wf(),
            b.wf(),
            a@.dom() =~= b@.dom(),
        ensures
            a.ids().len() == b.ids().len(),
    {
        a.lemma_ids();
        b.lemma_ids();
        a.ids().unique_seq_to_set();
        b.ids().unique_seq_to_set();
        assert(a.ids().to_set() =~= b.ids().to_set());
    }

    /// What an event has made of the processor does not depend on where the
    /// processor stands in the data.
    pub proof fn lemma_event_applied_moved(
        &self,
        at: &Self,
        pre: &Self,
        row: Row,
        fills: Seq<Order<Q>>,
    )
        requires
            at.event_applied(pre, row, fills),
            self.same_models(at),
            self.depth == at.depth,
            self.orders == at.orders,
            self.state == at.state,
            self.orders_to == at.orders_to,
        ensures
            self.event_applied(pre, row, fills),
    {
        assert forall|sweep: Sweep, o: Order<Q>| self.touched(sweep, o) == at.touched(sweep, o)
            by {}
        assert forall|sweep: Sweep, o: Order<Q>| self.hit(sweep, o) == at.hit(sweep, o) by {}
        assert forall|sweep: Sweep, m: Matching<Q>| #[trigger]
            self.qty_changed(m, sweep) == at.qty_changed(m, sweep) by {
            assert(self.qty_changed(m, sweep).orders =~= at.qty_changed(m, sweep).orders);
        }
        assert forall|m: Matching<Q>| #[trigger]
            self.after_fills(m, fills) == at.after_fills(m, fills) by {
            self.lemma_after_fills_any(at, m, fills);
        }
    }

    /// The fills of an event do not depend on where the processor stands in
    /// the data.
    pub proof fn lemma_event_fills_moved(&self, at: &Self, pre: &Self, row: Row)
        requires
            self.same_models(at),
            self.depth == at.depth,
        ensures
            self.event_fills(pre, row) == at.event_fills(pre, row),
    {
        assert forall|sweep: Sweep, m: Matching<Q>| #[trigger]
            self.qty_changed(m, sweep) == at.qty_changed(m, sweep) by {
            assert(self.qty_changed(m, sweep).orders =~= at.qty_changed(m, sweep).orders);
        }
        assert forall|orders: Map<i64, Order<Q>>, sweep: Sweep, ts: i64, ids: Seq<i64>| #[trigger]
            self.fills_in(orders, sweep, ts, ids) == at.fills_in(orders, sweep, ts, ids) by {
            self.lemma_fills_in_rules(at, orders, sweep, ts, ids);
        }
    }

    /// Booking fills depends on the two models, the fee rates and the asset
    /// type alone.
    pub proof fn lemma_after_fills_any(&self, other: &Self, m: Matching<Q>, fills: Seq<Order<Q>>)
        requires
            self.same_models(other),
        ensures
            self.after_fills(m, fills) == other.after_fills(m, fills),
        decreases fills.len(),
    {
        if fills.len() > 0 {
            self.lemma_after_fills_any(other, m, fills.drop_last());
        }
    }

    /// Applies the event on which the processor stands and moves on to the
    /// next event that the exchange saw. The result is the time at which
    /// the exchange saw that next event, and `i64::MAX` in the second place;
    /// without a next event it is `EndOfData`, and the event at hand has
    /// been applied all the same.
    pub fn process_data(&mut self) -> (r: Result<(i64, i64), Error>)
        requires
            old(self).wf(),
            old(self).row_num < old(self).data@.len(),
            old(self).state.values().room(old(self).orders.ids().len() as int),
        ensures
            final(self).wf(),
            final(self).same_models(old(self)),
            final(self).orders_from == old(self).orders_from,
            final(self).within(old(self), 0),
            final(self).depth.spec_tick_size() == old(self).depth.spec_tick_size(),
            final(self).depth.spec_lot_size() == old(self).depth.spec_lot_size(),
            final(self).event_applied(
                old(self),
                old(self).data@[old(self).row_num as int],
                final(self).event_fills(old(self), old(self).data@[old(self).row_num as int]),
            ),
            final(self).sought(old(self), old(self).row_num + 1),
            r == match seek(old(self).data@, old(self).row_num + 1, old(self).reader@, EXCH_EVENT) {
                Some((rows, i, rest)) => Ok::<(i64, i64), Error>((rows[i].exch_ts, i64::MAX)),
                None => Err::<(i64, i64), Error>(Error::EndOfData),
            },
    {
        let row = self.data.get(self.row_num);
        match self.apply_event(row) {
            Ok(_) => {},
            Err(e) => {
                return Err(e);
            },
        }
        let ghost applied = *self;
        let rows = self.data.len();
        let from = self.row_num + 1;
        let r = seek_next(&mut self.reader, &mut self.data, &mut self.row_num, from, EXCH_EVENT);
        proof {
            lemma_seek(old(self).data@, from as int, old(self).reader@, EXCH_EVENT);
            self.lemma_indexed_same(&applied);
            let fills = applied.event_fills(old(self), row);
            self.lemma_event_applied_moved(&applied, old(self), row, fills);
            self.lemma_event_fills_moved(&applied, old(self), row);
        }
        match r {
            Ok(_) => Ok((self.data.get(self.row_num).exch_ts, i64::MAX)),
            Err(e) => Err(e),
        }
    }

    /// When the next request arrives from the strategy, `i64::MAX` where
    /// none is on its way.
    pub fn frontmost_recv_order_timestamp(&self) -> (t: i64)
        ensures
            t == self.orders_from.spec_frontmost_timestamp(),
    {
        self.orders_from.frontmost_timestamp()
    }

    /// When the next response reaches the strategy, `i64::MAX` where none
    /// is on its way.
    pub fn frontmost_send_order_timestamp(&self) -> (t: i64)
        ensures
            t == self.orders_to.spec_frontmost_timestamp(),
    {
        self.orders_to.frontmost_timestamp()
    }

    /// A rise of the best bid from `prev_best_tick` to `new_best_tick` fills
    /// the resting sells above the previous and up to the new best bid: not
    /// one at the previous best, since none rests there, and the one at the
    /// new best too.
    pub proof fn lemma_bid_sweep_range(&self, prev_best_tick: i32, new_best_tick: i32,
        order: Order<Q>)
        requires
            order.side == Side::Sell,
            prev_best_tick == INVALID_MIN || order.price_tick > prev_best_tick,
        ensures
            self.hit(
                Sweep::BestBid { tick: new_best_tick },
                self.touched(Sweep::BestBid { tick: new_best_tick }, order),
            ) <==> order.price_tick <= new_best_tick,
            prev_best_tick != INVALID_MIN ==> (self.hit(
                Sweep::BestBid { tick: new_best_tick },
                self.touched(Sweep::BestBid { tick: new_best_tick }, order),
            ) <==> prev_best_tick < order.price_tick <= new_best_tick),
            self.swept_order(Sweep::BestBid { tick: new_best_tick }, 0, order).exec_price_tick
                == if order.price_tick <= new_best_tick {
                order.price_tick
            } else {
                order.exec_price_tick
            },
    {
    }

    /// A fall of the best ask from `prev_best_tick` to `new_best_tick` fills
    /// the resting buys below the previous and down to the new best ask:
    /// not one at the previous best, since none rests there, and the one at
    /// the new best too.
    pub proof fn lemma_ask_sweep_range(&self, prev_best_tick: i32, new_best_tick: i32,
        order: Order<Q>)
        requires
            order.side == Side::Buy,
            prev_best_tick == INVALID_MAX || order.price_tick < prev_best_tick,
        ensures
            self.hit(
                Sweep::BestAsk { tick: new_best_tick },
                self.touched(Sweep::BestAsk { tick: new_best_tick }, order),
            ) <==> order.price_tick >= new_best_tick,
            prev_best_tick != INVALID_MAX ==> (self.hit(
                Sweep::BestAsk { tick: new_best_tick },
                self.touched(Sweep::BestAsk { tick: new_best_tick }, order),
            ) <==> new_best_tick <= order.price_tick < prev_best_tick),
            self.swept_order(Sweep::BestAsk { tick: new_best_tick }, 0, order).exec_price_tick
                == if order.price_tick >= new_best_tick {
                order.price_tick
            } else {
                order.exec_price_tick
            },
    {
    }

    /// The two exchanges answer requests alike: they show the same book and
    /// have the same two models, fee rates and asset type.
    pub open spec fn same_answers(&self, other: &Self) -> bool {
        &&& self.same_models(other)
        &&& self.depth.book() == other.depth.book()
    }

    /// The two exchanges are in the same state, as far as it shows: they
    /// answer requests alike, stand at the same place in the same data, hold
    /// the same resting orders, walked in the same order, and the same
    /// account, and have the same orders on their two buses.
    pub open spec fn alike(&self, other: &Self) -> bool {
        &&& self.same_answers(other)
        &&& self.depth.spec_tick_size() == other.depth.spec_tick_size()
        &&& self.depth.spec_lot_size() == other.depth.spec_lot_size()
        &&& self.model() == other.model()
        &&& self.orders_from@ == other.orders_from@
        &&& self.data@ == other.data@
        &&& self.row_num == other.row_num
        &&& self.reader@ == other.reader@
    }

    /// The answer to a request is determined by the request, the model and
    /// what the exchange answers by.
    pub proof fn lemma_recv_determined(
        &self,
        other: &Self,
        m: Matching<Q>,
        order: Order<Q>,
        recv_timestamp: i64,
        wait_resp: i64,
        next_timestamp: i64,
    )
        requires
            self.same_answers(other),
        ensures
            self.spec_recv(m, order, recv_timestamp, wait_resp, next_timestamp) == other.spec_recv(
                m,
                order,
                recv_timestamp,
                wait_resp,
                next_timestamp,
            ),
    {
    }

    /// The answers to the requests that are due are determined by the
    /// requests, the model and what the exchange answers by.
    pub proof fn lemma_drain_determined(
        &self,
        other: &Self,
        m: Matching<Q>,
        inbox: Seq<(Order<Q>, i64)>,
        timestamp: i64,
        wait_resp: i64,
        next_timestamp: i64,
    )
        requires
            self.same_answers(other),
        ensures
            self.spec_drain(m, inbox, timestamp, wait_resp, next_timestamp) == other.spec_drain(
                m,
                inbox,
                timestamp,
                wait_resp,
                next_timestamp,
            ),
        decreases inbox.len(),
    {
        if inbox.len() > 0 && inbox[0].1 == timestamp {
            self.lemma_recv_determined(
                other,
                m,
                inbox[0].0,
                timestamp,
                wait_resp,
                next_timestamp,
            );
            let s = self.spec_recv(m, inbox[0].0, timestamp, wait_resp, next_timestamp);
            if let Ok(next) = s.1 {
                self.lemma_drain_determined(other, s.0, inbox.skip(1), timestamp, wait_resp, next);
            }
        }
    }

    /// What an event makes of the exchange is determined by the state of the
    /// exchange, as far as it shows, and the event. Two exchanges that are
    /// each what the event makes of one of two exchanges in the same state
    /// show the same book and hold the same resting orders, walked in the
    /// same order, the same account and the same responses, in the same
    /// order.
    #[verifier::rlimit(60)]
    pub proof fn lemma_event_determined(&self, other: &Self, pre: &Self, other_pre: &Self, row: Row)
        requires
            pre.alike(other_pre),
            self.same_models(pre),
            other.same_models(other_pre),
            self.event_applied(pre, row, self.event_fills(pre, row)),
            other.event_applied(other_pre, row, other.event_fills(other_pre, row)),
        ensures
            self.same_answers(other),
            self.event_fills(pre, row) == other.event_fills(other_pre, row),
            self.model() == other.model(),
    {
        let book = self.depth.book();
        assert(book.bids == other.depth.book().bids);
        assert(book.asks == other.depth.book().asks);
        assert(book == other.depth.book());
        assert(pre.orders@ == other_pre.orders@);
        assert(pre.orders.ids() == other_pre.orders.ids());
        assert forall|sweep: Sweep, o: Order<Q>| self.touched(sweep, o)
            == other.touched(sweep, o) by {}
        assert forall|sweep: Sweep, o: Order<Q>| self.hit(sweep, o) == other.hit(sweep, o) by {}
        assert forall|sweep: Sweep, m: Matching<Q>| #[trigger]
            self.qty_changed(m, sweep) == other.qty_changed(m, sweep) by {
            assert(self.qty_changed(m, sweep).orders =~= other.qty_changed(m, sweep).orders);
        }
        assert forall|orders: Map<i64, Order<Q>>, sweep: Sweep, ts: i64, ids: Seq<i64>| #[trigger]
            self.fills_in(orders, sweep, ts, ids) == other.fills_in(orders, sweep, ts, ids) by {
            self.lemma_fills_in_rules(other, orders, sweep, ts, ids);
        }
        assert forall|side: Side, lo: int, hi: int, all: bool| #[trigger]
            pre.walk(side, lo, hi, all) == other_pre.walk(side, lo, hi, all) by {
            pre.lemma_walk_same(other_pre, side);
        }
        let fills = self.event_fills(pre, row);
        assert(fills == other.event_fills(other_pre, row));
        assert forall|m: Matching<Q>| #[trigger]
            self.after_fills(m, fills) == other.after_fills(m, fills) by {
            self.lemma_after_fills_any(other, m, fills);
        }
        assert forall|id: i64| #[trigger]
            self.orders@.contains_key(id) <==> other.orders@.contains_key(id) by {}
        assert forall|id: i64| #[trigger] self.orders@.contains_key(id) implies self.orders@[id]
            == other.orders@[id] by {
            assert(other.orders@.contains_key(id));
        }
        assert(self.orders@ =~= other.orders@);
        assert(self.orders.ids() =~= other.orders.ids());
        assert(self.orders_to@ =~= other.orders_to@);
    }
}

impl<Q, LM, QM> NoPartialFillExchange<LinearAsset, Q, LM, QM> where
    Q: Copy,
    LM: LatencyModel<Q>,
    QM: QueueModel<Q>,
 {
    /// The executions that stand on the filled orders, each with the fee
    /// rate of its kind.
    pub open spec fn executions(&self, fills: Seq<Order<Q>>) -> Seq<Execution> {
        Seq::new(
            fills.len(),
            |k: int|
                Execution {
                    side: fills[k].side,
                    price_tick: fills[k].exec_price_tick,
                    qty: fills[k].exec_qty,
                    fee_rate: self.state.fee_rate(fills[k].maker),
                },
        )
    }

    /// Nothing is lost in the matching. Whatever orders an event or any
    /// number of events fill, the worth of the exchange's account on a
    /// linear asset, with the position valued at any one price, is what it
    /// was before plus what each fill gained against that price, less the
    /// fees.
    pub proof fn lemma_fills_conserve(&self, m: Matching<Q>, fills: Seq<Order<Q>>, price_tick: int)
        requires
            m.values.room(fills.len() as int),
        ensures
            self.after_fills(m, fills).values == booked(m.values, self.executions(fills)),
            self.after_fills(m, fills).values.equity(price_tick) == m.values.equity(price_tick)
                + gains(self.executions(fills), price_tick),
        decreases fills.len(),
    {
        lemma_conservation(m.values, self.executions(fills), price_tick);
        if fills.len() > 0 {
            let rest = fills.drop_last();
            lemma_room_less(m.values, fills.len() as int, rest.len() as int);
            self.lemma_fills_conserve(m, rest, price_tick);
            assert(self.executions(fills).drop_last() =~= self.executions(rest));
            let f = fills.last();
            assert(-0x8000_0000_0000_0000 <= f.exec_price_tick * f.exec_qty
                <= 0x7fff_ffff_ffff_ffff) by (nonlinear_arith)
                requires
                    -0x8000_0000 <= f.exec_price_tick <= 0x7fff_ffff,
                    0 <= f.exec_qty <= 0xffff_ffff,
            ;
        }
    }
}

} // verus!
