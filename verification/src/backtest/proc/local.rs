//! The local processor: the strategy's side of the simulation.

use crate::backtest::assettype::AssetType;
use crate::backtest::models::latencies::{delivery_timestamp, spec_delivery_timestamp, LatencyModel};
use crate::backtest::order::{bus_append, OrderBus};
use crate::backtest::orderstore::{stripped, OrderStore};
use crate::backtest::reader::{
    has_flags, lemma_seek, seek, seek_next, valid_rows, Data, Reader, Row,
    LOCAL_ASK_DEPTH_CLEAR_EVENT, LOCAL_ASK_DEPTH_EVENT, LOCAL_ASK_DEPTH_SNAPSHOT_EVENT,
    LOCAL_BID_DEPTH_CLEAR_EVENT, LOCAL_BID_DEPTH_EVENT, LOCAL_BID_DEPTH_SNAPSHOT_EVENT,
    LOCAL_EVENT, LOCAL_TRADE_EVENT,
};
use crate::backtest::state::{
    lemma_filled_room, lemma_filled_spends, lemma_room_less, lemma_spends, State, StateValues,
};
use crate::backtest::Error;
use crate::depth::{set_level, valid_tick, Book, MarketDepth, INVALID_MAX, INVALID_MIN};
use crate::ty::{OrdType, Order, Side, Status, TimeInForce, BUY, SELL};
use vstd::prelude::*;

verus! {

/// What responses change on the strategy's side: the orders as the strategy
/// knows them, in the order in which it came to know them, and its account.
pub struct Ledger<Q> {
    pub orders: Map<i64, Order<Q>>,
    pub ids: Seq<i64>,
    pub values: StateValues,
}

/// Of the ids, in their order, those of the orders that have left the book.
pub open spec fn ended<Q>(ids: Seq<i64>, orders: Map<i64, Order<Q>>) -> Seq<i64>
    decreases ids.len(),
{
    if ids.len() == 0 {
        Seq::empty()
    } else {
        let rest = ended(ids.drop_last(), orders);
        if orders.contains_key(ids.last()) && orders[ids.last()].status.spec_is_terminal() {
            rest.push(ids.last())
        } else {
            rest
        }
    }
}

/// `a - b`, held at the ends of the range where the difference passes them.
pub open spec fn spec_elapsed(a: i64, b: i64) -> i64 {
    if a - b > i64::MAX {
        i64::MAX
    } else if a - b < i64::MIN {
        i64::MIN
    } else {
        (a - b) as i64
    }
}

/// The time from `b` to `a`, held at the ends of the range where the
/// difference passes them.
pub fn elapsed(a: i64, b: i64) -> (d: i64)
    ensures
        d == spec_elapsed(a, b),
{
    match a.checked_sub(b) {
        Some(d) => d,
        None => if a >= b {
            i64::MAX
        } else {
            i64::MIN
        },
    }
}

/// The answer says that a cancellation or modification found no order at
/// the exchange. The strategy side passes over it: the id may be in use
/// again for an order that the answer knows nothing of.
pub open spec fn is_not_found<Q>(order: Order<Q>) -> bool {
    order.status == Status::Expired && order.req != Status::Unset
}

/// The trades on record after `row` was added to at most `limit` of them:
/// without a limit nothing is kept, and at the limit the oldest makes room.
pub open spec fn recorded_trades(trades: Seq<Row>, limit: usize, row: Row) -> Seq<Row> {
    if limit == 0 {
        trades
    } else if trades.len() >= limit {
        trades.skip(trades.len() - limit + 1).push(row)
    } else {
        trades.push(row)
    }
}

/// Whether the event changes the strategy's view of the book.
pub open spec fn is_depth_event(ev: u64) -> bool {
    ||| has_flags(ev, LOCAL_BID_DEPTH_CLEAR_EVENT)
    ||| has_flags(ev, LOCAL_ASK_DEPTH_CLEAR_EVENT)
    ||| has_flags(ev, LOCAL_BID_DEPTH_EVENT)
    ||| has_flags(ev, LOCAL_BID_DEPTH_SNAPSHOT_EVENT)
    ||| has_flags(ev, LOCAL_ASK_DEPTH_EVENT)
    ||| has_flags(ev, LOCAL_ASK_DEPTH_SNAPSHOT_EVENT)
}

/// The strategy's view of the book after the event: a clear drops levels,
/// a change or snapshot of a level sets its quantity, and any other event
/// leaves the book as it was.
pub open spec fn book_after(book: Book, row: Row) -> Book {
    if has_flags(row.ev, LOCAL_BID_DEPTH_CLEAR_EVENT) {
        book.cleared(BUY, row.price_tick)
    } else if has_flags(row.ev, LOCAL_ASK_DEPTH_CLEAR_EVENT) {
        book.cleared(SELL, row.price_tick)
    } else if has_flags(row.ev, LOCAL_BID_DEPTH_EVENT) || has_flags(
        row.ev,
        LOCAL_BID_DEPTH_SNAPSHOT_EVENT,
    ) {
        Book { bids: set_level(book.bids, row.price_tick, row.qty), asks: book.asks }
    } else if has_flags(row.ev, LOCAL_ASK_DEPTH_EVENT) || has_flags(
        row.ev,
        LOCAL_ASK_DEPTH_SNAPSHOT_EVENT,
    ) {
        Book { bids: book.bids, asks: set_level(book.asks, row.price_tick, row.qty) }
    } else {
        book
    }
}

/// The trades on record after the event: a trade that is no depth event is
/// recorded.
pub open spec fn trades_after(trades: Seq<Row>, limit: usize, row: Row) -> Seq<Row> {
    if !is_depth_event(row.ev) && has_flags(row.ev, LOCAL_TRADE_EVENT) {
        recorded_trades(trades, limit, row)
    } else {
        trades
    }
}

/// The local processor. It holds the orders as the strategy knows them, the
/// strategy's view of the book and its account; it reads the events that
/// the strategy saw; it sends the strategy's requests to the exchange and
/// takes in the responses.
pub struct Local<AT, Q, LM, MD> {
    pub reader: Reader,
    pub data: Data,
    pub row_num: usize,
    pub orders: OrderStore<Q>,
    pub orders_to: OrderBus<Q>,
    pub orders_from: OrderBus<Q>,
    pub depth: MD,
    pub state: State<AT>,
    pub order_latency: LM,
    pub trades: Vec<Row>,
    pub trade_len: usize,
    pub last_order_entry_latency: Option<i64>,
    pub last_roundtrip_order_latency: Option<i64>,
}

impl<AT, Q, LM, MD> Local<AT, Q, LM, MD> where
    AT: AssetType,
    Q: Copy + Default,
    LM: LatencyModel<Q>,
    MD: MarketDepth,
 {
    /// The parts are sound, the quantities of every order that is held or
    /// under way add up, and no more trades are on record than the limit
    /// allows.
    pub open spec fn wf(&self) -> bool {
        &&& self.reader.wf()
        &&& valid_rows(self.data@)
        &&& self.orders.wf()
        &&& self.orders_to.wf()
        &&& self.orders_to.consistent()
        &&& self.orders_from.wf()
        &&& self.orders_from.consistent()
        &&& self.depth.wf()
        &&& self.trades@.len() <= self.trade_len
        &&& forall|id: i64| #[trigger]
            self.orders@.contains_key(id) ==> self.orders@[id].consistent()
    }

    /// The orders and the account.
    pub open spec fn ledger(&self) -> Ledger<Q> {
        Ledger { orders: self.orders@, ids: self.orders.ids(), values: self.state.values() }
    }

    /// The orders and the account are those of `l`.
    pub open spec fn is_ledger(&self, l: Ledger<Q>) -> bool {
        &&& self.orders@ =~= l.orders
        &&& self.orders.ids() =~= l.ids
        &&& self.state.values() == l.values
    }

    /// The latency model, the fee rates, the asset type and the limit on
    /// recorded trades are those of `pre`.
    pub open spec fn same_models(&self, pre: &Self) -> bool {
        &&& self.order_latency == pre.order_latency
        &&& self.state.maker_fee == pre.state.maker_fee
        &&& self.state.taker_fee == pre.state.taker_fee
        &&& self.state.asset_type == pre.state.asset_type
        &&& self.trade_len == pre.trade_len
    }

    /// The position in the data, the book and the recorded trades are
    /// those of `pre`.
    pub open spec fn same_market(&self, pre: &Self) -> bool {
        &&& self.reader == pre.reader
        &&& self.data == pre.data
        &&& self.row_num == pre.row_num
        &&& self.depth == pre.depth
        &&& self.trades == pre.trades
    }

    /// When a request that the strategy sends at `timestamp` reaches the
    /// exchange.
    pub open spec fn request_due(&self, order: Order<Q>, timestamp: i64) -> i64 {
        spec_delivery_timestamp(timestamp, self.order_latency.spec_entry(timestamp, order))
    }

    /// The order that a submission at `timestamp` files and sends: new,
    /// with the submission in flight.
    pub open spec fn submitted(
        &self,
        order_id: i64,
        side: Side,
        price_tick: i32,
        qty: u32,
        order_type: OrdType,
        time_in_force: TimeInForce,
        timestamp: i64,
        q: Q,
    ) -> Order<Q> {
        Order {
            status: Status::New,
            req: Status::New,
            local_timestamp: timestamp,
            ..Order::fresh(
                order_id,
                price_tick,
                self.depth.spec_tick_size(),
                qty,
                side,
                order_type,
                time_in_force,
                q,
            )
        }
    }

    /// The ledger after one response was taken in. The answer that nothing
    /// was found is passed over. Any other response replaces what the
    /// strategy knew of the order, and a fill is booked on the account.
    pub open spec fn spec_recv(&self, l: Ledger<Q>, order: Order<Q>) -> Ledger<Q> {
        if is_not_found(order) {
            l
        } else {
            Ledger {
                orders: l.orders.insert(order.order_id, order),
                ids: if l.orders.contains_key(order.order_id) {
                    l.ids
                } else {
                    l.ids.push(order.order_id)
                },
                values: if order.status == Status::Filled {
                    l.values.filled(
                        order.side,
                        order.exec_qty,
                        self.state.asset_type.spec_amount(order.exec_price_tick, order.exec_qty),
                        self.state.fee_rate(order.maker),
                    )
                } else {
                    l.values
                },
            }
        }
    }

    /// For every order at every response: whatever the account holds,
    /// taking in a response whose quantities add up leaves the strategy
    /// with orders whose quantities add up, and an order that has left the
    /// book for good has nothing left there.
    pub proof fn lemma_recv_sound(&self, l: Ledger<Q>, order: Order<Q>)
        requires
            order.consistent(),
            forall|id: i64| l.orders.contains_key(id) ==> (#[trigger] l.orders[id]).consistent(),
        ensures
            forall|id: i64|
                self.spec_recv(l, order).orders.contains_key(id) ==> (#[trigger] self.spec_recv(
                    l,
                    order,
                ).orders[id]).consistent(),
    {
    }

    /// The number of responses at the head of the bus that are due at
    /// `timestamp`.
    pub open spec fn due_now(inbox: Seq<(Order<Q>, i64)>, timestamp: i64) -> nat
        decreases inbox.len(),
    {
        if inbox.len() == 0 || inbox[0].1 != timestamp {
            0
        } else {
            1 + Self::due_now(inbox.skip(1), timestamp)
        }
    }

    /// The ledger after the first `n` responses of the bus were taken in,
    /// one after the other.
    pub open spec fn spec_drain(&self, l: Ledger<Q>, inbox: Seq<(Order<Q>, i64)>, n: nat) -> Ledger<
        Q,
    >
        decreases n,
    {
        if n == 0 || inbox.len() == 0 {
            l
        } else {
            self.spec_drain(self.spec_recv(l, inbox[0].0), inbox.skip(1), (n - 1) as nat)
        }
    }

    /// A processor without orders, positioned before the first event. It
    /// keeps the last `trade_len` trades that the strategy saw.
    pub fn new(
        reader: Reader,
        depth: MD,
        state: State<AT>,
        order_latency: LM,
        trade_len: usize,
        orders_to: OrderBus<Q>,
        orders_from: OrderBus<Q>,
    ) -> (x: Self)
        requires
            reader.wf(),
            depth.wf(),
            orders_to.wf(),
            orders_to.consistent(),
            orders_from.wf(),
            orders_from.consistent(),
        ensures
            x.wf(),
            x.reader == reader,
            x.data@ == Seq::<Row>::empty(),
            x.row_num == 0,
            x.orders@ == Map::<i64, Order<Q>>::empty(),
            x.orders.ids() == Seq::<i64>::empty(),
            x.orders_to == orders_to,
            x.orders_from == orders_from,
            x.depth == depth,
            x.state == state,
            x.order_latency == order_latency,
            x.trades@ == Seq::<Row>::empty(),
            x.trade_len == trade_len,
            x.last_order_entry_latency == None::<i64>,
            x.last_roundtrip_order_latency == None::<i64>,
    {
        Local {
            reader,
            data: Data::empty(),
            row_num: 0,
            orders: OrderStore::new(),
            orders_to,
            orders_from,
            depth,
            state,
            order_latency,
            trades: Vec::new(),
            trade_len,
            last_order_entry_latency: None,
            last_roundtrip_order_latency: None,
        }
    }

    /// Takes in one response of the exchange. A fill is booked on the
    /// account, and the response replaces what the strategy knew of the
    /// order. The answer that a cancellation or modification found nothing
    /// is passed over. The result is `next_timestamp` as it was.
    pub fn process_recv_order_(
        &mut self,
        order: Order<Q>,
        recv_timestamp: i64,
        wait_resp: i64,
        next_timestamp: i64,
    ) -> (r: Result<i64, Error>)
        requires
            old(self).wf(),
            order.consistent(),
            order.status == Status::Filled ==> old(self).state.values().room(1),
        ensures
            final(self).wf(),
            final(self).same_models(old(self)),
            final(self).same_market(old(self)),
            final(self).orders_to == old(self).orders_to,
            final(self).orders_from == old(self).orders_from,
            final(self).last_order_entry_latency == old(self).last_order_entry_latency,
            final(self).last_roundtrip_order_latency == old(self).last_roundtrip_order_latency,
            final(self).is_ledger(old(self).spec_recv(old(self).ledger(), order)),
            final(self).state.values().spends(old(self).state.values(), 1),
            r == Ok::<i64, Error>(next_timestamp),
    {
        proof {
            lemma_spends(
                self.state.values(),
                self.state.values(),
                self.state.values(),
                0,
                0,
                1,
            );
            lemma_filled_spends(
                self.state.values(),
                order.side,
                order.exec_qty,
                self.state.asset_type.spec_amount(order.exec_price_tick, order.exec_qty),
                self.state.fee_rate(order.maker),
            );
        }
        if order.status == Status::Expired && order.req != Status::Unset {
            return Ok(next_timestamp);
        }
        if order.status == Status::Filled {
            self.state.apply_fill(&order);
        }
        self.orders.insert(order);
        Ok(next_timestamp)
    }

    /// Forgets the trades on record.
    pub fn clear_last_trades(&mut self)
        requires
            old(self).wf(),
        ensures
            final(self).wf(),
            final(self).trades@ == Seq::<Row>::empty(),
            final(self).same_models(old(self)),
            final(self).reader == old(self).reader,
            final(self).data == old(self).data,
            final(self).row_num == old(self).row_num,
            final(self).depth == old(self).depth,
            final(self).orders == old(self).orders,
            final(self).state == old(self).state,
            final(self).orders_to == old(self).orders_to,
            final(self).orders_from == old(self).orders_from,
            final(self).last_order_entry_latency == old(self).last_order_entry_latency,
            final(self).last_roundtrip_order_latency == old(self).last_roundtrip_order_latency,
    {
        self.trades.clear();
    }

    /// Submits an order at `current_timestamp`. The order is filed as new
    /// with the submission in flight, and a copy travels to the exchange,
    /// where it arrives after the entry latency. An id that is in use is
    /// refused, and so is a price that is one of the two markers of an
    /// empty side.
    pub fn submit_order(
        &mut self,
        order_id: i64,
        side: Side,
        price_tick: i32,
        qty: u32,
        order_type: OrdType,
        time_in_force: TimeInForce,
        current_timestamp: i64,
    ) -> (r: Result<(), Error>)
        requires
            old(self).wf(),
        ensures
            final(self).wf(),
            final(self).same_models(old(self)),
            final(self).same_market(old(self)),
            final(self).state == old(self).state,
            final(self).orders_from == old(self).orders_from,
            final(self).last_order_entry_latency == old(self).last_order_entry_latency,
            final(self).last_roundtrip_order_latency == old(self).last_roundtrip_order_latency,
            r == if old(self).orders@.contains_key(order_id) {
                Err::<(), Error>(Error::OrderAlreadyExist)
            } else if !valid_tick(price_tick) {
                Err::<(), Error>(Error::InvalidOrderRequest)
            } else {
                Ok::<(), Error>(())
            },
            final(self).orders_to@.len() == old(self).orders_to@.len() + if r is Ok {
                1int
            } else {
                0int
            },
            r is Err ==> final(self).orders == old(self).orders && final(self).orders_to == old(
                self,
            ).orders_to,
            r is Ok ==> {
                let o = final(self).orders@[order_id];
                &&& o.placeable()
                &&& o == old(self).submitted(
                    order_id,
                    side,
                    price_tick,
                    qty,
                    order_type,
                    time_in_force,
                    current_timestamp,
                    o.q,
                )
                &&& call_ensures(Q::default, (), o.q)
                &&& final(self).orders@ == old(self).orders@.insert(order_id, o)
                &&& final(self).orders.ids() == old(self).orders.ids().push(order_id)
                &&& final(self).orders_to@ == bus_append(
                    old(self).orders_to@,
                    o,
                    old(self).request_due(o, current_timestamp),
                )
            },
    {
        if self.orders.contains_key(order_id) {
            return Err(Error::OrderAlreadyExist);
        }
        if price_tick == INVALID_MIN || price_tick == INVALID_MAX {
            return Err(Error::InvalidOrderRequest);
        }
        let mut order: Order<Q> = Order::new(
            order_id,
            price_tick,
            self.depth.tick_size(),
            qty,
            side,
            order_type,
            time_in_force,
        );
        order.status = Status::New;
        order.req = Status::New;
        order.local_timestamp = current_timestamp;
        let latency = self.order_latency.entry(current_timestamp, &order);
        let exch_recv_timestamp = delivery_timestamp(current_timestamp, latency);
        self.orders_to.append(order, exch_recv_timestamp);
        self.orders.insert(order);
        Ok(())
    }

    /// Asks the exchange at `current_timestamp` to cancel an order. The
    /// order is marked, and a copy travels to the exchange, where it
    /// arrives after the entry latency. An unknown id is refused, and so is
    /// an order on which a request is still in flight.
    pub fn cancel(&mut self, order_id: i64, current_timestamp: i64) -> (r: Result<(), Error>)
        requires
            old(self).wf(),
        ensures
            final(self).wf(),
            final(self).same_models(old(self)),
            final(self).same_market(old(self)),
            final(self).state == old(self).state,
            final(self).orders_from == old(self).orders_from,
            final(self).last_order_entry_latency == old(self).last_order_entry_latency,
            final(self).last_roundtrip_order_latency == old(self).last_roundtrip_order_latency,
            final(self).orders_to@.len() == old(self).orders_to@.len() + if r is Ok {
                1int
            } else {
                0int
            },
            r == if !old(self).orders@.contains_key(order_id) {
                Err::<(), Error>(Error::OrderNotFound)
            } else if old(self).orders@[order_id].req != Status::Unset {
                Err::<(), Error>(Error::OrderRequestInProcess)
            } else {
                Ok::<(), Error>(())
            },
            r is Err ==> final(self).orders == old(self).orders && final(self).orders_to
                == old(self).orders_to,
            r is Ok ==> {
                let o = Order { req: Status::Canceled, ..old(self).orders@[order_id] };
                &&& final(self).orders@ == old(self).orders@.insert(order_id, o)
                &&& final(self).orders.ids() == old(self).orders.ids()
                &&& final(self).orders_to@ == bus_append(
                    old(self).orders_to@,
                    o,
                    old(self).request_due(o, current_timestamp),
                )
            },
    {
        let mut order = match self.orders.get(order_id) {
            Some(order) => order,
            None => {
                return Err(Error::OrderNotFound);
            },
        };
        if order.req != Status::Unset {
            return Err(Error::OrderRequestInProcess);
        }
        proof {
            self.orders.lemma_ids();
        }
        order.req = Status::Canceled;
        let latency = self.order_latency.entry(current_timestamp, &order);
        let exch_recv_timestamp = delivery_timestamp(current_timestamp, latency);
        self.orders_to.append(order, exch_recv_timestamp);
        self.orders.insert(order);
        Ok(())
    }

    /// Drops the orders that have left the book: those that are expired,
    /// filled or canceled.
    pub fn clear_inactive_orders(&mut self)
        requires
            old(self).wf(),
        ensures
            final(self).wf(),
            final(self).same_models(old(self)),
            final(self).same_market(old(self)),
            final(self).state == old(self).state,
            final(self).orders_to == old(self).orders_to,
            final(self).orders_from == old(self).orders_from,
            final(self).last_order_entry_latency == old(self).last_order_entry_latency,
            final(self).last_roundtrip_order_latency == old(self).last_roundtrip_order_latency,
            final(self).orders.ids() == stripped(
                old(self).orders.ids(),
                ended(old(self).orders.ids(), old(self).orders@),
            ),
            forall|id: i64| #[trigger]
                final(self).orders@.contains_key(id) <==> old(self).orders@.contains_key(id)
                    && !old(self).orders@[id].status.spec_is_terminal(),
            forall|id: i64| #[trigger]
                final(self).orders@.contains_key(id) ==> final(self).orders@[id]
                    == old(self).orders@[id],
    {
        let ids = self.orders.order_ids();
        proof {
            self.orders.lemma_ids();
        }
        let mut i: usize = 0;
        while i < ids.len()
            invariant
                0 <= i <= ids@.len(),
                ids@ == old(self).orders.ids(),
                ids@.no_duplicates(),
                forall|id: i64| #[trigger] old(self).orders@.contains_key(id)
                    <==> ids@.contains(id),
                self.wf(),
                self.same_models(old(self)),
                self.same_market(old(self)),
                self.state == old(self).state,
                self.orders_to == old(self).orders_to,
                self.orders_from == old(self).orders_from,
                self.last_order_entry_latency == old(self).last_order_entry_latency,
                self.last_roundtrip_order_latency == old(self).last_roundtrip_order_latency,
                self.orders.ids() == stripped(
                    old(self).orders.ids(),
                    ended(ids@.take(i as int), old(self).orders@),
                ),
                forall|id: i64| #[trigger]
                    self.orders@.contains_key(id) <==> old(self).orders@.contains_key(id) && !(
                    ids@.take(i as int).contains(id)
                        && old(self).orders@[id].status.spec_is_terminal()),
                forall|id: i64| #[trigger]
                    self.orders@.contains_key(id) ==> self.orders@[id] == old(self).orders@[id],
            decreases ids@.len() - i,
        {
            let order_id = ids[i];
            let ghost done = ids@.take(i as int);
            let ghost more = ids@.take(i + 1);
            proof {
                assert(more =~= done.push(order_id));
                assert(more.drop_last() =~= done);
                assert(more.last() == order_id);
                assert(ids@.contains(order_id));
                let gone = ended(done, old(self).orders@);
                assert(gone.push(order_id).drop_last() =~= gone);
                if done.contains(order_id) {
                    let j = choose|j: int| 0 <= j < done.len() && done[j] == order_id;
                    assert(ids@[j] == ids@[i as int]);
                }
                assert forall|id: i64| more.contains(id) <==> done.contains(id) || id
                    == order_id by {
                    if done.contains(id) {
                        let j = choose|j: int| 0 <= j < done.len() && done[j] == id;
                        assert(more[j] == id);
                    }
                    assert(more[i as int] == order_id);
                    if more.contains(id) && id != order_id {
                        let j = choose|j: int| 0 <= j < more.len() && more[j] == id;
                        assert(done[j] == id);
                    }
                }
            }
            match self.orders.get(order_id) {
                Some(order) => {
                    if order.status.is_terminal() {
                        self.orders.remove(order_id);
                    }
                },
                None => {},
            }
            i = i + 1;
        }
        proof {
            assert(ids@.take(i as int) =~= ids@);
        }
    }

    /// The position, in lots.
    pub fn position(&self) -> (p: i64)
        ensures
            p == self.state.position,
    {
        self.state.position
    }

    /// The accumulated values of the account.
    pub fn state_values(&self) -> (v: StateValues)
        ensures
            v == self.state.values(),
    {
        self.state.state_values()
    }

    /// The strategy's view of the book.
    pub fn depth(&self) -> (d: &MD)
        ensures
            *d == self.depth,
    {
        &self.depth
    }

    /// The orders as the strategy knows them.
    pub fn orders(&self) -> (o: &OrderStore<Q>)
        ensures
            *o == self.orders,
    {
        &self.orders
    }

    /// The trades on record.
    pub fn trade(&self) -> (t: &Vec<Row>)
        ensures
            *t == self.trades,
    {
        &self.trades
    }

    /// When the next response arrives from the exchange, `i64::MAX` where
    /// none is on its way.
    pub fn frontmost_recv_order_timestamp(&self) -> (t: i64)
        ensures
            t == self.orders_from.spec_frontmost_timestamp(),
    {
        self.orders_from.frontmost_timestamp()
    }

    /// When the next request reaches the exchange, `i64::MAX` where none is
    /// on its way.
    pub fn frontmost_send_order_timestamp(&self) -> (t: i64)
        ensures
            t == self.orders_to.spec_frontmost_timestamp(),
    {
        self.orders_to.frontmost_timestamp()
    }

    /// Where the search for the next event of the strategy from row `from`
    /// on has left the processor: on the row that `seek` names, or, without
    /// such a row, where it was, with the reader drained.
    pub open spec fn sought(&self, pre: &Self, from: int) -> bool {
        match seek(pre.data@, from, pre.reader@, LOCAL_EVENT) {
            Some((rows, i, rest)) => {
                &&& self.data@ == rows
                &&& self.row_num == i
                &&& self.reader@ == rest
                &&& 0 <= i < rows.len()
            },
            None => {
                &&& self.data@ == pre.data@
                &&& self.row_num == pre.row_num
                &&& self.reader@ == Seq::<Seq<Row>>::empty()
            },
        }
    }

    /// Only the position in the data may differ from `pre`, and with
    /// `market` the book and the recorded trades as well.
    pub open spec fn same_trading(&self, pre: &Self) -> bool {
        &&& self.same_models(pre)
        &&& self.orders == pre.orders
        &&& self.state == pre.state
        &&& self.orders_to == pre.orders_to
        &&& self.orders_from == pre.orders_from
        &&& self.last_order_entry_latency == pre.last_order_entry_latency
        &&& self.last_roundtrip_order_latency == pre.last_roundtrip_order_latency
    }

    /// Moves to the first event that the strategy saw. The result is the
    /// time at which the strategy saw it, or `EndOfData` where the data
    /// holds no event of the strategy.
    pub fn initialize_data(&mut self) -> (r: Result<i64, Error>)
        requires
            old(self).wf(),
        ensures
            final(self).wf(),
            final(self).same_trading(old(self)),
            final(self).depth == old(self).depth,
            final(self).trades == old(self).trades,
            final(self).sought(old(self), 0),
            r == match seek(old(self).data@, 0, old(self).reader@, LOCAL_EVENT) {
                Some((rows, i, rest)) => Ok::<i64, Error>(rows[i].local_ts),
                None => Err::<i64, Error>(Error::EndOfData),
            },
    {
        let r = seek_next(&mut self.reader, &mut self.data, &mut self.row_num, 0, LOCAL_EVENT);
        proof {
            lemma_seek(old(self).data@, 0, old(self).reader@, LOCAL_EVENT);
        }
        match r {
            Ok(_) => Ok(self.data.get(self.row_num).local_ts),
            Err(e) => Err(e),
        }
    }

    /// Records a trade: it goes behind those on record, and where the limit
    /// is reached the oldest makes room. Without a limit nothing is kept.
    fn record_trade(&mut self, row: Row)
        requires
            old(self).wf(),
        ensures
            final(self).wf(),
            final(self).same_trading(old(self)),
            final(self).depth == old(self).depth,
            final(self).reader == old(self).reader,
            final(self).data == old(self).data,
            final(self).row_num == old(self).row_num,
            final(self).trades@ == recorded_trades(old(self).trades@, old(self).trade_len, row),
    {
        if self.trade_len > 0 {
            if self.trades.len() >= self.trade_len {
                self.trades.remove(0);
                assert(self.trades@ =~= old(self).trades@.skip(1));
            }
            self.trades.push(row);
        }
    }

    /// Applies the event on which the processor stands to the strategy's
    /// view: a depth event changes the book, a trade is recorded. Then it
    /// moves on to the next event that the strategy saw. The result is the
    /// time at which the strategy saw that next event, and `i64::MAX` in the
    /// second place; without a next event it is `EndOfData`, and the event
    /// at hand has been applied all the same.
    pub fn process_data(&mut self) -> (r: Result<(i64, i64), Error>)
        requires
            old(self).wf(),
            old(self).row_num < old(self).data@.len(),
        ensures
            final(self).wf(),
            final(self).same_trading(old(self)),
            final(self).depth.spec_tick_size() == old(self).depth.spec_tick_size(),
            final(self).depth.spec_lot_size() == old(self).depth.spec_lot_size(),
            final(self).depth.book().bids =~= book_after(
                old(self).depth.book(),
                old(self).data@[old(self).row_num as int],
            ).bids,
            final(self).depth.book().asks =~= book_after(
                old(self).depth.book(),
                old(self).data@[old(self).row_num as int],
            ).asks,
            final(self).trades@ == trades_after(
                old(self).trades@,
                old(self).trade_len,
                old(self).data@[old(self).row_num as int],
            ),
            final(self).sought(old(self), old(self).row_num + 1),
            r == match seek(old(self).data@, old(self).row_num
                + 1, old(self).reader@, LOCAL_EVENT) {
                Some((rows, i, rest)) => Ok::<(i64, i64), Error>((rows[i].local_ts, i64::MAX)),
                None => Err::<(i64, i64), Error>(Error::EndOfData),
            },
    {
        let row = self.data.get(self.row_num);
        if row.is(LOCAL_BID_DEPTH_CLEAR_EVENT) {
            self.depth.clear_depth(BUY, row.price_tick);
        } else if row.is(LOCAL_ASK_DEPTH_CLEAR_EVENT) {
            self.depth.clear_depth(SELL, row.price_tick);
        } else if row.is(LOCAL_BID_DEPTH_EVENT) || row.is(LOCAL_BID_DEPTH_SNAPSHOT_EVENT) {
            self.depth.update_bid_depth(row.price_tick, row.qty, row.local_ts);
        } else if row.is(LOCAL_ASK_DEPTH_EVENT) || row.is(LOCAL_ASK_DEPTH_SNAPSHOT_EVENT) {
            self.depth.update_ask_depth(row.price_tick, row.qty, row.local_ts);
        } else if row.is(LOCAL_TRADE_EVENT) {
            self.record_trade(row);
        }
        let rows = self.data.len();
        let from = self.row_num + 1;
        let r = seek_next(&mut self.reader, &mut self.data, &mut self.row_num, from, LOCAL_EVENT);
        proof {
            lemma_seek(old(self).data@, from as int, old(self).reader@, LOCAL_EVENT);
        }
        match r {
            Ok(_) => Ok((self.data.get(self.row_num).local_ts, i64::MAX)),
            Err(e) => Err(e),
        }
    }

    /// The two most recent latencies after the response `order`, sent at
    /// its exchange timestamp, was taken in at `timestamp`: from the
    /// strategy to the exchange, and there and back.
    pub open spec fn latencies_of(order: Order<Q>, timestamp: i64) -> (Option<i64>, Option<i64>) {
        (
            Some(spec_elapsed(order.exch_timestamp, order.local_timestamp)),
            Some(spec_elapsed(timestamp, order.local_timestamp)),
        )
    }

    /// Takes in the responses that are due at `timestamp`, in the order in
    /// which they stand on the inbound bus, and notes of the last of them
    /// how long the request took to the exchange and how long it took there
    /// and back. Nothing on this side waits for a response, so the result
    /// is always `i64::MAX`.
    pub fn process_recv_order(&mut self, timestamp: i64, wait_resp: i64) -> (r: Result<i64, Error>)
        requires
            old(self).wf(),
            old(self).state.values().room(old(self).orders_from@.len() as int),
        ensures
            final(self).wf(),
            final(self).same_models(old(self)),
            final(self).same_market(old(self)),
            final(self).orders_to == old(self).orders_to,
            r == Ok::<i64, Error>(i64::MAX),
            final(self).orders_from@.len() <= old(self).orders_from@.len(),
            old(self).orders_from@.len() > 0 && old(self).orders_from@[0].1 == timestamp
                ==> final(self).orders_from@.len() < old(self).orders_from@.len(),
            final(self).state.values().spends(
                old(self).state.values(),
                old(self).orders_from@.len() - final(self).orders_from@.len(),
            ),
            final(self).orders_from@ == old(self).orders_from@.skip(
                Self::due_now(old(self).orders_from@, timestamp) as int,
            ),
            final(self).is_ledger(
                old(self).spec_drain(
                    old(self).ledger(),
                    old(self).orders_from@,
                    Self::due_now(old(self).orders_from@, timestamp),
                ),
            ),
            Self::due_now(old(self).orders_from@, timestamp) == 0
                ==> final(self).last_order_entry_latency == old(self).last_order_entry_latency
                    && final(self).last_roundtrip_order_latency
                        == old(self).last_roundtrip_order_latency,
            Self::due_now(old(self).orders_from@, timestamp) > 0 ==> (
                final(self).last_order_entry_latency,
                final(self).last_roundtrip_order_latency,
            ) == Self::latencies_of(
                old(self).orders_from@[Self::due_now(old(self).orders_from@, timestamp) - 1].0,
                timestamp,
            ),
    {
        let ghost total = Self::due_now(old(self).orders_from@, timestamp);
        let ghost mut k: nat = 0;
        let mut next_timestamp = i64::MAX;
        proof {
            assert(old(self).orders_from@.skip(0) =~= old(self).orders_from@);
            Self::lemma_due_now(old(self).orders_from@, timestamp);
        }
        while self.orders_from.len() > 0 && self.orders_from.frontmost_timestamp() == timestamp
            invariant
                self.wf(),
                self.same_models(old(self)),
                self.same_market(old(self)),
                self.orders_to == old(self).orders_to,
                next_timestamp == i64::MAX,
                k <= total,
                total <= old(self).orders_from@.len(),
                total == Self::due_now(old(self).orders_from@, timestamp),
                self.orders_from@ =~= old(self).orders_from@.skip(k as int),
                self.state.values().spends(old(self).state.values(), k as int),
                Self::due_now(self.orders_from@, timestamp) == total - k,
                self.state.values().room(old(self).orders_from@.len() - k),
                old(self).spec_drain(old(self).ledger(), old(self).orders_from@, total)
                    == old(self).spec_drain(self.ledger(), self.orders_from@, (total - k) as nat),
                k == 0 ==> self.last_order_entry_latency == old(self).last_order_entry_latency
                    && self.last_roundtrip_order_latency == old(self).last_roundtrip_order_latency,
                k > 0 ==> (self.last_order_entry_latency, self.last_roundtrip_order_latency)
                    == Self::latencies_of(old(self).orders_from@[k - 1].0, timestamp),
            decreases self.orders_from@.len(),
        {
            let recv_timestamp = timestamp;
            let ghost before = *self;
            let order = self.orders_from.remove(0);
            proof {
                assert(self.orders_from@ =~= old(self).orders_from@.skip(k as int + 1));
                assert(before.orders_from@.skip(1) =~= self.orders_from@);
                assert(order == old(self).orders_from@[k as int].0);
                lemma_room_less(self.state.values(), old(self).orders_from@.len() - k, 1);
            }
            self.last_order_entry_latency = Some(
                elapsed(order.exch_timestamp, order.local_timestamp),
            );
            self.last_roundtrip_order_latency = Some(elapsed(recv_timestamp,
                order.local_timestamp));
            match self.process_recv_order_(order, recv_timestamp, wait_resp, next_timestamp) {
                Ok(next) => {
                    next_timestamp = next;
                },
                Err(e) => {
                    return Err(e);
                },
            }
            proof {
                assert(self.ledger() == old(self).spec_recv(before.ledger(), order));
                lemma_spends(
                    old(self).state.values(),
                    before.state.values(),
                    self.state.values(),
                    k as int,
                    1,
                    k as int + 1,
                );
                if order.status == Status::Filled && !is_not_found(order) {
                    lemma_filled_room(
                        before.state.values(),
                        old(self).orders_from@.len() - k,
                        order.side,
                        order.exec_qty,
                        old(self).state.asset_type.spec_amount(
                            order.exec_price_tick,
                            order.exec_qty,
                        ),
                        old(self).state.fee_rate(order.maker),
                    );
                } else {
                    lemma_room_less(
                        before.state.values(),
                        old(self).orders_from@.len() - k,
                        old(self).orders_from@.len() - k - 1,
                    );
                }
                k = k + 1;
            }
        }
        Ok(next_timestamp)
    }

    /// No more responses are due than the bus holds.
    pub proof fn lemma_due_now(inbox: Seq<(Order<Q>, i64)>, timestamp: i64)
        ensures
            Self::due_now(inbox, timestamp) <= inbox.len(),
        decreases inbox.len(),
    {
        if inbox.len() > 0 && inbox[0].1 == timestamp {
            Self::lemma_due_now(inbox.skip(1), timestamp);
        }
    }

    /// The two processors are in the same state, as far as it shows: they
    /// have the same latency model, fee rates, asset type and limit on the
    /// trades on record, show the same book, stand at the same place in the
    /// same data, hold the same orders, account and recorded trades, have
    /// the same orders on their two buses, and have noted the same
    /// latencies.
    pub open spec fn alike(&self, other: &Self) -> bool {
        &&& self.same_models(other)
        &&& self.depth.book() == other.depth.book()
        &&& self.depth.spec_tick_size() == other.depth.spec_tick_size()
        &&& self.depth.spec_lot_size() == other.depth.spec_lot_size()
        &&& self.ledger() == other.ledger()
        &&& self.orders_to@ == other.orders_to@
        &&& self.orders_from@ == other.orders_from@
        &&& self.trades@ == other.trades@
        &&& self.last_order_entry_latency == other.last_order_entry_latency
        &&& self.last_roundtrip_order_latency == other.last_roundtrip_order_latency
        &&& self.data@ == other.data@
        &&& self.row_num == other.row_num
        &&& self.reader@ == other.reader@
    }

    /// What the taking in of responses makes of the ledger is determined by
    /// the responses, the ledger, the fee rates and the asset type.
    pub proof fn lemma_drain_determined(
        &self,
        other: &Self,
        l: Ledger<Q>,
        inbox: Seq<(Order<Q>, i64)>,
        n: nat,
    )
        requires
            self.same_models(other),
        ensures
            self.spec_drain(l, inbox, n) == other.spec_drain(l, inbox, n),
        decreases n,
    {
        if n > 0 && inbox.len() > 0 {
            self.lemma_drain_determined(
                other,
                self.spec_recv(l, inbox[0].0),
                inbox.skip(1),
                (n - 1) as nat,
            );
        }
    }
}

} // verus!
