//! The simulator: the two processors, the buses between them and the clock.

use crate::backtest::assettype::AssetType;
use crate::backtest::models::latencies::{
    delivery_timestamp, spec_delivery_timestamp, LatencyModel,
};
use crate::backtest::models::queue::QueueModel;
use crate::backtest::order::{bus_append, OrderBus};
use crate::backtest::orderstore::{stripped, OrderStore};
use crate::backtest::proc::local::{book_after, ended, trades_after, Local};
use crate::backtest::proc::nopartialfillexchange::{
    answered, crosses, filled_order, opposing_best, Matching, NoPartialFillExchange,
};
use crate::backtest::proc::local::Ledger;
use crate::backtest::reader::{lemma_seek_progress, rows_left, seek, Row, EXCH_EVENT, LOCAL_EVENT};
use crate::backtest::state::{lemma_room_bound, lemma_room_less, StateValues};
use crate::backtest::Error;
use crate::depth::hashmapmarketdepth::HashMapMarketDepth;
use crate::depth::{lemma_best_ask_of, lemma_best_bid_of, valid_tick, MarketDepth};
use crate::ty::{OrdType, Order, Side, Status, TimeInForce};
use vstd::prelude::*;

verus! {

/// The bus `to` after the entries of `from` were appended to it one after
/// the other.
pub open spec fn merged<Q>(to: Seq<(Order<Q>, i64)>, from: Seq<(Order<Q>, i64)>) -> Seq<
    (Order<Q>, i64),
>
    decreases from.len(),
{
    if from.len() == 0 {
        to
    } else {
        merged(bus_append(to, from[0].0, from[0].1), from.skip(1))
    }
}

/// Moves what `from` holds over to `to`, entry by entry, each with its
/// delivery timestamp.
pub fn transfer<Q>(from: &mut OrderBus<Q>, to: &mut OrderBus<Q>)
    requires
        old(from).wf(),
        old(to).wf(),
    ensures
        final(from).wf(),
        final(to).wf(),
        final(from)@.len() == 0,
        final(to)@ == merged(old(to)@, old(from)@),
        final(to)@.len() == old(to)@.len() + old(from)@.len(),
        final(from).consistent(),
        old(from).consistent() && old(to).consistent() ==> final(to).consistent(),
{
    while from.len() > 0
        invariant
            from.wf(),
            to.wf(),
            old(from).consistent() && old(to).consistent() ==> from.consistent()
                && to.consistent(),
            merged(old(to)@, old(from)@) == merged(to@, from@),
            to@.len() + from@.len() == old(to)@.len() + old(from)@.len(),
        decreases from@.len(),
    {
        let timestamp = from.frontmost_timestamp();
        let order = from.remove(0);
        to.append(order, timestamp);
    }
}

/// The smaller of two timestamps.
pub fn earlier(a: i64, b: i64) -> (t: i64)
    ensures
        t == if a <= b {
            a
        } else {
            b
        },
{
    if a <= b {
        a
    } else {
        b
    }
}

/// What one round of the simulation came to: the run is over, with the
/// result that says whether the simulation can go on, or it goes on until
/// the given time.
#[derive(Clone, Copy, Debug, PartialEq, Eq, Structural)]
pub enum Advance {
    Halted(bool),
    Went(i64),
}

/// The simulator: the strategy's side and the exchange, each with its own
/// view of the data, joined by the two buses, under one clock.
pub struct HftBacktest<AT, Q, LM, QM> {
    pub cur_ts: i64,
    pub local: Local<AT, Q, LM, HashMapMarketDepth>,
    pub exch: NoPartialFillExchange<AT, Q, LM, QM>,
    pub local_live: bool,
    pub local_data_ts: i64,
    pub exch_live: bool,
    pub exch_data_ts: i64,
}

impl<AT, Q, LM, QM> HftBacktest<AT, Q, LM, QM> where
    AT: AssetType,
    Q: Copy + Default,
    LM: LatencyModel<Q>,
    QM: QueueModel<Q>,
 {
    /// The requests on their way to the exchange.
    pub open spec fn requests(&self) -> int {
        (self.local.orders_to@.len() + self.exch.orders_from@.len()) as int
    }

    /// The responses on their way to the strategy.
    pub open spec fn responses(&self) -> int {
        (self.exch.orders_to@.len() + self.local.orders_from@.len()) as int
    }

    /// The accounts have room for what `extra` more requests may bring on
    /// top of what is resting and under way: at the exchange a fill for
    /// each order that rests or is on its way there, and on the strategy's
    /// side as much again for each response that those may cause.
    pub open spec fn roomy(&self, extra: int) -> bool {
        &&& self.exch.state.values().room(self.exch.resting() + self.requests() + extra)
        &&& self.local.state.values().room(
            self.responses() + self.exch.resting() + 2 * self.requests() + 2 * extra,
        )
    }

    /// The two processors are sound, each stands on an event of its own
    /// while it has data left, and the accounts have room.
    pub open spec fn wf(&self) -> bool {
        &&& self.local.wf()
        &&& self.exch.wf()
        &&& self.exch.orders_from.consistent()
        &&& self.local_live ==> self.local.row_num < self.local.data@.len()
        &&& self.exch_live ==> self.exch.row_num < self.exch.data@.len()
        &&& self.roomy(0)
    }

    /// What is left to do, as a number that every step lowers: the rows
    /// still to come, the orders that rest, and what is under way.
    pub open spec fn work(&self) -> int {
        (if self.local_live {
            1 + rows_left(self.local.data@, self.local.row_num as int, self.local.reader@)
        } else {
            0
        }) + (if self.exch_live {
            1 + rows_left(self.exch.data@, self.exch.row_num as int, self.exch.reader@)
        } else {
            0
        }) + self.responses() + 2 * self.exch.resting() + 4 * self.requests()
    }

    /// When the strategy's side has something to do next: at its next
    /// event or at the arrival of the next response, whichever is earlier.
    pub open spec fn local_next(&self) -> i64 {
        let data = if self.local_live {
            self.local_data_ts
        } else {
            i64::MAX
        };
        let recv = self.local.orders_from.spec_frontmost_timestamp();
        if data <= recv {
            data
        } else {
            recv
        }
    }

    /// When the exchange has something to do next: at its next event or at
    /// the arrival of the next request, whichever is earlier.
    pub open spec fn exch_next(&self) -> i64 {
        let data = if self.exch_live {
            self.exch_data_ts
        } else {
            i64::MAX
        };
        let recv = self.exch.orders_from.spec_frontmost_timestamp();
        if data <= recv {
            data
        } else {
            recv
        }
    }

    /// Whether the exchange takes in orders next: a request arrives before
    /// its next event.
    pub open spec fn exch_takes_orders(&self) -> bool {
        self.exch.orders_from.spec_frontmost_timestamp() < if self.exch_live {
            self.exch_data_ts
        } else {
            i64::MAX
        }
    }

    /// Whether the strategy's side takes in orders next: a response arrives
    /// before its next event.
    pub open spec fn local_takes_orders(&self) -> bool {
        self.local.orders_from.spec_frontmost_timestamp() < if self.local_live {
            self.local_data_ts
        } else {
            i64::MAX
        }
    }

    /// When the next thing happens, on either side; `i64::MAX` says that
    /// nothing is left, with every order delivered.
    pub open spec fn next_event(&self) -> i64 {
        if self.exch_next() <= self.local_next() {
            self.exch_next()
        } else {
            self.local_next()
        }
    }

    /// A simulator over the two processors. Each is moved to its first
    /// event; the clock starts at the earlier of the two, or at zero without
    /// data.
    pub fn new(
        local: Local<AT, Q, LM, HashMapMarketDepth>,
        exch: NoPartialFillExchange<AT, Q, LM, QM>,
    ) -> (x: Self)
        requires
            local.wf(),
            exch.wf(),
            exch.orders_from.consistent(),
            exch.state.values().room(
                exch.resting() + local.orders_to@.len() + exch.orders_from@.len(),
            ),
            local.state.values().room(
                exch.orders_to@.len() + local.orders_from@.len() + exch.resting() + 2 * (
                local.orders_to@.len() + exch.orders_from@.len()),
            ),
        ensures
            x.wf(),
            x.local.same_trading(&local),
            x.local.depth == local.depth,
            x.local.trades == local.trades,
            x.local.sought(&local, 0),
            x.exch.same_models(&exch),
            x.exch.depth == exch.depth,
            x.exch.orders == exch.orders,
            x.exch.state == exch.state,
            x.exch.orders_to == exch.orders_to,
            x.exch.orders_from == exch.orders_from,
            x.exch.sought(&exch, 0),
            x.local_live == (seek(local.data@, 0, local.reader@, LOCAL_EVENT) is Some),
            x.exch_live == (seek(exch.data@, 0, exch.reader@, EXCH_EVENT) is Some),
            x.local_live ==> x.local_data_ts == x.local.data@[x.local.row_num as int].local_ts,
            x.exch_live ==> x.exch_data_ts == x.exch.data@[x.exch.row_num as int].exch_ts,
            x.cur_ts == if x.next_event() == i64::MAX {
                0
            } else {
                x.next_event()
            },
    {
        let mut local = local;
        let mut exch = exch;
        let (local_live, local_data_ts) = match local.initialize_data() {
            Ok(ts) => (true, ts),
            Err(_) => (false, i64::MAX),
        };
        let (exch_live, exch_data_ts) = match exch.initialize_data() {
            Ok(ts) => (true, ts),
            Err(_) => (false, i64::MAX),
        };
        let mut x = HftBacktest {
            cur_ts: 0,
            local,
            exch,
            local_live,
            local_data_ts,
            exch_live,
            exch_data_ts,
        };
        let first = x.next_timestamp();
        if first != i64::MAX {
            x.cur_ts = first;
        }
        x
    }

    /// When the next thing happens, on either side.
    pub fn next_timestamp(&self) -> (t: i64)
        ensures
            t == self.next_event(),
    {
        let local_data = if self.local_live {
            self.local_data_ts
        } else {
            i64::MAX
        };
        let exch_data = if self.exch_live {
            self.exch_data_ts
        } else {
            i64::MAX
        };
        let local_next = earlier(local_data, self.local.frontmost_recv_order_timestamp());
        let exch_next = earlier(exch_data, self.exch.frontmost_recv_order_timestamp());
        if exch_next <= local_next {
            exch_next
        } else {
            local_next
        }
    }

    /// The time on the simulator's clock.
    pub fn current_timestamp(&self) -> (t: i64)
        ensures
            t == self.cur_ts,
    {
        self.cur_ts
    }

    /// Only the buses may differ from `pre`, and the clock.
    pub open spec fn same_but_buses(&self, pre: &Self) -> bool {
        &&& self.local_live == pre.local_live
        &&& self.local_data_ts == pre.local_data_ts
        &&& self.exch_live == pre.exch_live
        &&& self.exch_data_ts == pre.exch_data_ts
        &&& self.local.same_models(&pre.local)
        &&& self.local.same_market(&pre.local)
        &&& self.local.orders == pre.local.orders
        &&& self.local.state == pre.local.state
        &&& self.local.last_order_entry_latency == pre.local.last_order_entry_latency
        &&& self.local.last_roundtrip_order_latency == pre.local.last_roundtrip_order_latency
        &&& self.exch.same_rules(&pre.exch)
        &&& self.exch.orders == pre.exch.orders
        &&& self.exch.buy_orders == pre.exch.buy_orders
        &&& self.exch.sell_orders == pre.exch.sell_orders
        &&& self.exch.state == pre.exch.state
        &&& self.exch.filled_orders == pre.exch.filled_orders
    }

    /// `self` is `pre` after the buses were handed over: each outbound bus
    /// is empty, each inbound bus has taken in what the other side had
    /// sent, and nothing else has changed.
    pub open spec fn delivered(&self, pre: &Self) -> bool {
        &&& self.cur_ts == pre.cur_ts
        &&& self.same_but_buses(pre)
        &&& self.local.orders_to@.len() == 0
        &&& self.exch.orders_to@.len() == 0
        &&& self.exch.orders_from@ == merged(pre.exch.orders_from@, pre.local.orders_to@)
        &&& self.local.orders_from@ == merged(pre.local.orders_from@, pre.exch.orders_to@)
    }

    /// Hands over what is on the buses: the strategy's requests to the
    /// exchange's inbound bus, the exchange's responses to the strategy's.
    pub fn deliver(&mut self)
        requires
            old(self).wf(),
        ensures
            final(self).wf(),
            final(self).delivered(old(self)),
            final(self).requests() == old(self).requests(),
            final(self).responses() == old(self).responses(),
            final(self).work() == old(self).work(),
    {
        transfer(&mut self.local.orders_to, &mut self.exch.orders_from);
        transfer(&mut self.exch.orders_to, &mut self.local.orders_from);
        proof {
            self.exch.lemma_indexed_same(&old(self).exch);
        }
    }

    /// `self` is `pre` after the exchange has done what it had to do next,
    /// with the result `r`. Where a request arrives before its next event
    /// it has answered the requests that are due then; otherwise it has
    /// applied its event and moved on to the next one, or run out of data.
    /// The strategy's side and the clock are as they were.
    pub open spec fn exch_stepped(&self, pre: &Self, wait_resp: i64, r: Result<i64,
        Error>) -> bool {
        &&& self.cur_ts == pre.cur_ts
        &&& self.local == pre.local
        &&& self.local_live == pre.local_live
        &&& self.local_data_ts == pre.local_data_ts
        &&& self.exch.same_models(&pre.exch)
        &&& if pre.exch_takes_orders() {
            let drained = pre.exch.spec_drain(
                pre.exch.model(),
                pre.exch.orders_from@,
                pre.exch.orders_from.spec_frontmost_timestamp(),
                wait_resp,
                i64::MAX,
            );
            &&& self.exch.is_model(drained.0)
            &&& self.exch.orders_from@ == drained.1
            &&& r == drained.2
            &&& self.exch.same_rules(&pre.exch)
            &&& self.exch_live == pre.exch_live
            &&& self.exch_data_ts == pre.exch_data_ts
        } else {
            let row = pre.exch.data@[pre.exch.row_num as int];
            let next = seek(pre.exch.data@, pre.exch.row_num + 1, pre.exch.reader@, EXCH_EVENT);
            &&& r == Ok::<i64, Error>(i64::MAX)
            &&& self.exch.orders_from == pre.exch.orders_from
            &&& self.exch.depth.spec_tick_size() == pre.exch.depth.spec_tick_size()
            &&& self.exch.depth.spec_lot_size() == pre.exch.depth.spec_lot_size()
            &&& self.exch.event_applied(&pre.exch, row, self.exch.event_fills(&pre.exch, row))
            &&& self.exch.sought(&pre.exch, pre.exch.row_num + 1)
            &&& self.exch_live == next is Some
            &&& next matches Some((rows, i, _)) ==> self.exch_data_ts == rows[i].exch_ts
        }
    }

    /// Lets the exchange do what it has to do next: take in the requests
    /// that arrive before its next event, or else apply that event. The
    /// result is when the response to the order `wait_resp` reaches the
    /// strategy, where the exchange has answered that order in this step,
    /// and `i64::MAX` otherwise.
    pub fn step_exch(&mut self, wait_resp: i64) -> (r: Result<i64, Error>)
        requires
            old(self).wf(),
            old(self).exch_next() != i64::MAX,
        ensures
            final(self).wf(),
            final(self).work() < old(self).work(),
            final(self).exch_stepped(old(self), wait_resp, r),
            r matches Err(e) ==> e.is_refusal(),
    {
        let exch_data = if self.exch_live {
            self.exch_data_ts
        } else {
            i64::MAX
        };
        let exch_recv = self.exch.frontmost_recv_order_timestamp();
        proof {
            lemma_room_less(
                self.exch.state.values(),
                self.exch.resting() + self.requests(),
                self.exch.resting(),
            );
            lemma_room_less(
                self.exch.state.values(),
                self.exch.resting() + self.requests(),
                self.exch.orders_from@.len() as int,
            );
        }
        if exch_recv < exch_data {
            let r = self.exch.process_recv_order(exch_recv, wait_resp);
            proof {
                self.lemma_exch_step(old(self), 0);
            }
            r
        } else {
            proof {
                lemma_seek_progress(
                    self.exch.data@,
                    self.exch.row_num + 1,
                    self.exch.reader@,
                    EXCH_EVENT,
                );
            }
            match self.exch.process_data() {
                Ok((ts, _)) => {
                    self.exch_data_ts = ts;
                },
                Err(_) => {
                    self.exch_live = false;
                },
            }
            proof {
                self.lemma_exch_step(old(self), 0);
            }
            Ok(i64::MAX)
        }
    }

    /// `self` is `pre` after the strategy's side has done what it had to do
    /// next. Where a response arrives before its next event it has taken in
    /// the responses that are due then; otherwise it has applied its event
    /// and moved on to the next one, or run out of data. The exchange and
    /// the clock are as they were.
    pub open spec fn local_stepped(&self, pre: &Self) -> bool {
        &&& self.cur_ts == pre.cur_ts
        &&& self.exch == pre.exch
        &&& self.exch_live == pre.exch_live
        &&& self.exch_data_ts == pre.exch_data_ts
        &&& self.local.orders_to == pre.local.orders_to
        &&& self.local.same_models(&pre.local)
        &&& if pre.local_takes_orders() {
            let now = pre.local.orders_from.spec_frontmost_timestamp();
            let due = Local::<AT, Q, LM, HashMapMarketDepth>::due_now(pre.local.orders_from@, now);
            &&& due > 0
            &&& self.local.same_market(&pre.local)
            &&& self.local.orders_from@ == pre.local.orders_from@.skip(due as int)
            &&& self.local.is_ledger(
                pre.local.spec_drain(pre.local.ledger(), pre.local.orders_from@, due),
            )
            &&& (self.local.last_order_entry_latency, self.local.last_roundtrip_order_latency)
                == Local::<AT, Q, LM, HashMapMarketDepth>::latencies_of(
                pre.local.orders_from@[due - 1].0,
                now,
            )
            &&& self.local_live == pre.local_live
            &&& self.local_data_ts == pre.local_data_ts
        } else {
            let row = pre.local.data@[pre.local.row_num as int];
            let next = seek(pre.local.data@, pre.local.row_num + 1, pre.local.reader@, LOCAL_EVENT);
            &&& self.local.same_trading(&pre.local)
            &&& self.local.depth.spec_tick_size() == pre.local.depth.spec_tick_size()
            &&& self.local.depth.spec_lot_size() == pre.local.depth.spec_lot_size()
            &&& self.local.depth.book().bids =~= book_after(pre.local.depth.book(), row).bids
            &&& self.local.depth.book().asks =~= book_after(pre.local.depth.book(), row).asks
            &&& self.local.trades@ == trades_after(pre.local.trades@, pre.local.trade_len, row)
            &&& self.local.sought(&pre.local, pre.local.row_num + 1)
            &&& self.local_live == next is Some
            &&& next matches Some((rows, i, _)) ==> self.local_data_ts == rows[i].local_ts
        }
    }

    /// Lets the strategy's side do what it has to do next: take in the
    /// responses that arrive before its next event, or else apply that
    /// event.
    pub fn step_local(&mut self, wait_resp: i64) -> (r: Result<(), Error>)
        requires
            old(self).wf(),
            old(self).local_next() != i64::MAX,
        ensures
            final(self).wf(),
            final(self).work() < old(self).work(),
            final(self).local_stepped(old(self)),
            r == Ok::<(), Error>(()),
    {
        let local_data = if self.local_live {
            self.local_data_ts
        } else {
            i64::MAX
        };
        let local_recv = self.local.frontmost_recv_order_timestamp();
        proof {
            lemma_room_less(
                self.local.state.values(),
                self.responses() + self.exch.resting() + 2 * self.requests(),
                self.local.orders_from@.len() as int,
            );
        }
        if local_recv < local_data {
            match self.local.process_recv_order(local_recv, wait_resp) {
                Ok(_) => Ok(()),
                Err(e) => Err(e),
            }
        } else {
            proof {
                lemma_seek_progress(
                    self.local.data@,
                    self.local.row_num + 1,
                    self.local.reader@,
                    LOCAL_EVENT,
                );
            }
            match self.local.process_data() {
                Ok((ts, _)) => {
                    self.local_data_ts = ts;
                },
                Err(_) => {
                    self.local_live = false;
                },
            }
            Ok(())
        }
    }

    /// What the exchange's next step results in: what the answering of the
    /// requests due comes to, and `i64::MAX` for an event of the data.
    pub open spec fn exch_result(&self, wait_resp: i64) -> Result<i64, Error> {
        if self.exch_takes_orders() {
            self.exch.spec_drain(
                self.exch.model(),
                self.exch.orders_from@,
                self.exch.orders_from.spec_frontmost_timestamp(),
                wait_resp,
                i64::MAX,
            ).2
        } else {
            Ok(i64::MAX)
        }
    }

    /// The simulator with the clock moved on to `timestamp`, unless it is
    /// past that already.
    pub open spec fn at_time(&self, timestamp: i64) -> Self {
        HftBacktest {
            cur_ts: if timestamp > self.cur_ts {
                timestamp
            } else {
                self.cur_ts
            },
            ..*self
        }
    }

    /// `self` is `pre` after one round towards `until`, by way of `mid`,
    /// with the result `r`. First the buses are handed over, which gives
    /// `mid`. Without a next event the run is over and cannot go on. With
    /// the next event later than both `until` and the clock, the clock is
    /// moved to the later of those two and the run is over. Otherwise the
    /// clock moves on to the next event, and the side whose event it is
    /// takes its step, the exchange on a tie; the run then goes on, until
    /// the arrival of the awaited response where the exchange has sent it
    /// and it arrives before `until`.
    pub open spec fn advanced_via(
        &self,
        pre: &Self,
        mid: &Self,
        until: i64,
        wait_resp: i64,
        r: Result<Advance, Error>,
    ) -> bool {
        let next = mid.next_event();
        let clocked = mid.at_time(next);
        &&& mid.delivered(pre)
        &&& if next == i64::MAX {
            r == Ok::<Advance, Error>(Advance::Halted(false)) && *self == *mid
        } else if next > until && next > mid.cur_ts {
            r == Ok::<Advance, Error>(Advance::Halted(true)) && *self == mid.at_time(until)
        } else if mid.exch_next() <= mid.local_next() {
            &&& self.exch_stepped(&clocked, wait_resp, clocked.exch_result(wait_resp))
            &&& r == match clocked.exch_result(wait_resp) {
                Ok(wake) => Ok::<Advance, Error>(
                    Advance::Went(
                        if wake < until {
                            wake
                        } else {
                            until
                        },
                    ),
                ),
                Err(e) => Err::<Advance, Error>(e),
            }
        } else {
            &&& self.local_stepped(&clocked)
            &&& r == Ok::<Advance, Error>(Advance::Went(until))
        }
    }

    /// `self` is `pre` after one round towards `until`, with the result
    /// `r`.
    pub open spec fn advanced(
        &self,
        pre: &Self,
        until: i64,
        wait_resp: i64,
        r: Result<Advance, Error>,
    ) -> bool {
        exists|mid: Self| #[trigger] self.advanced_via(pre, &mid, until, wait_resp, r)
    }

    /// `self` is `pre` after a run towards `timestamp` that went through
    /// the states of `trace`, each with the time until which the run was to
    /// go on from there: the trace starts at `pre`, each of its states is
    /// the one before after one round, and `self` is the last of them after
    /// the round that ended the run with the result `r`.
    pub open spec fn ran(
        &self,
        pre: &Self,
        timestamp: i64,
        wait_resp: i64,
        trace: Seq<(Self, i64)>,
        r: Result<bool, Error>,
    ) -> bool {
        &&& trace.len() >= 1
        &&& trace[0] == (*pre, timestamp)
        &&& forall|j: int|
            1 <= j < trace.len() ==> (#[trigger] trace[j]).0.advanced(
                &trace[j - 1].0,
                trace[j - 1].1,
                wait_resp,
                Ok(Advance::Went(trace[j].1)),
            )
        &&& self.advanced(
            &trace.last().0,
            trace.last().1,
            wait_resp,
            match r {
                Ok(b) => Ok(Advance::Halted(b)),
                Err(e) => Err(e),
            },
        )
    }

    /// One round of the simulation towards `until`: the buses are handed
    /// over, and then either the run is over or the side whose event is
    /// next takes its step.
    pub fn advance(&mut self, until: i64, wait_resp: i64) -> (r: Result<Advance, Error>)
        requires
            old(self).wf(),
        ensures
            final(self).wf(),
            final(self).advanced(old(self), until, wait_resp, r),
            final(self).cur_ts >= old(self).cur_ts,
            final(self).cur_ts <= old(self).cur_ts || final(self).cur_ts <= until,
            r matches Ok(Advance::Went(u)) ==> u <= until && final(self).work() < old(self).work(),
            r matches Ok(Advance::Halted(_)) ==> final(self).local.orders_to@.len() == 0
                && final(self).exch.orders_to@.len() == 0,
            r == Ok::<Advance, Error>(Advance::Halted(true)) ==> final(self).next_event()
                > final(self).cur_ts,
            r == Ok::<Advance, Error>(Advance::Halted(false)) ==> final(self).next_event()
                == i64::MAX,
            r matches Err(e) ==> e.is_refusal(),
    {
        self.deliver();
        let ghost mid = *self;
        let next = self.next_timestamp();
        if next == i64::MAX {
            proof {
                assert(self.advanced_via(
                    old(self),
                    &mid,
                    until,
                    wait_resp,
                    Ok(Advance::Halted(false)),
                ));
            }
            return Ok(Advance::Halted(false));
        }
        if next > until && next > self.cur_ts {
            if until > self.cur_ts {
                self.cur_ts = until;
            }
            proof {
                assert(self.advanced_via(
                    old(self),
                    &mid,
                    until,
                    wait_resp,
                    Ok(Advance::Halted(true)),
                ));
            }
            return Ok(Advance::Halted(true));
        }
        if next > self.cur_ts {
            self.cur_ts = next;
        }
        let ghost clocked = *self;
        let local_data = if self.local_live {
            self.local_data_ts
        } else {
            i64::MAX
        };
        let exch_data = if self.exch_live {
            self.exch_data_ts
        } else {
            i64::MAX
        };
        let local_next = earlier(local_data, self.local.frontmost_recv_order_timestamp());
        let exch_next = earlier(exch_data, self.exch.frontmost_recv_order_timestamp());
        if exch_next <= local_next {
            let w = self.step_exch(wait_resp);
            let r = match w {
                Ok(wake) => Ok(
                    Advance::Went(
                        if wake < until {
                            wake
                        } else {
                            until
                        },
                    ),
                ),
                Err(e) => Err(e),
            };
            proof {
                assert(w == clocked.exch_result(wait_resp));
                assert(self.advanced_via(old(self), &mid, until, wait_resp, r));
            }
            r
        } else {
            match self.step_local(wait_resp) {
                Ok(_) => {},
                Err(e) => {
                    return Err(e);
                },
            }
            proof {
                assert(self.advanced_via(
                    old(self),
                    &mid,
                    until,
                    wait_resp,
                    Ok(Advance::Went(until)),
                ));
            }
            Ok(Advance::Went(until))
        }
    }

    /// Advances the simulation until the clock has reached `timestamp` or
    /// nothing is left to do. Of the two sides the one whose next event is
    /// earlier goes first, the exchange on a tie; a side takes in orders
    /// that arrive before its next event and otherwise applies that event.
    /// Once the exchange has answered the order `wait_resp`, the run ends
    /// when that response has reached the strategy. The clock never goes
    /// back: a time that has passed already is reached at once.
    ///
    /// The result says whether the simulation can go on: `true` when the
    /// clock stands at the time asked for and every event up to then has
    /// been dealt with, `false` when no event is left. An error is that of
    /// the exchange where it refused a request.
    pub fn goto(&mut self, timestamp: i64, wait_resp: i64) -> (r: Result<bool, Error>)
        requires
            old(self).wf(),
        ensures
            final(self).wf(),
            exists|trace: Seq<(Self, i64)>| #[trigger]
                final(self).ran(old(self), timestamp, wait_resp, trace, r),
            final(self).cur_ts >= old(self).cur_ts,
            final(self).cur_ts <= old(self).cur_ts || final(self).cur_ts <= timestamp,
            r is Ok ==> final(self).local.orders_to@.len() == 0 && final(self).exch.orders_to@.len()
                == 0,
            r == Ok::<bool, Error>(true) ==> final(self).next_event() > final(self).cur_ts,
            r == Ok::<bool, Error>(false) ==> final(self).next_event() == i64::MAX,
            r matches Err(e) ==> e.is_refusal(),
    {
        let mut until = timestamp;
        let ghost mut trace: Seq<(Self, i64)> = seq![(*self, timestamp)];
        loop
            invariant
                self.wf(),
                self.cur_ts >= old(self).cur_ts,
                self.cur_ts <= old(self).cur_ts || self.cur_ts <= timestamp,
                until <= timestamp,
                trace.len() >= 1,
                trace[0] == (*old(self), timestamp),
                trace.last() == (*self, until),
                forall|j: int|
                    1 <= j < trace.len() ==> (#[trigger] trace[j]).0.advanced(
                        &trace[j - 1].0,
                        trace[j - 1].1,
                        wait_resp,
                        Ok(Advance::Went(trace[j].1)),
                    ),
            decreases self.work(),
        {
            match self.advance(until, wait_resp) {
                Ok(Advance::Halted(b)) => {
                    proof {
                        assert(self.ran(old(self), timestamp, wait_resp, trace, Ok(b)));
                    }
                    return Ok(b);
                },
                Ok(Advance::Went(u)) => {
                    until = u;
                    proof {
                        let longer = trace.push((*self, until));
                        assert forall|j: int| 1 <= j < longer.len()
                            implies (#[trigger] longer[j]).0.advanced(
                            &longer[j - 1].0,
                            longer[j - 1].1,
                            wait_resp,
                            Ok(Advance::Went(longer[j].1)),
                        ) by {
                            if j < trace.len() {
                                assert(longer[j] == trace[j]);
                                assert(longer[j - 1] == trace[j - 1]);
                            } else {
                                assert(longer[j - 1] == trace.last());
                            }
                        }
                        trace = longer;
                    }
                },
                Err(e) => {
                    proof {
                        assert(self.ran(old(self), timestamp, wait_resp, trace, Err(e)));
                    }
                    return Err(e);
                },
            }
        }
    }

    /// The accounts keep their room over a step of the exchange: what the
    /// exchange spent it has taken out of the book or off its inbound bus.
    pub proof fn lemma_exch_step(&self, pre: &Self, extra: int)
        requires
            0 <= extra,
            pre.roomy(extra),
            self.local.state == pre.local.state,
            self.local.orders_to == pre.local.orders_to,
            self.local.orders_from == pre.local.orders_from,
            self.exch.orders_from@.len() <= pre.exch.orders_from@.len(),
            self.exch.within(
                &pre.exch,
                pre.exch.orders_from@.len() - self.exch.orders_from@.len(),
            ),
        ensures
            self.roomy(extra),
            self.responses() + 2 * self.exch.resting() + 4 * self.requests() <= pre.responses() + 2
                * pre.exch.resting() + 4 * pre.requests() - (pre.exch.orders_from@.len()
                - self.exch.orders_from@.len()),
    {
        let d = pre.exch.orders_from@.len() - self.exch.orders_from@.len();
        lemma_room_less(
            pre.local.state.values(),
            pre.responses() + pre.exch.resting() + 2 * pre.requests() + 2 * extra,
            self.responses() + self.exch.resting() + 2 * self.requests() + 2 * extra,
        );
        assert(pre.exch.state.values().room(pre.exch.resting() + pre.requests() + extra));
    }

    /// Lets `duration` pass on the clock and deals with every event in
    /// that time. The result is as for `goto`.
    pub fn elapse(&mut self, duration: i64) -> (r: Result<bool, Error>)
        requires
            old(self).wf(),
        ensures
            final(self).wf(),
            exists|trace: Seq<(Self, i64)>| #[trigger]
                final(self).ran(
                    old(self),
                    spec_delivery_timestamp(old(self).cur_ts, duration),
                    i64::MAX,
                    trace,
                    r,
                ),
            final(self).cur_ts >= old(self).cur_ts,
            r == Ok::<bool, Error>(true) ==> final(self).next_event() > final(self).cur_ts,
            r == Ok::<bool, Error>(false) ==> final(self).next_event() == i64::MAX,
            r matches Err(e) ==> e.is_refusal(),
    {
        let until = delivery_timestamp(self.cur_ts, duration);
        self.goto(until, i64::MAX)
    }

    /// Lets `duration` pass on the clock, as `elapse` does: in a simulation
    /// no time passes but that of the clock.
    pub fn elapse_bt(&mut self, duration: i64) -> (r: Result<bool, Error>)
        requires
            old(self).wf(),
        ensures
            final(self).wf(),
            exists|trace: Seq<(Self, i64)>| #[trigger]
                final(self).ran(
                    old(self),
                    spec_delivery_timestamp(old(self).cur_ts, duration),
                    i64::MAX,
                    trace,
                    r,
                ),
            final(self).cur_ts >= old(self).cur_ts,
            r == Ok::<bool, Error>(true) ==> final(self).next_event() > final(self).cur_ts,
            r == Ok::<bool, Error>(false) ==> final(self).next_event() == i64::MAX,
            r matches Err(e) ==> e.is_refusal(),
    {
        self.elapse(duration)
    }

    /// Whether the accounts have room for what one more request may bring.
    /// A submission or a cancellation asks for it.
    pub fn has_room_for_request(&self) -> (b: bool)
        ensures
            b == self.roomy(1),
    {
        let resting = self.exch.orders.len() as u128;
        let requests = self.local.orders_to.len() as u128 + self.exch.orders_from.len() as u128;
        let responses = self.exch.orders_to.len() as u128 + self.local.orders_from.len() as u128;
        let at_exch = resting + requests + 1;
        let at_local = responses + resting + 2 * requests + 2;
        proof {
            if self.exch.state.values().room(at_exch as int) {
                lemma_room_bound(self.exch.state.values(), at_exch as int);
            }
            if self.local.state.values().room(at_local as int) {
                lemma_room_bound(self.local.state.values(), at_local as int);
            }
        }
        if at_exch > 0x2_0000_0000 || at_local > 0x2_0000_0000 {
            return false;
        }
        self.exch.state.has_room(at_exch as u64) && self.local.state.has_room(at_local as u64)
    }

    /// Nothing but the strategy's orders and its outbound bus may differ
    /// from `pre`.
    pub open spec fn same_but_requests(&self, pre: &Self) -> bool {
        &&& self.cur_ts == pre.cur_ts
        &&& self.exch == pre.exch
        &&& self.local_live == pre.local_live
        &&& self.local_data_ts == pre.local_data_ts
        &&& self.exch_live == pre.exch_live
        &&& self.exch_data_ts == pre.exch_data_ts
        &&& self.local.same_models(&pre.local)
        &&& self.local.same_market(&pre.local)
        &&& self.local.state == pre.local.state
        &&& self.local.orders_from == pre.local.orders_from
        &&& self.local.last_order_entry_latency == pre.local.last_order_entry_latency
        &&& self.local.last_roundtrip_order_latency == pre.local.last_roundtrip_order_latency
    }

    /// `self` is `pre` after the strategy has submitted an order at the time
    /// of the clock: the order is filed as new with the submission in
    /// flight, and a copy is on its way to the exchange.
    pub open spec fn placed(
        &self,
        pre: &Self,
        order_id: i64,
        side: Side,
        price_tick: i32,
        qty: u32,
        time_in_force: TimeInForce,
        order_type: OrdType,
    ) -> bool {
        let o = self.local.orders@[order_id];
        &&& self.same_but_requests(pre)
        &&& o == pre.local.submitted(
            order_id,
            side,
            price_tick,
            qty,
            order_type,
            time_in_force,
            pre.cur_ts,
            o.q,
        )
        &&& call_ensures(Q::default, (), o.q)
        &&& self.local.orders@ == pre.local.orders@.insert(order_id, o)
        &&& self.local.orders.ids() == pre.local.orders.ids().push(order_id)
        &&& self.local.orders_to@ == bus_append(
            pre.local.orders_to@,
            o,
            pre.local.request_due(o, pre.cur_ts),
        )
    }

    /// `self` is `pre` after the strategy has asked at the time of the clock
    /// for an order to be canceled: the order is marked, and a copy is on
    /// its way to the exchange.
    pub open spec fn cancel_placed(&self, pre: &Self, order_id: i64) -> bool {
        let o = Order { req: Status::Canceled, ..pre.local.orders@[order_id] };
        &&& self.same_but_requests(pre)
        &&& self.local.orders@ == pre.local.orders@.insert(order_id, o)
        &&& self.local.orders.ids() == pre.local.orders.ids()
        &&& self.local.orders_to@ == bus_append(
            pre.local.orders_to@,
            o,
            pre.local.request_due(o, pre.cur_ts),
        )
    }

    /// What a request of the strategy comes to once it is placed, which
    /// gives `mid`: without `wait` nothing more happens, and with it the
    /// simulation runs on until the response to the order has arrived.
    pub open spec fn requested(
        &self,
        mid: &Self,
        order_id: i64,
        wait: bool,
        r: Result<bool, Error>,
    ) -> bool {
        if wait {
            exists|trace: Seq<(Self, i64)>| #[trigger] self.ran(mid, i64::MAX, order_id, trace, r)
        } else {
            *self == *mid && r == Ok::<bool, Error>(true)
        }
    }

    /// Submits an order on `side` at the time of the clock and, with
    /// `wait`, runs the simulation until the response has arrived.
    fn submit(
        &mut self,
        order_id: i64,
        side: Side,
        price_tick: i32,
        qty: u32,
        time_in_force: TimeInForce,
        order_type: OrdType,
        wait: bool,
    ) -> (r: Result<bool, Error>)
        requires
            old(self).wf(),
            old(self).roomy(1),
        ensures
            final(self).wf(),
            final(self).cur_ts >= old(self).cur_ts,
            old(self).local.orders@.contains_key(order_id) ==> r == Err::<bool, Error>(
                Error::OrderAlreadyExist,
            ) && *final(self) == *old(self),
            !old(self).local.orders@.contains_key(order_id) && !valid_tick(price_tick) ==> r
                == Err::<bool, Error>(Error::InvalidOrderRequest) && *final(self) == *old(self),
            !old(self).local.orders@.contains_key(order_id) && valid_tick(price_tick)
                ==> exists|mid: Self| #[trigger]
                mid.placed(old(self), order_id, side, price_tick, qty, time_in_force, order_type)
                    && final(self).requested(&mid, order_id, wait, r),
    {
        match self.local.submit_order(
            order_id,
            side,
            price_tick,
            qty,
            order_type,
            time_in_force,
            self.cur_ts,
        ) {
            Ok(_) => {},
            Err(e) => {
                return Err(e);
            },
        }
        let ghost mid = *self;
        proof {
            assert(mid.placed(old(self), order_id, side, price_tick, qty, time_in_force,
                order_type));
        }
        if wait {
            self.goto(i64::MAX, order_id)
        } else {
            Ok(true)
        }
    }

    /// Submits a buy order at the time of the clock. With `wait` the
    /// simulation runs until the exchange's response has arrived, and the
    /// result is as for `goto`; without it the result is `true`. An id that
    /// is in use is refused, and so is a price that is one of the two
    /// markers of an empty side.
    pub fn submit_buy_order(
        &mut self,
        order_id: i64,
        price_tick: i32,
        qty: u32,
        time_in_force: TimeInForce,
        order_type: OrdType,
        wait: bool,
    ) -> (r: Result<bool, Error>)
        requires
            old(self).wf(),
            old(self).roomy(1),
        ensures
            final(self).wf(),
            final(self).cur_ts >= old(self).cur_ts,
            old(self).local.orders@.contains_key(order_id) ==> r == Err::<bool, Error>(
                Error::OrderAlreadyExist,
            ) && *final(self) == *old(self),
            !old(self).local.orders@.contains_key(order_id) && !valid_tick(price_tick) ==> r
                == Err::<bool, Error>(Error::InvalidOrderRequest) && *final(self) == *old(self),
            !old(self).local.orders@.contains_key(order_id) && valid_tick(price_tick)
                ==> exists|mid: Self| #[trigger]
                mid.placed(
                    old(self),
                    order_id,
                    Side::Buy,
                    price_tick,
                    qty,
                    time_in_force,
                    order_type,
                ) && final(self).requested(&mid, order_id, wait, r),
    {
        self.submit(order_id, Side::Buy, price_tick, qty, time_in_force, order_type, wait)
    }

    /// Submits a sell order at the time of the clock. With `wait` the
    /// simulation runs until the exchange's response has arrived, and the
    /// result is as for `goto`; without it the result is `true`. An id that
    /// is in use is refused, and so is a price that is one of the two
    /// markers of an empty side.
    pub fn submit_sell_order(
        &mut self,
        order_id: i64,
        price_tick: i32,
        qty: u32,
        time_in_force: TimeInForce,
        order_type: OrdType,
        wait: bool,
    ) -> (r: Result<bool, Error>)
        requires
            old(self).wf(),
            old(self).roomy(1),
        ensures
            final(self).wf(),
            final(self).cur_ts >= old(self).cur_ts,
            old(self).local.orders@.contains_key(order_id) ==> r == Err::<bool, Error>(
                Error::OrderAlreadyExist,
            ) && *final(self) == *old(self),
            !old(self).local.orders@.contains_key(order_id) && !valid_tick(price_tick) ==> r
                == Err::<bool, Error>(Error::InvalidOrderRequest) && *final(self) == *old(self),
            !old(self).local.orders@.contains_key(order_id) && valid_tick(price_tick)
                ==> exists|mid: Self| #[trigger]
                mid.placed(
                    old(self),
                    order_id,
                    Side::Sell,
                    price_tick,
                    qty,
                    time_in_force,
                    order_type,
                ) && final(self).requested(&mid, order_id, wait, r),
    {
        self.submit(order_id, Side::Sell, price_tick, qty, time_in_force, order_type, wait)
    }

    /// Asks the exchange at the time of the clock to cancel an order. With
    /// `wait` the simulation runs until the exchange's response has
    /// arrived, and the result is as for `goto`; without it the result is
    /// `true`. An unknown id is refused, and so is an order on which a
    /// request is still in flight.
    pub fn cancel(&mut self, order_id: i64, wait: bool) -> (r: Result<bool, Error>)
        requires
            old(self).wf(),
            old(self).roomy(1),
        ensures
            final(self).wf(),
            final(self).cur_ts >= old(self).cur_ts,
            !old(self).local.orders@.contains_key(order_id) ==> r == Err::<bool, Error>(
                Error::OrderNotFound,
            ) && *final(self) == *old(self),
            old(self).local.orders@.contains_key(order_id) && old(self).local.orders@[order_id].req
                != Status::Unset ==> r == Err::<bool, Error>(Error::OrderRequestInProcess)
                && *final(self) == *old(self),
            old(self).local.orders@.contains_key(order_id) && old(self).local.orders@[order_id].req
                == Status::Unset ==> exists|mid: Self| #[trigger]
                mid.cancel_placed(old(self), order_id) && final(self).requested(
                    &mid,
                    order_id,
                    wait,
                    r,
                ),
    {
        match self.local.cancel(order_id, self.cur_ts) {
            Ok(_) => {},
            Err(e) => {
                return Err(e);
            },
        }
        let ghost mid = *self;
        proof {
            assert(mid.cancel_placed(old(self), order_id));
        }
        if wait {
            self.goto(i64::MAX, order_id)
        } else {
            Ok(true)
        }
    }

    /// Drops the orders that have left the book from the strategy's side.
    pub fn clear_inactive_orders(&mut self)
        requires
            old(self).wf(),
        ensures
            final(self).wf(),
            final(self).cur_ts == old(self).cur_ts,
            final(self).exch == old(self).exch,
            final(self).local.state == old(self).local.state,
            final(self).local.orders.ids() == stripped(
                old(self).local.orders.ids(),
                ended(old(self).local.orders.ids(), old(self).local.orders@),
            ),
            forall|id: i64| #[trigger]
                final(self).local.orders@.contains_key(id)
                    <==> old(self).local.orders@.contains_key(id)
                        && !old(self).local.orders@[id].status.spec_is_terminal(),
            forall|id: i64| #[trigger]
                final(self).local.orders@.contains_key(id) ==> final(self).local.orders@[id]
                    == old(self).local.orders@[id],
    {
        self.local.clear_inactive_orders();
    }

    /// The strategy's position, in lots.
    pub fn position(&self) -> (p: i64)
        ensures
            p == self.local.state.position,
    {
        self.local.position()
    }

    /// The accumulated values of the strategy's account.
    pub fn state_values(&self) -> (v: StateValues)
        ensures
            v == self.local.state.values(),
    {
        self.local.state_values()
    }

    /// The strategy's view of the book.
    pub fn depth(&self) -> (d: &HashMapMarketDepth)
        ensures
            *d == self.local.depth,
    {
        self.local.depth()
    }

    /// The orders as the strategy knows them.
    pub fn orders(&self) -> (o: &OrderStore<Q>)
        ensures
            *o == self.local.orders,
    {
        self.local.orders()
    }

    /// The trades on record.
    pub fn trade(&self) -> (t: &Vec<Row>)
        ensures
            *t == self.local.trades,
    {
        self.local.trade()
    }

    /// Forgets the trades on record.
    pub fn clear_last_trades(&mut self)
        requires
            old(self).wf(),
        ensures
            final(self).wf(),
            final(self).cur_ts == old(self).cur_ts,
            final(self).exch == old(self).exch,
            final(self).local.trades@ == Seq::<Row>::empty(),
            final(self).local.orders == old(self).local.orders,
            final(self).local.state == old(self).local.state,
    {
        self.local.clear_last_trades();
    }

    /// Ends the simulation. Nothing is held open, so nothing is done.
    pub fn close(&mut self) -> (r: Result<(), Error>)
        ensures
            *final(self) == *old(self),
            r == Ok::<(), Error>(()),
    {
        Ok(())
    }

    /// The two simulators are in the same state, as far as it shows: the
    /// clocks agree, each side has data left in both or in neither and then
    /// its next event at the same time, and the two processors of the one
    /// are in the same state as those of the other.
    pub open spec fn alike(&self, other: &Self) -> bool {
        &&& self.cur_ts == other.cur_ts
        &&& self.local_live == other.local_live
        &&& self.exch_live == other.exch_live
        &&& self.local_live ==> self.local_data_ts == other.local_data_ts
        &&& self.exch_live ==> self.exch_data_ts == other.exch_data_ts
        &&& self.local.alike(&other.local)
        &&& self.exch.alike(&other.exch)
    }

    /// One round is determined by the state of the simulator, as far as it
    /// shows: from two simulators in the same state a round ends with the
    /// same result and leaves the two in the same state again.
    pub proof fn lemma_round_determined(
        &self,
        pre: &Self,
        other: &Self,
        other_pre: &Self,
        until: i64,
        wait_resp: i64,
        r: Result<Advance, Error>,
        other_r: Result<Advance, Error>,
    )
        requires
            pre.alike(other_pre),
            self.advanced(pre, until, wait_resp, r),
            other.advanced(other_pre, until, wait_resp, other_r),
        ensures
            r == other_r,
            self.alike(other),
    {
        let mid = choose|mid: Self| #[trigger] self.advanced_via(pre, &mid, until, wait_resp, r);
        let other_mid = choose|mid: Self| #[trigger]
            other.advanced_via(other_pre, &mid, until, wait_resp, other_r);
        assert(mid.alike(&other_mid)) by {
            assert(mid.local.orders_to@ =~= other_mid.local.orders_to@);
            assert(mid.exch.orders_to@ =~= other_mid.exch.orders_to@);
            assert(mid.exch.model() == other_mid.exch.model());
            assert(mid.local.ledger() == other_mid.local.ledger());
        }
        let next = mid.next_event();
        assert(next == other_mid.next_event());
        let clocked = mid.at_time(next);
        let other_clocked = other_mid.at_time(next);
        assert(clocked.alike(&other_clocked));
        if next == i64::MAX {
        } else if next > until && next > mid.cur_ts {
        } else if mid.exch_next() <= mid.local_next() {
            assert(other_mid.exch_next() <= other_mid.local_next());
            Self::lemma_exch_step_determined(
                self,
                &clocked,
                other,
                &other_clocked,
                wait_resp,
                clocked.exch_result(wait_resp),
                other_clocked.exch_result(wait_resp),
            );
        } else {
            Self::lemma_local_step_determined(self, &clocked, other, &other_clocked);
        }
    }

    /// A step of the exchange is determined by the state of the simulator,
    /// as far as it shows.
    pub proof fn lemma_exch_step_determined(
        &self,
        pre: &Self,
        other: &Self,
        other_pre: &Self,
        wait_resp: i64,
        r: Result<i64, Error>,
        other_r: Result<i64, Error>,
    )
        requires
            pre.alike(other_pre),
            self.exch_stepped(pre, wait_resp, r),
            other.exch_stepped(other_pre, wait_resp, other_r),
        ensures
            r == other_r,
            self.alike(other),
    {
        if pre.exch_takes_orders() {
            pre.exch.lemma_drain_determined(
                &other_pre.exch,
                pre.exch.model(),
                pre.exch.orders_from@,
                pre.exch.orders_from.spec_frontmost_timestamp(),
                wait_resp,
                i64::MAX,
            );
        } else {
            let row = pre.exch.data@[pre.exch.row_num as int];
            self.exch.lemma_event_determined(&other.exch, &pre.exch, &other_pre.exch, row);
        }
    }

    /// A step of the strategy's side is determined by the state of the
    /// simulator, as far as it shows.
    pub proof fn lemma_local_step_determined(&self, pre: &Self, other: &Self, other_pre: &Self)
        requires
            pre.alike(other_pre),
            self.local_stepped(pre),
            other.local_stepped(other_pre),
        ensures
            self.alike(other),
    {
        if pre.local_takes_orders() {
            let now = pre.local.orders_from.spec_frontmost_timestamp();
            let due = Local::<AT, Q, LM, HashMapMarketDepth>::due_now(pre.local.orders_from@, now);
            pre.local.lemma_drain_determined(
                &other_pre.local,
                pre.local.ledger(),
                pre.local.orders_from@,
                due,
            );
            assert(self.local.ledger() == other.local.ledger());
        } else {
            assert(self.local.depth.book().bids == other.local.depth.book().bids);
            assert(self.local.depth.book().asks == other.local.depth.book().asks);
            assert(self.local.ledger() == other.local.ledger());
        }
    }

    /// A run is determined by the state of the simulator, as far as it
    /// shows: from two simulators in the same state a run towards the same
    /// time takes equally many rounds, ends with the same result and leaves
    /// the two in the same state again.
    pub proof fn lemma_run_determined(
        &self,
        pre: &Self,
        other: &Self,
        other_pre: &Self,
        timestamp: i64,
        wait_resp: i64,
        trace: Seq<(Self, i64)>,
        other_trace: Seq<(Self, i64)>,
        r: Result<bool, Error>,
        other_r: Result<bool, Error>,
    )
        requires
            pre.alike(other_pre),
            self.ran(pre, timestamp, wait_resp, trace, r),
            other.ran(other_pre, timestamp, wait_resp, other_trace, other_r),
        ensures
            r == other_r,
            self.alike(other),
            trace.len() == other_trace.len(),
    {
        Self::lemma_traces_alike(
            wait_resp,
            trace,
            other_trace,
            if trace.len() <= other_trace.len() {
                trace.len() - 1
            } else {
                other_trace.len() - 1
            },
        );
        let n = trace.len();
        let m = other_trace.len();
        let halt = match r {
            Ok(b) => Ok(Advance::Halted(b)),
            Err(e) => Err(e),
        };
        let other_halt = match other_r {
            Ok(b) => Ok(Advance::Halted(b)),
            Err(e) => Err(e),
        };
        if n < m {
            // The shorter run has ended where the longer one went on.
            other_trace[n as int].0.lemma_round_determined(
                &other_trace[n - 1].0,
                self,
                &trace[n - 1].0,
                trace[n - 1].1,
                wait_resp,
                Ok(Advance::Went(other_trace[n as int].1)),
                halt,
            );
        } else if m < n {
            trace[m as int].0.lemma_round_determined(
                &trace[m - 1].0,
                other,
                &other_trace[m - 1].0,
                trace[m - 1].1,
                wait_resp,
                Ok(Advance::Went(trace[m as int].1)),
                other_halt,
            );
        } else {
            self.lemma_round_determined(
                &trace[n - 1].0,
                other,
                &other_trace[n - 1].0,
                trace[n - 1].1,
                wait_resp,
                halt,
                other_halt,
            );
        }
    }

    /// Two runs from the same state are in the same state after each of
    /// their rounds, and go on until the same time from there.
    pub proof fn lemma_traces_alike(
        wait_resp: i64,
        trace: Seq<(Self, i64)>,
        other_trace: Seq<(Self, i64)>,
        j: int,
    )
        requires
            0 <= j < trace.len(),
            j < other_trace.len(),
            trace[0].0.alike(&other_trace[0].0),
            trace[0].1 == other_trace[0].1,
            forall|k: int|
                1 <= k < trace.len() ==> (#[trigger] trace[k]).0.advanced(
                    &trace[k - 1].0,
                    trace[k - 1].1,
                    wait_resp,
                    Ok(Advance::Went(trace[k].1)),
                ),
            forall|k: int|
                1 <= k < other_trace.len() ==> (#[trigger] other_trace[k]).0.advanced(
                    &other_trace[k - 1].0,
                    other_trace[k - 1].1,
                    wait_resp,
                    Ok(Advance::Went(other_trace[k].1)),
                ),
        ensures
            trace[j].0.alike(&other_trace[j].0),
            trace[j].1 == other_trace[j].1,
        decreases j,
    {
        if j > 0 {
            Self::lemma_traces_alike(wait_resp, trace, other_trace, j - 1);
            assert(trace[j].0.advanced(
                &trace[j - 1].0,
                trace[j - 1].1,
                wait_resp,
                Ok(Advance::Went(trace[j].1)),
            ));
            assert(other_trace[j].0.advanced(
                &other_trace[j - 1].0,
                other_trace[j - 1].1,
                wait_resp,
                Ok(Advance::Went(other_trace[j].1)),
            ));
            trace[j].0.lemma_round_determined(
                &trace[j - 1].0,
                &other_trace[j].0,
                &other_trace[j - 1].0,
                trace[j - 1].1,
                wait_resp,
                Ok(Advance::Went(trace[j].1)),
                Ok(Advance::Went(other_trace[j].1)),
            );
        }
    }
}

/// Submit, then cancel. An order that comes to rest and is canceled before
/// anything else happens to it leaves the exchange as it was, but for the two
/// responses on the bus: the book holds what it held, and the account has not
/// moved. The second response is the order with the status `Canceled` and
/// nothing left, and once the strategy's side has taken it in, that is the
/// order there, with the strategy's account unmoved.
pub proof fn lemma_submit_then_cancel<AT, Q, LM, QM, MD>(
    exch: &NoPartialFillExchange<AT, Q, LM, QM>,
    local: &Local<AT, Q, LM, MD>,
    m: Matching<Q>,
    l: Ledger<Q>,
    order: Order<Q>,
    cancel: Order<Q>,
    t1: i64,
    t2: i64,
) where AT: AssetType, Q: Copy + Default, LM: LatencyModel<Q>, QM: QueueModel<Q>, MD: MarketDepth
    requires
        order.req == Status::New,
        order.placeable(),
        !m.orders.contains_key(order.order_id),
        !crosses(order, exch.depth.book()),
        cancel.req == Status::Canceled,
        cancel.consistent(),
        cancel.order_id == order.order_id,
    ensures
        ({
            let first = exch.spec_recv(m, order, t1, i64::MAX, i64::MAX);
            let rested = first.0.orders[order.order_id];
            let second = exch.spec_recv(first.0, cancel, t2, i64::MAX, i64::MAX);
            let canceled = answered(rested, Status::Canceled, t2);
            let seen = local.spec_recv(local.spec_recv(l, rested), canceled);
            &&& first.1 is Ok
            &&& second.1 is Ok
            &&& rested.status == Status::New
            &&& second.0.orders =~= m.orders
            &&& second.0.values == m.values
            &&& second.0.outbox == bus_append(
                first.0.outbox,
                canceled,
                exch.response_due(canceled, t2),
            )
            &&& seen.orders[order.order_id].status == Status::Canceled
            &&& seen.orders[order.order_id].leaves_qty == 0
            &&& seen.orders[order.order_id].order_id == order.order_id
            &&& seen.values == l.values
        }),
{
}

/// A post-only order that would cross the opposing best expires. The book
/// and the account of the exchange stay as they were, the response is the
/// order with the status `Expired` and nothing left, and once the strategy's
/// side has taken it in, that is the order there, with the strategy's
/// account unmoved.
pub proof fn lemma_post_only_cross_expires<AT, Q, LM, QM, MD>(
    exch: &NoPartialFillExchange<AT, Q, LM, QM>,
    local: &Local<AT, Q, LM, MD>,
    m: Matching<Q>,
    l: Ledger<Q>,
    order: Order<Q>,
    timestamp: i64,
) where AT: AssetType, Q: Copy + Default, LM: LatencyModel<Q>, QM: QueueModel<Q>, MD: MarketDepth
    requires
        order.req == Status::New,
        order.placeable(),
        !m.orders.contains_key(order.order_id),
        crosses(order, exch.depth.book()),
        order.time_in_force == TimeInForce::GTX,
    ensures
        ({
            let out = exch.spec_recv(m, order, timestamp, i64::MAX, i64::MAX);
            let expired = answered(Order { req: Status::Unset, ..order }, Status::Expired,
                timestamp);
            let seen = local.spec_recv(l, expired);
            &&& out.1 is Ok
            &&& out.0.orders == m.orders
            &&& out.0.values == m.values
            &&& out.0.outbox == bus_append(
                m.outbox,
                expired,
                exch.response_due(expired, timestamp),
            )
            &&& seen.orders[order.order_id].status == Status::Expired
            &&& seen.orders[order.order_id].leaves_qty == 0
            &&& seen.values == l.values
        }),
{
}

/// A marketable order that is not post-only is filled as taker at the
/// opposing best. It does not come to rest. The response is the order filled
/// whole at that price; the position of the exchange's account moves by the
/// quantity, up for a buy and down for a sell, and the fee grows by the
/// taker's rate on the amount. Once the strategy's side has taken the
/// response in, the same holds of the strategy's account.
pub proof fn lemma_marketable_order_takes<AT, Q, LM, QM, MD>(
    exch: &NoPartialFillExchange<AT, Q, LM, QM>,
    local: &Local<AT, Q, LM, MD>,
    m: Matching<Q>,
    l: Ledger<Q>,
    order: Order<Q>,
    timestamp: i64,
) where AT: AssetType, Q: Copy + Default, LM: LatencyModel<Q>, QM: QueueModel<Q>, MD: MarketDepth
    requires
        order.req == Status::New,
        order.placeable(),
        !order.status.spec_is_terminal(),
        !m.orders.contains_key(order.order_id),
        crosses(order, exch.depth.book()),
        order.time_in_force != TimeInForce::GTX,
        m.values.room(1),
        l.values.room(1),
    ensures
        ({
            let out = exch.spec_recv(m, order, timestamp, i64::MAX, i64::MAX);
            let best = opposing_best(order, exch.depth.book());
            let filled = filled_order(Order { req: Status::Unset, ..order }, timestamp, false,
                best);
            let seen = local.spec_recv(l, filled);
            let amount = exch.state.asset_type.spec_amount(best, order.leaves_qty);
            let seen_amount = local.state.asset_type.spec_amount(best, order.leaves_qty);
            &&& out.1 is Ok
            &&& out.0.orders == m.orders
            &&& out.0.outbox == bus_append(m.outbox, filled, exch.response_due(filled, timestamp))
            &&& filled.status == Status::Filled
            &&& !filled.maker
            &&& filled.exec_price_tick == best
            &&& filled.exec_qty == order.leaves_qty
            &&& filled.leaves_qty == 0
            &&& out.0.values.position == m.values.position + order.side.signed(
                order.leaves_qty as int,
            )
            &&& out.0.values.balance == m.values.balance - order.side.signed(amount as int)
            &&& out.0.values.fee == m.values.fee + amount * exch.state.taker_fee
            &&& seen.orders[order.order_id].status == Status::Filled
            &&& seen.values.position == l.values.position + order.side.signed(
                order.leaves_qty as int,
            )
            &&& seen.values.fee == l.values.fee + seen_amount * local.state.taker_fee
        }),
{
    let best = opposing_best(order, exch.depth.book());
    let amount = exch.state.asset_type.spec_amount(best, order.leaves_qty);
    let seen_amount = local.state.asset_type.spec_amount(best, order.leaves_qty);
    crate::backtest::state::lemma_filled_room(
        m.values,
        1,
        order.side,
        order.leaves_qty,
        amount,
        exch.state.taker_fee,
    );
    crate::backtest::state::lemma_filled_room(
        l.values,
        1,
        order.side,
        order.leaves_qty,
        seen_amount,
        local.state.taker_fee,
    );
}

/// Against an empty book nothing crosses: a new order on either side is
/// accepted and comes to rest.
pub proof fn lemma_empty_book_accepts<AT, Q, LM, QM>(
    exch: &NoPartialFillExchange<AT, Q, LM, QM>,
    m: Matching<Q>,
    order: Order<Q>,
    timestamp: i64,
) where AT: AssetType, Q: Copy, LM: LatencyModel<Q>, QM: QueueModel<Q>
    requires
        order.req == Status::New,
        order.placeable(),
        !m.orders.contains_key(order.order_id),
        forall|k: i32| !exch.depth.book().bids.contains_key(k),
        forall|k: i32| !exch.depth.book().asks.contains_key(k),
    ensures
        !crosses(order, exch.depth.book()),
        ({
            let out = exch.spec_recv(m, order, timestamp, i64::MAX, i64::MAX);
            &&& out.1 is Ok
            &&& out.0.orders.contains_key(order.order_id)
            &&& out.0.orders[order.order_id].status == Status::New
            &&& out.0.orders.remove(order.order_id) =~= m.orders
            &&& out.0.values == m.values
        }),
{
    lemma_best_bid_of(exch.depth.book().bids.dom());
    lemma_best_ask_of(exch.depth.book().asks.dom());
}

} // verus!
