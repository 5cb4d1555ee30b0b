use hftbacktest::backtest::assettype::LinearAsset;
use hftbacktest::backtest::backtest::HftBacktest;
use hftbacktest::backtest::models::latencies::ConstantLatency;
use hftbacktest::backtest::models::queue::{
    PowerProbQueueFunc, ProbQueueModel, QueuePos, RiskAverseQueueModel,
};
use hftbacktest::backtest::order::OrderBus;
use hftbacktest::backtest::proc::local::Local;
use hftbacktest::backtest::proc::nopartialfillexchange::NoPartialFillExchange;
use hftbacktest::backtest::reader::{
    Data, Reader, Row, EXCH_ASK_DEPTH_EVENT, EXCH_BID_DEPTH_EVENT, EXCH_SELL_TRADE_EVENT,
    LOCAL_ASK_DEPTH_EVENT, LOCAL_BID_DEPTH_EVENT, LOCAL_TRADE_EVENT,
};
use hftbacktest::backtest::Error;
use hftbacktest::backtest::state::State;
use hftbacktest::depth::hashmapmarketdepth::HashMapMarketDepth;
use hftbacktest::depth::MarketDepth;
use hftbacktest::ty::{OrdType, Status, TimeInForce};

const MS: i64 = 1_000_000;
const TICK_SIZE: u64 = 100_000_000;
const LOT_SIZE: u64 = 1_000_000_000;

type Sim = HftBacktest<LinearAsset, i64, ConstantLatency, RiskAverseQueueModel>;

fn book(bids: &[(i32, u32)], asks: &[(i32, u32)]) -> HashMapMarketDepth {
    let mut depth = HashMapMarketDepth::new(TICK_SIZE, LOT_SIZE);
    for (tick, qty) in bids {
        depth.update_bid_depth(*tick, *qty, 0);
    }
    for (tick, qty) in asks {
        depth.update_ask_depth(*tick, *qty, 0);
    }
    depth
}

fn reader(rows: &[Row]) -> Reader {
    let mut reader = Reader::new();
    assert!(reader.push(Data::new(rows.to_vec())));
    reader
}

fn simulator(bids: &[(i32, u32)], asks: &[(i32, u32)], rows: &[Row]) -> Sim {
    let local = Local::new(
        reader(rows),
        book(bids, asks),
        State::new(LinearAsset::new(), 0, 200),
        ConstantLatency::new(MS, MS),
        0,
        OrderBus::new(),
        OrderBus::new(),
    );
    let exch = NoPartialFillExchange::new(
        reader(rows),
        book(bids, asks),
        State::new(LinearAsset::new(), 0, 200),
        ConstantLatency::new(MS, MS),
        RiskAverseQueueModel::new(),
        OrderBus::new(),
        OrderBus::new(),
    );
    HftBacktest::new(local, exch)
}

#[test]
fn post_only_order_that_crosses_expires() {
    let mut sim = simulator(&[(1000, 1)], &[(1001, 1)], &[]);
    let r = sim.submit_sell_order(2, 1000, 1, TimeInForce::GTX, OrdType::Limit, true);
    assert_eq!(r, Ok(false));
    let order = sim.orders().get(2).unwrap();
    assert_eq!(order.status, Status::Expired);
    assert_eq!(order.req, Status::Unset);
    assert_eq!((order.qty, order.leaves_qty, order.exec_qty), (1, 0, 0));
    assert_eq!(sim.position(), 0);
    assert_eq!(sim.state_values().fee, 0);
    assert_eq!(sim.state_values().trade_num, 0);
    assert_eq!(sim.current_timestamp(), 2 * MS);
}

#[test]
fn crossing_limit_order_is_filled_as_taker() {
    let mut sim = simulator(&[(1000, 1)], &[(1001, 1)], &[]);
    let r = sim.submit_buy_order(3, 1002, 2, TimeInForce::IOC, OrdType::Limit, true);
    assert_eq!(r, Ok(false));
    let order = sim.orders().get(3).unwrap();
    assert_eq!(order.status, Status::Filled);
    assert!(!order.maker);
    assert_eq!(order.exec_price_tick, 1001);
    assert_eq!(order.exec_qty, 2);
    assert_eq!(order.leaves_qty, 0);
    let values = sim.state_values();
    assert_eq!(values.position, 2);
    assert_eq!(values.balance, -2002);
    assert_eq!(values.fee, 2 * 1001 * 200);
    let fee = values.fee as f64 / 1e6 * 0.1;
    assert!((fee - 2.0 * 100.1 * 0.0002).abs() < 1e-12);
}

#[test]
fn cancel_that_loses_the_race_against_a_fill_is_passed_over() {
    let trade = Row {
        ev: EXCH_SELL_TRADE_EVENT,
        exch_ts: 2 * MS,
        local_ts: 2 * MS,
        price_tick: 1000,
        qty: 1,
    };
    let mut sim = simulator(&[], &[], &[trade]);
    assert_eq!(sim.current_timestamp(), 2 * MS);
    // The clock starts at the first event, so the order is sent from there.
    let mut sim = simulator(&[], &[], &[
        Row { ev: LOCAL_BID_DEPTH_EVENT, exch_ts: 0, local_ts: 0, price_tick: 900, qty: 1 },
        trade,
    ]);
    assert_eq!(sim.current_timestamp(), 0);
    assert_eq!(sim.submit_buy_order(4, 1000, 1, TimeInForce::GTC, OrdType::Limit, false), Ok(true));
    assert_eq!(sim.elapse(2 * MS), Ok(true));
    assert_eq!(sim.current_timestamp(), 2 * MS);
    assert_eq!(sim.orders().get(4).unwrap().status, Status::New);
    assert_eq!(sim.orders().get(4).unwrap().req, Status::Unset);
    assert_eq!(sim.cancel(4, false), Ok(true));
    assert_eq!(sim.orders().get(4).unwrap().req, Status::Canceled);

    assert_eq!(sim.elapse(MS), Ok(true));
    assert_eq!(sim.current_timestamp(), 3 * MS);
    assert_eq!(sim.orders().get(4).unwrap().status, Status::Filled);
    assert_eq!(sim.position(), 1);

    assert_eq!(sim.local.orders_from.len() + sim.exch.orders_to.len(), 1);
    sim.elapse(MS).unwrap();
    assert_eq!(sim.current_timestamp(), 4 * MS);
    assert_eq!(sim.local.orders_from.len() + sim.exch.orders_to.len(), 0);
    let order = sim.orders().get(4).unwrap();
    assert_eq!(order.status, Status::Filled);
    assert_eq!(order.req, Status::Unset);
    assert_eq!(sim.position(), 1);
    assert_eq!(sim.state_values().trade_num, 1);
    assert_eq!(sim.local.last_roundtrip_order_latency, Some(4 * MS));
    assert_eq!(sim.local.last_order_entry_latency, Some(3 * MS));
}

#[test]
fn rising_best_bid_fills_the_sells_it_reaches() {
    let bid = Row {
        ev: EXCH_BID_DEPTH_EVENT | LOCAL_BID_DEPTH_EVENT,
        exch_ts: 5 * MS,
        local_ts: 5 * MS,
        price_tick: 1001,
        qty: 1,
    };
    let start = Row { ev: LOCAL_BID_DEPTH_EVENT, exch_ts: 0, local_ts: 0, price_tick: 999, qty: 1 };
    let mut sim = simulator(&[(999, 1)], &[(1000, 1), (1001, 1)], &[start, bid]);
    assert_eq!(sim.submit_sell_order(5, 1000, 1, TimeInForce::GTC, OrdType::Limit, false), Ok(true));
    assert_eq!(sim.submit_sell_order(6, 1001, 1, TimeInForce::GTC, OrdType::Limit, false), Ok(true));
    assert_eq!(sim.elapse(4 * MS), Ok(true));
    assert_eq!(sim.exch.orders.len(), 2);
    assert_eq!(sim.position(), 0);
    sim.elapse(2 * MS).unwrap();
    assert_eq!(sim.exch.orders.len(), 0);
    let five = sim.orders().get(5).unwrap();
    let six = sim.orders().get(6).unwrap();
    assert_eq!((five.status, five.maker, five.exec_price_tick), (Status::Filled, true, 1000));
    assert_eq!((six.status, six.maker, six.exec_price_tick), (Status::Filled, true, 1001));
    assert_eq!(sim.position(), -2);
    assert_eq!(sim.state_values().balance, 2001);
    assert_eq!(sim.state_values().fee, 0);
    assert_eq!(sim.exch.depth.best_bid_tick(), 1001);
}

type ProbSim =
    HftBacktest<LinearAsset, QueuePos, ConstantLatency, ProbQueueModel<PowerProbQueueFunc>>;

fn prob_simulator(bids: &[(i32, u32)], asks: &[(i32, u32)], rows: &[Row]) -> ProbSim {
    let local = Local::new(
        reader(rows),
        book(bids, asks),
        State::new(LinearAsset::new(), 0, 200),
        ConstantLatency::new(MS, MS),
        16,
        OrderBus::new(),
        OrderBus::new(),
    );
    let exch = NoPartialFillExchange::new(
        reader(rows),
        book(bids, asks),
        State::new(LinearAsset::new(), 0, 200),
        ConstantLatency::new(MS, MS),
        ProbQueueModel::new(PowerProbQueueFunc::new(1).unwrap()),
        OrderBus::new(),
        OrderBus::new(),
    );
    HftBacktest::new(local, exch)
}

fn both(ev_exch: u64, ev_local: u64, ts: i64, tick: i32, qty: u32) -> Row {
    Row { ev: ev_exch | ev_local, exch_ts: ts, local_ts: ts, price_tick: tick, qty }
}

#[test]
fn resting_order_is_filled_as_maker_once_the_queue_has_passed_it() {
    let rows = [
        both(EXCH_BID_DEPTH_EVENT, LOCAL_BID_DEPTH_EVENT, 0, 1000, 5),
        both(EXCH_ASK_DEPTH_EVENT, LOCAL_ASK_DEPTH_EVENT, 3 * MS, 1001, 0),
        both(EXCH_ASK_DEPTH_EVENT, LOCAL_ASK_DEPTH_EVENT, 4 * MS, 1002, 5),
        both(EXCH_BID_DEPTH_EVENT, LOCAL_BID_DEPTH_EVENT, 5 * MS, 1000, 5),
        both(EXCH_SELL_TRADE_EVENT, LOCAL_TRADE_EVENT, 6 * MS, 999, 10),
    ];
    let mut sim = prob_simulator(&[(1000, 5), (999, 5)], &[(1001, 5)], &rows);
    assert_eq!(sim.submit_buy_order(1, 999, 1, TimeInForce::GTC, OrdType::Limit, false), Ok(true));
    assert_eq!(sim.elapse(5 * MS + MS / 2), Ok(true));
    let resting = sim.exch.orders.get(1).unwrap();
    assert_eq!(resting.q, QueuePos { front_q_qty: 5, cum_trade_qty: 0 });
    assert_eq!(sim.exch.depth.best_ask_tick(), 1002);
    assert_eq!(sim.exch.depth.best_bid_tick(), 1000);
    assert_eq!(sim.orders().get(1).unwrap().status, Status::New);
    assert_eq!(sim.position(), 0);
    assert_eq!(sim.elapse(MS / 2), Ok(true));
    assert_eq!(sim.exch.orders.len(), 0);
    assert_eq!(sim.position(), 0);
    assert_eq!(sim.elapse(MS), Ok(false));
    let order = sim.orders().get(1).unwrap();
    assert_eq!((order.status, order.maker, order.exec_price_tick), (Status::Filled, true, 999));
    let values = sim.state_values();
    assert_eq!((values.position, values.balance, values.fee), (1, -999, 0));
    assert!((values.balance as f64 * 0.1 - -99.9).abs() < 1e-9);
    assert_eq!(sim.trade().len(), 1);
    assert_eq!(sim.depth().best_ask_tick(), 1002);
}

#[test]
fn prints_at_the_level_move_the_order_forward_until_it_fills() {
    let print =
        |t: i64, qty: u32| both(EXCH_SELL_TRADE_EVENT, LOCAL_TRADE_EVENT, t * MS, 1000, qty);
    let rows = [
        both(EXCH_BID_DEPTH_EVENT, LOCAL_BID_DEPTH_EVENT, 0, 1000, 7),
        both(EXCH_BID_DEPTH_EVENT, LOCAL_BID_DEPTH_EVENT, 2 * MS, 1000, 10),
        print(3, 3),
        print(4, 3),
        print(5, 2),
    ];
    let mut sim = prob_simulator(&[], &[], &rows);
    assert_eq!(sim.submit_buy_order(7, 1000, 1, TimeInForce::GTC, OrdType::Limit, false), Ok(true));
    sim.elapse(2 * MS).unwrap();
    assert_eq!(sim.exch.orders.get(7).unwrap().q.front_q_qty, 7);
    sim.elapse(MS).unwrap();
    assert_eq!(sim.exch.orders.get(7).unwrap().q.front_q_qty, 4);
    sim.elapse(MS).unwrap();
    assert_eq!(sim.exch.orders.get(7).unwrap().q.front_q_qty, 1);
    assert_eq!(sim.exch.state.state_values().trade_num, 0);
    sim.elapse(MS).unwrap();
    assert_eq!(sim.exch.orders.len(), 0);
    assert_eq!(sim.exch.state.state_values().position, 1);
    sim.elapse(MS).unwrap();
    assert_eq!(sim.orders().get(7).unwrap().status, Status::Filled);
    assert_eq!(sim.position(), 1);
}

#[test]
fn submit_then_cancel_ends_canceled_with_the_account_unmoved() {
    let mut sim = simulator(&[(1000, 1)], &[(1001, 1)], &[]);
    assert_eq!(sim.submit_buy_order(1, 1000, 3, TimeInForce::GTC, OrdType::Limit, true), Ok(false));
    assert_eq!(sim.orders().get(1).unwrap().status, Status::New);
    assert_eq!(sim.current_timestamp(), 2 * MS);
    assert_eq!(sim.cancel(1, true), Ok(false));
    assert_eq!(sim.current_timestamp(), 4 * MS);
    let order = sim.orders().get(1).unwrap();
    assert_eq!((order.status, order.req), (Status::Canceled, Status::Unset));
    assert_eq!((order.qty, order.leaves_qty, order.exec_qty), (3, 0, 0));
    let zero = State::new(LinearAsset::new(), 0, 200).state_values();
    assert_eq!(sim.state_values(), zero);
    assert_eq!(sim.exch.state.state_values(), zero);
    assert_eq!(sim.exch.orders.len(), 0);
    sim.clear_inactive_orders();
    assert_eq!(sim.orders().len(), 0);
}

#[test]
fn clock_never_goes_back() {
    let rows = [
        both(EXCH_BID_DEPTH_EVENT, LOCAL_BID_DEPTH_EVENT, 10, 1000, 1),
        both(EXCH_BID_DEPTH_EVENT, LOCAL_BID_DEPTH_EVENT, 5, 999, 1),
        both(EXCH_BID_DEPTH_EVENT, LOCAL_BID_DEPTH_EVENT, 30, 998, 1),
    ];
    let mut sim = simulator(&[], &[], &rows);
    assert_eq!(sim.current_timestamp(), 10);
    assert!(sim.has_room_for_request());
    assert_eq!(sim.elapse(-100), Ok(true));
    assert_eq!(sim.current_timestamp(), 10);
    assert_eq!(sim.depth().best_bid_tick(), 1000);
    assert_eq!(sim.elapse(5), Ok(true));
    assert_eq!(sim.current_timestamp(), 15);
    assert_eq!(sim.depth().bid_qty_at_tick(999), 1);
    assert_eq!(sim.elapse_bt(5), Ok(true));
    assert_eq!(sim.current_timestamp(), 20);
    assert_eq!(sim.next_timestamp(), 30);
    assert_eq!(sim.elapse(100), Ok(false));
    assert_eq!(sim.current_timestamp(), 30);
    assert_eq!(sim.next_timestamp(), i64::MAX);
    assert_eq!(sim.elapse(100), Ok(false));
    assert_eq!(sim.current_timestamp(), 30);
    assert_eq!(sim.close(), Ok(()));
}

#[test]
fn simulation_without_data_starts_at_zero_and_still_carries_orders() {
    let mut sim = simulator(&[], &[], &[]);
    assert_eq!(sim.current_timestamp(), 0);
    assert_eq!(sim.elapse(5), Ok(false));
    assert_eq!(sim.submit_sell_order(1, 1000, 1, TimeInForce::GTC, OrdType::Limit, false), Ok(true));
    assert_eq!(sim.next_timestamp(), i64::MAX);
    assert_eq!(sim.elapse(MS), Ok(true));
    assert_eq!(sim.current_timestamp(), MS);
    assert_eq!(sim.exch.orders.len(), 1);
    assert_eq!(sim.orders().get(1).unwrap().req, Status::New);
    assert_eq!(sim.elapse(10 * MS), Ok(false));
    assert_eq!(sim.current_timestamp(), 2 * MS);
    assert_eq!(sim.orders().get(1).unwrap().req, Status::Unset);
}

#[test]
fn error_of_a_processor_ends_the_run() {
    let mut sim = simulator(&[], &[], &[]);
    sim.submit_sell_order(1, 1000, 1, TimeInForce::GTC, OrdType::Limit, true).unwrap();
    // The strategy forgets the order while it still rests at the exchange.
    sim.local.orders.remove(1);
    assert_eq!(
        sim.submit_sell_order(1, 1000, 1, TimeInForce::GTC, OrdType::Limit, true),
        Err(Error::OrderAlreadyExist)
    );
    assert_eq!(sim.exch.orders.len(), 1);
    assert_eq!(sim.current_timestamp(), 3 * MS);
}

#[test]
fn strategy_side_errors_are_returned_at_once() {
    let mut sim = simulator(&[], &[], &[]);
    assert_eq!(sim.cancel(1, true), Err(Error::OrderNotFound));
    sim.submit_buy_order(1, 1000, 1, TimeInForce::GTC, OrdType::Limit, false).unwrap();
    assert_eq!(
        sim.submit_buy_order(1, 1000, 1, TimeInForce::GTC, OrdType::Limit, false),
        Err(Error::OrderAlreadyExist)
    );
    assert_eq!(sim.cancel(1, false), Err(Error::OrderRequestInProcess));
    assert_eq!(
        sim.submit_buy_order(2, i32::MAX, 1, TimeInForce::GTC, OrdType::Limit, true),
        Err(Error::InvalidOrderRequest)
    );
    assert_eq!(
        sim.submit_sell_order(2, i32::MIN, 1, TimeInForce::GTC, OrdType::Limit, true),
        Err(Error::InvalidOrderRequest)
    );
    assert_eq!(sim.current_timestamp(), 0);
    assert_eq!(sim.local.orders_to.len(), 1);
}

#[test]
fn exchange_goes_first_on_a_tie() {
    // The print and the arrival of the order fall on the same instant: the
    // exchange takes the order in before its data only if it is due earlier.
    let rows = [
        both(EXCH_BID_DEPTH_EVENT, LOCAL_BID_DEPTH_EVENT, 0, 900, 1),
        Row { ev: EXCH_SELL_TRADE_EVENT, exch_ts: MS, local_ts: MS, price_tick: 1000, qty: 5 },
    ];
    let mut sim = simulator(&[], &[], &rows);
    sim.submit_buy_order(1, 1000, 1, TimeInForce::GTC, OrdType::Limit, false).unwrap();
    assert_eq!(sim.elapse(MS), Ok(true));
    // The print came first and found no order; the order rests.
    assert_eq!(sim.exch.orders.len(), 1);
    assert_eq!(sim.exch.state.state_values().trade_num, 0);
}

#[test]
fn exchange_is_timed_by_its_own_clock_from_the_first_event_on() {
    // The exchange sees the ask at 1 ms, the strategy at 5 ms. An order
    // that reaches the exchange in between finds the ask in the book.
    let rows = [Row {
        ev: EXCH_ASK_DEPTH_EVENT | LOCAL_ASK_DEPTH_EVENT,
        exch_ts: MS,
        local_ts: 5 * MS,
        price_tick: 1000,
        qty: 1,
    }];
    let mut sim = simulator(&[], &[], &rows);
    assert_eq!(sim.current_timestamp(), MS);
    assert_eq!(sim.submit_buy_order(1, 1000, 1, TimeInForce::GTC, OrdType::Limit, true), Ok(true));
    assert_eq!(sim.current_timestamp(), 3 * MS);
    let order = sim.orders().get(1).unwrap();
    assert_eq!((order.status, order.maker, order.exec_price_tick), (Status::Filled, false, 1000));
    assert_eq!(order.exch_timestamp, 2 * MS);
    assert_eq!(sim.position(), 1);
    assert_eq!(sim.exch.orders.len(), 0);
    assert_eq!(sim.depth().best_ask_tick(), i32::MAX);
}

fn busy_rows() -> Vec<Row> {
    vec![
        both(EXCH_BID_DEPTH_EVENT, LOCAL_BID_DEPTH_EVENT, 0, 1000, 5),
        both(EXCH_ASK_DEPTH_EVENT, LOCAL_ASK_DEPTH_EVENT, MS, 1003, 5),
        both(EXCH_SELL_TRADE_EVENT, LOCAL_TRADE_EVENT, 3 * MS, 1000, 9),
        both(EXCH_BID_DEPTH_EVENT, LOCAL_BID_DEPTH_EVENT, 5 * MS, 1002, 2),
        both(EXCH_ASK_DEPTH_EVENT, LOCAL_ASK_DEPTH_EVENT, 7 * MS, 1001, 1),
        both(EXCH_BID_DEPTH_EVENT, LOCAL_BID_DEPTH_EVENT, 9 * MS, 1002, 0),
    ]
}

fn busy_run(sim: &mut Sim, check: &mut dyn FnMut(&Sim)) {
    sim.submit_buy_order(1, 1000, 2, TimeInForce::GTC, OrdType::Limit, false).unwrap();
    sim.submit_sell_order(2, 1002, 3, TimeInForce::GTC, OrdType::Limit, false).unwrap();
    sim.submit_buy_order(3, 999, 1, TimeInForce::GTX, OrdType::Limit, false).unwrap();
    check(sim);
    for step in 0..12 {
        sim.elapse(MS).unwrap();
        if step == 2 {
            sim.submit_sell_order(4, 990, 4, TimeInForce::IOC, OrdType::Limit, false).unwrap();
            sim.cancel(3, false).unwrap();
        }
        check(sim);
    }
}

#[test]
fn quantities_of_every_order_add_up_at_every_moment() {
    let mut sim = simulator(&[], &[], &busy_rows());
    let mut seen = 0;
    busy_run(&mut sim, &mut |sim| {
        let mut orders = Vec::new();
        for id in sim.local.orders.order_ids() {
            orders.push(sim.local.orders.get(id).unwrap());
        }
        for id in sim.exch.orders.order_ids() {
            orders.push(sim.exch.orders.get(id).unwrap());
        }
        for order in orders {
            assert!(order.leaves_qty as u64 + order.exec_qty as u64 <= order.qty as u64);
            if order.status.is_terminal() {
                assert_eq!(order.leaves_qty, 0);
            }
            assert!(order.is_consistent());
            seen += 1;
        }
    });
    assert!(seen > 20);
    let statuses: Vec<Status> =
        (1..=4).map(|id| sim.orders().get(id).unwrap().status).collect();
    assert_eq!(statuses, vec![Status::Filled, Status::Filled, Status::Canceled, Status::Filled]);
    assert_eq!(sim.position(), 2 - 3 - 4);
    assert_eq!(sim.state_values(), sim.exch.state.state_values());
}

#[test]
fn same_data_and_same_calls_give_the_same_run() {
    let mut one = simulator(&[], &[], &busy_rows());
    let mut other = simulator(&[], &[], &busy_rows());
    let mut first = Vec::new();
    let mut second = Vec::new();
    let mut record = |log: &mut Vec<(i64, i128, i128, i64, usize, Vec<i64>)>, sim: &Sim| {
        let v = sim.state_values();
        log.push((
            v.position,
            v.balance,
            v.fee,
            sim.current_timestamp(),
            sim.exch.orders.len(),
            sim.local.orders.order_ids(),
        ));
    };
    busy_run(&mut one, &mut |sim| record(&mut first, sim));
    busy_run(&mut other, &mut |sim| record(&mut second, sim));
    assert_eq!(first, second);
    assert_eq!(first.len(), 13);
    assert!(first.windows(2).all(|w| w[0].3 <= w[1].3));
}
