use hftbacktest::backtest::assettype::LinearAsset;
use hftbacktest::backtest::models::latencies::ConstantLatency;
use hftbacktest::backtest::models::queue::RiskAverseQueueModel;
use hftbacktest::backtest::order::OrderBus;
use hftbacktest::backtest::proc::nopartialfillexchange::NoPartialFillExchange;
use hftbacktest::backtest::reader::{
    Data, Reader, Row, EXCH_ASK_DEPTH_CLEAR_EVENT, EXCH_ASK_DEPTH_EVENT,
    EXCH_ASK_DEPTH_SNAPSHOT_EVENT, EXCH_BID_DEPTH_CLEAR_EVENT, EXCH_BID_DEPTH_EVENT,
    EXCH_BID_DEPTH_SNAPSHOT_EVENT, EXCH_BUY_TRADE_EVENT, EXCH_EVENT, EXCH_SELL_TRADE_EVENT,
    LOCAL_TRADE_EVENT,
};
use hftbacktest::backtest::state::State;
use hftbacktest::backtest::Error;
use hftbacktest::depth::hashmapmarketdepth::HashMapMarketDepth;
use hftbacktest::depth::{MarketDepth, INVALID_MAX, INVALID_MIN};
use hftbacktest::ty::{OrdType, Order, Side, Status, TimeInForce};

type Exchange = NoPartialFillExchange<LinearAsset, i64, ConstantLatency, RiskAverseQueueModel>;

fn exchange(bids: &[(i32, u32)], asks: &[(i32, u32)], rows: &[Row]) -> Exchange {
    let mut depth = HashMapMarketDepth::new(1, 1);
    for (tick, qty) in bids {
        depth.update_bid_depth(*tick, *qty, 0);
    }
    for (tick, qty) in asks {
        depth.update_ask_depth(*tick, *qty, 0);
    }
    let mut reader = Reader::new();
    if !rows.is_empty() {
        assert!(reader.push(Data::new(rows.to_vec())));
    }
    NoPartialFillExchange::new(
        reader,
        depth,
        State::new(LinearAsset::new(), -10, 200),
        ConstantLatency::new(100, 7),
        RiskAverseQueueModel::new(),
        OrderBus::new(),
        OrderBus::new(),
    )
}

fn order(id: i64, side: Side, tick: i32, qty: u32, tif: TimeInForce) -> Order<i64> {
    Order::new(id, tick, 1, qty, side, OrdType::Limit, tif)
}

fn request(id: i64, side: Side, tick: i32, qty: u32, tif: TimeInForce, req: Status) -> Order<i64> {
    let mut o = order(id, side, tick, qty, tif);
    o.req = req;
    o.status = Status::New;
    o
}

fn responses(exch: &mut Exchange) -> Vec<(i64, Status, i64)> {
    let mut out = Vec::new();
    while exch.orders_to.len() > 0 {
        let ts = exch.orders_to.get_head_timestamp().unwrap();
        let o = exch.orders_to.remove(0);
        out.push((o.order_id, o.status, ts));
    }
    out
}

fn rest(exch: &mut Exchange, id: i64, side: Side, tick: i32) {
    assert_eq!(exch.ack_new(order(id, side, tick, 1, TimeInForce::GTC), 0), Ok(7));
}

fn row(ev: u64, ts: i64, tick: i32, qty: u32) -> Row {
    Row { ev, exch_ts: ts, local_ts: ts + 1, price_tick: tick, qty }
}

#[test]
fn new_order_that_does_not_cross_comes_to_rest() {
    let mut exch = exchange(&[(1000, 5)], &[(1001, 4)], &[]);
    assert_eq!(exch.ack_new(order(1, Side::Buy, 1000, 2, TimeInForce::GTC), 50), Ok(57));
    let rested = exch.orders.get(1).unwrap();
    assert_eq!(rested.status, Status::New);
    assert_eq!(rested.q, 5);
    assert_eq!(rested.exch_timestamp, 50);
    assert_eq!((rested.leaves_qty, rested.exec_qty), (2, 0));
    assert_eq!(exch.buy_orders.get(1000), vec![1]);
    assert_eq!(exch.sell_orders.get(1000), Vec::<i64>::new());
    assert_eq!(responses(&mut exch), vec![(1, Status::New, 57)]);
    assert_eq!(exch.state.state_values().trade_num, 0);
}

#[test]
fn id_in_use_is_refused() {
    let mut exch = exchange(&[(1000, 5)], &[(1001, 4)], &[]);
    rest(&mut exch, 1, Side::Buy, 999);
    assert_eq!(
        exch.ack_new(order(1, Side::Sell, 1005, 1, TimeInForce::GTC), 3),
        Err(Error::OrderAlreadyExist)
    );
    assert_eq!(exch.orders.len(), 1);
    assert_eq!(exch.orders.get(1).unwrap().side, Side::Buy);
    assert_eq!(exch.orders_to.len(), 1);
}

#[test]
fn post_only_order_at_the_opposing_best_expires() {
    let mut exch = exchange(&[(1000, 5)], &[(1001, 4)], &[]);
    assert_eq!(exch.ack_new(order(1, Side::Buy, 1001, 2, TimeInForce::GTX), 50), Ok(57));
    assert_eq!(exch.ack_new(order(2, Side::Sell, 999, 2, TimeInForce::GTX), 51), Ok(58));
    assert_eq!(exch.orders.len(), 0);
    assert_eq!(responses(&mut exch), vec![(1, Status::Expired, 57), (2, Status::Expired, 58)]);
    assert_eq!(exch.state.state_values().position, 0);
    assert_eq!(exch.state.state_values().trade_num, 0);
}

#[test]
fn post_only_order_that_does_not_cross_rests() {
    let mut exch = exchange(&[(1000, 5)], &[(1001, 4)], &[]);
    assert_eq!(exch.ack_new(order(1, Side::Sell, 1001, 2, TimeInForce::GTX), 50), Ok(57));
    assert_eq!(exch.orders.get(1).unwrap().status, Status::New);
    assert_eq!(exch.orders.get(1).unwrap().q, 4);
}

#[test]
fn marketable_order_takes_at_the_opposing_best() {
    let mut exch = exchange(&[(1000, 5)], &[(1001, 4)], &[]);
    assert_eq!(exch.ack_new(order(1, Side::Sell, 990, 3, TimeInForce::GTC), 50), Ok(57));
    assert_eq!(exch.orders.len(), 0);
    let filled = exch.orders_to.remove(0);
    assert_eq!(filled.status, Status::Filled);
    assert!(!filled.maker);
    assert_eq!(filled.exec_price_tick, 1000);
    assert_eq!((filled.exec_qty, filled.leaves_qty), (3, 0));
    assert_eq!(filled.exch_timestamp, 50);
    let v = exch.state.state_values();
    assert_eq!((v.position, v.balance, v.fee), (-3, 3000, 3000 * 200));
    assert_eq!((v.trade_num, v.trade_qty, v.trade_amount), (1, 3, 3000));
}

#[test]
fn empty_book_accepts_orders_on_both_sides() {
    let mut exch = exchange(&[], &[], &[]);
    assert_eq!(exch.depth.best_bid_tick(), INVALID_MIN);
    assert_eq!(exch.depth.best_ask_tick(), INVALID_MAX);
    rest(&mut exch, 1, Side::Buy, i32::MAX);
    rest(&mut exch, 2, Side::Sell, i32::MIN);
    rest(&mut exch, 3, Side::Buy, 5);
    rest(&mut exch, 4, Side::Sell, 5);
    assert_eq!(exch.orders.len(), 4);
    assert_eq!(exch.state.state_values().trade_num, 0);
}

#[test]
fn fill_is_refused_on_an_order_that_has_left_the_book() {
    let mut exch = exchange(&[(1000, 5)], &[(1001, 4)], &[]);
    for status in [Status::Filled, Status::Canceled, Status::Expired] {
        let mut o = order(1, Side::Buy, 1000, 1, TimeInForce::GTC);
        o.status = status;
        assert_eq!(exch.fill(&mut o, 5, true, 1000), Err(Error::InvalidOrderStatus));
        assert_eq!(o.status, status);
    }
    assert_eq!(exch.orders_to.len(), 0);
    assert_eq!(exch.state.state_values().trade_num, 0);
    let mut gone = order(2, Side::Buy, 1002, 1, TimeInForce::GTC);
    gone.status = Status::Canceled;
    assert_eq!(exch.ack_new(gone, 5), Err(Error::InvalidOrderStatus));
}

#[test]
fn maker_is_filled_at_its_own_price_and_taker_at_the_given_one() {
    let mut exch = exchange(&[], &[], &[]);
    let mut maker = order(1, Side::Buy, 1000, 2, TimeInForce::GTC);
    assert_eq!(exch.fill(&mut maker, 5, true, 999), Ok(12));
    assert_eq!((maker.exec_price_tick, maker.maker, maker.exec_qty, maker.leaves_qty), (1000, true, 2, 0));
    let mut taker = order(2, Side::Buy, 1000, 2, TimeInForce::GTC);
    assert_eq!(exch.fill(&mut taker, 6, false, 999), Ok(13));
    assert_eq!((taker.exec_price_tick, taker.maker), (999, false));
    let v = exch.state.state_values();
    assert_eq!(v.position, 4);
    assert_eq!(v.balance, -2000 - 1998);
    assert_eq!(v.fee, 2000 * -10 + 1998 * 200);
    assert_eq!(responses(&mut exch), vec![(1, Status::Filled, 12), (2, Status::Filled, 13)]);
}

#[test]
fn cancel_takes_a_resting_order_out_of_the_book() {
    let mut exch = exchange(&[(1000, 5)], &[(1001, 4)], &[]);
    rest(&mut exch, 1, Side::Sell, 1002);
    rest(&mut exch, 2, Side::Sell, 1002);
    assert_eq!(exch.ack_cancel(order(1, Side::Sell, 1002, 1, TimeInForce::GTC), 20), Ok(27));
    assert_eq!(exch.orders.order_ids(), vec![2]);
    assert_eq!(exch.sell_orders.get(1002), vec![2]);
    assert_eq!(
        responses(&mut exch),
        vec![(1, Status::New, 7), (2, Status::New, 7), (1, Status::Canceled, 27)]
    );
    assert_eq!(exch.state.state_values().trade_num, 0);
}

#[test]
fn canceled_order_has_nothing_left() {
    let mut exch = exchange(&[(1000, 5)], &[(1001, 4)], &[]);
    assert_eq!(exch.ack_new(order(1, Side::Sell, 1002, 3, TimeInForce::GTC), 0), Ok(7));
    assert_eq!(exch.orders.get(1).unwrap().leaves_qty, 3);
    assert_eq!(exch.ack_cancel(order(1, Side::Sell, 1002, 3, TimeInForce::GTC), 20), Ok(27));
    let _ack = exch.orders_to.remove(0);
    let canceled = exch.orders_to.remove(0);
    assert_eq!(canceled.status, Status::Canceled);
    assert_eq!((canceled.qty, canceled.leaves_qty, canceled.exec_qty), (3, 0, 0));
    assert!(canceled.is_consistent());
}

#[test]
fn expired_order_has_nothing_left() {
    let mut exch = exchange(&[(1000, 5)], &[(1001, 4)], &[]);
    assert_eq!(exch.ack_new(order(1, Side::Buy, 1001, 2, TimeInForce::GTX), 5), Ok(12));
    let expired = exch.orders_to.remove(0);
    assert_eq!(expired.status, Status::Expired);
    assert_eq!((expired.qty, expired.leaves_qty, expired.exec_qty), (2, 0, 0));
    assert_eq!(exch.ack_cancel(order(9, Side::Sell, 1002, 4, TimeInForce::GTC), 20), Ok(27));
    let gone = exch.orders_to.remove(0);
    assert_eq!((gone.status, gone.qty, gone.leaves_qty), (Status::Expired, 4, 0));
    assert_eq!(exch.ack_modify(order(8, Side::Sell, 1002, 4, TimeInForce::GTC), 20), Ok(27));
    let gone = exch.orders_to.remove(0);
    assert_eq!((gone.status, gone.qty, gone.leaves_qty), (Status::Expired, 4, 0));
    assert_eq!(exch.state.state_values().position, 0);
}

#[test]
fn cancel_of_an_order_that_is_gone_is_answered_with_the_request_named() {
    let mut exch = exchange(&[(1000, 5)], &[(1001, 4)], &[]);
    assert_eq!(exch.ack_cancel(order(9, Side::Sell, 1002, 1, TimeInForce::GTC), 20), Ok(27));
    let answer = exch.orders_to.remove(0);
    assert_eq!((answer.order_id, answer.status, answer.req), (9, Status::Expired, Status::Canceled));
    assert_eq!(answer.exch_timestamp, 20);
    assert_eq!(exch.orders.len(), 0);
}

#[test]
fn modify_moves_the_order_to_its_new_price_and_quantity() {
    let mut exch = exchange(&[(1000, 5), (998, 9)], &[(1001, 4)], &[]);
    rest(&mut exch, 1, Side::Buy, 1000);
    rest(&mut exch, 2, Side::Buy, 1000);
    assert_eq!(exch.ack_modify(order(1, Side::Sell, 998, 6, TimeInForce::GTC), 30), Ok(37));
    let moved = exch.orders.get(1).unwrap();
    assert_eq!((moved.side, moved.price_tick, moved.qty, moved.leaves_qty), (Side::Buy, 998, 6, 6));
    assert_eq!((moved.status, moved.q, moved.exch_timestamp), (Status::New, 9, 30));
    assert_eq!(exch.buy_orders.get(1000), vec![2]);
    assert_eq!(exch.buy_orders.get(998), vec![1]);
    assert_eq!(exch.orders.order_ids(), vec![2, 1]);
    assert_eq!(exch.orders_to.len(), 3);
}

#[test]
fn modify_takes_price_and_quantity_and_nothing_else_from_the_request() {
    let mut exch = exchange(&[(1000, 5)], &[(1001, 4)], &[]);
    assert_eq!(exch.ack_new(order(1, Side::Buy, 999, 5, TimeInForce::GTC), 0), Ok(7));
    let mut change = order(1, Side::Sell, 998, 4, TimeInForce::GTX);
    change.exec_qty = 4;
    change.leaves_qty = 0;
    change.req = Status::Modify;
    assert_eq!(exch.ack_modify(change, 10), Ok(17));
    let moved = exch.orders.get(1).unwrap();
    assert_eq!((moved.price_tick, moved.qty, moved.leaves_qty, moved.exec_qty), (998, 4, 4, 0));
    assert_eq!((moved.side, moved.time_in_force, moved.req), (Side::Buy, TimeInForce::GTC, Status::Unset));
    assert!(moved.is_placeable());
}

#[test]
fn resting_order_names_no_request_and_has_executed_nothing() {
    let mut exch = exchange(&[(1000, 5)], &[(1001, 4)], &[]);
    let mut named = order(1, Side::Buy, 999, 2, TimeInForce::GTC);
    named.req = Status::New;
    assert_eq!(exch.ack_new(named, 0), Ok(7));
    let rested = exch.orders.get(1).unwrap();
    assert_eq!((rested.req, rested.exec_qty, rested.leaves_qty), (Status::Unset, 0, 2));
    let mut post_only = order(2, Side::Buy, 999, 2, TimeInForce::GTX);
    post_only.req = Status::New;
    assert_eq!(exch.ack_new(post_only, 1), Ok(8));
    assert_eq!(exch.ack_modify(order(2, Side::Buy, 1001, 2, TimeInForce::GTX), 2), Ok(9));
    let _first = exch.orders_to.remove(0);
    let _second = exch.orders_to.remove(0);
    let expired = exch.orders_to.remove(0);
    assert_eq!((expired.order_id, expired.status, expired.req), (2, Status::Expired, Status::Unset));
    assert_eq!(expired.leaves_qty, 0);
}

#[test]
fn request_that_cannot_be_placed_is_refused() {
    let mut exch = exchange(&[(1000, 5)], &[(1001, 4)], &[]);
    let mut executed = request(1, Side::Buy, 999, 5, TimeInForce::GTC, Status::New);
    executed.exec_qty = 2;
    executed.leaves_qty = 3;
    assert!(executed.is_consistent() && !executed.is_placeable());
    assert_eq!(exch.process_recv_order_(executed, 10, 1, 5), Err(Error::InvalidOrderRequest));
    for tick in [INVALID_MIN, INVALID_MAX] {
        for req in [Status::New, Status::Modify] {
            let at_marker = request(1, Side::Buy, tick, 1, TimeInForce::GTC, req);
            assert!(!at_marker.is_priced());
            assert_eq!(exch.process_recv_order_(at_marker, 10, 1, 5), Err(Error::InvalidOrderRequest));
        }
        let cancel = request(1, Side::Buy, tick, 1, TimeInForce::GTC, Status::Canceled);
        assert_eq!(exch.process_recv_order_(cancel, 10, i64::MAX, i64::MAX), Ok(i64::MAX));
    }
    assert_eq!(exch.orders.len(), 0);
    assert_eq!(exch.orders_to.len(), 2);
}

#[test]
fn modify_that_crosses_takes_or_expires() {
    let mut exch = exchange(&[(1000, 5)], &[(1001, 4)], &[]);
    rest(&mut exch, 1, Side::Buy, 999);
    assert_eq!(exch.ack_new(order(2, Side::Buy, 999, 1, TimeInForce::GTX), 0), Ok(7));
    assert_eq!(exch.ack_modify(order(1, Side::Buy, 1001, 3, TimeInForce::GTC), 30), Ok(37));
    assert_eq!(exch.ack_modify(order(2, Side::Buy, 1005, 3, TimeInForce::GTC), 31), Ok(38));
    assert_eq!(exch.orders.len(), 0);
    assert_eq!(exch.buy_orders.get(999), Vec::<i64>::new());
    assert_eq!(
        responses(&mut exch),
        vec![
            (1, Status::New, 7),
            (2, Status::New, 7),
            (1, Status::Filled, 37),
            (2, Status::Expired, 38)
        ]
    );
    let v = exch.state.state_values();
    assert_eq!((v.position, v.balance, v.fee), (3, -3003, 3003 * 200));
}

#[test]
fn modify_of_an_order_that_is_gone_is_answered_with_the_request_named() {
    let mut exch = exchange(&[(1000, 5)], &[(1001, 4)], &[]);
    assert_eq!(exch.ack_modify(order(9, Side::Sell, 1002, 1, TimeInForce::GTC), 20), Ok(27));
    let answer = exch.orders_to.remove(0);
    assert_eq!((answer.order_id, answer.status, answer.req), (9, Status::Expired, Status::Modify));
}

#[test]
fn requests_are_answered_by_their_kind() {
    let mut exch = exchange(&[(1000, 5)], &[(1001, 4)], &[]);
    let new = request(1, Side::Buy, 999, 1, TimeInForce::GTC, Status::New);
    assert_eq!(exch.process_recv_order_(new, 10, i64::MAX, i64::MAX), Ok(i64::MAX));
    assert_eq!(exch.orders.get(1).unwrap().req, Status::Unset);
    let modify = request(1, Side::Buy, 998, 2, TimeInForce::GTC, Status::Modify);
    assert_eq!(exch.process_recv_order_(modify, 11, i64::MAX, i64::MAX), Ok(i64::MAX));
    assert_eq!(exch.orders.get(1).unwrap().price_tick, 998);
    let cancel = request(1, Side::Buy, 998, 2, TimeInForce::GTC, Status::Canceled);
    assert_eq!(exch.process_recv_order_(cancel, 12, i64::MAX, i64::MAX), Ok(i64::MAX));
    assert_eq!(exch.orders.len(), 0);
    assert_eq!(
        responses(&mut exch),
        vec![(1, Status::New, 17), (1, Status::New, 18), (1, Status::Canceled, 19)]
    );
}

#[test]
fn request_of_no_kind_or_with_unsound_quantities_is_refused() {
    let mut exch = exchange(&[(1000, 5)], &[(1001, 4)], &[]);
    for req in [Status::Unset, Status::Filled, Status::Expired, Status::PartiallyFilled, Status::Rejected] {
        let o = request(1, Side::Buy, 999, 1, TimeInForce::GTC, req);
        assert_eq!(exch.process_recv_order_(o, 10, 1, 5), Err(Error::InvalidOrderRequest));
    }
    for req in [Status::New, Status::Canceled, Status::Modify] {
        let mut unsound = request(1, Side::Buy, 999, 1, TimeInForce::GTC, req);
        unsound.exec_qty = 1;
        assert_eq!(exch.process_recv_order_(unsound, 10, 1, 5), Err(Error::InvalidOrderRequest));
    }
    assert_eq!(exch.orders.len(), 0);
    assert_eq!(exch.orders_to.len(), 0);
}

#[test]
fn awaited_response_sets_the_next_wakeup() {
    let mut exch = exchange(&[(1000, 5)], &[(1001, 4)], &[]);
    let o = |id| request(id, Side::Buy, 999, 1, TimeInForce::GTC, Status::New);
    assert_eq!(exch.process_recv_order_(o(1), 10, 1, i64::MAX), Ok(17));
    assert_eq!(exch.process_recv_order_(o(2), 10, 2, 12), Ok(12));
    assert_eq!(exch.process_recv_order_(o(3), 10, 3, 40), Ok(17));
    assert_eq!(exch.process_recv_order_(o(4), 10, 4, 0), Ok(17));
    assert_eq!(exch.process_recv_order_(o(5), 10, 4, 33), Ok(33));
    assert_eq!(exch.process_recv_order_(o(5), 10, 5, 33), Err(Error::OrderAlreadyExist));
}

#[test]
fn requests_due_now_are_drained_and_later_ones_stay() {
    let mut exch = exchange(&[(1000, 5)], &[(1001, 4)], &[]);
    let o = |id| request(id, Side::Sell, 1002, 1, TimeInForce::GTC, Status::New);
    exch.orders_from.append(o(1), 10);
    exch.orders_from.append(o(2), 10);
    exch.orders_from.append(o(3), 11);
    assert_eq!(exch.frontmost_recv_order_timestamp(), 10);
    assert_eq!(exch.process_recv_order(10, 2), Ok(17));
    assert_eq!(exch.orders.order_ids(), vec![1, 2]);
    assert_eq!(exch.orders_from.len(), 1);
    assert_eq!(exch.frontmost_send_order_timestamp(), 17);
    assert_eq!(exch.process_recv_order(10, 2), Ok(i64::MAX));
    assert_eq!(exch.orders_from.len(), 1);
    assert_eq!(exch.process_recv_order(11, i64::MAX), Ok(i64::MAX));
    assert_eq!(exch.orders.order_ids(), vec![1, 2, 3]);
}

#[test]
fn drain_stops_at_the_first_error() {
    let mut exch = exchange(&[(1000, 5)], &[(1001, 4)], &[]);
    let o = |id| request(id, Side::Sell, 1002, 1, TimeInForce::GTC, Status::New);
    exch.orders_from.append(o(1), 10);
    exch.orders_from.append(o(1), 10);
    exch.orders_from.append(o(2), 10);
    assert_eq!(exch.process_recv_order(10, i64::MAX), Err(Error::OrderAlreadyExist));
    assert_eq!(exch.orders.order_ids(), vec![1]);
    assert_eq!(exch.orders_from.len(), 1);
}

#[test]
fn trade_fills_what_it_went_through_and_works_on_the_queue_at_its_price() {
    let trade = row(EXCH_BUY_TRADE_EVENT, 100, 1003, 2);
    let mut exch = exchange(&[(1000, 5)], &[(1001, 4), (1003, 3)], &[trade, trade, trade]);
    rest(&mut exch, 1, Side::Sell, 1001);
    rest(&mut exch, 2, Side::Sell, 1003);
    rest(&mut exch, 3, Side::Sell, 1004);
    rest(&mut exch, 4, Side::Buy, 999);
    assert_eq!(exch.initialize_data(), Ok(100));
    assert_eq!(responses(&mut exch).len(), 4);

    assert_eq!(exch.process_data(), Ok((100, i64::MAX)));
    assert_eq!(exch.orders.order_ids(), vec![2, 3, 4]);
    assert_eq!(exch.orders.get(2).unwrap().q, 1);
    assert_eq!(exch.orders.get(3).unwrap().q, 0);
    assert_eq!(responses(&mut exch), vec![(1, Status::Filled, 107)]);

    assert_eq!(exch.process_data(), Ok((100, i64::MAX)));
    assert_eq!(exch.orders.order_ids(), vec![3, 4]);
    let second = exch.orders_to.remove(0);
    assert_eq!((second.order_id, second.q, second.exec_price_tick), (2, -1, 1003));
    let v = exch.state.state_values();
    assert_eq!((v.position, v.balance, v.fee), (-2, 2004, 2004 * -10));
    assert_eq!(exch.sell_orders.get(1003), Vec::<i64>::new());

    assert_eq!(exch.process_data(), Err(Error::EndOfData));
    assert_eq!(exch.orders.order_ids(), vec![3, 4]);
    assert_eq!((exch.depth.tick_size(), exch.depth.lot_size()), (1, 1));
}

#[test]
fn sell_trade_mirrors_the_buy_trade() {
    let trade = row(EXCH_SELL_TRADE_EVENT, 100, 998, 6);
    let mut exch = exchange(&[(1000, 5), (998, 5)], &[(1001, 4)], &[trade]);
    rest(&mut exch, 1, Side::Buy, 1000);
    rest(&mut exch, 2, Side::Buy, 998);
    rest(&mut exch, 3, Side::Buy, 997);
    rest(&mut exch, 4, Side::Sell, 1001);
    exch.initialize_data().unwrap();
    assert_eq!(exch.process_data(), Err(Error::EndOfData));
    assert_eq!(exch.orders.order_ids(), vec![3, 4]);
    let v = exch.state.state_values();
    assert_eq!((v.position, v.balance), (2, -1998));
}

#[test]
fn both_walks_make_the_same_fills() {
    // Few orders and a wide range: every resting order is looked at.
    let wide = row(EXCH_BID_DEPTH_EVENT, 100, 1040, 1);
    let mut by_store = exchange(&[(1000, 1)], &[], &[wide]);
    // Many orders and a narrow range: the index is read tick by tick.
    let narrow = row(EXCH_BID_DEPTH_EVENT, 100, 1002, 1);
    let mut by_index = exchange(&[(1000, 1)], &[], &[narrow]);
    for exch in [&mut by_store, &mut by_index] {
        rest(exch, 1, Side::Sell, 1002);
        rest(exch, 2, Side::Sell, 1001);
        rest(exch, 3, Side::Sell, 1050);
        rest(exch, 4, Side::Buy, 900);
        rest(exch, 5, Side::Sell, 1002);
        responses(exch);
        exch.initialize_data().unwrap();
        assert_eq!(exch.process_data(), Err(Error::EndOfData));
        assert_eq!(exch.orders.order_ids(), vec![3, 4]);
        assert_eq!(exch.state.state_values().position, -3);
        assert_eq!(exch.state.state_values().balance, 1002 + 1001 + 1002);
        assert_eq!(exch.sell_orders.get(1002), Vec::<i64>::new());
    }
    assert_eq!(
        responses(&mut by_store),
        vec![(1, Status::Filled, 107), (2, Status::Filled, 107), (5, Status::Filled, 107)]
    );
    assert_eq!(
        responses(&mut by_index),
        vec![(2, Status::Filled, 107), (1, Status::Filled, 107), (5, Status::Filled, 107)]
    );
}

#[test]
fn falling_best_ask_fills_the_buys_it_reaches() {
    let ask = row(EXCH_ASK_DEPTH_SNAPSHOT_EVENT, 100, 999, 1);
    let mut exch = exchange(&[], &[(1001, 1)], &[ask]);
    rest(&mut exch, 1, Side::Buy, 1000);
    rest(&mut exch, 2, Side::Buy, 999);
    rest(&mut exch, 3, Side::Buy, 998);
    responses(&mut exch);
    exch.initialize_data().unwrap();
    assert_eq!(exch.process_data(), Err(Error::EndOfData));
    assert_eq!(exch.orders.order_ids(), vec![3]);
    assert_eq!(exch.depth.best_ask_tick(), 999);
    let v = exch.state.state_values();
    assert_eq!((v.position, v.balance, v.fee), (2, -1999, 1999 * -10));
}

#[test]
fn best_that_moves_away_fills_nothing() {
    let rows = [
        row(EXCH_BID_DEPTH_EVENT, 100, 1000, 0),
        row(EXCH_BID_DEPTH_SNAPSHOT_EVENT, 101, 990, 3),
        row(EXCH_ASK_DEPTH_EVENT, 102, 1001, 9),
    ];
    let mut exch = exchange(&[(1000, 5)], &[(1001, 4)], &rows);
    rest(&mut exch, 1, Side::Sell, 1001);
    rest(&mut exch, 2, Side::Buy, 1000);
    exch.initialize_data().unwrap();
    assert_eq!(exch.process_data(), Ok((101, i64::MAX)));
    assert_eq!(exch.depth.best_bid_tick(), INVALID_MIN);
    assert_eq!(exch.orders.get(2).unwrap().q, 0);
    assert_eq!(exch.process_data(), Ok((102, i64::MAX)));
    assert_eq!(exch.depth.best_bid_tick(), 990);
    assert_eq!(exch.process_data(), Err(Error::EndOfData));
    assert_eq!(exch.orders.get(1).unwrap().q, 4);
    assert_eq!(exch.orders.order_ids(), vec![1, 2]);
    assert_eq!(exch.state.state_values().trade_num, 0);
}

#[test]
fn clear_events_change_the_book_and_nothing_else() {
    let rows = [
        row(EXCH_BID_DEPTH_CLEAR_EVENT, 100, 1000, 0),
        row(EXCH_ASK_DEPTH_CLEAR_EVENT, 101, 1001, 0),
        row(EXCH_EVENT, 102, 5, 5),
    ];
    let mut exch = exchange(&[(1000, 5), (999, 1)], &[(1001, 4), (1002, 1)], &rows);
    rest(&mut exch, 1, Side::Sell, 1001);
    rest(&mut exch, 2, Side::Buy, 1000);
    exch.initialize_data().unwrap();
    assert_eq!(exch.process_data(), Ok((101, i64::MAX)));
    assert_eq!(exch.depth.best_bid_tick(), 999);
    assert_eq!(exch.process_data(), Ok((102, i64::MAX)));
    assert_eq!(exch.depth.best_ask_tick(), 1002);
    assert_eq!(exch.process_data(), Err(Error::EndOfData));
    assert_eq!(exch.orders.order_ids(), vec![1, 2]);
    assert_eq!(exch.orders_to.len(), 2);
}

#[test]
fn exchange_skips_rows_that_it_did_not_see() {
    let rows = [
        row(LOCAL_TRADE_EVENT, 1, 1000, 1),
        row(EXCH_BUY_TRADE_EVENT, 5, 1000, 1),
        row(LOCAL_TRADE_EVENT, 6, 1000, 1),
        row(EXCH_SELL_TRADE_EVENT, 9, 1000, 1),
    ];
    let mut exch = exchange(&[], &[], &rows);
    assert_eq!(exch.initialize_data(), Ok(5));
    assert_eq!(exch.row_num, 1);
    assert_eq!(exch.process_data(), Ok((9, i64::MAX)));
    assert_eq!(exch.row_num, 3);
    assert_eq!(exch.process_data(), Err(Error::EndOfData));
    let mut empty = exchange(&[], &[], &[row(LOCAL_TRADE_EVENT, 1, 1000, 1)]);
    assert_eq!(empty.initialize_data(), Err(Error::EndOfData));
}

#[test]
fn queue_position_advances_with_each_print_until_the_order_fills() {
    let print = |qty| row(EXCH_SELL_TRADE_EVENT, 100, 1000, qty);
    let mut exch = exchange(&[(1000, 7)], &[], &[print(3), print(3), print(2)]);
    rest(&mut exch, 7, Side::Buy, 1000);
    exch.depth.update_bid_depth(1000, 10, 0);
    exch.initialize_data().unwrap();
    assert_eq!(exch.orders.get(7).unwrap().q, 7);
    exch.process_data().unwrap();
    assert_eq!(exch.orders.get(7).unwrap().q, 4);
    exch.process_data().unwrap();
    assert_eq!(exch.orders.get(7).unwrap().q, 1);
    assert_eq!(exch.state.state_values().trade_num, 0);
    assert_eq!(exch.process_data(), Err(Error::EndOfData));
    assert_eq!(exch.orders.len(), 0);
    let v = exch.state.state_values();
    assert_eq!((v.position, v.balance, v.trade_num), (1, -1000, 1));
}

#[test]
fn check_if_filled_tells_the_three_cases_apart() {
    let mut exch = exchange(&[(1000, 2)], &[(1001, 2)], &[]);
    let mut below = order(1, Side::Sell, 1000, 1, TimeInForce::GTC);
    assert_eq!(exch.check_if_sell_filled(&mut below, 1001, 5, 50), Ok(57));
    assert_eq!((below.status, below.exec_price_tick, below.maker), (Status::Filled, 1000, true));
    let mut at = order(2, Side::Sell, 1001, 1, TimeInForce::GTC);
    at.q = 5;
    assert_eq!(exch.check_if_sell_filled(&mut at, 1001, 5, 50), Ok(i64::MAX));
    assert_eq!((at.status, at.q), (Status::Unset, 0));
    assert_eq!(exch.check_if_sell_filled(&mut at, 1001, 1, 51), Ok(58));
    assert_eq!(at.status, Status::Filled);
    let mut above = order(3, Side::Sell, 1002, 1, TimeInForce::GTC);
    assert_eq!(exch.check_if_sell_filled(&mut above, 1001, 5, 50), Ok(i64::MAX));
    assert_eq!((above.status, above.q), (Status::Unset, 0));
    assert_eq!(exch.filled_orders, vec![1, 2]);

    let mut buy_above = order(4, Side::Buy, 1002, 1, TimeInForce::GTC);
    assert_eq!(exch.check_if_buy_filled(&mut buy_above, 1001, 5, 52), Ok(59));
    let mut buy_below = order(5, Side::Buy, 1000, 1, TimeInForce::GTC);
    assert_eq!(exch.check_if_buy_filled(&mut buy_below, 1001, 5, 52), Ok(i64::MAX));
    assert_eq!(exch.filled_orders, vec![1, 2, 4]);
    assert_eq!(exch.state.state_values().position, -2 + 1);
}

#[test]
fn filled_orders_are_cleared_out_of_book_and_index() {
    let mut exch = exchange(&[(1000, 2)], &[(1005, 2)], &[]);
    rest(&mut exch, 1, Side::Sell, 1002);
    rest(&mut exch, 2, Side::Buy, 1000);
    rest(&mut exch, 3, Side::Sell, 1002);
    exch.filled_orders.push(3);
    exch.filled_orders.push(2);
    exch.remove_filled_orders();
    assert_eq!(exch.orders.order_ids(), vec![1]);
    assert_eq!(exch.sell_orders.get(1002), vec![1]);
    assert_eq!(exch.buy_orders.get(1000), Vec::<i64>::new());
    assert_eq!(exch.filled_orders.len(), 0);
}

#[test]
fn quantity_change_moves_only_the_orders_at_its_tick_and_side() {
    let mut exch = exchange(&[(1000, 9), (999, 9)], &[(1001, 9)], &[]);
    rest(&mut exch, 1, Side::Buy, 1000);
    rest(&mut exch, 2, Side::Buy, 999);
    rest(&mut exch, 3, Side::Sell, 1001);
    exch.on_bid_qty_chg(1000, 9, 4);
    assert_eq!(exch.orders.get(1).unwrap().q, 4);
    assert_eq!(exch.orders.get(2).unwrap().q, 9);
    assert_eq!(exch.orders.get(3).unwrap().q, 9);
    exch.on_ask_qty_chg(1001, 9, 2);
    assert_eq!(exch.orders.get(3).unwrap().q, 2);
    exch.on_ask_qty_chg(1000, 9, 0);
    assert_eq!(exch.orders.get(1).unwrap().q, 4);
    assert_eq!(exch.orders.order_ids(), vec![1, 2, 3]);
}

#[test]
fn best_bid_update_fills_up_to_the_new_best_and_no_further() {
    let mut exch = exchange(&[(1000, 1)], &[], &[]);
    for (id, tick) in [(1, 1001), (2, 1002), (3, 1003), (4, 1004)] {
        rest(&mut exch, id, Side::Sell, tick);
    }
    rest(&mut exch, 5, Side::Buy, 1000);
    responses(&mut exch);
    assert_eq!(exch.on_best_bid_update(1000, 1003, 70), Ok(()));
    assert_eq!(exch.orders.order_ids(), vec![4, 5]);
    assert_eq!(
        responses(&mut exch),
        vec![(1, Status::Filled, 77), (2, Status::Filled, 77), (3, Status::Filled, 77)]
    );
    assert_eq!(exch.state.state_values().balance, 1001 + 1002 + 1003);

    let mut exch = exchange(&[], &[(1010, 1)], &[]);
    for (id, tick) in [(1, 1001), (2, 1002), (3, 1003)] {
        rest(&mut exch, id, Side::Buy, tick);
    }
    assert_eq!(exch.on_best_ask_update(INVALID_MAX, 1002, 70), Ok(()));
    assert_eq!(exch.orders.order_ids(), vec![1]);
    assert_eq!(exch.state.state_values().position, 2);
}
