use hftbacktest::backtest::assettype::LinearAsset;
use hftbacktest::backtest::models::latencies::ConstantLatency;
use hftbacktest::backtest::order::OrderBus;
use hftbacktest::backtest::proc::local::{elapsed, Local};
use hftbacktest::backtest::reader::{
    seek_next, Data, Reader, Row, EXCH_BUY_TRADE_EVENT, LOCAL_ASK_DEPTH_CLEAR_EVENT,
    LOCAL_ASK_DEPTH_EVENT, LOCAL_ASK_DEPTH_SNAPSHOT_EVENT, LOCAL_BID_DEPTH_CLEAR_EVENT,
    LOCAL_BID_DEPTH_EVENT, LOCAL_BID_DEPTH_SNAPSHOT_EVENT, LOCAL_EVENT, LOCAL_TRADE_EVENT,
};
use hftbacktest::backtest::state::State;
use hftbacktest::backtest::Error;
use hftbacktest::depth::hashmapmarketdepth::HashMapMarketDepth;
use hftbacktest::depth::{MarketDepth, INVALID_MAX, INVALID_MIN};
use hftbacktest::ty::{OrdType, Order, Side, Status, TimeInForce};

type Strategy = Local<LinearAsset, i64, ConstantLatency, HashMapMarketDepth>;

fn local(chunks: &[&[Row]], trade_len: usize) -> Strategy {
    let mut reader = Reader::new();
    for rows in chunks {
        assert!(reader.push(Data::new(rows.to_vec())));
    }
    Local::new(
        reader,
        HashMapMarketDepth::new(100, 1),
        State::new(LinearAsset::new(), -10, 200),
        ConstantLatency::new(100, 7),
        trade_len,
        OrderBus::new(),
        OrderBus::new(),
    )
}

fn row(ev: u64, ts: i64, tick: i32, qty: u32) -> Row {
    Row { ev, exch_ts: ts - 1, local_ts: ts, price_tick: tick, qty }
}

fn response(id: i64, status: Status, sent: i64, answered: i64) -> Order<i64> {
    let mut o: Order<i64> = Order::new(id, 1000, 100, 2, Side::Buy, OrdType::Limit, TimeInForce::GTC);
    o.status = status;
    o.local_timestamp = sent;
    o.exch_timestamp = answered;
    if status == Status::Filled {
        o.exec_qty = 2;
        o.exec_price_tick = 1000;
        o.maker = true;
    }
    if status.is_terminal() {
        o.leaves_qty = 0;
    }
    o
}

#[test]
fn submission_files_the_order_and_sends_a_copy() {
    let mut l = local(&[], 0);
    assert_eq!(
        l.submit_order(1, Side::Sell, 1005, 3, OrdType::Limit, TimeInForce::GTX, 50),
        Ok(())
    );
    let filed = l.orders().get(1).unwrap();
    assert_eq!((filed.status, filed.req), (Status::New, Status::New));
    assert_eq!((filed.side, filed.price_tick, filed.qty, filed.leaves_qty), (Side::Sell, 1005, 3, 3));
    assert_eq!((filed.local_timestamp, filed.tick_size), (50, 100));
    assert_eq!((filed.order_type, filed.time_in_force), (OrdType::Limit, TimeInForce::GTX));
    assert_eq!(l.frontmost_send_order_timestamp(), 150);
    let sent = l.orders_to.remove(0);
    assert_eq!((sent.order_id, sent.req, sent.price_tick), (1, Status::New, 1005));
    assert_eq!(l.position(), 0);
}

#[test]
fn submission_at_a_marker_price_is_refused() {
    let mut l = local(&[], 0);
    for tick in [i32::MIN, i32::MAX] {
        assert_eq!(
            l.submit_order(1, Side::Buy, tick, 1, OrdType::Limit, TimeInForce::GTC, 50),
            Err(Error::InvalidOrderRequest)
        );
    }
    assert_eq!(l.orders().len(), 0);
    assert_eq!(l.orders_to.len(), 0);
    assert_eq!(
        l.submit_order(1, Side::Buy, i32::MAX - 1, 1, OrdType::Limit, TimeInForce::GTC, 50),
        Ok(())
    );
    assert!(l.orders().get(1).unwrap().is_placeable());
    assert_eq!(
        l.submit_order(1, Side::Buy, i32::MAX, 1, OrdType::Limit, TimeInForce::GTC, 50),
        Err(Error::OrderAlreadyExist)
    );
}

#[test]
fn submission_under_an_id_in_use_is_refused() {
    let mut l = local(&[], 0);
    l.submit_order(1, Side::Sell, 1005, 3, OrdType::Limit, TimeInForce::GTC, 50).unwrap();
    assert_eq!(
        l.submit_order(1, Side::Buy, 1000, 1, OrdType::Limit, TimeInForce::GTC, 60),
        Err(Error::OrderAlreadyExist)
    );
    assert_eq!(l.orders().len(), 1);
    assert_eq!(l.orders_to.len(), 1);
    assert_eq!(l.orders().get(1).unwrap().side, Side::Sell);
}

#[test]
fn cancel_marks_the_order_and_sends_the_request() {
    let mut l = local(&[], 0);
    l.process_recv_order_(response(1, Status::New, 0, 5), 10, i64::MAX, i64::MAX).unwrap();
    assert_eq!(l.cancel(1, 20), Ok(()));
    assert_eq!(l.orders().get(1).unwrap().req, Status::Canceled);
    assert_eq!(l.frontmost_send_order_timestamp(), 120);
    let sent = l.orders_to.remove(0);
    assert_eq!((sent.order_id, sent.req, sent.status), (1, Status::Canceled, Status::New));
}

#[test]
fn cancel_is_refused_without_an_order_or_with_a_request_in_flight() {
    let mut l = local(&[], 0);
    assert_eq!(l.cancel(1, 20), Err(Error::OrderNotFound));
    l.submit_order(1, Side::Sell, 1005, 3, OrdType::Limit, TimeInForce::GTC, 50).unwrap();
    assert_eq!(l.cancel(1, 60), Err(Error::OrderRequestInProcess));
    l.process_recv_order_(response(1, Status::New, 50, 55), 60, i64::MAX, i64::MAX).unwrap();
    assert_eq!(l.cancel(1, 61), Ok(()));
    assert_eq!(l.cancel(1, 62), Err(Error::OrderRequestInProcess));
    assert_eq!(l.orders_to.len(), 2);
}

#[test]
fn inactive_orders_are_cleared() {
    let mut l = local(&[], 0);
    let statuses = [
        Status::New,
        Status::Filled,
        Status::Canceled,
        Status::Expired,
        Status::PartiallyFilled,
        Status::Unset,
    ];
    for (i, status) in statuses.iter().enumerate() {
        l.process_recv_order_(response(i as i64, *status, 0, 0), 1, i64::MAX, i64::MAX).unwrap();
    }
    assert_eq!(l.orders().len(), 6);
    l.clear_inactive_orders();
    assert_eq!(l.orders().order_ids(), vec![0, 4, 5]);
    assert_eq!(l.position(), 2);
    l.clear_inactive_orders();
    assert_eq!(l.orders().order_ids(), vec![0, 4, 5]);
}

#[test]
fn filled_response_is_booked_and_replaces_the_order() {
    let mut l = local(&[], 0);
    l.submit_order(1, Side::Buy, 1000, 2, OrdType::Limit, TimeInForce::GTC, 0).unwrap();
    assert_eq!(
        l.process_recv_order_(response(1, Status::Filled, 0, 5), 12, i64::MAX, 99),
        Ok(99)
    );
    let order = l.orders().get(1).unwrap();
    assert_eq!((order.status, order.req, order.exec_qty), (Status::Filled, Status::Unset, 2));
    let v = l.state_values();
    assert_eq!((v.position, v.balance, v.fee, v.trade_num), (2, -2000, -20000, 1));
}

#[test]
fn answer_that_found_no_order_is_passed_over() {
    let mut l = local(&[], 0);
    l.process_recv_order_(response(1, Status::Filled, 0, 5), 12, i64::MAX, i64::MAX).unwrap();
    for req in [Status::Canceled, Status::Modify] {
        let mut stale = response(1, Status::Expired, 0, 20);
        stale.req = req;
        assert_eq!(l.process_recv_order_(stale, 27, i64::MAX, 5), Ok(5));
        assert_eq!(l.orders().get(1).unwrap().status, Status::Filled);
    }
    let mut unknown = response(8, Status::Expired, 0, 20);
    unknown.req = Status::Canceled;
    l.process_recv_order_(unknown, 27, i64::MAX, i64::MAX).unwrap();
    assert!(!l.orders().contains_key(8));
    // An order that expired at the exchange is taken in as any response is.
    l.process_recv_order_(response(9, Status::Expired, 0, 20), 27, i64::MAX, i64::MAX).unwrap();
    assert_eq!(l.orders().get(9).unwrap().status, Status::Expired);
    assert_eq!(l.state_values().trade_num, 1);
}

#[test]
fn responses_due_now_are_taken_in_and_their_latencies_noted() {
    let mut l = local(&[], 0);
    l.orders_from.append(response(1, Status::New, 100, 130), 150);
    l.orders_from.append(response(2, Status::Filled, 110, 145), 150);
    l.orders_from.append(response(3, Status::New, 120, 150), 160);
    assert_eq!(l.frontmost_recv_order_timestamp(), 150);
    assert_eq!(l.last_order_entry_latency, None);
    assert_eq!(l.process_recv_order(150, i64::MAX), Ok(i64::MAX));
    assert_eq!(l.orders().order_ids(), vec![1, 2]);
    assert_eq!(l.last_order_entry_latency, Some(35));
    assert_eq!(l.last_roundtrip_order_latency, Some(40));
    assert_eq!(l.position(), 2);
    assert_eq!(l.orders_from.len(), 1);
    assert_eq!(l.process_recv_order(155, i64::MAX), Ok(i64::MAX));
    assert_eq!(l.orders_from.len(), 1);
    assert_eq!(l.last_roundtrip_order_latency, Some(40));
    assert_eq!(l.process_recv_order(160, 3), Ok(i64::MAX));
    assert_eq!(l.last_order_entry_latency, Some(30));
    assert_eq!(l.last_roundtrip_order_latency, Some(40));
}

#[test]
fn elapsed_time_holds_at_the_ends_of_the_range() {
    assert_eq!(elapsed(10, 3), 7);
    assert_eq!(elapsed(3, 10), -7);
    assert_eq!(elapsed(i64::MAX, -1), i64::MAX);
    assert_eq!(elapsed(i64::MIN, 1), i64::MIN);
}

#[test]
fn depth_events_change_the_strategys_view_of_the_book() {
    let rows = [
        row(LOCAL_BID_DEPTH_EVENT, 10, 1000, 5),
        row(LOCAL_ASK_DEPTH_SNAPSHOT_EVENT, 11, 1001, 4),
        row(LOCAL_BID_DEPTH_SNAPSHOT_EVENT, 12, 999, 2),
        row(LOCAL_ASK_DEPTH_EVENT, 13, 1002, 1),
        row(LOCAL_BID_DEPTH_CLEAR_EVENT, 14, 1000, 0),
        row(LOCAL_ASK_DEPTH_CLEAR_EVENT, 15, 1001, 0),
        row(LOCAL_EVENT, 16, 5, 5),
    ];
    let mut l = local(&[&rows], 4);
    assert_eq!(l.depth().best_bid_tick(), INVALID_MIN);
    assert_eq!(l.initialize_data(), Ok(10));
    assert_eq!(l.process_data(), Ok((11, i64::MAX)));
    assert_eq!(l.depth().best_bid_tick(), 1000);
    assert_eq!(l.depth().best_ask_tick(), INVALID_MAX);
    assert_eq!(l.process_data(), Ok((12, i64::MAX)));
    assert_eq!(l.depth().best_ask_tick(), 1001);
    assert_eq!(l.process_data(), Ok((13, i64::MAX)));
    assert_eq!(l.depth().bid_qty_at_tick(999), 2);
    assert_eq!(l.process_data(), Ok((14, i64::MAX)));
    assert_eq!(l.depth().ask_qty_at_tick(1002), 1);
    assert_eq!(l.process_data(), Ok((15, i64::MAX)));
    assert_eq!(l.depth().best_bid_tick(), 999);
    assert_eq!(l.process_data(), Ok((16, i64::MAX)));
    assert_eq!(l.depth().best_ask_tick(), 1002);
    assert_eq!(l.process_data(), Err(Error::EndOfData));
    assert_eq!(l.depth().best_bid_tick(), 999);
    assert_eq!(l.trade().len(), 0);
}

#[test]
fn last_trades_are_kept_up_to_the_limit() {
    let rows: Vec<Row> = (1..=5).map(|i| row(LOCAL_TRADE_EVENT, i, 1000 + i as i32, 1)).collect();
    let mut l = local(&[&rows], 3);
    l.initialize_data().unwrap();
    for _ in 0..4 {
        l.process_data().unwrap();
    }
    let ticks: Vec<i32> = l.trade().iter().map(|r| r.price_tick).collect();
    assert_eq!(ticks, vec![1002, 1003, 1004]);
    assert_eq!(l.process_data(), Err(Error::EndOfData));
    let ticks: Vec<i32> = l.trade().iter().map(|r| r.price_tick).collect();
    assert_eq!(ticks, vec![1003, 1004, 1005]);
    l.clear_last_trades();
    assert_eq!(l.trade().len(), 0);

    let mut none = local(&[&rows], 0);
    none.initialize_data().unwrap();
    none.process_data().unwrap();
    assert_eq!(none.trade().len(), 0);
}

#[test]
fn next_event_is_found_across_chunks() {
    let first = [row(EXCH_BUY_TRADE_EVENT, 1, 1, 1), row(LOCAL_TRADE_EVENT, 2, 2, 1)];
    let skipped = [row(EXCH_BUY_TRADE_EVENT, 3, 3, 1)];
    let empty: [Row; 0] = [];
    let last = [row(EXCH_BUY_TRADE_EVENT, 4, 4, 1), row(LOCAL_TRADE_EVENT, 5, 5, 1)];
    let mut l = local(&[&first, &skipped, &empty, &last], 8);
    assert_eq!(l.initialize_data(), Ok(2));
    assert_eq!(l.row_num, 1);
    assert_eq!(l.process_data(), Ok((5, i64::MAX)));
    assert_eq!(l.row_num, 1);
    assert_eq!(l.data.len(), 2);
    assert_eq!(l.data.get(0).local_ts, 4);
    assert_eq!(l.process_data(), Err(Error::EndOfData));
    assert_eq!(l.trade().len(), 2);
}

#[test]
fn reader_refuses_rows_at_the_markers() {
    let mut reader = Reader::new();
    assert!(!reader.push(Data::new(vec![row(LOCAL_EVENT, 1, i32::MIN, 1)])));
    assert!(!reader.push(Data::new(vec![row(LOCAL_EVENT, 1, 5, 1), row(LOCAL_EVENT, 1, i32::MAX, 1)])));
    assert_eq!(reader.next().err(), Some(Error::EndOfData));
    assert!(reader.push(Data::new(vec![row(LOCAL_EVENT, 1, i32::MIN + 1, 1)])));
    assert!(reader.push(Data::new(vec![])));
    let chunk = reader.next().unwrap();
    assert_eq!(chunk.len(), 1);
    assert!(chunk.is_valid());
    assert_eq!(chunk.find(0, LOCAL_EVENT), 0);
    assert_eq!(chunk.find(0, LOCAL_TRADE_EVENT), 1);
    assert!(chunk.get(0).is(LOCAL_EVENT));
    reader.release(chunk);
    assert_eq!(reader.next().unwrap().len(), 0);
    assert_eq!(reader.next().err(), Some(Error::EndOfData));
}

#[test]
fn seek_leaves_the_position_where_nothing_is_found() {
    let mut reader = Reader::new();
    reader.push(Data::new(vec![row(EXCH_BUY_TRADE_EVENT, 3, 3, 1)]));
    let mut data = Data::new(vec![row(LOCAL_EVENT, 1, 1, 1), row(EXCH_BUY_TRADE_EVENT, 2, 2, 1)]);
    let mut row_num = 0;
    assert_eq!(seek_next(&mut reader, &mut data, &mut row_num, 1, LOCAL_EVENT), Err(Error::EndOfData));
    assert_eq!(row_num, 0);
    assert_eq!(data.len(), 2);
    assert_eq!(reader.next().err(), Some(Error::EndOfData));
}
