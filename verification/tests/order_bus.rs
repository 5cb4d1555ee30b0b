use hftbacktest::backtest::backtest::{earlier, transfer};
use hftbacktest::backtest::models::latencies::delivery_timestamp;
use hftbacktest::backtest::order::OrderBus;
use hftbacktest::backtest::orderstore::OrderStore;
use hftbacktest::backtest::tickindex::TickIndex;
use hftbacktest::ty::{OrdType, Order, Side, Status, TimeInForce};

fn order(id: i64) -> Order<i64> {
    Order::new(id, 1000, 1, 1, Side::Buy, OrdType::Limit, TimeInForce::GTC)
}

fn ids(bus: &mut OrderBus<i64>) -> Vec<(i64, i64)> {
    let mut out = Vec::new();
    while bus.len() > 0 {
        let ts = bus.get_head_timestamp().unwrap();
        out.push((bus.remove(0).order_id, ts));
    }
    out
}

#[test]
fn new_order_is_fresh() {
    let o = order(7);
    assert_eq!(o.order_id, 7);
    assert_eq!((o.qty, o.leaves_qty, o.exec_qty), (1, 1, 0));
    assert_eq!((o.status, o.req), (Status::Unset, Status::Unset));
    assert_eq!((o.exch_timestamp, o.local_timestamp, o.exec_price_tick), (0, 0, 0));
    assert_eq!(o.q, 0);
    assert!(!o.maker);
    assert!(o.is_consistent());
    assert!(!o.status.is_terminal());
    assert!(Status::Filled.is_terminal() && Status::Canceled.is_terminal());
    assert!(Status::Expired.is_terminal() && !Status::New.is_terminal());
    assert_eq!((Side::Buy.sign(), Side::Sell.sign()), (1, -1));
}

#[test]
fn inconsistent_quantities_are_told_apart() {
    let mut o = order(1);
    o.exec_qty = 1;
    assert!(!o.is_consistent());
    o.leaves_qty = 0;
    assert!(o.is_consistent());
    o.status = Status::Filled;
    assert!(o.is_consistent());
    o.leaves_qty = 1;
    o.exec_qty = 0;
    assert!(!o.is_consistent());
    for status in [Status::Canceled, Status::Expired] {
        o.status = status;
        o.leaves_qty = 1;
        assert!(!o.is_consistent());
        o.leaves_qty = 0;
        assert!(o.is_consistent());
    }
    o.status = Status::New;
    o.leaves_qty = 1;
    assert!(o.is_consistent());
}

#[test]
fn bus_is_sorted_by_delivery_and_keeps_ties_in_order() {
    let mut bus = OrderBus::new();
    assert_eq!(bus.len(), 0);
    assert_eq!(bus.get_head_timestamp(), None);
    assert_eq!(bus.frontmost_timestamp(), i64::MAX);
    bus.append(order(1), 30);
    bus.append(order(2), 10);
    bus.append(order(3), 30);
    bus.append(order(4), 20);
    bus.append(order(5), 10);
    assert_eq!(bus.len(), 5);
    assert_eq!(bus.frontmost_timestamp(), 10);
    assert_eq!(ids(&mut bus), vec![(2, 10), (5, 10), (4, 20), (1, 30), (3, 30)]);
}

#[test]
fn bus_remove_takes_the_entry_at_the_index() {
    let mut bus = OrderBus::new();
    bus.append(order(1), 1);
    bus.append(order(2), 2);
    bus.append(order(3), 3);
    assert_eq!(bus.remove(1).order_id, 2);
    assert_eq!(ids(&mut bus), vec![(1, 1), (3, 3)]);
}

#[test]
fn transfer_moves_every_entry_with_its_timestamp() {
    let mut from = OrderBus::new();
    let mut to = OrderBus::new();
    to.append(order(1), 20);
    from.append(order(2), 10);
    from.append(order(3), 20);
    from.append(order(4), 30);
    transfer(&mut from, &mut to);
    assert_eq!(from.len(), 0);
    assert_eq!(ids(&mut to), vec![(2, 10), (1, 20), (3, 20), (4, 30)]);
}

#[test]
fn delivery_never_lies_before_the_sending() {
    assert_eq!(delivery_timestamp(100, 5), 105);
    assert_eq!(delivery_timestamp(100, 0), 100);
    assert_eq!(delivery_timestamp(i64::MAX - 1, 5), i64::MAX);
    assert_eq!(delivery_timestamp(i64::MIN, -1), i64::MIN);
    assert_eq!(earlier(3, 4), 3);
    assert_eq!(earlier(4, 3), 3);
}

#[test]
fn store_finds_orders_by_id_and_walks_them_as_they_came() {
    let mut store: OrderStore<i64> = OrderStore::new();
    assert_eq!(store.len(), 0);
    assert_eq!(store.insert(order(5)).map(|o| o.order_id), None);
    assert_eq!(store.insert(order(3)).map(|o| o.order_id), None);
    assert_eq!(store.insert(order(9)).map(|o| o.order_id), None);
    assert_eq!(store.order_ids(), vec![5, 3, 9]);
    assert_eq!(store.id_at(1), 3);
    assert!(store.contains_key(3) && !store.contains_key(4));
    let mut changed = order(3);
    changed.qty = 8;
    changed.leaves_qty = 8;
    assert_eq!(store.insert(changed).map(|o| o.qty), Some(1));
    assert_eq!(store.order_ids(), vec![5, 3, 9]);
    assert_eq!(store.get(3).map(|o| o.qty), Some(8));
    assert_eq!(store.get(4).map(|o| o.qty), None);
    assert_eq!(store.remove(5).map(|o| o.order_id), Some(5));
    assert_eq!(store.remove(5).map(|o| o.order_id), None);
    assert_eq!(store.order_ids(), vec![3, 9]);
    assert_eq!(store.len(), 2);
}

#[test]
fn index_lists_ids_by_tick() {
    let mut index = TickIndex::new();
    assert_eq!(index.get(1000), Vec::<i64>::new());
    index.add(1000, 1);
    index.add(1001, 2);
    index.add(1000, 3);
    assert_eq!(index.get(1000), vec![1, 3]);
    assert_eq!(index.get(1001), vec![2]);
    index.remove(1000, 1);
    assert_eq!(index.get(1000), vec![3]);
    index.remove(1000, 7);
    assert_eq!(index.get(1000), vec![3]);
    index.remove(1000, 3);
    assert_eq!(index.get(1000), Vec::<i64>::new());
    index.remove(999, 3);
    assert_eq!(index.get(1001), vec![2]);
}
