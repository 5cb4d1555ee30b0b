use hftbacktest::backtest::models::latencies::{
    ConstantLatency, IntpOrderLatency, LatencyModel, OrderLatencyRow,
};
use hftbacktest::backtest::models::queue::{
    clamp, sub_qty, PowerProbQueueFunc, ProbQueueFunc, ProbQueueModel, QueueModel, QueuePos,
    RiskAverseQueueModel,
};
use hftbacktest::depth::hashmapmarketdepth::HashMapMarketDepth;
use hftbacktest::depth::MarketDepth;
use hftbacktest::ty::{OrdType, Order, Side, TimeInForce};

fn row(req: i64, exch: i64, resp: i64) -> OrderLatencyRow {
    OrderLatencyRow { req_timestamp: req, exch_timestamp: exch, resp_timestamp: resp }
}

fn any_order<Q: Copy + Default>(side: Side, tick: i32) -> Order<Q> {
    Order::new(1, tick, 1, 1, side, OrdType::Limit, TimeInForce::GTC)
}

#[test]
fn constant_latency_is_the_same_for_every_order() {
    let model = ConstantLatency::new(7, 11);
    let order: Order<i64> = any_order(Side::Buy, 1000);
    assert_eq!(model.entry(0, &order), 7);
    assert_eq!(model.entry(i64::MAX, &order), 7);
    assert_eq!(model.response(5, &order), 11);
}

#[test]
fn interpolated_latency_lies_on_the_line_between_samples() {
    let model = IntpOrderLatency::new(vec![row(0, 10, 30), row(100, 130, 140)]).unwrap();
    let order: Order<i64> = any_order(Side::Buy, 1000);
    assert_eq!(model.entry(0, &order), 10);
    assert_eq!(model.entry(25, &order), 15);
    assert_eq!(model.entry(50, &order), 20);
    assert_eq!(model.entry(99, &order), 29);
    assert_eq!(model.entry(100, &order), 30);
    assert_eq!(model.response(0, &order), 20);
    assert_eq!(model.response(50, &order), 15);
    assert_eq!(model.response(33, &order), 17);
    assert_eq!(model.response(100, &order), 10);
}

#[test]
fn interpolated_latency_is_flat_outside_the_samples() {
    let model =
        IntpOrderLatency::new(vec![row(10, 15, 18), row(20, 29, 30), row(40, 41, 50)]).unwrap();
    let order: Order<i64> = any_order(Side::Sell, 1000);
    assert_eq!(model.entry(-1000, &order), 5);
    assert_eq!(model.entry(9, &order), 5);
    assert_eq!(model.entry(15, &order), 7);
    assert_eq!(model.entry(30, &order), 5);
    assert_eq!(model.entry(40, &order), 1);
    assert_eq!(model.entry(i64::MAX, &order), 1);
    assert_eq!(model.response(i64::MIN, &order), 3);
    assert_eq!(model.response(30, &order), 5);
    assert_eq!(model.response(1000, &order), 9);
}

#[test]
fn latency_series_must_be_sound() {
    assert!(IntpOrderLatency::new(vec![]).is_none());
    assert!(IntpOrderLatency::new(vec![row(0, 1, 2), row(0, 1, 2)]).is_none());
    assert!(IntpOrderLatency::new(vec![row(5, 6, 7), row(4, 6, 7)]).is_none());
    assert!(IntpOrderLatency::new(vec![row(5, 4, 7)]).is_none());
    assert!(IntpOrderLatency::new(vec![row(5, 6, 5)]).is_none());
    assert!(IntpOrderLatency::new(vec![row(i64::MIN, 1, 2)]).is_none());
    assert!(IntpOrderLatency::new(vec![row(5, 5, 5)]).is_some());
    assert!(IntpOrderLatency::is_valid(&vec![row(1, 2, 3), row(2, 2, 2)]));
}

#[test]
fn queue_arithmetic_holds_at_the_ends_of_the_range() {
    assert_eq!(sub_qty(5, 7), -2);
    assert_eq!(sub_qty(i64::MIN, 1), i64::MIN);
    assert_eq!(sub_qty(i64::MIN + 3, 5), i64::MIN);
    assert_eq!(clamp(i64::MAX as i128 + 1), i64::MAX);
    assert_eq!(clamp(i64::MIN as i128 - 1), i64::MIN);
    assert_eq!(clamp(-17), -17);
}

#[test]
fn cautious_model_moves_only_with_trades() {
    let mut depth = HashMapMarketDepth::new(1, 1);
    depth.update_bid_depth(1000, 7, 0);
    depth.update_ask_depth(1001, 4, 0);
    let model = RiskAverseQueueModel::new();
    let mut buy: Order<i64> = any_order(Side::Buy, 1000);
    model.new_order(&mut buy, &depth);
    assert_eq!(buy.q, 7);
    let mut sell: Order<i64> = any_order(Side::Sell, 1001);
    model.new_order(&mut sell, &depth);
    assert_eq!(sell.q, 4);
    let mut away: Order<i64> = any_order(Side::Sell, 1005);
    model.new_order(&mut away, &depth);
    assert_eq!(away.q, 0);

    model.trade(&mut buy, 3, &depth);
    assert_eq!(buy.q, 4);
    assert!(!model.is_filled(&buy, &depth));
    model.depth(&mut buy, 7, 10, &depth);
    assert_eq!(buy.q, 4);
    model.depth(&mut buy, 10, 2, &depth);
    assert_eq!(buy.q, 2);
    model.trade(&mut buy, 2, &depth);
    assert_eq!(buy.q, 0);
    assert!(!model.is_filled(&buy, &depth));
    model.trade(&mut buy, 1, &depth);
    assert_eq!(buy.q, -1);
    assert!(model.is_filled(&buy, &depth));
}

#[test]
fn power_weights_are_the_quantity_or_its_square() {
    assert!(PowerProbQueueFunc::new(0).is_none());
    assert!(PowerProbQueueFunc::new(3).is_none());
    let linear = PowerProbQueueFunc::new(1).unwrap();
    let square = PowerProbQueueFunc::new(2).unwrap();
    assert_eq!(linear.weight(9), 9);
    assert_eq!(square.weight(9), 81);
    assert_eq!(square.weight(u32::MAX), 0xffff_fffe_0000_0001);
    assert_eq!(linear.weight(0), 0);
}

#[test]
fn probabilistic_model_splits_a_decrease_by_weight() {
    let depth = HashMapMarketDepth::new(1, 1);
    let linear = ProbQueueModel::new(PowerProbQueueFunc::new(1).unwrap());
    let square = ProbQueueModel::new(PowerProbQueueFunc::new(2).unwrap());
    let start = |front: i64, cum: i64| {
        let mut o: Order<QueuePos> = any_order(Side::Buy, 1000);
        o.q = QueuePos { front_q_qty: front, cum_trade_qty: cum };
        o
    };

    let mut o = start(5, 0);
    linear.depth(&mut o, 10, 6, &depth);
    assert_eq!(o.q, QueuePos { front_q_qty: 3, cum_trade_qty: 0 });

    let mut o = start(2, 0);
    linear.depth(&mut o, 10, 4, &depth);
    assert_eq!(o.q, QueuePos { front_q_qty: 0, cum_trade_qty: 0 });

    let mut o = start(2, 0);
    square.depth(&mut o, 10, 4, &depth);
    assert_eq!(o.q, QueuePos { front_q_qty: 1, cum_trade_qty: 0 });

    // What has traded already has moved the order: only the rest counts.
    let mut o = start(5, 0);
    linear.trade(&mut o, 3, &depth);
    assert_eq!(o.q, QueuePos { front_q_qty: 2, cum_trade_qty: 3 });
    linear.depth(&mut o, 10, 7, &depth);
    assert_eq!(o.q, QueuePos { front_q_qty: 2, cum_trade_qty: 0 });

    // An increase joins at the back.
    let mut o = start(5, 0);
    linear.depth(&mut o, 5, 9, &depth);
    assert_eq!(o.q, QueuePos { front_q_qty: 5, cum_trade_qty: 0 });
    let mut o = start(12, 0);
    linear.depth(&mut o, 5, 9, &depth);
    assert_eq!(o.q, QueuePos { front_q_qty: 9, cum_trade_qty: 0 });

    // Nothing ahead and nothing behind: the whole decrease counts as behind.
    let mut o = start(0, 0);
    linear.depth(&mut o, 0, 0, &depth);
    assert_eq!(o.q, QueuePos { front_q_qty: 0, cum_trade_qty: 0 });

    // Most of the level leaves: the order ends up at the front.
    let mut o = start(8, 0);
    linear.depth(&mut o, 10, 1, &depth);
    assert_eq!(o.q, QueuePos { front_q_qty: 0, cum_trade_qty: 0 });

    // The order never has more ahead of it than the level holds.
    let mut o = start(9, 4);
    square.depth(&mut o, 10, 5, &depth);
    assert_eq!(o.q, QueuePos { front_q_qty: 5, cum_trade_qty: 0 });
    let mut o = start(9, 0);
    square.depth(&mut o, 10, 3, &depth);
    assert_eq!(o.q, QueuePos { front_q_qty: 2, cum_trade_qty: 0 });
}

#[test]
fn probabilistic_model_starts_behind_the_level() {
    let mut depth = HashMapMarketDepth::new(1, 1);
    depth.update_ask_depth(1001, 6, 0);
    let model = ProbQueueModel::new(PowerProbQueueFunc::new(1).unwrap());
    let mut o: Order<QueuePos> = any_order(Side::Sell, 1001);
    assert_eq!(o.q, QueuePos::default());
    model.new_order(&mut o, &depth);
    assert_eq!(o.q, QueuePos { front_q_qty: 6, cum_trade_qty: 0 });
    model.trade(&mut o, 6, &depth);
    assert!(!model.is_filled(&o, &depth));
    model.trade(&mut o, 1, &depth);
    assert!(model.is_filled(&o, &depth));
    assert_eq!(o.q, QueuePos { front_q_qty: -1, cum_trade_qty: 7 });
}
