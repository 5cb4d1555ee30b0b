use hftbacktest::backtest::assettype::{AssetType, InverseAsset, LinearAsset, QuantoAsset};
use hftbacktest::backtest::state::{State, StateValues};
use hftbacktest::ty::{OrdType, Order, Side, Status, TimeInForce};

fn filled(side: Side, tick: i32, qty: u32, maker: bool) -> Order<i64> {
    let mut o: Order<i64> = Order::new(1, tick, 1, qty, side, OrdType::Limit, TimeInForce::GTC);
    o.exec_price_tick = tick;
    o.exec_qty = qty;
    o.leaves_qty = 0;
    o.status = Status::Filled;
    o.maker = maker;
    o
}

#[test]
fn linear_amount_is_price_times_quantity() {
    let asset = LinearAsset::new();
    assert_eq!(asset.amount(1001, 3), 3003);
    assert_eq!(asset.amount(-5, 4), -20);
    assert_eq!(asset.amount(i32::MAX, u32::MAX), 2147483647 * 4294967295);
    assert_eq!(asset.amount(i32::MIN, u32::MAX), -2147483648 * 4294967295);
    assert_eq!(asset.amount(0, 9), 0);
}

#[test]
fn inverse_amount_is_quantity_over_price() {
    let asset = InverseAsset::new(100);
    assert_eq!(asset.amount(1000, 25), 2);
    assert_eq!(asset.amount(1000, 30), 3);
    assert_eq!(asset.amount(1, 7), 700);
    assert_eq!(asset.amount(0, 7), 0);
    assert_eq!(asset.amount(-4, 7), 0);
}

#[test]
fn fresh_account_is_flat() {
    let state = State::new(LinearAsset::new(), -50, 200);
    let zero = StateValues {
        position: 0,
        balance: 0,
        fee: 0,
        trade_num: 0,
        trade_qty: 0,
        trade_amount: 0,
    };
    assert_eq!(state.state_values(), zero);
    assert_eq!((state.maker_fee, state.taker_fee), (-50, 200));
}

#[test]
fn fill_moves_position_balance_and_fee() {
    let mut state = State::new(LinearAsset::new(), -50, 200);
    state.apply_fill(&filled(Side::Buy, 1001, 3, true));
    let v = state.state_values();
    assert_eq!(v.position, 3);
    assert_eq!(v.balance, -3003);
    assert_eq!(v.fee, -150150);
    assert_eq!((v.trade_num, v.trade_qty, v.trade_amount), (1, 3, 3003));
    state.apply_fill(&filled(Side::Sell, 1000, 2, false));
    let v = state.state_values();
    assert_eq!(v.position, 1);
    assert_eq!(v.balance, -1003);
    assert_eq!(v.fee, -150150 + 400000);
    assert_eq!((v.trade_num, v.trade_qty, v.trade_amount), (2, 5, 5003));
}

#[test]
fn worth_of_the_account_grows_by_what_each_fill_gained() {
    let mut state = State::new(LinearAsset::new(), 10, 200);
    let price: i128 = 1005;
    let worth = |v: StateValues| 1_000_000 * (v.balance + v.position as i128 * price) - v.fee;
    let before = worth(state.state_values());
    state.apply_fill(&filled(Side::Buy, 1001, 3, true));
    state.apply_fill(&filled(Side::Sell, 1004, 1, false));
    let gain_buy = 1_000_000 * 3 * (price - 1001) - 3003 * 10;
    let gain_sell = -1_000_000 * (price - 1004) - 1004 * 200;
    assert_eq!(worth(state.state_values()), before + gain_buy + gain_sell);
}

#[test]
fn room_ends_where_the_position_could_pass_its_range() {
    let mut state = State::new(LinearAsset::new(), 0, 0);
    assert!(state.has_room(0));
    assert!(state.has_room(0x8000_0000));
    assert!(!state.has_room(0x8000_0001));
    assert!(!state.has_room(u64::MAX));
    state.apply_fill(&filled(Side::Buy, 1, u32::MAX, true));
    assert!(state.has_room(0x7fff_ffff));
    assert!(!state.has_room(0x8000_0000));
    state.position = i64::MAX;
    assert!(state.has_room(0));
    assert!(!state.has_room(1));
}

#[test]
fn quanto_amount_is_price_times_quantity_times_the_multiplier() {
    let asset = QuantoAsset::new(10);
    assert_eq!(asset.amount(1001, 3), 30030);
    assert_eq!(asset.amount(-5, 4), -200);
    assert_eq!(asset.amount(i32::MAX, u32::MAX), i64::MAX);
    assert_eq!(asset.amount(i32::MIN, u32::MAX), i64::MIN);
    assert_eq!(QuantoAsset::new(0).amount(1001, 3), 0);
}
