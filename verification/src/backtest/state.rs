//! Position, balance and fee accounting.

use crate::backtest::assettype::AssetType;
use crate::ty::{Order, Side};
use vstd::prelude::*;

verus! {

/// The accumulated results of trading. Quantities are in lots, amounts in
/// the asset type's unit, and fees in millionths of that unit.
#[derive(Clone, Copy, Debug, PartialEq, Eq, Structural)]
pub struct StateValues {
    pub position: i64,
    pub balance: i128,
    pub fee: i128,
    pub trade_num: u64,
    pub trade_qty: u64,
    pub trade_amount: i128,
}

impl StateValues {
    /// `n` more fills fit, whatever their side, size and price: one fill
    /// moves at most `2^32 - 1` lots, an amount of at most `2^63` and a fee
    /// of at most `2^94`.
    pub open spec fn room(self, n: int) -> bool {
        &&& 0 <= n
        &&& i64::MIN <= self.position - n * 0xffff_ffff
        &&& self.position + n * 0xffff_ffff <= i64::MAX
        &&& i128::MIN <= self.balance - n * 0x8000_0000_0000_0000
        &&& self.balance + n * 0x8000_0000_0000_0000 <= i128::MAX
        &&& i128::MIN <= self.fee - n * 0x4000_0000_0000_0000_0000_0000
        &&& self.fee + n * 0x4000_0000_0000_0000_0000_0000 <= i128::MAX
        &&& self.trade_num + n <= u64::MAX
        &&& self.trade_qty + n * 0xffff_ffff <= u64::MAX
        &&& i128::MIN <= self.trade_amount - n * 0x8000_0000_0000_0000
        &&& self.trade_amount + n * 0x8000_0000_0000_0000 <= i128::MAX
    }

    /// The values after a fill of `exec_qty` lots on `side` that is worth
    /// `amount` and charged at `fee_rate` millionths: the position moves by
    /// the signed quantity, the balance against the signed amount, and the
    /// fee by rate times amount.
    pub open spec fn filled(self, side: Side, exec_qty: u32, amount: i64, fee_rate: i32) -> Self {
        StateValues {
            position: (self.position + side.signed(exec_qty as int)) as i64,
            balance: (self.balance - side.signed(amount as int)) as i128,
            fee: (self.fee + amount * fee_rate) as i128,
            trade_num: (self.trade_num + 1) as u64,
            trade_qty: (self.trade_qty + exec_qty) as u64,
            trade_amount: (self.trade_amount + amount) as i128,
        }
    }

    /// The values have at most `n` units of room less than `pre` had:
    /// where `pre` had room for `m` more fills, `m - n` more still fit.
    pub open spec fn spends(self, pre: StateValues, n: int) -> bool {
        forall|m: int| m >= n && #[trigger] pre.room(m) ==> self.room(m - n)
    }

    /// What the account is worth with the position valued at `price_tick`
    /// on a linear asset, in millionths: balance plus position times price,
    /// less the fee.
    pub open spec fn equity(self, price_tick: int) -> int {
        1_000_000 * (self.balance + self.position * price_tick) - self.fee
    }
}

/// One fill uses up one unit of room.
pub proof fn lemma_filled_room(
    v: StateValues,
    n: int,
    side: Side,
    exec_qty: u32,
    amount: i64,
    fee_rate: i32,
)
    requires
        n >= 1,
        v.room(n),
    ensures
        v.room(1),
        v.filled(side, exec_qty, amount, fee_rate).room(n - 1),
        v.filled(side, exec_qty, amount, fee_rate).position == v.position + side.signed(
            exec_qty as int,
        ),
        v.filled(side, exec_qty, amount, fee_rate).balance == v.balance
            - side.signed(amount as int),
        v.filled(side, exec_qty, amount, fee_rate).fee == v.fee + amount * fee_rate,
        v.filled(side, exec_qty, amount, fee_rate).trade_num == v.trade_num + 1,
        v.filled(side, exec_qty, amount, fee_rate).trade_qty == v.trade_qty + exec_qty,
        v.filled(side, exec_qty, amount, fee_rate).trade_amount == v.trade_amount + amount,
{
    lemma_fee_bound(amount, fee_rate);
}

/// The fee of one fill stays within `2^94`.
pub proof fn lemma_fee_bound(amount: i64, fee_rate: i32)
    ensures
        -0x4000_0000_0000_0000_0000_0000 <= amount * fee_rate <= 0x4000_0000_0000_0000_0000_0000,
{
    assert(-0x4000_0000_0000_0000_0000_0000 <= amount * fee_rate
        <= 0x4000_0000_0000_0000_0000_0000) by (nonlinear_arith)
        requires
            -0x8000_0000_0000_0000 <= amount <= 0x7fff_ffff_ffff_ffff,
            -0x8000_0000 <= fee_rate <= 0x7fff_ffff,
    ;
}

/// Room for more fills is room for fewer.
pub proof fn lemma_room_less(v: StateValues, n: int, m: int)
    requires
        v.room(n),
        0 <= m <= n,
    ensures
        v.room(m),
{
}

/// No account has room for more than `2^33` fills.
pub proof fn lemma_room_bound(v: StateValues, n: int)
    requires
        v.room(n),
    ensures
        0 <= n <= 0x2_0000_0000,
{
}

/// One fill spends one unit of room.
pub proof fn lemma_filled_spends(
    v: StateValues,
    side: Side,
    exec_qty: u32,
    amount: i64,
    fee_rate: i32,
)
    ensures
        v.filled(side, exec_qty, amount, fee_rate).spends(v, 1),
{
    assert forall|m: int| m >= 1 && #[trigger] v.room(m) implies v.filled(
        side,
        exec_qty,
        amount,
        fee_rate,
    ).room(m - 1) by {
        lemma_filled_room(v, m, side, exec_qty, amount, fee_rate);
    }
}

/// Spending adds up, and what spends little spends no more than much.
pub proof fn lemma_spends(a: StateValues, b: StateValues, c: StateValues, n1: int, n2: int, n: int)
    requires
        0 <= n1,
        0 <= n2,
        b.spends(a, n1),
        c.spends(b, n2),
        n1 + n2 <= n,
    ensures
        c.spends(a, n),
{
    assert forall|m: int| m >= n && #[trigger] a.room(m) implies c.room(m - n) by {
        assert(b.room(m - n1));
        assert(c.room(m - n1 - n2));
        lemma_room_less(c, m - n1 - n2, m - n);
    }
}

/// One execution on a linear asset: the side, the price, the quantity and
/// the fee rate in millionths of the amount.
pub struct Execution {
    pub side: Side,
    pub price_tick: i32,
    pub qty: u32,
    pub fee_rate: i32,
}

impl Execution {
    /// The amount of the execution: price times quantity.
    pub open spec fn amount(self) -> int {
        self.price_tick * self.qty
    }

    /// What the execution adds to the worth of the account with the
    /// position valued at `price_tick`, in millionths: the distance of the
    /// execution price from that price, for each lot bought or sold, less
    /// the fee.
    pub open spec fn gain(self, price_tick: int) -> int {
        1_000_000 * self.side.signed(self.qty * (price_tick - self.price_tick)) - self.amount()
            * self.fee_rate
    }
}

/// The values after the executions were booked one after the other.
pub open spec fn booked(v: StateValues, executions: Seq<Execution>) -> StateValues
    decreases executions.len(),
{
    if executions.len() == 0 {
        v
    } else {
        let e = executions.last();
        booked(v, executions.drop_last()).filled(e.side, e.qty, e.amount() as i64, e.fee_rate)
    }
}

/// What the executions add to the worth of the account with the position
/// valued at `price_tick`, in millionths.
pub open spec fn gains(executions: Seq<Execution>, price_tick: int) -> int
    decreases executions.len(),
{
    if executions.len() == 0 {
        0
    } else {
        gains(executions.drop_last(), price_tick) + executions.last().gain(price_tick)
    }
}

/// Nothing is lost in the books. After any executions on a linear asset the
/// worth of the account, with the position valued at any one price, is what
/// it was before plus what each execution gained against that price, less
/// the fees.
pub proof fn lemma_conservation(v: StateValues, executions: Seq<Execution>, price_tick: int)
    requires
        v.room(executions.len() as int),
    ensures
        booked(v, executions).room(0),
        booked(v, executions).spends(v, executions.len() as int),
        booked(v, executions).equity(price_tick) == v.equity(price_tick) + gains(
            executions,
            price_tick,
        ),
    decreases executions.len(),
{
    if executions.len() == 0 {
    } else {
        let rest = executions.drop_last();
        let e = executions.last();
        lemma_room_less(v, executions.len() as int, rest.len() as int);
        lemma_conservation(v, rest, price_tick);
        let w = booked(v, rest);
        assert(w.room(1));
        assert(-0x8000_0000_0000_0000 <= e.price_tick * e.qty <= 0x7fff_ffff_ffff_ffff)
            by (nonlinear_arith)
            requires
                -0x8000_0000 <= e.price_tick <= 0x7fff_ffff,
                0 <= e.qty <= 0xffff_ffff,
        ;
        let amount = e.amount() as i64;
        lemma_filled_room(w, 1, e.side, e.qty, amount, e.fee_rate);
        lemma_filled_spends(w, e.side, e.qty, amount, e.fee_rate);
        lemma_spends(v, w, booked(v, executions), rest.len() as int, 1, executions.len() as int);
        let u = w.filled(e.side, e.qty, amount, e.fee_rate);
        let s = e.side.signed(e.qty as int);
        assert(e.side.signed(amount as int) == s * e.price_tick) by (nonlinear_arith)
            requires
                amount == e.price_tick * e.qty,
                s == e.side.signed(e.qty as int),
                e.side.signed(amount as int) == if e.side == Side::Buy {
                    amount as int
                } else {
                    -amount
                },
                s == if e.side == Side::Buy {
                    e.qty as int
                } else {
                    -e.qty
                },
        ;
        assert(e.side.signed(e.qty * (price_tick - e.price_tick)) == s * price_tick - s
            * e.price_tick) by (nonlinear_arith)
            requires
                s == if e.side == Side::Buy {
                    e.qty as int
                } else {
                    -e.qty
                },
                e.side.signed(e.qty * (price_tick - e.price_tick)) == if e.side == Side::Buy {
                    e.qty * (price_tick - e.price_tick)
                } else {
                    -(e.qty * (price_tick - e.price_tick))
                },
        ;
        assert((w.position + s) * price_tick == w.position * price_tick + s * price_tick)
            by (nonlinear_arith);
    }
}

/// The trading account of one processor: the accumulated values, the two
/// fee rates in millionths of the amount, and the asset type.
pub struct State<AT> {
    pub position: i64,
    pub balance: i128,
    pub fee: i128,
    pub trade_num: u64,
    pub trade_qty: u64,
    pub trade_amount: i128,
    pub maker_fee: i32,
    pub taker_fee: i32,
    pub asset_type: AT,
}

impl<AT: AssetType> State<AT> {
    /// The accumulated values.
    pub open spec fn values(&self) -> StateValues {
        StateValues {
            position: self.position,
            balance: self.balance,
            fee: self.fee,
            trade_num: self.trade_num,
            trade_qty: self.trade_qty,
            trade_amount: self.trade_amount,
        }
    }

    /// The rate charged on a fill: the maker's or the taker's.
    pub open spec fn fee_rate(&self, maker: bool) -> i32 {
        if maker {
            self.maker_fee
        } else {
            self.taker_fee
        }
    }

    /// The values after the execution recorded on `order` was applied.
    pub open spec fn spec_apply_fill<Q>(&self, order: Order<Q>) -> StateValues {
        self.values().filled(
            order.side,
            order.exec_qty,
            self.asset_type.spec_amount(order.exec_price_tick, order.exec_qty),
            self.fee_rate(order.maker),
        )
    }

    /// The same account with other accumulated values.
    pub open spec fn with_values(&self, v: StateValues) -> Self {
        State {
            position: v.position,
            balance: v.balance,
            fee: v.fee,
            trade_num: v.trade_num,
            trade_qty: v.trade_qty,
            trade_amount: v.trade_amount,
            maker_fee: self.maker_fee,
            taker_fee: self.taker_fee,
            asset_type: self.asset_type,
        }
    }

    /// A flat account without history.
    pub fn new(asset_type: AT, maker_fee: i32, taker_fee: i32) -> (s: Self)
        ensures
            s.values() == (StateValues {
                position: 0,
                balance: 0,
                fee: 0,
                trade_num: 0,
                trade_qty: 0,
                trade_amount: 0,
            }),
            s.maker_fee == maker_fee,
            s.taker_fee == taker_fee,
            s.asset_type == asset_type,
            s.values().room(0x8000_0000),
    {
        State {
            position: 0,
            balance: 0,
            fee: 0,
            trade_num: 0,
            trade_qty: 0,
            trade_amount: 0,
            maker_fee,
            taker_fee,
            asset_type,
        }
    }

    /// Applies the execution recorded on `order`: its side, executed
    /// quantity, execution price and maker flag.
    pub fn apply_fill<Q>(&mut self, order: &Order<Q>)
        requires
            old(self).values().room(1),
        ensures
            *final(self) == old(self).with_values(old(self).spec_apply_fill(*order)),
    {
        let fee_rate = if order.maker {
            self.maker_fee
        } else {
            self.taker_fee
        };
        let amount: i64 = self.asset_type.amount(order.exec_price_tick, order.exec_qty);
        proof {
            lemma_filled_room(self.values(), 1, order.side, order.exec_qty, amount, fee_rate);
            lemma_fee_bound(amount, fee_rate);
        }
        match order.side {
            Side::Buy => {
                self.position = self.position + order.exec_qty as i64;
                self.balance = self.balance - amount as i128;
            },
            Side::Sell => {
                self.position = self.position - order.exec_qty as i64;
                self.balance = self.balance + amount as i128;
            },
        }
        let fee: i128 = amount as i128 * fee_rate as i128;
        self.fee = self.fee + fee;
        self.trade_num = self.trade_num + 1;
        self.trade_qty = self.trade_qty + order.exec_qty as u64;
        self.trade_amount = self.trade_amount + amount as i128;
    }

    /// The accumulated values.
    pub fn state_values(&self) -> (v: StateValues)
        ensures
            v == self.values(),
    {
        StateValues {
            position: self.position,
            balance: self.balance,
            fee: self.fee,
            trade_num: self.trade_num,
            trade_qty: self.trade_qty,
            trade_amount: self.trade_amount,
        }
    }

    /// Whether `n` more fills fit.
    pub fn has_room(&self, n: u64) -> (b: bool)
        ensures
            b == self.values().room(n as int),
    {
        if n > 0x1_0000_0000 {
            // Beyond this count the fee bound alone passes the range.
            return false;
        }
        let k: i128 = n as i128;
        let qty: i128 = k * 0xffff_ffff;
        let amount: i128 = k * 0x8000_0000_0000_0000;
        let fee: i128 = k * 0x4000_0000_0000_0000_0000_0000;
        i64::MIN as i128 + qty <= self.position as i128 && self.position as i128 <= i64::MAX as i128
            - qty && i128::MIN + amount <= self.balance && self.balance <= i128::MAX - amount
            && i128::MIN + fee <= self.fee && self.fee <= i128::MAX - fee && self.trade_num
            <= u64::MAX - n && self.trade_qty as i128 <= u64::MAX as i128 - qty && i128::MIN
            + amount <= self.trade_amount && self.trade_amount <= i128::MAX - amount
    }
}

} // verus!
